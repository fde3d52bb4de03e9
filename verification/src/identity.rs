//! What distinguishes one scenario run's log from every other run's.
use vstd::prelude::*;
use vstd::slice::*;
use vstd::string::*;
use vstd::utf8::*;

use crate::digest::{
    bound_text, bounded, byte_len, digest_text, fnv1a_hex, is_hex, lemma_bounded_chars,
    lemma_bounded_fits, lemma_digest_shape, lemma_encode_concat,
};
use crate::mask::{
    begins, lemma_mask_keeps_clean_text, lemma_mask_removes_secrets, mask_secrets, masked, occurs,
    star_bound, three_stars,
};
use crate::path::{parts, Component, Part, Platform};
use crate::rawpath::{parse_path, parsed};
use crate::string_map::{as_map, lemma_ordered_unique, ordered, Pairs, StringMap};
use crate::text::{
    decimal, decimal_text, lemma_decimal_is_digits, lemma_decimal_reads_back, same_text,
    slice_text, text_of, texts, to_chars, utf8_text,
};

verus! {

/// The longest file name that a log may occupy, in bytes.
pub const MAX_LOG_FILE_NAME: usize = 255;

/// The extra room that a log name's claim sidecar needs: `.` and `.claim`.
pub const CLAIM_SIDECAR_RESERVE: usize = 7;

/// The room needed after the stem: `.log`, the widest collision suffix `.1000`,
/// and what the sidecar adds.
pub const LOG_SUFFIX_RESERVE: usize = 4 + 5 + CLAIM_SIDECAR_RESERVE;

/// The longest stem that always leaves room for suffix, extension and sidecar.
pub const MAX_STEM_BYTES: usize = MAX_LOG_FILE_NAME - LOG_SUFFIX_RESERVE;

/// The largest claim key that is written, in bytes.
pub const MAX_CLAIM_KEY_BYTES: usize = 8192;

/// The characters that a file stem may hold as they are.
pub open spec fn stem_char(c: char) -> bool {
    ||| 'a' <= c <= 'z'
    ||| 'A' <= c <= 'Z'
    ||| '0' <= c <= '9'
    ||| c == '-'
    ||| c == '_'
    ||| c == '.'
}

/// One identity part as it stands in a file name: every other character becomes
/// `_`, and nothing at all becomes `scenario`.
pub open spec fn sanitized(name: Seq<char>) -> Seq<char> {
    if name.len() == 0 {
        "scenario"@
    } else {
        Seq::new(
            name.len(),
            |i: int|
                if stem_char(name[i]) {
                    name[i]
                } else {
                    '_'
                },
        )
    }
}

/// Reduce one identity part to a filesystem-safe stem.
pub fn sanitize_stem(name: &str) -> (r: String)
    ensures
        r@ == sanitized(name@),
{
    let chars = to_chars(name);
    if chars.len() == 0 {
        return "scenario".to_owned();
    }
    let mut out: Vec<char> = Vec::new();
    let mut i: usize = 0;
    while i < chars.len()
        invariant
            i <= chars@.len(),
            chars@ == name@,
            chars@.len() > 0,
            out@ =~= sanitized(name@).take(i as int),
        decreases chars@.len() - i,
    {
        let c = chars[i];
        let keep = ('a' <= c && c <= 'z') || ('A' <= c && c <= 'Z') || ('0' <= c && c <= '9') || c
            == '-' || c == '_' || c == '.';
        if keep {
            out.push(c);
        } else {
            out.push('_');
        }
        i = i + 1;
    }
    assert(out@ =~= sanitized(name@));
    text_of(out.as_slice())
}

/// What distinguishes one scenario run's log from every other run's.
#[derive(Debug)]
pub struct LogIdentity {
    /// The scenario file's stem (`a` for `a.yaml`), when the run came from a file.
    pub file_stem: Option<String>,
    /// The scenario file's extension (`yaml` for `a.yaml`).
    pub file_extension: Option<String>,
    /// The scenario's name.
    pub scenario_name: String,
    /// The matrix cell's values by axis, empty for a plain run.
    pub cell_coords: StringMap,
}

/// The mathematical value of a [`LogIdentity`].
pub ghost struct IdentityView {
    pub file_stem: Option<Seq<char>>,
    pub file_extension: Option<Seq<char>>,
    pub scenario_name: Seq<char>,
    pub cell_coords: Pairs,
}

/// The value of an optional text.
pub open spec fn text_value(text: Option<String>) -> Option<Seq<char>> {
    match text {
        Some(t) => Some(t@),
        None => None,
    }
}

/// An optional text, or nothing.
pub open spec fn text_or_empty(text: Option<Seq<char>>) -> Seq<char> {
    match text {
        Some(t) => t,
        None => Seq::empty(),
    }
}

impl View for LogIdentity {
    type V = IdentityView;

    open spec fn view(&self) -> IdentityView {
        IdentityView {
            file_stem: text_value(self.file_stem),
            file_extension: text_value(self.file_extension),
            scenario_name: self.scenario_name@,
            cell_coords: self.cell_coords@,
        }
    }
}

/// The same text, where there is one.
pub(crate) fn copy_text(text: &Option<String>) -> (r: Option<String>)
    ensures
        text_value(r) == text_value(*text),
{
    match text {
        Some(t) => Some(t.clone()),
        None => None,
    }
}

impl Clone for LogIdentity {
    fn clone(&self) -> (r: LogIdentity)
        ensures
            r@ == self@,
    {
        LogIdentity {
            file_stem: copy_text(&self.file_stem),
            file_extension: copy_text(&self.file_extension),
            scenario_name: self.scenario_name.clone(),
            cell_coords: self.cell_coords.clone(),
        }
    }
}

/// The index of the last `.` of a file name.
pub open spec fn last_dot(name: Seq<u8>) -> Option<int>
    decreases name.len(),
{
    if name.len() == 0 {
        None
    } else if name.last() == 46u8 {
        Some(name.len() - 1)
    } else {
        last_dot(name.drop_last())
    }
}

/// The file name that a path ends in.
pub open spec fn file_name(path: Seq<Part>) -> Option<Seq<u8>> {
    if path.len() > 0 {
        match path.last() {
            Part::Normal(name) => Some(name),
            _ => None,
        }
    } else {
        None
    }
}

/// A file name up to its last dot; all of it where there is none or where the only
/// one leads.
pub open spec fn stem_bytes(name: Seq<u8>) -> Seq<u8> {
    match last_dot(name) {
        Some(k) => if k > 0 {
            name.take(k)
        } else {
            name
        },
        None => name,
    }
}

/// What follows the last dot of a file name, unless that dot leads.
pub open spec fn extension_bytes(name: Seq<u8>) -> Option<Seq<u8>> {
    match last_dot(name) {
        Some(k) => if k > 0 {
            Some(name.skip(k + 1))
        } else {
            None
        },
        None => None,
    }
}

/// The text of bytes that are valid UTF-8.
pub open spec fn valid_text(bytes: Option<Seq<u8>>) -> Option<Seq<char>> {
    match bytes {
        Some(b) => if valid_utf8(b) {
            Some(decode_utf8(b))
        } else {
            None
        },
        None => None,
    }
}

/// The stem of the file that a path names, where it is text.
pub open spec fn path_stem(path: Seq<Part>) -> Option<Seq<char>> {
    match file_name(path) {
        Some(name) => valid_text(Some(stem_bytes(name))),
        None => None,
    }
}

/// The extension of the file that a path names, where it is text.
pub open spec fn path_extension(path: Seq<Part>) -> Option<Seq<char>> {
    match file_name(path) {
        Some(name) => valid_text(extension_bytes(name)),
        None => None,
    }
}

fn find_last_dot(name: &[u8]) -> (r: Option<usize>)
    ensures
        match r {
            Some(k) => last_dot(name@) == Some(k as int) && k < name@.len(),
            None => last_dot(name@) is None,
        },
{
    let mut n: usize = name.len();
    assert(name@.take(n as int) =~= name@);
    while n > 0
        invariant
            n <= name@.len(),
            last_dot(name@) == last_dot(name@.take(n as int)),
        decreases n,
    {
        if name[n - 1] == 46 {
            return Some(n - 1);
        }
        assert(name@.take(n as int).drop_last() =~= name@.take(n - 1));
        n = n - 1;
    }
    None
}

fn split_file_name(name: &[u8]) -> (r: (Option<String>, Option<String>))
    ensures
        text_value(r.0) == valid_text(Some(stem_bytes(name@))),
        text_value(r.1) == valid_text(extension_bytes(name@)),
{
    let end: usize = name.len();
    match find_last_dot(name) {
        Some(k) => if k > 0 {
            assert(name@.subrange(0, k as int) =~= name@.take(k as int));
            assert(name@.subrange(k + 1, name@.len() as int) =~= name@.skip(k + 1));
            (
                utf8_text(slice_subrange(name, 0, k)),
                utf8_text(slice_subrange(name, k + 1, end)),
            )
        } else {
            (utf8_text(name), None)
        },
        None => (utf8_text(name), None),
    }
}

impl Default for LogIdentity {
    fn default() -> (r: LogIdentity)
        ensures
            r@.file_stem is None,
            r@.file_extension is None,
            r@.scenario_name.len() == 0,
            r@.cell_coords.len() == 0,
    {
        LogIdentity {
            file_stem: None,
            file_extension: None,
            scenario_name: String::new(),
            cell_coords: StringMap::new(),
        }
    }
}

impl LogIdentity {
    /// Build the identity for a plain (non-matrix) run of `scenario_name`.
    pub fn new(scenario_name: &str) -> (r: LogIdentity)
        ensures
            r@.file_stem is None,
            r@.file_extension is None,
            r@.scenario_name == scenario_name@,
            r@.cell_coords.len() == 0,
    {
        LogIdentity {
            file_stem: None,
            file_extension: None,
            scenario_name: scenario_name.to_owned(),
            cell_coords: StringMap::new(),
        }
    }

    /// Return a copy pinned to the scenario file at `path`.
    ///
    /// A path with no usable stem (a bare `..`, or bytes that are not text) leaves
    /// the stem out.
    pub fn with_file(self, path: &[u8], platform: Platform) -> (r: LogIdentity)
        ensures
            r@ == (IdentityView {
                file_stem: path_stem(parsed(path@, platform)),
                file_extension: path_extension(parsed(path@, platform)),
                ..self@
            }),
    {
        let components = parse_path(path, platform);
        let mut file_stem: Option<String> = None;
        let mut file_extension: Option<String> = None;
        assert(parts(components@).len() == components@.len());
        if components.len() > 0 {
            let last = &components[components.len() - 1];
            assert(parts(components@).last() == last@);
            match last {
                Component::Normal(name) => {
                    let split = split_file_name(name.as_slice());
                    file_stem = split.0;
                    file_extension = split.1;
                },
                _ => {},
            }
        }
        LogIdentity {
            file_stem,
            file_extension,
            scenario_name: self.scenario_name,
            cell_coords: self.cell_coords,
        }
    }

    /// Return a copy pinned to one matrix cell's coordinates.
    pub fn with_cell(self, coords: StringMap) -> (r: LogIdentity)
        ensures
            r@ == (IdentityView { cell_coords: coords@, ..self@ }),
    {
        LogIdentity {
            file_stem: self.file_stem,
            file_extension: self.file_extension,
            scenario_name: self.scenario_name,
            cell_coords: coords,
        }
    }

    /// Return a copy carrying `name` as the scenario name.
    pub fn with_name(self, name: &str) -> (r: LogIdentity)
        ensures
            r@ == (IdentityView { scenario_name: name@, ..self@ }),
    {
        LogIdentity {
            file_stem: self.file_stem,
            file_extension: self.file_extension,
            scenario_name: name.to_owned(),
            cell_coords: self.cell_coords,
        }
    }
}

// ---------------------------------------------------------------------------
// Keys
// ---------------------------------------------------------------------------

/// The parts that make up an identity.
pub open spec fn identity_parts(id: IdentityView) -> Seq<Seq<char>> {
    seq![text_or_empty(id.file_stem), text_or_empty(id.file_extension), id.scenario_name]
        + coord_parts(id.cell_coords)
}

/// The keys and values of a list of entries, one after the other.
pub open spec fn coord_parts(coords: Pairs) -> Seq<Seq<char>>
    decreases coords.len(),
{
    if coords.len() == 0 {
        Seq::empty()
    } else {
        coord_parts(coords.drop_last()).push(coords.last().0).push(coords.last().1)
    }
}

/// One part of a key: its length in bytes, a colon, and the part.
pub open spec fn key_part(part: Seq<char>) -> Seq<char> {
    decimal(byte_len(part)) + seq![':'] + part
}

/// The key of a list of parts.
pub open spec fn key_of(list: Seq<Seq<char>>) -> Seq<char>
    decreases list.len(),
{
    if list.len() == 0 {
        Seq::empty()
    } else {
        key_of(list.drop_last()) + key_part(list.last())
    }
}

/// A list of texts, each masked.
pub open spec fn masked_all(list: Seq<Seq<char>>, secrets: Seq<Seq<char>>) -> Seq<Seq<char>> {
    Seq::new(list.len(), |i: int| masked(list[i], secrets))
}

/// The key that tells an identity from every other one.
pub open spec fn dedup_key_of(id: IdentityView) -> Seq<char> {
    key_of(identity_parts(id))
}

/// The key by which a later run finds its own log: masked part by part, and bounded.
pub open spec fn claim_key_of(id: IdentityView, secrets: Seq<Seq<char>>) -> Seq<char> {
    bounded(key_of(masked_all(identity_parts(id), secrets)), MAX_CLAIM_KEY_BYTES as nat)
}

fn push_part(key: &mut String, part: &str)
    ensures
        final(key)@ == old(key)@ + key_part(part@),
{
    let ghost before = key@;
    let length = decimal_text(part.as_bytes().len() as u128);
    key.append(length.as_str());
    key.push(':');
    key.append(part);
    assert(key@ =~= before + key_part(part@));
}

/// Append a part of a key, masked where there are secrets to mask with.
fn push_masked(key: &mut String, part: &str, secrets: Option<&[String]>)
    ensures
        final(key)@ == old(key)@ + key_part(
            match secrets {
                Some(list) => masked(part@, texts(list@)),
                None => part@,
            },
        ),
{
    match secrets {
        Some(list) => {
            let hidden = mask_secrets(part, list);
            push_part(key, hidden.as_str());
        },
        None => {
            push_part(key, part);
        },
    }
}

/// A list of parts, each masked where there are secrets to mask with.
pub open spec fn parts_for_key(list: Seq<Seq<char>>, secrets: Option<&[String]>) -> Seq<Seq<char>> {
    match secrets {
        Some(s) => masked_all(list, texts(s@)),
        None => list,
    }
}

proof fn lemma_key_step(list: Seq<Seq<char>>, n: int, secrets: Option<&[String]>)
    requires
        0 <= n < list.len(),
    ensures
        key_of(parts_for_key(list.take(n + 1), secrets)) == key_of(parts_for_key(list.take(n), secrets))
            + key_part(
            match secrets {
                Some(s) => masked(list[n], texts(s@)),
                None => list[n],
            },
        ),
{
    let longer = parts_for_key(list.take(n + 1), secrets);
    assert(longer.drop_last() =~= parts_for_key(list.take(n), secrets));
}

proof fn lemma_coord_parts(coords: Pairs, n: int)
    requires
        0 <= n <= coords.len(),
    ensures
        coord_parts(coords.take(n)).len() == 2 * n,
        coord_parts(coords.take(n)) == coord_parts(coords).take(2 * n),
        coord_parts(coords).len() == 2 * coords.len(),
        forall|i: int|
            0 <= i < n ==> coord_parts(coords)[2 * i] == (#[trigger] coords[i]).0 && coord_parts(coords)[2 * i
                + 1] == coords[i].1,
    decreases coords.len(),
{
    if coords.len() > 0 {
        let front = coords.drop_last();
        if n < coords.len() {
            lemma_coord_parts(front, n);
            assert(front.take(n) =~= coords.take(n));
            assert(coord_parts(coords).take(2 * n) =~= coord_parts(front).take(2 * n));
            assert forall|i: int| 0 <= i < n implies coord_parts(coords)[2 * i] == (#[trigger] coords[i]).0
                && coord_parts(coords)[2 * i + 1] == coords[i].1 by {
                assert(front[i] == coords[i]);
            }
        } else {
            lemma_coord_parts(front, n - 1);
            assert(coords.take(n) =~= coords);
            assert(coord_parts(coords).take(2 * n) =~= coord_parts(coords));
            assert forall|i: int| 0 <= i < n implies coord_parts(coords)[2 * i] == (#[trigger] coords[i]).0
                && coord_parts(coords)[2 * i + 1] == coords[i].1 by {
                if i < n - 1 {
                    assert(front[i] == coords[i]);
                }
            }
        }
    } else {
        assert(coords.take(n) =~= coords);
        assert(coord_parts(coords).take(0) =~= coord_parts(coords));
    }
}

fn or_empty(text: &Option<String>) -> (r: &str)
    ensures
        r@ == text_or_empty(text_value(*text)),
{
    match text {
        Some(t) => t.as_str(),
        None => {
            proof {
                reveal_strlit("");
                assert(""@ =~= Seq::<char>::empty());
            }
            ""
        },
    }
}

impl LogIdentity {
    fn key_from(&self, secrets: Option<&[String]>) -> (r: String)
        ensures
            r@ == key_of(parts_for_key(identity_parts(self@), secrets)),
    {
        let ghost all = identity_parts(self@);
        let ghost coords = self@.cell_coords;
        let mut key = String::new();
        let stem = or_empty(&self.file_stem);
        let extension = or_empty(&self.file_extension);
        proof {
            assert(parts_for_key(all.take(0), secrets) =~= Seq::<Seq<char>>::empty());
            lemma_key_step(all, 0, secrets);
            lemma_key_step(all, 1, secrets);
            lemma_key_step(all, 2, secrets);
        }
        push_masked(&mut key, stem, secrets);
        push_masked(&mut key, extension, secrets);
        push_masked(&mut key, self.scenario_name.as_str(), secrets);
        let mut i: usize = 0;
        let n = self.cell_coords.len();
        while i < n
            invariant
                i <= n == self@.cell_coords.len(),
                all == identity_parts(self@),
                coords == self@.cell_coords,
                key@ == key_of(parts_for_key(all.take(3 + 2 * i), secrets)),
            decreases n - i,
        {
            proof {
                lemma_coord_parts(coords, coords.len() as int);
                assert(all[3 + 2 * i] == coord_parts(coords)[2 * i]);
                assert(all[4 + 2 * i] == coord_parts(coords)[2 * i + 1]);
                assert(coords[i as int] == coords[i as int]);
                lemma_key_step(all, 3 + 2 * i, secrets);
                lemma_key_step(all, 4 + 2 * i, secrets);
            }
            push_masked(&mut key, self.cell_coords.key(i), secrets);
            push_masked(&mut key, self.cell_coords.value(i), secrets);
            i = i + 1;
        }
        proof {
            lemma_coord_parts(coords, coords.len() as int);
            assert(all.take(3 + 2 * i) =~= all);
        }
        key
    }

    /// A key that distinguishes this identity from every other one.
    ///
    /// Each part is length-prefixed, so no content can forge a separator.
    pub fn dedup_key(&self) -> (r: String)
        ensures
            r@ == dedup_key_of(self@),
    {
        self.key_from(None)
    }

    /// The value recorded in this run's claim sidecar, matched by a later run. It is
    /// masked, so it holds no secret.
    pub fn claim_key(&self, secrets: &[String]) -> (r: String)
        ensures
            r@ == claim_key_of(self@, texts(secrets@)),
            byte_len(r@) <= MAX_CLAIM_KEY_BYTES,
    {
        let key = self.key_from(Some(secrets));
        bound_text(key.as_str(), MAX_CLAIM_KEY_BYTES)
    }

    /// The discriminator appended to a file name whose masking was lossy. It is a
    /// plain digest of the unmasked identity and protects nothing.
    pub fn name_discriminator(&self) -> (r: String)
        ensures
            r@ == digest_text(encode_utf8(dedup_key_of(self@))),
    {
        let key = self.dedup_key();
        fnv1a_hex(key.as_str().as_bytes())
    }
}

// ---------------------------------------------------------------------------
// File names
// ---------------------------------------------------------------------------

/// An ASCII letter in lower case; any other character as it is.
pub open spec fn ascii_lower(c: char) -> char {
    if 'A' <= c <= 'Z' {
        (c as u32 + 32) as char
    } else {
        c
    }
}

/// Whether an extension is `yaml`, in any mixture of cases.
pub open spec fn canonical_extension(extension: Seq<char>) -> bool {
    &&& extension.len() == 4
    &&& ascii_lower(extension[0]) == 'y'
    &&& ascii_lower(extension[1]) == 'a'
    &&& ascii_lower(extension[2]) == 'm'
    &&& ascii_lower(extension[3]) == 'l'
}

/// A text as it stands in a file name: masked, then sanitized.
pub open spec fn hidden_part(text: Seq<char>, secrets: Seq<Seq<char>>) -> Seq<char> {
    sanitized(masked(text, secrets))
}

/// The part of a log name that comes from the scenario file. The extension shows
/// only where it is not the usual one.
pub open spec fn file_part(stem: Seq<char>, extension: Option<Seq<char>>, secrets: Seq<Seq<char>>) -> Seq<char> {
    match extension {
        Some(ext) => if canonical_extension(ext) {
            hidden_part(stem, secrets)
        } else {
            hidden_part(stem, secrets) + seq!['-'] + hidden_part(ext, secrets)
        },
        None => hidden_part(stem, secrets),
    }
}

/// The part of a log name that comes from the matrix cell, in axis order.
pub open spec fn cell_part(coords: Pairs, secrets: Seq<Seq<char>>) -> Seq<char>
    decreases coords.len(),
{
    if coords.len() == 0 {
        Seq::empty()
    } else {
        cell_part(coords.drop_last(), secrets) + seq!['.'] + hidden_part(coords.last().0, secrets)
            + seq!['-'] + hidden_part(coords.last().1, secrets)
    }
}

/// The parts of a log name joined by dots. The file part is left out where it only
/// repeats the name.
pub open spec fn joined_stem(id: IdentityView, secrets: Seq<Seq<char>>) -> Seq<char> {
    let name = sanitized(id.scenario_name);
    let front = match id.file_stem {
        Some(stem) => {
            let file = file_part(stem, id.file_extension, secrets);
            if file != name {
                file + seq!['.']
            } else {
                Seq::empty()
            }
        },
        None => Seq::empty(),
    };
    front + name + cell_part(id.cell_coords, secrets)
}

/// Whether masking changes a text.
pub open spec fn touched(text: Seq<char>, secrets: Seq<Seq<char>>) -> bool {
    masked(text, secrets) != text
}

/// Whether masking changes any key or value of a list of entries.
pub open spec fn coords_touched(coords: Pairs, secrets: Seq<Seq<char>>) -> bool {
    exists|i: int|
        0 <= i < coords.len() && (touched((#[trigger] coords[i]).0, secrets) || touched(coords[i].1, secrets))
}

/// Whether masking changes anything that the log name is made of, its name aside.
pub open spec fn masking_shows(id: IdentityView, secrets: Seq<Seq<char>>) -> bool {
    ||| id.file_stem is Some && touched(id.file_stem->0, secrets)
    ||| id.file_extension is Some && touched(id.file_extension->0, secrets)
    ||| coords_touched(id.cell_coords, secrets)
}

/// The file stem that an identity writes to, before collisions are resolved.
///
/// Where masking removed text, the first eight digits of a digest of the unmasked
/// identity keep apart what masking made alike.
pub open spec fn stem_of(id: IdentityView, secrets: Seq<Seq<char>>) -> Seq<char> {
    let plain = joined_stem(id, secrets);
    let marked = if masking_shows(id, secrets) {
        plain + seq!['-'] + digest_text(encode_utf8(dedup_key_of(id))).take(8)
    } else {
        plain
    };
    bounded(marked, MAX_STEM_BYTES as nat)
}

/// Shorten `stem` to what leaves room for suffix, extension and sidecar, ending it
/// with a digest of the whole.
pub fn bound_stem(stem: &str) -> (r: String)
    ensures
        r@ == bounded(stem@, MAX_STEM_BYTES as nat),
        byte_len(r@) <= MAX_STEM_BYTES,
{
    bound_text(stem, MAX_STEM_BYTES)
}

fn is_canonical_extension(extension: &str) -> (r: bool)
    ensures
        r == canonical_extension(extension@),
{
    let chars = to_chars(extension);
    chars.len() == 4 && (chars[0] == 'y' || chars[0] == 'Y') && (chars[1] == 'a' || chars[1] == 'A')
        && (chars[2] == 'm' || chars[2] == 'M') && (chars[3] == 'l' || chars[3] == 'L')
}

fn hide_part(text: &str, secrets: &[String]) -> (r: String)
    ensures
        r@ == hidden_part(text@, texts(secrets@)),
{
    let hidden = mask_secrets(text, secrets);
    sanitize_stem(hidden.as_str())
}

fn is_touched(text: &str, secrets: &[String]) -> (r: bool)
    ensures
        r == touched(text@, texts(secrets@)),
{
    let hidden = mask_secrets(text, secrets);
    !same_text(hidden.as_str(), text)
}

impl LogIdentity {
    /// Whether masking altered any component that this scheme puts in the file name.
    pub fn masking_changed_the_stem(&self, secrets: &[String]) -> (r: bool)
        ensures
            r == masking_shows(self@, texts(secrets@)),
    {
        match &self.file_stem {
            Some(stem) => if is_touched(stem.as_str(), secrets) {
                return true;
            },
            None => {},
        }
        match &self.file_extension {
            Some(extension) => if is_touched(extension.as_str(), secrets) {
                return true;
            },
            None => {},
        }
        let ghost coords = self@.cell_coords;
        let n = self.cell_coords.len();
        let mut i: usize = 0;
        while i < n
            invariant
                i <= n == coords.len(),
                coords == self@.cell_coords,
                forall|j: int|
                    0 <= j < i ==> !touched((#[trigger] coords[j]).0, texts(secrets@)) && !touched(
                        coords[j].1,
                        texts(secrets@),
                    ),
            decreases n - i,
        {
            if is_touched(self.cell_coords.key(i), secrets) || is_touched(
                self.cell_coords.value(i),
                secrets,
            ) {
                assert(coords_touched(coords, texts(secrets@))) by {
                    assert(touched(coords[i as int].0, texts(secrets@)) || touched(
                        coords[i as int].1,
                        texts(secrets@),
                    ));
                }
                return true;
            }
            i = i + 1;
        }
        false
    }

    /// The file stem this identity writes to, before collision resolution.
    pub fn stem(&self, secrets: &[String]) -> (r: String)
        ensures
            r@ == stem_of(self@, texts(secrets@)),
            byte_len(r@) <= MAX_STEM_BYTES,
    {
        let ghost hide = texts(secrets@);
        let name = sanitize_stem(self.scenario_name.as_str());
        let mut out = String::new();
        match &self.file_stem {
            Some(stem) => {
                let mut file = hide_part(stem.as_str(), secrets);
                match &self.file_extension {
                    Some(extension) => if !is_canonical_extension(extension.as_str()) {
                        let hidden = hide_part(extension.as_str(), secrets);
                        file.push('-');
                        file.append(hidden.as_str());
                        assert(file@ =~= hidden_part(stem@, hide) + seq!['-'] + hidden_part(
                            extension@,
                            hide,
                        ));
                    },
                    None => {},
                }
                assert(file@ == file_part(stem@, self@.file_extension, hide));
                if !same_text(file.as_str(), name.as_str()) {
                    out = file;
                    out.push('.');
                    assert(out@ =~= file_part(stem@, self@.file_extension, hide) + seq!['.']);
                }
            },
            None => {},
        }
        let ghost front = out@;
        out.append(name.as_str());
        let ghost coords = self@.cell_coords;
        let n = self.cell_coords.len();
        let mut i: usize = 0;
        proof {
            assert(coords.take(0) =~= Seq::empty());
            assert(out@ =~= front + name@ + cell_part(coords.take(0), hide));
        }
        while i < n
            invariant
                i <= n == coords.len(),
                coords == self@.cell_coords,
                hide == texts(secrets@),
                out@ == front + name@ + cell_part(coords.take(i as int), hide),
            decreases n - i,
        {
            let ghost before = out@;
            let axis = hide_part(self.cell_coords.key(i), secrets);
            let value = hide_part(self.cell_coords.value(i), secrets);
            out.push('.');
            out.append(axis.as_str());
            out.push('-');
            out.append(value.as_str());
            proof {
                assert(coords.take(i + 1).drop_last() =~= coords.take(i as int));
                assert(coords.take(i + 1).last() == coords[i as int]);
                assert(out@ =~= front + name@ + cell_part(coords.take(i + 1), hide));
            }
            i = i + 1;
        }
        assert(coords.take(n as int) =~= coords);
        assert(out@ == joined_stem(self@, hide));
        if self.masking_changed_the_stem(secrets) {
            let discriminator = to_chars(self.name_discriminator().as_str());
            proof {
                lemma_digest_shape(encode_utf8(dedup_key_of(self@)));
            }
            let short = slice_text(discriminator.as_slice(), 0, 8);
            let ghost plain = out@;
            out.push('-');
            out.append(short.as_str());
            assert(discriminator@.subrange(0, 8) =~= discriminator@.take(8));
            assert(out@ =~= plain + seq!['-'] + discriminator@.take(8));
        }
        bound_stem(out.as_str())
    }
}

// ---------------------------------------------------------------------------
// Laws
// ---------------------------------------------------------------------------

proof fn lemma_key_from_front(list: Seq<Seq<char>>)
    requires
        list.len() > 0,
    ensures
        key_of(list) == key_part(list[0]) + key_of(list.skip(1)),
    decreases list.len(),
{
    let front = list.drop_last();
    if list.len() == 1 {
        assert(front =~= Seq::<Seq<char>>::empty());
        assert(list.skip(1) =~= Seq::<Seq<char>>::empty());
        assert(key_of(list) =~= key_part(list[0]) + key_of(list.skip(1)));
    } else {
        lemma_key_from_front(front);
        assert(list.skip(1).drop_last() =~= front.skip(1));
        assert(key_of(list) =~= key_part(list[0]) + key_of(list.skip(1)));
    }
}

proof fn lemma_byte_len_positive(text: Seq<char>)
    requires
        text.len() > 0,
    ensures
        byte_len(text) > 0,
{
}

/// The beginnings of one text that take the same number of bytes are the same.
proof fn lemma_same_bytes_same_beginning(a: Seq<char>, b: Seq<char>, x: Seq<char>, y: Seq<char>)
    requires
        a + x == b + y,
        byte_len(a) == byte_len(b),
    ensures
        a == b,
        x == y,
{
    let whole = a + x;
    assert(whole.take(a.len() as int) =~= a);
    assert(whole.take(b.len() as int) =~= b);
    assert(whole.skip(a.len() as int) =~= x);
    assert(whole.skip(b.len() as int) =~= y);
    if a.len() < b.len() {
        let more = b.skip(a.len() as int);
        assert(b =~= a + more) by {
            assert(b.take(a.len() as int) =~= whole.take(a.len() as int));
        }
        lemma_encode_concat(a, more);
        lemma_byte_len_positive(more);
    } else if b.len() < a.len() {
        let more = a.skip(b.len() as int);
        assert(a =~= b + more) by {
            assert(a.take(b.len() as int) =~= whole.take(b.len() as int));
        }
        lemma_encode_concat(b, more);
        lemma_byte_len_positive(more);
    }
}

/// A numeral followed by a colon can be read in one way only.
pub proof fn lemma_same_number(m: nat, n: nat, x: Seq<char>, y: Seq<char>)
    requires
        decimal(m) + seq![':'] + x == decimal(n) + seq![':'] + y,
    ensures
        m == n,
        x == y,
{
    let a = decimal(m);
    let b = decimal(n);
    let whole = a + seq![':'] + x;
    lemma_decimal_is_digits(m);
    lemma_decimal_is_digits(n);
    assert(whole[a.len() as int] == ':');
    assert((b + seq![':'] + y)[b.len() as int] == ':');
    if a.len() < b.len() {
        assert((b + seq![':'] + y)[a.len() as int] == b[a.len() as int]);
    } else if b.len() < a.len() {
        assert(whole[b.len() as int] == a[b.len() as int]);
    }
    assert(whole.take(a.len() as int) =~= a);
    assert((b + seq![':'] + y).take(b.len() as int) =~= b);
    assert(whole.skip((a.len() + 1) as int) =~= x);
    assert((b + seq![':'] + y).skip((b.len() + 1) as int) =~= y);
    lemma_decimal_reads_back(m);
    lemma_decimal_reads_back(n);
}

/// No two lists of parts have the same key, whatever the parts hold.
pub proof fn lemma_key_injective(a: Seq<Seq<char>>, b: Seq<Seq<char>>)
    requires
        key_of(a) == key_of(b),
    ensures
        a == b,
    decreases a.len(),
{
    if a.len() > 0 {
        lemma_key_from_front(a);
    }
    if b.len() > 0 {
        lemma_key_from_front(b);
    }
    if a.len() == 0 || b.len() == 0 {
        assert(a =~= b);
    } else {
        let x = key_of(a.skip(1));
        let y = key_of(b.skip(1));
        assert(key_of(a) =~= decimal(byte_len(a[0])) + seq![':'] + (a[0] + x));
        assert(key_of(b) =~= decimal(byte_len(b[0])) + seq![':'] + (b[0] + y));
        lemma_same_number(byte_len(a[0]), byte_len(b[0]), a[0] + x, b[0] + y);
        lemma_same_bytes_same_beginning(a[0], b[0], x, y);
        lemma_key_injective(a.skip(1), b.skip(1));
        assert(a =~= seq![a[0]] + a.skip(1));
        assert(b =~= seq![b[0]] + b.skip(1));
    }
}

/// Two identities with the same key are the same, but for a stem or an extension
/// that is missing in one and empty in the other.
pub proof fn lemma_dedup_key_tells_identities_apart(a: IdentityView, b: IdentityView)
    requires
        dedup_key_of(a) == dedup_key_of(b),
    ensures
        text_or_empty(a.file_stem) == text_or_empty(b.file_stem),
        text_or_empty(a.file_extension) == text_or_empty(b.file_extension),
        a.scenario_name == b.scenario_name,
        a.cell_coords == b.cell_coords,
{
    let x = identity_parts(a);
    let y = identity_parts(b);
    lemma_key_injective(x, y);
    assert(x[0] == text_or_empty(a.file_stem) && y[0] == text_or_empty(b.file_stem));
    assert(x[1] == text_or_empty(a.file_extension) && y[1] == text_or_empty(b.file_extension));
    assert(x[2] == a.scenario_name && y[2] == b.scenario_name);
    assert(x.skip(3) =~= coord_parts(a.cell_coords));
    assert(y.skip(3) =~= coord_parts(b.cell_coords));
    lemma_coord_parts(a.cell_coords, a.cell_coords.len() as int);
    lemma_coord_parts(b.cell_coords, b.cell_coords.len() as int);
    assert forall|i: int| 0 <= i < a.cell_coords.len() implies a.cell_coords[i] == b.cell_coords[i] by {
        assert(a.cell_coords[i].0 == coord_parts(a.cell_coords)[2 * i]);
        assert(b.cell_coords[i].0 == coord_parts(b.cell_coords)[2 * i]);
    }
    assert(a.cell_coords =~= b.cell_coords);
}

/// Whether no part of an identity is there but empty.
pub open spec fn whole(id: IdentityView) -> bool {
    &&& id.file_stem matches Some(stem) ==> stem.len() > 0
    &&& id.file_extension matches Some(extension) ==> extension.len() > 0
}

/// Two such identities with the same key are the same.
pub proof fn lemma_whole_identities_have_their_keys(a: IdentityView, b: IdentityView)
    requires
        whole(a),
        whole(b),
        dedup_key_of(a) == dedup_key_of(b),
    ensures
        a == b,
{
    lemma_dedup_key_tells_identities_apart(a, b);
}

/// Two identities whose parts mask to the same texts have the same claim key: the
/// record holds nothing that masking removed.
pub proof fn lemma_claim_key_sees_masked_parts_only(
    a: IdentityView,
    b: IdentityView,
    secrets: Seq<Seq<char>>,
)
    requires
        masked_all(identity_parts(a), secrets) == masked_all(identity_parts(b), secrets),
    ensures
        claim_key_of(a, secrets) == claim_key_of(b, secrets),
{
}

/// Two runs of one cell get the same names and keys, in whatever order their axes
/// were given.
pub proof fn lemma_cell_order_does_not_matter(a: IdentityView, b: IdentityView, secrets: Seq<Seq<char>>)
    requires
        ordered(a.cell_coords),
        ordered(b.cell_coords),
        as_map(a.cell_coords) == as_map(b.cell_coords),
        a.file_stem == b.file_stem,
        a.file_extension == b.file_extension,
        a.scenario_name == b.scenario_name,
    ensures
        stem_of(a, secrets) == stem_of(b, secrets),
        dedup_key_of(a) == dedup_key_of(b),
        claim_key_of(a, secrets) == claim_key_of(b, secrets),
{
    lemma_ordered_unique(a.cell_coords, b.cell_coords);
}

/// Whether a text holds only characters that a log stem may hold.
pub open spec fn all_stem_chars(text: Seq<char>) -> bool {
    forall|i: int| 0 <= i < text.len() ==> stem_char(#[trigger] text[i])
}

/// Sanitized text cannot name another directory: it is not empty and holds nothing
/// but letters, digits, `-`, `_` and `.`.
pub proof fn lemma_sanitized_is_safe(name: Seq<char>)
    ensures
        sanitized(name).len() > 0,
        all_stem_chars(sanitized(name)),
{
    reveal_strlit("scenario");
    if name.len() == 0 {
        assert("scenario"@ =~= seq!['s', 'c', 'e', 'n', 'a', 'r', 'i', 'o']);
    }
}

proof fn lemma_cell_part_is_safe(coords: Pairs, secrets: Seq<Seq<char>>)
    ensures
        all_stem_chars(cell_part(coords, secrets)),
    decreases coords.len(),
{
    if coords.len() > 0 {
        lemma_cell_part_is_safe(coords.drop_last(), secrets);
        lemma_sanitized_is_safe(masked(coords.last().0, secrets));
        lemma_sanitized_is_safe(masked(coords.last().1, secrets));
    }
}

/// Every log stem is not empty, fits the room that a log name has, and holds
/// nothing but letters, digits, `-`, `_`, `.` and `~`: it cannot leave the
/// directory that it stands in.
pub proof fn lemma_stem_is_safe(id: IdentityView, secrets: Seq<Seq<char>>)
    ensures
        stem_of(id, secrets).len() > 0,
        byte_len(stem_of(id, secrets)) <= MAX_STEM_BYTES,
        forall|i: int|
            0 <= i < stem_of(id, secrets).len() ==> stem_char(#[trigger] stem_of(id, secrets)[i]) || stem_of(
                id,
                secrets,
            )[i] == '~',
{
    let name = sanitized(id.scenario_name);
    lemma_sanitized_is_safe(id.scenario_name);
    lemma_cell_part_is_safe(id.cell_coords, secrets);
    match id.file_stem {
        Some(stem) => {
            lemma_sanitized_is_safe(masked(stem, secrets));
            match id.file_extension {
                Some(extension) => {
                    lemma_sanitized_is_safe(masked(extension, secrets));
                },
                None => {},
            }
        },
        None => {},
    }
    let plain = joined_stem(id, secrets);
    assert(all_stem_chars(plain));
    let digest = digest_text(encode_utf8(dedup_key_of(id)));
    lemma_digest_shape(encode_utf8(dedup_key_of(id)));
    let marked = if masking_shows(id, secrets) {
        plain + seq!['-'] + digest.take(8)
    } else {
        plain
    };
    assert(all_stem_chars(marked)) by {
        assert forall|i: int| 0 <= i < marked.len() implies stem_char(#[trigger] marked[i]) by {
            if i > plain.len() {
                assert(marked[i] == digest[i - plain.len() - 1]);
                assert(is_hex(digest[i - plain.len() - 1]));
            }
        }
    }
    lemma_bounded_fits(marked, MAX_STEM_BYTES as nat);
    lemma_bounded_chars(marked, MAX_STEM_BYTES as nat);
    let out = stem_of(id, secrets);
    assert forall|i: int| 0 <= i < out.len() implies stem_char(#[trigger] out[i]) || out[i] == '~' by {
        if marked.contains(out[i]) {
            let k = choose|k: int| 0 <= k < marked.len() && marked[k] == out[i];
            assert(stem_char(marked[k]));
        }
    }
}

/// A secret does not stand in what the file name shows of a text, unless it holds a
/// `_`, which sanitizing writes, and nothing that sanitizing replaces.
pub proof fn lemma_file_name_hides_secrets(text: Seq<char>, secrets: Seq<Seq<char>>, k: int)
    requires
        0 <= k < secrets.len(),
        secrets[k].len() > 0,
        !secrets[k].contains('_') || !all_stem_chars(secrets[k]),
        text.len() > 0 || !occurs(secrets[k], "scenario"@),
    ensures
        !occurs(secrets[k], hidden_part(text, secrets)),
{
    let secret = secrets[k];
    let hidden = masked(text, secrets);
    let out = hidden_part(text, secrets);
    if text.len() > 0 && occurs(secret, out) {
        let p = choose|p: int| 0 <= p <= out.len() && begins(#[trigger] out.skip(p), secret);
        lemma_sanitized_is_safe(hidden);
        assert forall|i: int| 0 <= i < secret.len() implies out[p + i] == #[trigger] secret[i] && stem_char(
            secret[i],
        ) by {
            assert(out.skip(p).take(secret.len() as int)[i] == secret[i]);
            assert(stem_char(out[p + i]));
        }
        assert(!star_bound(secret)) by {
            assert(stem_char(secret[0]));
            assert(stem_char(secret[secret.len() - 1]));
            if three_stars(secret) {
                let j = choose|j: int|
                    0 <= j && j + 2 < secret.len() && #[trigger] secret[j] == '*' && secret[j + 1] == '*'
                        && secret[j + 2] == '*';
                assert(stem_char(secret[j]));
            }
        }
        lemma_mask_removes_secrets(text, secrets, k);
        assert(hidden.len() > 0);
        assert(begins(hidden.skip(p), secret)) by {
            assert forall|i: int| 0 <= i < secret.len() implies hidden.skip(p)[i] == secret[i] by {
                assert(out[p + i] == secret[i]);
                assert(secret.contains(secret[i]));
            }
            assert(hidden.skip(p).take(secret.len() as int) =~= secret);
        }
        assert(occurs(secret, hidden));
    }
}

proof fn lemma_untouched_cell(coords: Pairs, secrets: Seq<Seq<char>>)
    requires
        !coords_touched(coords, secrets),
    ensures
        cell_part(coords, secrets) == cell_part(coords, Seq::empty()),
        !coords_touched(coords, Seq::empty()),
    decreases coords.len(),
{
    assert forall|i: int| 0 <= i < coords.len() implies !touched((#[trigger] coords[i]).0, Seq::empty()) && !touched(
        coords[i].1,
        Seq::empty(),
    ) by {
        lemma_mask_keeps_clean_text(coords[i].0, Seq::empty());
        lemma_mask_keeps_clean_text(coords[i].1, Seq::empty());
    }
    if coords.len() > 0 {
        let front = coords.drop_last();
        assert(!coords_touched(front, secrets)) by {
            assert forall|i: int| 0 <= i < front.len() implies !touched((#[trigger] front[i]).0, secrets)
                && !touched(front[i].1, secrets) by {
                assert(front[i] == coords[i]);
            }
        }
        lemma_untouched_cell(front, secrets);
        let last = coords[coords.len() - 1];
        assert(!touched(last.0, secrets) && !touched(last.1, secrets));
    }
}

/// A file name with no secret in it is left exactly as it would read without any
/// secrets.
pub proof fn lemma_untouched_name_stays(id: IdentityView, secrets: Seq<Seq<char>>)
    requires
        !masking_shows(id, secrets),
    ensures
        stem_of(id, secrets) == stem_of(id, Seq::empty()),
        stem_of(id, secrets) == bounded(joined_stem(id, secrets), MAX_STEM_BYTES as nat),
{
    lemma_untouched_cell(id.cell_coords, secrets);
    lemma_mask_keeps_clean_text(text_or_empty(id.file_stem), Seq::empty());
    lemma_mask_keeps_clean_text(text_or_empty(id.file_extension), Seq::empty());
    assert(joined_stem(id, secrets) == joined_stem(id, Seq::empty()));
}

// ---------------------------------------------------------------------------
// How names are made
// ---------------------------------------------------------------------------

/// A name for a file has one character for each of the name: letters, digits, `-`, `_` and
/// `.` are kept, and any other is a `_`. Without a name it is `scenario`.
pub proof fn lemma_sanitizing_by_character(name: Seq<char>, i: int)
    ensures
        name.len() == 0 ==> sanitized(name) == "scenario"@,
        name.len() > 0 ==> sanitized(name).len() == name.len(),
        0 <= i < name.len() ==> sanitized(name)[i] == if 'a' <= name[i] <= 'z' || 'A' <= name[i] <= 'Z' || '0'
            <= name[i] <= '9' || name[i] == '-' || name[i] == '_' || name[i] == '.' {
            name[i]
        } else {
            '_'
        },
{
}

/// A file name is cut at its last dot, unless that is its first byte or there is none:
/// then all of it is the stem, and there is no extension.
pub proof fn lemma_file_names_are_cut_at_the_last_dot(stem: Seq<u8>, extension: Seq<u8>)
    requires
        !extension.contains(46u8),
    ensures
        stem.len() > 0 ==> stem_bytes(stem + seq![46u8] + extension) == stem && extension_bytes(
            stem + seq![46u8] + extension,
        ) == Some(extension),
        stem_bytes(extension) == extension && extension_bytes(extension) is None,
        stem_bytes(seq![46u8] + extension) == seq![46u8] + extension && extension_bytes(
            seq![46u8] + extension,
        ) is None,
{
    lemma_last_dot_is(stem, extension);
    lemma_last_dot_is(Seq::empty(), extension);
    let whole = stem + seq![46u8] + extension;
    assert(whole.take(stem.len() as int) =~= stem);
    assert(whole.skip(stem.len() as int + 1) =~= extension);
    assert(Seq::<u8>::empty() + seq![46u8] + extension =~= seq![46u8] + extension);
    lemma_no_dot(extension);
}

proof fn lemma_no_dot(name: Seq<u8>)
    requires
        !name.contains(46u8),
    ensures
        last_dot(name) is None,
    decreases name.len(),
{
    if name.len() > 0 {
        assert(name.contains(name[name.len() - 1]));
        let front = name.drop_last();
        assert(!front.contains(46u8)) by {
            if front.contains(46u8) {
                let k = choose|k: int| 0 <= k < front.len() && front[k] == 46u8;
                assert(name[k] == 46u8);
            }
        }
        lemma_no_dot(front);
    }
}

proof fn lemma_last_dot_is(stem: Seq<u8>, extension: Seq<u8>)
    requires
        !extension.contains(46u8),
    ensures
        last_dot(stem + seq![46u8] + extension) == Some(stem.len() as int),
    decreases extension.len(),
{
    let whole = stem + seq![46u8] + extension;
    if extension.len() > 0 {
        let front = extension.drop_last();
        assert(extension.contains(extension[extension.len() - 1]));
        assert(!front.contains(46u8)) by {
            if front.contains(46u8) {
                let k = choose|k: int| 0 <= k < front.len() && front[k] == 46u8;
                assert(extension[k] == 46u8);
            }
        }
        lemma_last_dot_is(stem, front);
        assert(whole.drop_last() =~= stem + seq![46u8] + front);
        assert(whole.last() == extension.last());
    } else {
        assert(whole.last() == 46u8);
    }
}

/// The file of a run is the last name of its path, read as text where it is text; a path
/// that does not end with a name has none.
pub proof fn lemma_file_is_the_last_name(path: Seq<Part>, name: Seq<u8>)
    ensures
        valid_utf8(stem_bytes(name)) ==> path_stem(path.push(Part::Normal(name))) == Some(
            decode_utf8(stem_bytes(name)),
        ),
        !valid_utf8(stem_bytes(name)) ==> path_stem(path.push(Part::Normal(name))) is None,
        extension_bytes(name) matches Some(bytes) && valid_utf8(bytes) ==> path_extension(
            path.push(Part::Normal(name)),
        ) == Some(decode_utf8(extension_bytes(name)->0)),
        extension_bytes(name) is None ==> path_extension(path.push(Part::Normal(name))) is None,
        path_stem(path.push(Part::ParentDir)) is None && path_stem(path.push(Part::RootDir)) is None,
        path_stem(Seq::empty()) is None && path_extension(Seq::empty()) is None,
{
    let named = path.push(Part::Normal(name));
    assert(named.last() == Part::Normal(name));
    assert(path.push(Part::ParentDir).last() == Part::ParentDir);
    assert(path.push(Part::RootDir).last() == Part::RootDir);
}

/// The extension that goes without saying is `yaml`, in capitals or not.
pub proof fn lemma_yaml_goes_without_saying(extension: Seq<char>)
    ensures
        canonical_extension(extension) == (extension.len() == 4 && (extension[0] == 'y' || extension[0] == 'Y')
            && (extension[1] == 'a' || extension[1] == 'A') && (extension[2] == 'm' || extension[2] == 'M') && (
        extension[3] == 'l' || extension[3] == 'L')),
{
    if extension.len() == 4 {
        lemma_lower_case(extension[0]);
        lemma_lower_case(extension[1]);
        lemma_lower_case(extension[2]);
        lemma_lower_case(extension[3]);
    }
}

proof fn lemma_lower_case(c: char)
    ensures
        ascii_lower(c) == 'y' <==> c == 'y' || c == 'Y',
        ascii_lower(c) == 'a' <==> c == 'a' || c == 'A',
        ascii_lower(c) == 'm' <==> c == 'm' || c == 'M',
        ascii_lower(c) == 'l' <==> c == 'l' || c == 'L',
{
}

/// What the stem of a log is made of, part by part and each part sanitized: the file, with
/// its extension unless that goes without saying, and a dot, unless the file is named like
/// the scenario; the scenario; and for each coordinate of the cell a dot, the axis, a dash
/// and the value. All but the scenario's name are masked.
pub proof fn lemma_stem_part_by_part(
    id: IdentityView,
    secrets: Seq<Seq<char>>,
    axis: Seq<char>,
    value: Seq<char>,
)
    ensures
        ({
            let name = sanitized(id.scenario_name);
            let bare = IdentityView { cell_coords: Seq::empty(), ..id };
            let more = IdentityView { cell_coords: id.cell_coords.push((axis, value)), ..id };
            &&& joined_stem(more, secrets) == joined_stem(id, secrets) + seq!['.'] + sanitized(
                masked(axis, secrets),
            ) + seq!['-'] + sanitized(masked(value, secrets))
            &&& id.file_stem is None ==> joined_stem(bare, secrets) == name
            &&& id.file_stem matches Some(stem) ==> {
                let plain = sanitized(masked(stem, secrets));
                let file = match id.file_extension {
                    Some(extension) => if canonical_extension(extension) {
                        plain
                    } else {
                        plain + seq!['-'] + sanitized(masked(extension, secrets))
                    },
                    None => plain,
                };
                joined_stem(bare, secrets) == if file == name {
                    name
                } else {
                    file + seq!['.'] + name
                }
            }
        }),
{
    let name = sanitized(id.scenario_name);
    let bare = IdentityView { cell_coords: Seq::empty(), ..id };
    let more = IdentityView { cell_coords: id.cell_coords.push((axis, value)), ..id };
    assert(more.cell_coords.drop_last() =~= id.cell_coords);
    assert(more.cell_coords.last() == (axis, value));
    assert(joined_stem(more, secrets) =~= joined_stem(id, secrets) + seq!['.'] + sanitized(
        masked(axis, secrets),
    ) + seq!['-'] + sanitized(masked(value, secrets)));
    let none = Seq::<char>::empty();
    assert(cell_part(bare.cell_coords, secrets) == none);
    assert(none + name + none =~= name);
    match id.file_stem {
        Some(stem) => {
            let file = file_part(stem, id.file_extension, secrets);
            assert(file + seq!['.'] + name + none =~= file + seq!['.'] + name);
        },
        None => {},
    }
}

/// The stem of a log says so if masking changed the file, its extension or a coordinate:
/// then a dash and eight digits follow, taken from the digest of the identity itself. A
/// stem over 239 bytes is cut, and any other is left as it is.
pub proof fn lemma_stem_is_marked_where_masked(id: IdentityView, secrets: Seq<Seq<char>>)
    ensures
        ({
            let changed = (id.file_stem matches Some(stem) && masked(stem, secrets) != stem) || (
            id.file_extension matches Some(extension) && masked(extension, secrets) != extension) || (exists|
                i: int,
            |
                0 <= i < id.cell_coords.len() && (masked((#[trigger] id.cell_coords[i]).0, secrets)
                    != id.cell_coords[i].0 || masked(id.cell_coords[i].1, secrets) != id.cell_coords[i].1));
            let plain = joined_stem(id, secrets);
            let marked = plain + seq!['-'] + digest_text(encode_utf8(dedup_key_of(id))).take(8);
            &&& !changed && byte_len(plain) <= 239 ==> stem_of(id, secrets) == plain
            &&& changed && byte_len(marked) <= 239 ==> stem_of(id, secrets) == marked
            &&& !changed ==> stem_of(id, secrets) == bounded(plain, 239)
            &&& changed ==> stem_of(id, secrets) == bounded(marked, 239)
        }),
{
    assert(MAX_STEM_BYTES == 239);
    let shows = masking_shows(id, secrets);
    if coords_touched(id.cell_coords, secrets) {
        let i = choose|i: int|
            0 <= i < id.cell_coords.len() && (touched((#[trigger] id.cell_coords[i]).0, secrets) || touched(
                id.cell_coords[i].1,
                secrets,
            ));
        assert(masked(id.cell_coords[i].0, secrets) != id.cell_coords[i].0 || masked(
            id.cell_coords[i].1,
            secrets,
        ) != id.cell_coords[i].1);
    }
}

/// The key of an identity lists its parts in order, the file, its extension, the scenario,
/// and each coordinate, every one with its length in bytes before it.
pub proof fn lemma_key_part_by_part(id: IdentityView, axis: Seq<char>, value: Seq<char>)
    ensures
        ({
            let bare = IdentityView { cell_coords: Seq::empty(), ..id };
            let more = IdentityView { cell_coords: id.cell_coords.push((axis, value)), ..id };
            let stem = match id.file_stem {
                Some(text) => text,
                None => Seq::empty(),
            };
            let extension = match id.file_extension {
                Some(text) => text,
                None => Seq::empty(),
            };
            &&& dedup_key_of(bare) == decimal(byte_len(stem)) + seq![':'] + stem + decimal(
                byte_len(extension),
            ) + seq![':'] + extension + decimal(byte_len(id.scenario_name)) + seq![':']
                + id.scenario_name
            &&& dedup_key_of(more) == dedup_key_of(id) + decimal(byte_len(axis)) + seq![':'] + axis
                + decimal(byte_len(value)) + seq![':'] + value
        }),
{
    let bare = IdentityView { cell_coords: Seq::empty(), ..id };
    let more = IdentityView { cell_coords: id.cell_coords.push((axis, value)), ..id };
    let stem = text_or_empty(id.file_stem);
    let extension = text_or_empty(id.file_extension);
    assert(more.cell_coords.drop_last() =~= id.cell_coords);
    assert(identity_parts(more) =~= identity_parts(id).push(axis).push(value));
    lemma_key_push(identity_parts(id), axis);
    lemma_key_push(identity_parts(id).push(axis), value);
    assert(dedup_key_of(more) =~= dedup_key_of(id) + decimal(byte_len(axis)) + seq![':'] + axis + decimal(
        byte_len(value),
    ) + seq![':'] + value);
    let none = Seq::<Seq<char>>::empty();
    assert(coord_parts(bare.cell_coords) == none);
    assert(identity_parts(bare) =~= none.push(stem).push(extension).push(id.scenario_name));
    lemma_key_push(none, stem);
    lemma_key_push(none.push(stem), extension);
    lemma_key_push(none.push(stem).push(extension), id.scenario_name);
    assert(key_of(none) == Seq::<char>::empty());
    assert(dedup_key_of(bare) =~= decimal(byte_len(stem)) + seq![':'] + stem + decimal(
        byte_len(extension),
    ) + seq![':'] + extension + decimal(byte_len(id.scenario_name)) + seq![':'] + id.scenario_name);
}

proof fn lemma_key_push(list: Seq<Seq<char>>, part: Seq<char>)
    ensures
        key_of(list.push(part)) == key_of(list) + (decimal(byte_len(part)) + seq![':'] + part),
{
    assert(list.push(part).drop_last() =~= list);
}

/// The key of a claim is the key of the identity with every part masked, cut at 8192
/// bytes. So where nothing is secret and nothing is too long, it is the key of the
/// identity.
pub proof fn lemma_claim_key_is_the_masked_key(
    id: IdentityView,
    hidden: IdentityView,
    secrets: Seq<Seq<char>>,
)
    requires
        hidden.scenario_name == masked(id.scenario_name, secrets),
        text_or_empty(hidden.file_stem) == masked(text_or_empty(id.file_stem), secrets),
        text_or_empty(hidden.file_extension) == masked(text_or_empty(id.file_extension), secrets),
        hidden.cell_coords.len() == id.cell_coords.len(),
        forall|i: int|
            0 <= i < id.cell_coords.len() ==> (#[trigger] hidden.cell_coords[i]).0 == masked(
                id.cell_coords[i].0,
                secrets,
            ) && hidden.cell_coords[i].1 == masked(id.cell_coords[i].1, secrets),
    ensures
        claim_key_of(id, secrets) == bounded(dedup_key_of(hidden), 8192),
        byte_len(dedup_key_of(hidden)) <= 8192 ==> claim_key_of(id, secrets) == dedup_key_of(hidden),
{
    lemma_masked_coords(id.cell_coords, hidden.cell_coords, secrets);
    assert(masked_all(identity_parts(id), secrets) =~= identity_parts(hidden));
    assert(MAX_CLAIM_KEY_BYTES == 8192);
}

proof fn lemma_masked_coords(coords: Pairs, hidden: Pairs, secrets: Seq<Seq<char>>)
    requires
        hidden.len() == coords.len(),
        forall|i: int|
            0 <= i < coords.len() ==> (#[trigger] hidden[i]).0 == masked(coords[i].0, secrets)
                && hidden[i].1 == masked(coords[i].1, secrets),
    ensures
        masked_all(coord_parts(coords), secrets) == coord_parts(hidden),
    decreases coords.len(),
{
    if coords.len() > 0 {
        let a = coords.drop_last();
        let b = hidden.drop_last();
        assert(forall|i: int| 0 <= i < a.len() ==> #[trigger] b[i] == hidden[i] && a[i] == coords[i]);
        lemma_masked_coords(a, b, secrets);
        assert(hidden[hidden.len() - 1] == hidden.last());
        assert(coords[coords.len() - 1] == coords.last());
        assert(masked_all(coord_parts(coords), secrets) =~= masked_all(coord_parts(a), secrets).push(
            masked(coords.last().0, secrets),
        ).push(masked(coords.last().1, secrets)));
    } else {
        assert(masked_all(coord_parts(coords), secrets) =~= coord_parts(hidden));
    }
}

} // verus!
