//! The bytes of paths.
//!
//! A path arrives as bytes and leaves as bytes. Reading and joining them follow the
//! rules of a [`Platform`]. On Unix `/` separates; on Windows both `/` and `\` do.
//! Repeated separators and inner `.` segments vanish, and a leading `.` stays visible.
use vstd::prelude::*;
use vstd::slice::*;

use crate::path::{
    append_from, appended, entry_name, lemma_entry_names_by_their_bytes, main_separator, part_bytes,
    parts, plain_name, plain_names, prefix_bytes, push_all, verbatim, verbatim_path, Component, Part,
    Platform, Prefix, PrefixView,
};
use crate::text::{lossy_text, lossy_utf8};

verus! {

/// The bytes that separate the pieces of a path.
#[derive(Debug, Clone, Copy, PartialEq, Eq, Structural)]
pub enum Separators {
    /// `/` alone.
    Slash,
    /// `/` and `\`.
    Either,
    /// `\` alone, as in a path that begins with `\\?\`.
    Backslash,
}

/// Whether a byte separates.
pub open spec fn separates(byte: u8, by: Separators) -> bool {
    match by {
        Separators::Slash => byte == 47u8,
        Separators::Either => byte == 47u8 || byte == 92u8,
        Separators::Backslash => byte == 92u8,
    }
}

fn is_separator(byte: u8, by: Separators) -> (r: bool)
    ensures
        r == separates(byte, by),
{
    match by {
        Separators::Slash => byte == 47,
        Separators::Either => byte == 47 || byte == 92,
        Separators::Backslash => byte == 92,
    }
}

/// The length of what stands before the first separator.
pub open spec fn piece_len(raw: Seq<u8>, by: Separators) -> nat
    decreases raw.len(),
{
    if raw.len() == 0 || separates(raw[0], by) {
        0
    } else {
        1 + piece_len(raw.skip(1), by)
    }
}

/// What one piece between separators contributes to a path. Where only `\` separates
/// a `.` is kept wherever it stands.
pub open spec fn piece_parts(piece: Seq<u8>, leading: bool, by: Separators) -> Seq<Part> {
    if piece.len() == 0 {
        Seq::empty()
    } else if piece == seq![46u8] {
        if leading || by is Backslash {
            seq![Part::CurDir]
        } else {
            Seq::empty()
        }
    } else if piece == seq![46u8, 46u8] {
        seq![Part::ParentDir]
    } else {
        seq![Part::Normal(piece)]
    }
}

/// The components after the root; `leading` holds at the start of a relative path.
pub open spec fn parsed_pieces(raw: Seq<u8>, leading: bool, by: Separators) -> Seq<Part>
    decreases raw.len(),
{
    if raw.len() == 0 {
        Seq::empty()
    } else {
        let n = piece_len(raw, by) as int;
        if 0 <= n < raw.len() {
            piece_parts(raw.take(n), leading, by) + parsed_pieces(raw.skip(n + 1), false, by)
        } else {
            piece_parts(raw, leading, by)
        }
    }
}

proof fn lemma_piece_len(raw: Seq<u8>, by: Separators)
    ensures
        piece_len(raw, by) <= raw.len(),
        piece_len(raw, by) < raw.len() ==> separates(raw[piece_len(raw, by) as int], by),
        forall|i: int| 0 <= i < piece_len(raw, by) ==> !separates(#[trigger] raw[i], by),
    decreases raw.len(),
{
    if raw.len() > 0 && !separates(raw[0], by) {
        lemma_piece_len(raw.skip(1), by);
        assert forall|i: int| 0 <= i < piece_len(raw, by) implies !separates(#[trigger] raw[i], by) by {
            if i > 0 {
                assert(raw.skip(1)[i - 1] == raw[i]);
            }
        }
    }
}

proof fn lemma_piece_len_is(raw: Seq<u8>, n: int, by: Separators)
    requires
        0 <= n <= raw.len(),
        n < raw.len() ==> separates(raw[n], by),
        forall|i: int| 0 <= i < n ==> !separates(#[trigger] raw[i], by),
    ensures
        piece_len(raw, by) == n,
{
    lemma_piece_len(raw, by);
    let m = piece_len(raw, by) as int;
    if m < n {
        assert(!separates(raw[m], by));
    }
}

/// Whether a byte is a letter of the English alphabet.
pub open spec fn letter(byte: u8) -> bool {
    65 <= byte <= 90 || 97 <= byte <= 122
}

/// A letter in upper case.
pub open spec fn upper(byte: u8) -> u8 {
    if 97 <= byte <= 122 {
        (byte - 32) as u8
    } else {
        byte
    }
}

/// What stands from `from` on before the next separator.
pub open spec fn piece_at(raw: Seq<u8>, from: int, by: Separators) -> Seq<u8> {
    raw.skip(from).take(piece_len(raw.skip(from), by) as int)
}

/// What stands after the piece at `from` and one separator, before the next.
pub open spec fn second_piece_at(raw: Seq<u8>, from: int, by: Separators) -> Seq<u8> {
    let end = from + piece_at(raw, from, by).len();
    if end < raw.len() {
        piece_at(raw, end + 1, by)
    } else {
        Seq::empty()
    }
}

/// Whether a byte string begins with two separators.
pub open spec fn begins_doubled(raw: Seq<u8>) -> bool {
    raw.len() >= 2 && separates(raw[0], Separators::Either) && separates(raw[1], Separators::Either)
}

/// Whether a byte string begins with `\\?\`, spelled so.
pub open spec fn begins_verbatim(raw: Seq<u8>) -> bool {
    raw.len() >= 4 && raw[0] == 92u8 && raw[1] == 92u8 && raw[2] == 63u8 && raw[3] == 92u8
}

/// Whether a drive letter and a colon stand at `from`.
pub open spec fn drive_at(raw: Seq<u8>, from: int) -> bool {
    raw.len() >= from + 2 && letter(raw[from]) && raw[from + 1] == 58u8
}

/// The prefix that a Windows path begins with.
pub open spec fn prefix_of(raw: Seq<u8>) -> Option<PrefixView> {
    if begins_verbatim(raw) {
        if raw.len() >= 8 && raw[4] == 85u8 && raw[5] == 78u8 && raw[6] == 67u8 && separates(
            raw[7],
            Separators::Either,
        ) {
            Some(
                PrefixView::VerbatimUnc(
                    piece_at(raw, 8, Separators::Backslash),
                    second_piece_at(raw, 8, Separators::Backslash),
                ),
            )
        } else if drive_at(raw, 4) && (raw.len() == 6 || separates(raw[6], Separators::Either)) {
            Some(PrefixView::VerbatimDisk(upper(raw[4])))
        } else {
            Some(PrefixView::Verbatim(piece_at(raw, 4, Separators::Backslash)))
        }
    } else if begins_doubled(raw) {
        if raw.len() >= 4 && raw[2] == 46u8 && separates(raw[3], Separators::Either) {
            Some(PrefixView::DeviceNs(piece_at(raw, 4, Separators::Either)))
        } else {
            let server = piece_at(raw, 2, Separators::Either);
            let share = second_piece_at(raw, 2, Separators::Either);
            if server.len() > 0 && share.len() > 0 {
                Some(PrefixView::Unc(server, share))
            } else {
                None
            }
        }
    } else if drive_at(raw, 0) {
        Some(PrefixView::Disk(upper(raw[0])))
    } else {
        None
    }
}

/// How many bytes a prefix takes up.
pub open spec fn prefix_len(prefix: Option<PrefixView>) -> nat {
    match prefix {
        Some(p) => prefix_bytes(p).len(),
        None => 0,
    }
}

/// What separates the names of a Windows path with this prefix.
pub open spec fn separators_after(prefix: Option<PrefixView>) -> Separators {
    match prefix {
        Some(p) => if verbatim(p) {
            Separators::Backslash
        } else {
            Separators::Either
        },
        None => Separators::Either,
    }
}

/// Whether a prefix implies a root, though none is written.
pub open spec fn implies_root(prefix: Option<PrefixView>) -> bool {
    prefix matches Some(p) && !verbatim(p) && !(p is Disk)
}

/// A prefix as the front of a path.
pub open spec fn prefix_parts(prefix: Option<PrefixView>) -> Seq<Part> {
    match prefix {
        Some(p) => seq![Part::Prefix(p)],
        None => Seq::empty(),
    }
}

/// The components that a byte string denotes on Unix.
pub open spec fn parsed_unix(raw: Seq<u8>) -> Seq<Part> {
    if raw.len() > 0 && raw[0] == 47u8 {
        seq![Part::RootDir] + parsed_pieces(raw.skip(1), false, Separators::Slash)
    } else {
        parsed_pieces(raw, true, Separators::Slash)
    }
}

/// The components that a byte string denotes on Windows, from its prefix and what
/// follows that.
pub open spec fn parsed_after(prefix: Option<PrefixView>, rest: Seq<u8>) -> Seq<Part> {
    let by = separators_after(prefix);
    if rest.len() > 0 && separates(rest[0], Separators::Either) {
        prefix_parts(prefix) + seq![Part::RootDir] + parsed_pieces(rest.skip(1), false, by)
    } else if implies_root(prefix) {
        prefix_parts(prefix) + seq![Part::RootDir] + parsed_pieces(rest, false, by)
    } else {
        prefix_parts(prefix) + parsed_pieces(rest, prefix is None, by)
    }
}

/// The components that a byte string denotes on Windows.
pub open spec fn parsed_windows(raw: Seq<u8>) -> Seq<Part> {
    parsed_after(prefix_of(raw), raw.skip(prefix_len(prefix_of(raw)) as int))
}

/// The components that a byte string denotes.
pub open spec fn parsed(raw: Seq<u8>, platform: Platform) -> Seq<Part> {
    match platform {
        Platform::Unix => parsed_unix(raw),
        Platform::Windows => parsed_windows(raw),
    }
}

proof fn lemma_prefix_fits(raw: Seq<u8>)
    ensures
        prefix_len(prefix_of(raw)) <= raw.len(),
{
    let by = if begins_verbatim(raw) {
        Separators::Backslash
    } else {
        Separators::Either
    };
    let from = match prefix_of(raw) {
        Some(PrefixView::VerbatimUnc(_, _)) => 8int,
        Some(PrefixView::Unc(_, _)) => 2int,
        _ => 4int,
    };
    if from <= raw.len() {
        lemma_piece_len(raw.skip(from), by);
        let end = from + piece_at(raw, from, by).len();
        if end < raw.len() {
            lemma_piece_len(raw.skip(end + 1), by);
        }
    }
}

/// Reading a path yields plain names only.
pub proof fn lemma_parsed_plain(raw: Seq<u8>, platform: Platform)
    ensures
        plain_names(parsed(raw, platform), platform),
{
    match platform {
        Platform::Unix => {
            if raw.len() > 0 && raw[0] == 47u8 {
                lemma_parsed_pieces_plain(raw.skip(1), false, Separators::Slash, platform);
            } else {
                lemma_parsed_pieces_plain(raw, true, Separators::Slash, platform);
            }
        },
        Platform::Windows => {
            let prefix = prefix_of(raw);
            let by = separators_after(prefix);
            let rest = raw.skip(prefix_len(prefix) as int);
            lemma_parsed_pieces_plain(rest.skip(1), false, by, platform);
            lemma_parsed_pieces_plain(rest, false, by, platform);
            lemma_parsed_pieces_plain(rest, true, by, platform);
        },
    }
}

proof fn lemma_parsed_pieces_plain(raw: Seq<u8>, leading: bool, by: Separators, platform: Platform)
    requires
        separates(main_separator(platform), by),
    ensures
        plain_names(parsed_pieces(raw, leading, by), platform),
    decreases raw.len(),
{
    if raw.len() > 0 {
        lemma_piece_len(raw, by);
        let n = piece_len(raw, by) as int;
        let piece = raw.take(n);
        assert(!piece.contains(main_separator(platform))) by {
            if piece.contains(main_separator(platform)) {
                let k = choose|k: int| 0 <= k < piece.len() && piece[k] == main_separator(platform);
                assert(raw[k] == piece[k]);
            }
        }
        if n < raw.len() {
            lemma_parsed_pieces_plain(raw.skip(n + 1), false, by, platform);
        } else {
            assert(piece =~= raw);
        }
    }
}

fn push_piece(out: &mut Vec<Component>, piece: &[u8], leading: bool, by: Separators)
    ensures
        parts(final(out)@) == parts(old(out)@) + piece_parts(piece@, leading, by),
{
    let ghost before = out@;
    if piece.len() == 0 {
    } else if piece.len() == 1 && piece[0] == 46 {
        assert(piece@ =~= seq![46u8]);
        let keep = match by {
            Separators::Backslash => true,
            _ => leading,
        };
        if keep {
            out.push(Component::CurDir);
        }
    } else if piece.len() == 2 && piece[0] == 46 && piece[1] == 46 {
        assert(piece@ =~= seq![46u8, 46u8]);
        out.push(Component::ParentDir);
    } else {
        out.push(Component::Normal(slice_to_vec(piece)));
    }
    assert(parts(out@) =~= parts(before) + piece_parts(piece@, leading, by));
}

fn piece_end(raw: &[u8], from: usize, by: Separators) -> (r: usize)
    requires
        from <= raw@.len(),
    ensures
        from <= r <= raw@.len(),
        r == from + piece_len(raw@.skip(from as int), by),
        raw@.subrange(from as int, r as int) == piece_at(raw@, from as int, by),
        r < raw@.len() ==> separates(raw@[r as int], by),
{
    let mut end: usize = from;
    while end < raw.len() && !is_separator(raw[end], by)
        invariant
            from <= end <= raw@.len(),
            forall|i: int| from <= i < end ==> !separates(#[trigger] raw@[i], by),
        decreases raw@.len() - end,
    {
        end = end + 1;
    }
    proof {
        let rest = raw@.skip(from as int);
        let n = end - from;
        assert forall|i: int| 0 <= i < n implies !separates(#[trigger] rest[i], by) by {
            assert(rest[i] == raw@[from + i]);
        }
        lemma_piece_len_is(rest, n, by);
        assert(raw@.subrange(from as int, end as int) =~= rest.take(n));
    }
    end
}

fn push_pieces(out: &mut Vec<Component>, raw: &[u8], from: usize, leading: bool, by: Separators)
    requires
        from <= raw@.len(),
    ensures
        parts(final(out)@) == parts(old(out)@) + parsed_pieces(raw@.skip(from as int), leading, by),
{
    let ghost whole = parts(out@) + parsed_pieces(raw@.skip(from as int), leading, by);
    let mut at: usize = from;
    let mut leading = leading;
    while at < raw.len()
        invariant
            at <= raw@.len(),
            parts(out@) + parsed_pieces(raw@.skip(at as int), leading, by) == whole,
        decreases raw@.len() - at,
    {
        let end = piece_end(raw, at, by);
        let ghost rest = raw@.skip(at as int);
        let ghost n = end - at;
        let ghost before = parts(out@);
        let ghost was_leading = leading;
        push_piece(out, slice_subrange(raw, at, end), leading, by);
        if end < raw.len() {
            assert(rest.skip(n + 1) =~= raw@.skip(end + 1));
            at = end + 1;
        } else {
            assert(rest.take(n) =~= rest);
            at = end;
        }
        leading = false;
        assert(parts(out@) + parsed_pieces(raw@.skip(at as int), leading, by) =~= before
            + parsed_pieces(rest, was_leading, by));
    }
    assert(raw@.skip(at as int) =~= Seq::<u8>::empty());
    assert(parts(out@) =~= whole);
}

fn is_letter(byte: u8) -> (r: bool)
    ensures
        r == letter(byte),
{
    (65 <= byte && byte <= 90) || (97 <= byte && byte <= 122)
}

fn to_upper(byte: u8) -> (r: u8)
    ensures
        r == upper(byte),
{
    if 97 <= byte && byte <= 122 {
        byte - 32
    } else {
        byte
    }
}

fn two_pieces(raw: &[u8], from: usize, by: Separators) -> (r: (Vec<u8>, Vec<u8>))
    requires
        from <= raw@.len(),
    ensures
        r.0@ == piece_at(raw@, from as int, by),
        r.1@ == second_piece_at(raw@, from as int, by),
{
    let end = piece_end(raw, from, by);
    let first = slice_to_vec(slice_subrange(raw, from, end));
    if end < raw.len() {
        let last = piece_end(raw, end + 1, by);
        (first, slice_to_vec(slice_subrange(raw, end + 1, last)))
    } else {
        (first, Vec::new())
    }
}

/// The prefix that a Windows path begins with, and how many bytes it takes up.
pub fn read_prefix(raw: &[u8]) -> (r: (Option<Prefix>, usize))
    ensures
        match r.0 {
            Some(prefix) => prefix_of(raw@) == Some(prefix@),
            None => prefix_of(raw@) is None,
        },
        r.1 == prefix_len(prefix_of(raw@)),
        r.1 <= raw@.len(),
{
    proof {
        lemma_prefix_fits(raw@);
    }
    let either = Separators::Either;
    if raw.len() >= 4 && raw[0] == 92 && raw[1] == 92 && raw[2] == 63 && raw[3] == 92 {
        if raw.len() >= 8 && raw[4] == 85 && raw[5] == 78 && raw[6] == 67 && is_separator(
            raw[7],
            either,
        ) {
            let (server, share) = two_pieces(raw, 8, Separators::Backslash);
            let size = if share.len() > 0 {
                8 + server.len() + 1 + share.len()
            } else {
                8 + server.len()
            };
            (Some(Prefix::VerbatimUnc(server, share)), size)
        } else if raw.len() >= 6 && is_letter(raw[4]) && raw[5] == 58 && (raw.len() == 6
            || is_separator(raw[6], either)) {
            (Some(Prefix::VerbatimDisk(to_upper(raw[4]))), 6)
        } else {
            let end = piece_end(raw, 4, Separators::Backslash);
            (Some(Prefix::Verbatim(slice_to_vec(slice_subrange(raw, 4, end)))), end)
        }
    } else if raw.len() >= 2 && is_separator(raw[0], either) && is_separator(raw[1], either) {
        if raw.len() >= 4 && raw[2] == 46 && is_separator(raw[3], either) {
            let end = piece_end(raw, 4, either);
            (Some(Prefix::DeviceNs(slice_to_vec(slice_subrange(raw, 4, end)))), end)
        } else {
            let (server, share) = two_pieces(raw, 2, either);
            if server.len() > 0 && share.len() > 0 {
                let size = 2 + server.len() + 1 + share.len();
                (Some(Prefix::Unc(server, share)), size)
            } else {
                (None, 0)
            }
        }
    } else if raw.len() >= 2 && is_letter(raw[0]) && raw[1] == 58 {
        (Some(Prefix::Disk(to_upper(raw[0]))), 2)
    } else {
        (None, 0)
    }
}

fn parse_windows(raw: &[u8]) -> (r: Vec<Component>)
    ensures
        parts(r@) == parsed_windows(raw@),
{
    let (prefix, size) = read_prefix(raw);
    let mut out: Vec<Component> = Vec::new();
    let mut by = Separators::Either;
    let mut rooted = false;
    let mut leading = true;
    if let Some(found) = prefix {
        leading = false;
        if found.is_verbatim() {
            by = Separators::Backslash;
        } else {
            rooted = match &found {
                Prefix::Disk(_) => false,
                _ => true,
            };
        }
        out.push(Component::Prefix(found));
    }
    let ghost known = prefix_of(raw@);
    let ghost rest = raw@.skip(size as int);
    assert(parts(out@) =~= prefix_parts(known));
    let mut at: usize = size;
    if at < raw.len() && is_separator(raw[at], Separators::Either) {
        assert(rest.skip(1) =~= raw@.skip(at + 1));
        rooted = true;
        leading = false;
        at = at + 1;
    }
    if rooted {
        out.push(Component::RootDir);
        assert(parts(out@) =~= prefix_parts(known) + seq![Part::RootDir]);
    }
    push_pieces(&mut out, raw, at, leading, by);
    out
}

fn parse_unix(raw: &[u8]) -> (r: Vec<Component>)
    ensures
        parts(r@) == parsed_unix(raw@),
{
    let mut out: Vec<Component> = Vec::new();
    if raw.len() > 0 && raw[0] == 47 {
        out.push(Component::RootDir);
        assert(parts(out@) =~= seq![Part::RootDir]);
        push_pieces(&mut out, raw, 1, false, Separators::Slash);
    } else {
        push_pieces(&mut out, raw, 0, true, Separators::Slash);
        assert(raw@.skip(0) =~= raw@);
        assert(parts(out@) =~= parsed_unix(raw@));
    }
    out
}

/// The components that `raw` denotes.
pub fn parse_path(raw: &[u8], platform: Platform) -> (r: Vec<Component>)
    ensures
        parts(r@) == parsed(raw@, platform),
        plain_names(parts(r@), platform),
{
    proof {
        lemma_parsed_plain(raw@, platform);
    }
    match platform {
        Platform::Unix => parse_unix(raw),
        Platform::Windows => parse_windows(raw),
    }
}

/// `rel` as seen from `base` on Unix: an absolute `rel` replaces `base`, anything else
/// is appended after a separator.
pub open spec fn joined_unix(base: Seq<u8>, rel: Seq<u8>) -> Seq<u8> {
    if rel.len() > 0 && rel[0] == 47u8 {
        rel
    } else if base.len() > 0 && base.last() != 47u8 {
        base + seq![47u8] + rel
    } else {
        base + rel
    }
}

/// The bytes of components that follow a prefix, with a separator between names, and
/// one in front where `apart` says so and none is written.
pub open spec fn spelled(path: Seq<Part>, apart: bool) -> Seq<u8>
    decreases path.len(),
{
    if path.len() == 0 {
        Seq::empty()
    } else {
        let front = if apart && !(path[0] is RootDir) {
            seq![92u8]
        } else {
            Seq::empty()
        };
        front + part_bytes(path[0], Platform::Windows) + spelled(path.skip(1), !(path[0] is RootDir))
    }
}

/// Whether `base` needs a separator before a name on Windows: it is not empty, does
/// not end with one, and is not a bare drive.
pub open spec fn needs_separator(base: Seq<u8>) -> bool {
    &&& base.len() > 0
    &&& !separates(base.last(), Separators::Either)
    &&& !(base.len() == 2 && drive_at(base, 0))
}

/// `rel` as seen from `base` on Windows.
///
/// A `rel` with a prefix replaces `base`, and one with a root but no prefix replaces
/// everything but the prefix of `base`. Where that prefix is verbatim, `.` and `..`
/// of `rel` are resolved by name.
pub open spec fn joined_windows(base: Seq<u8>, rel: Seq<u8>) -> Seq<u8> {
    let kept = base.take(prefix_len(prefix_of(base)) as int);
    if prefix_of(rel) is Some {
        rel
    } else if rel.len() > 0 && (prefix_of(base) matches Some(p) && verbatim(p)) {
        kept + spelled(appended(parsed_windows(base), parsed_windows(rel)).skip(1), true)
    } else if rel.len() > 0 && separates(rel[0], Separators::Either) {
        kept + rel
    } else if needs_separator(base) {
        base + seq![92u8] + rel
    } else {
        base + rel
    }
}

/// `rel` as seen from `base`.
pub open spec fn joined(base: Seq<u8>, rel: Seq<u8>, platform: Platform) -> Seq<u8> {
    match platform {
        Platform::Unix => joined_unix(base, rel),
        Platform::Windows => joined_windows(base, rel),
    }
}

/// The bytes of a path, each component appended to those before it.
pub open spec fn rendered(path: Seq<Part>, platform: Platform) -> Seq<u8>
    decreases path.len(),
{
    if path.len() == 0 {
        Seq::empty()
    } else {
        joined(
            rendered(path.drop_last(), platform),
            part_bytes(path.last(), platform),
            platform,
        )
    }
}

fn join_unix(base: &[u8], rel: &[u8]) -> (r: Vec<u8>)
    ensures
        r@ == joined_unix(base@, rel@),
{
    if rel.len() > 0 && rel[0] == 47 {
        return slice_to_vec(rel);
    }
    let mut out = slice_to_vec(base);
    if base.len() > 0 && base[base.len() - 1] != 47 {
        out.push(47);
        assert(out@ =~= base@ + seq![47u8]);
    }
    push_all(&mut out, rel);
    out
}

fn spell_after_prefix(out: Vec<u8>, path: &[Component]) -> (r: Vec<u8>)
    requires
        path@.len() > 0,
    ensures
        r@ == out@ + spelled(parts(path@).skip(1), true),
{
    let ghost start = out@;
    let ghost whole = spelled(parts(path@).skip(1), true);
    let mut out = out;
    let mut apart = true;
    let mut i: usize = 1;
    while i < path.len()
        invariant
            1 <= i <= path@.len(),
            out@ + spelled(parts(path@).skip(i as int), apart) == start + whole,
        decreases path@.len() - i,
    {
        let ghost before = out@;
        let ghost rest = parts(path@).skip(i as int);
        let ghost was_apart = apart;
        assert(rest[0] == path@[i as int]@);
        assert(rest.skip(1) =~= parts(path@).skip(i + 1));
        let root = match &path[i] {
            Component::RootDir => true,
            _ => false,
        };
        if apart && !root {
            out.push(92);
            assert(out@ =~= before + seq![92u8]);
        }
        let piece = path[i].bytes(Platform::Windows);
        push_all(&mut out, piece.as_slice());
        apart = !root;
        i = i + 1;
        assert(out@ + spelled(rest.skip(1), apart) =~= before + spelled(rest, was_apart));
    }
    assert(parts(path@).skip(i as int) =~= Seq::<Part>::empty());
    assert(out@ =~= start + whole);
    out
}

proof fn lemma_verbatim_stays(base: Seq<Part>, tail: Seq<Part>)
    requires
        verbatim_path(base),
        forall|i: int| 0 <= i < tail.len() ==> !((#[trigger] tail[i]) is Prefix),
    ensures
        verbatim_path(appended(base, tail)),
        appended(base, tail)[0] == base[0],
    decreases tail.len(),
{
    if tail.len() > 0 {
        let front = tail.drop_last();
        assert(forall|i: int| 0 <= i < front.len() ==> #[trigger] front[i] == tail[i]);
        lemma_verbatim_stays(base, front);
        assert(tail[tail.len() - 1] == tail.last());
    }
}

proof fn lemma_pieces_have_no_prefix(raw: Seq<u8>, leading: bool, by: Separators)
    ensures
        forall|i: int|
            0 <= i < parsed_pieces(raw, leading, by).len() ==> {
                let part = #[trigger] parsed_pieces(raw, leading, by)[i];
                !(part is Prefix) && !(part is RootDir)
            },
    decreases raw.len(),
{
    if raw.len() > 0 {
        let n = piece_len(raw, by) as int;
        if 0 <= n < raw.len() {
            lemma_pieces_have_no_prefix(raw.skip(n + 1), false, by);
        }
    }
}

fn join_windows(base: &[u8], rel: &[u8]) -> (r: Vec<u8>)
    ensures
        r@ == joined_windows(base@, rel@),
{
    let (prefix, size) = read_prefix(base);
    if let (Some(_), _) = read_prefix(rel) {
        return slice_to_vec(rel);
    }
    let below = match &prefix {
        Some(p) => p.is_verbatim(),
        None => false,
    };
    if rel.len() > 0 && below {
        let place = parse_windows(base);
        let tail = parse_windows(rel);
        let whole = append_from(place, tail.as_slice(), 0);
        proof {
            lemma_pieces_have_no_prefix(rel@.skip(0), true, Separators::Either);
            lemma_pieces_have_no_prefix(rel@.skip(0).skip(1), false, Separators::Either);
            assert(parts(tail@).skip(0) =~= parts(tail@));
            lemma_verbatim_stays(parts(place@), parts(tail@));
            assert(base@.subrange(0, size as int) =~= base@.take(size as int));
        }
        let kept = slice_to_vec(slice_subrange(base, 0, size));
        return spell_after_prefix(kept, whole.as_slice());
    }
    if rel.len() > 0 && is_separator(rel[0], Separators::Either) {
        let mut out = slice_to_vec(slice_subrange(base, 0, size));
        assert(base@.subrange(0, size as int) =~= base@.take(size as int));
        push_all(&mut out, rel);
        return out;
    }
    let mut out = slice_to_vec(base);
    let bare = base.len() == 2 && is_letter(base[0]) && base[1] == 58;
    if base.len() > 0 && !is_separator(base[base.len() - 1], Separators::Either) && !bare {
        out.push(92);
        assert(out@ =~= base@ + seq![92u8]);
    }
    push_all(&mut out, rel);
    out
}

/// `rel` as seen from `base`.
pub fn join_path(base: &[u8], rel: &[u8], platform: Platform) -> (r: Vec<u8>)
    ensures
        r@ == joined(base@, rel@, platform),
{
    match platform {
        Platform::Unix => join_unix(base, rel),
        Platform::Windows => join_windows(base, rel),
    }
}

/// The bytes of `path`.
pub fn render_path(path: &[Component], platform: Platform) -> (r: Vec<u8>)
    ensures
        r@ == rendered(parts(path@), platform),
{
    let mut out: Vec<u8> = Vec::new();
    let mut i: usize = 0;
    assert(parts(path@).take(0) =~= Seq::<Part>::empty());
    while i < path.len()
        invariant
            i <= path@.len(),
            out@ == rendered(parts(path@).take(i as int), platform),
        decreases path@.len() - i,
    {
        assert(parts(path@).take(i + 1).drop_last() =~= parts(path@).take(i as int));
        assert(parts(path@).take(i + 1).last() == path@[i as int]@);
        let piece = path[i].bytes(platform);
        out = join_path(out.as_slice(), piece.as_slice(), platform);
        i = i + 1;
    }
    assert(parts(path@).take(path@.len() as int) =~= parts(path@));
    out
}

proof fn lemma_pieces_split(x: Seq<u8>, byte: u8, y: Seq<u8>, leading: bool, by: Separators)
    requires
        separates(byte, by),
    ensures
        parsed_pieces(x + seq![byte] + y, leading, by) == parsed_pieces(x, leading, by) + parsed_pieces(
            y,
            false,
            by,
        ),
    decreases x.len(),
{
    let whole = x + seq![byte] + y;
    lemma_piece_len(x, by);
    let n = piece_len(x, by) as int;
    assert forall|i: int| 0 <= i < n implies !separates(#[trigger] whole[i], by) by {
        assert(whole[i] == x[i]);
    }
    lemma_piece_len_is(whole, n, by);
    assert(whole.take(n) =~= x.take(n));
    if n < x.len() {
        lemma_pieces_split(x.skip(n + 1), byte, y, false, by);
        assert(whole.skip(n + 1) =~= x.skip(n + 1) + seq![byte] + y);
    } else {
        assert(x.take(n) =~= x);
        assert(whole.skip(n + 1) =~= y);
        if x.len() == 0 {
            assert(parsed_pieces(whole, leading, by) =~= parsed_pieces(y, false, by));
        }
    }
    assert(parsed_pieces(whole, leading, by) =~= parsed_pieces(x, leading, by) + parsed_pieces(
        y,
        false,
        by,
    ));
}

/// On Unix, joining appends the components of a relative path to those of its base,
/// and an absolute path replaces its base.
pub proof fn lemma_join_appends(base: Seq<u8>, rel: Seq<u8>)
    ensures
        rel.len() > 0 && rel[0] == 47u8 ==> parsed_unix(joined_unix(base, rel)) == parsed_unix(rel),
        base.len() == 0 ==> parsed_unix(joined_unix(base, rel)) == parsed_unix(rel),
        base.len() > 0 && !(rel.len() > 0 && rel[0] == 47u8) ==> parsed_unix(joined_unix(base, rel)) == parsed_unix(
            base,
        ) + parsed_pieces(rel, false, Separators::Slash),
{
    if rel.len() > 0 && rel[0] == 47u8 {
    } else if base.len() == 0 {
        assert(base + rel =~= rel);
    } else {
        let whole = joined_unix(base, rel);
        let rooted = base[0] == 47u8;
        // The base without its root, and without a trailing separator.
        let head = if rooted {
            base.skip(1)
        } else {
            base
        };
        let leading = !rooted;
        if base.last() != 47u8 {
            assert(whole == base + seq![47u8] + rel);
            if rooted {
                assert(whole.skip(1) =~= head + seq![47u8] + rel);
            }
            lemma_pieces_split(head, 47u8, rel, leading, Separators::Slash);
            assert(parsed_unix(whole) =~= parsed_unix(base) + parsed_pieces(rel, false, Separators::Slash));
        } else if head.len() == 0 {
            assert(whole.skip(1) =~= rel);
            assert(parsed_unix(whole) =~= parsed_unix(base) + parsed_pieces(rel, false, Separators::Slash));
        } else {
            let stem = head.drop_last();
            assert(head =~= stem + seq![47u8] + Seq::<u8>::empty());
            lemma_pieces_split(stem, 47u8, Seq::empty(), leading, Separators::Slash);
            lemma_pieces_split(stem, 47u8, rel, leading, Separators::Slash);
            assert(whole == base + rel);
            if rooted {
                assert(whole.skip(1) =~= stem + seq![47u8] + rel);
            } else {
                assert(whole =~= stem + seq![47u8] + rel);
            }
            assert(parsed_unix(whole) =~= parsed_unix(base) + parsed_pieces(rel, false, Separators::Slash));
        }
    }
}

proof fn lemma_single_piece(name: Seq<u8>, leading: bool, by: Separators)
    requires
        name.len() > 0,
        forall|i: int| 0 <= i < name.len() ==> !separates(#[trigger] name[i], by),
    ensures
        parsed_pieces(name, leading, by) == piece_parts(name, leading, by),
{
    lemma_piece_len_is(name, name.len() as int, by);
}

/// A path that bytes can denote on Unix: the root only in front, `.` only in
/// front, no prefix, and plain names.
pub open spec fn unix_path(path: Seq<Part>) -> bool {
    &&& plain_names(path, Platform::Unix)
    &&& forall|i: int| 0 <= i < path.len() ==> !((#[trigger] path[i]) is Prefix)
    &&& forall|i: int| 0 < i < path.len() ==> !((#[trigger] path[i]) is RootDir || path[i] is CurDir)
}

proof fn lemma_pieces_have_no_dot(raw: Seq<u8>)
    ensures
        forall|i: int|
            0 <= i < parsed_pieces(raw, false, Separators::Slash).len() ==> !((
            #[trigger] parsed_pieces(raw, false, Separators::Slash)[i]) is CurDir),
    decreases raw.len(),
{
    if raw.len() > 0 {
        let n = piece_len(raw, Separators::Slash) as int;
        if 0 <= n < raw.len() {
            lemma_pieces_have_no_dot(raw.skip(n + 1));
        }
    }
}

/// Whatever bytes denote on Unix is such a path.
pub proof fn lemma_parsed_is_unix_path(raw: Seq<u8>)
    ensures
        unix_path(parsed(raw, Platform::Unix)),
{
    let by = Separators::Slash;
    lemma_parsed_plain(raw, Platform::Unix);
    let path = parsed_unix(raw);
    if raw.len() > 0 && raw[0] == 47u8 {
        lemma_pieces_have_no_prefix(raw.skip(1), false, by);
        lemma_pieces_have_no_dot(raw.skip(1));
        let tail = parsed_pieces(raw.skip(1), false, by);
        assert(forall|i: int| 0 < i < path.len() ==> #[trigger] path[i] == tail[i - 1]);
    } else {
        lemma_pieces_have_no_prefix(raw, true, by);
        let n = piece_len(raw, by) as int;
        lemma_piece_len(raw, by);
        if n < raw.len() {
            let tail = parsed_pieces(raw.skip(n + 1), false, by);
            let first = piece_parts(raw.take(n), true, by);
            lemma_pieces_have_no_dot(raw.skip(n + 1));
            assert(path == first + tail);
            assert(first.len() <= 1);
            assert forall|i: int| 0 < i < path.len() implies !((#[trigger] path[i]) is CurDir) by {
                assert(path[i] == tail[i - first.len()]);
            }
            if first.len() == 0 {
                // The first piece is empty only where the path begins with a separator.
                assert(n == 0);
            }
        }
    }
}

/// On Unix, the bytes of a path denote that path.
pub proof fn lemma_render_reads_back(path: Seq<Part>)
    requires
        unix_path(path),
    ensures
        parsed_unix(rendered(path, Platform::Unix)) == path,
        path.len() > 0 ==> rendered(path, Platform::Unix).len() > 0,
    decreases path.len(),
{
    if path.len() > 0 {
        let before = path.drop_last();
        let part = path.last();
        assert(unix_path(before)) by {
            assert forall|i: int| 0 <= i < before.len() implies !((#[trigger] before[i]) is Prefix) by {
                assert(before[i] == path[i]);
            }
            assert forall|i: int| 0 < i < before.len() implies !((#[trigger] before[i]) is RootDir
                || before[i] is CurDir) by {
                assert(before[i] == path[i]);
            }
            assert forall|i: int| 0 <= i < before.len() implies ((#[trigger] before[i]) matches Part::Normal(
                name,
            ) ==> plain_name(name, Platform::Unix)) by {
                assert(before[i] == path[i]);
            }
        }
        lemma_render_reads_back(before);
        let base = rendered(before, Platform::Unix);
        let bytes = part_bytes(part, Platform::Unix);
        assert(path[path.len() - 1] == part);
        if part is RootDir {
            assert(before.len() == 0);
            assert(parsed_unix(bytes) =~= path) by {
                assert(bytes.skip(1) =~= Seq::<u8>::empty());
            }
        } else {
            assert(!bytes.contains(47u8)) by {
                if part is ParentDir {
                    assert(bytes =~= seq![46u8, 46u8]);
                }
                if part is CurDir {
                    assert(bytes =~= seq![46u8]);
                }
            }
            assert(bytes[0] != 47u8) by {
                assert(bytes.contains(bytes[0]));
            }
            assert forall|i: int| 0 <= i < bytes.len() implies !separates(
                #[trigger] bytes[i],
                Separators::Slash,
            ) by {
                assert(bytes.contains(bytes[i]));
            }
            lemma_single_piece(bytes, true, Separators::Slash);
            lemma_single_piece(bytes, false, Separators::Slash);
            lemma_join_appends(base, bytes);
            if part is ParentDir {
                assert(bytes == seq![46u8, 46u8]);
                assert(bytes.len() == 2 && seq![46u8].len() == 1);
            }
            if base.len() == 0 {
                assert(before.len() == 0);
                assert(base + bytes =~= bytes);
                assert(parsed_unix(bytes) =~= path);
            } else {
                assert(before.len() > 0) by {
                    if before.len() == 0 {
                        assert(base.len() == 0);
                    }
                }
                assert(parsed_unix(rendered(path, Platform::Unix)) =~= path);
            }
        }
    }
}

/// A prefix that its bytes denote, whatever path follows it: a drive by its upper-case
/// letter, or a share of a server.
pub open spec fn sound_prefix(prefix: PrefixView) -> bool {
    match prefix {
        PrefixView::Disk(drive) => 65 <= drive <= 90,
        PrefixView::VerbatimDisk(drive) => 65 <= drive <= 90,
        PrefixView::Unc(server, share) => {
            &&& unseparated(server, Separators::Either) && server.len() > 0
            &&& unseparated(share, Separators::Either) && share.len() > 0
            &&& server != seq![63u8] && server != seq![46u8]
        },
        PrefixView::VerbatimUnc(server, share) => {
            &&& unseparated(server, Separators::Backslash) && server.len() > 0
            &&& unseparated(share, Separators::Backslash) && share.len() > 0
        },
        _ => false,
    }
}

/// Whether nothing in a name separates.
pub open spec fn unseparated(name: Seq<u8>, by: Separators) -> bool {
    forall|i: int| 0 <= i < name.len() ==> !separates(#[trigger] name[i], by)
}

proof fn lemma_piece_at_is(raw: Seq<u8>, from: int, piece: Seq<u8>, by: Separators)
    requires
        0 <= from,
        from + piece.len() <= raw.len(),
        raw.subrange(from, from + piece.len()) == piece,
        unseparated(piece, by),
        from + piece.len() < raw.len() ==> separates(raw[from + piece.len()], by),
    ensures
        piece_at(raw, from, by) == piece,
{
    let rest = raw.skip(from);
    let n = piece.len() as int;
    assert forall|i: int| 0 <= i < n implies !separates(#[trigger] rest[i], by) by {
        assert(raw.subrange(from, from + n)[i] == rest[i]);
        assert(!separates(piece[i], by));
    }
    lemma_piece_len_is(rest, n, by);
    assert(rest.take(n) =~= raw.subrange(from, from + n));
}

proof fn lemma_prefix_reads_back(prefix: PrefixView, rest: Seq<u8>)
    requires
        sound_prefix(prefix),
        rest.len() > 0 ==> rest[0] == 92u8,
    ensures
        prefix_of(prefix_bytes(prefix) + rest) == Some(prefix),
        (prefix_bytes(prefix) + rest).skip(prefix_len(Some(prefix)) as int) == rest,
        (prefix_bytes(prefix) + rest).take(prefix_len(Some(prefix)) as int) == prefix_bytes(prefix),
{
    let front = prefix_bytes(prefix);
    let raw = front + rest;
    assert(raw.skip(front.len() as int) =~= rest);
    assert(raw.take(front.len() as int) =~= front);
    match prefix {
        PrefixView::Unc(server, share) => {
            let n = server.len() as int;
            let m = share.len() as int;
            assert(raw.subrange(2, 2 + n) =~= server);
            assert(raw[2 + n] == 92u8);
            assert(raw.subrange(3 + n, 3 + n + m) =~= share);
            lemma_piece_at_is(raw, 2, server, Separators::Either);
            lemma_piece_at_is(raw, 3 + n, share, Separators::Either);
            assert(!begins_verbatim(raw)) by {
                if begins_verbatim(raw) {
                    assert(raw[2] == server[0]);
                    if n > 1 {
                        assert(raw[3] == server[1]);
                        assert(!separates(server[1], Separators::Either));
                    } else {
                        assert(server =~= seq![63u8]);
                    }
                }
            }
            if raw[2] == 46u8 && separates(raw[3], Separators::Either) {
                assert(raw[2] == server[0]);
                if n > 1 {
                    assert(raw[3] == server[1]);
                } else {
                    assert(server =~= seq![46u8]);
                }
            }
        },
        PrefixView::VerbatimUnc(server, share) => {
            let n = server.len() as int;
            let m = share.len() as int;
            assert(raw.subrange(8, 8 + n) =~= server);
            assert(raw[8 + n] == 92u8);
            assert(raw.subrange(9 + n, 9 + n + m) =~= share);
            lemma_piece_at_is(raw, 8, server, Separators::Backslash);
            lemma_piece_at_is(raw, 9 + n, share, Separators::Backslash);
        },
        _ => {},
    }
}

/// A name that stands for one directory entry on Windows however it is written: it is
/// plain, holds neither separator, and does not begin with a drive.
pub open spec fn windows_name(name: Seq<u8>) -> bool {
    &&& plain_name(name, Platform::Windows)
    &&& unseparated(name, Separators::Either)
    &&& !drive_at(name, 0)
}

/// A component that leads from one directory to the next on Windows.
pub open spec fn windows_step(part: Part) -> bool {
    part is ParentDir || (part matches Part::Normal(name) && windows_name(name))
}

/// How many components stand before the first step of a path: a prefix, a root, both
/// or neither.
pub open spec fn head_len(path: Seq<Part>) -> nat {
    if path.len() == 0 {
        0
    } else if path[0] is Prefix {
        if path.len() > 1 && path[1] is RootDir {
            2
        } else {
            1
        }
    } else if path[0] is RootDir {
        1
    } else {
        0
    }
}

/// A path that is not verbatim: steps, from the root of a drive or a share, from a
/// drive's current directory, from the root of the current drive, or from the current
/// directory.
pub open spec fn windows_route(path: Seq<Part>) -> bool {
    &&& path.len() > 0 ==> (path[0] matches Part::Prefix(prefix) ==> sound_prefix(prefix) && !verbatim(prefix)
        && (prefix is Disk || head_len(path) == 2))
    &&& forall|i: int| head_len(path) <= i < path.len() ==> windows_step(#[trigger] path[i])
}

/// A path that bytes can denote on Windows, verbatim or not. A verbatim path has names
/// alone after its root.
pub open spec fn windows_path(path: Seq<Part>) -> bool {
    volume_path(path) || windows_route(path)
}

/// A drive or a share, the root, and then names alone.
pub open spec fn volume_path(path: Seq<Part>) -> bool {
    &&& path.len() >= 2
    &&& path[0] matches Part::Prefix(prefix) && sound_prefix(prefix)
    &&& path[1] is RootDir
    &&& forall|i: int|
        2 <= i < path.len() ==> ((#[trigger] path[i]) matches Part::Normal(name) && windows_name(name))
}

proof fn lemma_spelled_apart(path: Seq<Part>)
    requires
        path.len() > 0,
        !(path[0] is RootDir),
    ensures
        spelled(path, true) == seq![92u8] + spelled(path, false),
{
    assert(spelled(path, true) =~= seq![92u8] + spelled(path, false));
}

proof fn lemma_spelled_steps_read_back(path: Seq<Part>, leading: bool, by: Separators)
    requires
        separates(92u8, by),
        forall|i: int| 0 <= i < path.len() ==> windows_step(#[trigger] path[i]),
    ensures
        parsed_pieces(spelled(path, false), leading, by) == path,
    decreases path.len(),
{
    if path.len() > 0 {
        let tail = path.skip(1);
        assert forall|i: int| 0 <= i < tail.len() implies windows_step(#[trigger] tail[i]) by {
            assert(tail[i] == path[i + 1]);
        }
        lemma_spelled_steps_read_back(tail, false, by);
        assert(windows_step(path[0]));
        let name = part_bytes(path[0], Platform::Windows);
        assert forall|i: int| 0 <= i < name.len() implies !separates(#[trigger] name[i], by) by {
            assert(!separates(name[i], Separators::Either));
        }
        lemma_single_piece(name, leading, by);
        assert(piece_parts(name, leading, by) =~= seq![path[0]]);
        if tail.len() == 0 {
            assert(spelled(tail, true) =~= Seq::<u8>::empty());
            assert(spelled(path, false) =~= name);
            assert(path =~= seq![path[0]]);
        } else {
            assert(windows_step(tail[0]));
            lemma_spelled_apart(tail);
            assert(spelled(path, false) =~= name + seq![92u8] + spelled(tail, false));
            lemma_pieces_split(name, 92u8, spelled(tail, false), leading, by);
            assert(path =~= seq![path[0]] + tail);
        }
    }
}

proof fn lemma_spelled_push(path: Seq<Part>, part: Part, apart: bool)
    requires
        path.len() > 0,
        !(part is RootDir),
    ensures
        spelled(path.push(part), apart) == spelled(path, apart) + if path.last() is RootDir {
            Seq::<u8>::empty()
        } else {
            seq![92u8]
        } + part_bytes(part, Platform::Windows),
    decreases path.len(),
{
    let longer = path.push(part);
    assert(longer[0] == path[0]);
    if path.len() == 1 {
        assert(longer.skip(1) =~= seq![part]);
        assert(path.skip(1) =~= Seq::<Part>::empty());
        reveal_with_fuel(spelled, 3);
        assert(seq![part].skip(1) =~= Seq::<Part>::empty());
        assert(spelled(longer, apart) =~= spelled(path, apart) + if path.last() is RootDir {
            Seq::<u8>::empty()
        } else {
            seq![92u8]
        } + part_bytes(part, Platform::Windows));
    } else {
        let tail = path.skip(1);
        assert(longer.skip(1) =~= tail.push(part));
        assert(tail.last() == path.last());
        lemma_spelled_push(tail, part, !(path[0] is RootDir));
        assert(spelled(longer, apart) =~= spelled(path, apart) + if path.last() is RootDir {
            Seq::<u8>::empty()
        } else {
            seq![92u8]
        } + part_bytes(part, Platform::Windows));
    }
}

/// A name that denotes one entry on Windows reads as itself.
pub proof fn lemma_lone_name(name: Seq<u8>)
    requires
        windows_name(name),
    ensures
        prefix_of(name) is None,
        parsed_windows(name) == seq![Part::Normal(name)],
{
    assert(!separates(name[0], Separators::Either));
    assert(name.skip(0) =~= name);
    lemma_single_piece(name, true, Separators::Either);
    assert(parsed_windows(name) =~= seq![Part::Normal(name)]);
}

/// A plain name that begins with a drive reads as that drive and what follows it.
pub proof fn lemma_drive_name(name: Seq<u8>)
    requires
        plain_name(name, Platform::Windows),
        unseparated(name, Separators::Either),
        drive_at(name, 0),
    ensures
        parsed_windows(name) == seq![Part::Prefix(PrefixView::Disk(upper(name[0])))] + piece_parts(
            name.skip(2),
            false,
            Separators::Either,
        ),
{
    let rest = name.skip(2);
    assert(!separates(name[0], Separators::Either));
    assert forall|i: int| 0 <= i < rest.len() implies !separates(
        #[trigger] rest[i],
        Separators::Either,
    ) by {
        assert(rest[i] == name[i + 2]);
    }
    assert(prefix_of(name) == Some(PrefixView::Disk(upper(name[0]))));
    if rest.len() > 0 {
        assert(!separates(rest[0], Separators::Either));
        lemma_single_piece(rest, false, Separators::Either);
    }
}

proof fn lemma_windows_root_render(path: Seq<Part>)
    requires
        volume_path(path),
        path.len() == 2,
    ensures
        rendered(path, Platform::Windows) == prefix_bytes(path[0]->Prefix_0) + seq![92u8],
        spelled(path.skip(1), true) == seq![92u8],
{
    let prefix = path[0]->Prefix_0;
    let front = prefix_bytes(prefix);
    let alone = path.drop_last();
    let root = seq![92u8];
    assert(alone.drop_last() =~= Seq::<Part>::empty());
    assert(alone.last() == path[0]);
    assert(front + Seq::<u8>::empty() =~= front);
    lemma_prefix_reads_back(prefix, Seq::empty());
    assert(rendered(alone, Platform::Windows) == front) by {
        assert(rendered(alone.drop_last(), Platform::Windows) =~= Seq::<u8>::empty());
    }
    assert(path.last() == Part::RootDir);
    assert(part_bytes(Part::RootDir, Platform::Windows) =~= root);
    assert(prefix_of(root) is None);
    assert(front.take(front.len() as int) =~= front);
    let rest = path.skip(1);
    assert(rest =~= seq![Part::RootDir]);
    assert(spelled(rest.skip(1), false) =~= Seq::<u8>::empty());
    assert(spelled(rest, true) =~= root);
    if verbatim(prefix) {
        assert(root.skip(0) =~= root);
        assert(root.skip(1) =~= Seq::<u8>::empty());
        assert(parsed_windows(root) =~= seq![Part::RootDir]);
        assert(front.skip(front.len() as int) =~= Seq::<u8>::empty());
        assert(parsed_windows(front) =~= seq![path[0]]);
        assert(seq![Part::RootDir].drop_last() =~= Seq::<Part>::empty());
        reveal_with_fuel(appended, 2);
        assert(appended(seq![path[0]], seq![Part::RootDir]) =~= seq![path[0], Part::RootDir]);
        assert(seq![path[0], Part::RootDir].skip(1) =~= rest);
    }
}

proof fn lemma_windows_parse_spelled(path: Seq<Part>)
    requires
        volume_path(path),
    ensures
        parsed_windows(prefix_bytes(path[0]->Prefix_0) + spelled(path.skip(1), true)) == path,
{
    let prefix = path[0]->Prefix_0;
    let front = prefix_bytes(prefix);
    let names = path.skip(2);
    assert(path.skip(1)[0] is RootDir);
    assert(path.skip(1).skip(1) =~= names);
    assert(spelled(path.skip(1), true) =~= seq![92u8] + spelled(names, false));
    let whole = seq![92u8] + spelled(names, false);
    lemma_prefix_reads_back(prefix, whole);
    assert(whole.skip(1) =~= spelled(names, false));
    assert forall|i: int| 0 <= i < names.len() implies windows_step(#[trigger] names[i]) by {
        assert(names[i] == path[i + 2]);
    }
    lemma_spelled_steps_read_back(names, false, separators_after(Some(prefix)));
    assert(path =~= seq![Part::Prefix(prefix)] + seq![Part::RootDir] + names);
}

proof fn lemma_spelled_end(path: Seq<Part>)
    requires
        volume_path(path),
    ensures
        ({
            let base = prefix_bytes(path[0]->Prefix_0) + spelled(path.skip(1), true);
            needs_separator(base) == !(path.last() is RootDir)
        }),
{
    let front = prefix_bytes(path[0]->Prefix_0);
    let rest = path.skip(1);
    let base = front + spelled(rest, true);
    assert(rest[0] is RootDir);
    if path.len() > 2 {
        let shorter = rest.drop_last();
        assert(path[path.len() - 1] == path.last());
        let last = path.last()->Normal_0;
        assert(shorter.push(Part::Normal(last)) =~= rest);
        lemma_spelled_push(shorter, path.last(), true);
        assert(base.last() == last.last());
        assert(last.last() == last[last.len() - 1]);
        assert(base.len() > 2);
    } else {
        assert(rest =~= seq![Part::RootDir]);
        assert(spelled(rest.skip(1), false) =~= Seq::<u8>::empty());
        assert(spelled(rest, true) =~= seq![92u8]);
        assert(base.last() == 92u8);
    }
}

proof fn lemma_windows_name_joins(before: Seq<Part>, name: Seq<u8>)
    requires
        volume_path(before),
        windows_name(name),
    ensures
        ({
            let front = prefix_bytes(before[0]->Prefix_0);
            let path = before.push(Part::Normal(name));
            joined_windows(front + spelled(before.skip(1), true), name) == front + spelled(
                path.skip(1),
                true,
            )
        }),
{
    let prefix = before[0]->Prefix_0;
    let front = prefix_bytes(prefix);
    let rest = before.skip(1);
    let base = front + spelled(rest, true);
    let path = before.push(Part::Normal(name));
    lemma_lone_name(name);
    assert(path.skip(1) =~= rest.push(Part::Normal(name)));
    assert(rest[0] is RootDir);
    assert(spelled(rest, true)[0] == 92u8);
    lemma_prefix_reads_back(prefix, spelled(rest, true));
    assert(rest.last() == before.last());
    if verbatim(prefix) {
        lemma_windows_parse_spelled(before);
        reveal_with_fuel(appended, 2);
        assert(seq![Part::Normal(name)].drop_last() =~= Seq::<Part>::empty());
        assert(appended(before, seq![Part::Normal(name)]) =~= path);
    } else {
        lemma_spelled_push(rest, Part::Normal(name), true);
        lemma_spelled_end(before);
        assert(!separates(name[0], Separators::Either));
        assert(joined_windows(base, name) =~= front + spelled(path.skip(1), true));
    }
}

/// The bytes of such a path are its prefix followed by the rest, spelled out.
proof fn lemma_windows_render_is_spelled(path: Seq<Part>)
    requires
        volume_path(path),
    ensures
        rendered(path, Platform::Windows) == prefix_bytes(path[0]->Prefix_0) + spelled(
            path.skip(1),
            true,
        ),
    decreases path.len(),
{
    if path.len() == 2 {
        lemma_windows_root_render(path);
    } else {
        let before = path.drop_last();
        assert(before[0] == path[0] && before[1] == path[1]);
        assert forall|i: int| 2 <= i < before.len() implies ((#[trigger] before[i]) matches Part::Normal(
            name,
        ) && windows_name(name)) by {
            assert(before[i] == path[i]);
        }
        lemma_windows_render_is_spelled(before);
        assert(path[path.len() - 1] == path.last());
        let name = path.last()->Normal_0;
        lemma_windows_name_joins(before, name);
        assert(before.push(Part::Normal(name)) =~= path);
    }
}

/// The bytes of what stands before the first step.
spec fn head_bytes(path: Seq<Part>) -> Seq<u8> {
    let prefix = if path.len() > 0 && path[0] is Prefix {
        prefix_bytes(path[0]->Prefix_0)
    } else {
        Seq::empty()
    };
    let n = head_len(path) as int;
    if n > 0 && path[n - 1] is RootDir {
        prefix + seq![92u8]
    } else {
        prefix
    }
}

/// The prefix of a path, if it has one.
spec fn head_prefix(path: Seq<Part>) -> Option<PrefixView> {
    if path.len() > 0 && path[0] is Prefix {
        Some(path[0]->Prefix_0)
    } else {
        None
    }
}

proof fn lemma_spelled_steps_bytes(steps: Seq<Part>)
    requires
        steps.len() > 0,
        forall|i: int| 0 <= i < steps.len() ==> windows_step(#[trigger] steps[i]),
    ensures
        ({
            let raw = spelled(steps, false);
            &&& raw.len() > 0
            &&& !separates(raw[0], Separators::Either)
            &&& !separates(raw.last(), Separators::Either)
            &&& !drive_at(raw, 0)
        }),
{
    let raw = spelled(steps, false);
    let first = part_bytes(steps[0], Platform::Windows);
    let tail = steps.skip(1);
    let after = spelled(tail, true);
    assert(windows_step(steps[0]));
    assert(raw =~= first + after);
    assert(raw[0] == first[0]);
    if tail.len() > 0 {
        assert(tail[0] == steps[1]);
        assert(windows_step(steps[1]));
        assert(after[0] == 92u8);
    }
    if drive_at(raw, 0) {
        if first.len() >= 2 {
            assert(drive_at(first, 0));
        } else {
            assert(raw[1] == after[0]);
        }
    }
    assert(windows_step(steps[steps.len() - 1]));
    let last = part_bytes(steps.last(), Platform::Windows);
    assert(!separates(last[last.len() - 1], Separators::Either));
    if tail.len() > 0 {
        let front = steps.drop_last();
        assert(front.push(steps.last()) =~= steps);
        lemma_spelled_push(front, steps.last(), false);
        assert(raw.last() == last.last());
    } else {
        assert(after =~= Seq::<u8>::empty());
        assert(raw =~= last);
    }
}

proof fn lemma_route_tail(path: Seq<Part>)
    requires
        windows_route(path),
    ensures
        head_len(path) <= path.len(),
        ({
            let steps = path.skip(head_len(path) as int);
            forall|i: int| 0 <= i < steps.len() ==> windows_step(#[trigger] steps[i])
        }),
{
    let n = head_len(path) as int;
    let steps = path.skip(n);
    assert forall|i: int| 0 <= i < steps.len() implies windows_step(#[trigger] steps[i]) by {
        assert(steps[i] == path[i + n]);
    }
}

proof fn lemma_route_prefix(path: Seq<Part>)
    requires
        windows_route(path),
    ensures
        ({
            let raw = head_bytes(path) + spelled(path.skip(head_len(path) as int), false);
            let n = prefix_len(head_prefix(path)) as int;
            &&& prefix_of(raw) == head_prefix(path)
            &&& raw.take(n) == head_bytes(path).take(n)
            &&& raw.skip(n) == head_bytes(path).skip(n) + spelled(path.skip(head_len(path) as int), false)
        }),
{
    let n = head_len(path) as int;
    let steps = path.skip(n);
    let rest = spelled(steps, false);
    let head = head_bytes(path);
    let raw = head + rest;
    lemma_route_tail(path);
    if steps.len() > 0 {
        lemma_spelled_steps_bytes(steps);
    } else {
        assert(rest =~= Seq::<u8>::empty());
    }
    let m = prefix_len(head_prefix(path)) as int;
    assert(raw.take(m) =~= head.take(m));
    assert(raw.skip(m) =~= head.skip(m) + rest);
    match head_prefix(path) {
        None => {
            if n == 1 {
                assert(raw[0] == 92u8);
                if rest.len() > 0 {
                    assert(raw[1] == rest[0]);
                }
            } else {
                assert(raw =~= rest);
            }
        },
        Some(prefix) => {
            if n == 2 {
                assert(head =~= prefix_bytes(prefix) + seq![92u8]);
                let after = seq![92u8] + rest;
                lemma_prefix_reads_back(prefix, after);
                assert(raw =~= prefix_bytes(prefix) + after);
            } else {
                assert(raw[0] == head[0] && raw[1] == head[1]);
                assert(drive_at(raw, 0));
            }
        },
    }
}

proof fn lemma_read_after_a_prefix(prefix: Option<PrefixView>, steps: Seq<Part>, rooted: bool)
    requires
        forall|i: int| 0 <= i < steps.len() ==> windows_step(#[trigger] steps[i]),
        prefix matches Some(p) ==> !verbatim(p) && (p is Disk || rooted),
    ensures
        rooted ==> parsed_after(prefix, seq![92u8] + spelled(steps, false)) == prefix_parts(prefix)
            + seq![Part::RootDir] + steps,
        !rooted ==> parsed_after(prefix, spelled(steps, false)) == prefix_parts(prefix) + steps,
{
    let rest = spelled(steps, false);
    if steps.len() > 0 {
        lemma_spelled_steps_bytes(steps);
    } else {
        assert(rest =~= Seq::<u8>::empty());
    }
    assert(separators_after(prefix) == Separators::Either);
    if rooted {
        let after = seq![92u8] + rest;
        assert(after[0] == 92u8);
        assert(after.skip(1) =~= rest);
        lemma_spelled_steps_read_back(steps, false, Separators::Either);
    } else {
        lemma_spelled_steps_read_back(steps, prefix is None, Separators::Either);
        assert(!implies_root(prefix));
    }
}

proof fn lemma_route_parses(path: Seq<Part>)
    requires
        windows_route(path),
    ensures
        parsed_windows(head_bytes(path) + spelled(path.skip(head_len(path) as int), false)) == path,
{
    let n = head_len(path) as int;
    let steps = path.skip(n);
    let rest = spelled(steps, false);
    let head = head_bytes(path);
    let prefix = head_prefix(path);
    let rooted = n > 0 && path[n - 1] is RootDir;
    lemma_route_tail(path);
    lemma_route_prefix(path);
    let after = head.skip(prefix_len(prefix) as int) + rest;
    assert(parsed_windows(head + rest) == parsed_after(prefix, after));
    lemma_read_after_a_prefix(prefix, steps, rooted);
    if rooted {
        assert(after =~= seq![92u8] + rest);
        assert(path =~= prefix_parts(prefix) + seq![Part::RootDir] + steps);
    } else {
        assert(after =~= rest);
        assert(path =~= prefix_parts(prefix) + steps);
    }
}

proof fn lemma_route_needs_separator(path: Seq<Part>)
    requires
        windows_route(path),
    ensures
        ({
            let steps = path.skip(head_len(path) as int);
            needs_separator(head_bytes(path) + spelled(steps, false)) == (steps.len() > 0)
        }),
{
    let steps = path.skip(head_len(path) as int);
    let head = head_bytes(path);
    let base = head + spelled(steps, false);
    lemma_route_tail(path);
    if steps.len() == 0 {
        assert(spelled(steps, false) =~= Seq::<u8>::empty());
        assert(base =~= head);
    } else {
        lemma_spelled_steps_bytes(steps);
        assert(base.last() == spelled(steps, false).last());
        if base.len() == 2 && drive_at(base, 0) {
            if head.len() == 0 {
                assert(base =~= spelled(steps, false));
            } else {
                assert(base[0] == head[0]);
                assert(head =~= seq![92u8]);
            }
        }
    }
}

proof fn lemma_route_step_joins(before: Seq<Part>, step: Part)
    requires
        windows_route(before),
        windows_step(step),
    ensures
        ({
            let head = head_bytes(before);
            let steps = before.skip(head_len(before) as int);
            joined_windows(head + spelled(steps, false), part_bytes(step, Platform::Windows)) == head + spelled(
                steps.push(step),
                false,
            )
        }),
{
    let head = head_bytes(before);
    let steps = before.skip(head_len(before) as int);
    let base = head + spelled(steps, false);
    let bytes = part_bytes(step, Platform::Windows);
    lemma_route_prefix(before);
    lemma_route_tail(before);
    lemma_route_needs_separator(before);
    assert(!separates(bytes[0], Separators::Either));
    assert(prefix_of(bytes) is None) by {
        if step is Normal {
            lemma_lone_name(bytes);
        }
    }
    if steps.len() == 0 {
        assert(spelled(steps, false) =~= Seq::<u8>::empty());
        assert(steps.push(step) =~= seq![step]);
        assert(seq![step].skip(1) =~= Seq::<Part>::empty());
        assert(spelled(seq![step].skip(1), true) =~= Seq::<u8>::empty());
        assert(spelled(seq![step], false) =~= bytes);
        assert(joined_windows(base, bytes) =~= head + bytes);
    } else {
        assert(windows_step(steps[steps.len() - 1]));
        lemma_spelled_push(steps, step, false);
        assert(joined_windows(base, bytes) =~= head + (spelled(steps, false) + seq![92u8] + bytes));
    }
}

proof fn lemma_route_render(path: Seq<Part>)
    requires
        windows_route(path),
    ensures
        rendered(path, Platform::Windows) == head_bytes(path) + spelled(
            path.skip(head_len(path) as int),
            false,
        ),
    decreases path.len(),
{
    let n = head_len(path) as int;
    if path.len() == n {
        lemma_head_render(path);
        assert(spelled(path.skip(n), false) =~= Seq::<u8>::empty());
        assert(head_bytes(path) + spelled(path.skip(n), false) =~= head_bytes(path));
    } else {
        let before = path.drop_last();
        let last = path.last();
        assert(path[path.len() - 1] == last);
        assert(windows_step(last));
        assert(head_len(before) == n);
        assert(windows_route(before)) by {
            assert forall|i: int| n <= i < before.len() implies windows_step(#[trigger] before[i]) by {
                assert(before[i] == path[i]);
            }
        }
        assert(head_bytes(before) == head_bytes(path));
        lemma_route_render(before);
        lemma_route_step_joins(before, last);
        assert(path.skip(n) =~= before.skip(n).push(last));
    }
}

proof fn lemma_head_render(path: Seq<Part>)
    requires
        windows_route(path),
        path.len() == head_len(path),
    ensures
        rendered(path, Platform::Windows) == head_bytes(path),
{
    reveal_with_fuel(rendered, 3);
    let none = Seq::<Part>::empty();
    if path.len() == 1 {
        assert(path.drop_last() =~= none);
        assert(path.last() == path[0]);
        let bytes = part_bytes(path[0], Platform::Windows);
        assert(Seq::<u8>::empty() + bytes =~= bytes);
        assert(Seq::<u8>::empty().take(0) =~= Seq::<u8>::empty());
        if path[0] is RootDir {
            assert(bytes =~= seq![92u8]);
            assert(head_bytes(path) =~= seq![92u8]);
        } else {
            assert(drive_at(bytes, 0));
            assert(head_bytes(path) =~= bytes);
        }
        assert(rendered(path, Platform::Windows) =~= head_bytes(path));
    } else if path.len() == 2 {
        assert(volume_path(path));
        lemma_windows_root_render(path);
        assert(head_bytes(path) =~= prefix_bytes(path[0]->Prefix_0) + seq![92u8]);
    }
}

/// On Windows, the bytes of a path denote that path.
pub proof fn lemma_windows_render_reads_back(path: Seq<Part>)
    requires
        windows_path(path),
    ensures
        parsed(rendered(path, Platform::Windows), Platform::Windows) == path,
{
    if volume_path(path) {
        lemma_windows_render_is_spelled(path);
        lemma_windows_parse_spelled(path);
    } else {
        lemma_route_render(path);
        lemma_route_parses(path);
    }
}

/// A byte string with every `/` written as `\`.
pub open spec fn backslashed(raw: Seq<u8>) -> Seq<u8> {
    Seq::new(
        raw.len(),
        |i: int|
            if raw[i] == 47u8 {
                92u8
            } else {
                raw[i]
            },
    )
}

proof fn lemma_backslashed_piece(raw: Seq<u8>, from: int)
    requires
        0 <= from <= raw.len(),
    ensures
        piece_len(backslashed(raw).skip(from), Separators::Either) == piece_len(
            raw.skip(from),
            Separators::Either,
        ),
        piece_at(backslashed(raw), from, Separators::Either) == piece_at(raw, from, Separators::Either),
{
    let by = Separators::Either;
    let rest = raw.skip(from);
    let other = backslashed(raw).skip(from);
    lemma_piece_len(rest, by);
    let n = piece_len(rest, by) as int;
    assert forall|i: int| 0 <= i < n implies !separates(#[trigger] other[i], by) by {
        assert(!separates(rest[i], by));
    }
    if n < rest.len() {
        assert(separates(rest[n], by));
    }
    lemma_piece_len_is(other, n, by);
    assert(other.take(n) =~= rest.take(n)) by {
        assert forall|i: int| 0 <= i < n implies other[i] == rest[i] by {
            assert(!separates(rest[i], by));
        }
    }
}

proof fn lemma_backslashed_pieces(raw: Seq<u8>, leading: bool)
    ensures
        parsed_pieces(backslashed(raw), leading, Separators::Either) == parsed_pieces(
            raw,
            leading,
            Separators::Either,
        ),
    decreases raw.len(),
{
    let by = Separators::Either;
    if raw.len() > 0 {
        lemma_piece_len(raw, by);
        lemma_backslashed_piece(raw, 0);
        assert(raw.skip(0) =~= raw);
        assert(backslashed(raw).skip(0) =~= backslashed(raw));
        let n = piece_len(raw, by) as int;
        if n < raw.len() {
            assert(backslashed(raw).skip(n + 1) =~= backslashed(raw.skip(n + 1)));
            lemma_backslashed_pieces(raw.skip(n + 1), false);
        } else {
            assert(raw.take(n) =~= raw);
            assert(backslashed(raw).take(n) =~= backslashed(raw));
        }
    }
}

/// On Windows both separators mean the same: a path written with `/` denotes what it
/// denotes written with `\`, unless one of the two spellings is verbatim. So `..\x` is
/// as much a climb as `../x`.
pub proof fn lemma_either_separator_is_read(raw: Seq<u8>)
    requires
        !begins_verbatim(raw),
        !begins_verbatim(backslashed(raw)),
    ensures
        parsed(backslashed(raw), Platform::Windows) == parsed(raw, Platform::Windows),
{
    let by = Separators::Either;
    let other = backslashed(raw);
    if begins_doubled(raw) {
        if raw.len() >= 4 {
            lemma_backslashed_piece(raw, 4);
        }
        lemma_backslashed_piece(raw, 2);
        let end = 2int + piece_at(raw, 2, by).len();
        lemma_piece_len(raw.skip(2), by);
        if end < raw.len() {
            lemma_backslashed_piece(raw, end + 1);
        }
    }
    assert(prefix_of(other) == prefix_of(raw));
    lemma_prefix_fits(raw);
    let prefix = prefix_of(raw);
    let k = prefix_len(prefix) as int;
    let rest = raw.skip(k);
    assert(other.skip(k) =~= backslashed(rest));
    assert(separators_after(prefix) == by);
    if rest.len() > 0 {
        assert(backslashed(rest).skip(1) =~= backslashed(rest.skip(1)));
        lemma_backslashed_pieces(rest.skip(1), false);
    }
    lemma_backslashed_pieces(rest, false);
    lemma_backslashed_pieces(rest, true);
}

/// Whether an unpaired surrogate of UTF-16 begins here. A Windows path holds one as
/// three bytes, which no character of UTF-8 has.
pub open spec fn surrogate_at(raw: Seq<u8>, i: int) -> bool {
    0 <= i && i + 2 < raw.len() && raw[i] == 0xED && 0xA0 <= raw[i + 1] <= 0xBF && 0x80 <= raw[i + 2] <= 0xBF
}

/// The bytes with U+FFFD in the place of every unpaired surrogate.
pub open spec fn mended(raw: Seq<u8>) -> Seq<u8> {
    Seq::new(
        raw.len(),
        |i: int|
            if surrogate_at(raw, i) {
                0xEFu8
            } else if surrogate_at(raw, i - 1) {
                0xBFu8
            } else if surrogate_at(raw, i - 2) {
                0xBDu8
            } else {
                raw[i]
            },
    )
}

/// The text that a path is shown as. On Windows one replacement character stands for
/// an unpaired surrogate.
pub open spec fn shown(raw: Seq<u8>, platform: Platform) -> Seq<char> {
    match platform {
        Platform::Unix => lossy_utf8(raw),
        Platform::Windows => lossy_utf8(mended(raw)),
    }
}

fn is_surrogate_at(raw: &[u8], i: usize) -> (r: bool)
    requires
        i < raw@.len(),
    ensures
        r == surrogate_at(raw@, i as int),
{
    raw.len() - i > 2 && raw[i] == 0xED && 0xA0 <= raw[i + 1] && raw[i + 1] <= 0xBF && 0x80 <= raw[i
        + 2] && raw[i + 2] <= 0xBF
}

fn mend_surrogates(raw: &[u8]) -> (r: Vec<u8>)
    ensures
        r@ == mended(raw@),
{
    let mut out: Vec<u8> = Vec::new();
    let mut i: usize = 0;
    while i < raw.len()
        invariant
            i <= raw@.len(),
            out@ == mended(raw@).take(i as int),
        decreases raw@.len() - i,
    {
        let byte: u8 = if is_surrogate_at(raw, i) {
            0xEF
        } else if i >= 1 && is_surrogate_at(raw, i - 1) {
            0xBF
        } else if i >= 2 && is_surrogate_at(raw, i - 2) {
            0xBD
        } else {
            raw[i]
        };
        out.push(byte);
        i = i + 1;
        assert(out@ =~= mended(raw@).take(i as int));
    }
    assert(out@ =~= mended(raw@));
    out
}

/// The text that a path is shown as in a message.
pub fn show_path(raw: &[u8], platform: Platform) -> (r: String)
    ensures
        r@ == shown(raw@, platform),
{
    match platform {
        Platform::Unix => lossy_text(raw),
        Platform::Windows => lossy_text(mend_surrogates(raw).as_slice()),
    }
}

// ---------------------------------------------------------------------------
// Laws
// ---------------------------------------------------------------------------

proof fn lemma_pieces_push(x: Seq<u8>, byte: u8, piece: Seq<u8>, leading: bool, by: Separators)
    requires
        separates(byte, by),
        unseparated(piece, by),
    ensures
        parsed_pieces(x + seq![byte] + piece, leading, by) == parsed_pieces(x, leading, by) + piece_parts(
            piece,
            false,
            by,
        ),
{
    lemma_pieces_split(x, byte, piece, leading, by);
    if piece.len() > 0 {
        lemma_single_piece(piece, false, by);
    }
}

/// Unix paths are read piece by piece, whatever stands before the piece: a name is a
/// name, `..` is a step up, and `.`, an empty piece and a trailing `/` are nothing. At
/// the start of a path a `/` is the root and a `.` is kept.
pub proof fn lemma_unix_paths_are_read_by_pieces(x: Seq<u8>, name: Seq<u8>)
    requires
        name.len() > 0,
        name != seq![46u8],
        name != seq![46u8, 46u8],
        forall|i: int| 0 <= i < name.len() ==> #[trigger] name[i] != 47,
    ensures
        ({
            let unix = Platform::Unix;
            &&& parsed(Seq::empty(), unix) == Seq::<Part>::empty()
            &&& parsed(name, unix) == seq![Part::Normal(name)]
            &&& parsed(seq![46u8], unix) == seq![Part::CurDir]
            &&& parsed(seq![46u8, 46u8], unix) == seq![Part::ParentDir]
            &&& parsed(seq![47u8], unix) == seq![Part::RootDir]
            &&& parsed(seq![47u8] + name, unix) == seq![Part::RootDir, Part::Normal(name)]
            &&& parsed(seq![47u8, 46u8, 46u8], unix) == seq![Part::RootDir, Part::ParentDir]
            &&& parsed(seq![47u8, 46u8], unix) == seq![Part::RootDir]
        }),
        x.len() > 0 ==> {
            let unix = Platform::Unix;
            &&& parsed(x + seq![47u8] + name, unix) == parsed(x, unix).push(Part::Normal(name))
            &&& parsed(x + seq![47u8, 46u8, 46u8], unix) == parsed(x, unix).push(Part::ParentDir)
            &&& parsed(x + seq![47u8, 46u8], unix) == parsed(x, unix)
            &&& parsed(x + seq![47u8], unix) == parsed(x, unix)
        },
{
    let by = Separators::Slash;
    let none = Seq::<u8>::empty();
    let dot = seq![46u8];
    let up = seq![46u8, 46u8];
    assert(unseparated(name, by) && unseparated(dot, by) && unseparated(up, by) && unseparated(none, by));
    lemma_single_piece(name, true, by);
    lemma_single_piece(name, false, by);
    lemma_single_piece(dot, true, by);
    lemma_single_piece(dot, false, by);
    lemma_single_piece(up, true, by);
    lemma_single_piece(up, false, by);
    assert(seq![47u8].skip(1) =~= none);
    assert((seq![47u8] + name).skip(1) =~= name);
    assert(seq![47u8, 46u8, 46u8].skip(1) =~= up);
    assert(seq![47u8, 46u8].skip(1) =~= dot);
    assert(parsed_unix(seq![47u8]) =~= seq![Part::RootDir]);
    assert(parsed_unix(seq![47u8] + name) =~= seq![Part::RootDir, Part::Normal(name)]);
    assert(parsed_unix(seq![47u8, 46u8, 46u8]) =~= seq![Part::RootDir, Part::ParentDir]);
    assert(parsed_unix(seq![47u8, 46u8]) =~= seq![Part::RootDir]);
    if x.len() > 0 {
        lemma_unix_piece_after(x, name);
        lemma_unix_piece_after(x, up);
        lemma_unix_piece_after(x, dot);
        lemma_unix_piece_after(x, none);
        assert(x + seq![47u8, 46u8, 46u8] =~= x + seq![47u8] + up);
        assert(x + seq![47u8, 46u8] =~= x + seq![47u8] + dot);
        assert(x + seq![47u8] + none =~= x + seq![47u8]);
        let read = parsed_unix(x);
        assert(read + piece_parts(name, false, by) =~= read.push(Part::Normal(name)));
        assert(read + piece_parts(up, false, by) =~= read.push(Part::ParentDir));
        assert(read + piece_parts(dot, false, by) =~= read);
        assert(read + piece_parts(none, false, by) =~= read);
    }
}

proof fn lemma_unix_piece_after(x: Seq<u8>, piece: Seq<u8>)
    requires
        x.len() > 0,
        unseparated(piece, Separators::Slash),
    ensures
        parsed_unix(x + seq![47u8] + piece) == parsed_unix(x) + piece_parts(
            piece,
            false,
            Separators::Slash,
        ),
{
    let by = Separators::Slash;
    let whole = x + seq![47u8] + piece;
    assert(whole[0] == x[0]);
    if x[0] == 47u8 {
        assert(whole.skip(1) =~= x.skip(1) + seq![47u8] + piece);
        lemma_pieces_push(x.skip(1), 47u8, piece, false, by);
        assert(parsed_unix(whole) =~= parsed_unix(x) + piece_parts(piece, false, by));
    } else {
        lemma_pieces_push(x, 47u8, piece, true, by);
    }
}

/// Windows paths are read piece by piece too, by either separator. This is said of what
/// follows a relative path, or a path on a drive that is more than the drive.
pub proof fn lemma_windows_paths_are_read_by_pieces(x: Seq<u8>, byte: u8, name: Seq<u8>)
    requires
        byte == 47 || byte == 92,
        x.len() > 0,
        x[0] != 47 && x[0] != 92,
        x.len() == 2 ==> !(x[1] == 58 && (65 <= x[0] <= 90 || 97 <= x[0] <= 122)),
        name.len() > 0,
        name != seq![46u8],
        name != seq![46u8, 46u8],
        forall|i: int| 0 <= i < name.len() ==> #[trigger] name[i] != 47 && name[i] != 92,
    ensures
        ({
            let windows = Platform::Windows;
            &&& parsed(x + seq![byte] + name, windows) == parsed(x, windows).push(Part::Normal(name))
            &&& parsed(x + seq![byte, 46u8, 46u8], windows) == parsed(x, windows).push(Part::ParentDir)
            &&& parsed(x + seq![byte, 46u8], windows) == parsed(x, windows)
            &&& parsed(x + seq![byte], windows) == parsed(x, windows)
        }),
{
    let by = Separators::Either;
    let none = Seq::<u8>::empty();
    let dot = seq![46u8];
    let up = seq![46u8, 46u8];
    lemma_windows_piece_after(x, byte, name);
    lemma_windows_piece_after(x, byte, up);
    lemma_windows_piece_after(x, byte, dot);
    lemma_windows_piece_after(x, byte, none);
    assert(x + seq![byte, 46u8, 46u8] =~= x + seq![byte] + up);
    assert(x + seq![byte, 46u8] =~= x + seq![byte] + dot);
    assert(x + seq![byte] + none =~= x + seq![byte]);
    let read = parsed_windows(x);
    assert(read + piece_parts(name, false, by) =~= read.push(Part::Normal(name)));
    assert(read + piece_parts(up, false, by) =~= read.push(Part::ParentDir));
    assert(read + piece_parts(dot, false, by) =~= read);
    assert(read + piece_parts(none, false, by) =~= read);
}

proof fn lemma_windows_piece_after(x: Seq<u8>, byte: u8, piece: Seq<u8>)
    requires
        byte == 47 || byte == 92,
        x.len() > 0,
        x[0] != 47 && x[0] != 92,
        x.len() == 2 ==> !drive_at(x, 0),
        unseparated(piece, Separators::Either),
    ensures
        parsed_windows(x + seq![byte] + piece) == parsed_windows(x) + piece_parts(
            piece,
            false,
            Separators::Either,
        ),
{
    let by = Separators::Either;
    let whole = x + seq![byte] + piece;
    assert(whole[0] == x[0]);
    assert(!begins_doubled(whole) && !begins_doubled(x));
    if x.len() == 1 {
        assert(whole[1] == byte);
    } else {
        assert(whole[1] == x[1]);
    }
    assert(drive_at(whole, 0) == drive_at(x, 0));
    assert(prefix_of(whole) == prefix_of(x));
    let k = prefix_len(prefix_of(x)) as int;
    let rest = x.skip(k);
    assert(rest.len() > 0);
    assert(whole.skip(k) =~= rest + seq![byte] + piece);
    assert(whole.skip(k)[0] == rest[0]);
    if separates(rest[0], by) {
        assert((rest + seq![byte] + piece).skip(1) =~= rest.skip(1) + seq![byte] + piece);
        lemma_pieces_push(rest.skip(1), byte, piece, false, by);
    } else {
        lemma_pieces_push(rest, byte, piece, prefix_of(x) is None, by);
    }
    assert(parsed_windows(whole) =~= parsed_windows(x) + piece_parts(piece, false, by));
}

/// On Unix a path is seen from a base by its bytes: one that begins with `/` is itself;
/// any other follows the base, with one `/` between them unless the base is empty or
/// ends with one.
pub proof fn lemma_unix_join_by_bytes(base: Seq<u8>, rel: Seq<u8>)
    ensures
        rel.len() > 0 && rel[0] == 47 ==> joined(base, rel, Platform::Unix) == rel,
        base.len() == 0 ==> joined(base, rel, Platform::Unix) == rel,
        !(rel.len() > 0 && rel[0] == 47) && base.len() > 0 && base[base.len() - 1] == 47 ==> joined(
            base,
            rel,
            Platform::Unix,
        ) == base + rel,
        !(rel.len() > 0 && rel[0] == 47) && base.len() > 0 && base[base.len() - 1] != 47 ==> joined(
            base,
            rel,
            Platform::Unix,
        ) == base + seq![47u8] + rel,
{
    if base.len() == 0 {
        assert(base + rel =~= rel);
    }
}

/// On Windows a path is seen from a base that is not verbatim by its bytes: one that
/// begins with a drive is itself; one that begins with a separator keeps the drive of the
/// base; any other follows the base, with a `\` between them unless the base is empty,
/// ends with a separator or is a drive and no more.
pub proof fn lemma_windows_join_by_bytes(base: Seq<u8>, rel: Seq<u8>)
    requires
        base.len() > 0 ==> base[0] != 47 && base[0] != 92,
        rel.len() > 0,
    ensures
        ({
            let on_drive = base.len() >= 2 && base[1] == 58 && (65 <= base[0] <= 90 || 97 <= base[0] <= 122);
            let joint = joined(base, rel, Platform::Windows);
            &&& rel.len() >= 2 && rel[1] == 58 && (65 <= rel[0] <= 90 || 97 <= rel[0] <= 122) ==> joint
                == rel
            &&& (rel[0] == 47 || rel[0] == 92) && (rel.len() == 1 || (rel[1] != 47 && rel[1] != 92)) ==> joint
                == if on_drive {
                base.take(2) + rel
            } else {
                rel
            }
            &&& rel[0] != 47 && rel[0] != 92 && !(rel.len() >= 2 && rel[1] == 58 && (65 <= rel[0] <= 90
                || 97 <= rel[0] <= 122)) ==> joint == if base.len() == 0 || base[base.len() - 1] == 47
                || base[base.len() - 1] == 92 || (on_drive && base.len() == 2) {
                base + rel
            } else {
                base + seq![92u8] + rel
            }
        }),
{
    assert(!begins_doubled(base));
    assert(prefix_of(base) matches Some(p) ==> p is Disk);
    let kept = base.take(prefix_len(prefix_of(base)) as int);
    if prefix_of(base) is None {
        assert(kept + rel =~= rel);
    }
}

/// What stands for a path in a message: on Unix its bytes decoded; on Windows too, after
/// each unpaired surrogate became the three bytes of U+FFFD and no other byte changed.
pub proof fn lemma_surrogates_are_mended(raw: Seq<u8>, i: int)
    requires
        0 <= i < raw.len(),
    ensures
        shown(raw, Platform::Unix) == lossy_utf8(raw),
        shown(raw, Platform::Windows) == lossy_utf8(mended(raw)),
        mended(raw).len() == raw.len(),
        i + 2 < raw.len() && raw[i] == 0xED && 0xA0 <= raw[i + 1] <= 0xBF && 0x80 <= raw[i + 2] <= 0xBF
            ==> mended(raw)[i] == 0xEF && mended(raw)[i + 1] == 0xBF && mended(raw)[i + 2] == 0xBD,
        (forall|j: int| i - 2 <= j <= i && 0 <= j ==> (#[trigger] raw[j]) != 0xED) ==> mended(raw)[i] == raw[i],
{
    if i >= 1 {
        assert(raw[i - 1] == raw[i - 1]);
    }
    if i >= 2 {
        assert(raw[i - 2] == raw[i - 2]);
    }
}

/// Names with a `/` between two of them.
pub open spec fn slashed(names: Seq<Seq<u8>>) -> Seq<u8>
    decreases names.len(),
{
    if names.len() == 0 {
        Seq::empty()
    } else if names.len() == 1 {
        names[0]
    } else {
        slashed(names.drop_last()) + seq![47u8] + names.last()
    }
}

/// A path made of names alone, seen from a base, is the base followed by these names. On
/// Windows this is said of a base that is relative or on a drive.
pub proof fn lemma_names_follow_the_base(base: Seq<u8>, names: Seq<Seq<u8>>, platform: Platform)
    requires
        names.len() > 0,
        forall|i: int| 0 <= i < names.len() ==> entry_name(#[trigger] names[i], platform),
        platform is Windows ==> base.len() > 0 && base[0] != 47 && base[0] != 92 && (base.len() == 2
            ==> !(base[1] == 58 && (65 <= base[0] <= 90 || 97 <= base[0] <= 122))),
    ensures
        parsed(joined(base, slashed(names), platform), platform) == parsed(base, platform) + Seq::new(
            names.len(),
            |i: int| Part::Normal(names[i]),
        ),
    decreases names.len(),
{
    let tail = Seq::new(names.len(), |i: int| Part::Normal(names[i]));
    let name = names[names.len() - 1];
    assert(entry_name(name, platform));
    lemma_entry_names_by_their_bytes(name);
    lemma_entry_names_by_their_bytes(names[0]);
    lemma_slashed_starts(names);
    let rel = slashed(names);
    assert(rel[0] == names[0][0]);
    if names.len() == 1 {
        assert(tail =~= seq![Part::Normal(name)]);
        assert(parsed(base, platform) + tail =~= parsed(base, platform).push(Part::Normal(name)));
        lemma_name_follows_the_base(base, name, platform);
    } else {
        let front = names.drop_last();
        let before = Seq::new(front.len(), |i: int| Part::Normal(front[i]));
        assert(forall|i: int| 0 <= i < front.len() ==> #[trigger] front[i] == names[i]);
        lemma_names_follow_the_base(base, front, platform);
        lemma_slashed_starts(front);
        let short = joined(base, slashed(front), platform);
        assert(front[0] == names[0]);
        if platform is Unix {
            lemma_unix_join_by_bytes(base, rel);
            lemma_unix_join_by_bytes(base, slashed(front));
            assert(joined(base, rel, platform) =~= short + seq![47u8] + name);
            lemma_unix_paths_are_read_by_pieces(short, name);
        } else {
            lemma_windows_join_by_bytes(base, rel);
            lemma_windows_join_by_bytes(base, slashed(front));
            assert(!drive_at(rel, 0)) by {
                lemma_no_drive_in_front(names);
            }
            assert(!drive_at(slashed(front), 0)) by {
                assert forall|i: int| 0 <= i < front.len() implies entry_name(
                    #[trigger] front[i],
                    Platform::Windows,
                ) by {
                    assert(entry_name(names[i], Platform::Windows));
                }
                lemma_no_drive_in_front(front);
            }
            assert(joined(base, rel, platform) =~= short + seq![47u8] + name);
            assert(short[0] == base[0]);
            assert(short.len() == 2 ==> !drive_at(short, 0)) by {
                if short.len() == 2 {
                    assert(base.len() == 1);
                    assert(short[1] == names[0][0] || short[1] == 92);
                }
            }
            lemma_windows_paths_are_read_by_pieces(short, 47u8, name);
        }
        assert(parsed(base, platform) + tail =~= (parsed(base, platform) + before).push(
            Part::Normal(name),
        ));
    }
}

proof fn lemma_slashed_starts(names: Seq<Seq<u8>>)
    requires
        names.len() > 0,
        names[0].len() > 0,
    ensures
        slashed(names).len() >= names[0].len(),
        forall|i: int| 0 <= i < names[0].len() ==> #[trigger] slashed(names)[i] == names[0][i],
        names.len() > 1 ==> slashed(names).len() > names[0].len() && slashed(names)[names[0].len() as int]
            == 47,
    decreases names.len(),
{
    if names.len() > 1 {
        let front = names.drop_last();
        assert(front[0] == names[0]);
        lemma_slashed_starts(front);
        let raw = slashed(names);
        assert(raw == slashed(front) + seq![47u8] + names.last());
        assert(forall|i: int| 0 <= i < slashed(front).len() ==> #[trigger] raw[i] == slashed(front)[i]);
        assert(raw[slashed(front).len() as int] == 47u8);
    }
}

proof fn lemma_no_drive_in_front(names: Seq<Seq<u8>>)
    requires
        names.len() > 0,
        forall|i: int| 0 <= i < names.len() ==> entry_name(#[trigger] names[i], Platform::Windows),
    ensures
        !drive_at(slashed(names), 0),
        slashed(names)[0] != 47 && slashed(names)[0] != 92,
{
    assert(entry_name(names[0], Platform::Windows));
    lemma_entry_names_by_their_bytes(names[0]);
    lemma_slashed_starts(names);
    let raw = slashed(names);
    assert(raw[0] == names[0][0]);
    if drive_at(raw, 0) {
        if names[0].len() >= 2 {
            assert(raw[1] == names[0][1]);
        } else if names.len() > 1 {
            assert(raw[1] == 47);
        } else {
            assert(raw == names[0]);
        }
    }
}

proof fn lemma_name_follows_the_base(base: Seq<u8>, name: Seq<u8>, platform: Platform)
    requires
        entry_name(name, platform),
        platform is Windows ==> base.len() > 0 && base[0] != 47 && base[0] != 92 && (base.len() == 2
            ==> !drive_at(base, 0)),
    ensures
        parsed(joined(base, name, platform), platform) == parsed(base, platform).push(Part::Normal(name)),
{
    lemma_entry_names_by_their_bytes(name);
    if platform is Unix {
        lemma_unix_join_by_bytes(base, name);
        lemma_unix_paths_are_read_by_pieces(base, name);
        if base.len() == 0 {
            assert(parsed(base, platform).push(Part::Normal(name)) =~= seq![Part::Normal(name)]);
        } else if base[base.len() - 1] == 47 {
            let stem = base.drop_last();
            assert(base =~= stem + seq![47u8]);
            if stem.len() == 0 {
                assert(base =~= seq![47u8]);
                assert(seq![Part::RootDir].push(Part::Normal(name)) =~= seq![
                    Part::RootDir,
                    Part::Normal(name),
                ]);
            } else {
                lemma_unix_paths_are_read_by_pieces(stem, name);
            }
        }
    } else {
        lemma_windows_join_by_bytes(base, name);
        let last = base[base.len() - 1];
        if last == 47 || last == 92 {
            let stem = base.drop_last();
            assert(base =~= stem + seq![last]);
            if stem.len() == 2 && drive_at(stem, 0) {
                lemma_lone_name(name);
                assert(joined(base, name, platform) == base + name);
                assert((base + name).skip(2) =~= seq![last] + name);
                assert(base.skip(2) =~= seq![last]);
                assert((seq![last] + name).skip(1) =~= name);
                assert(seq![last].skip(1) =~= Seq::<u8>::empty());
                lemma_single_piece(name, false, Separators::Either);
                assert(drive_at(base + name, 0) && drive_at(base, 0));
                assert(!begins_doubled(base + name));
                assert(parsed(base + name, platform) =~= parsed(base, platform).push(
                    Part::Normal(name),
                ));
            } else {
                lemma_windows_paths_are_read_by_pieces(stem, last, name);
            }
        } else {
            lemma_windows_paths_are_read_by_pieces(base, 92u8, name);
        }
    }
}

/// How a Windows path begins, byte by byte: a letter and a colon are a drive, by its
/// capital; `\\.\` is a device; `\\?\` is a verbatim name, unless a drive or `UNC\` follows;
/// and a server without a share is no prefix.
pub proof fn lemma_windows_prefixes_by_bytes(letter: u8, name: Seq<u8>, rest: Seq<u8>)
    requires
        65 <= letter <= 90 || 97 <= letter <= 122,
        name.len() > 0,
        forall|i: int| 0 <= i < name.len() ==> #[trigger] name[i] != 47 && name[i] != 92,
        rest.len() > 0 ==> rest[0] == 92,
        name != seq![46u8],
        name != seq![63u8],
        !(name.len() >= 2 && name[1] == 58),
        !(name.len() >= 3 && name[0] == 85 && name[1] == 78 && name[2] == 67),
    ensures
        prefix_of(seq![letter, 58u8] + rest) == Some(
            PrefixView::Disk(
                if letter >= 97 {
                    (letter - 32) as u8
                } else {
                    letter
                },
            ),
        ),
        prefix_of(seq![92u8, 92u8, 46u8, 92u8] + name + rest) == Some(PrefixView::DeviceNs(name)),
        prefix_of(seq![92u8, 92u8, 63u8, 92u8] + name + rest) == Some(PrefixView::Verbatim(name)),
        prefix_of(seq![92u8, 92u8] + name) is None,
        prefix_of(name + rest) is None,
{
    let drive = seq![letter, 58u8] + rest;
    assert(drive[0] == letter && drive[1] == 58);
    let device = seq![92u8, 92u8, 46u8, 92u8] + name + rest;
    assert(device[0] == 92 && device[1] == 92 && device[2] == 46 && device[3] == 92);
    let n = name.len() as int;
    assert(device.subrange(4, 4 + n) =~= name);
    if rest.len() > 0 {
        assert(device[4 + n] == rest[0]);
    }
    assert(unseparated(name, Separators::Either));
    assert(unseparated(name, Separators::Backslash));
    lemma_piece_at_is(device, 4, name, Separators::Either);
    let kept = seq![92u8, 92u8, 63u8, 92u8] + name + rest;
    assert(kept[0] == 92 && kept[1] == 92 && kept[2] == 63 && kept[3] == 92);
    assert(kept.subrange(4, 4 + n) =~= name);
    assert(forall|i: int| 0 <= i < n ==> kept[4 + i] == #[trigger] name[i]);
    if rest.len() > 0 {
        assert(kept[4 + n] == rest[0]);
    }
    lemma_piece_at_is(kept, 4, name, Separators::Backslash);
    assert(!drive_at(kept, 4)) by {
        if drive_at(kept, 4) {
            if n >= 2 {
                assert(kept[5] == name[1]);
            } else {
                assert(kept[5] == rest[0]);
            }
        }
    }
    assert(!(kept.len() >= 8 && kept[4] == 85u8 && kept[5] == 78u8 && kept[6] == 67u8)) by {
        if kept.len() >= 8 && kept[4] == 85u8 && kept[5] == 78u8 && kept[6] == 67u8 {
            if n >= 3 {
                assert(kept[4] == name[0] && kept[5] == name[1] && kept[6] == name[2]);
            } else if n == 2 {
                assert(kept[6] == rest[0]);
            } else {
                assert(kept[5] == rest[0]);
            }
        }
    }
    let server = seq![92u8, 92u8] + name;
    assert(server.subrange(2, 2 + n) =~= name);
    assert(forall|i: int| 0 <= i < n ==> server[2 + i] == #[trigger] name[i]);
    lemma_piece_at_is(server, 2, name, Separators::Either);
    assert(!begins_verbatim(server)) by {
        if begins_verbatim(server) {
            assert(server[3] == name[1]);
        }
    }
    if server.len() >= 4 {
        assert(server[3] == name[1]);
    }
    let plain = name + rest;
    assert(plain[0] == name[0]);
    if plain.len() >= 2 {
        if n >= 2 {
            assert(plain[1] == name[1]);
        } else {
            assert(plain[1] == rest[0]);
        }
    }
}

/// A path is written component by component: each is appended to what is written before it,
/// a name, `.` and `..` as they are and a root as the separator.
pub proof fn lemma_paths_are_written_by_components(path: Seq<Part>, part: Part, name: Seq<u8>, platform: Platform)
    ensures
        rendered(Seq::empty(), platform) == Seq::<u8>::empty(),
        rendered(path.push(part), platform) == joined(
            rendered(path, platform),
            part_bytes(part, platform),
            platform,
        ),
        part_bytes(Part::Normal(name), platform) == name,
        part_bytes(Part::ParentDir, platform) == seq![46u8, 46u8],
        part_bytes(Part::CurDir, platform) == seq![46u8],
        part_bytes(Part::RootDir, Platform::Unix) == seq![47u8],
        part_bytes(Part::RootDir, Platform::Windows) == seq![92u8],
{
    assert(path.push(part).drop_last() =~= path);
    assert(path.push(part).last() == part);
}

/// From a verbatim base a relative path is read first and then written after the prefix:
/// its `.` and `..` are resolved, and only `\` stands between names.
pub proof fn lemma_verbatim_join(base: Seq<u8>, rel: Seq<u8>, part: Part, rest: Seq<Part>, apart: bool)
    requires
        prefix_of(base) matches Some(p) && (p is Verbatim || p is VerbatimUnc || p is VerbatimDisk),
        prefix_of(rel) is None,
        rel.len() > 0,
    ensures
        joined(base, rel, Platform::Windows) == base.take(prefix_len(prefix_of(base)) as int) + spelled(
            appended(parsed(base, Platform::Windows), parsed(rel, Platform::Windows)).skip(1),
            true,
        ),
        spelled(Seq::empty(), apart) == Seq::<u8>::empty(),
        spelled(seq![part] + rest, apart) == (if apart && !(part is RootDir) {
            seq![92u8]
        } else {
            Seq::empty()
        }) + part_bytes(part, Platform::Windows) + spelled(rest, !(part is RootDir)),
{
    let path = seq![part] + rest;
    assert(path[0] == part);
    assert(path.skip(1) =~= rest);
}

} // verus!
