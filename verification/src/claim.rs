//! Who owns a log: claim records and the sidecar files that hold them.
use vstd::prelude::*;
use vstd::string::*;
use vstd::utf8::*;

use crate::digest::{
    byte_len, hex_bytes, is_hex, lemma_ascii_byte_len, lemma_encode_concat, lemma_hex_bytes_shape,
    random_hex,
};
use crate::identity::MAX_CLAIM_KEY_BYTES;
use crate::text::{
    decimal, decimal_text, is_digit, lemma_decimal_is_digits, lemma_decimal_len,
    lemma_decimal_reads_back, lemma_trim_keeps, number_of, parse_number, slice_text, text_of,
    to_chars, trim, trimmed,
};

verus! {

/// How many random bytes a per-log ownership token holds, rendered as hex.
pub const CLAIM_TOKEN_BYTES: usize = 8;

/// The largest complete record: token, newline, the digits of a length, newline,
/// key, newline, terminator.
pub const MAX_CLAIM_BYTES: usize = CLAIM_TOKEN_BYTES * 2 + 1 + 20 + 1 + MAX_CLAIM_KEY_BYTES + 1 + 5;

/// The characters that end a complete record.
pub open spec fn terminator() -> Seq<char> {
    seq!['#', 'e', 'n', 'd', '\n']
}

/// The name of the sidecar that records who owns the log `name`.
pub open spec fn sidecar_name(name: Seq<char>) -> Seq<char> {
    seq!['.'] + name + ".claim"@
}

/// The sidecar name recording ownership of the log file `name`.
pub fn claim_sidecar_name(name: &str) -> (r: String)
    ensures
        r@ == sidecar_name(name@),
{
    let mut out = String::new();
    out.push('.');
    out.append(name);
    out.append(".claim");
    assert(out@ =~= sidecar_name(name@));
    out
}

/// What a claim sidecar records: who owns a log, and which sibling it is.
#[derive(Debug, PartialEq, Eq)]
pub struct ClaimRecord {
    /// The masked identity.
    pub key: String,
    /// A random value, minted once per log.
    pub token: String,
}

/// The mathematical value of a [`ClaimRecord`].
pub ghost struct RecordView {
    pub key: Seq<char>,
    pub token: Seq<char>,
}

impl View for ClaimRecord {
    type V = RecordView;

    open spec fn view(&self) -> RecordView {
        RecordView { key: self.key@, token: self.token@ }
    }
}

impl Clone for ClaimRecord {
    fn clone(&self) -> (r: ClaimRecord)
        ensures
            r@ == self@,
    {
        ClaimRecord { key: self.key.clone(), token: self.token.clone() }
    }
}

/// The text of a record: token, length of the key in bytes, key, terminator.
pub open spec fn encoded(record: RecordView) -> Seq<char> {
    record.token + seq!['\n'] + decimal(byte_len(record.key)) + seq!['\n'] + record.key + seq!['\n']
        + terminator()
}

/// The index of the first line end.
pub open spec fn line_end(text: Seq<char>) -> Option<int>
    decreases text.len(),
{
    if text.len() == 0 {
        None
    } else if text[0] == '\n' {
        Some(0)
    } else {
        match line_end(text.skip(1)) {
            Some(n) => Some(n + 1),
            None => None,
        }
    }
}

/// `text` without a terminator at its end.
pub open spec fn without_terminator(text: Seq<char>) -> Option<Seq<char>> {
    if text.len() >= 5 && text.skip(text.len() - 5) == terminator() {
        Some(text.take(text.len() - 5))
    } else {
        None
    }
}

/// The record of these three fields: the token and the declared length are
/// trimmed, the token must not be empty, and the length must be that of the key.
pub open spec fn checked_record(token: Seq<char>, length: Seq<char>, key: Seq<char>) -> Option<RecordView> {
    if trimmed(token).len() > 0 && number_of(trimmed(length)) == Some(byte_len(key)) {
        Some(RecordView { key, token: trimmed(token) })
    } else {
        None
    }
}

/// The record that a text holds, if it holds a complete one.
pub open spec fn decoded(text: Seq<char>) -> Option<RecordView> {
    match without_terminator(text) {
        None => None,
        Some(body) => match line_end(body) {
            None => None,
            Some(i) => {
                let rest = body.skip(i + 1);
                match line_end(rest) {
                    None => None,
                    Some(j) => {
                        let tail = rest.skip(j + 1);
                        if tail.len() > 0 && tail.last() == '\n' {
                            checked_record(body.take(i), rest.take(j), tail.drop_last())
                        } else {
                            None
                        }
                    },
                }
            },
        },
    }
}

proof fn lemma_line_end(text: Seq<char>)
    ensures
        match line_end(text) {
            Some(n) => 0 <= n < text.len() && text[n] == '\n' && forall|i: int|
                0 <= i < n ==> #[trigger] text[i] != '\n',
            None => forall|i: int| 0 <= i < text.len() ==> #[trigger] text[i] != '\n',
        },
    decreases text.len(),
{
    if text.len() > 0 && text[0] != '\n' {
        let rest = text.skip(1);
        lemma_line_end(rest);
        assert forall|i: int|
            0 <= i < text.len() && (line_end(text) is Some ==> i < line_end(text)->0) implies #[trigger] text[i]
            != '\n' by {
            if i > 0 {
                assert(rest[i - 1] == text[i]);
            }
        }
    }
}

proof fn lemma_line_end_is(text: Seq<char>, n: int)
    requires
        0 <= n < text.len(),
        text[n] == '\n',
        forall|i: int| 0 <= i < n ==> #[trigger] text[i] != '\n',
    ensures
        line_end(text) == Some(n),
{
    lemma_line_end(text);
    if line_end(text) is Some {
        let m = line_end(text)->0;
        if n < m {
            assert(text[n] != '\n');
        }
        if m < n {
            assert(text[m] != '\n');
        }
    } else {
        assert(text[n] != '\n');
    }
}

fn find_line_end(text: &[char], from: usize, to: usize) -> (r: Option<usize>)
    requires
        from <= to <= text@.len(),
    ensures
        match r {
            Some(at) => from <= at < to && line_end(text@.subrange(from as int, to as int)) == Some(
                at - from,
            ),
            None => line_end(text@.subrange(from as int, to as int)) is None,
        },
{
    let ghost part = text@.subrange(from as int, to as int);
    let mut at: usize = from;
    while at < to
        invariant
            from <= at <= to <= text@.len(),
            part == text@.subrange(from as int, to as int),
            forall|i: int| 0 <= i < at - from ==> #[trigger] part[i] != '\n',
        decreases to - at,
    {
        assert(part[at - from] == text@[at as int]);
        if text[at] == '\n' {
            proof {
                lemma_line_end_is(part, at - from);
            }
            return Some(at);
        }
        at = at + 1;
    }
    proof {
        lemma_line_end(part);
        if line_end(part) is Some {
            assert(part[line_end(part)->0] != '\n');
        }
    }
    None
}

impl ClaimRecord {
    /// A record for `key` with a token made of these random bytes.
    pub fn mint(key: String, random: [u8; CLAIM_TOKEN_BYTES]) -> (r: ClaimRecord)
        ensures
            r@ == (RecordView { key: key@, token: hex_bytes(random@) }),
            sound_token(r@.token),
            byte_len(key@) <= MAX_CLAIM_KEY_BYTES ==> byte_len(encoded(r@)) <= MAX_CLAIM_BYTES,
    {
        let token = random_hex(vstd::array::array_as_slice(&random));
        let r = ClaimRecord { key, token };
        proof {
            lemma_minted_token_is_sound(random@);
            lemma_hex_bytes_shape(random@);
            if byte_len(key@) <= MAX_CLAIM_KEY_BYTES {
                lemma_record_fits(r@);
            }
        }
        r
    }

    /// Serialize: the token, the key's length, the key, and a terminator by which a
    /// short read is noticed.
    pub fn encode(&self) -> (r: String)
        ensures
            r@ == encoded(self@),
    {
        let mut out = self.token.clone();
        let length = decimal_text(self.key.as_str().as_bytes().len() as u128);
        out.push('\n');
        out.append(length.as_str());
        out.push('\n');
        out.append(self.key.as_str());
        out.push('\n');
        out.push('#');
        out.push('e');
        out.push('n');
        out.push('d');
        out.push('\n');
        assert(out@ =~= encoded(self@));
        out
    }

    /// Parse a complete record, or `None` for anything else.
    pub fn decode(text: &str) -> (r: Option<ClaimRecord>)
        ensures
            match r {
                Some(record) => decoded(text@) == Some(record@),
                None => decoded(text@) is None,
            },
    {
        let chars = to_chars(text);
        let len: usize = chars.len();
        if len < 5 {
            return None;
        }
        let end: usize = len - 5;
        let complete = chars[end] == '#' && chars[end + 1] == 'e' && chars[end + 2] == 'n' && chars[end
            + 3] == 'd' && chars[end + 4] == '\n';
        if !complete {
            assert(chars@.skip(end as int) != terminator()) by {
                assert(chars@.skip(end as int)[0] == chars@[end as int]);
                assert(chars@.skip(end as int)[1] == chars@[end + 1]);
                assert(chars@.skip(end as int)[2] == chars@[end + 2]);
                assert(chars@.skip(end as int)[3] == chars@[end + 3]);
                assert(chars@.skip(end as int)[4] == chars@[end + 4]);
            }
            return None;
        }
        assert(chars@.skip(end as int) =~= terminator());
        let ghost body = chars@.take(end as int);
        assert(chars@.subrange(0, end as int) =~= body);
        let first: usize = match find_line_end(chars.as_slice(), 0, end) {
            None => {
                return None;
            },
            Some(at) => at,
        };
        let ghost rest = body.skip(first + 1);
        assert(chars@.subrange(first + 1, end as int) =~= rest);
        let second: usize = match find_line_end(chars.as_slice(), first + 1, end) {
            None => {
                return None;
            },
            Some(at) => at,
        };
        let ghost tail = rest.skip(second - first);
        assert(chars@.subrange(second + 1, end as int) =~= tail);
        if second + 1 >= end || chars[end - 1] != '\n' {
            assert(tail.len() > 0 ==> tail.last() == chars@[end - 1]);
            return None;
        }
        let key = slice_text(chars.as_slice(), second + 1, end - 1);
        assert(key@ =~= tail.drop_last());
        assert(chars@.subrange(0, first as int) =~= body.take(first as int));
        assert(chars@.subrange(first + 1, second as int) =~= rest.take(second - first - 1));
        let token = trim(vstd::slice::slice_subrange(chars.as_slice(), 0, first));
        let length = trim(vstd::slice::slice_subrange(chars.as_slice(), first + 1, second));
        if token.len() == 0 {
            return None;
        }
        let size: usize = key.as_str().as_bytes().len();
        match parse_number(length) {
            Some(declared) => if declared == size {
                Some(ClaimRecord { key, token: text_of(token) })
            } else {
                None
            },
            None => None,
        }
    }
}

/// A token that a record can carry: one that is not empty, stays on one line and
/// has no space around it.
pub open spec fn sound_token(token: Seq<char>) -> bool {
    &&& token.len() > 0
    &&& !token.contains('\n')
    &&& trimmed(token) == token
}

proof fn lemma_decimal_trims(n: nat)
    ensures
        trimmed(decimal(n)) == decimal(n),
        forall|i: int| 0 <= i < decimal(n).len() ==> #[trigger] decimal(n)[i] != '\n',
{
    lemma_decimal_is_digits(n);
    let d = decimal(n);
    assert(is_digit(d[0]));
    assert(is_digit(d[d.len() - 1]));
    lemma_trim_keeps(d);
}

/// A record of a sound token reads back as it was written, whatever its key holds.
pub proof fn lemma_record_reads_back(record: RecordView)
    requires
        sound_token(record.token),
    ensures
        decoded(encoded(record)) == Some(record),
{
    let text = encoded(record);
    let number = decimal(byte_len(record.key));
    let tail = record.key + seq!['\n'];
    let rest = number + seq!['\n'] + tail;
    let body = record.token + seq!['\n'] + rest;
    assert(text =~= body + terminator());
    assert(text.skip(text.len() - 5) =~= terminator());
    assert(text.take(text.len() - 5) =~= body);
    let i = record.token.len() as int;
    assert forall|k: int| 0 <= k < i implies #[trigger] body[k] != '\n' by {
        assert(body[k] == record.token[k]);
        assert(record.token.contains(record.token[k]));
    }
    lemma_line_end_is(body, i);
    assert(body.skip(i + 1) =~= rest);
    assert(body.take(i) =~= record.token);
    lemma_decimal_trims(byte_len(record.key));
    let j = number.len() as int;
    assert forall|k: int| 0 <= k < j implies #[trigger] rest[k] != '\n' by {
        assert(rest[k] == number[k]);
    }
    lemma_line_end_is(rest, j);
    assert(rest.skip(j + 1) =~= tail);
    assert(rest.take(j) =~= number);
    assert(tail.drop_last() =~= record.key);
    lemma_decimal_reads_back(byte_len(record.key));
}

/// A record that was cut short anywhere is refused, whatever its key holds.
pub proof fn lemma_truncated_record_is_refused(record: RecordView, n: int)
    requires
        !record.token.contains('\n'),
        0 <= n < encoded(record).len(),
    ensures
        decoded(encoded(record).take(n)) is None,
{
    let whole = encoded(record);
    let text = whole.take(n);
    if decoded(text) is Some {
        let number = decimal(byte_len(record.key));
        lemma_decimal_trims(byte_len(record.key));
        lemma_decimal_is_digits(byte_len(record.key));
        let body = text.take(n - 5);
        let a = record.token.len() as int;
        let b = a + 1 + number.len();
        // Where the line ends of the whole record stand.
        assert(whole[a] == '\n');
        assert(whole[b] == '\n');
        assert forall|k: int| 0 <= k < a implies #[trigger] whole[k] != '\n' by {
            assert(whole[k] == record.token[k]);
            assert(record.token.contains(record.token[k]));
        }
        assert forall|k: int| a < k < b implies #[trigger] whole[k] == number[k - a - 1] by {}
        lemma_line_end(body);
        let i = line_end(body)->0;
        assert(body[i] == whole[i]);
        assert(i >= a);
        if a < n - 5 {
            assert(body[a] == whole[a]);
        }
        assert(i == a);
        let rest = body.skip(i + 1);
        lemma_line_end(rest);
        let j = line_end(rest)->0;
        assert(rest[j] == whole[i + 1 + j]);
        assert(a + 1 + j >= b) by {
            if a + 1 + j < b {
                assert(whole[a + 1 + j] == number[j]);
            }
        }
        if b < n - 5 {
            assert(rest[b - a - 1] == whole[b]);
        }
        assert(a + 1 + j == b);
        assert(rest.take(j) =~= number);
        let tail = rest.skip(j + 1);
        let key = tail.drop_last();
        lemma_decimal_reads_back(byte_len(record.key));
        assert(byte_len(key) == byte_len(record.key));
        let m = key.len() as int;
        assert(m < record.key.len());
        assert(key =~= record.key.take(m)) by {
            assert forall|k: int| 0 <= k < m implies key[k] == record.key[k] by {
                assert(key[k] == whole[b + 1 + k]);
            }
        }
        let more = record.key.skip(m);
        assert(record.key =~= key + more);
        lemma_encode_concat(key, more);
        assert(encode_utf8(more).len() > 0);
    }
}

/// A token of hexadecimal digits is sound.
pub proof fn lemma_minted_token_is_sound(bytes: Seq<u8>)
    requires
        bytes.len() > 0,
    ensures
        sound_token(hex_bytes(bytes)),
{
    let token = hex_bytes(bytes);
    lemma_hex_bytes_shape(bytes);
    assert(is_hex(token[0]));
    assert(is_hex(token[token.len() - 1]));
    if token.contains('\n') {
        let k = choose|k: int| 0 <= k < token.len() && token[k] == '\n';
        assert(is_hex(token[k]));
    }
    lemma_trim_keeps(token);
}

/// Every record of a minted token and a bounded key fits what a reader accepts.
pub proof fn lemma_record_fits(record: RecordView)
    requires
        record.token.len() <= 2 * CLAIM_TOKEN_BYTES,
        forall|i: int| 0 <= i < record.token.len() ==> is_hex(#[trigger] record.token[i]),
        byte_len(record.key) <= MAX_CLAIM_KEY_BYTES,
    ensures
        byte_len(encoded(record)) <= MAX_CLAIM_BYTES,
{
    let number = decimal(byte_len(record.key));
    let head = record.token + seq!['\n'] + number + seq!['\n'];
    let end = seq!['\n'] + terminator();
    assert(encoded(record) =~= head + record.key + end);
    lemma_decimal_is_digits(byte_len(record.key));
    vstd::arithmetic::power::lemma_pow1(10);
    reveal(vstd::arithmetic::power::pow);
    assert(vstd::arithmetic::power::pow(10, 4) == 10000) by {
        reveal_with_fuel(vstd::arithmetic::power::pow, 5);
    }
    lemma_decimal_len(byte_len(record.key), 4);
    assert forall|i: int| 0 <= i < head.len() implies (#[trigger] head[i]) as u32 <= 0x7f by {
        let t = record.token.len();
        if i < t {
            assert(is_hex(record.token[i]));
        } else if t < i < t + 1 + number.len() {
            assert(head[i] == number[i - t - 1]);
            assert(is_digit(number[i - t - 1]));
        }
    }
    lemma_ascii_byte_len(head);
    assert forall|i: int| 0 <= i < end.len() implies (#[trigger] end[i]) as u32 <= 0x7f by {
        assert(end =~= seq!['\n', '#', 'e', 'n', 'd', '\n']);
    }
    lemma_ascii_byte_len(end);
    lemma_encode_concat(head, record.key);
    lemma_encode_concat(head + record.key, end);
}

/// The name of a sidecar is the log's, hidden by a dot in front and with `.claim` behind.
pub proof fn lemma_sidecar_of_a_log(name: Seq<char>)
    ensures
        sidecar_name(name) == seq!['.'] + name + ".claim"@,
{
}

/// What a sidecar says, line by line: a token, the length of the key in bytes, the key,
/// and `#end`. It is read if and only if there is a token and the length is right; spaces
/// around the token and the length do not matter, and the key may hold anything.
pub proof fn lemma_record_is_read_line_by_line(token: Seq<char>, length: Seq<char>, key: Seq<char>)
    requires
        !token.contains('\n'),
        !length.contains('\n'),
    ensures
        decoded(
            token + seq!['\n'] + length + seq!['\n'] + key + seq!['\n', '#', 'e', 'n', 'd', '\n'],
        ) == if trimmed(token).len() > 0 && number_of(trimmed(length)) == Some(encode_utf8(key).len()) {
            Some(RecordView { key, token: trimmed(token) })
        } else {
            None
        },
{
    let text = token + seq!['\n'] + length + seq!['\n'] + key + seq!['\n', '#', 'e', 'n', 'd', '\n'];
    let tail = key + seq!['\n'];
    let rest = length + seq!['\n'] + tail;
    let body = token + seq!['\n'] + rest;
    assert(text =~= body + terminator());
    assert(text.skip(text.len() - 5) =~= terminator());
    assert(text.take(text.len() - 5) =~= body);
    let i = token.len() as int;
    assert forall|k: int| 0 <= k < i implies #[trigger] body[k] != '\n' by {
        assert(body[k] == token[k]);
        assert(token.contains(token[k]));
    }
    lemma_line_end_is(body, i);
    assert(body.skip(i + 1) =~= rest);
    assert(body.take(i) =~= token);
    let j = length.len() as int;
    assert forall|k: int| 0 <= k < j implies #[trigger] rest[k] != '\n' by {
        assert(rest[k] == length[k]);
        assert(length.contains(length[k]));
    }
    lemma_line_end_is(rest, j);
    assert(rest.skip(j + 1) =~= tail);
    assert(rest.take(j) =~= length);
    assert(tail.drop_last() =~= key);
}

/// Nothing else is read as a record: whatever is read has these lines and no others.
pub proof fn lemma_only_records_are_read(text: Seq<char>)
    requires
        decoded(text) is Some,
    ensures
        exists|i: int, j: int| #[trigger]
            lines_at(text, i, j) && text.subrange(i + j + 2, text.len() - 6) == (decoded(text)->0).key,
{
    let body = without_terminator(text)->0;
    lemma_line_end(body);
    let i = line_end(body)->0;
    let rest = body.skip(i + 1);
    lemma_line_end(rest);
    let j = line_end(rest)->0;
    let tail = rest.skip(j + 1);
    assert(body =~= text.take(text.len() - 5));
    assert(text.skip(text.len() - 5)[0] == '#');
    assert(text[text.len() - 6] == tail.last());
    assert(text.subrange(i + j + 2, text.len() - 6) =~= tail.drop_last());
    assert(text.skip(text.len() - 5) =~= text.subrange(text.len() - 5, text.len() as int));
    let end = text.subrange(text.len() - 6, text.len() as int);
    assert forall|k: int| 1 <= k < 6 implies end[k] == terminator()[k - 1] by {
        assert(text.skip(text.len() - 5)[k - 1] == end[k]);
    }
    assert(end[0] == '\n');
    assert(end =~= seq!['\n', '#', 'e', 'n', 'd', '\n']);
    assert(text[i] == body[i]);
    assert(text[i + j + 1] == rest[j]);
    assert(lines_at(text, i, j));
}

/// Whether a text has a first line of `i` characters, a second of `j`, and ends with
/// `#end` on a line of its own.
pub open spec fn lines_at(text: Seq<char>, i: int, j: int) -> bool {
    &&& 0 <= i && 0 <= j && i + j + 2 <= text.len() - 6
    &&& text[i] == '\n'
    &&& text[i + j + 1] == '\n'
    &&& text.subrange(text.len() - 6, text.len() as int) == seq!['\n', '#', 'e', 'n', 'd', '\n']
}

} // verus!
