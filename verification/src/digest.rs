//! Digests, hexadecimal text and length bounds.
use vstd::prelude::*;
use vstd::string::*;
use vstd::utf8::*;

use crate::text::{slice_text, to_chars};

verus! {

/// The 64-bit FNV-1a digest of `bytes`.
pub open spec fn fnv1a(bytes: Seq<u8>) -> u64
    decreases bytes.len(),
{
    if bytes.len() == 0 {
        0xcbf2_9ce4_8422_2325u64
    } else {
        (((fnv1a(bytes.drop_last()) ^ (bytes.last() as u64)) * 0x0000_0100_0000_01b3int) % 0x1_0000_0000_0000_0000) as u64
    }
}

/// The lowercase hexadecimal digit `d`.
pub open spec fn hex_digit(d: int) -> char {
    if d < 10 {
        (48 + d) as char
    } else {
        (87 + d) as char
    }
}

/// The two hexadecimal digits of a byte.
pub open spec fn hex_byte(b: u8) -> Seq<char> {
    seq![hex_digit(b as int / 16), hex_digit(b as int % 16)]
}

/// Two hexadecimal digits per byte.
pub open spec fn hex_bytes(bytes: Seq<u8>) -> Seq<char>
    decreases bytes.len(),
{
    if bytes.len() == 0 {
        Seq::empty()
    } else {
        hex_bytes(bytes.drop_last()) + hex_byte(bytes.last())
    }
}

/// The last `n` hexadecimal digits of `value`.
pub open spec fn hex_number(value: nat, n: nat) -> Seq<char>
    decreases n,
{
    if n == 0 {
        Seq::empty()
    } else {
        hex_number(value / 16, (n - 1) as nat).push(hex_digit(value as int % 16))
    }
}

/// The digest of `bytes` as sixteen hexadecimal digits.
pub open spec fn digest_text(bytes: Seq<u8>) -> Seq<char> {
    hex_number(fnv1a(bytes) as nat, 16)
}

proof fn lemma_hex_number_len(value: nat, n: nat)
    ensures
        hex_number(value, n).len() == n,
        forall|i: int| 0 <= i < n ==> is_hex(#[trigger] hex_number(value, n)[i]),
    decreases n,
{
    if n > 0 {
        lemma_hex_number_len(value / 16, (n - 1) as nat);
    }
}

/// Whether `c` is a lowercase hexadecimal digit.
pub open spec fn is_hex(c: char) -> bool {
    '0' <= c <= '9' || 'a' <= c <= 'f'
}

/// A digest is sixteen hexadecimal digits.
pub proof fn lemma_digest_shape(bytes: Seq<u8>)
    ensures
        digest_text(bytes).len() == 16,
        forall|i: int| 0 <= i < 16 ==> is_hex(#[trigger] digest_text(bytes)[i]),
{
    lemma_hex_number_len(fnv1a(bytes) as nat, 16);
}

/// Two hexadecimal digits per byte, and nothing else.
pub proof fn lemma_hex_bytes_shape(bytes: Seq<u8>)
    ensures
        hex_bytes(bytes).len() == 2 * bytes.len(),
        forall|i: int| 0 <= i < hex_bytes(bytes).len() ==> is_hex(#[trigger] hex_bytes(bytes)[i]),
    decreases bytes.len(),
{
    if bytes.len() > 0 {
        lemma_hex_bytes_shape(bytes.drop_last());
    }
}

fn hex_char(d: u8) -> (c: char)
    requires
        d < 16,
    ensures
        c == hex_digit(d as int),
{
    if d < 10 {
        (48 + d) as char
    } else {
        (87 + d) as char
    }
}

fn hash_bytes(bytes: &[u8]) -> (r: u64)
    ensures
        r == fnv1a(bytes@),
{
    let mut hash: u64 = 0xcbf2_9ce4_8422_2325;
    let mut i: usize = 0;
    assert(bytes@.take(0) =~= Seq::<u8>::empty());
    while i < bytes.len()
        invariant
            i <= bytes@.len(),
            hash == fnv1a(bytes@.take(i as int)),
        decreases bytes@.len() - i,
    {
        assert(bytes@.take(i + 1).drop_last() =~= bytes@.take(i as int));
        hash = hash ^ (bytes[i] as u64);
        hash = hash.wrapping_mul(0x0000_0100_0000_01b3);
        i = i + 1;
    }
    assert(bytes@.take(bytes@.len() as int) =~= bytes@);
    hash
}

fn hex_of(value: u64, n: usize) -> (r: String)
    ensures
        r@ == hex_number(value as nat, n as nat),
    decreases n,
{
    if n == 0 {
        return String::new();
    }
    let mut out = hex_of(value / 16, n - 1);
    out.push(hex_char((value % 16) as u8));
    out
}

/// FNV-1a (64-bit) of `bytes`, rendered as 16 lowercase hex digits.
pub fn fnv1a_hex(bytes: &[u8]) -> (r: String)
    ensures
        r@ == digest_text(bytes@),
{
    hex_of(hash_bytes(bytes), 16)
}

/// Random bytes as lowercase hex, two digits per byte.
pub fn random_hex(bytes: &[u8]) -> (r: String)
    ensures
        r@ == hex_bytes(bytes@),
        r@.len() == 2 * bytes@.len(),
{
    let mut out = String::new();
    let mut i: usize = 0;
    assert(bytes@.take(0) =~= Seq::<u8>::empty());
    while i < bytes.len()
        invariant
            i <= bytes@.len(),
            out@ == hex_bytes(bytes@.take(i as int)),
        decreases bytes@.len() - i,
    {
        assert(bytes@.take(i + 1).drop_last() =~= bytes@.take(i as int));
        let ghost before = out@;
        out.push(hex_char(bytes[i] / 16));
        out.push(hex_char(bytes[i] % 16));
        assert(out@ =~= before + hex_byte(bytes@[i as int]));
        i = i + 1;
    }
    assert(bytes@.take(bytes@.len() as int) =~= bytes@);
    proof {
        lemma_hex_bytes_shape(bytes@);
    }
    out
}

/// The length in bytes of the encoding of `text`.
pub open spec fn byte_len(text: Seq<char>) -> nat {
    encode_utf8(text).len()
}

/// The largest number of characters at the start of `text` whose encoding takes at
/// most `budget` bytes.
pub open spec fn head_chars(text: Seq<char>, budget: nat) -> nat
    decreases text.len(),
{
    if byte_len(text) <= budget || text.len() == 0 {
        text.len()
    } else {
        head_chars(text.drop_last(), budget)
    }
}

/// `text` where it takes at most `limit` bytes, and otherwise the longest beginning
/// that leaves room for `~` and the digest of the whole, followed by these.
pub open spec fn bounded(text: Seq<char>, limit: nat) -> Seq<char> {
    if byte_len(text) <= limit {
        text
    } else {
        let budget = if limit >= 17 {
            (limit - 17) as nat
        } else {
            0
        };
        text.take(head_chars(text, budget) as int) + seq!['~'] + digest_text(encode_utf8(text))
    }
}

/// Encoding one text after another is encoding both together.
pub proof fn lemma_encode_concat(a: Seq<char>, b: Seq<char>)
    ensures
        encode_utf8(a + b) == encode_utf8(a) + encode_utf8(b),
    decreases a.len(),
{
    if a.len() == 0 {
        assert(a + b =~= b);
        assert(encode_utf8(a) + encode_utf8(b) =~= encode_utf8(b));
    } else {
        lemma_encode_concat(a.drop_first(), b);
        assert((a + b).drop_first() =~= a.drop_first() + b);
        assert(encode_utf8(a + b) =~= encode_utf8(a) + encode_utf8(b));
    }
}

proof fn lemma_byte_len_push(text: Seq<char>, c: char)
    ensures
        byte_len(text.push(c)) == byte_len(text) + encode_scalar(c as u32).len(),
{
    lemma_encode_concat(text, seq![c]);
    assert(text + seq![c] =~= text.push(c));
    assert(seq![c].drop_first() =~= Seq::<char>::empty());
    reveal_with_fuel(encode_utf8, 2);
    assert(encode_utf8(seq![c]) =~= encode_scalar(c as u32));
}

/// The encoding of ASCII text takes one byte per character.
pub proof fn lemma_ascii_byte_len(text: Seq<char>)
    requires
        forall|i: int| 0 <= i < text.len() ==> (#[trigger] text[i]) as u32 <= 0x7f,
    ensures
        byte_len(text) == text.len(),
    decreases text.len(),
{
    if text.len() > 0 {
        assert(text[0] as u32 <= 0x7f);
        assert forall|i: int| 0 <= i < text.drop_first().len() implies (#[trigger] text.drop_first()[i]) as u32
            <= 0x7f by {
            assert(text.drop_first()[i] == text[i + 1]);
        }
        lemma_ascii_byte_len(text.drop_first());
    }
}

proof fn lemma_byte_len_grows(text: Seq<char>, n: int)
    requires
        0 <= n <= text.len(),
    ensures
        byte_len(text.take(n)) <= byte_len(text),
{
    assert(text =~= text.take(n) + text.skip(n));
    lemma_encode_concat(text.take(n), text.skip(n));
}

proof fn lemma_head_chars(text: Seq<char>, budget: nat)
    ensures
        head_chars(text, budget) <= text.len(),
        byte_len(text.take(head_chars(text, budget) as int)) <= budget,
    decreases text.len(),
{
    if byte_len(text) <= budget || text.len() == 0 {
        assert(text.take(text.len() as int) =~= text);
    } else {
        lemma_head_chars(text.drop_last(), budget);
        let n = head_chars(text, budget) as int;
        assert(text.drop_last().take(n) =~= text.take(n));
    }
}

proof fn lemma_head_chars_is(text: Seq<char>, budget: nat, n: int)
    requires
        0 <= n <= text.len(),
        byte_len(text.take(n)) <= budget,
        n < text.len() ==> byte_len(text.take(n + 1)) > budget,
    ensures
        head_chars(text, budget) == n,
    decreases text.len() - n,
{
    if n == text.len() {
        assert(text.take(n) =~= text);
    } else {
        lemma_byte_len_grows(text, n + 1);
        let shorter = text.drop_last();
        assert(shorter.take(n) =~= text.take(n));
        if n < shorter.len() {
            assert(shorter.take(n + 1) =~= text.take(n + 1));
        }
        lemma_head_chars_is(shorter, budget, n);
    }
}

/// Bounded text takes at most `limit` bytes, as long as the limit leaves room for
/// the digest.
pub proof fn lemma_bounded_fits(text: Seq<char>, limit: nat)
    requires
        limit >= 17,
    ensures
        byte_len(bounded(text, limit)) <= limit,
{
    if byte_len(text) > limit {
        let budget = (limit - 17) as nat;
        lemma_head_chars(text, budget);
        let head = text.take(head_chars(text, budget) as int);
        let mark = seq!['~'] + digest_text(encode_utf8(text));
        lemma_digest_shape(encode_utf8(text));
        assert forall|i: int| 0 <= i < mark.len() implies (#[trigger] mark[i]) as u32 <= 0x7f by {
            if i > 0 {
                assert(is_hex(digest_text(encode_utf8(text))[i - 1]));
            }
        }
        lemma_ascii_byte_len(mark);
        lemma_encode_concat(head, mark);
        assert(bounded(text, limit) =~= head + mark);
    }
}

/// Bounding brings in no character but `~` and the digits of a digest.
pub proof fn lemma_bounded_chars(text: Seq<char>, limit: nat)
    ensures
        text.len() > 0 ==> bounded(text, limit).len() > 0,
        forall|i: int|
            0 <= i < bounded(text, limit).len() ==> text.contains(#[trigger] bounded(text, limit)[i]) || bounded(
                text,
                limit,
            )[i] == '~' || is_hex(bounded(text, limit)[i]),
{
    let out = bounded(text, limit);
    if byte_len(text) > limit {
        let budget = if limit >= 17 {
            (limit - 17) as nat
        } else {
            0
        };
        lemma_head_chars(text, budget);
        lemma_digest_shape(encode_utf8(text));
        let head = head_chars(text, budget) as int;
        let tail = digest_text(encode_utf8(text));
        assert forall|i: int| 0 <= i < out.len() implies text.contains(#[trigger] out[i]) || out[i] == '~'
            || is_hex(out[i]) by {
            if i < head {
                assert(out[i] == text[i]);
            } else if i > head {
                assert(out[i] == tail[i - head - 1]);
            }
        }
    }
}

/// Text within the limit is not rewritten.
pub proof fn lemma_bounded_keeps_short_text(text: Seq<char>, limit: nat)
    requires
        byte_len(text) <= limit,
    ensures
        bounded(text, limit) == text,
{
}

fn char_width(c: char) -> (r: usize)
    ensures
        r == encode_scalar(c as u32).len(),
        1 <= r <= 4,
{
    let v: u32 = c as u32;
    if v <= 0x7f {
        1
    } else if v <= 0x7ff {
        2
    } else if v <= 0xffff {
        3
    } else {
        4
    }
}

fn head_of(chars: &[char], budget: usize) -> (r: usize)
    ensures
        r == head_chars(chars@, budget as nat),
        r <= chars@.len(),
{
    let mut used: usize = 0;
    let mut n: usize = 0;
    assert(chars@.take(0) =~= Seq::<char>::empty());
    while n < chars.len()
        invariant
            n <= chars@.len(),
            used == byte_len(chars@.take(n as int)),
            used <= budget,
        decreases chars@.len() - n,
    {
        let width: usize = char_width(chars[n]);
        proof {
            lemma_byte_len_push(chars@.take(n as int), chars@[n as int]);
            assert(chars@.take(n as int).push(chars@[n as int]) =~= chars@.take(n + 1));
        }
        if width > budget - used {
            proof {
                lemma_head_chars_is(chars@, budget as nat, n as int);
            }
            return n;
        }
        used = used + width;
        n = n + 1;
    }
    proof {
        lemma_head_chars_is(chars@, budget as nat, n as int);
    }
    n
}

/// Shorten `text` to `limit` bytes, ending it with a digest of the whole.
///
/// Text within the limit is returned untouched. Past it the head is kept, cut
/// between two characters, and the tail is replaced by `~<digest>`.
pub fn bound_text(text: &str, limit: usize) -> (r: String)
    ensures
        r@ == bounded(text@, limit as nat),
        limit >= 17 ==> byte_len(r@) <= limit,
{
    proof {
        if limit >= 17 {
            lemma_bounded_fits(text@, limit as nat);
        }
    }
    if text.as_bytes().len() <= limit {
        return text.to_owned();
    }
    let digest = fnv1a_hex(text.as_bytes());
    let chars = to_chars(text);
    let budget: usize = if limit >= 17 {
        limit - 17
    } else {
        0
    };
    let head = head_of(chars.as_slice(), budget);
    let mut out = slice_text(chars.as_slice(), 0, head);
    assert(chars@.subrange(0, head as int) =~= text@.take(head as int));
    out.push('~');
    out.append(digest.as_str());
    assert(out@ =~= bounded(text@, limit as nat));
    out
}

/// The digest is FNV-1a over 64 bits: it starts from the offset basis, and each byte is
/// first mixed in and then spread by the prime.
pub proof fn lemma_digest_is_fnv1a(bytes: Seq<u8>, b: u8)
    ensures
        fnv1a(Seq::empty()) == 0xcbf2_9ce4_8422_2325u64,
        fnv1a(bytes.push(b)) == (((fnv1a(bytes) ^ (b as u64)) * 0x100_0000_01b3) % 0x1_0000_0000_0000_0000) as u64,
{
    assert(bytes.push(b).drop_last() =~= bytes);
}

/// The digits of a digest are those of its number in base sixteen, the last one last.
pub proof fn lemma_digest_is_written_in_hex(bytes: Seq<u8>)
    ensures
        digest_text(bytes)[15] == nibble_char((fnv1a(bytes) % 16) as int),
        digest_text(bytes) == hex_number((fnv1a(bytes) / 16) as nat, 15).push(
            nibble_char((fnv1a(bytes) % 16) as int),
        ),
{
    lemma_digest_shape(bytes);
}

/// The hexadecimal digit for a number below sixteen.
pub open spec fn nibble_char(d: int) -> char {
    seq!['0', '1', '2', '3', '4', '5', '6', '7', '8', '9', 'a', 'b', 'c', 'd', 'e', 'f'][d]
}

/// A number is written with one digit for each power of sixteen.
pub proof fn lemma_hex_place_by_place(value: nat, n: nat)
    ensures
        hex_number(value, 0) == Seq::<char>::empty(),
        hex_number(value, n + 1) == hex_number(value / 16, n).push(nibble_char(value as int % 16)),
        hex_number(value, n).len() == n,
    decreases n,
{
    if n > 0 {
        lemma_hex_place_by_place(value / 16, (n - 1) as nat);
    }
}

/// Random bytes are written one after the other, two digits each.
pub proof fn lemma_hex_byte_by_byte(bytes: Seq<u8>, b: u8)
    ensures
        hex_bytes(Seq::empty()) == Seq::<char>::empty(),
        hex_bytes(bytes.push(b)) == hex_bytes(bytes).push(nibble_char(b as int / 16)).push(
            nibble_char(b as int % 16),
        ),
{
    assert(bytes.push(b).drop_last() =~= bytes);
    assert(hex_bytes(bytes.push(b)) =~= hex_bytes(bytes).push(nibble_char(b as int / 16)).push(
        nibble_char(b as int % 16),
    ));
}

/// A text that is too long keeps as much of its beginning as fits, whole characters, and
/// then a `~` and the digest of all of it.
pub proof fn lemma_bounded_keeps_what_fits(text: Seq<char>, limit: nat)
    requires
        limit >= 17,
        byte_len(text) > limit,
    ensures
        exists|n: int|
            0 <= n < text.len() && bounded(text, limit) == #[trigger] text.take(n) + seq!['~'] + digest_text(
                encode_utf8(text),
            ) && byte_len(text.take(n)) <= limit - 17 && byte_len(text.take(n + 1)) > limit - 17,
{
    let budget = (limit - 17) as nat;
    lemma_head_is_longest(text, budget);
    let n = head_chars(text, budget) as int;
    assert(bounded(text, limit) == text.take(n) + seq!['~'] + digest_text(encode_utf8(text)));
}

proof fn lemma_head_is_longest(text: Seq<char>, budget: nat)
    requires
        byte_len(text) > budget,
    ensures
        0 <= head_chars(text, budget) < text.len(),
        byte_len(text.take(head_chars(text, budget) as int)) <= budget,
        byte_len(text.take(head_chars(text, budget) as int + 1)) > budget,
    decreases text.len(),
{
    let none = Seq::<char>::empty();
    assert(byte_len(none) == 0) by {
        lemma_ascii_byte_len(none);
    }
    assert(text.len() > 0) by {
        if text.len() == 0 {
            assert(text =~= none);
        }
    }
    let front = text.drop_last();
    if byte_len(front) <= budget || front.len() == 0 {
        assert(head_chars(front, budget) == front.len());
        assert(text.take(front.len() as int) =~= front);
        assert(text.take(front.len() as int + 1) =~= text);
        if front.len() == 0 {
            assert(front =~= none);
        }
    } else {
        lemma_head_is_longest(front, budget);
        let n = head_chars(front, budget) as int;
        assert(text.take(n) =~= front.take(n));
        assert(text.take(n + 1) =~= front.take(n + 1));
    }
}

} // verus!
