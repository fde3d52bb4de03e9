//! Text helpers: characters, decimal numbers, trimming, and the UTF-8 boundary.
use vstd::prelude::*;
use vstd::string::*;
use vstd::utf8::*;

verus! {

/// `String::push`: the character is appended at the end.
pub assume_specification[ String::push ](s: &mut String, c: char)
    ensures
        final(s)@ == old(s)@.push(c),
;

/// The characters of `s`, in order.
pub fn to_chars(s: &str) -> (r: Vec<char>)
    ensures
        r@ == s@,
{
    let mut out: Vec<char> = Vec::new();
    for c in it: s.chars()
        invariant
            it.seq() == s@,
            out@ == s@.take(it.index() as int),
    {
        out.push(c);
    }
    assert(s@.take(s@.len() as int) =~= s@);
    out
}

/// The string made of `chars[from..to]`.
pub fn slice_text(chars: &[char], from: usize, to: usize) -> (r: String)
    requires
        from <= to <= chars@.len(),
    ensures
        r@ == chars@.subrange(from as int, to as int),
{
    let mut out = String::new();
    let mut i: usize = from;
    while i < to
        invariant
            from <= i <= to <= chars@.len(),
            out@ == chars@.subrange(from as int, i as int),
        decreases to - i,
    {
        out.push(chars[i]);
        i = i + 1;
    }
    out
}

/// `before`, `middle` and `after` in one text.
pub fn between(before: &str, middle: &str, after: &str) -> (r: String)
    ensures
        r@ == before@ + middle@ + after@,
{
    let mut out = before.to_owned();
    out.append(middle);
    out.append(after);
    out
}

/// The string holding exactly `chars`.
pub fn text_of(chars: &[char]) -> (r: String)
    ensures
        r@ == chars@,
{
    let r = slice_text(chars, 0, chars.len());
    assert(chars@.subrange(0, chars@.len() as int) =~= chars@);
    r
}

/// Whether two byte strings are equal.
pub fn same_bytes(a: &[u8], b: &[u8]) -> (r: bool)
    ensures
        r == (a@ == b@),
{
    if a.len() != b.len() {
        return false;
    }
    let mut i: usize = 0;
    while i < a.len()
        invariant
            i <= a@.len(),
            a@.len() == b@.len(),
            a@.take(i as int) =~= b@.take(i as int),
        decreases a@.len() - i,
    {
        if a[i] != b[i] {
            return false;
        }
        assert(a@.take(i + 1) =~= a@.take(i as int).push(a@[i as int]));
        assert(b@.take(i + 1) =~= b@.take(i as int).push(b@[i as int]));
        i = i + 1;
    }
    assert(a@.take(a@.len() as int) =~= a@);
    assert(b@.take(b@.len() as int) =~= b@);
    true
}

/// Equal encodings come from equal texts.
pub proof fn lemma_encoding_injective(a: Seq<char>, b: Seq<char>)
    requires
        encode_utf8(a) == encode_utf8(b),
    ensures
        a == b,
{
    encode_utf8_decode_utf8(a);
    encode_utf8_decode_utf8(b);
}

/// Whether two texts are equal.
pub fn same_text(a: &str, b: &str) -> (r: bool)
    ensures
        r == (a@ == b@),
{
    let r = same_bytes(a.as_bytes(), b.as_bytes());
    proof {
        if r {
            lemma_encoding_injective(a@, b@);
        }
    }
    r
}

/// The texts of a list of strings.
pub open spec fn texts(list: Seq<String>) -> Seq<Seq<char>> {
    Seq::new(list.len(), |i: int| list[i]@)
}

/// Whether `list` holds a string equal to `name`.
pub fn holds_text(list: &[String], name: &str) -> (r: bool)
    ensures
        r == texts(list@).contains(name@),
{
    let mut i: usize = 0;
    while i < list.len()
        invariant
            i <= list@.len(),
            forall|j: int| 0 <= j < i ==> #[trigger] list@[j]@ != name@,
        decreases list@.len() - i,
    {
        if same_text(list[i].as_str(), name) {
            assert(texts(list@)[i as int] == name@);
            return true;
        }
        i = i + 1;
    }
    assert forall|j: int| 0 <= j < texts(list@).len() implies texts(list@)[j] != name@ by {
        assert(list@[j]@ != name@);
    }
    false
}

/// The decimal digit `d`.
pub open spec fn digit_char(d: nat) -> char {
    (48 + d) as char
}

/// The decimal numeral of `n`, without leading zeros.
pub open spec fn decimal(n: nat) -> Seq<char>
    decreases n,
{
    if n < 10 {
        seq![digit_char(n)]
    } else {
        decimal(n / 10).push(digit_char(n % 10))
    }
}

fn digit(d: u8) -> (c: char)
    requires
        d < 10,
    ensures
        c == digit_char(d as nat),
{
    (48 + d) as char
}

/// The decimal numeral of `n`.
pub fn decimal_text(n: u128) -> (r: String)
    ensures
        r@ == decimal(n as nat),
    decreases n,
{
    if n < 10 {
        let mut out = String::new();
        out.push(digit(n as u8));
        assert(out@ =~= seq![digit_char(n as nat)]);
        out
    } else {
        let mut out = decimal_text(n / 10);
        out.push(digit((n % 10) as u8));
        out
    }
}

/// Whether `c` is one of the ten decimal digits.
pub open spec fn is_digit(c: char) -> bool {
    '0' <= c <= '9'
}

/// The number written by a string of decimal digits; zero for the empty string.
pub open spec fn digits_value(s: Seq<char>) -> nat
    decreases s.len(),
{
    if s.len() == 0 {
        0
    } else {
        (digits_value(s.drop_last()) * 10 + (s.last() as u32 - '0' as u32)) as nat
    }
}

/// The number written by one or more decimal digits.
pub open spec fn unsigned_number(s: Seq<char>) -> Option<nat> {
    if s.len() > 0 && (forall|i: int| 0 <= i < s.len() ==> is_digit(#[trigger] s[i])) {
        Some(digits_value(s))
    } else {
        None
    }
}

/// The number that `s` writes: an optional `+`, then one or more decimal digits.
pub open spec fn number_of(s: Seq<char>) -> Option<nat> {
    if s.len() > 0 && s[0] == '+' {
        unsigned_number(s.skip(1))
    } else {
        unsigned_number(s)
    }
}

proof fn lemma_digits_value_grows(s: Seq<char>, n: int)
    requires
        0 <= n <= s.len(),
        forall|i: int| 0 <= i < s.len() ==> is_digit(#[trigger] s[i]),
    ensures
        digits_value(s.take(n)) <= digits_value(s),
    decreases s.len() - n,
{
    if n == s.len() {
        assert(s.take(n) =~= s);
    } else {
        lemma_digits_value_grows(s, n + 1);
        assert(s.take(n + 1).drop_last() =~= s.take(n));
        assert(is_digit(s[n]));
        assert(s.take(n + 1).last() == s[n]);
    }
}

/// Every numeral reads back as its number.
pub proof fn lemma_decimal_reads_back(n: nat)
    ensures
        number_of(decimal(n)) == Some(n),
{
    lemma_decimal_digits(n);
}

/// A numeral is made of digits alone.
pub proof fn lemma_decimal_is_digits(n: nat)
    ensures
        decimal(n).len() > 0,
        forall|i: int| 0 <= i < decimal(n).len() ==> is_digit(#[trigger] decimal(n)[i]),
{
    lemma_decimal_digits(n);
}

proof fn lemma_decimal_digits(n: nat)
    ensures
        decimal(n).len() > 0,
        forall|i: int| 0 <= i < decimal(n).len() ==> is_digit(#[trigger] decimal(n)[i]),
        digits_value(decimal(n)) == n,
    decreases n,
{
    if n < 10 {
        let d = seq![digit_char(n)];
        assert(d.drop_last() =~= Seq::<char>::empty());
        assert(digits_value(d.drop_last()) == 0);
    } else {
        lemma_decimal_digits(n / 10);
        let d = decimal(n);
        assert(d.drop_last() =~= decimal(n / 10));
    }
}

/// A numeral below ten to the `k` has at most `k` digits.
pub proof fn lemma_decimal_len(n: nat, k: nat)
    requires
        k >= 1,
        n < vstd::arithmetic::power::pow(10, k),
    ensures
        1 <= decimal(n).len() <= k,
    decreases k,
{
    reveal(vstd::arithmetic::power::pow);
    if n >= 10 {
        if k == 1 {
            assert(vstd::arithmetic::power::pow(10, 0) == 1);
            assert(vstd::arithmetic::power::pow(10, 1) == 10);
        } else {
            assert(vstd::arithmetic::power::pow(10, k) == 10 * vstd::arithmetic::power::pow(
                10,
                (k - 1) as nat,
            ));
            lemma_decimal_len(n / 10, (k - 1) as nat);
        }
    }
}

/// The number that `s` writes, where it fits in `usize`.
pub fn parse_number(s: &[char]) -> (r: Option<usize>)
    ensures
        match r {
            Some(n) => number_of(s@) == Some(n as nat),
            None => number_of(s@) is None || number_of(s@)->0 > usize::MAX,
        },
{
    let mut i: usize = 0;
    if s.len() > 0 && s[0] == '+' {
        i = 1;
    }
    let ghost digits = s@.skip(i as int);
    assert(i == 0 ==> digits =~= s@);
    if i == s.len() {
        return None;
    }
    let start: usize = i;
    let mut value: usize = 0;
    while i < s.len()
        invariant
            start <= i <= s@.len(),
            digits == s@.skip(start as int),
            number_of(s@) == unsigned_number(digits),
            forall|k: int| 0 <= k < i - start ==> is_digit(#[trigger] digits[k]),
            value == digits_value(digits.take(i - start)),
        decreases s@.len() - i,
    {
        let c = s[i];
        assert(digits[i - start] == c);
        if !('0' <= c && c <= '9') {
            assert(!is_digit(digits[i - start]));
            return None;
        }
        assert(digits.take(i + 1 - start).drop_last() =~= digits.take(i - start));
        assert(digits.take(i + 1 - start).last() == c);
        proof {
            if number_of(s@) is Some {
                lemma_digits_value_grows(digits, i + 1 - start);
            }
        }
        let d: usize = (c as u32 - '0' as u32) as usize;
        let tens: usize = match value.checked_mul(10) {
            Some(t) => t,
            None => {
                return None;
            },
        };
        value = match tens.checked_add(d) {
            Some(v) => v,
            None => {
                return None;
            },
        };
        i = i + 1;
    }
    assert(digits.take(digits.len() as int) =~= digits);
    Some(value)
}

/// Unicode's `White_Space` property.
pub open spec fn is_space(c: char) -> bool {
    ||| '\u{9}' <= c <= '\u{d}'
    ||| c == '\u{20}' || c == '\u{85}' || c == '\u{a0}' || c == '\u{1680}'
    ||| '\u{2000}' <= c <= '\u{200a}'
    ||| c == '\u{2028}' || c == '\u{2029}' || c == '\u{202f}' || c == '\u{205f}' || c == '\u{3000}'
}

fn space(c: char) -> (r: bool)
    ensures
        r == is_space(c),
{
    ('\u{9}' <= c && c <= '\u{d}') || c == '\u{20}' || c == '\u{85}' || c == '\u{a0}' || c
        == '\u{1680}' || ('\u{2000}' <= c && c <= '\u{200a}') || c == '\u{2028}' || c == '\u{2029}'
        || c == '\u{202f}' || c == '\u{205f}' || c == '\u{3000}'
}

/// `s` without its leading white space.
pub open spec fn trimmed_start(s: Seq<char>) -> Seq<char>
    decreases s.len(),
{
    if s.len() > 0 && is_space(s[0]) {
        trimmed_start(s.skip(1))
    } else {
        s
    }
}

/// `s` without its trailing white space.
pub open spec fn trimmed_end(s: Seq<char>) -> Seq<char>
    decreases s.len(),
{
    if s.len() > 0 && is_space(s.last()) {
        trimmed_end(s.drop_last())
    } else {
        s
    }
}

/// `s` without leading and trailing white space.
pub open spec fn trimmed(s: Seq<char>) -> Seq<char> {
    trimmed_end(trimmed_start(s))
}

/// Text that neither starts nor ends with white space is left alone.
pub proof fn lemma_trim_keeps(s: Seq<char>)
    requires
        s.len() > 0 ==> !is_space(s[0]) && !is_space(s.last()),
    ensures
        trimmed(s) == s,
{
}

/// `s` without leading and trailing white space.
pub fn trim(s: &[char]) -> (r: &[char])
    ensures
        r@ == trimmed(s@),
{
    let mut from: usize = 0;
    assert(s@.skip(0) =~= s@);
    while from < s.len() && space(s[from])
        invariant
            from <= s@.len(),
            trimmed_start(s@) == trimmed_start(s@.skip(from as int)),
        decreases s@.len() - from,
    {
        assert(s@.skip(from as int).skip(1) =~= s@.skip(from + 1));
        from = from + 1;
    }
    let ghost rest = s@.skip(from as int);
    assert(trimmed_start(s@) == rest);
    let mut to: usize = s.len();
    assert(s@.subrange(from as int, to as int) =~= rest);
    while to > from && space(s[to - 1])
        invariant
            from <= to <= s@.len(),
            trimmed_end(rest) == trimmed_end(s@.subrange(from as int, to as int)),
        decreases to,
    {
        assert(s@.subrange(from as int, to as int).drop_last() =~= s@.subrange(
            from as int,
            to - 1,
        ));
        to = to - 1;
    }
    vstd::slice::slice_subrange(s, from, to)
}

/// `std::str::from_utf8`: the text that the bytes encode, or `None` where they are
/// not valid UTF-8.
#[verifier::external_body]
pub(crate) fn utf8_text(bytes: &[u8]) -> (r: Option<String>)
    ensures
        match r {
            Some(text) => valid_utf8(bytes@) && text@ == decode_utf8(bytes@),
            None => !valid_utf8(bytes@),
        },
{
    match std::str::from_utf8(bytes) {
        Ok(text) => Some(String::from(text)),
        Err(_) => None,
    }
}

/// The text that `String::from_utf8_lossy` makes of a byte string.
pub uninterp spec fn lossy_utf8(bytes: Seq<u8>) -> Seq<char>;

/// `String::from_utf8_lossy`: valid UTF-8 is decoded as it stands; what is put in
/// the place of invalid bytes is left to the name.
#[verifier::external_body]
pub(crate) fn lossy_text(bytes: &[u8]) -> (r: String)
    ensures
        r@ == lossy_utf8(bytes@),
        valid_utf8(bytes@) ==> r@ == decode_utf8(bytes@),
{
    String::from_utf8_lossy(bytes).into_owned()
}

/// Numbers are written in base ten without leading zeros: a number below ten is its digit,
/// and any other is what precedes its last digit, followed by that digit.
pub proof fn lemma_decimal_digit_by_digit(n: nat, d: nat)
    requires
        d < 10,
    ensures
        decimal(d) == seq![(48 + d) as char],
        n > 0 ==> decimal(10 * n + d) == decimal(n).push((48 + d) as char),
{
    if n > 0 {
        assert((10 * n + d) / 10 == n && (10 * n + d) % 10 == d) by (nonlinear_arith)
            requires
                d < 10,
                n > 0,
        ;
    }
}

/// A text is read as a number if and only if it is one or more digits, after at most one
/// `+`; and a digit at its end adds a place.
pub proof fn lemma_numbers_are_read_digit_by_digit(s: Seq<char>, c: char)
    ensures
        number_of(Seq::empty()) is None,
        number_of(seq!['+']) is None,
        '0' <= c <= '9' ==> number_of(seq![c]) == Some((c as u32 - 48) as nat),
        '0' <= c <= '9' && number_of(s) is Some ==> number_of(s.push(c)) == Some(
            (10 * number_of(s)->0 + (c as u32 - 48)) as nat,
        ),
        !('0' <= c <= '9') && s.len() > 0 ==> number_of(s.push(c)) is None,
        s.len() == 0 || s[0] != '+' ==> number_of(seq!['+'] + s) == number_of(s),
{
    let none = Seq::<char>::empty();
    assert(seq!['+'].skip(1) =~= none);
    let one = seq![c];
    if '0' <= c <= '9' {
        assert(one.drop_last() =~= none);
        assert(forall|i: int| 0 <= i < one.len() ==> is_digit(#[trigger] one[i]));
        assert(digits_value(none) == 0);
        assert(one.last() == c);
        assert(digits_value(one) == (digits_value(one.drop_last()) * 10 + (one.last() as u32 - '0' as u32)) as nat);
        assert('0' as u32 == 48);
    }
    let more = s.push(c);
    if s.len() > 0 {
        assert(more[0] == s[0]);
        let tail = if s[0] == '+' {
            s.skip(1)
        } else {
            s
        };
        let longer = if s[0] == '+' {
            more.skip(1)
        } else {
            more
        };
        assert(longer =~= tail.push(c));
        assert(longer.drop_last() =~= tail);
        assert(longer[longer.len() - 1] == c);
        if '0' <= c <= '9' && number_of(s) is Some {
            assert forall|i: int| 0 <= i < longer.len() implies is_digit(#[trigger] longer[i]) by {
                if i < tail.len() {
                    assert(is_digit(tail[i]));
                }
            }
        }
    }
    assert((seq!['+'] + s).skip(1) =~= s);
    if s.len() > 0 && s[0] != '+' {
        assert(number_of(s) == unsigned_number(s));
    }
}

/// Trimming takes spaces off both ends, however many there are, and nothing else.
pub proof fn lemma_trimming_takes_spaces_off(s: Seq<char>, c: char)
    ensures
        is_space(c) ==> trimmed(seq![c] + s) == trimmed(s),
        is_space(c) ==> trimmed(s.push(c)) == trimmed(s),
        s.len() > 0 && !is_space(s[0]) && !is_space(s.last()) ==> trimmed(s) == s,
        trimmed(Seq::empty()) == Seq::<char>::empty(),
{
    assert((seq![c] + s).skip(1) =~= s);
    assert((seq![c] + s)[0] == c);
    if is_space(c) {
        lemma_trim_end_commutes(s, c);
    }
}

proof fn lemma_trim_end_commutes(s: Seq<char>, c: char)
    requires
        is_space(c),
    ensures
        trimmed(s.push(c)) == trimmed(s),
    decreases s.len(),
{
    let more = s.push(c);
    if s.len() == 0 {
        assert(more.skip(1) =~= s);
        assert(more[0] == c);
    } else {
        assert(more[0] == s[0]);
        if is_space(s[0]) {
            lemma_trim_end_commutes(s.skip(1), c);
            assert(more.skip(1) =~= s.skip(1).push(c));
        } else {
            assert(more.drop_last() =~= s);
        }
    }
}

/// The characters that count as spaces.
pub proof fn lemma_spaces_by_their_codes(c: char)
    ensures
        is_space(c) == (9 <= c as u32 <= 13 || c as u32 == 0x20 || c as u32 == 0x85 || c as u32 == 0xa0
            || c as u32 == 0x1680 || 0x2000 <= c as u32 <= 0x200a || c as u32 == 0x2028 || c as u32 == 0x2029
            || c as u32 == 0x202f || c as u32 == 0x205f || c as u32 == 0x3000),
{
}

} // verus!
