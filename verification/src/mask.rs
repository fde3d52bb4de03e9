//! Masking of secret values.
use vstd::prelude::*;
use vstd::string::*;

use crate::text::{text_of, texts, to_chars};

verus! {

/// Whether `text` begins with `part`.
pub open spec fn begins(text: Seq<char>, part: Seq<char>) -> bool {
    part.len() <= text.len() && text.take(part.len() as int) == part
}

/// Whether `part` stands somewhere in `text`.
pub open spec fn occurs(part: Seq<char>, text: Seq<char>) -> bool {
    exists|p: int| 0 <= p <= text.len() && begins(#[trigger] text.skip(p), part)
}

/// The length of the longest secret that `text` begins with; zero where it begins
/// with none but the empty one.
pub open spec fn longest_secret(text: Seq<char>, secrets: Seq<Seq<char>>) -> nat
    decreases secrets.len(),
{
    if secrets.len() == 0 {
        0
    } else {
        let best = longest_secret(text, secrets.drop_last());
        if begins(text, secrets.last()) && secrets.last().len() > best {
            secrets.last().len()
        } else {
            best
        }
    }
}

/// `text` with every secret in it replaced by `***`, read from left to right, the
/// longest secret first.
pub open spec fn masked(text: Seq<char>, secrets: Seq<Seq<char>>) -> Seq<char>
    decreases text.len(),
{
    if text.len() == 0 {
        text
    } else {
        let n = longest_secret(text, secrets) as int;
        if 0 < n <= text.len() {
            seq!['*', '*', '*'] + masked(text.skip(n), secrets)
        } else {
            seq![text[0]] + masked(text.skip(1), secrets)
        }
    }
}

proof fn lemma_longest(text: Seq<char>, secrets: Seq<Seq<char>>)
    ensures
        forall|i: int|
            0 <= i < secrets.len() && begins(text, #[trigger] secrets[i]) ==> secrets[i].len() <= longest_secret(text, secrets),
        longest_secret(text, secrets) > 0 ==> exists|i: int|
            0 <= i < secrets.len() && begins(text, #[trigger] secrets[i]) && secrets[i].len()
                == longest_secret(text, secrets),
        longest_secret(text, secrets) <= text.len(),
    decreases secrets.len(),
{
    if secrets.len() > 0 {
        let front = secrets.drop_last();
        lemma_longest(text, front);
        assert forall|i: int| 0 <= i < secrets.len() && begins(text, #[trigger] secrets[i]) implies secrets[i].len()
            <= longest_secret(text, secrets) by {
            if i < front.len() {
                assert(front[i] == secrets[i]);
            }
        }
        if longest_secret(text, secrets) > 0 {
            if longest_secret(text, secrets) == longest_secret(text, front) {
                let i = choose|i: int|
                    0 <= i < front.len() && begins(text, #[trigger] front[i]) && front[i].len()
                        == longest_secret(text, front);
                assert(secrets[i] == front[i]);
            } else {
                assert(secrets[secrets.len() - 1] == secrets.last());
            }
        }
    }
}

/// Masking replaces the longest secret that starts at a place, and nothing shorter.
pub proof fn lemma_longest_secret_wins(text: Seq<char>, secrets: Seq<Seq<char>>, i: int)
    requires
        0 <= i < secrets.len(),
        secrets[i].len() > 0,
        begins(text, secrets[i]),
    ensures
        secrets[i].len() <= longest_secret(text, secrets) <= text.len(),
        exists|j: int|
            0 <= j < secrets.len() && begins(text, #[trigger] secrets[j]) && secrets[j].len()
                == longest_secret(text, secrets),
        masked(text, secrets) == seq!['*', '*', '*'] + masked(
            text.skip(longest_secret(text, secrets) as int),
            secrets,
        ),
{
    lemma_longest(text, secrets);
}

/// Text in which no secret stands is left alone.
pub proof fn lemma_mask_keeps_clean_text(text: Seq<char>, secrets: Seq<Seq<char>>)
    requires
        forall|i: int| 0 <= i < secrets.len() && (#[trigger] secrets[i]).len() > 0 ==> !occurs(secrets[i], text),
    ensures
        masked(text, secrets) == text,
    decreases text.len(),
{
    if text.len() > 0 {
        lemma_longest(text, secrets);
        if longest_secret(text, secrets) > 0 {
            let i = choose|i: int|
                0 <= i < secrets.len() && begins(text, #[trigger] secrets[i]) && secrets[i].len()
                    == longest_secret(text, secrets);
            assert(text.skip(0) =~= text);
            assert(occurs(secrets[i], text));
        }
        assert forall|i: int| 0 <= i < secrets.len() && (#[trigger] secrets[i]).len() > 0 implies !occurs(
            secrets[i],
            text.skip(1),
        ) by {
            if occurs(secrets[i], text.skip(1)) {
                let p = choose|p: int|
                    0 <= p <= text.skip(1).len() && begins(#[trigger] text.skip(1).skip(p), secrets[i]);
                assert(text.skip(1).skip(p) =~= text.skip(p + 1));
                assert(occurs(secrets[i], text));
            }
        }
        lemma_mask_keeps_clean_text(text.skip(1), secrets);
        assert(seq![text[0]] + text.skip(1) =~= text);
    }
}

/// Whether a text holds three stars in a row.
pub open spec fn three_stars(text: Seq<char>) -> bool {
    exists|j: int| 0 <= j && j + 2 < text.len() && #[trigger] text[j] == '*' && text[j + 1] == '*' && text[j + 2] == '*'
}

/// Whether a secret can be pieced together from the `***` that masking writes and
/// what stands around it: it begins or ends with a star, or holds three in a row.
pub open spec fn star_bound(secret: Seq<char>) -> bool {
    secret.len() > 0 && (secret[0] == '*' || secret.last() == '*' || three_stars(secret))
}

proof fn lemma_beginning_survives(part: Seq<char>, text: Seq<char>, secrets: Seq<Seq<char>>)
    requires
        part.len() > 0 ==> part.last() != '*',
        !three_stars(part),
        begins(masked(text, secrets), part),
    ensures
        begins(text, part),
    decreases part.len(),
{
    let out = masked(text, secrets);
    if part.len() == 0 {
        assert(text.take(0) =~= part);
    } else {
        assert forall|k: int| 0 <= k < part.len() implies out[k] == part[k] by {
            assert(out.take(part.len() as int)[k] == part[k]);
        }
        lemma_longest(text, secrets);
        if longest_secret(text, secrets) > 0 {
            assert(out[0] == '*' && out[1] == '*' && out[2] == '*');
            assert(part.last() == part[part.len() - 1]);
            assert(part.len() > 3 && part[0] == '*' && part[1] == '*' && part[2] == '*');
            assert(three_stars(part));
        }
        let rest = part.skip(1);
        assert(out.skip(1) =~= masked(text.skip(1), secrets));
        assert(!three_stars(rest)) by {
            if three_stars(rest) {
                let k = choose|k: int|
                    0 <= k && k + 2 < rest.len() && #[trigger] rest[k] == '*' && rest[k + 1] == '*' && rest[k + 2]
                        == '*';
                assert(part[k + 1] == '*');
            }
        }
        assert(masked(text.skip(1), secrets).take(rest.len() as int) =~= rest) by {
            assert forall|k: int| 0 <= k < rest.len() implies out.skip(1)[k] == rest[k] by {
                assert(out[k + 1] == part[k + 1]);
            }
        }
        lemma_beginning_survives(rest, text.skip(1), secrets);
        assert forall|k: int| 0 <= k < part.len() implies text[k] == part[k] by {
            if k > 0 {
                assert(text.skip(1).take(rest.len() as int)[k - 1] == rest[k - 1]);
            }
        }
        assert(text.take(part.len() as int) =~= part);
    }
}

/// A secret does not stand in masked text, unless it can be pieced together from the
/// stars that masking itself writes.
pub proof fn lemma_mask_removes_secrets(text: Seq<char>, secrets: Seq<Seq<char>>, i: int)
    requires
        0 <= i < secrets.len(),
        secrets[i].len() > 0,
        !star_bound(secrets[i]),
    ensures
        !occurs(secrets[i], masked(text, secrets)),
    decreases text.len(),
{
    let secret = secrets[i];
    let out = masked(text, secrets);
    if occurs(secret, out) {
        let p = choose|p: int| 0 <= p <= out.len() && begins(#[trigger] out.skip(p), secret);
        assert(out.skip(p).take(secret.len() as int)[0] == secret[0]);
        assert(out[p] == secret[0]);
        lemma_longest(text, secrets);
        let n = longest_secret(text, secrets) as int;
        if n > 0 {
            lemma_mask_removes_secrets(text.skip(n), secrets, i);
            let rest = masked(text.skip(n), secrets);
            assert(p >= 3);
            assert(out.skip(p) =~= rest.skip(p - 3));
            assert(occurs(secret, rest));
        } else {
            lemma_mask_removes_secrets(text.skip(1), secrets, i);
            let rest = masked(text.skip(1), secrets);
            if p >= 1 {
                assert(out.skip(p) =~= rest.skip(p - 1));
                assert(occurs(secret, rest));
            } else {
                assert(out.skip(0) =~= out);
                lemma_beginning_survives(secret, text, secrets);
            }
        }
    }
}

/// Masking what is already masked changes nothing, as long as no secret can be
/// pieced together from the stars that masking writes.
pub proof fn lemma_mask_twice(text: Seq<char>, secrets: Seq<Seq<char>>)
    requires
        forall|k: int| 0 <= k < secrets.len() ==> !star_bound(#[trigger] secrets[k]),
    ensures
        masked(masked(text, secrets), secrets) == masked(text, secrets),
{
    assert forall|i: int| 0 <= i < secrets.len() && (#[trigger] secrets[i]).len() > 0 implies !occurs(
        secrets[i],
        masked(text, secrets),
    ) by {
        lemma_mask_removes_secrets(text, secrets, i);
    }
    lemma_mask_keeps_clean_text(masked(text, secrets), secrets);
}

/// The order in which secrets are listed, and empty ones among them, do not matter.
pub proof fn lemma_mask_ignores_order(text: Seq<char>, a: Seq<Seq<char>>, b: Seq<Seq<char>>)
    requires
        forall|s: Seq<char>| s.len() > 0 ==> #[trigger] a.contains(s) == b.contains(s),
    ensures
        masked(text, a) == masked(text, b),
    decreases text.len(),
{
    if text.len() > 0 {
        lemma_longest(text, a);
        lemma_longest(text, b);
        lemma_longest_same(text, a, b);
        lemma_longest_same(text, b, a);
        let n = longest_secret(text, a) as int;
        if n > 0 {
            lemma_mask_ignores_order(text.skip(n), a, b);
        } else {
            lemma_mask_ignores_order(text.skip(1), a, b);
        }
    }
}

proof fn lemma_longest_same(text: Seq<char>, a: Seq<Seq<char>>, b: Seq<Seq<char>>)
    requires
        forall|s: Seq<char>| s.len() > 0 ==> #[trigger] a.contains(s) == b.contains(s),
    ensures
        longest_secret(text, a) <= longest_secret(text, b),
{
    lemma_longest(text, a);
    lemma_longest(text, b);
    if longest_secret(text, a) > 0 {
        let i = choose|i: int|
            0 <= i < a.len() && begins(text, #[trigger] a[i]) && a[i].len() == longest_secret(text, a);
        assert(a.contains(a[i]));
        assert(b.contains(a[i]));
        let j = choose|j: int| 0 <= j < b.len() && b[j] == a[i];
        assert(begins(text, b[j]));
    }
}

/// The characters of a list of texts.
spec fn char_lists(list: Seq<Vec<char>>) -> Seq<Seq<char>> {
    Seq::new(list.len(), |i: int| list[i]@)
}

fn begins_at(text: &[char], at: usize, part: &[char]) -> (r: bool)
    requires
        at <= text@.len(),
    ensures
        r == begins(text@.skip(at as int), part@),
{
    if part.len() > text.len() - at {
        return false;
    }
    let ghost rest = text@.skip(at as int);
    let mut i: usize = 0;
    while i < part.len()
        invariant
            at <= text@.len(),
            i <= part@.len() <= text@.len() - at,
            text@.len() == text.len(),
            rest == text@.skip(at as int),
            rest.take(i as int) =~= part@.take(i as int),
        decreases part@.len() - i,
    {
        if text[at + i] != part[i] {
            assert(rest.take(part@.len() as int)[i as int] == text@[at + i]);
            return false;
        }
        assert(rest.take(i + 1) =~= rest.take(i as int).push(text@[at + i]));
        assert(part@.take(i + 1) =~= part@.take(i as int).push(part@[i as int]));
        i = i + 1;
    }
    assert(part@.take(part@.len() as int) =~= part@);
    true
}

fn longest_at(text: &[char], at: usize, secrets: &[Vec<char>]) -> (r: usize)
    requires
        at <= text@.len(),
    ensures
        r == longest_secret(text@.skip(at as int), char_lists(secrets@)),
        r <= text@.len() - at,
{
    let ghost rest = text@.skip(at as int);
    let ghost all = char_lists(secrets@);
    let mut best: usize = 0;
    let mut i: usize = 0;
    assert(all.take(0) =~= Seq::<Seq<char>>::empty());
    while i < secrets.len()
        invariant
            at <= text@.len(),
            i <= secrets@.len(),
            rest == text@.skip(at as int),
            all == char_lists(secrets@),
            best == longest_secret(rest, all.take(i as int)),
        decreases secrets@.len() - i,
    {
        assert(all.take(i + 1).drop_last() =~= all.take(i as int));
        assert(all.take(i + 1).last() == secrets@[i as int]@);
        if secrets[i].len() > best && begins_at(text, at, secrets[i].as_slice()) {
            best = secrets[i].len();
        }
        i = i + 1;
    }
    assert(all.take(all.len() as int) =~= all);
    proof {
        lemma_longest(rest, all);
    }
    best
}

/// Replace every registered secret value in `text` with `***`.
///
/// The longest secret that starts at a place is the one replaced there, so one
/// that begins another does not leave the rest of it visible. An empty secret
/// masks nothing.
pub fn mask_secrets(text: &str, secrets: &[String]) -> (r: String)
    ensures
        r@ == masked(text@, texts(secrets@)),
{
    let chars = to_chars(text);
    let mut active: Vec<Vec<char>> = Vec::new();
    let mut i: usize = 0;
    while i < secrets.len()
        invariant
            i <= secrets@.len(),
            char_lists(active@) =~= texts(secrets@).take(i as int),
        decreases secrets@.len() - i,
    {
        active.push(to_chars(secrets[i].as_str()));
        assert(texts(secrets@).take(i + 1) =~= texts(secrets@).take(i as int).push(secrets@[i as int]@));
        i = i + 1;
    }
    assert(texts(secrets@).take(secrets@.len() as int) =~= texts(secrets@));
    let mut out: Vec<char> = Vec::new();
    let mut at: usize = 0;
    assert(chars@.skip(0) =~= chars@);
    assert(out@ + masked(chars@, texts(secrets@)) =~= masked(chars@, texts(secrets@)));
    while at < chars.len()
        invariant
            at <= chars@.len(),
            char_lists(active@) == texts(secrets@),
            out@ + masked(chars@.skip(at as int), texts(secrets@)) == masked(chars@, texts(secrets@)),
        decreases chars@.len() - at,
    {
        let ghost rest = chars@.skip(at as int);
        let ghost before = out@;
        let n = longest_at(chars.as_slice(), at, active.as_slice());
        if n > 0 {
            out.push('*');
            out.push('*');
            out.push('*');
            assert(rest.skip(n as int) =~= chars@.skip(at + n));
            at = at + n;
        } else {
            out.push(chars[at]);
            assert(rest.skip(1) =~= chars@.skip(at + 1));
            at = at + 1;
        }
        assert(out@ + masked(chars@.skip(at as int), texts(secrets@)) =~= before + masked(
            rest,
            texts(secrets@),
        ));
    }
    assert(out@ =~= masked(chars@, texts(secrets@)));
    text_of(out.as_slice())
}

/// A text occurs in another if and only if the other is something, the text, and
/// something after it.
pub proof fn lemma_occurrence_is_a_part(before: Seq<char>, part: Seq<char>, after: Seq<char>, text: Seq<char>)
    ensures
        occurs(part, before + part + after),
        occurs(part, text) ==> exists|p: int|
            0 <= p && p + part.len() <= text.len() && #[trigger] text.subrange(p, p + part.len()) == part,
{
    let whole = before + part + after;
    let p = before.len() as int;
    assert(whole.skip(p).take(part.len() as int) =~= part);
    assert(begins(whole.skip(p), part));
    if occurs(part, text) {
        let q = choose|q: int| 0 <= q <= text.len() && begins(#[trigger] text.skip(q), part);
        assert(text.subrange(q, q + part.len()) =~= text.skip(q).take(part.len() as int));
    }
}

/// Where no secret begins, one character is copied and masking goes on behind it.
pub proof fn lemma_mask_copies_a_character(c: char, rest: Seq<char>, secrets: Seq<Seq<char>>)
    requires
        forall|i: int|
            0 <= i < secrets.len() && (#[trigger] secrets[i]).len() > 0 ==> !secrets[i].is_prefix_of(
                seq![c] + rest,
            ),
    ensures
        masked(seq![c] + rest, secrets) == seq![c] + masked(rest, secrets),
        masked(Seq::empty(), secrets) == Seq::<char>::empty(),
{
    let text = seq![c] + rest;
    assert forall|i: int| 0 <= i < secrets.len() && (#[trigger] secrets[i]).len() > 0 implies !begins(
        text,
        secrets[i],
    ) by {
        if begins(text, secrets[i]) {
            assert(text.take(secrets[i].len() as int) =~= text.subrange(0, secrets[i].len() as int));
            assert(secrets[i].is_prefix_of(text));
        }
    }
    lemma_nothing_begins(text, secrets);
    assert(text.skip(1) =~= rest);
    assert(text[0] == c);
}

proof fn lemma_nothing_begins(text: Seq<char>, secrets: Seq<Seq<char>>)
    requires
        forall|i: int|
            0 <= i < secrets.len() && (#[trigger] secrets[i]).len() > 0 ==> !begins(text, secrets[i]),
    ensures
        longest_secret(text, secrets) == 0,
    decreases secrets.len(),
{
    if secrets.len() > 0 {
        let front = secrets.drop_last();
        assert(forall|i: int| 0 <= i < front.len() ==> #[trigger] front[i] == secrets[i]);
        lemma_nothing_begins(text, front);
        assert(secrets.last() == secrets[secrets.len() - 1]);
    }
}

/// Where a secret begins and no longer one does, exactly three stars stand for it, and
/// masking goes on behind it.
pub proof fn lemma_mask_stars_a_secret(secrets: Seq<Seq<char>>, j: int, rest: Seq<char>)
    requires
        0 <= j < secrets.len(),
        secrets[j].len() > 0,
        forall|i: int|
            0 <= i < secrets.len() && (#[trigger] secrets[i]).is_prefix_of(secrets[j] + rest)
                ==> secrets[i].len() <= secrets[j].len(),
    ensures
        masked(secrets[j] + rest, secrets) == seq!['*', '*', '*'] + masked(rest, secrets),
{
    let text = secrets[j] + rest;
    assert(text.take(secrets[j].len() as int) =~= secrets[j]);
    lemma_longest_secret_wins(text, secrets, j);
    let n = longest_secret(text, secrets);
    let k = choose|k: int|
        0 <= k < secrets.len() && begins(text, #[trigger] secrets[k]) && secrets[k].len() == n;
    assert(text.take(secrets[k].len() as int) =~= text.subrange(0, secrets[k].len() as int));
    assert(secrets[k].is_prefix_of(text));
    assert(n == secrets[j].len());
    assert(text.skip(n as int) =~= rest);
}

/// A secret that neither begins nor ends with a star, and holds no three of them in a row,
/// stands nowhere in a masked text.
pub proof fn lemma_masked_text_holds_no_secret(
    text: Seq<char>,
    secrets: Seq<Seq<char>>,
    k: int,
    before: Seq<char>,
    after: Seq<char>,
)
    requires
        0 <= k < secrets.len(),
        secrets[k].len() > 0,
        secrets[k][0] != '*',
        secrets[k][secrets[k].len() - 1] != '*',
        forall|j: int|
            0 <= j && j + 2 < secrets[k].len() ==> !(#[trigger] secrets[k][j] == '*' && secrets[k][j + 1] == '*'
                && secrets[k][j + 2] == '*'),
    ensures
        masked(text, secrets) != before + secrets[k] + after,
{
    assert(!star_bound(secrets[k]));
    lemma_mask_removes_secrets(text, secrets, k);
    lemma_occurrence_is_a_part(before, secrets[k], after, text);
}

} // verus!
