//! `${name}` expansion.
use vstd::prelude::*;
use vstd::string::*;

use crate::string_map::StringMap;
use crate::text::{slice_text, to_chars};

verus! {

/// The texts that names stand for.
pub type Names = Map<Seq<char>, Seq<char>>;

/// The length of what stands before the first `}`; `None` where there is none.
pub open spec fn name_len(text: Seq<char>) -> Option<nat>
    decreases text.len(),
{
    if text.len() == 0 {
        None
    } else if text[0] == '}' {
        Some(0)
    } else {
        match name_len(text.skip(1)) {
            Some(n) => Some(n + 1),
            None => None,
        }
    }
}

/// What `name` stands for: a scenario variable wins, the captured environment is
/// the fallback, and an unknown name keeps its placeholder.
pub open spec fn meaning(variables: Names, fallback: Names, name: Seq<char>) -> Seq<char> {
    if variables.contains_key(name) {
        variables[name]
    } else if fallback.contains_key(name) {
        fallback[name]
    } else {
        seq!['$', '{'] + name + seq!['}']
    }
}

/// `text` with every placeholder replaced, in one pass from left to right: `$$`
/// is a literal `$`, `${name}` is what the name stands for, and nothing that was
/// put in is looked at again.
pub open spec fn expanded(variables: Names, fallback: Names, text: Seq<char>) -> Seq<char>
    decreases text.len(),
{
    if text.len() == 0 {
        text
    } else if text.len() > 1 && text[0] == '$' && text[1] == '$' {
        seq!['$'] + expanded(variables, fallback, text.skip(2))
    } else if text.len() > 1 && text[0] == '$' && text[1] == '{' && name_len(text.skip(2)) is Some {
        let n = name_len(text.skip(2))->0 as int;
        if 2 + n < text.len() {
            meaning(variables, fallback, text.subrange(2, 2 + n)) + expanded(
                variables,
                fallback,
                text.skip(n + 3),
            )
        } else {
            Seq::empty()
        }
    } else {
        seq![text[0]] + expanded(variables, fallback, text.skip(1))
    }
}

proof fn lemma_name_len(text: Seq<char>)
    ensures
        match name_len(text) {
            Some(n) => n < text.len() && text[n as int] == '}' && forall|i: int|
                0 <= i < n ==> #[trigger] text[i] != '}',
            None => forall|i: int| 0 <= i < text.len() ==> #[trigger] text[i] != '}',
        },
    decreases text.len(),
{
    if text.len() > 0 && text[0] != '}' {
        let rest = text.skip(1);
        lemma_name_len(rest);
        assert forall|i: int|
            0 <= i < text.len() && (name_len(text) is Some ==> i < name_len(text)->0) implies #[trigger] text[i]
            != '}' by {
            if i > 0 {
                assert(rest[i - 1] == text[i]);
            }
        }
    }
}

proof fn lemma_name_len_is(text: Seq<char>, n: int)
    requires
        0 <= n < text.len(),
        text[n] == '}',
        forall|i: int| 0 <= i < n ==> #[trigger] text[i] != '}',
    ensures
        name_len(text) == Some(n as nat),
{
    lemma_name_len(text);
    assert(name_len(text) is Some);
    let m = name_len(text)->0 as int;
    if n < m {
        assert(text[n] != '}');
    }
    if m < n {
        assert(text[m] != '}');
    }
}

/// Text without a `$` is left alone.
pub proof fn lemma_expand_keeps_plain_text(variables: Names, fallback: Names, text: Seq<char>)
    requires
        !text.contains('$'),
    ensures
        expanded(variables, fallback, text) == text,
    decreases text.len(),
{
    if text.len() > 0 {
        assert(text.contains(text[0]));
        assert(!text.skip(1).contains('$')) by {
            if text.skip(1).contains('$') {
                let k = choose|k: int| 0 <= k < text.skip(1).len() && text.skip(1)[k] == '$';
                assert(text[k + 1] == '$');
            }
        }
        lemma_expand_keeps_plain_text(variables, fallback, text.skip(1));
        assert(seq![text[0]] + text.skip(1) =~= text);
    }
}

/// A placeholder is replaced by what its name stands for, whatever follows it, and
/// that replacement is not expanded again.
pub proof fn lemma_expand_placeholder(variables: Names, fallback: Names, name: Seq<char>, rest: Seq<char>)
    requires
        !name.contains('}'),
    ensures
        expanded(variables, fallback, seq!['$', '{'] + name + seq!['}'] + rest) == meaning(
            variables,
            fallback,
            name,
        ) + expanded(variables, fallback, rest),
{
    let text = seq!['$', '{'] + name + seq!['}'] + rest;
    let n = name.len() as int;
    let inner = text.skip(2);
    assert(inner =~= name + seq!['}'] + rest);
    assert forall|i: int| 0 <= i < n implies #[trigger] inner[i] != '}' by {
        assert(inner[i] == name[i]);
        assert(name.contains(name[i]));
    }
    lemma_name_len_is(inner, n);
    assert(text.subrange(2, 2 + n) =~= name);
    assert(text.skip(n + 3) =~= rest);
}

/// `$$` is a literal `$`, whatever follows it.
pub proof fn lemma_expand_dollar(variables: Names, fallback: Names, rest: Seq<char>)
    ensures
        expanded(variables, fallback, seq!['$', '$'] + rest) == seq!['$'] + expanded(
            variables,
            fallback,
            rest,
        ),
{
    let text = seq!['$', '$'] + rest;
    assert(text.skip(2) =~= rest);
}

fn find_close(text: &[char], from: usize) -> (r: Option<usize>)
    requires
        from <= text@.len(),
    ensures
        match r {
            Some(end) => from <= end < text@.len() && name_len(text@.skip(from as int)) == Some(
                (end - from) as nat,
            ),
            None => name_len(text@.skip(from as int)) is None,
        },
{
    let ghost rest = text@.skip(from as int);
    let mut end: usize = from;
    while end < text.len()
        invariant
            from <= end <= text@.len(),
            rest == text@.skip(from as int),
            forall|i: int| 0 <= i < end - from ==> #[trigger] rest[i] != '}',
        decreases text@.len() - end,
    {
        assert(rest[end - from] == text@[end as int]);
        if text[end] == '}' {
            proof {
                lemma_name_len_is(rest, end - from);
            }
            return Some(end);
        }
        end = end + 1;
    }
    proof {
        lemma_name_len(rest);
        if name_len(rest) is Some {
            assert(rest[name_len(rest)->0 as int] != '}');
        }
    }
    None
}

/// Expand the `${name}` placeholders of `input`: `variables` first, then
/// `fallback`; an unknown name stays as it is written.
pub fn expand_with(variables: &StringMap, fallback: &StringMap, input: &str) -> (r: String)
    ensures
        r@ == expanded(variables.map(), fallback.map(), input@),
{
    let chars = to_chars(input);
    let ghost vars = variables.map();
    let ghost env = fallback.map();
    let mut out = String::new();
    let mut at: usize = 0;
    assert(chars@.skip(0) =~= chars@);
    assert(out@ + expanded(vars, env, chars@) =~= expanded(vars, env, chars@));
    while at < chars.len()
        invariant
            at <= chars@.len(),
            vars == variables.map(),
            env == fallback.map(),
            out@ + expanded(vars, env, chars@.skip(at as int)) == expanded(vars, env, chars@),
        decreases chars@.len() - at,
    {
        let ghost rest = chars@.skip(at as int);
        let ghost before = out@;
        let more = at + 1 < chars.len();
        let close: Option<usize> = if more && chars[at] == '$' && chars[at + 1] == '{' {
            assert(rest.skip(2) =~= chars@.skip(at + 2));
            find_close(chars.as_slice(), at + 2)
        } else {
            None
        };
        if more && chars[at] == '$' && chars[at + 1] == '$' {
            out.push('$');
            assert(rest.skip(2) =~= chars@.skip(at + 2));
            at = at + 2;
        } else if let Some(end) = close {
            let name = slice_text(chars.as_slice(), at + 2, end);
            let ghost n = end - at - 2;
            assert(rest.subrange(2, 2 + n) =~= name@);
            assert(rest.skip(n + 3) =~= chars@.skip(end + 1));
            match variables.get(name.as_str()) {
                Some(value) => {
                    out.append(value);
                },
                None => match fallback.get(name.as_str()) {
                    Some(value) => {
                        out.append(value);
                    },
                    None => {
                        let literal = slice_text(chars.as_slice(), at, end + 1);
                        assert(literal@ =~= seq!['$', '{'] + name@ + seq!['}']) by {
                            lemma_name_len(rest.skip(2));
                        }
                        out.append(literal.as_str());
                    },
                },
            }
            assert(out@ == before + meaning(vars, env, name@));
            at = end + 1;
        } else {
            out.push(chars[at]);
            assert(rest.skip(1) =~= chars@.skip(at + 1));
            at = at + 1;
        }
        assert(out@ + expanded(vars, env, chars@.skip(at as int)) =~= before + expanded(vars, env, rest));
    }
    assert(out@ =~= expanded(vars, env, chars@));
    out
}

/// A character other than `$` is copied and has no bearing on what follows it; the
/// empty text stays empty.
pub proof fn lemma_expand_copies(variables: Names, fallback: Names, c: char, rest: Seq<char>)
    requires
        c != '$',
    ensures
        expanded(variables, fallback, seq![c] + rest) == seq![c] + expanded(
            variables,
            fallback,
            rest,
        ),
        expanded(variables, fallback, Seq::empty()) == Seq::<char>::empty(),
{
    let text = seq![c] + rest;
    assert(text[0] == c);
    assert(text.skip(1) =~= rest);
}

/// A `$` that begins neither `$$` nor `${` is copied, and so is one that ends the text.
pub proof fn lemma_expand_copies_lone_dollar(variables: Names, fallback: Names, rest: Seq<char>)
    requires
        rest.len() > 0 ==> rest[0] != '$' && rest[0] != '{',
    ensures
        expanded(variables, fallback, seq!['$'] + rest) == seq!['$'] + expanded(
            variables,
            fallback,
            rest,
        ),
{
    let text = seq!['$'] + rest;
    assert(text[0] == '$');
    assert(text.skip(1) =~= rest);
    if rest.len() > 0 {
        assert(text[1] == rest[0]);
    }
}

/// A `${` without a `}` after it is copied, and what follows it is still expanded.
pub proof fn lemma_expand_copies_unclosed(variables: Names, fallback: Names, rest: Seq<char>)
    requires
        !rest.contains('}'),
    ensures
        expanded(variables, fallback, seq!['$', '{'] + rest) == seq!['$', '{'] + expanded(
            variables,
            fallback,
            rest,
        ),
{
    let text = seq!['$', '{'] + rest;
    let tail = seq!['{'] + rest;
    assert(text.skip(2) =~= rest);
    assert(text.skip(1) =~= tail);
    lemma_name_len(rest);
    if name_len(rest) is Some {
        assert(rest.contains(rest[name_len(rest)->0 as int]));
    }
    lemma_expand_copies(variables, fallback, '{', rest);
    assert(text[0] == '$' && text[1] == '{');
    assert(expanded(variables, fallback, text) == seq!['$'] + expanded(variables, fallback, tail));
    assert(seq!['$'] + (seq!['{'] + expanded(variables, fallback, rest)) =~= seq!['$', '{']
        + expanded(variables, fallback, rest));
}

/// Text without a `$` has no bearing on what follows it, however long it is.
pub proof fn lemma_expand_after_plain_text(
    variables: Names,
    fallback: Names,
    plain: Seq<char>,
    rest: Seq<char>,
)
    requires
        !plain.contains('$'),
    ensures
        expanded(variables, fallback, plain + rest) == plain + expanded(variables, fallback, rest),
    decreases plain.len(),
{
    if plain.len() == 0 {
        assert(plain + rest =~= rest);
        assert(plain + expanded(variables, fallback, rest) =~= expanded(variables, fallback, rest));
    } else {
        let tail = plain.skip(1);
        assert(plain.contains(plain[0]));
        assert(!tail.contains('$')) by {
            if tail.contains('$') {
                let k = choose|k: int| 0 <= k < tail.len() && tail[k] == '$';
                assert(plain[k + 1] == '$');
            }
        }
        lemma_expand_after_plain_text(variables, fallback, tail, rest);
        assert(plain + rest =~= seq![plain[0]] + (tail + rest));
        lemma_expand_copies(variables, fallback, plain[0], tail + rest);
        assert(seq![plain[0]] + (tail + expanded(variables, fallback, rest)) =~= plain + expanded(
            variables,
            fallback,
            rest,
        ));
    }
}

/// Wherever a placeholder stands after text without a `$`: it becomes the scenario's own
/// value for the name, else the value that the environment has for it, else it stays as
/// it is written; and what follows it is expanded as if it stood alone.
pub proof fn lemma_expand_looks_names_up(
    variables: Names,
    fallback: Names,
    plain: Seq<char>,
    name: Seq<char>,
    rest: Seq<char>,
)
    requires
        !plain.contains('$'),
        !name.contains('}'),
    ensures
        ({
            let text = plain + seq!['$', '{'] + name + seq!['}'] + rest;
            let after = expanded(variables, fallback, rest);
            &&& variables.contains_key(name) ==> expanded(variables, fallback, text) == plain
                + variables[name] + after
            &&& !variables.contains_key(name) && fallback.contains_key(name) ==> expanded(
                variables,
                fallback,
                text,
            ) == plain + fallback[name] + after
            &&& !variables.contains_key(name) && !fallback.contains_key(name) ==> expanded(
                variables,
                fallback,
                text,
            ) == plain + seq!['$', '{'] + name + seq!['}'] + after
        }),
{
    let tail = seq!['$', '{'] + name + seq!['}'] + rest;
    let after = expanded(variables, fallback, rest);
    assert(plain + seq!['$', '{'] + name + seq!['}'] + rest =~= plain + tail);
    lemma_expand_placeholder(variables, fallback, name, rest);
    lemma_expand_after_plain_text(variables, fallback, plain, tail);
    let whole = expanded(variables, fallback, plain + tail);
    if variables.contains_key(name) {
        assert(whole =~= plain + variables[name] + after);
    } else if fallback.contains_key(name) {
        assert(whole =~= plain + fallback[name] + after);
    } else {
        assert(whole =~= plain + seq!['$', '{'] + name + seq!['}'] + after);
    }
}

} // verus!
