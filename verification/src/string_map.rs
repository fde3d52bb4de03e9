//! Maps from text to text that list their entries in key order.
use vstd::prelude::*;

use crate::text::{same_text, to_chars};

verus! {

/// The order of texts by their first differing character; a text comes after its
/// own beginnings. It is the order of their UTF-8 encodings too.
pub open spec fn text_before(a: Seq<char>, b: Seq<char>) -> bool
    decreases a.len(),
{
    if b.len() == 0 {
        false
    } else if a.len() == 0 {
        true
    } else if a[0] == b[0] {
        text_before(a.skip(1), b.skip(1))
    } else {
        a[0] < b[0]
    }
}

proof fn lemma_before_trichotomy(a: Seq<char>, b: Seq<char>)
    ensures
        text_before(a, b) || text_before(b, a) || a == b,
        !(text_before(a, b) && text_before(b, a)),
        a == b ==> !text_before(a, b),
    decreases a.len(),
{
    if a.len() > 0 && b.len() > 0 && a[0] == b[0] {
        lemma_before_trichotomy(a.skip(1), b.skip(1));
        if a.skip(1) == b.skip(1) {
            assert(a =~= seq![a[0]] + a.skip(1));
            assert(b =~= seq![b[0]] + b.skip(1));
        }
    } else if a.len() == 0 && b.len() == 0 {
        assert(a =~= b);
    }
}

proof fn lemma_before_transitive(a: Seq<char>, b: Seq<char>, c: Seq<char>)
    requires
        text_before(a, b),
        text_before(b, c),
    ensures
        text_before(a, c),
    decreases a.len(),
{
    if a.len() > 0 && b.len() > 0 && c.len() > 0 && a[0] == b[0] && b[0] == c[0] {
        lemma_before_transitive(a.skip(1), b.skip(1), c.skip(1));
    }
}

fn comes_before(a: &str, b: &str) -> (r: bool)
    ensures
        r == text_before(a@, b@),
{
    let left = to_chars(a);
    let right = to_chars(b);
    let mut i: usize = 0;
    assert(left@.skip(0) =~= left@);
    assert(right@.skip(0) =~= right@);
    loop
        invariant
            i <= left@.len(),
            i <= right@.len(),
            left@ == a@,
            right@ == b@,
            text_before(left@, right@) == text_before(left@.skip(i as int), right@.skip(i as int)),
        decreases left@.len() - i,
    {
        if i == right.len() {
            return false;
        }
        if i == left.len() {
            return true;
        }
        if left[i] != right[i] {
            return left[i] < right[i];
        }
        assert(left@.skip(i as int).skip(1) =~= left@.skip(i + 1));
        assert(right@.skip(i as int).skip(1) =~= right@.skip(i + 1));
        i = i + 1;
    }
}

/// A list of keys with their values.
pub type Pairs = Seq<(Seq<char>, Seq<char>)>;

/// Whether the keys stand in strictly increasing order.
pub open spec fn ordered(pairs: Pairs) -> bool {
    forall|i: int, j: int| 0 <= i < j < pairs.len() ==> text_before((#[trigger] pairs[i]).0, (#[trigger] pairs[j]).0)
}

/// Whether `pairs` has an entry for `key`.
pub open spec fn has_key(pairs: Pairs, key: Seq<char>) -> bool {
    exists|i: int| 0 <= i < pairs.len() && (#[trigger] pairs[i]).0 == key
}

/// The map that a list of entries with distinct keys writes down.
pub open spec fn as_map(pairs: Pairs) -> Map<Seq<char>, Seq<char>> {
    Map::new(
        |key: Seq<char>| has_key(pairs, key),
        |key: Seq<char>| pairs[choose|i: int| 0 <= i < pairs.len() && (#[trigger] pairs[i]).0 == key].1,
    )
}

proof fn lemma_entry_is_value(pairs: Pairs, i: int)
    requires
        ordered(pairs),
        0 <= i < pairs.len(),
    ensures
        as_map(pairs).contains_key(pairs[i].0),
        as_map(pairs)[pairs[i].0] == pairs[i].1,
{
    let key = pairs[i].0;
    assert(has_key(pairs, key));
    let k = choose|k: int| 0 <= k < pairs.len() && (#[trigger] pairs[k]).0 == key;
    lemma_before_trichotomy(pairs[i].0, pairs[k].0);
    if k < i {
        assert(text_before(pairs[k].0, pairs[i].0));
    }
    if i < k {
        assert(text_before(pairs[i].0, pairs[k].0));
    }
}

/// Two ordered lists that write down the same map are the same list.
pub proof fn lemma_ordered_unique(a: Pairs, b: Pairs)
    requires
        ordered(a),
        ordered(b),
        as_map(a) == as_map(b),
    ensures
        a == b,
    decreases a.len(),
{
    if a.len() == 0 {
        if b.len() > 0 {
            lemma_entry_is_value(b, 0);
            assert(has_key(a, b[0].0));
        }
        assert(a =~= b);
    } else {
        lemma_entry_is_value(a, a.len() - 1);
        let last = a.last();
        assert(has_key(b, last.0));
        if b.len() > 0 {
            lemma_entry_is_value(b, b.len() - 1);
            assert(has_key(a, b.last().0));
            let k = choose|k: int| 0 <= k < b.len() && (#[trigger] b[k]).0 == last.0;
            let m = choose|m: int| 0 <= m < a.len() && (#[trigger] a[m]).0 == b.last().0;
            lemma_before_trichotomy(last.0, b.last().0);
            if k < b.len() - 1 {
                assert(text_before(b[k].0, b[b.len() - 1].0));
                if m < a.len() - 1 {
                    assert(text_before(a[m].0, a[a.len() - 1].0));
                }
            }
            assert(last.0 == b.last().0);
            assert(last == b.last());
            let x = a.drop_last();
            let y = b.drop_last();
            assert(ordered(x)) by {
                assert forall|i: int, j: int| 0 <= i < j < x.len() implies text_before(
                    (#[trigger] x[i]).0,
                    (#[trigger] x[j]).0,
                ) by {
                    assert(text_before(a[i].0, a[j].0));
                }
            }
            assert(ordered(y)) by {
                assert forall|i: int, j: int| 0 <= i < j < y.len() implies text_before(
                    (#[trigger] y[i]).0,
                    (#[trigger] y[j]).0,
                ) by {
                    assert(text_before(b[i].0, b[j].0));
                }
            }
            lemma_drop_last_map(a);
            lemma_drop_last_map(b);
            lemma_ordered_unique(x, y);
            assert(a =~= x.push(last));
            assert(b =~= y.push(last));
        }
    }
}

proof fn lemma_drop_last_map(pairs: Pairs)
    requires
        ordered(pairs),
        pairs.len() > 0,
    ensures
        as_map(pairs.drop_last()) =~= as_map(pairs).remove(pairs.last().0),
{
    let short = pairs.drop_last();
    assert(ordered(short)) by {
        assert forall|i: int, j: int| 0 <= i < j < short.len() implies text_before(
            (#[trigger] short[i]).0,
            (#[trigger] short[j]).0,
        ) by {
            assert(text_before(pairs[i].0, pairs[j].0));
        }
    }
    assert forall|key: Seq<char>| has_key(short, key) == (has_key(pairs, key) && key != pairs.last().0) by {
        if has_key(short, key) {
            let i = choose|i: int| 0 <= i < short.len() && (#[trigger] short[i]).0 == key;
            assert(pairs[i].0 == key);
            assert(text_before(pairs[i].0, pairs[pairs.len() - 1].0));
            lemma_before_trichotomy(pairs[i].0, pairs[pairs.len() - 1].0);
        }
        if has_key(pairs, key) && key != pairs.last().0 {
            let i = choose|i: int| 0 <= i < pairs.len() && (#[trigger] pairs[i]).0 == key;
            assert(short[i].0 == key);
        }
    }
    assert forall|key: Seq<char>| has_key(short, key) implies as_map(short)[key] == as_map(pairs)[key] by {
        let i = choose|i: int| 0 <= i < short.len() && (#[trigger] short[i]).0 == key;
        lemma_entry_is_value(short, i);
        lemma_entry_is_value(pairs, i);
    }
}

/// The texts of one entry.
pub open spec fn pair_value(pair: (String, String)) -> (Seq<char>, Seq<char>) {
    (pair.0@, pair.1@)
}

/// The texts of a list of entries.
pub open spec fn pair_list(list: Seq<(String, String)>) -> Pairs {
    Seq::new(list.len(), |i: int| pair_value(list[i]))
}

/// A map from text to text. Its entries are listed by increasing key, so two maps
/// with the same entries read the same however they were filled.
#[derive(Debug)]
pub struct StringMap {
    entries: Vec<(String, String)>,
}

impl View for StringMap {
    type V = Pairs;

    closed spec fn view(&self) -> Pairs {
        pair_list(self.entries@)
    }
}

impl Clone for StringMap {
    fn clone(&self) -> (r: StringMap)
        ensures
            r@ == self@,
    {
        proof {
            use_type_invariant(self);
        }
        let mut entries: Vec<(String, String)> = Vec::new();
        let mut i: usize = 0;
        while i < self.entries.len()
            invariant
                i <= self.entries@.len(),
                pair_list(entries@) == self@.take(i as int),
            decreases self.entries@.len() - i,
        {
            let ghost before = entries@;
            entries.push((self.entries[i].0.clone(), self.entries[i].1.clone()));
            i = i + 1;
            assert(pair_list(entries@) =~= pair_list(before).push(self@[i - 1]));
            assert(self@.take(i as int) =~= self@.take(i - 1).push(self@[i - 1]));
        }
        assert(self@.take(i as int) =~= self@);
        StringMap { entries }
    }
}

impl StringMap {
    #[verifier::type_invariant]
    spec fn in_order(&self) -> bool {
        ordered(self@)
    }

    /// The map that this list of entries writes down.
    pub open spec fn map(&self) -> Map<Seq<char>, Seq<char>> {
        as_map(self@)
    }

    /// The map without entries.
    pub fn new() -> (r: StringMap)
        ensures
            r@.len() == 0,
            r.map() == Map::<Seq<char>, Seq<char>>::empty(),
    {
        let r = StringMap { entries: Vec::new() };
        assert(r.map() =~= Map::<Seq<char>, Seq<char>>::empty());
        r
    }

    /// How many entries there are.
    pub fn len(&self) -> (r: usize)
        ensures
            r == self@.len(),
            ordered(self@),
    {
        proof {
            use_type_invariant(self);
        }
        self.entries.len()
    }

    /// The key of the entry at `index`, in key order.
    pub fn key(&self, index: usize) -> (r: &str)
        requires
            index < self@.len(),
        ensures
            r@ == self@[index as int].0,
    {
        self.entries[index].0.as_str()
    }

    /// The value of the entry at `index`, in key order.
    pub fn value(&self, index: usize) -> (r: &str)
        requires
            index < self@.len(),
        ensures
            r@ == self@[index as int].1,
    {
        self.entries[index].1.as_str()
    }

    /// The value for `key`.
    pub fn get(&self, key: &str) -> (r: Option<&str>)
        ensures
            match r {
                Some(value) => self.map().contains_key(key@) && value@ == self.map()[key@],
                None => !self.map().contains_key(key@),
            },
    {
        proof {
            use_type_invariant(self);
        }
        let mut i: usize = 0;
        while i < self.entries.len()
            invariant
                i <= self.entries@.len(),
                ordered(self@),
                forall|j: int| 0 <= j < i ==> (#[trigger] self@[j]).0 != key@,
            decreases self.entries@.len() - i,
        {
            if same_text(self.entries[i].0.as_str(), key) {
                proof {
                    assert(self@[i as int].0 == key@);
                    lemma_entry_is_value(self@, i as int);
                }
                return Some(self.entries[i].1.as_str());
            }
            assert(self@[i as int].0 != key@);
            i = i + 1;
        }
        None
    }

    /// This map with `value` for `key`, whatever stood there before.
    pub fn with(self, key: String, value: String) -> (r: StringMap)
        ensures
            ordered(r@),
            r.map() == self.map().insert(key@, value@),
    {
        proof {
            use_type_invariant(&self);
        }
        let ghost before = self@;
        let ghost entry = (key@, value@);
        let mut entries = self.entries;
        let mut at: usize = 0;
        while at < entries.len() && comes_before(entries[at].0.as_str(), key.as_str())
            invariant
                at <= entries@.len(),
                before == pair_list(entries@),
                forall|j: int| 0 <= j < at ==> text_before((#[trigger] before[j]).0, key@),
            decreases entries@.len() - at,
        {
            assert(before[at as int].0 == entries@[at as int].0@);
            at = at + 1;
        }
        if at < entries.len() && same_text(entries[at].0.as_str(), key.as_str()) {
            entries.remove(at);
            proof {
                assert(before[at as int].0 == key@);
                assert(pair_list(entries@) =~= before.remove(at as int));
            }
        }
        let ghost kept = pair_list(entries@);
        entries.insert(at, (key, value));
        let ghost after = pair_list(entries@);
        proof {
            assert(after =~= kept.insert(at as int, entry));
            lemma_insert_in_order(before, kept, at as int, entry);
        }
        StringMap { entries }
    }
}

proof fn lemma_insert_in_order(before: Pairs, kept: Pairs, at: int, entry: (Seq<char>, Seq<char>))
    requires
        ordered(before),
        0 <= at <= kept.len(),
        forall|j: int| 0 <= j < at ==> text_before((#[trigger] before[j]).0, entry.0),
        at < before.len() ==> !text_before(before[at].0, entry.0),
        (at < before.len() && before[at].0 == entry.0 && kept == before.remove(at)) || (kept == before
            && (at < before.len() ==> before[at].0 != entry.0)),
    ensures
        ordered(kept.insert(at, entry)),
        as_map(kept.insert(at, entry)) == as_map(before).insert(entry.0, entry.1),
{
    let after = kept.insert(at, entry);
    assert forall|j: int| at <= j < kept.len() implies text_before(entry.0, (#[trigger] kept[j]).0) by {
        lemma_before_trichotomy(before[at].0, entry.0);
        if kept == before {
            if j > at {
                assert(text_before(before[at].0, before[j].0));
                lemma_before_transitive(entry.0, before[at].0, before[j].0);
            }
        } else {
            assert(kept[j] == before[j + 1]);
            assert(text_before(before[at].0, before[j + 1].0));
        }
    }
    assert forall|j: int| 0 <= j < at implies #[trigger] kept[j] == before[j] by {}
    assert forall|i: int, j: int| 0 <= i < j < after.len() implies text_before(
        (#[trigger] after[i]).0,
        (#[trigger] after[j]).0,
    ) by {
        if i < at && j == at {
            assert(after[i] == kept[i]);
        } else if i == at {
            assert(after[j] == kept[j - 1]);
        } else if i < at && j > at {
            assert(after[i] == kept[i]);
            assert(after[j] == kept[j - 1]);
            lemma_before_transitive(kept[i].0, entry.0, kept[j - 1].0);
        } else if j < at {
            assert(text_before(before[i].0, before[j].0));
        } else {
            assert(after[i] == kept[i - 1]);
            assert(after[j] == kept[j - 1]);
            if kept == before {
                assert(text_before(before[i - 1].0, before[j - 1].0));
            } else {
                assert(text_before(before[i].0, before[j].0));
            }
        }
    }
    assert(after[at] == entry);
    let want = as_map(before).insert(entry.0, entry.1);
    assert forall|key: Seq<char>| has_key(after, key) == (has_key(before, key) || key == entry.0) by {
        if has_key(after, key) && key != entry.0 {
            let i = choose|i: int| 0 <= i < after.len() && (#[trigger] after[i]).0 == key;
            let k = if i < at {
                i
            } else {
                i - 1
            };
            assert(after[i] == kept[k]);
            if kept == before || k < at {
                assert(before[k].0 == key);
            } else {
                assert(before[k + 1].0 == key);
            }
        }
        if has_key(before, key) && key != entry.0 {
            let i = choose|i: int| 0 <= i < before.len() && (#[trigger] before[i]).0 == key;
            if kept == before {
                if i < at {
                    assert(after[i] == before[i]);
                } else {
                    assert(after[i + 1] == before[i]);
                }
            } else {
                if i < at {
                    assert(after[i] == before[i]);
                } else {
                    assert(after[i] == before[i]);
                }
            }
        }
    }
    assert forall|key: Seq<char>| has_key(after, key) implies as_map(after)[key] == want[key] by {
        let i = choose|i: int| 0 <= i < after.len() && (#[trigger] after[i]).0 == key;
        lemma_entry_is_value(after, i);
        if key == entry.0 {
            lemma_entry_is_value(after, at);
        } else {
            let k = if i < at {
                i
            } else {
                i - 1
            };
            assert(after[i] == kept[k]);
            if kept == before || k < at {
                assert(before[k] == after[i]);
                lemma_entry_is_value(before, k);
            } else {
                assert(before[k + 1] == after[i]);
                lemma_entry_is_value(before, k + 1);
            }
        }
    }
    assert(as_map(after) =~= want);
}

/// Texts are ordered by their first difference: one comes before another if and only if,
/// after a common beginning, it ends first or has the smaller character.
pub proof fn lemma_order_is_by_the_first_difference(a: Seq<char>, b: Seq<char>)
    ensures
        text_before(a, b) == (exists|n: int|
            0 <= n < b.len() && n <= a.len() && #[trigger] a.take(n) == b.take(n) && (n == a.len() || a[n]
                < b[n])),
    decreases a.len(),
{
    if text_before(a, b) {
        if a.len() == 0 {
            assert(a.take(0) =~= b.take(0));
        } else if a[0] == b[0] {
            lemma_order_is_by_the_first_difference(a.skip(1), b.skip(1));
            let m = choose|n: int|
                0 <= n < b.skip(1).len() && n <= a.skip(1).len() && #[trigger] a.skip(1).take(n) == b.skip(
                    1,
                ).take(n) && (n == a.skip(1).len() || a.skip(1)[n] < b.skip(1)[n]);
            assert(a.take(m + 1) =~= b.take(m + 1)) by {
                assert forall|i: int| 0 <= i < m + 1 implies a[i] == b[i] by {
                    if i > 0 {
                        assert(a.skip(1).take(m)[i - 1] == b.skip(1).take(m)[i - 1]);
                    }
                }
            }
        } else {
            assert(a.take(0) =~= b.take(0));
        }
    }
    if exists|n: int|
        0 <= n < b.len() && n <= a.len() && #[trigger] a.take(n) == b.take(n) && (n == a.len() || a[n]
            < b[n]) {
        let n = choose|n: int|
            0 <= n < b.len() && n <= a.len() && #[trigger] a.take(n) == b.take(n) && (n == a.len() || a[n]
                < b[n]);
        if n > 0 {
            assert(a.take(n)[0] == b.take(n)[0]);
            lemma_order_is_by_the_first_difference(a.skip(1), b.skip(1));
            assert(a.skip(1).take(n - 1) =~= a.take(n).skip(1));
            assert(b.skip(1).take(n - 1) =~= b.take(n).skip(1));
            assert(a.skip(1).take(n - 1) == b.skip(1).take(n - 1));
        }
    }
}

/// A list in order holds what it lists: each of its keys has the value that stands beside
/// it, and no other key has one.
pub proof fn lemma_listed_pairs_are_the_map(pairs: Pairs, i: int, key: Seq<char>)
    requires
        ordered(pairs),
    ensures
        0 <= i < pairs.len() ==> as_map(pairs).contains_key(pairs[i].0) && as_map(pairs)[pairs[i].0]
            == pairs[i].1,
        as_map(pairs).contains_key(key) == (exists|j: int| 0 <= j < pairs.len() && (#[trigger] pairs[j]).0 == key),
{
    if 0 <= i < pairs.len() {
        lemma_entry_is_value(pairs, i);
    }
}

} // verus!
