//! Tables from pairs of texts to texts.
use vstd::prelude::*;

use crate::text::{same_text, texts};

verus! {

/// What a table holds.
pub type Cells = Map<(Seq<char>, Seq<char>), Seq<char>>;

spec fn keyed(entries: Seq<(String, String, String)>, key: (Seq<char>, Seq<char>)) -> bool {
    exists|i: int| 0 <= i < entries.len() && at_key(#[trigger] entries[i], key)
}

spec fn at_key(entry: (String, String, String), key: (Seq<char>, Seq<char>)) -> bool {
    entry.0@ == key.0 && entry.1@ == key.1
}

spec fn cells_of(entries: Seq<(String, String, String)>) -> Cells {
    Map::new(
        |key: (Seq<char>, Seq<char>)| keyed(entries, key),
        |key: (Seq<char>, Seq<char>)|
            entries[choose|i: int| 0 <= i < entries.len() && at_key(#[trigger] entries[i], key)].2@,
    )
}

spec fn distinct(entries: Seq<(String, String, String)>) -> bool {
    forall|i: int, j: int|
        0 <= i < j < entries.len() ==> !at_key(#[trigger] entries[i], ((#[trigger] entries[j]).0@, entries[j].1@))
}

proof fn lemma_entry(entries: Seq<(String, String, String)>, i: int)
    requires
        distinct(entries),
        0 <= i < entries.len(),
    ensures
        cells_of(entries).contains_key((entries[i].0@, entries[i].1@)),
        cells_of(entries)[(entries[i].0@, entries[i].1@)] == entries[i].2@,
{
    let key = (entries[i].0@, entries[i].1@);
    assert(at_key(entries[i], key));
    let k = choose|k: int| 0 <= k < entries.len() && at_key(#[trigger] entries[k], key);
    if k < i {
        assert(!at_key(entries[k], (entries[i].0@, entries[i].1@)));
    }
    if i < k {
        assert(!at_key(entries[i], (entries[k].0@, entries[k].1@)));
    }
}

proof fn lemma_remove(entries: Seq<(String, String, String)>, at: int)
    requires
        distinct(entries),
        0 <= at < entries.len(),
    ensures
        distinct(entries.remove(at)),
        cells_of(entries.remove(at)) == cells_of(entries).remove((entries[at].0@, entries[at].1@)),
{
    let kept = entries.remove(at);
    let gone = (entries[at].0@, entries[at].1@);
    assert forall|i: int, j: int| 0 <= i < j < kept.len() implies !at_key(
        #[trigger] kept[i],
        ((#[trigger] kept[j]).0@, kept[j].1@),
    ) by {
        let x = if i < at {
            i
        } else {
            i + 1
        };
        let y = if j < at {
            j
        } else {
            j + 1
        };
        assert(kept[i] == entries[x] && kept[j] == entries[y]);
    }
    assert forall|key: (Seq<char>, Seq<char>)| keyed(kept, key) == (keyed(entries, key) && key != gone) by {
        if keyed(kept, key) {
            let i = choose|i: int| 0 <= i < kept.len() && at_key(#[trigger] kept[i], key);
            let x = if i < at {
                i
            } else {
                i + 1
            };
            assert(entries[x] == kept[i]);
            assert(at_key(entries[x], key));
            if key == gone {
                if x < at {
                    assert(!at_key(entries[x], (entries[at].0@, entries[at].1@)));
                } else {
                    assert(!at_key(entries[at], (entries[x].0@, entries[x].1@)));
                }
            }
        }
        if keyed(entries, key) && key != gone {
            let i = choose|i: int| 0 <= i < entries.len() && at_key(#[trigger] entries[i], key);
            let x = if i < at {
                i
            } else {
                i - 1
            };
            assert(kept[x] == entries[i]);
        }
    }
    assert forall|key: (Seq<char>, Seq<char>)| keyed(kept, key) implies cells_of(kept)[key] == cells_of(entries)[key] by {
        let i = choose|i: int| 0 <= i < kept.len() && at_key(#[trigger] kept[i], key);
        let x = if i < at {
            i
        } else {
            i + 1
        };
        assert(entries[x] == kept[i]);
        lemma_entry(kept, i);
        lemma_entry(entries, x);
        assert(key == (kept[i].0@, kept[i].1@));
    }
    assert(cells_of(kept) =~= cells_of(entries).remove(gone));
}

proof fn lemma_push(entries: Seq<(String, String, String)>, extra: (String, String, String))
    requires
        distinct(entries),
        !keyed(entries, (extra.0@, extra.1@)),
    ensures
        distinct(entries.push(extra)),
        cells_of(entries.push(extra)) == cells_of(entries).insert((extra.0@, extra.1@), extra.2@),
{
    let more = entries.push(extra);
    let new = (extra.0@, extra.1@);
    assert forall|i: int, j: int| 0 <= i < j < more.len() implies !at_key(
        #[trigger] more[i],
        ((#[trigger] more[j]).0@, more[j].1@),
    ) by {
        if j < entries.len() {
            assert(more[i] == entries[i] && more[j] == entries[j]);
        } else {
            assert(more[i] == entries[i]);
        }
    }
    assert(more[entries.len() as int] == extra);
    assert forall|key: (Seq<char>, Seq<char>)| keyed(more, key) == (keyed(entries, key) || key == new) by {
        if keyed(more, key) && key != new {
            let i = choose|i: int| 0 <= i < more.len() && at_key(#[trigger] more[i], key);
            assert(entries[i] == more[i]);
        }
        if keyed(entries, key) {
            let i = choose|i: int| 0 <= i < entries.len() && at_key(#[trigger] entries[i], key);
            assert(entries[i] == more[i]);
        }
        if key == new {
            assert(at_key(more[entries.len() as int], key));
        }
    }
    assert forall|key: (Seq<char>, Seq<char>)| keyed(more, key) implies cells_of(more)[key] == cells_of(entries).insert(
        new,
        extra.2@,
    )[key] by {
        let i = choose|i: int| 0 <= i < more.len() && at_key(#[trigger] more[i], key);
        lemma_entry(more, i);
        assert(key == (more[i].0@, more[i].1@));
        if i < entries.len() {
            assert(entries[i] == more[i]);
            lemma_entry(entries, i);
            assert(key != new);
        }
    }
    assert(cells_of(more) =~= cells_of(entries).insert(new, extra.2@));
}

/// A table from pairs of texts to texts.
#[derive(Debug)]
pub struct PairTable {
    entries: Vec<(String, String, String)>,
}

impl View for PairTable {
    type V = Cells;

    closed spec fn view(&self) -> Cells {
        cells_of(self.entries@)
    }
}

impl PairTable {
    #[verifier::type_invariant]
    spec fn keys_distinct(&self) -> bool {
        distinct(self.entries@)
    }

    /// The empty table.
    pub fn new() -> (r: PairTable)
        ensures
            r@ == Cells::empty(),
    {
        let r = PairTable { entries: Vec::new() };
        assert(r@ =~= Cells::empty());
        r
    }

    fn find(&self, first: &str, second: &str) -> (r: Option<usize>)
        ensures
            match r {
                Some(i) => i < self.entries@.len() && at_key(self.entries@[i as int], (first@, second@)),
                None => !keyed(self.entries@, (first@, second@)),
            },
    {
        let mut i: usize = 0;
        while i < self.entries.len()
            invariant
                i <= self.entries@.len(),
                forall|j: int| 0 <= j < i ==> !at_key(#[trigger] self.entries@[j], (first@, second@)),
            decreases self.entries@.len() - i,
        {
            if same_text(self.entries[i].0.as_str(), first) && same_text(
                self.entries[i].1.as_str(),
                second,
            ) {
                return Some(i);
            }
            i = i + 1;
        }
        None
    }

    /// The value for a pair of keys.
    pub fn get(&self, first: &str, second: &str) -> (r: Option<String>)
        ensures
            match r {
                Some(value) => self@.contains_key((first@, second@)) && self@[(first@, second@)] == value@,
                None => !self@.contains_key((first@, second@)),
            },
    {
        proof {
            use_type_invariant(self);
        }
        match self.find(first, second) {
            Some(i) => {
                proof {
                    lemma_entry(self.entries@, i as int);
                }
                Some(self.entries[i].2.clone())
            },
            None => None,
        }
    }

    /// This table without a value for a pair of keys.
    pub fn without(self, first: &str, second: &str) -> (r: PairTable)
        ensures
            r@ == self@.remove((first@, second@)),
    {
        proof {
            use_type_invariant(&self);
        }
        let found = self.find(first, second);
        let ghost before = self.entries@;
        let mut entries = self.entries;
        match found {
            Some(i) => {
                entries.remove(i);
                proof {
                    lemma_remove(before, i as int);
                }
            },
            None => {
                proof {
                    assert(cells_of(before) =~= cells_of(before).remove((first@, second@)));
                }
            },
        }
        PairTable { entries }
    }

    /// This table with a value for a pair of keys, whatever stood there before.
    pub fn with(self, first: &str, second: &str, value: &str) -> (r: PairTable)
        ensures
            r@ == self@.insert((first@, second@), value@),
    {
        let ghost before = self@;
        let cleared = self.without(first, second);
        proof {
            use_type_invariant(&cleared);
        }
        let ghost kept = cleared.entries@;
        let mut entries = cleared.entries;
        let entry = (first.to_owned(), second.to_owned(), value.to_owned());
        proof {
            assert(!cells_of(kept).contains_key((first@, second@)));
            lemma_push(kept, entry);
            assert(before.remove((first@, second@)).insert((first@, second@), value@) =~= before.insert(
                (first@, second@),
                value@,
            ));
        }
        entries.push(entry);
        PairTable { entries }
    }

    /// The second keys that `first` has a value for other than `value`.
    pub fn others(&self, first: &str, value: &str) -> (r: Vec<String>)
        ensures
            forall|name: Seq<char>| #[trigger]
                texts(r@).contains(name) == (self@.contains_key((first@, name)) && self@[(first@, name)]
                    != value@),
    {
        proof {
            use_type_invariant(self);
        }
        let ghost entries = self.entries@;
        let mut out: Vec<String> = Vec::new();
        let mut i: usize = 0;
        while i < self.entries.len()
            invariant
                entries == self.entries@,
                i <= entries.len(),
                forall|name: Seq<char>| #[trigger]
                    texts(out@).contains(name) == (exists|j: int|
                        0 <= j < i && at_key(#[trigger] entries[j], (first@, name)) && entries[j].2@ != value@),
            decreases entries.len() - i,
        {
            let ghost before = out@;
            let hit = same_text(self.entries[i].0.as_str(), first) && !same_text(
                self.entries[i].2.as_str(),
                value,
            );
            if hit {
                out.push(self.entries[i].1.clone());
                assert(texts(out@) =~= texts(before).push(entries[i as int].1@));
            }
            proof {
                assert forall|name: Seq<char>| #[trigger]
                    texts(out@).contains(name) == (exists|j: int|
                        0 <= j < i + 1 && at_key(#[trigger] entries[j], (first@, name)) && entries[j].2@
                            != value@) by {
                    if texts(out@).contains(name) {
                        let k = choose|k: int| 0 <= k < texts(out@).len() && texts(out@)[k] == name;
                        if k < texts(before).len() {
                            assert(texts(before)[k] == name);
                            assert(texts(before).contains(name));
                        } else {
                            assert(at_key(entries[i as int], (first@, name)));
                        }
                    }
                    if exists|j: int|
                        0 <= j < i + 1 && at_key(#[trigger] entries[j], (first@, name)) && entries[j].2@
                            != value@ {
                        let j = choose|j: int|
                            0 <= j < i + 1 && at_key(#[trigger] entries[j], (first@, name)) && entries[j].2@
                                != value@;
                        if j < i {
                            assert(texts(before).contains(name));
                            let k = choose|k: int| 0 <= k < texts(before).len() && texts(before)[k] == name;
                            assert(texts(out@)[k] == name);
                        } else {
                            assert(texts(out@)[texts(before).len() as int] == name);
                        }
                    }
                }
            }
            i = i + 1;
        }
        proof {
            assert forall|name: Seq<char>| #[trigger]
                texts(out@).contains(name) == (self@.contains_key((first@, name)) && self@[(first@, name)]
                    != value@) by {
                if self@.contains_key((first@, name)) {
                    let k = choose|k: int| 0 <= k < entries.len() && at_key(#[trigger] entries[k], (first@, name));
                    lemma_entry(entries, k);
                }
                if texts(out@).contains(name) {
                    let j = choose|j: int|
                        0 <= j < entries.len() && at_key(#[trigger] entries[j], (first@, name)) && entries[j].2@
                            != value@;
                    lemma_entry(entries, j);
                    assert((entries[j].0@, entries[j].1@) == (first@, name));
                }
            }
        }
        out
    }
}

} // verus!
