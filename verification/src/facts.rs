//! What the kernel has said so far about a filesystem.
//!
//! The resolver decides on paths without touching the disk. It reads a table of
//! answers; where one that it needs is missing, it names the question. The caller
//! puts that question to the kernel, records the answer and asks again.
//!
//! A [`World`] is a filesystem that has an answer to every question. What the
//! resolver concludes from a table holds in every world that agrees with it.
use vstd::prelude::*;

use crate::path::{copy_path, parts, same_path, Component, Part, Platform};
use crate::rawpath::{parse_path, parsed};
use crate::safepath::{OsError, Traversability};

verus! {

/// What `lstat` says of a name.
#[derive(Debug, Clone, Copy, PartialEq, Eq, Structural)]
pub enum EntryKind {
    /// The call failed: nothing is there.
    Missing,
    /// Something other than a symbolic link.
    Plain,
    /// A symbolic link.
    Link,
}

/// What `stat` says of a path, following links as an open would.
#[derive(Debug, Clone, Copy, PartialEq, Eq, Structural)]
pub enum Reach {
    /// The path leads to something.
    Reached,
    /// The path leads to something that does not exist.
    Missing,
    /// The kernel refuses to follow the path.
    Refused,
}

/// What `readlink` says of a path.
#[derive(Debug, PartialEq, Eq)]
pub enum LinkRead {
    /// A link, with its target.
    Target(Vec<Component>),
    /// Not a link, or not there: the chain ends here.
    End,
    /// The kernel refuses to resolve the path.
    Refused,
}

/// The mathematical value of a [`LinkRead`].
pub ghost enum LinkView {
    Target(Seq<Part>),
    End,
    Refused,
}

impl View for LinkRead {
    type V = LinkView;

    open spec fn view(&self) -> LinkView {
        match *self {
            LinkRead::Target(path) => LinkView::Target(parts(path@)),
            LinkRead::End => LinkView::End,
            LinkRead::Refused => LinkView::Refused,
        }
    }
}

/// What a name is.
pub open spec fn entry_seen(outcome: Result<bool, OsError>) -> EntryKind {
    match outcome {
        Ok(link) => if link {
            EntryKind::Link
        } else {
            EntryKind::Plain
        },
        Err(_) => EntryKind::Missing,
    }
}

/// Where a path leads.
pub open spec fn reach_seen(outcome: Result<(), OsError>) -> Reach {
    match outcome {
        Ok(()) => Reach::Reached,
        Err(e) => if e is NotFound {
            Reach::Missing
        } else {
            Reach::Refused
        },
    }
}

/// What a link points at.
pub open spec fn link_seen(outcome: Result<Vec<u8>, OsError>) -> RawLink {
    match outcome {
        Ok(raw) => RawLink::Target(raw),
        Err(e) => if e is Invalid || e is NotFound {
            RawLink::End
        } else {
            RawLink::Refused
        },
    }
}

/// What a name is, from what `lstat` gave: whether it is a link.
pub fn entry_of(outcome: Result<bool, OsError>) -> (r: EntryKind)
    ensures
        r == entry_seen(outcome),
        r is Missing == outcome is Err,
        r is Link == (outcome matches Ok(link) && link),
        r is Plain == (outcome matches Ok(link) && !link),
{
    match outcome {
        Ok(true) => EntryKind::Link,
        Ok(false) => EntryKind::Plain,
        Err(_) => EntryKind::Missing,
    }
}

/// Where a path leads, from what `stat` gave. That nothing is there is no refusal:
/// a file that is not recorded yet is the ordinary case.
pub fn reach_of(outcome: Result<(), OsError>) -> (r: Reach)
    ensures
        r == reach_seen(outcome),
        r is Reached == outcome is Ok,
        r is Missing == (outcome matches Err(e) && e is NotFound),
        r is Refused == (outcome matches Err(e) && !(e is NotFound)),
{
    match outcome {
        Ok(()) => Reach::Reached,
        Err(OsError::NotFound) => Reach::Missing,
        Err(_) => Reach::Refused,
    }
}

/// What a link points at, from what `readlink` gave. What is no link, and what is
/// not there, ends a chain; any other failure is the kernel's refusal.
pub fn link_of(outcome: Result<Vec<u8>, OsError>) -> (r: RawLink)
    ensures
        r == link_seen(outcome),
        match outcome {
            Ok(raw) => r == RawLink::Target(raw),
            Err(e) => if e is Invalid || e is NotFound {
                r is End
            } else {
                r is Refused
            },
        },
{
    match outcome {
        Ok(raw) => RawLink::Target(raw),
        Err(OsError::Invalid) => RawLink::End,
        Err(OsError::NotFound) => RawLink::End,
        Err(_) => RawLink::Refused,
    }
}

/// What `readlink` answered, with a target as bytes.
#[derive(Debug, PartialEq, Eq)]
pub enum RawLink {
    /// A link, with its target.
    Target(Vec<u8>),
    /// Not a link, or not there.
    End,
    /// The kernel refuses to resolve the path.
    Refused,
}

/// What a raw answer says of a link.
pub open spec fn link_value(answer: RawLink, platform: Platform) -> LinkView {
    match answer {
        RawLink::Target(raw) => LinkView::Target(parsed(raw@, platform)),
        RawLink::End => LinkView::End,
        RawLink::Refused => LinkView::Refused,
    }
}

/// The path that raw bytes denote, where there are any.
pub open spec fn parsed_value(raw: Option<Vec<u8>>, platform: Platform) -> Option<Seq<Part>> {
    match raw {
        Some(bytes) => Some(parsed(bytes@, platform)),
        None => None,
    }
}

/// The device and inode numbers of a directory.
pub type DirIdentity = (u64, u64);

/// A filesystem: an answer to every question.
pub ghost struct World {
    /// The platform whose rules its paths follow.
    pub platform: Platform,
    /// Whether the kernel descends through a path.
    pub traverse: spec_fn(Seq<Part>) -> Traversability,
    /// The canonical form of a path that exists.
    pub canonical: spec_fn(Seq<Part>) -> Option<Seq<Part>>,
    /// What stands at a name.
    pub entry: spec_fn(Seq<Part>) -> EntryKind,
    /// Where a path leads.
    pub reach: spec_fn(Seq<Part>) -> Reach,
    /// What a link points at.
    pub link: spec_fn(Seq<Part>) -> LinkView,
    /// The directory that a path names.
    pub identity: spec_fn(Seq<Part>) -> Option<DirIdentity>,
    /// The directory that the held workspace descriptor refers to.
    pub anchor: Option<DirIdentity>,
}

/// A question for the kernel.
#[derive(Debug, PartialEq, Eq)]
pub enum Query {
    /// Does the kernel descend through this path?
    Traverse(Vec<Component>),
    /// What is the canonical form of this path?
    Canonical(Vec<Component>),
    /// What stands at this name, links not followed?
    Entry(Vec<Component>),
    /// Where does this path lead, links followed?
    Reach(Vec<Component>),
    /// What does this link point at?
    Link(Vec<Component>),
    /// Which directory does this path name?
    Identity(Vec<Component>),
    /// Which directory does the held descriptor refer to?
    Anchor,
}

/// The mathematical value of a [`Query`].
pub ghost enum QueryView {
    Traverse(Seq<Part>),
    Canonical(Seq<Part>),
    Entry(Seq<Part>),
    Reach(Seq<Part>),
    Link(Seq<Part>),
    Identity(Seq<Part>),
    Anchor,
}

impl View for Query {
    type V = QueryView;

    open spec fn view(&self) -> QueryView {
        match *self {
            Query::Traverse(path) => QueryView::Traverse(parts(path@)),
            Query::Canonical(path) => QueryView::Canonical(parts(path@)),
            Query::Entry(path) => QueryView::Entry(parts(path@)),
            Query::Reach(path) => QueryView::Reach(parts(path@)),
            Query::Link(path) => QueryView::Link(parts(path@)),
            Query::Identity(path) => QueryView::Identity(parts(path@)),
            Query::Anchor => QueryView::Anchor,
        }
    }
}

/// An association from paths to answers, in which the first answer stays.
#[derive(Debug)]
struct Table<A> {
    entries: Vec<(Vec<Component>, A)>,
}

spec fn first_entry<A>(entries: Seq<(Vec<Component>, A)>, path: Seq<Part>) -> Option<A>
    decreases entries.len(),
{
    if entries.len() == 0 {
        None
    } else if parts(entries[0].0@) == path {
        Some(entries[0].1)
    } else {
        first_entry(entries.skip(1), path)
    }
}

proof fn lemma_first_entry_push<A>(
    entries: Seq<(Vec<Component>, A)>,
    extra: (Vec<Component>, A),
    path: Seq<Part>,
)
    ensures
        first_entry(entries.push(extra), path) == match first_entry(entries, path) {
            Some(a) => Some(a),
            None => if parts(extra.0@) == path {
                Some(extra.1)
            } else {
                None
            },
        },
    decreases entries.len(),
{
    reveal_with_fuel(first_entry, 2);
    if entries.len() > 0 {
        lemma_first_entry_push(entries.skip(1), extra, path);
        assert(entries.push(extra).skip(1) =~= entries.skip(1).push(extra));
    } else {
        assert(entries.push(extra).skip(1) =~= entries);
    }
}

impl<A> Table<A> {
    spec fn get(&self, path: Seq<Part>) -> Option<A> {
        first_entry(self.entries@, path)
    }

    fn new() -> (r: Self)
        ensures
            forall|path: Seq<Part>| #[trigger] r.get(path) is None,
    {
        Table { entries: Vec::new() }
    }

    fn find(&self, path: &[Component]) -> (r: Option<&A>)
        ensures
            match r {
                Some(a) => self.get(parts(path@)) == Some(*a),
                None => self.get(parts(path@)) is None,
            },
    {
        let mut i: usize = 0;
        assert(self.entries@.skip(0) =~= self.entries@);
        while i < self.entries.len()
            invariant
                i <= self.entries@.len(),
                self.get(parts(path@)) == first_entry(self.entries@.skip(i as int), parts(path@)),
            decreases self.entries@.len() - i,
        {
            if same_path(self.entries[i].0.as_slice(), path) {
                return Some(&self.entries[i].1);
            }
            assert(self.entries@.skip(i as int).skip(1) =~= self.entries@.skip(i + 1));
            i = i + 1;
        }
        None
    }

    fn learn(&mut self, path: Vec<Component>, answer: A)
        ensures
            forall|p: Seq<Part>| #[trigger]
                final(self).get(p) == match old(self).get(p) {
                    Some(a) => Some(a),
                    None => if p == parts(path@) {
                        Some(answer)
                    } else {
                        None
                    },
                },
    {
        let ghost before = self.entries@;
        let ghost extra = (path, answer);
        self.entries.push((path, answer));
        proof {
            assert forall|p: Seq<Part>| #[trigger]
                self.get(p) == match first_entry(before, p) {
                    Some(a) => Some(a),
                    None => if p == parts(extra.0@) {
                        Some(extra.1)
                    } else {
                        None
                    },
                } by {
                lemma_first_entry_push(before, extra, p);
            }
        }
    }
}

/// The answers gathered so far.
#[derive(Debug)]
pub struct Facts {
    platform: Platform,
    traverse: Table<Traversability>,
    canonical: Table<Option<Vec<Component>>>,
    entry: Table<EntryKind>,
    reach: Table<Reach>,
    link: Table<LinkRead>,
    identity: Table<Option<DirIdentity>>,
    anchor: Option<Option<DirIdentity>>,
}

/// The value of an optional path.
pub open spec fn path_value(path: Option<Vec<Component>>) -> Option<Seq<Part>> {
    match path {
        Some(p) => Some(parts(p@)),
        None => None,
    }
}

impl Facts {
    /// Whether the table holds an answer to `query`.
    pub closed spec fn knows(&self, query: QueryView) -> bool {
        match query {
            QueryView::Traverse(path) => self.traverse.get(path) is Some,
            QueryView::Canonical(path) => self.canonical.get(path) is Some,
            QueryView::Entry(path) => self.entry.get(path) is Some,
            QueryView::Reach(path) => self.reach.get(path) is Some,
            QueryView::Link(path) => self.link.get(path) is Some,
            QueryView::Identity(path) => self.identity.get(path) is Some,
            QueryView::Anchor => self.anchor is Some,
        }
    }

    /// Whether every answer in the table is the one that `world` gives.
    pub closed spec fn holds_in(&self, world: World) -> bool {
        &&& world.platform == self.platform
        &&& forall|p: Seq<Part>| (#[trigger] self.traverse.get(p)) matches Some(a) ==> (world.traverse)(p) == a
        &&& forall|p: Seq<Part>|
            (#[trigger] self.canonical.get(p)) matches Some(a) ==> (world.canonical)(p) == path_value(a)
        &&& forall|p: Seq<Part>| (#[trigger] self.entry.get(p)) matches Some(a) ==> (world.entry)(p) == a
        &&& forall|p: Seq<Part>| (#[trigger] self.reach.get(p)) matches Some(a) ==> (world.reach)(p) == a
        &&& forall|p: Seq<Part>| (#[trigger] self.link.get(p)) matches Some(a) ==> (world.link)(p) == a@
        &&& forall|p: Seq<Part>| (#[trigger] self.identity.get(p)) matches Some(a) ==> (world.identity)(p) == a
        &&& self.anchor matches Some(a) ==> world.anchor == a
    }

    /// The platform whose rules the paths follow.
    pub closed spec fn platform(&self) -> Platform {
        self.platform
    }

    /// No answers yet, on a platform.
    pub fn new(platform: Platform) -> (r: Facts)
        ensures
            r.platform() == platform,
            forall|w: World| #[trigger] r.holds_in(w) == (w.platform == platform),
            forall|q: QueryView| !(#[trigger] r.knows(q)),
    {
        Facts {
            platform,
            traverse: Table::new(),
            canonical: Table::new(),
            entry: Table::new(),
            reach: Table::new(),
            link: Table::new(),
            identity: Table::new(),
            anchor: None,
        }
    }

    /// The platform whose rules the paths follow, here and in every filesystem that
    /// agrees with this table.
    pub fn rules(&self) -> (r: Platform)
        ensures
            r == self.platform(),
            forall|w: World| #[trigger] self.holds_in(w) ==> w.platform == r,
    {
        self.platform
    }

    /// What is known of descending through `path`.
    pub fn traverse(&self, path: &[Component]) -> (r: Option<Traversability>)
        ensures
            r is Some == self.knows(QueryView::Traverse(parts(path@))),
            r matches Some(a) ==> forall|w: World| #[trigger]
                self.holds_in(w) ==> (w.traverse)(parts(path@)) == a,
    {
        match self.traverse.find(path) {
            Some(a) => Some(*a),
            None => None,
        }
    }

    /// What is known of the canonical form of `path`.
    pub fn canonical(&self, path: &[Component]) -> (r: Option<Option<Vec<Component>>>)
        ensures
            r is Some == self.knows(QueryView::Canonical(parts(path@))),
            r matches Some(a) ==> forall|w: World| #[trigger]
                self.holds_in(w) ==> (w.canonical)(parts(path@)) == path_value(a),
    {
        match self.canonical.find(path) {
            Some(Some(p)) => Some(Some(copy_path(p.as_slice()))),
            Some(None) => Some(None),
            None => None,
        }
    }

    /// What is known of the name `path`.
    pub fn entry(&self, path: &[Component]) -> (r: Option<EntryKind>)
        ensures
            r is Some == self.knows(QueryView::Entry(parts(path@))),
            r matches Some(a) ==> forall|w: World| #[trigger]
                self.holds_in(w) ==> (w.entry)(parts(path@)) == a,
    {
        match self.entry.find(path) {
            Some(a) => Some(*a),
            None => None,
        }
    }

    /// What is known of where `path` leads.
    pub fn reach(&self, path: &[Component]) -> (r: Option<Reach>)
        ensures
            r is Some == self.knows(QueryView::Reach(parts(path@))),
            r matches Some(a) ==> forall|w: World| #[trigger]
                self.holds_in(w) ==> (w.reach)(parts(path@)) == a,
    {
        match self.reach.find(path) {
            Some(a) => Some(*a),
            None => None,
        }
    }

    /// What is known of the link `path`.
    pub fn link(&self, path: &[Component]) -> (r: Option<LinkRead>)
        ensures
            r is Some == self.knows(QueryView::Link(parts(path@))),
            r matches Some(a) ==> forall|w: World| #[trigger]
                self.holds_in(w) ==> (w.link)(parts(path@)) == a@,
    {
        match self.link.find(path) {
            Some(LinkRead::Target(p)) => Some(LinkRead::Target(copy_path(p.as_slice()))),
            Some(LinkRead::End) => Some(LinkRead::End),
            Some(LinkRead::Refused) => Some(LinkRead::Refused),
            None => None,
        }
    }

    /// What is known of the directory that `path` names.
    pub fn identity(&self, path: &[Component]) -> (r: Option<Option<DirIdentity>>)
        ensures
            r is Some == self.knows(QueryView::Identity(parts(path@))),
            r matches Some(a) ==> forall|w: World| #[trigger]
                self.holds_in(w) ==> (w.identity)(parts(path@)) == a,
    {
        match self.identity.find(path) {
            Some(a) => Some(*a),
            None => None,
        }
    }

    /// What is known of the held descriptor.
    pub fn anchor(&self) -> (r: Option<Option<DirIdentity>>)
        ensures
            r is Some == self.knows(QueryView::Anchor),
            r matches Some(a) ==> forall|w: World| #[trigger] self.holds_in(w) ==> w.anchor == a,
    {
        self.anchor
    }

    /// Record whether the kernel descends through `path`.
    pub fn learn_traverse(self, path: Vec<Component>, answer: Traversability) -> (r: Facts)
        ensures
            r.platform() == self.platform(),
            forall|q: QueryView| #[trigger]
                r.knows(q) == (self.knows(q) || q == QueryView::Traverse(parts(path@))),
            forall|w: World| #[trigger]
                r.holds_in(w) == (self.holds_in(w) && (self.knows(
                    QueryView::Traverse(parts(path@)),
                ) || (w.traverse)(parts(path@)) == answer)),
    {
        let ghost p = parts(path@);
        let ghost said = answer;
        let mut traverse = self.traverse;
        traverse.learn(path, answer);
        let r = Facts {
            platform: self.platform,
            traverse,
            canonical: self.canonical,
            entry: self.entry,
            reach: self.reach,
            link: self.link,
            identity: self.identity,
            anchor: self.anchor,
        };
        proof {
            assert forall|w: World| #[trigger]
                r.holds_in(w) == (self.holds_in(w) && (self.knows(QueryView::Traverse(p)) || (
                w.traverse)(p) == said)) by {
                if r.holds_in(w) {
                    assert(r.traverse.get(p) is Some);
                    assert forall|x: Seq<Part>| (#[trigger] self.traverse.get(x)) is Some implies r.traverse.get(
                        x,
                    ) == self.traverse.get(x) by {
                        assert(r.traverse.get(x) is Some);
                    }
                }
            }
        }
        r
    }

    /// Record the canonical form of `path`, as the bytes that the kernel gave.
    pub fn learn_canonical(self, path: Vec<Component>, answer: Option<Vec<u8>>) -> (r: Facts)
        ensures
            r.platform() == self.platform(),
            forall|q: QueryView| #[trigger]
                r.knows(q) == (self.knows(q) || q == QueryView::Canonical(parts(path@))),
            forall|w: World| #[trigger]
                r.holds_in(w) == (self.holds_in(w) && (self.knows(
                    QueryView::Canonical(parts(path@)),
                ) || (w.canonical)(parts(path@)) == parsed_value(answer, self.platform()))),
    {
        let ghost p = parts(path@);
        let ghost said = parsed_value(answer, self.platform());
        let stored: Option<Vec<Component>> = match &answer {
            Some(raw) => Some(parse_path(raw.as_slice(), self.platform)),
            None => None,
        };
        let mut canonical = self.canonical;
        canonical.learn(path, stored);
        let r = Facts {
            platform: self.platform,
            canonical,
            traverse: self.traverse,
            entry: self.entry,
            reach: self.reach,
            link: self.link,
            identity: self.identity,
            anchor: self.anchor,
        };
        proof {
            assert forall|w: World| #[trigger]
                r.holds_in(w) == (self.holds_in(w) && (self.knows(QueryView::Canonical(p)) || (
                w.canonical)(p) == said)) by {
                if r.holds_in(w) {
                    assert(r.canonical.get(p) is Some);
                    assert forall|x: Seq<Part>| (#[trigger] self.canonical.get(x)) is Some implies r.canonical.get(
                        x,
                    ) == self.canonical.get(x) by {
                        assert(r.canonical.get(x) is Some);
                    }
                }
            }
        }
        r
    }

    /// Record what stands at the name `path`.
    pub fn learn_entry(self, path: Vec<Component>, answer: EntryKind) -> (r: Facts)
        ensures
            r.platform() == self.platform(),
            forall|q: QueryView| #[trigger]
                r.knows(q) == (self.knows(q) || q == QueryView::Entry(parts(path@))),
            forall|w: World| #[trigger]
                r.holds_in(w) == (self.holds_in(w) && (self.knows(
                    QueryView::Entry(parts(path@)),
                ) || (w.entry)(parts(path@)) == answer)),
    {
        let ghost p = parts(path@);
        let ghost said = answer;
        let mut entry = self.entry;
        entry.learn(path, answer);
        let r = Facts {
            platform: self.platform,
            entry,
            traverse: self.traverse,
            canonical: self.canonical,
            reach: self.reach,
            link: self.link,
            identity: self.identity,
            anchor: self.anchor,
        };
        proof {
            assert forall|w: World| #[trigger]
                r.holds_in(w) == (self.holds_in(w) && (self.knows(QueryView::Entry(p)) || (
                w.entry)(p) == said)) by {
                if r.holds_in(w) {
                    assert(r.entry.get(p) is Some);
                    assert forall|x: Seq<Part>| (#[trigger] self.entry.get(x)) is Some implies r.entry.get(
                        x,
                    ) == self.entry.get(x) by {
                        assert(r.entry.get(x) is Some);
                    }
                }
            }
        }
        r
    }

    /// Record where `path` leads.
    pub fn learn_reach(self, path: Vec<Component>, answer: Reach) -> (r: Facts)
        ensures
            r.platform() == self.platform(),
            forall|q: QueryView| #[trigger]
                r.knows(q) == (self.knows(q) || q == QueryView::Reach(parts(path@))),
            forall|w: World| #[trigger]
                r.holds_in(w) == (self.holds_in(w) && (self.knows(
                    QueryView::Reach(parts(path@)),
                ) || (w.reach)(parts(path@)) == answer)),
    {
        let ghost p = parts(path@);
        let ghost said = answer;
        let mut reach = self.reach;
        reach.learn(path, answer);
        let r = Facts {
            platform: self.platform,
            reach,
            traverse: self.traverse,
            canonical: self.canonical,
            entry: self.entry,
            link: self.link,
            identity: self.identity,
            anchor: self.anchor,
        };
        proof {
            assert forall|w: World| #[trigger]
                r.holds_in(w) == (self.holds_in(w) && (self.knows(QueryView::Reach(p)) || (
                w.reach)(p) == said)) by {
                if r.holds_in(w) {
                    assert(r.reach.get(p) is Some);
                    assert forall|x: Seq<Part>| (#[trigger] self.reach.get(x)) is Some implies r.reach.get(
                        x,
                    ) == self.reach.get(x) by {
                        assert(r.reach.get(x) is Some);
                    }
                }
            }
        }
        r
    }

    /// Record what the link `path` points at, as the bytes that the kernel gave.
    pub fn learn_link(self, path: Vec<Component>, answer: RawLink) -> (r: Facts)
        ensures
            r.platform() == self.platform(),
            forall|q: QueryView| #[trigger]
                r.knows(q) == (self.knows(q) || q == QueryView::Link(parts(path@))),
            forall|w: World| #[trigger]
                r.holds_in(w) == (self.holds_in(w) && (self.knows(
                    QueryView::Link(parts(path@)),
                ) || (w.link)(parts(path@)) == link_value(answer, self.platform()))),
    {
        let ghost p = parts(path@);
        let ghost said = link_value(answer, self.platform());
        let stored: LinkRead = match &answer {
            RawLink::Target(raw) => LinkRead::Target(parse_path(raw.as_slice(), self.platform)),
            RawLink::End => LinkRead::End,
            RawLink::Refused => LinkRead::Refused,
        };
        let mut link = self.link;
        link.learn(path, stored);
        let r = Facts {
            platform: self.platform,
            link,
            traverse: self.traverse,
            canonical: self.canonical,
            entry: self.entry,
            reach: self.reach,
            identity: self.identity,
            anchor: self.anchor,
        };
        proof {
            assert forall|w: World| #[trigger]
                r.holds_in(w) == (self.holds_in(w) && (self.knows(QueryView::Link(p)) || (
                w.link)(p) == said)) by {
                if r.holds_in(w) {
                    assert(r.link.get(p) is Some);
                    assert forall|x: Seq<Part>| (#[trigger] self.link.get(x)) is Some implies r.link.get(
                        x,
                    ) == self.link.get(x) by {
                        assert(r.link.get(x) is Some);
                    }
                }
            }
        }
        r
    }

    /// Record which directory `path` names.
    pub fn learn_identity(self, path: Vec<Component>, answer: Option<DirIdentity>) -> (r: Facts)
        ensures
            r.platform() == self.platform(),
            forall|q: QueryView| #[trigger]
                r.knows(q) == (self.knows(q) || q == QueryView::Identity(parts(path@))),
            forall|w: World| #[trigger]
                r.holds_in(w) == (self.holds_in(w) && (self.knows(
                    QueryView::Identity(parts(path@)),
                ) || (w.identity)(parts(path@)) == answer)),
    {
        let ghost p = parts(path@);
        let ghost said = answer;
        let mut identity = self.identity;
        identity.learn(path, answer);
        let r = Facts {
            platform: self.platform,
            identity,
            traverse: self.traverse,
            canonical: self.canonical,
            entry: self.entry,
            reach: self.reach,
            link: self.link,
            anchor: self.anchor,
        };
        proof {
            assert forall|w: World| #[trigger]
                r.holds_in(w) == (self.holds_in(w) && (self.knows(QueryView::Identity(p)) || (
                w.identity)(p) == said)) by {
                if r.holds_in(w) {
                    assert(r.identity.get(p) is Some);
                    assert forall|x: Seq<Part>| (#[trigger] self.identity.get(x)) is Some implies r.identity.get(
                        x,
                    ) == self.identity.get(x) by {
                        assert(r.identity.get(x) is Some);
                    }
                }
            }
        }
        r
    }

    /// Record which directory the held descriptor refers to.
    pub fn learn_anchor(self, answer: Option<DirIdentity>) -> (r: Facts)
        ensures
            r.platform() == self.platform(),
            forall|q: QueryView| #[trigger]
                r.knows(q) == (self.knows(q) || q == QueryView::Anchor),
            forall|w: World| #[trigger]
                r.holds_in(w) == (self.holds_in(w) && (self.knows(QueryView::Anchor)
                    || w.anchor == answer)),
    {
        let anchor = match self.anchor {
            Some(known) => Some(known),
            None => Some(answer),
        };
        Facts {
            platform: self.platform,
            traverse: self.traverse,
            canonical: self.canonical,
            entry: self.entry,
            reach: self.reach,
            link: self.link,
            identity: self.identity,
            anchor,
        }
    }
}

/// Every table agrees with some filesystem: its answers never contradict each other.
pub proof fn lemma_some_world_agrees(facts: Facts)
    ensures
        exists|world: World| facts.holds_in(world),
{
    let world = World {
        platform: facts.platform,
        traverse: |p: Seq<Part>|
            match facts.traverse.get(p) {
                Some(a) => a,
                None => Traversability::Refused,
            },
        canonical: |p: Seq<Part>|
            match facts.canonical.get(p) {
                Some(a) => path_value(a),
                None => None,
            },
        entry: |p: Seq<Part>|
            match facts.entry.get(p) {
                Some(a) => a,
                None => EntryKind::Missing,
            },
        reach: |p: Seq<Part>|
            match facts.reach.get(p) {
                Some(a) => a,
                None => Reach::Missing,
            },
        link: |p: Seq<Part>|
            match facts.link.get(p) {
                Some(a) => a@,
                None => LinkView::End,
            },
        identity: |p: Seq<Part>|
            match facts.identity.get(p) {
                Some(a) => a,
                None => None,
            },
        anchor: match facts.anchor {
            Some(a) => a,
            None => None,
        },
    };
    assert(facts.holds_in(world));
}

/// What an answer of the kernel means: the bytes of a link or of a canonical path are read
/// by the rules of the platform, and anything else is what it is.
pub proof fn lemma_answers_are_read_as_paths(raw: Vec<u8>, platform: Platform)
    ensures
        link_value(RawLink::Target(raw), platform) == LinkView::Target(parsed(raw@, platform)),
        link_value(RawLink::End, platform) is End,
        link_value(RawLink::Refused, platform) is Refused,
        parsed_value(Some(raw), platform) == Some(parsed(raw@, platform)),
        parsed_value(None, platform) is None,
{
}

/// What is made of the kernel's word on a name, a path and a link. A name that cannot be
/// looked at is missing; a path that leads to nothing is missing and any other failure is a
/// refusal; what is no link or is not there ends a chain, and any other failure breaks it.
pub proof fn lemma_kernels_word_on_a_name(e: OsError, raw: Vec<u8>)
    ensures
        entry_seen(Ok(true)) is Link,
        entry_seen(Ok(false)) is Plain,
        entry_seen(Err(e)) is Missing,
        reach_seen(Ok(())) is Reached,
        reach_seen(Err(OsError::NotFound)) is Missing,
        !(e is NotFound) ==> reach_seen(Err(e)) is Refused,
        link_seen(Ok(raw)) == RawLink::Target(raw),
        link_seen(Err(OsError::Invalid)) is End,
        link_seen(Err(OsError::NotFound)) is End,
        !(e is NotFound) && !(e is Invalid) ==> link_seen(Err(e)) is Refused,
{
}

} // verus!
