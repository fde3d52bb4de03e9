//! Where a snapshot path leads.
//!
//! Every function here reads a table of the kernel's answers and either decides
//! or names the question that it needs answered next. What it decides is stated
//! over a [`World`]: it holds in every filesystem that agrees with the table.
use vstd::prelude::*;

use crate::facts::{
    path_value, EntryKind, Facts, LinkRead, LinkView, Query, QueryView, Reach, World,
};
use crate::path::{
    absolute, all_entries, append_from, appended, begins_with, copy_path, copy_range,
    enter_component, enter_from, entered, entered_all, has_parent, is_absolute, is_within,
    lemma_relative_names_are_entries, lexical_normalize, name_list, normalized, parent_of, parts,
    push_component, pushed, relative_components, relative_names, same_path, starts_with, Component,
    Part, Platform,
};
use crate::safepath::Traversability;
use crate::text::same_bytes;

verus! {

/// Which question a snapshot path is resolved for.
///
/// The two differ on exactly one point: whether a missing component may be elided
/// by a following `..`.
#[derive(Debug, Clone, Copy, PartialEq, Eq, Structural)]
pub enum SnapshotAccess {
    /// The snapshot is about to be written; missing parents will be created.
    Record,
    /// The snapshot is only being read back; nothing will be created.
    Verify,
}

/// Where the kernel stands after a `..`.
pub open spec fn stepped_up(here: Seq<Part>) -> Seq<Part> {
    if here.len() > 0 && here.last() is Normal {
        here.drop_last()
    } else if here.len() > 0 && (here.last() is RootDir || here.last() is Prefix) {
        here
    } else {
        here.push(Part::ParentDir)
    }
}

fn step_up(here: &mut Vec<Component>)
    ensures
        parts(final(here)@) == stepped_up(parts(old(here)@)),
{
    let ghost before = parts(here@);
    if here.len() > 0 {
        match &here[here.len() - 1] {
            Component::Normal(_) => {
                here.truncate(here.len() - 1);
                assert(parts(here@) =~= before.drop_last());
                return ;
            },
            Component::RootDir | Component::Prefix(_) => {
                return ;
            },
            _ => {},
        }
    }
    here.push(Component::ParentDir);
    assert(parts(here@) =~= before.push(Part::ParentDir));
}

/// Where the kernel stands once it has descended through `here`.
pub open spec fn standing(world: World, here: Seq<Part>) -> Seq<Part> {
    match (world.canonical)(here) {
        Some(place) => place,
        None => here,
    }
}

/// Whether `access` lets a `..` cancel a component with this verdict.
pub open spec fn cancellable(access: SnapshotAccess, verdict: Traversability) -> bool {
    verdict is Traversable || (verdict is Absent && access is Record)
}

/// Whether walking `rest` from `here` uses a `..` to leave a component that the
/// kernel could not have entered.
///
/// The walk keeps the position at which the kernel would be standing, so a `..`
/// after a link leads to the parent of the link's target. `blocked` holds once a
/// component has been met that the kernel would not have got through.
pub open spec fn climbs(
    world: World,
    access: SnapshotAccess,
    rest: Seq<Part>,
    here: Seq<Part>,
    blocked: bool,
) -> bool
    decreases rest.len(),
{
    if rest.len() == 0 {
        false
    } else {
        let tail = rest.skip(1);
        match rest[0] {
            Part::ParentDir => if blocked {
                true
            } else {
                climbs(world, access, tail, stepped_up(here), false)
            },
            Part::CurDir => climbs(world, access, tail, here, blocked),
            Part::Normal(_) => {
                let next = entered(here, rest[0], world.platform);
                if blocked {
                    climbs(world, access, tail, next, true)
                } else {
                    let verdict = (world.traverse)(next);
                    if verdict is Traversable {
                        climbs(world, access, tail, standing(world, next), false)
                    } else {
                        climbs(world, access, tail, next, !cancellable(access, verdict))
                    }
                }
            },
            _ => climbs(world, access, tail, pushed(here, rest[0]), blocked),
        }
    }
}

/// Whether judging [`climbs`] takes the answer to `query`.
pub open spec fn climb_asks(
    world: World,
    access: SnapshotAccess,
    rest: Seq<Part>,
    here: Seq<Part>,
    blocked: bool,
    query: QueryView,
) -> bool
    decreases rest.len(),
{
    if rest.len() == 0 {
        false
    } else {
        let tail = rest.skip(1);
        match rest[0] {
            Part::ParentDir => !blocked && climb_asks(
                world,
                access,
                tail,
                stepped_up(here),
                false,
                query,
            ),
            Part::CurDir => climb_asks(world, access, tail, here, blocked, query),
            Part::Normal(_) => {
                let next = entered(here, rest[0], world.platform);
                if blocked {
                    climb_asks(world, access, tail, next, true, query)
                } else {
                    let verdict = (world.traverse)(next);
                    ||| query == QueryView::Traverse(next)
                    ||| verdict is Traversable && (query == QueryView::Canonical(next) || climb_asks(
                        world,
                        access,
                        tail,
                        standing(world, next),
                        false,
                        query,
                    ))
                    ||| !(verdict is Traversable) && climb_asks(
                        world,
                        access,
                        tail,
                        next,
                        !cancellable(access, verdict),
                        query,
                    )
                }
            },
            _ => climb_asks(world, access, tail, pushed(here, rest[0]), blocked, query),
        }
    }
}

/// Whether `path` uses a `..` to leave a component that the kernel could not have
/// entered.
pub open spec fn climbs_through(world: World, access: SnapshotAccess, path: Seq<Part>) -> bool {
    climbs(world, access, path, Seq::empty(), false)
}

/// Decide [`climbs_through`], or name the next question.
fn find_climb(facts: &Facts, access: SnapshotAccess, path: &[Component]) -> (r: Result<bool, Query>)
    ensures
        match r {
            Ok(answer) => forall|w: World| #[trigger]
                facts.holds_in(w) ==> answer == climbs_through(w, access, parts(path@)),
            Err(query) => !facts.knows(query@) && forall|w: World| #[trigger]
                facts.holds_in(w) ==> climb_asks(
                    w,
                    access,
                    parts(path@),
                    Seq::empty(),
                    false,
                    query@,
                ),
        },
{
    let rules = facts.rules();
    let mut here: Vec<Component> = Vec::new();
    let mut blocked = false;
    let mut i: usize = 0;
    assert(parts(here@) =~= Seq::<Part>::empty());
    assert(parts(path@).skip(0) =~= parts(path@));
    while i < path.len()
        invariant
            i <= path@.len(),
            forall|w: World| #[trigger] facts.holds_in(w) ==> w.platform == rules,
            forall|w: World| #[trigger]
                facts.holds_in(w) ==> climbs_through(w, access, parts(path@)) == climbs(
                    w,
                    access,
                    parts(path@).skip(i as int),
                    parts(here@),
                    blocked,
                ),
            forall|w: World, q: QueryView|
                facts.holds_in(w) && #[trigger] climb_asks(
                    w,
                    access,
                    parts(path@).skip(i as int),
                    parts(here@),
                    blocked,
                    q,
                ) ==> climb_asks(w, access, parts(path@), Seq::empty(), false, q),
        decreases path@.len() - i,
    {
        let ghost rest = parts(path@).skip(i as int);
        assert(rest.skip(1) =~= parts(path@).skip(i + 1));
        assert(rest[0] == path@[i as int]@);
        let ghost before = parts(here@);
        let ghost was_blocked = blocked;
        match &path[i] {
            Component::ParentDir => {
                if blocked {
                    return Ok(true);
                }
                step_up(&mut here);
            },
            Component::CurDir => {},
            Component::Normal(_) => {
                enter_component(&mut here, &path[i], rules);
                if !blocked {
                    let verdict = match facts.traverse(here.as_slice()) {
                        Some(verdict) => verdict,
                        None => {
                            proof {
                                assert forall|w: World| #[trigger] facts.holds_in(w) implies climb_asks(
                                    w,
                                    access,
                                    parts(path@),
                                    Seq::empty(),
                                    false,
                                    QueryView::Traverse(parts(here@)),
                                ) by {
                                    assert(climb_asks(
                                        w,
                                        access,
                                        rest,
                                        before,
                                        false,
                                        QueryView::Traverse(parts(here@)),
                                    ));
                                }
                            }
                            return Err(Query::Traverse(here));
                        },
                    };
                    match verdict {
                        Traversability::Traversable => {
                            match facts.canonical(here.as_slice()) {
                                Some(Some(place)) => {
                                    here = place;
                                },
                                Some(None) => {},
                                None => {
                                    proof {
                                        assert forall|w: World| #[trigger]
                                            facts.holds_in(w) implies climb_asks(
                                            w,
                                            access,
                                            parts(path@),
                                            Seq::empty(),
                                            false,
                                            QueryView::Canonical(parts(here@)),
                                        ) by {
                                            assert(climb_asks(
                                                w,
                                                access,
                                                rest,
                                                before,
                                                false,
                                                QueryView::Canonical(parts(here@)),
                                            ));
                                        }
                                    }
                                    return Err(Query::Canonical(here));
                                },
                            }
                        },
                        Traversability::Absent => {
                            blocked = match access {
                                SnapshotAccess::Record => false,
                                SnapshotAccess::Verify => true,
                            };
                        },
                        Traversability::Refused => {
                            blocked = true;
                        },
                    }
                }
            },
            part => {
                push_component(&mut here, part);
            },
        }
        proof {
            assert forall|w: World, q: QueryView|
                facts.holds_in(w) && #[trigger] climb_asks(
                    w,
                    access,
                    parts(path@).skip(i + 1),
                    parts(here@),
                    blocked,
                    q,
                ) implies climb_asks(w, access, parts(path@), Seq::empty(), false, q) by {
                assert(climb_asks(w, access, rest, before, was_blocked, q));
            }
        }
        i = i + 1;
    }
    Ok(false)
}

/// Whether `path` uses a `..` to leave a component that the kernel permanently
/// refuses to enter, or the next question. What is merely absent does not bar a
/// recording run, which creates it.
pub fn climbs_through_existing_non_directory(facts: &Facts, path: &[Component]) -> (r: Result<
    bool,
    Query,
>)
    ensures
        match r {
            Ok(answer) => forall|w: World| #[trigger]
                facts.holds_in(w) ==> answer == climbs_through(
                    w,
                    SnapshotAccess::Record,
                    parts(path@),
                ),
            Err(query) => !facts.knows(query@) && forall|w: World| #[trigger]
                facts.holds_in(w) ==> climb_asks(
                    w,
                    SnapshotAccess::Record,
                    parts(path@),
                    Seq::empty(),
                    false,
                    query@,
                ),
        },
{
    find_climb(facts, SnapshotAccess::Record, path)
}

/// Whether `path` uses a `..` to leave a component that the kernel could not enter,
/// absent ones among them, or the next question.
pub fn climbs_through_missing_component(facts: &Facts, path: &[Component]) -> (r: Result<bool, Query>)
    ensures
        match r {
            Ok(answer) => forall|w: World| #[trigger]
                facts.holds_in(w) ==> answer == climbs_through(
                    w,
                    SnapshotAccess::Verify,
                    parts(path@),
                ),
            Err(query) => !facts.knows(query@) && forall|w: World| #[trigger]
                facts.holds_in(w) ==> climb_asks(
                    w,
                    SnapshotAccess::Verify,
                    parts(path@),
                    Seq::empty(),
                    false,
                    query@,
                ),
        },
{
    find_climb(facts, SnapshotAccess::Verify, path)
}

/// Where `path` leads, judged from its first `n` components: their canonical form
/// where they exist, else that of the longest beginning that does, with the rest
/// appended and resolved by name.
pub open spec fn landing_from(world: World, path: Seq<Part>, n: nat) -> Seq<Part>
    decreases n,
{
    match (world.canonical)(path.take(n as int)) {
        Some(place) => normalized(place + path.skip(n as int), world.platform),
        None => if n > 0 && parent_of(path.take(n as int)) is Some {
            landing_from(world, path, (n - 1) as nat)
        } else {
            normalized(path, world.platform)
        },
    }
}

/// Where `path` leads: the canonical form of its deepest existing ancestor with
/// the rest appended and resolved by name.
pub open spec fn landing(world: World, path: Seq<Part>) -> Seq<Part> {
    landing_from(world, path, path.len())
}

/// As [`landing_from`], with the appended rest left exactly as written.
pub open spec fn anchored_from(world: World, path: Seq<Part>, n: nat) -> Seq<Part>
    decreases n,
{
    match (world.canonical)(path.take(n as int)) {
        Some(place) => place + path.skip(n as int),
        None => if n > 0 && parent_of(path.take(n as int)) is Some {
            anchored_from(world, path, (n - 1) as nat)
        } else {
            path
        },
    }
}

/// Whether finding the deepest existing ancestor of `path`, from its first `n`
/// components on, takes the answer to `query`.
pub open spec fn anchor_asks(world: World, path: Seq<Part>, n: nat, query: QueryView) -> bool
    decreases n,
{
    ||| query == QueryView::Canonical(path.take(n as int))
    ||| (world.canonical)(path.take(n as int)) is None && n > 0 && parent_of(path.take(n as int)) is Some
        && anchor_asks(world, path, (n - 1) as nat, query)
}

/// As [`landing`], with the appended rest left exactly as written.
pub open spec fn anchored(world: World, path: Seq<Part>) -> Seq<Part> {
    anchored_from(world, path, path.len())
}

proof fn lemma_landing_is_normalized_anchor(world: World, path: Seq<Part>, n: nat)
    ensures
        landing_from(world, path, n) == normalized(anchored_from(world, path, n), world.platform),
    decreases n,
{
    if (world.canonical)(path.take(n as int)) is None && n > 0 && parent_of(path.take(n as int)) is Some {
        lemma_landing_is_normalized_anchor(world, path, (n - 1) as nat);
    }
}

fn with_rest(place: Vec<Component>, path: &[Component], from: usize) -> (r: Vec<Component>)
    requires
        from <= path@.len(),
    ensures
        parts(r@) == parts(place@) + parts(path@).skip(from as int),
{
    let ghost start = parts(place@);
    let mut rest = copy_range(path, from, path.len());
    let ghost more = parts(rest@);
    let mut out = place;
    out.append(&mut rest);
    assert(parts(out@) =~= start + more);
    assert(more =~= parts(path@).skip(from as int));
    out
}

/// Put the existing beginning of `path` into canonical form and leave the rest as
/// written, or name the next question.
pub fn anchor_in_root_representation(facts: &Facts, path: &[Component]) -> (r: Result<Vec<Component>, Query>)
    ensures
        match r {
            Ok(place) => forall|w: World| #[trigger]
                facts.holds_in(w) ==> parts(place@) == anchored(w, parts(path@)),
            Err(query) => !facts.knows(query@) && forall|w: World| #[trigger]
                facts.holds_in(w) ==> anchor_asks(w, parts(path@), path@.len(), query@),
        },
{
    let mut n: usize = path.len();
    loop
        invariant
            n <= path@.len(),
            forall|w: World| #[trigger]
                facts.holds_in(w) ==> anchored(w, parts(path@)) == anchored_from(
                    w,
                    parts(path@),
                    n as nat,
                ),
            forall|w: World, q: QueryView|
                facts.holds_in(w) && #[trigger] anchor_asks(w, parts(path@), n as nat, q) ==> anchor_asks(
                    w,
                    parts(path@),
                    path@.len(),
                    q,
                ),
        decreases n,
    {
        let beginning = copy_range(path, 0, n);
        assert(parts(beginning@) =~= parts(path@).take(n as int));
        match facts.canonical(beginning.as_slice()) {
            None => {
                proof {
                    assert forall|w: World| #[trigger] facts.holds_in(w) implies anchor_asks(
                        w,
                        parts(path@),
                        path@.len(),
                        QueryView::Canonical(parts(beginning@)),
                    ) by {
                        assert(anchor_asks(
                            w,
                            parts(path@),
                            n as nat,
                            QueryView::Canonical(parts(beginning@)),
                        ));
                    }
                }
                return Err(Query::Canonical(beginning));
            },
            Some(Some(place)) => {
                return Ok(with_rest(place, path, n));
            },
            Some(None) => {},
        }
        if !has_parent(beginning.as_slice()) {
            return Ok(copy_path(path));
        }
        proof {
            assert forall|w: World, q: QueryView|
                facts.holds_in(w) && #[trigger] anchor_asks(w, parts(path@), (n - 1) as nat, q) implies anchor_asks(
                w,
                parts(path@),
                path@.len(),
                q,
            ) by {
                assert(anchor_asks(w, parts(path@), n as nat, q));
            }
        }
        n = n - 1;
    }
}

/// Resolve the deepest existing ancestor of `path` and re-append the rest, or name
/// the next question.
pub fn resolve_existing_ancestor(facts: &Facts, path: &[Component]) -> (r: Result<
    Vec<Component>,
    Query,
>)
    ensures
        match r {
            Ok(place) => forall|w: World| #[trigger]
                facts.holds_in(w) ==> parts(place@) == landing(w, parts(path@)),
            Err(query) => !facts.knows(query@) && forall|w: World| #[trigger]
                facts.holds_in(w) ==> anchor_asks(w, parts(path@), path@.len(), query@),
        },
{
    match anchor_in_root_representation(facts, path) {
        Ok(place) => {
            let r = lexical_normalize(place.as_slice(), facts.rules());
            proof {
                assert forall|w: World| #[trigger] facts.holds_in(w) implies parts(r@) == landing(
                    w,
                    parts(path@),
                ) by {
                    lemma_landing_is_normalized_anchor(w, parts(path@), path@.len());
                }
            }
            Ok(r)
        },
        Err(query) => Err(query),
    }
}

/// The most paths that are remembered while following one chain of links.
pub const MAX_VISITED_LINK_PATHS: usize = 4096;

/// What a link at `current` with this target refers to: a relative target is seen
/// from the directory that holds the link, in the place where the kernel would
/// really be standing.
pub open spec fn link_leads_to(world: World, current: Seq<Part>, target: Seq<Part>) -> Option<
    Seq<Part>,
> {
    if absolute(target, world.platform) {
        Some(target)
    } else {
        match parent_of(current) {
            None => None,
            Some(holder) => Some(appended(standing(world, holder), target)),
        }
    }
}

/// Where the chain of links that starts at `current` ends; `None` for a cycle, for
/// a chain that the kernel refuses, and for one of more paths than may be
/// remembered.
pub open spec fn chain_end(world: World, current: Seq<Part>, visited: Seq<Seq<Part>>) -> Option<
    Seq<Part>,
>
    decreases MAX_VISITED_LINK_PATHS - visited.len(),
{
    if visited.len() >= MAX_VISITED_LINK_PATHS || visited.contains(current) {
        None
    } else {
        match (world.link)(current) {
            LinkView::End => Some(current),
            LinkView::Refused => None,
            LinkView::Target(target) => match link_leads_to(world, current, target) {
                None => None,
                Some(next) => chain_end(world, next, visited.push(current)),
            },
        }
    }
}

/// Whether following the chain of links that starts at `current` takes the answer
/// to `query`.
pub open spec fn chain_asks(
    world: World,
    current: Seq<Part>,
    visited: Seq<Seq<Part>>,
    query: QueryView,
) -> bool
    decreases MAX_VISITED_LINK_PATHS - visited.len(),
{
    if visited.len() >= MAX_VISITED_LINK_PATHS || visited.contains(current) {
        false
    } else {
        ||| query == QueryView::Link(current)
        ||| match (world.link)(current) {
            LinkView::Target(target) => {
                ||| !absolute(target, world.platform) && (parent_of(current) matches Some(holder) && query
                    == QueryView::Canonical(holder))
                ||| (link_leads_to(world, current, target) matches Some(next) && chain_asks(
                    world,
                    next,
                    visited.push(current),
                    query,
                ))
            },
            _ => false,
        }
    }
}

/// The values of a list of paths.
pub open spec fn path_list(list: Seq<Vec<Component>>) -> Seq<Seq<Part>> {
    Seq::new(list.len(), |i: int| parts(list[i]@))
}

fn holds_path(list: &[Vec<Component>], path: &[Component]) -> (r: bool)
    ensures
        r == path_list(list@).contains(parts(path@)),
{
    let mut i: usize = 0;
    while i < list.len()
        invariant
            i <= list@.len(),
            forall|j: int| 0 <= j < i ==> #[trigger] path_list(list@)[j] != parts(path@),
        decreases list@.len() - i,
    {
        if same_path(list[i].as_slice(), path) {
            assert(path_list(list@)[i as int] == parts(path@));
            return true;
        }
        i = i + 1;
    }
    false
}

/// Follow the chain of links that starts at `link` to its end, or name the next
/// question.
pub fn dangling_link_destination(facts: &Facts, link: &[Component]) -> (r: Result<
    Option<Vec<Component>>,
    Query,
>)
    ensures
        match r {
            Ok(end) => forall|w: World| #[trigger]
                facts.holds_in(w) ==> path_value(end) == chain_end(w, parts(link@), Seq::empty()),
            Err(query) => !facts.knows(query@) && forall|w: World| #[trigger]
                facts.holds_in(w) ==> chain_asks(w, parts(link@), Seq::empty(), query@),
        },
{
    let rules = facts.rules();
    let mut current = copy_path(link);
    let mut visited: Vec<Vec<Component>> = Vec::new();
    assert(path_list(visited@) =~= Seq::<Seq<Part>>::empty());
    loop
        invariant
            visited@.len() <= MAX_VISITED_LINK_PATHS,
            forall|w: World| #[trigger] facts.holds_in(w) ==> w.platform == rules,
            forall|w: World| #[trigger]
                facts.holds_in(w) ==> chain_end(w, parts(link@), Seq::empty()) == chain_end(
                    w,
                    parts(current@),
                    path_list(visited@),
                ),
            forall|w: World, q: QueryView|
                facts.holds_in(w) && #[trigger] chain_asks(
                    w,
                    parts(current@),
                    path_list(visited@),
                    q,
                ) ==> chain_asks(w, parts(link@), Seq::empty(), q),
        decreases MAX_VISITED_LINK_PATHS - visited@.len(),
    {
        if visited.len() >= MAX_VISITED_LINK_PATHS || holds_path(visited.as_slice(), current.as_slice()) {
            return Ok(None);
        }
        let ghost seen = path_list(visited@);
        let ghost stands = parts(current@);
        let target = match facts.link(current.as_slice()) {
            None => {
                proof {
                    assert forall|w: World| #[trigger] facts.holds_in(w) implies chain_asks(
                        w,
                        parts(link@),
                        Seq::empty(),
                        QueryView::Link(stands),
                    ) by {
                        assert(chain_asks(w, stands, seen, QueryView::Link(stands)));
                    }
                }
                return Err(Query::Link(current));
            },
            Some(LinkRead::End) => {
                return Ok(Some(current));
            },
            Some(LinkRead::Refused) => {
                return Ok(None);
            },
            Some(LinkRead::Target(target)) => target,
        };
        let next: Vec<Component> = if is_absolute(target.as_slice(), rules) {
            target
        } else {
            if !has_parent(current.as_slice()) {
                return Ok(None);
            }
            let holder = copy_range(current.as_slice(), 0, current.len() - 1);
            assert(parts(holder@) =~= parts(current@).drop_last());
            let place = match facts.canonical(holder.as_slice()) {
                None => {
                    proof {
                        assert forall|w: World| #[trigger] facts.holds_in(w) implies chain_asks(
                            w,
                            parts(link@),
                            Seq::empty(),
                            QueryView::Canonical(parts(holder@)),
                        ) by {
                            assert(chain_asks(w, stands, seen, QueryView::Canonical(parts(holder@))));
                        }
                    }
                    return Err(Query::Canonical(holder));
                },
                Some(Some(place)) => place,
                Some(None) => holder,
            };
            assert(parts(target@).skip(0) =~= parts(target@));
            append_from(place, target.as_slice(), 0)
        };
        let ghost before = visited@;
        let ghost was = parts(current@);
        visited.push(current);
        assert(path_list(visited@) =~= path_list(before).push(was));
        proof {
            assert forall|w: World, q: QueryView|
                facts.holds_in(w) && #[trigger] chain_asks(w, parts(next@), path_list(visited@), q) implies chain_asks(
                w,
                parts(link@),
                Seq::empty(),
                q,
            ) by {
                assert(chain_asks(w, stands, seen, q));
            }
        }
        current = next;
    }
}

/// What the scan for a dangling link found.
#[derive(Debug, PartialEq, Eq)]
pub enum DanglingLink {
    /// No dangling link on the path; use the normally resolved location.
    Absent,
    /// A dangling link whose destination is inside the workspace.
    ResolvesInside(Vec<Component>),
    /// A dangling link that leaves the workspace.
    Refused,
    /// A chain that does not resolve.
    UnresolvableChain,
    /// A `..` that leaves something which is not a resolvable directory.
    UnresolvableClimb,
}

/// The mathematical value of a [`DanglingLink`].
pub ghost enum DanglingView {
    Absent,
    ResolvesInside(Seq<Part>),
    Refused,
    UnresolvableChain,
    UnresolvableClimb,
}

impl View for DanglingLink {
    type V = DanglingView;

    open spec fn view(&self) -> DanglingView {
        match *self {
            DanglingLink::Absent => DanglingView::Absent,
            DanglingLink::ResolvesInside(path) => DanglingView::ResolvesInside(parts(path@)),
            DanglingLink::Refused => DanglingView::Refused,
            DanglingLink::UnresolvableChain => DanglingView::UnresolvableChain,
            DanglingLink::UnresolvableClimb => DanglingView::UnresolvableClimb,
        }
    }
}

/// What becomes of a link at `link` that does not resolve, with `tail` after it.
///
/// The tail is appended to where the chain ends before anything is judged: either
/// half can carry the result across the boundary.
pub open spec fn dangling_verdict(world: World, root: Seq<Part>, link: Seq<Part>, tail: Seq<Part>) -> DanglingView {
    match chain_end(world, link, Seq::empty()) {
        None => DanglingView::UnresolvableChain,
        Some(end) => {
            let full = entered_all(end, tail, world.platform);
            let place = landing(world, full);
            if climbs_through(world, SnapshotAccess::Verify, full) {
                DanglingView::UnresolvableClimb
            } else if begins_with(place, root) {
                DanglingView::ResolvesInside(place)
            } else {
                DanglingView::Refused
            }
        },
    }
}

/// Whether judging a link that does not resolve takes the answer to `query`.
pub open spec fn verdict_asks(world: World, link: Seq<Part>, tail: Seq<Part>, query: QueryView) -> bool {
    ||| chain_asks(world, link, Seq::empty(), query)
    ||| match chain_end(world, link, Seq::empty()) {
        None => false,
        Some(end) => {
            let full = entered_all(end, tail, world.platform);
            ||| climb_asks(world, SnapshotAccess::Verify, full, Seq::empty(), false, query)
            ||| !climbs_through(world, SnapshotAccess::Verify, full) && anchor_asks(
                world,
                full,
                full.len(),
                query,
            )
        },
    }
}

/// Whether the scan of `rest`, from `probe` on, takes the answer to `query`.
pub open spec fn dangling_asks(world: World, probe: Seq<Part>, rest: Seq<Part>, query: QueryView) -> bool
    decreases rest.len(),
{
    if rest.len() == 0 {
        false
    } else {
        let next = entered(probe, rest[0], world.platform);
        let tail = rest.skip(1);
        let reach = (world.reach)(next);
        let resolves = reach is Reached && (world.canonical)(next) is Some;
        ||| query == QueryView::Entry(next)
        ||| (world.entry)(next) is Plain && dangling_asks(world, next, tail, query)
        ||| (world.entry)(next) is Link && {
            ||| query == QueryView::Reach(next)
            ||| reach is Reached && query == QueryView::Canonical(next)
            ||| resolves && dangling_asks(world, next, tail, query)
            ||| !(reach is Refused) && !resolves && verdict_asks(world, next, tail, query)
        }
    }
}

/// What the scan of `rest`, from `probe` on, finds: the first link that does not
/// resolve decides.
pub open spec fn dangling_from(world: World, root: Seq<Part>, probe: Seq<Part>, rest: Seq<Part>) -> DanglingView
    decreases rest.len(),
{
    if rest.len() == 0 {
        DanglingView::Absent
    } else {
        let next = entered(probe, rest[0], world.platform);
        let tail = rest.skip(1);
        match (world.entry)(next) {
            EntryKind::Missing => DanglingView::Absent,
            EntryKind::Plain => dangling_from(world, root, next, tail),
            EntryKind::Link => if (world.reach)(next) is Refused {
                DanglingView::UnresolvableClimb
            } else if (world.reach)(next) is Reached && (world.canonical)(next) is Some {
                dangling_from(world, root, next, tail)
            } else {
                dangling_verdict(world, root, next, tail)
            },
        }
    }
}

/// What stands below `base` on the way to `path`; all of `path` where it does not
/// begin with `base`.
pub open spec fn below(base: Seq<Part>, path: Seq<Part>) -> Seq<Part> {
    if begins_with(path, base) {
        path.skip(base.len() as int)
    } else {
        path
    }
}

fn judge_dangling(facts: &Facts, root: &[Component], link: &[Component], rest: &[Component], from: usize) -> (r: Result<DanglingLink, Query>)
    requires
        from <= rest@.len(),
    ensures
        match r {
            Ok(found) => forall|w: World| #[trigger]
                facts.holds_in(w) ==> found@ == dangling_verdict(
                    w,
                    parts(root@),
                    parts(link@),
                    parts(rest@).skip(from as int),
                ),
            Err(query) => !facts.knows(query@) && forall|w: World| #[trigger]
                facts.holds_in(w) ==> verdict_asks(
                    w,
                    parts(link@),
                    parts(rest@).skip(from as int),
                    query@,
                ),
        },
{
    let end = match dangling_link_destination(facts, link) {
        Err(query) => {
            return Err(query);
        },
        Ok(None) => {
            return Ok(DanglingLink::UnresolvableChain);
        },
        Ok(Some(end)) => end,
    };
    let full = enter_from(end, rest, from, facts.rules());
    match climbs_through_missing_component(facts, full.as_slice()) {
        Err(query) => {
            return Err(query);
        },
        Ok(true) => {
            return Ok(DanglingLink::UnresolvableClimb);
        },
        Ok(false) => {},
    }
    match resolve_existing_ancestor(facts, full.as_slice()) {
        Err(query) => Err(query),
        Ok(place) => if is_within(place.as_slice(), root) {
            Ok(DanglingLink::ResolvesInside(place))
        } else {
            Ok(DanglingLink::Refused)
        },
    }
}

/// Scan the components of `path` below `walk_root` for a link that does not
/// resolve and judge where it leads, or name the next question.
pub fn dangling_link_target(
    facts: &Facts,
    walk_root: &[Component],
    root: &[Component],
    path: &[Component],
) -> (r: Result<DanglingLink, Query>)
    ensures
        match r {
            Ok(found) => forall|w: World| #[trigger]
                facts.holds_in(w) ==> found@ == dangling_from(
                    w,
                    parts(root@),
                    parts(walk_root@),
                    below(parts(walk_root@), parts(path@)),
                ),
            Err(query) => !facts.knows(query@) && forall|w: World| #[trigger]
                facts.holds_in(w) ==> dangling_asks(
                    w,
                    parts(walk_root@),
                    below(parts(walk_root@), parts(path@)),
                    query@,
                ),
        },
{
    let start: usize = if starts_with(path, walk_root) {
        walk_root.len()
    } else {
        0
    };
    let ghost all = below(parts(walk_root@), parts(path@));
    let rules = facts.rules();
    let mut probe = copy_path(walk_root);
    let mut i: usize = start;
    assert(all =~= parts(path@).skip(start as int));
    while i < path.len()
        invariant
            start <= i <= path@.len(),
            forall|w: World| #[trigger] facts.holds_in(w) ==> w.platform == rules,
            all == below(parts(walk_root@), parts(path@)),
            forall|w: World| #[trigger]
                facts.holds_in(w) ==> dangling_from(w, parts(root@), parts(walk_root@), all)
                    == dangling_from(w, parts(root@), parts(probe@), parts(path@).skip(i as int)),
            forall|w: World, q: QueryView|
                facts.holds_in(w) && #[trigger] dangling_asks(
                    w,
                    parts(probe@),
                    parts(path@).skip(i as int),
                    q,
                ) ==> dangling_asks(w, parts(walk_root@), all, q),
        decreases path@.len() - i,
    {
        let ghost rest = parts(path@).skip(i as int);
        let ghost from = parts(probe@);
        assert(rest.skip(1) =~= parts(path@).skip(i + 1));
        assert(rest[0] == path@[i as int]@);
        enter_component(&mut probe, &path[i], rules);
        let kind = match facts.entry(probe.as_slice()) {
            None => {
                proof {
                    assert forall|w: World| #[trigger] facts.holds_in(w) implies dangling_asks(
                        w,
                        parts(walk_root@),
                        all,
                        QueryView::Entry(parts(probe@)),
                    ) by {
                        assert(dangling_asks(w, from, rest, QueryView::Entry(parts(probe@))));
                    }
                }
                return Err(Query::Entry(probe));
            },
            Some(kind) => kind,
        };
        match kind {
            EntryKind::Missing => {
                return Ok(DanglingLink::Absent);
            },
            EntryKind::Plain => {},
            EntryKind::Link => {
                let reach = match facts.reach(probe.as_slice()) {
                    None => {
                        proof {
                            assert forall|w: World| #[trigger] facts.holds_in(w) implies dangling_asks(
                                w,
                                parts(walk_root@),
                                all,
                                QueryView::Reach(parts(probe@)),
                            ) by {
                                assert(dangling_asks(w, from, rest, QueryView::Reach(parts(probe@))));
                            }
                        }
                        return Err(Query::Reach(probe));
                    },
                    Some(reach) => reach,
                };
                let resolves = match reach {
                    Reach::Refused => {
                        return Ok(DanglingLink::UnresolvableClimb);
                    },
                    Reach::Missing => false,
                    Reach::Reached => match facts.canonical(probe.as_slice()) {
                        None => {
                            proof {
                                assert forall|w: World| #[trigger] facts.holds_in(w) implies dangling_asks(
                                    w,
                                    parts(walk_root@),
                                    all,
                                    QueryView::Canonical(parts(probe@)),
                                ) by {
                                    assert(dangling_asks(w, from, rest, QueryView::Canonical(parts(probe@))));
                                }
                            }
                            return Err(Query::Canonical(probe));
                        },
                        Some(place) => place.is_some(),
                    },
                };
                if !resolves {
                    let judged = judge_dangling(facts, root, probe.as_slice(), path, i + 1);
                    proof {
                        if judged is Err {
                            let query = judged->Err_0@;
                            assert forall|w: World| #[trigger] facts.holds_in(w) implies dangling_asks(
                                w,
                                parts(walk_root@),
                                all,
                                query,
                            ) by {
                                assert(dangling_asks(w, from, rest, query));
                            }
                        }
                    }
                    return judged;
                }
            },
        }
        proof {
            assert forall|w: World, q: QueryView|
                facts.holds_in(w) && #[trigger] dangling_asks(w, parts(probe@), parts(path@).skip(i + 1), q) implies dangling_asks(
                w,
                parts(walk_root@),
                all,
                q,
            ) by {
                assert(dangling_asks(w, from, rest, q));
            }
        }
        i = i + 1;
    }
    Ok(DanglingLink::Absent)
}

/// The directories below `root` that walking `rest` from `here` enters and then
/// leaves by a `..`, each once, in the order in which they are left.
pub open spec fn cancelled_from(
    root: Seq<Part>,
    rest: Seq<Part>,
    here: Seq<Part>,
    found: Seq<Seq<Seq<u8>>>,
    platform: Platform,
) -> Seq<Seq<Seq<u8>>>
    decreases rest.len(),
{
    if rest.len() == 0 {
        found
    } else {
        let tail = rest.skip(1);
        match rest[0] {
            Part::CurDir => cancelled_from(root, tail, here, found, platform),
            Part::ParentDir => if here.len() > 0 && here.last() is Normal {
                cancelled_from(
                    root,
                    tail,
                    here.drop_last(),
                    noted(root, here, found, platform),
                    platform,
                )
            } else {
                cancelled_from(root, tail, here, found, platform)
            },
            part => cancelled_from(root, tail, entered(here, part, platform), found, platform),
        }
    }
}

/// `found` with the names that lead from `root` to `here`, where these are a new
/// place properly below `root`.
pub open spec fn noted(
    root: Seq<Part>,
    here: Seq<Part>,
    found: Seq<Seq<Seq<u8>>>,
    platform: Platform,
) -> Seq<Seq<Seq<u8>>> {
    match relative_names(root, here, platform) {
        Some(names) => if names.len() > 0 && !found.contains(names) {
            found.push(names)
        } else {
            found
        },
        None => found,
    }
}

/// The directories below `root` that `path` names but a `..` then cancels.
pub open spec fn cancelled(root: Seq<Part>, path: Seq<Part>, platform: Platform) -> Seq<Seq<Seq<u8>>> {
    cancelled_from(root, path, Seq::empty(), Seq::empty(), platform)
}

/// Whether every entry is a place properly below a root: one or more names of entries.
pub open spec fn proper_places(list: Seq<Seq<Seq<u8>>>, platform: Platform) -> bool {
    forall|i: int|
        0 <= i < list.len() ==> (#[trigger] list[i]).len() > 0 && all_entries(list[i], platform)
}

proof fn lemma_cancelled_places_are_proper(
    root: Seq<Part>,
    rest: Seq<Part>,
    here: Seq<Part>,
    found: Seq<Seq<Seq<u8>>>,
    platform: Platform,
)
    requires
        proper_places(found, platform),
    ensures
        proper_places(cancelled_from(root, rest, here, found, platform), platform),
    decreases rest.len(),
{
    if rest.len() > 0 {
        let tail = rest.skip(1);
        match rest[0] {
            Part::CurDir => {
                lemma_cancelled_places_are_proper(root, tail, here, found, platform);
            },
            Part::ParentDir => {
                if here.len() > 0 && here.last() is Normal {
                    lemma_relative_names_are_entries(root, here, platform);
                    lemma_cancelled_places_are_proper(
                        root,
                        tail,
                        here.drop_last(),
                        noted(root, here, found, platform),
                        platform,
                    );
                } else {
                    lemma_cancelled_places_are_proper(root, tail, here, found, platform);
                }
            },
            part => {
                lemma_cancelled_places_are_proper(
                    root,
                    tail,
                    entered(here, part, platform),
                    found,
                    platform,
                );
            },
        }
    }
}

/// Every directory that a path names and a `..` cancels is properly below the root.
pub proof fn lemma_cancelled_are_proper(root: Seq<Part>, path: Seq<Part>, platform: Platform)
    ensures
        proper_places(cancelled(root, path, platform), platform),
{
    lemma_cancelled_places_are_proper(root, path, Seq::empty(), Seq::empty(), platform);
}

/// The values of a list of name lists.
pub open spec fn name_lists(list: Seq<Vec<Vec<u8>>>) -> Seq<Seq<Seq<u8>>> {
    Seq::new(list.len(), |i: int| name_list(list[i]@))
}

fn same_names(a: &[Vec<u8>], b: &[Vec<u8>]) -> (r: bool)
    ensures
        r == (name_list(a@) == name_list(b@)),
{
    if a.len() != b.len() {
        assert(name_list(a@).len() != name_list(b@).len());
        return false;
    }
    let mut i: usize = 0;
    while i < a.len()
        invariant
            i <= a@.len(),
            a@.len() == b@.len(),
            forall|j: int| 0 <= j < i ==> #[trigger] name_list(a@)[j] == name_list(b@)[j],
        decreases a@.len() - i,
    {
        if !same_bytes(a[i].as_slice(), b[i].as_slice()) {
            assert(name_list(a@)[i as int] != name_list(b@)[i as int]);
            return false;
        }
        i = i + 1;
    }
    assert(name_list(a@) =~= name_list(b@));
    true
}

fn holds_names(list: &[Vec<Vec<u8>>], names: &[Vec<u8>]) -> (r: bool)
    ensures
        r == name_lists(list@).contains(name_list(names@)),
{
    let mut i: usize = 0;
    while i < list.len()
        invariant
            i <= list@.len(),
            forall|j: int| 0 <= j < i ==> #[trigger] name_lists(list@)[j] != name_list(names@),
        decreases list@.len() - i,
    {
        if same_names(list[i].as_slice(), names) {
            assert(name_lists(list@)[i as int] == name_list(names@));
            return true;
        }
        i = i + 1;
    }
    false
}

/// The directories below `root` that `path` names but a `..` then cancels.
pub fn cancelled_directories(root: &[Component], path: &[Component], platform: Platform) -> (r: Vec<
    Vec<Vec<u8>>,
>)
    ensures
        name_lists(r@) == cancelled(parts(root@), parts(path@), platform),
        proper_places(name_lists(r@), platform),
{
    let mut found: Vec<Vec<Vec<u8>>> = Vec::new();
    let mut here: Vec<Component> = Vec::new();
    let mut i: usize = 0;
    assert(parts(here@) =~= Seq::<Part>::empty());
    assert(name_lists(found@) =~= Seq::<Seq<Seq<u8>>>::empty());
    assert(parts(path@).skip(0) =~= parts(path@));
    while i < path.len()
        invariant
            i <= path@.len(),
            cancelled(parts(root@), parts(path@), platform) == cancelled_from(
                parts(root@),
                parts(path@).skip(i as int),
                parts(here@),
                name_lists(found@),
                platform,
            ),
        decreases path@.len() - i,
    {
        let ghost rest = parts(path@).skip(i as int);
        assert(rest.skip(1) =~= parts(path@).skip(i + 1));
        assert(rest[0] == path@[i as int]@);
        let ghost before = parts(here@);
        match &path[i] {
            Component::CurDir => {},
            Component::ParentDir => {
                let leaves = if here.len() > 0 {
                    match &here[here.len() - 1] {
                        Component::Normal(_) => true,
                        _ => false,
                    }
                } else {
                    false
                };
                if leaves {
                    match relative_components(root, here.as_slice(), platform) {
                        Some(names) => {
                            let ghost known = found@;
                            assert(name_list(names@).len() == names@.len());
                            if names.len() > 0 && !holds_names(found.as_slice(), names.as_slice()) {
                                let ghost added = name_list(names@);
                                found.push(names);
                                assert(name_lists(found@) =~= name_lists(known).push(added));
                            }
                        },
                        None => {},
                    }
                    here.truncate(here.len() - 1);
                    assert(parts(here@) =~= before.drop_last());
                }
            },
            part => {
                enter_component(&mut here, part, platform);
            },
        }
        i = i + 1;
    }
    proof {
        lemma_cancelled_are_proper(parts(root@), parts(path@), platform);
    }
    found
}

proof fn lemma_no_parent_no_climb(
    world: World,
    access: SnapshotAccess,
    rest: Seq<Part>,
    here: Seq<Part>,
    blocked: bool,
)
    requires
        forall|i: int| 0 <= i < rest.len() ==> !((#[trigger] rest[i]) is ParentDir),
    ensures
        !climbs(world, access, rest, here, blocked),
    decreases rest.len(),
{
    if rest.len() > 0 {
        let tail = rest.skip(1);
        assert forall|i: int| 0 <= i < tail.len() implies !((#[trigger] tail[i]) is ParentDir) by {
            assert(tail[i] == rest[i + 1]);
        }
        assert(!(rest[0] is ParentDir));
        let next = entered(here, rest[0], world.platform);
        lemma_no_parent_no_climb(world, access, tail, here, blocked);
        lemma_no_parent_no_climb(world, access, tail, next, true);
        lemma_no_parent_no_climb(world, access, tail, next, false);
        lemma_no_parent_no_climb(world, access, tail, standing(world, next), false);
        lemma_no_parent_no_climb(world, access, tail, pushed(here, rest[0]), blocked);
    }
}

proof fn lemma_blocked_without_climb(
    world: World,
    access: SnapshotAccess,
    rest: Seq<Part>,
    here: Seq<Part>,
)
    requires
        !climbs(world, access, rest, here, true),
    ensures
        forall|i: int| 0 <= i < rest.len() ==> !((#[trigger] rest[i]) is ParentDir),
    decreases rest.len(),
{
    if rest.len() > 0 {
        let tail = rest.skip(1);
        match rest[0] {
            Part::ParentDir => {},
            Part::CurDir => {
                lemma_blocked_without_climb(world, access, tail, here);
            },
            Part::Normal(_) => {
                lemma_blocked_without_climb(
                    world,
                    access,
                    tail,
                    entered(here, rest[0], world.platform),
                );
            },
            _ => {
                lemma_blocked_without_climb(world, access, tail, pushed(here, rest[0]));
            },
        }
        assert forall|i: int| 0 <= i < rest.len() implies !((#[trigger] rest[i]) is ParentDir) by {
            if i > 0 {
                assert(tail[i - 1] == rest[i]);
            }
        }
    }
}

proof fn lemma_blocked_climb(world: World, access: SnapshotAccess, rest: Seq<Part>, here: Seq<Part>, i: int)
    requires
        0 <= i < rest.len(),
        rest[i] is ParentDir,
    ensures
        climbs(world, access, rest, here, true),
    decreases rest.len(),
{
    if i > 0 && !(rest[0] is ParentDir) {
        let tail = rest.skip(1);
        assert(tail[i - 1] == rest[i]);
        lemma_blocked_climb(world, access, tail, here, i - 1);
        lemma_blocked_climb(world, access, tail, entered(here, rest[0], world.platform), i - 1);
        lemma_blocked_climb(world, access, tail, pushed(here, rest[0]), i - 1);
    }
}

/// A `..` anywhere after a component that it may not cancel bars the path.
pub proof fn lemma_barred_component(
    world: World,
    access: SnapshotAccess,
    name: Seq<u8>,
    rest: Seq<Part>,
    here: Seq<Part>,
    i: int,
)
    requires
        !cancellable(access, (world.traverse)(entered(here, Part::Normal(name), world.platform))),
        0 <= i < rest.len(),
        rest[i] is ParentDir,
    ensures
        climbs(world, access, seq![Part::Normal(name)] + rest, here, false),
{
    let path = seq![Part::Normal(name)] + rest;
    assert(path.skip(1) =~= rest);
    lemma_blocked_climb(
        world,
        access,
        rest,
        entered(here, Part::Normal(name), world.platform),
        i,
    );
}

/// What does not climb for a verifying run does not climb for a recording one.
pub proof fn lemma_record_is_laxer(world: World, rest: Seq<Part>, here: Seq<Part>)
    requires
        !climbs(world, SnapshotAccess::Verify, rest, here, false),
    ensures
        !climbs(world, SnapshotAccess::Record, rest, here, false),
    decreases rest.len(),
{
    if rest.len() > 0 {
        let tail = rest.skip(1);
        match rest[0] {
            Part::ParentDir => {
                lemma_record_is_laxer(world, tail, stepped_up(here));
            },
            Part::CurDir => {
                lemma_record_is_laxer(world, tail, here);
            },
            Part::Normal(_) => {
                let next = entered(here, rest[0], world.platform);
                if (world.traverse)(next) is Traversable {
                    lemma_record_is_laxer(world, tail, standing(world, next));
                } else {
                    lemma_blocked_without_climb(world, SnapshotAccess::Verify, tail, next);
                    lemma_no_parent_no_climb(world, SnapshotAccess::Record, tail, next, true);
                    lemma_no_parent_no_climb(world, SnapshotAccess::Record, tail, next, false);
                }
            },
            _ => {
                lemma_record_is_laxer(world, tail, pushed(here, rest[0]));
            },
        }
    }
}

/// Recording and verifying differ on absent components alone: where nothing is
/// absent, they judge every path alike.
pub proof fn lemma_accesses_differ_on_absence_only(
    world: World,
    rest: Seq<Part>,
    here: Seq<Part>,
    blocked: bool,
)
    requires
        forall|p: Seq<Part>| !((#[trigger] (world.traverse)(p)) is Absent),
    ensures
        climbs(world, SnapshotAccess::Record, rest, here, blocked) == climbs(
            world,
            SnapshotAccess::Verify,
            rest,
            here,
            blocked,
        ),
    decreases rest.len(),
{
    if rest.len() > 0 {
        let tail = rest.skip(1);
        let next = entered(here, rest[0], world.platform);
        lemma_accesses_differ_on_absence_only(world, tail, stepped_up(here), false);
        lemma_accesses_differ_on_absence_only(world, tail, here, blocked);
        lemma_accesses_differ_on_absence_only(world, tail, next, true);
        lemma_accesses_differ_on_absence_only(world, tail, standing(world, next), false);
        lemma_accesses_differ_on_absence_only(world, tail, pushed(here, rest[0]), blocked);
        assert(!((world.traverse)(next) is Absent));
    }
}

/// A chain of links that comes back to a path that it has been at does not resolve.
pub proof fn lemma_cycle_does_not_resolve(world: World, current: Seq<Part>, visited: Seq<Seq<Part>>)
    requires
        visited.contains(current),
    ensures
        chain_end(world, current, visited) is None,
{
}

/// Where a chain of links ends there is no link.
pub proof fn lemma_chain_ends_at_no_link(world: World, current: Seq<Part>, visited: Seq<Seq<Part>>)
    ensures
        chain_end(world, current, visited) matches Some(end) ==> (world.link)(end) is End,
    decreases MAX_VISITED_LINK_PATHS - visited.len(),
{
    if !(visited.len() >= MAX_VISITED_LINK_PATHS || visited.contains(current)) {
        match (world.link)(current) {
            LinkView::Target(target) => match link_leads_to(world, current, target) {
                Some(next) => {
                    lemma_chain_ends_at_no_link(world, next, visited.push(current));
                },
                None => {},
            },
            _ => {},
        }
    }
}

/// A step up takes the name before it away. At a root it stays, for there is nothing above
/// it; and where nothing is known of what is above, it is written down.
pub proof fn lemma_stepping_up(here: Seq<Part>, name: Seq<u8>)
    ensures
        stepped_up(here.push(Part::Normal(name))) == here,
        stepped_up(here.push(Part::RootDir)) == here.push(Part::RootDir),
        stepped_up(Seq::empty()) == seq![Part::ParentDir],
        stepped_up(here.push(Part::ParentDir)) == here.push(Part::ParentDir).push(Part::ParentDir),
{
    assert(here.push(Part::Normal(name)).drop_last() =~= here);
    assert(Seq::<Part>::empty().push(Part::ParentDir) =~= seq![Part::ParentDir]);
}

/// What a step up out of a component takes. A directory that the kernel enters may be left
/// again; one that it refuses may not; one that is missing may be left by a run that
/// records, which would create it, and not by one that compares.
pub proof fn lemma_leaving_a_component(
    world: World,
    access: SnapshotAccess,
    name: Seq<u8>,
    rest: Seq<Part>,
    here: Seq<Part>,
)
    ensures
        ({
            let next = entered(here, Part::Normal(name), world.platform);
            let path = seq![Part::Normal(name), Part::ParentDir] + rest;
            match (world.traverse)(next) {
                Traversability::Traversable => climbs(world, access, path, here, false) == climbs(
                    world,
                    access,
                    rest,
                    stepped_up(
                        match (world.canonical)(next) {
                            Some(place) => place,
                            None => next,
                        },
                    ),
                    false,
                ),
                Traversability::Absent => climbs(world, access, path, here, false) == (access is Verify
                    || climbs(world, access, rest, stepped_up(next), false)),
                Traversability::Refused => climbs(world, access, path, here, false),
            }
        }),
{
    let path = seq![Part::Normal(name), Part::ParentDir] + rest;
    let tail = seq![Part::ParentDir] + rest;
    assert(path.skip(1) =~= tail);
    assert(tail.skip(1) =~= rest);
    assert(path[0] == Part::Normal(name));
    assert(tail[0] == Part::ParentDir);
    reveal_with_fuel(climbs, 3);
}

/// How a chain of links goes on: it ends where there is no link, breaks off where the
/// kernel refuses, and else leads to the target, which is read from the place of the link
/// unless it is absolute. What was visited is not visited again, and there are never more
/// than 4096 links.
pub proof fn lemma_chain_goes_on(world: World, current: Seq<Part>, visited: Seq<Seq<Part>>)
    ensures
        visited.len() >= 4096 ==> chain_end(world, current, visited) is None,
        visited.len() < 4096 && !visited.contains(current) ==> match (world.link)(current) {
            LinkView::End => chain_end(world, current, visited) == Some(current),
            LinkView::Refused => chain_end(world, current, visited) is None,
            LinkView::Target(target) => {
                &&& absolute(target, world.platform) ==> chain_end(world, current, visited) == chain_end(
                    world,
                    target,
                    visited.push(current),
                )
                &&& !absolute(target, world.platform) && current.len() > 0 && current.last() is Normal ==> {
                    let holder = current.drop_last();
                    let place = match (world.canonical)(holder) {
                        Some(place) => place,
                        None => holder,
                    };
                    chain_end(world, current, visited) == chain_end(
                        world,
                        appended(place, target),
                        visited.push(current),
                    )
                }
            },
        },
{
}

/// What the walk below a directory does at each name: at a missing one it ends, past a
/// plain one and past a link that leads somewhere it goes on, and any other link is
/// followed to its end; one that the kernel refuses to follow cannot be resolved.
pub proof fn lemma_walk_meets_a_name(
    world: World,
    root: Seq<Part>,
    probe: Seq<Part>,
    name: Part,
    tail: Seq<Part>,
)
    ensures
        ({
            let next = entered(probe, name, world.platform);
            let found = dangling_from(world, root, probe, seq![name] + tail);
            let resolves = (world.reach)(next) is Reached && (world.canonical)(next) is Some;
            &&& (world.entry)(next) is Missing ==> found is Absent
            &&& (world.entry)(next) is Plain ==> found == dangling_from(world, root, next, tail)
            &&& (world.entry)(next) is Link && resolves ==> found == dangling_from(world, root, next, tail)
            &&& (world.entry)(next) is Link && (world.reach)(next) is Refused ==> found
                is UnresolvableClimb
            &&& (world.entry)(next) is Link && !resolves && !((world.reach)(next) is Refused) ==> {
                match chain_end(world, next, Seq::empty()) {
                    None => found is UnresolvableChain,
                    Some(end) => {
                        let full = entered_all(end, tail, world.platform);
                        &&& found is UnresolvableClimb == climbs(
                            world,
                            SnapshotAccess::Verify,
                            full,
                            Seq::empty(),
                            false,
                        )
                        &&& found matches DanglingView::ResolvesInside(place) ==> place == landing(
                            world,
                            full,
                        ) && begins_with(place, root)
                        &&& found is Refused ==> !begins_with(landing(world, full), root)
                        &&& !(found is Absent) && !(found is UnresolvableChain)
                    },
                }
            }
        }),
        dangling_from(world, root, probe, Seq::empty()) is Absent,
{
    let rest = seq![name] + tail;
    assert(rest[0] == name);
    assert(rest.skip(1) =~= tail);
}

/// Where a path lands: at its canonical form if it has one, normalized; otherwise where
/// the part of it lands that is one component shorter, with that component after it.
pub proof fn lemma_landing_falls_back(world: World, path: Seq<Part>, last: Part)
    ensures
        (world.canonical)(path) matches Some(place) ==> landing(world, path) == normalized(
            place,
            world.platform,
        ) && anchored(world, path) == place,
        (world.canonical)(path.push(last)) is None && !(last is RootDir) && !(last is Prefix) ==> anchored(
            world,
            path.push(last),
        ) == anchored(world, path).push(last),
        landing(world, path) == normalized(anchored(world, path), world.platform),
        path.len() == 0 && (world.canonical)(path) is None ==> landing(world, path) == path,
{
    let n = path.len() as int;
    assert(path.take(n) =~= path);
    if let Some(place) = (world.canonical)(path) {
        assert(place + path.skip(n) =~= place);
    }
    let more = path.push(last);
    assert(more.take(n + 1) =~= more);
    lemma_anchored_prefix(world, path, last, path.len());
    lemma_landing_is_anchored(world, path, path.len());
}

proof fn lemma_anchored_prefix(world: World, path: Seq<Part>, last: Part, n: nat)
    requires
        n <= path.len(),
    ensures
        anchored_from(world, path.push(last), n) == anchored_from(world, path, n).push(last),
    decreases n,
{
    let more = path.push(last);
    assert(more.take(n as int) =~= path.take(n as int));
    match (world.canonical)(path.take(n as int)) {
        Some(place) => {
            assert(place + more.skip(n as int) =~= (place + path.skip(n as int)).push(last));
        },
        None => {
            if n > 0 && parent_of(path.take(n as int)) is Some {
                lemma_anchored_prefix(world, path, last, (n - 1) as nat);
            }
        },
    }
}

proof fn lemma_landing_is_anchored(world: World, path: Seq<Part>, n: nat)
    ensures
        landing_from(world, path, n) == normalized(anchored_from(world, path, n), world.platform),
    decreases n,
{
    if (world.canonical)(path.take(n as int)) is None && n > 0 && parent_of(path.take(n as int)) is Some {
        lemma_landing_is_anchored(world, path, (n - 1) as nat);
    }
}

/// How the walk that looks for a climb goes on, component by component. What it may leave
/// again it passes; what bars it bars every step up from then on; `.` changes nothing; and
/// without a component there is no climb.
pub proof fn lemma_climb_component_by_component(
    world: World,
    access: SnapshotAccess,
    part: Part,
    rest: Seq<Part>,
    here: Seq<Part>,
    blocked: bool,
)
    ensures
        ({
            let path = seq![part] + rest;
            let found = climbs(world, access, path, here, blocked);
            &&& !climbs(world, access, Seq::empty(), here, blocked)
            &&& part is CurDir ==> found == climbs(world, access, rest, here, blocked)
            &&& part is ParentDir ==> found == (blocked || climbs(
                world,
                access,
                rest,
                stepped_up(here),
                false,
            ))
            &&& part is RootDir || part is Prefix ==> found == climbs(
                world,
                access,
                rest,
                pushed(here, part),
                blocked,
            )
            &&& part is Normal ==> {
                let next = entered(here, part, world.platform);
                &&& blocked ==> found == climbs(world, access, rest, next, true)
                &&& !blocked ==> match (world.traverse)(next) {
                    Traversability::Traversable => found == climbs(
                        world,
                        access,
                        rest,
                        match (world.canonical)(next) {
                            Some(place) => place,
                            None => next,
                        },
                        false,
                    ),
                    Traversability::Absent => found == climbs(
                        world,
                        access,
                        rest,
                        next,
                        access is Verify,
                    ),
                    Traversability::Refused => found == climbs(world, access, rest, next, true),
                }
            }
        }),
{
    let path = seq![part] + rest;
    assert(path[0] == part);
    assert(path.skip(1) =~= rest);
}

/// How the directories are listed that a path leaves again: each step up out of a place
/// below the root adds that place, once and under the names that lead to it; nothing else
/// adds any.
pub proof fn lemma_cancelling_component_by_component(
    root: Seq<Part>,
    part: Part,
    rest: Seq<Part>,
    here: Seq<Part>,
    found: Seq<Seq<Seq<u8>>>,
    platform: Platform,
)
    ensures
        ({
            let listed = cancelled_from(root, seq![part] + rest, here, found, platform);
            &&& cancelled_from(root, Seq::empty(), here, found, platform) == found
            &&& part is CurDir ==> listed == cancelled_from(root, rest, here, found, platform)
            &&& part is Normal || part is RootDir || part is Prefix ==> listed == cancelled_from(
                root,
                rest,
                entered(here, part, platform),
                found,
                platform,
            )
            &&& part is ParentDir && (here.len() == 0 || !(here.last() is Normal)) ==> listed
                == cancelled_from(root, rest, here, found, platform)
            &&& part is ParentDir && here.len() > 0 && here.last() is Normal ==> match relative_names(
                root,
                here,
                platform,
            ) {
                Some(names) => listed == cancelled_from(
                    root,
                    rest,
                    here.drop_last(),
                    if names.len() == 0 || found.contains(names) {
                        found
                    } else {
                        found.push(names)
                    },
                    platform,
                ),
                None => listed == cancelled_from(root, rest, here.drop_last(), found, platform),
            }
        }),
{
    let path = seq![part] + rest;
    assert(path[0] == part);
    assert(path.skip(1) =~= rest);
}

/// What of a path lies below a directory that it begins with is what follows; a path that
/// does not begin with it is taken whole.
pub proof fn lemma_what_lies_below(base: Seq<Part>, rest: Seq<Part>, path: Seq<Part>)
    ensures
        below(base, base + rest) == rest,
        !begins_with(path, base) ==> below(base, path) == path,
{
    assert((base + rest).take(base.len() as int) =~= base);
    assert((base + rest).skip(base.len() as int) =~= rest);
}

} // verus!
