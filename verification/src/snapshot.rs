//! What snapshot paths resolve to.
//!
//! A path that stays in the workspace reaches exactly the file that it names, and one
//! that leaves it reaches none.
use vstd::prelude::*;
use vstd::utf8::*;

use crate::error::ErrorView;
use crate::facts::{LinkView, World};
use crate::path::{
    absolute, all_entries, appended, begins_with, entered, entered_all, entry_name, entry_names,
    lemma_begins_with_is_a_prefix, lemma_entry_names_by_their_bytes, lemma_normalize_keeps_names,
    lemma_normalize_keeps_settled, lemma_normalize_step_by_step,
    lemma_relative_names_are_what_follows, parent_of, pushed, relative_names, settled_shape, Part,
    Platform,
};
use crate::rawpath::{joined, lemma_lone_name, lemma_names_follow_the_base, parsed, slashed};
use crate::resolve::{
    anchored, anchored_from, below, cancelled, cancelled_from, chain_end, climbs, dangling_from,
    dangling_verdict, landing, landing_from, lemma_landing_falls_back, lemma_leaving_a_component,
    lemma_walk_meets_a_name, standing, stepped_up, DanglingView, SnapshotAccess,
};
use crate::safepath::Traversability;
use crate::workspace::{
    normals, resolution, root_fault, CaptureView, Resolution, TargetView, WorkspaceView,
};

verus! {

/// Whether the workspace is the one that was held open when the run started.
pub open spec fn root_stands(world: World, space: WorkspaceView) -> bool {
    &&& world.platform == space.platform
    &&& space.capture matches CaptureView::Held(captured) && (captured matches Some(id)
        ==> world.anchor == Some(id) && (world.identity)(space.root) == Some(id))
}

/// Whether a path has no step up in it.
pub open spec fn never_climbs(path: Seq<Part>) -> bool {
    forall|i: int| 0 <= i < path.len() ==> !((#[trigger] path[i]) is ParentDir)
}

proof fn lemma_no_step_up_no_climb(
    world: World,
    access: SnapshotAccess,
    rest: Seq<Part>,
    here: Seq<Part>,
    blocked: bool,
)
    requires
        never_climbs(rest),
    ensures
        !climbs(world, access, rest, here, blocked),
    decreases rest.len(),
{
    if rest.len() > 0 {
        let tail = rest.skip(1);
        assert forall|i: int| 0 <= i < tail.len() implies !((#[trigger] tail[i]) is ParentDir) by {
            assert(tail[i] == rest[i + 1]);
        }
        assert(!(rest[0] is ParentDir));
        match rest[0] {
            Part::Normal(_) => {
                let next = entered(here, rest[0], world.platform);
                lemma_no_step_up_no_climb(world, access, tail, next, true);
                lemma_no_step_up_no_climb(world, access, tail, next, false);
                lemma_no_step_up_no_climb(world, access, tail, standing(world, next), false);
            },
            Part::CurDir => {
                lemma_no_step_up_no_climb(world, access, tail, here, blocked);
            },
            _ => {
                lemma_no_step_up_no_climb(world, access, tail, pushed(here, rest[0]), blocked);
            },
        }
    }
}

proof fn lemma_no_step_up_cancels_nothing(
    root: Seq<Part>,
    rest: Seq<Part>,
    here: Seq<Part>,
    found: Seq<Seq<Seq<u8>>>,
    platform: Platform,
)
    requires
        never_climbs(rest),
    ensures
        cancelled_from(root, rest, here, found, platform) == found,
    decreases rest.len(),
{
    if rest.len() > 0 {
        let tail = rest.skip(1);
        assert forall|i: int| 0 <= i < tail.len() implies !((#[trigger] tail[i]) is ParentDir) by {
            assert(tail[i] == rest[i + 1]);
        }
        assert(!(rest[0] is ParentDir));
        if rest[0] is CurDir {
            lemma_no_step_up_cancels_nothing(root, tail, here, found, platform);
        } else {
            lemma_no_step_up_cancels_nothing(
                root,
                tail,
                entered(here, rest[0], platform),
                found,
                platform,
            );
        }
    }
}

proof fn lemma_entering_an_entry(base: Seq<Part>, name: Seq<u8>, platform: Platform)
    requires
        entry_name(name, platform),
    ensures
        entered(base, Part::Normal(name), platform) == base.push(Part::Normal(name)),
{
    if platform is Windows {
        lemma_lone_name(name);
        reveal_with_fuel(appended, 2);
        assert(seq![Part::Normal(name)].drop_last() =~= Seq::<Part>::empty());
        assert(appended(base, seq![Part::Normal(name)]) == pushed(base, Part::Normal(name)));
    }
}

/// Whether no link stands at any of these names, one after the other from `base`.
pub open spec fn no_link_below(world: World, base: Seq<Part>, names: Seq<Seq<u8>>) -> bool {
    forall|k: int|
        1 <= k <= names.len() ==> !((world.entry)(base + #[trigger] normals(names.take(k))) is Link)
}

/// Whether every one of these names that the kernel can canonicalize, from `base`, is
/// where it seems to be: below `root`, under the same names.
pub open spec fn in_place_below(
    world: World,
    base: Seq<Part>,
    root: Seq<Part>,
    names: Seq<Seq<u8>>,
) -> bool {
    forall|k: int|
        1 <= k <= names.len() ==> {
            let seen = (world.canonical)(base + #[trigger] normals(names.take(k)));
            seen is None || seen == Some(root + normals(names.take(k)))
        }
}

proof fn lemma_no_link_is_found(
    world: World,
    root: Seq<Part>,
    base: Seq<Part>,
    names: Seq<Seq<u8>>,
    k: int,
)
    requires
        0 <= k <= names.len(),
        all_entries(names, world.platform),
        no_link_below(world, base, names),
    ensures
        dangling_from(
            world,
            root,
            base + normals(names.take(k)),
            normals(names).skip(k),
        ) == DanglingView::Absent,
    decreases names.len() - k,
{
    let probe = base + normals(names.take(k));
    let rest = normals(names).skip(k);
    if k < names.len() {
        let next = base + normals(names.take(k + 1));
        assert(rest[0] == Part::Normal(names[k]));
        assert(entry_name(names[k], world.platform));
        lemma_entering_an_entry(probe, names[k], world.platform);
        assert(probe.push(Part::Normal(names[k])) =~= next);
        assert(rest.skip(1) =~= normals(names).skip(k + 1));
        assert(!((world.entry)(base + normals(names.take(k + 1))) is Link));
        lemma_no_link_is_found(world, root, base, names, k + 1);
    } else {
        assert(rest.len() == 0);
    }
}

proof fn lemma_lands_in_place(
    world: World,
    base: Seq<Part>,
    root: Seq<Part>,
    names: Seq<Seq<u8>>,
    k: int,
)
    requires
        0 <= k <= names.len(),
        (world.canonical)(base) == Some(root),
        in_place_below(world, base, root, names),
        settled_shape(root),
        world.platform is Windows ==> entry_names(root, world.platform) && all_entries(
            names,
            world.platform,
        ),
        never_climbs(root),
    ensures
        landing_from(world, base + normals(names), (base.len() + k) as nat) == root + normals(names),
        never_climbs(anchored_from(world, base + normals(names), (base.len() + k) as nat)),
    decreases k,
{
    let path = base + normals(names);
    let n = base.len() + k;
    assert(path.take(n) =~= base + normals(names.take(k)));
    assert(path.skip(n) =~= normals(names).skip(k));
    assert((root + normals(names.take(k))) + normals(names).skip(k) =~= root + normals(names));
    lemma_normalize_keeps_names(root, names, world.platform);
    assert(root + normals(names) =~= root + Seq::new(names.len(), |i: int| Part::Normal(names[i])));
    assert(never_climbs(root + normals(names)));
    if k == 0 {
        assert(path.take(n) =~= base);
        assert(root + path.skip(n) =~= root + normals(names));
    } else {
        lemma_lands_in_place(world, base, root, names, k - 1);
        let seen = (world.canonical)(base + normals(names.take(k)));
        assert(seen is None || seen == Some(root + normals(names.take(k))));
        if seen is None {
            assert(path.take(n).last() == Part::Normal(names[k - 1]));
            assert(parent_of(path.take(n)) is Some);
        }
    }
}

/// A snapshot path made of names alone resolves to exactly these names below the root, in
/// order, for comparing and for recording alike, whatever of it exists already. This
/// holds while the workspace stands and no link is on the way; `walked` is how the
/// workspace directory is written, without a step up.
proof fn lemma_names_resolve(
    world: World,
    space: WorkspaceView,
    rel: Seq<char>,
    access: SnapshotAccess,
    names: Seq<Seq<u8>>,
)
    requires
        root_stands(world, space),
        names.len() > 0,
        all_entries(names, space.platform),
        parsed(joined(space.cwd, encode_utf8(rel), space.platform), space.platform) == parsed(
            space.cwd,
            space.platform,
        ) + normals(names),
        never_climbs(parsed(space.cwd, space.platform)),
        never_climbs(space.root),
        settled_shape(space.root),
        space.platform is Windows ==> entry_names(space.root, space.platform),
        (world.canonical)(parsed(space.cwd, space.platform)) == Some(space.root),
        in_place_below(world, parsed(space.cwd, space.platform), space.root, names),
        no_link_below(world, parsed(space.cwd, space.platform), names),
    ensures
        resolution(world, space, rel, access) == Resolution::Target(
            TargetView {
                platform: space.platform,
                display: joined(space.cwd, encode_utf8(rel), space.platform),
                root: space.root,
                components: names,
                traversed_dirs: Seq::empty(),
            },
        ),
{
    let walked = parsed(space.cwd, space.platform);
    let candidate = walked + normals(names);
    let place = space.root + normals(names);
    assert(never_climbs(candidate));
    lemma_no_step_up_no_climb(world, access, candidate, Seq::empty(), false);
    lemma_lands_in_place(world, walked, space.root, names, names.len() as int);
    assert(candidate.len() == walked.len() + names.len());
    assert(landing(world, candidate) == place);
    lemma_begins_with_is_a_prefix(place, space.root, normals(names));
    lemma_begins_with_is_a_prefix(candidate, walked, normals(names));
    assert(below(walked, candidate) =~= normals(names));
    assert(normals(names).skip(0) =~= normals(names));
    assert(walked + normals(names.take(0)) =~= walked);
    lemma_no_link_is_found(world, space.root, walked, names, 0);
    lemma_relative_names_are_what_follows(space.root, names, place, space.platform);
    assert(place =~= space.root + Seq::new(names.len(), |i: int| Part::Normal(names[i])));
    lemma_no_step_up_cancels_nothing(
        space.root,
        anchored(world, candidate),
        Seq::empty(),
        Seq::empty(),
        space.platform,
    );
    assert(cancelled(space.root, anchored(world, candidate), space.platform) =~= Seq::<
        Seq<Seq<u8>>,
    >::empty());
}

/// On Unix: a path made only of names, none of them empty, `.` or `..` and none holding a
/// `/`, resolves to a target whose components are exactly those names, in order, and
/// nothing is created for it but the file, for both accesses. This holds while the
/// workspace is the one held open, its directory is written without a step up, and no
/// link is on the way.
pub proof fn lemma_unix_names_resolve(
    world: World,
    space: WorkspaceView,
    rel: Seq<char>,
    access: SnapshotAccess,
    names: Seq<Seq<u8>>,
)
    requires
        root_stands(world, space),
        space.platform is Unix,
        names.len() > 0,
        forall|i: int|
            0 <= i < names.len() ==> (#[trigger] names[i]).len() > 0 && names[i] != seq![46u8] && names[i]
                != seq![46u8, 46u8] && !names[i].contains(47u8),
        encode_utf8(rel) == slashed(names),
        never_climbs(parsed(space.cwd, space.platform)),
        never_climbs(space.root),
        settled_shape(space.root),
        (world.canonical)(parsed(space.cwd, space.platform)) == Some(space.root),
        in_place_below(world, parsed(space.cwd, space.platform), space.root, names),
        no_link_below(world, parsed(space.cwd, space.platform), names),
    ensures
        resolution(world, space, rel, access) == Resolution::Target(
            TargetView {
                platform: Platform::Unix,
                display: joined(space.cwd, encode_utf8(rel), Platform::Unix),
                root: space.root,
                components: names,
                traversed_dirs: Seq::empty(),
            },
        ),
{
    assert forall|i: int| 0 <= i < names.len() implies entry_name(#[trigger] names[i], space.platform) by {
        lemma_entry_names_by_their_bytes(names[i]);
        assert forall|j: int| 0 <= j < names[i].len() implies #[trigger] names[i][j] != 47 by {
            assert(names[i].contains(names[i][j]));
        }
    }
    lemma_names_follow_the_base(space.cwd, names, space.platform);
    assert(normals(names) =~= Seq::new(names.len(), |i: int| Part::Normal(names[i])));
    lemma_names_resolve(world, space, rel, access, names);
}

/// On Windows: a path made only of names of entries resolves to a target whose components
/// are exactly those names, in order, for both accesses. This holds while the workspace
/// stands, no link is on the way, and the workspace directory is written as a relative
/// path or on a drive, without a step up.
pub proof fn lemma_windows_names_resolve(
    world: World,
    space: WorkspaceView,
    rel: Seq<char>,
    access: SnapshotAccess,
    names: Seq<Seq<u8>>,
)
    requires
        root_stands(world, space),
        space.platform is Windows,
        names.len() > 0,
        all_entries(names, Platform::Windows),
        encode_utf8(rel) == slashed(names),
        space.cwd.len() > 0,
        space.cwd[0] != 47 && space.cwd[0] != 92,
        space.cwd.len() == 2 ==> space.cwd[1] != 58,
        never_climbs(parsed(space.cwd, space.platform)),
        never_climbs(space.root),
        settled_shape(space.root),
        entry_names(space.root, space.platform),
        (world.canonical)(parsed(space.cwd, space.platform)) == Some(space.root),
        in_place_below(world, parsed(space.cwd, space.platform), space.root, names),
        no_link_below(world, parsed(space.cwd, space.platform), names),
    ensures
        resolution(world, space, rel, access) == Resolution::Target(
            TargetView {
                platform: Platform::Windows,
                display: joined(space.cwd, encode_utf8(rel), Platform::Windows),
                root: space.root,
                components: names,
                traversed_dirs: Seq::empty(),
            },
        ),
{
    lemma_names_follow_the_base(space.cwd, names, space.platform);
    assert(normals(names) =~= Seq::new(names.len(), |i: int| Part::Normal(names[i])));
    lemma_names_resolve(world, space, rel, access, names);
}

proof fn lemma_working_links_are_passed(
    world: World,
    root: Seq<Part>,
    probe: Seq<Part>,
    rest: Seq<Part>,
)
    requires
        forall|p: Seq<Part>|
            (#[trigger] (world.entry)(p)) is Link ==> (world.reach)(p) is Reached && (world.canonical)(p)
                is Some,
    ensures
        dangling_from(world, root, probe, rest) == DanglingView::Absent,
    decreases rest.len(),
{
    if rest.len() > 0 {
        let next = entered(probe, rest[0], world.platform);
        lemma_working_links_are_passed(world, root, next, rest.skip(1));
    }
}

/// A path to something that exists, without a step up and over links that all lead
/// somewhere, resolves to where the kernel says it is: below the root, to the names that
/// follow the root; at the root, to a fault, for that is no file; anywhere else, to the
/// fault that it escapes. So it is for comparing and for recording.
pub proof fn lemma_existing_path_resolves_to_its_place(
    world: World,
    space: WorkspaceView,
    rel: Seq<char>,
    access: SnapshotAccess,
    place: Seq<Part>,
    names: Seq<Seq<u8>>,
)
    requires
        root_stands(world, space),
        ({
            let candidate = parsed(joined(space.cwd, encode_utf8(rel), space.platform), space.platform);
            never_climbs(candidate) && (world.canonical)(candidate) == Some(place)
        }),
        settled_shape(place),
        never_climbs(place),
        space.platform is Windows ==> entry_names(place, space.platform),
        forall|p: Seq<Part>|
            (#[trigger] (world.entry)(p)) is Link ==> (world.reach)(p) is Reached && (world.canonical)(p)
                is Some,
    ensures
        place == space.root + normals(names) && names.len() > 0 && all_entries(names, space.platform)
            ==> resolution(world, space, rel, access) == Resolution::Target(
            TargetView {
                platform: space.platform,
                display: joined(space.cwd, encode_utf8(rel), space.platform),
                root: space.root,
                components: names,
                traversed_dirs: Seq::empty(),
            },
        ),
        place == space.root ==> resolution(world, space, rel, access) == Resolution::Fault(
            ErrorView::Scenario(
                "snapshot path '"@ + rel
                    + "' names the workspace directory itself, not a file to record"@,
            ),
        ),
        !begins_with(place, space.root) ==> resolution(world, space, rel, access) == Resolution::Fault(
            ErrorView::Scenario(
                "snapshot path '"@ + rel
                    + "' escapes the workspace; snapshot writes are confined to the workspace directory"@,
            ),
        ),
{
    let candidate = parsed(joined(space.cwd, encode_utf8(rel), space.platform), space.platform);
    let walked = parsed(space.cwd, space.platform);
    let n = candidate.len() as int;
    lemma_no_step_up_no_climb(world, access, candidate, Seq::empty(), false);
    assert(candidate.take(n) =~= candidate);
    assert(place + candidate.skip(n) =~= place);
    lemma_normalize_keeps_settled(place, space.platform);
    assert(landing(world, candidate) == place);
    assert(anchored(world, candidate) == place);
    lemma_working_links_are_passed(world, space.root, walked, below(walked, candidate));
    lemma_no_step_up_cancels_nothing(
        space.root,
        place,
        Seq::empty(),
        Seq::empty(),
        space.platform,
    );
    assert(cancelled(space.root, place, space.platform) =~= Seq::<Seq<Seq<u8>>>::empty());
    if place == space.root + normals(names) && names.len() > 0 && all_entries(names, space.platform) {
        lemma_begins_with_is_a_prefix(place, space.root, normals(names));
        lemma_relative_names_are_what_follows(space.root, names, place, space.platform);
        assert(place =~= space.root + Seq::new(names.len(), |i: int| Part::Normal(names[i])));
    }
    if place == space.root {
        let none = Seq::<Part>::empty();
        assert(space.root + none =~= place);
        lemma_begins_with_is_a_prefix(place, space.root, none);
        assert(place.skip(space.root.len() as int) =~= none);
    }
}

/// Where a link points at nothing, its end decides. Of a link to an absolute path whose
/// directory exists: below the root the snapshot is the file that the link names, and
/// anywhere else the path is refused because it passes through a link.
pub proof fn lemma_dangling_link_is_judged_by_its_end(
    world: World,
    space: WorkspaceView,
    rel: Seq<char>,
    access: SnapshotAccess,
    link: Seq<u8>,
    target: Seq<Part>,
    dir: Seq<Part>,
    name: Seq<u8>,
    names: Seq<Seq<u8>>,
)
    requires
        root_stands(world, space),
        entry_name(link, space.platform),
        entry_name(name, space.platform),
        ({
            let walked = parsed(space.cwd, space.platform);
            let at = walked.push(Part::Normal(link));
            &&& parsed(joined(space.cwd, encode_utf8(rel), space.platform), space.platform) == at
            &&& never_climbs(walked)
            &&& (world.canonical)(walked) == Some(space.root)
            &&& (world.canonical)(at) is None
            &&& (world.entry)(at) is Link
            &&& (world.reach)(at) is Missing
            &&& (world.link)(at) == LinkView::Target(target)
            &&& at != target
        }),
        never_climbs(space.root),
        settled_shape(space.root),
        space.platform is Windows ==> entry_names(space.root, space.platform),
        absolute(target, space.platform),
        never_climbs(target),
        target.len() > 0,
        target.last() == Part::Normal(name),
        (world.link)(target) is End,
        (world.canonical)(target) is None,
        (world.canonical)(target.drop_last()) == Some(dir),
        never_climbs(dir),
        settled_shape(dir),
        space.platform is Windows ==> entry_names(dir, space.platform),
    ensures
        dir.push(Part::Normal(name)) == space.root + normals(names) && names.len() > 0 && all_entries(
            names,
            space.platform,
        ) ==> (resolution(world, space, rel, access) matches Resolution::Target(found)
            && found.components == names && found.root == space.root),
        !begins_with(dir.push(Part::Normal(name)), space.root) ==> resolution(world, space, rel, access)
            == Resolution::Fault(
            ErrorView::Scenario(
                "snapshot path '"@ + rel
                    + "' passes through a symlink; snapshot writes must not follow symlinks"@,
            ),
        ),
{
    let platform = space.platform;
    let walked = parsed(space.cwd, platform);
    let at = walked.push(Part::Normal(link));
    let place = dir.push(Part::Normal(name));
    let none = Seq::<Part>::empty();
    assert(never_climbs(at));
    lemma_no_step_up_no_climb(world, access, at, none, false);
    lemma_no_step_up_no_climb(world, SnapshotAccess::Verify, target, none, false);
    assert(at.drop_last() =~= walked);
    lemma_lands_in_its_directory(world, at, space.root, link);
    lemma_lands_in_its_directory(world, target, dir, name);
    lemma_begins_with_is_a_prefix(landing(world, at), space.root, seq![Part::Normal(link)]);
    assert(space.root + seq![Part::Normal(link)] =~= space.root.push(Part::Normal(link)));
    lemma_chain_of_one_link(world, at, target);
    assert(entered_all(target, none, platform) == target);
    lemma_begins_with_is_a_prefix(at, walked, seq![Part::Normal(link)]);
    assert(walked + seq![Part::Normal(link)] =~= at);
    let rest = below(walked, at);
    assert(rest =~= seq![Part::Normal(link)]);
    lemma_entering_an_entry(walked, link, platform);
    assert(rest.skip(1) =~= none);
    let verdict = dangling_from(world, space.root, walked, rest);
    assert(verdict == dangling_verdict(world, space.root, at, none));
    if place == space.root + normals(names) && names.len() > 0 && all_entries(names, platform) {
        lemma_begins_with_is_a_prefix(place, space.root, normals(names));
        lemma_relative_names_are_what_follows(space.root, names, place, platform);
        assert(place =~= space.root + Seq::new(names.len(), |i: int| Part::Normal(names[i])));
        assert(verdict == DanglingView::ResolvesInside(place));
    }
    if !begins_with(place, space.root) {
        assert(verdict == DanglingView::Refused);
    }
}

proof fn lemma_lands_in_its_directory(world: World, path: Seq<Part>, dir: Seq<Part>, name: Seq<u8>)
    requires
        path.len() > 0,
        path.last() == Part::Normal(name),
        entry_name(name, world.platform),
        (world.canonical)(path) is None,
        (world.canonical)(path.drop_last()) == Some(dir),
        settled_shape(dir),
        world.platform is Windows ==> entry_names(dir, world.platform),
    ensures
        landing(world, path) == dir.push(Part::Normal(name)),
{
    let n = path.len() as int;
    let alone = seq![name];
    assert(path.take(n) =~= path);
    assert(parent_of(path) is Some);
    assert(path.take(n - 1) =~= path.drop_last());
    assert(path.skip(n - 1) =~= seq![Part::Normal(name)]);
    lemma_normalize_keeps_names(dir, alone, world.platform);
    assert(dir + path.skip(n - 1) =~= dir.push(Part::Normal(name)));
    assert(dir + Seq::new(alone.len(), |i: int| Part::Normal(alone[i])) =~= dir.push(Part::Normal(name)));
    assert(landing_from(world, path, (n - 1) as nat) == dir.push(Part::Normal(name)));
}

proof fn lemma_chain_of_one_link(world: World, at: Seq<Part>, target: Seq<Part>)
    requires
        (world.link)(at) == LinkView::Target(target),
        absolute(target, world.platform),
        (world.link)(target) is End,
        at != target,
    ensures
        chain_end(world, at, Seq::empty()) == Some(target),
{
    let visited = Seq::<Seq<Part>>::empty();
    assert(!visited.contains(at));
    let once = visited.push(at);
    assert(!once.contains(target)) by {
        if once.contains(target) {
            let k = choose|k: int| 0 <= k < once.len() && once[k] == target;
            assert(k == 0);
        }
    }
    assert(chain_end(world, target, once) == Some(target));
}

proof fn lemma_root_is_rebuilt(
    root: Seq<Part>,
    k: int,
    tail: Seq<Part>,
    found: Seq<Seq<Seq<u8>>>,
    platform: Platform,
)
    requires
        0 <= k <= root.len(),
        never_climbs(root),
        settled_shape(root),
        platform is Windows ==> entry_names(root, platform),
    ensures
        cancelled_from(root, root.skip(k) + tail, root.take(k), found, platform) == cancelled_from(
            root,
            tail,
            root,
            found,
            platform,
        ),
    decreases root.len() - k,
{
    let rest = root.skip(k) + tail;
    if k == root.len() {
        assert(rest =~= tail);
        assert(root.take(k) =~= root);
    } else {
        let part = root[k];
        assert(rest[0] == part);
        assert(rest.skip(1) =~= root.skip(k + 1) + tail);
        assert(!(part is ParentDir) && !(part is CurDir));
        let here = root.take(k);
        let next = root.take(k + 1);
        assert(here.push(part) =~= next);
        match part {
            Part::Normal(name) => {
                if platform is Windows {
                    assert(entry_name(name, platform));
                    lemma_entering_an_entry(here, name, platform);
                }
            },
            Part::RootDir => {
                if k == 0 {
                    assert(next =~= seq![part]);
                } else {
                    assert(k == 1 && root[0] is Prefix);
                    assert(here[0] == root[0]);
                    assert(next =~= seq![here[0], part]);
                }
            },
            _ => {
                assert(k == 0);
                assert(next =~= seq![part]);
            },
        }
        assert(entered(here, part, platform) == next);
        lemma_root_is_rebuilt(root, k + 1, tail, found, platform);
    }
}

/// Whether every component can be entered, but for those with this name, of which the
/// kernel says the same wherever they stand.
pub open spec fn only_bars(world: World, name: Seq<u8>, verdict: Traversability) -> bool {
    forall|p: Seq<Part>|
        p.len() > 0 ==> #[trigger] (world.traverse)(p) == if p.last() == Part::Normal(name) {
            verdict
        } else {
            Traversability::Traversable
        }
}

proof fn lemma_climb_out_of_a_name(
    world: World,
    access: SnapshotAccess,
    front: Seq<Part>,
    here: Seq<Part>,
    gone: Seq<u8>,
    kept: Seq<u8>,
    verdict: Traversability,
)
    requires
        entry_name(gone, world.platform),
        only_bars(world, gone, verdict),
        never_climbs(front),
        forall|i: int|
            0 <= i < front.len() ==> (#[trigger] front[i] matches Part::Normal(n) ==> n != gone
                && entry_name(n, world.platform)),
    ensures
        climbs(
            world,
            access,
            front + seq![Part::Normal(gone), Part::ParentDir, Part::Normal(kept)],
            here,
            false,
        ) == (verdict is Refused || (verdict is Absent && access is Verify)),
    decreases front.len(),
{
    let end = seq![Part::Normal(gone), Part::ParentDir, Part::Normal(kept)];
    let path = front + end;
    if front.len() == 0 {
        assert(path =~= seq![Part::Normal(gone), Part::ParentDir] + seq![Part::Normal(kept)]);
        lemma_leaving_a_component(world, access, gone, seq![Part::Normal(kept)], here);
        lemma_entering_an_entry(here, gone, world.platform);
        let next = here.push(Part::Normal(gone));
        assert(next.last() == Part::Normal(gone));
        assert((world.traverse)(next) == verdict);
        let last = seq![Part::Normal(kept)];
        assert(never_climbs(last));
        lemma_no_step_up_no_climb(
            world,
            access,
            last,
            stepped_up(standing(world, next)),
            false,
        );
        lemma_no_step_up_no_climb(world, access, last, stepped_up(next), false);
    } else {
        let tail = front.skip(1);
        assert(path[0] == front[0]);
        assert(path.skip(1) =~= tail + end);
        assert(!(front[0] is ParentDir));
        assert forall|i: int| 0 <= i < tail.len() implies !((#[trigger] tail[i]) is ParentDir) && (tail[i] matches Part::Normal(
            n,
        ) ==> n != gone && entry_name(n, world.platform)) by {
            assert(tail[i] == front[i + 1]);
        }
        match front[0] {
            Part::Normal(name) => {
                lemma_entering_an_entry(here, name, world.platform);
                let next = here.push(front[0]);
                assert(next.last() == front[0]);
                assert((world.traverse)(next) is Traversable);
                lemma_climb_out_of_a_name(
                    world,
                    access,
                    tail,
                    standing(world, next),
                    gone,
                    kept,
                    verdict,
                );
            },
            Part::CurDir => {
                lemma_climb_out_of_a_name(world, access, tail, here, gone, kept, verdict);
            },
            _ => {
                lemma_climb_out_of_a_name(
                    world,
                    access,
                    tail,
                    pushed(here, front[0]),
                    gone,
                    kept,
                    verdict,
                );
            },
        }
    }
}

/// A step up out of a component that is not there, as in `missing/../kept`. A run that
/// records resolves it to the name after it and notes the missing directory, to be
/// created; a run that compares fails the expectation and says why. Where the kernel
/// refuses to enter the component, both do.
pub proof fn lemma_missing_directory_is_left_by_recording_only(
    world: World,
    space: WorkspaceView,
    rel: Seq<char>,
    access: SnapshotAccess,
    gone: Seq<u8>,
    kept: Seq<u8>,
    verdict: Traversability,
)
    requires
        root_stands(world, space),
        entry_name(gone, space.platform),
        entry_name(kept, space.platform),
        !(verdict is Traversable),
        only_bars(world, gone, verdict),
        ({
            let walked = parsed(space.cwd, space.platform);
            let inner = walked.push(Part::Normal(gone));
            let back = inner.push(Part::ParentDir);
            &&& parsed(joined(space.cwd, encode_utf8(rel), space.platform), space.platform) == back.push(
                Part::Normal(kept),
            )
            &&& never_climbs(walked)
            &&& forall|i: int|
                0 <= i < walked.len() ==> (#[trigger] walked[i] matches Part::Normal(n) ==> n != gone
                    && entry_name(n, space.platform))
            &&& (world.canonical)(walked) == Some(space.root)
            &&& (world.canonical)(inner) is None
            &&& (world.canonical)(back) is None
            &&& (world.canonical)(back.push(Part::Normal(kept))) is None
            &&& (world.entry)(inner) is Missing
        }),
        never_climbs(space.root),
        settled_shape(space.root),
        space.platform is Windows ==> entry_names(space.root, space.platform),
    ensures
        verdict is Absent && access is Record ==> (resolution(world, space, rel, access) matches Resolution::Target(
            found,
        ) && found.root == space.root && found.components == seq![kept] && found.traversed_dirs == seq![
            seq![gone],
        ]),
        verdict is Refused || access is Verify ==> resolution(world, space, rel, access)
            == Resolution::Unresolvable(
            "cannot write snapshot "@ + rel
                + ": '..' climbs through a component that is not a resolvable directory"@,
        ),
{
    let platform = space.platform;
    let root = space.root;
    let walked = parsed(space.cwd, platform);
    let inner = walked.push(Part::Normal(gone));
    let back = inner.push(Part::ParentDir);
    let candidate = back.push(Part::Normal(kept));
    let tail = seq![Part::Normal(gone), Part::ParentDir, Part::Normal(kept)];
    assert(candidate =~= walked + tail);
    lemma_climb_out_of_a_name(world, access, walked, Seq::empty(), gone, kept, verdict);
    if verdict is Absent && access is Record {
        lemma_landing_falls_back(world, back, Part::Normal(kept));
        lemma_landing_falls_back(world, inner, Part::ParentDir);
        lemma_landing_falls_back(world, walked, Part::Normal(gone));
        lemma_landing_falls_back(world, candidate, Part::CurDir);
        let place = root.push(Part::Normal(gone)).push(Part::ParentDir).push(Part::Normal(kept));
        assert(anchored(world, candidate) == place);
        let left = root.push(Part::Normal(gone)).push(Part::ParentDir);
        lemma_normalize_keeps_settled(root, platform);
        lemma_normalize_step_by_step(root, gone, platform);
        lemma_normalize_step_by_step(left, kept, platform);
        let names = seq![kept];
        let settled = root.push(Part::Normal(kept));
        assert(landing(world, candidate) == settled);
        lemma_begins_with_is_a_prefix(settled, root, normals(names));
        assert(settled =~= root + normals(names));
        assert(settled =~= root + Seq::new(names.len(), |i: int| Part::Normal(names[i])));
        lemma_relative_names_are_what_follows(root, names, settled, platform);
        // The walk ends at the missing name.
        lemma_begins_with_is_a_prefix(candidate, walked, tail);
        assert(below(walked, candidate) =~= tail);
        assert(tail =~= seq![Part::Normal(gone)] + seq![Part::ParentDir, Part::Normal(kept)]);
        lemma_walk_meets_a_name(
            world,
            root,
            walked,
            Part::Normal(gone),
            seq![Part::ParentDir, Part::Normal(kept)],
        );
        lemma_entering_an_entry(walked, gone, platform);
        // The missing directory is noted.
        lemma_one_directory_is_cancelled(root, gone, kept, platform);
        assert(place =~= root + tail);
    }
}

proof fn lemma_one_directory_is_cancelled(
    root: Seq<Part>,
    gone: Seq<u8>,
    kept: Seq<u8>,
    platform: Platform,
)
    requires
        never_climbs(root),
        settled_shape(root),
        platform is Windows ==> entry_names(root, platform),
        entry_name(gone, platform),
        entry_name(kept, platform),
    ensures
        cancelled(
            root,
            root + seq![Part::Normal(gone), Part::ParentDir, Part::Normal(kept)],
            platform,
        ) == seq![seq![gone]],
{
    let tail = seq![Part::Normal(gone), Part::ParentDir, Part::Normal(kept)];
    let none = Seq::<Seq<Seq<u8>>>::empty();
    assert(root.skip(0) =~= root);
    assert(root.take(0) =~= Seq::<Part>::empty());
    lemma_root_is_rebuilt(root, 0, tail, none, platform);
    let after = tail.skip(1);
    let last = after.skip(1);
    let inside = root.push(Part::Normal(gone));
    let names = seq![gone];
    lemma_entering_an_entry(root, gone, platform);
    assert(inside =~= root + Seq::new(names.len(), |i: int| Part::Normal(names[i])));
    lemma_relative_names_are_what_follows(root, names, inside, platform);
    assert(inside.drop_last() =~= root);
    assert(none.push(names) =~= seq![seq![gone]]);
    assert(!none.contains(names));
    let noted = seq![seq![gone]];
    assert(last =~= seq![Part::Normal(kept)]);
    assert(after =~= seq![Part::ParentDir, Part::Normal(kept)]);
    assert(never_climbs(last));
    lemma_no_step_up_cancels_nothing(root, last, root, noted, platform);
    assert(cancelled_from(root, after, inside, none, platform) == noted);
    assert(cancelled_from(root, tail, root, none, platform) == noted);
}

/// A link in the workspace that leads nowhere at all, because it leads back to itself, is
/// followed too often or is not let through, fails the expectation and says so.
pub proof fn lemma_link_without_an_end_says_why(
    world: World,
    space: WorkspaceView,
    rel: Seq<char>,
    access: SnapshotAccess,
    link: Seq<u8>,
)
    requires
        root_stands(world, space),
        entry_name(link, space.platform),
        ({
            let walked = parsed(space.cwd, space.platform);
            let at = walked.push(Part::Normal(link));
            &&& parsed(joined(space.cwd, encode_utf8(rel), space.platform), space.platform) == at
            &&& never_climbs(walked)
            &&& (world.canonical)(walked) == Some(space.root)
            &&& (world.canonical)(at) is None
            &&& (world.entry)(at) is Link
            &&& chain_end(world, at, Seq::empty()) is None
        }),
        settled_shape(space.root),
        space.platform is Windows ==> entry_names(space.root, space.platform),
    ensures
        ({
            let at = parsed(space.cwd, space.platform).push(Part::Normal(link));
            &&& (world.reach)(at) is Refused ==> resolution(world, space, rel, access)
                == Resolution::Unresolvable(
                "cannot write snapshot "@ + rel
                    + ": '..' climbs through a component that is not a resolvable directory"@,
            )
            &&& !((world.reach)(at) is Refused) ==> resolution(world, space, rel, access)
                == Resolution::Unresolvable(
                "cannot write snapshot "@ + rel
                    + ": the symlink chain does not resolve (a cycle, or more levels of symbolic links than the platform resolves)"@,
            )
        }),
{
    let platform = space.platform;
    let walked = parsed(space.cwd, platform);
    let at = walked.push(Part::Normal(link));
    let none = Seq::<Part>::empty();
    let rest = below(walked, at);
    assert(never_climbs(at));
    lemma_no_step_up_no_climb(world, access, at, none, false);
    assert(at.drop_last() =~= walked);
    lemma_lands_in_its_directory(world, at, space.root, link);
    lemma_begins_with_is_a_prefix(landing(world, at), space.root, seq![Part::Normal(link)]);
    assert(space.root + seq![Part::Normal(link)] =~= space.root.push(Part::Normal(link)));
    lemma_begins_with_is_a_prefix(at, walked, seq![Part::Normal(link)]);
    assert(walked + seq![Part::Normal(link)] =~= at);
    assert(rest =~= seq![Part::Normal(link)] + none);
    lemma_walk_meets_a_name(world, space.root, walked, Part::Normal(link), none);
    lemma_entering_an_entry(walked, link, platform);
}

/// Where the workspace directory could not be opened before anything was spawned, no
/// snapshot is resolved, and a path that would be inside is answered with that reason.
pub proof fn lemma_unopened_workspace_says_why(
    world: World,
    space: WorkspaceView,
    rel: Seq<char>,
    access: SnapshotAccess,
    reason: Seq<char>,
    names: Seq<Seq<u8>>,
)
    requires
        world.platform == space.platform,
        space.capture == CaptureView::Failed(reason),
        names.len() > 0,
        all_entries(names, space.platform),
        parsed(joined(space.cwd, encode_utf8(rel), space.platform), space.platform) == parsed(
            space.cwd,
            space.platform,
        ) + normals(names),
        never_climbs(parsed(space.cwd, space.platform)),
        never_climbs(space.root),
        settled_shape(space.root),
        space.platform is Windows ==> entry_names(space.root, space.platform),
        (world.canonical)(parsed(space.cwd, space.platform)) == Some(space.root),
        in_place_below(world, parsed(space.cwd, space.platform), space.root, names),
        no_link_below(world, parsed(space.cwd, space.platform), names),
    ensures
        resolution(world, space, rel, access) == Resolution::Fault(ErrorView::Process(reason)),
{
    let opened = WorkspaceView { capture: CaptureView::Held(None), ..space };
    lemma_names_resolve(world, opened, rel, access, names);
    let candidate = parsed(space.cwd, space.platform) + normals(names);
    let walked = parsed(space.cwd, space.platform);
    lemma_lands_in_place(world, walked, space.root, names, names.len() as int);
    assert(candidate.len() == walked.len() + names.len());
    let place = space.root + normals(names);
    assert(landing(world, candidate) == place);
    lemma_relative_names_are_what_follows(space.root, names, place, space.platform);
    assert(place =~= space.root + Seq::new(names.len(), |i: int| Part::Normal(names[i])));
    lemma_begins_with_is_a_prefix(candidate, walked, normals(names));
    assert(below(walked, candidate) =~= normals(names));
    assert(normals(names).skip(0) =~= normals(names));
    assert(walked + normals(names.take(0)) =~= walked);
    lemma_no_link_is_found(world, space.root, walked, names, 0);
}

/// How a snapshot path is decided, in order and whatever it is: what is wrong with the
/// workspace root; a step up out of what cannot be entered; landing outside of the root; a
/// link that leads nowhere; and then the place that was found, which must be below the root
/// and is refused if the workspace could not be opened. Nothing else is ever refused.
pub proof fn lemma_resolution_decides_in_order(
    world: World,
    space: WorkspaceView,
    rel: Seq<char>,
    access: SnapshotAccess,
)
    ensures
        ({
            let display = joined(space.cwd, encode_utf8(rel), space.platform);
            let candidate = parsed(display, space.platform);
            let walked = parsed(space.cwd, space.platform);
            let found = resolution(world, space, rel, access);
            let climbing = climbs(world, access, candidate, Seq::empty(), false);
            let landed = landing(world, candidate);
            let dangling = dangling_from(world, space.root, walked, below(walked, candidate));
            let place = match dangling {
                DanglingView::ResolvesInside(inside) => inside,
                _ => landed,
            };
            let sound = root_fault(world, space, rel) is None;
            &&& root_fault(world, space, rel) matches Some(fault) ==> found == Resolution::Fault(fault)
            &&& sound && climbing ==> found == Resolution::Unresolvable(
                "cannot write snapshot "@ + rel
                    + ": '..' climbs through a component that is not a resolvable directory"@,
            )
            &&& sound && !climbing && !begins_with(landed, space.root) ==> found == Resolution::Fault(
                ErrorView::Scenario(
                    "snapshot path '"@ + rel
                        + "' escapes the workspace; snapshot writes are confined to the workspace directory"@,
                ),
            )
            &&& sound && !climbing && begins_with(landed, space.root) ==> {
                &&& dangling is Refused ==> found == Resolution::Fault(
                    ErrorView::Scenario(
                        "snapshot path '"@ + rel
                            + "' passes through a symlink; snapshot writes must not follow symlinks"@,
                    ),
                )
                &&& dangling is UnresolvableChain ==> found == Resolution::Unresolvable(
                    "cannot write snapshot "@ + rel
                        + ": the symlink chain does not resolve (a cycle, or more levels of symbolic links than the platform resolves)"@,
                )
                &&& dangling is UnresolvableClimb ==> found == Resolution::Unresolvable(
                    "cannot write snapshot "@ + rel
                        + ": '..' climbs through a component that is not a resolvable directory"@,
                )
                &&& dangling is Absent || dangling is ResolvesInside ==> match relative_names(
                    space.root,
                    place,
                    space.platform,
                ) {
                    None => found == Resolution::Fault(
                        ErrorView::Scenario(
                            "snapshot path '"@ + rel
                                + "' escapes the workspace; snapshot writes are confined to the workspace directory"@,
                        ),
                    ),
                    Some(names) => {
                        &&& names.len() == 0 ==> found == Resolution::Fault(
                            ErrorView::Scenario(
                                "snapshot path '"@ + rel
                                    + "' names the workspace directory itself, not a file to record"@,
                            ),
                        )
                        &&& names.len() > 0 && space.capture is Failed ==> (found matches Resolution::Fault(
                            fault,
                        ) && fault is Process)
                        &&& names.len() > 0 && space.capture is Held ==> found == Resolution::Target(
                            TargetView {
                                platform: space.platform,
                                display,
                                root: space.root,
                                components: names,
                                traversed_dirs: match access {
                                    SnapshotAccess::Record => cancelled(
                                        space.root,
                                        anchored(world, candidate),
                                        space.platform,
                                    ),
                                    SnapshotAccess::Verify => Seq::empty(),
                                },
                            },
                        )
                    },
                }
            }
        }),
{
}

} // verus!
