//! Decisions of the descriptor-anchored directory walk.
//!
//! A path is descended one name at a time from a directory that is held open, and a
//! link is never followed. The calls themselves are made elsewhere; what to call
//! next, and what an outcome means, is decided here.
use vstd::prelude::*;
use vstd::string::*;

use crate::path::{plain_name, Platform};
use crate::text::{decimal, decimal_text};

verus! {

/// Why a call to the kernel failed, as far as anything here depends on it.
#[derive(Debug, Clone, Copy, PartialEq, Eq, Structural)]
pub enum OsError {
    /// Nothing is there.
    NotFound,
    /// Something is there already.
    Exists,
    /// What was given is not of the sort that the call is for.
    Invalid,
    /// Too many links, or a link where none is followed.
    Loop,
    /// Something other than a directory stands where one is needed.
    NotDirectory,
    /// A pipe has nobody at its other end.
    NoPeer,
    /// Anything else.
    Other,
}

/// The mode of a file that only its owner may read and write.
pub const PRIVATE_FILE_MODE: u32 = 0o600;

/// The mode of a directory that only its owner may use.
pub const PRIVATE_DIR_MODE: u32 = 0o700;

/// The kernel's verdict on traversing one path component.
#[derive(Debug, Clone, Copy, PartialEq, Eq, Structural)]
pub enum Traversability {
    /// The kernel would descend through it; a `..` across it is sound.
    Traversable,
    /// Nothing is there. Permanent for a dangling link's destination, but a
    /// recording run may still create it under the snapshot's own path.
    Absent,
    /// The kernel refuses to traverse it and no directory creation will change
    /// that: a non-directory, an unsearchable directory, an unresolvable chain.
    Refused,
}

/// How the kernel is asked whether it descends through a directory.
#[derive(Debug, Clone, Copy, PartialEq, Eq, Structural)]
pub enum TraversalProbe {
    /// Open the directory for searching.
    Search,
    /// Open `.` inside of the directory, which only a descent can reach.
    Enter,
}

/// How a directory is probed.
pub open spec fn probe_for(has_search: bool, force_fallback: bool) -> TraversalProbe {
    if has_search && !force_fallback {
        TraversalProbe::Search
    } else {
        TraversalProbe::Enter
    }
}

/// What a probe of a directory says.
pub open spec fn probed_as(outcome: Result<(), OsError>) -> Traversability {
    match outcome {
        Ok(()) => Traversability::Traversable,
        Err(e) => if e is NotFound {
            Traversability::Absent
        } else {
            Traversability::Refused
        },
    }
}

/// What a look at a directory says, where there is no probe.
pub open spec fn looked_up_as(outcome: Result<bool, OsError>) -> Traversability {
    match outcome {
        Ok(directory) => if directory {
            Traversability::Traversable
        } else {
            Traversability::Refused
        },
        Err(_) => Traversability::Absent,
    }
}

/// Choose the probe: search access where the platform has it and nothing forces the
/// other way, else an actual descent.
pub fn kernel_traverses_dir(has_search: bool, force_fallback: bool) -> (r: TraversalProbe)
    ensures
        r == probe_for(has_search, force_fallback),
        r is Search == (has_search && !force_fallback),
{
    if has_search && !force_fallback {
        TraversalProbe::Search
    } else {
        TraversalProbe::Enter
    }
}

/// Whether a `..` may cancel a directory, and whether a refusal is permanent, from
/// what came of the probe.
///
/// Absence is told from every other failure, because it alone can still change.
pub fn traversability(outcome: Result<(), OsError>) -> (r: Traversability)
    ensures
        r == probed_as(outcome),
        r is Traversable == outcome is Ok,
        r is Absent == (outcome matches Err(e) && e is NotFound),
        r is Refused == (outcome matches Err(e) && !(e is NotFound)),
{
    match outcome {
        Ok(()) => Traversability::Traversable,
        Err(OsError::NotFound) => Traversability::Absent,
        Err(_) => Traversability::Refused,
    }
}

/// As [`traversability`], on a platform that has no such probe: from whether `stat`
/// found a directory. Whatever cannot be looked at counts as absent there.
pub fn directory_traversability(outcome: Result<bool, OsError>) -> (r: Traversability)
    ensures
        r == looked_up_as(outcome),
        r is Traversable == (outcome matches Ok(directory) && directory),
        r is Refused == (outcome matches Ok(directory) && !directory),
        r is Absent == outcome is Err,
{
    match outcome {
        Ok(true) => Traversability::Traversable,
        Ok(false) => Traversability::Refused,
        Err(_) => Traversability::Absent,
    }
}

/// Whether the directory walk may create missing directories as it descends.
#[derive(Debug, Clone, Copy, PartialEq, Eq, Structural)]
pub enum CreateDirs {
    /// Create each missing directory for its owner alone. One that exists already
    /// keeps the mode it has.
    Yes,
    /// Never create anything; a missing directory is an error.
    No,
}

/// Whether a name could undo containment: it is empty, `.`, `..`, or holds a
/// separator.
pub fn is_unsafe_component(name: &[u8]) -> (r: bool)
    ensures
        r == !plain_name(name@, Platform::Unix),
{
    if name.len() == 0 {
        return true;
    }
    if name.len() == 1 && name[0] == 46 {
        assert(name@ =~= seq![46u8]);
        return true;
    }
    if name.len() == 2 && name[0] == 46 && name[1] == 46 {
        assert(name@ =~= seq![46u8, 46u8]);
        return true;
    }
    let mut i: usize = 0;
    while i < name.len()
        invariant
            i <= name@.len(),
            forall|j: int| 0 <= j < i ==> #[trigger] name@[j] != 47u8,
        decreases name@.len() - i,
    {
        if name[i] == 47 {
            assert(name@.contains(47u8));
            return true;
        }
        i = i + 1;
    }
    false
}

/// Where a walk stands. The directories are numbered from the top.
#[derive(Debug, Clone, Copy, PartialEq, Eq, Structural)]
pub enum WalkState {
    /// Create this directory.
    Make(usize),
    /// Open this directory without following a link.
    Open { index: usize, created: bool },
    /// Make this directory, now open, private to its owner.
    Restrict(usize),
    /// The last directory is open; the last name is the file.
    Arrived,
    /// The names are not a relative, normalized path.
    Invalid,
    /// The last call failed.
    Failed,
}

/// What came of the last call of a walk.
#[derive(Debug, Clone, Copy, PartialEq, Eq, Structural)]
pub enum WalkEvent {
    /// It succeeded.
    Done,
    /// It failed.
    Failed(OsError),
}

/// The walk at the directory with this number, out of a path of `len` names.
pub open spec fn walk_at(index: int, len: nat, create: CreateDirs) -> WalkState {
    if index + 1 >= len {
        WalkState::Arrived
    } else if create is Yes {
        WalkState::Make(index as usize)
    } else {
        WalkState::Open { index: index as usize, created: false }
    }
}

/// Whether every name of a list is plain, and there is one.
pub open spec fn walkable(names: Seq<Vec<u8>>) -> bool {
    names.len() > 0 && forall|i: int| 0 <= i < names.len() ==> plain_name((#[trigger] names[i])@, Platform::Unix)
}

/// The start of a walk.
pub open spec fn walk_start(names: Seq<Vec<u8>>, create: CreateDirs) -> WalkState {
    if walkable(names) {
        walk_at(0, names.len(), create)
    } else {
        WalkState::Invalid
    }
}

/// The state of a walk over `len` names after an event. A directory's mode is
/// touched only where this walk created it.
pub open spec fn walk_next(state: WalkState, event: WalkEvent, len: nat, create: CreateDirs) -> WalkState {
    match (state, event) {
        (WalkState::Make(index), WalkEvent::Done) => WalkState::Open { index, created: true },
        (WalkState::Make(index), WalkEvent::Failed(OsError::Exists)) => WalkState::Open {
            index,
            created: false,
        },
        (WalkState::Open { index, created }, WalkEvent::Done) => if created {
            WalkState::Restrict(index)
        } else {
            walk_at(index + 1, len, create)
        },
        (WalkState::Restrict(index), WalkEvent::Done) => walk_at(index + 1, len, create),
        (WalkState::Arrived, _) => WalkState::Arrived,
        (WalkState::Invalid, _) => WalkState::Invalid,
        _ => WalkState::Failed,
    }
}

fn walk_to(index: usize, len: usize, create: CreateDirs) -> (r: WalkState)
    requires
        index < usize::MAX,
    ensures
        r == walk_at(index as int, len as nat, create),
{
    if index + 1 >= len {
        WalkState::Arrived
    } else {
        match create {
            CreateDirs::Yes => WalkState::Make(index),
            CreateDirs::No => WalkState::Open { index, created: false },
        }
    }
}

/// Start to descend `components` from a directory that is held open. The last name
/// is the file and is not opened.
pub fn walk_from(components: &[Vec<u8>], create: CreateDirs) -> (r: WalkState)
    ensures
        r == walk_start(components@, create),
{
    if components.len() == 0 {
        return WalkState::Invalid;
    }
    let mut i: usize = 0;
    while i < components.len()
        invariant
            i <= components@.len(),
            forall|j: int| 0 <= j < i ==> plain_name((#[trigger] components@[j])@, Platform::Unix),
        decreases components@.len() - i,
    {
        if is_unsafe_component(components[i].as_slice()) {
            assert(!plain_name(components@[i as int]@, Platform::Unix));
            return WalkState::Invalid;
        }
        i = i + 1;
    }
    walk_to(0, components.len(), create)
}

/// Whether a state speaks of a directory of a path of `len` names.
pub open spec fn in_path(state: WalkState, len: nat) -> bool {
    match state {
        WalkState::Make(index) => index + 1 < len,
        WalkState::Open { index, created: _ } => index + 1 < len,
        WalkState::Restrict(index) => index + 1 < len,
        _ => true,
    }
}

/// Go on with a walk over `len` names.
pub fn walk_on(state: WalkState, event: WalkEvent, len: usize, create: CreateDirs) -> (r: WalkState)
    requires
        in_path(state, len as nat),
    ensures
        r == walk_next(state, event, len as nat, create),
        in_path(r, len as nat),
{
    match (state, event) {
        (WalkState::Make(index), WalkEvent::Done) => WalkState::Open { index, created: true },
        (WalkState::Make(index), WalkEvent::Failed(OsError::Exists)) => WalkState::Open {
            index,
            created: false,
        },
        (WalkState::Open { index, created }, WalkEvent::Done) => if created {
            WalkState::Restrict(index)
        } else {
            walk_to(index + 1, len, create)
        },
        (WalkState::Restrict(index), WalkEvent::Done) => walk_to(index + 1, len, create),
        (WalkState::Arrived, _) => WalkState::Arrived,
        (WalkState::Invalid, _) => WalkState::Invalid,
        _ => WalkState::Failed,
    }
}

/// The state of a walk after a list of events, from the start.
pub open spec fn walk_run(names: Seq<Vec<u8>>, create: CreateDirs, events: Seq<WalkEvent>) -> WalkState
    decreases events.len(),
{
    if events.len() == 0 {
        walk_start(names, create)
    } else {
        walk_next(walk_run(names, create, events.drop_last()), events.last(), names.len(), create)
    }
}

/// A walk that may not create anything creates nothing and changes no mode.
pub proof fn lemma_walk_without_create(names: Seq<Vec<u8>>, events: Seq<WalkEvent>)
    ensures
        match walk_run(names, CreateDirs::No, events) {
            WalkState::Make(_) => false,
            WalkState::Restrict(_) => false,
            WalkState::Open { index: _, created } => !created,
            _ => true,
        },
    decreases events.len(),
{
    if events.len() > 0 {
        lemma_walk_without_create(names, events.drop_last());
    }
}

/// A walk changes the mode of a directory only right after it has created that
/// very directory and opened it.
pub proof fn lemma_mode_changes_on_created_only(names: Seq<Vec<u8>>, create: CreateDirs, events: Seq<WalkEvent>)
    requires
        walk_run(names, create, events) is Restrict,
        names.len() <= usize::MAX,
    ensures
        events.len() >= 2,
        events[events.len() - 1] is Done,
        events[events.len() - 2] is Done,
        walk_run(names, create, events.take(events.len() - 2)) == WalkState::Make(
            walk_run(names, create, events)->Restrict_0,
        ),
{
    reveal_with_fuel(walk_run, 3);
    let front = events.drop_last();
    lemma_open_created_after_make(names, create, front);
    assert(front.drop_last() =~= events.take(events.len() - 2));
    assert(front.last() == events[events.len() - 2]);
}

proof fn lemma_open_created_after_make(names: Seq<Vec<u8>>, create: CreateDirs, events: Seq<WalkEvent>)
    requires
        walk_run(names, create, events) matches WalkState::Open { index: _, created } && created,
    ensures
        events.len() >= 1,
        events.last() is Done,
        walk_run(names, create, events.drop_last()) == WalkState::Make(
            walk_run(names, create, events)->index,
        ),
{
}

/// Whether, on the way through these events, the walk opened the directory with this
/// number.
pub open spec fn opened_on_the_way(
    names: Seq<Vec<u8>>,
    create: CreateDirs,
    events: Seq<WalkEvent>,
    index: int,
) -> bool {
    exists|k: int|
        0 <= k < events.len() && events[k] is Done && (#[trigger] walk_run(names, create, events.take(k)) matches WalkState::Open {
            index: at,
            created: _,
        } && at == index)
}

/// How many directories a walk in this state has opened.
spec fn directories_opened(state: WalkState, len: nat) -> int {
    match state {
        WalkState::Make(index) => index as int,
        WalkState::Open { index, created: _ } => index as int,
        WalkState::Restrict(index) => index + 1,
        WalkState::Arrived => len - 1,
        _ => 0,
    }
}

/// A walk that arrives has opened every directory of the path, each by its own name
/// and none by way of a link.
pub proof fn lemma_arrival_opens_every_directory(
    names: Seq<Vec<u8>>,
    create: CreateDirs,
    events: Seq<WalkEvent>,
    index: int,
)
    requires
        walk_run(names, create, events) is Arrived,
        names.len() <= usize::MAX,
        0 <= index < names.len() - 1,
    ensures
        opened_on_the_way(names, create, events, index),
{
    lemma_opened_so_far(names, create, events, index);
}

proof fn lemma_opened_so_far(names: Seq<Vec<u8>>, create: CreateDirs, events: Seq<WalkEvent>, index: int)
    requires
        names.len() <= usize::MAX,
        0 <= index < directories_opened(walk_run(names, create, events), names.len()),
    ensures
        opened_on_the_way(names, create, events, index),
    decreases events.len(),
{
    if events.len() > 0 {
        let front = events.drop_last();
        let before = walk_run(names, create, front);
        lemma_walk_in_path(names, create, front);
        if index < directories_opened(before, names.len()) {
            lemma_opened_so_far(names, create, front, index);
            let k = choose|k: int|
                0 <= k < front.len() && front[k] is Done && (#[trigger] walk_run(names, create, front.take(k)) matches WalkState::Open {
                    index: at,
                    created: _,
                } && at == index);
            assert(front.take(k) =~= events.take(k));
            assert(events[k] is Done);
        } else {
            assert(front =~= events.take(events.len() - 1));
        }
    }
}

proof fn lemma_walk_in_path(names: Seq<Vec<u8>>, create: CreateDirs, events: Seq<WalkEvent>)
    requires
        names.len() <= usize::MAX,
    ensures
        in_path(walk_run(names, create, events), names.len()),
    decreases events.len(),
{
    if events.len() > 0 {
        lemma_walk_in_path(names, create, events.drop_last());
    }
}

/// What came of opening a file.
#[derive(Debug, PartialEq, Eq)]
pub enum OpenOutcome {
    /// It is open: whether it is a regular file, and how many names it has.
    Opened { regular: bool, links: u64 },
    /// The call failed, for this reason and with this error text.
    Failed { kind: OsError, error: String },
}

/// Why a file is not used.
#[derive(Debug, PartialEq, Eq)]
pub enum FileRefusal {
    /// It is not a regular file.
    NotRegular(String),
    /// It has a second name.
    ManyLinks(String),
    /// It could not be opened.
    Failed(String),
}

/// The message for what is not a regular file.
pub open spec fn non_regular_message() -> Seq<char> {
    "refusing a path that is not a regular file: only a plain file can hold a record pitty wrote"@
}

/// The message for a file with more than one name.
pub open spec fn many_links_message(links: u64) -> Seq<char> {
    "refusing a file with "@ + decimal(links as nat)
        + " hard links: a second name may point outside the workspace, so reading or writing it could escape containment"@
}

/// Refuse anything but a regular file.
pub fn refuse_non_regular(regular: bool) -> (r: Result<(), FileRefusal>)
    ensures
        regular ==> r is Ok,
        !regular ==> (r matches Err(FileRefusal::NotRegular(message)) && message@ == non_regular_message()),
{
    if regular {
        Ok(())
    } else {
        Err(
            FileRefusal::NotRegular(
                "refusing a path that is not a regular file: only a plain file can hold a record pitty wrote".to_owned(),
            ),
        )
    }
}

/// Refuse a file that has more than one name: a second one may lie outside of the
/// directory that is held open.
pub fn refuse_multiply_linked(links: u64) -> (r: Result<(), FileRefusal>)
    ensures
        links <= 1 ==> r is Ok,
        links > 1 ==> (r matches Err(FileRefusal::ManyLinks(message)) && message@ == many_links_message(
            links,
        )),
{
    if links > 1 {
        let mut message = "refusing a file with ".to_owned();
        let number = decimal_text(links as u128);
        message.append(number.as_str());
        message.append(
            " hard links: a second name may point outside the workspace, so reading or writing it could escape containment",
        );
        Err(FileRefusal::ManyLinks(message))
    } else {
        Ok(())
    }
}

/// Whether an open file is used, and why not: what it is comes before how many
/// names it has.
pub open spec fn file_verdict(regular: bool, links: u64, r: Result<(), FileRefusal>) -> bool {
    &&& regular && links <= 1 <==> r is Ok
    &&& !regular ==> (r matches Err(FileRefusal::NotRegular(message)) && message@ == non_regular_message())
    &&& regular && links > 1 ==> (r matches Err(FileRefusal::ManyLinks(message)) && message@
        == many_links_message(links))
}

fn judge_file(regular: bool, links: u64) -> (r: Result<(), FileRefusal>)
    ensures
        file_verdict(regular, links, r),
{
    match refuse_non_regular(regular) {
        Ok(()) => refuse_multiply_linked(links),
        Err(refusal) => Err(refusal),
    }
}

/// Judge a file opened for writing. A pipe that nobody reads fails to open; it is
/// reported as what it is.
pub fn openat_file_write_no_follow(outcome: OpenOutcome) -> (r: Result<(), FileRefusal>)
    ensures
        match outcome {
            OpenOutcome::Opened { regular, links } => file_verdict(regular, links, r),
            OpenOutcome::Failed { kind, error } => {
                &&& kind is NoPeer ==> (r matches Err(FileRefusal::NotRegular(message)) && message@
                    == non_regular_message())
                &&& !(kind is NoPeer) ==> (r matches Err(FileRefusal::Failed(message)) && message@
                    == error@)
            },
        },
{
    match outcome {
        OpenOutcome::Opened { regular, links } => judge_file(regular, links),
        OpenOutcome::Failed { kind, error } => match kind {
            OsError::NoPeer => refuse_non_regular(false),
            _ => Err(FileRefusal::Failed(error)),
        },
    }
}

/// Judge a file opened for reading: an open file is refused for what the writer
/// refuses it for.
pub fn openat_file_read_no_follow(outcome: OpenOutcome) -> (r: Result<(), FileRefusal>)
    ensures
        match outcome {
            OpenOutcome::Opened { regular, links } => file_verdict(regular, links, r),
            OpenOutcome::Failed { kind: _, error } => r matches Err(FileRefusal::Failed(message))
                && message@ == error@,
        },
{
    match outcome {
        OpenOutcome::Opened { regular, links } => judge_file(regular, links),
        OpenOutcome::Failed { kind: _, error } => Err(FileRefusal::Failed(error)),
    }
}

/// Where the private writing of a file stands.
#[derive(Debug, Clone, Copy, PartialEq, Eq, Structural)]
pub enum PrivateWrite {
    /// Open it for writing without following a link; create it for its owner alone.
    Open,
    /// Make it private to its owner, whatever mode it had.
    Restrict,
    /// Cut it to nothing.
    Truncate,
    /// Write the content.
    Write,
    /// Done.
    Written,
    /// A call failed.
    Failed,
}

/// The next step of a private write. No content is written, and none is cut, before
/// the file is private.
pub open spec fn private_next(step: PrivateWrite, succeeded: bool) -> PrivateWrite {
    match step {
        PrivateWrite::Written => step,
        PrivateWrite::Failed => step,
        _ => if !succeeded {
            PrivateWrite::Failed
        } else {
            match step {
                PrivateWrite::Open => PrivateWrite::Restrict,
                PrivateWrite::Restrict => PrivateWrite::Truncate,
                PrivateWrite::Truncate => PrivateWrite::Write,
                _ => PrivateWrite::Written,
            }
        },
    }
}

/// Go on with a private write.
pub fn write_private(step: PrivateWrite, succeeded: bool) -> (r: PrivateWrite)
    ensures
        r == private_next(step, succeeded),
{
    match step {
        PrivateWrite::Written => step,
        PrivateWrite::Failed => step,
        _ => if !succeeded {
            PrivateWrite::Failed
        } else {
            match step {
                PrivateWrite::Open => PrivateWrite::Restrict,
                PrivateWrite::Restrict => PrivateWrite::Truncate,
                PrivateWrite::Truncate => PrivateWrite::Write,
                _ => PrivateWrite::Written,
            }
        },
    }
}

/// The step of a private write after these calls, each of which succeeded or not.
pub open spec fn private_run(calls: Seq<bool>) -> PrivateWrite
    decreases calls.len(),
{
    if calls.len() == 0 {
        PrivateWrite::Open
    } else {
        private_next(private_run(calls.drop_last()), calls.last())
    }
}

/// Content is written only once the file was opened, made private and cut, in that
/// order.
pub proof fn lemma_private_before_content(calls: Seq<bool>)
    requires
        private_run(calls) is Write,
    ensures
        calls == seq![true, true, true],
        private_run(calls.take(1)) is Restrict,
        private_run(calls.take(2)) is Truncate,
{
    reveal_with_fuel(private_run, 5);
    assert(calls.len() == 3) by {
        lemma_private_len(calls);
    }
    assert(calls =~= seq![true, true, true]) by {
        assert(calls.drop_last().drop_last() =~= calls.take(1));
        assert(calls.last() == calls[2]);
        assert(calls.drop_last().last() == calls[1]);
        assert(calls.drop_last().drop_last().last() == calls[0]);
    }
    assert(calls.take(1) =~= seq![true]);
    assert(calls.take(2) =~= seq![true, true]);
    assert(seq![true].drop_last() =~= Seq::<bool>::empty());
    assert(seq![true, true].drop_last() =~= seq![true]);
}

proof fn lemma_private_len(calls: Seq<bool>)
    ensures
        private_run(calls) is Open ==> calls.len() == 0,
        private_run(calls) is Restrict ==> calls.len() == 1,
        private_run(calls) is Truncate ==> calls.len() == 2,
        private_run(calls) is Write ==> calls.len() == 3,
    decreases calls.len(),
{
    if calls.len() > 0 {
        lemma_private_len(calls.drop_last());
    }
}

/// Which names a walk may use, byte by byte: every one that is not empty, not `.`, not `..`
/// and holds no `/`. Without a name, or with any other, the walk does not start.
pub proof fn lemma_walk_starts_on_names_alone(names: Seq<Vec<u8>>, create: CreateDirs)
    ensures
        walk_start(names, create) is Invalid == (names.len() == 0 || exists|i: int|
            0 <= i < names.len() && !((#[trigger] names[i])@.len() > 0 && names[i]@ != seq![46u8] && names[i]@
                != seq![46u8, 46u8] && !names[i]@.contains(47u8))),
{
    if !walkable(names) && names.len() > 0 {
        let i = choose|i: int|
            0 <= i < names.len() && !plain_name((#[trigger] names[i])@, Platform::Unix);
        assert(!(names[i]@.len() > 0 && names[i]@ != seq![46u8] && names[i]@ != seq![46u8, 46u8]
            && !names[i]@.contains(47u8)));
    }
}

/// How a walk goes on. The last name is not walked into. A directory that is to be created
/// is made, opened, and restricted if this walk made it; one that was there is opened and
/// left as it is; and any failure but that it was there ends the walk.
pub proof fn lemma_walk_step_by_step(index: usize, len: nat, create: CreateDirs, e: OsError)
    requires
        index < len,
        len <= usize::MAX,
    ensures
        ({
            let next = if index + 2 >= len {
                WalkState::Arrived
            } else if create is Yes {
                WalkState::Make((index + 1) as usize)
            } else {
                WalkState::Open { index: (index + 1) as usize, created: false }
            };
            &&& walk_next(WalkState::Make(index), WalkEvent::Done, len, create) == (WalkState::Open {
                index,
                created: true,
            })
            &&& walk_next(WalkState::Make(index), WalkEvent::Failed(OsError::Exists), len, create)
                == (WalkState::Open { index, created: false })
            &&& !(e is Exists) ==> walk_next(WalkState::Make(index), WalkEvent::Failed(e), len, create)
                is Failed
            &&& walk_next(
                WalkState::Open { index, created: true },
                WalkEvent::Done,
                len,
                create,
            ) == WalkState::Restrict(index)
            &&& walk_next(
                WalkState::Open { index, created: false },
                WalkEvent::Done,
                len,
                create,
            ) == next
            &&& walk_next(WalkState::Restrict(index), WalkEvent::Done, len, create) == next
            &&& walk_next(WalkState::Restrict(index), WalkEvent::Failed(e), len, create) is Failed
            &&& walk_next(
                WalkState::Open { index, created: false },
                WalkEvent::Failed(e),
                len,
                create,
            ) is Failed
            &&& walk_next(
                WalkState::Open { index, created: true },
                WalkEvent::Failed(e),
                len,
                create,
            ) is Failed
        }),
{
}

/// A walk that creates nothing and is never stopped opens one directory after the other
/// and arrives after as many steps as there are directories.
pub proof fn lemma_undisturbed_walk_arrives(names: Seq<Vec<u8>>, n: nat)
    requires
        walkable(names),
        names.len() <= usize::MAX,
        n < names.len(),
    ensures
        ({
            let state = walk_run(names, CreateDirs::No, Seq::new(n, |i: int| WalkEvent::Done));
            if n + 1 == names.len() {
                state is Arrived
            } else {
                state == (WalkState::Open { index: n as usize, created: false })
            }
        }),
    decreases n,
{
    let events = Seq::new(n, |i: int| WalkEvent::Done);
    if n > 0 {
        lemma_undisturbed_walk_arrives(names, (n - 1) as nat);
        assert(events.drop_last() =~= Seq::new((n - 1) as nat, |i: int| WalkEvent::Done));
        assert(events.last() == WalkEvent::Done);
    }
}

/// A private file is opened, restricted, emptied and written, in this order; it is written
/// if and only if all four succeed, and after a failure nothing more is done.
pub proof fn lemma_private_writing_in_order(later: bool)
    ensures
        private_run(Seq::empty()) is Open,
        private_run(seq![true]) is Restrict,
        private_run(seq![true, true]) is Truncate,
        private_run(seq![true, true, true]) is Write,
        private_run(seq![true, true, true, true]) is Written,
        private_next(PrivateWrite::Open, false) is Failed,
        private_next(PrivateWrite::Restrict, false) is Failed,
        private_next(PrivateWrite::Truncate, false) is Failed,
        private_next(PrivateWrite::Write, false) is Failed,
        private_next(PrivateWrite::Failed, later) is Failed,
        private_next(PrivateWrite::Written, later) is Written,
{
    reveal_with_fuel(private_run, 6);
    assert(seq![true].drop_last() =~= Seq::<bool>::empty());
    assert(seq![true, true].drop_last() =~= seq![true]);
    assert(seq![true, true, true].drop_last() =~= seq![true, true]);
    assert(seq![true, true, true, true].drop_last() =~= seq![true, true, true]);
}

/// Which files are used: a regular one with at most one name, and no other; what is refused
/// says why.
pub proof fn lemma_files_that_are_used(regular: bool, links: u64, message: String)
    ensures
        file_verdict(regular, links, Ok(())) == (regular && links <= 1),
        file_verdict(regular, links, Err(FileRefusal::NotRegular(message))) == (!regular && message@
            == non_regular_message()),
        file_verdict(regular, links, Err(FileRefusal::ManyLinks(message))) == (regular && links > 1
            && message@ == many_links_message(links)),
        !file_verdict(regular, links, Err(FileRefusal::Failed(message))),
        non_regular_message()
            == "refusing a path that is not a regular file: only a plain file can hold a record pitty wrote"@,
        many_links_message(links) == "refusing a file with "@ + decimal(links as nat)
            + " hard links: a second name may point outside the workspace, so reading or writing it could escape containment"@,
{
}

/// A walk that creates every directory on its way makes, opens and restricts one after the
/// other, and arrives after three steps for each.
pub proof fn lemma_creating_walk_arrives(names: Seq<Vec<u8>>, k: nat)
    requires
        walkable(names),
        names.len() <= usize::MAX,
        k < names.len(),
    ensures
        ({
            let state = walk_run(names, CreateDirs::Yes, Seq::new(3 * k, |i: int| WalkEvent::Done));
            if k + 1 == names.len() {
                state is Arrived
            } else {
                state == WalkState::Make(k as usize)
            }
        }),
    decreases k,
{
    let all = Seq::new(3 * k, |i: int| WalkEvent::Done);
    if k > 0 {
        let two = all.drop_last();
        let one = two.drop_last();
        let none = one.drop_last();
        lemma_creating_walk_arrives(names, (k - 1) as nat);
        assert(none =~= Seq::new((3 * (k - 1)) as nat, |i: int| WalkEvent::Done));
        assert(one.last() == WalkEvent::Done && two.last() == WalkEvent::Done && all.last()
            == WalkEvent::Done);
        let at = walk_run(names, CreateDirs::Yes, none);
        assert(at == WalkState::Make((k - 1) as usize));
        assert(walk_run(names, CreateDirs::Yes, one) == (WalkState::Open {
            index: (k - 1) as usize,
            created: true,
        }));
        assert(walk_run(names, CreateDirs::Yes, two) == WalkState::Restrict((k - 1) as usize));
    }
}

/// What is made of the kernel's word on a directory. Only that nothing is there counts as
/// absent; every other failure is a refusal. Without a probe, what is there and is no
/// directory is refused, and what cannot be looked at is absent. The probe that asks for
/// access is used where there is one and nothing forces the other.
pub proof fn lemma_kernels_word_on_a_directory(e: OsError, has_search: bool, force_fallback: bool)
    ensures
        probed_as(Ok(())) is Traversable,
        probed_as(Err(OsError::NotFound)) is Absent,
        !(e is NotFound) ==> probed_as(Err(e)) is Refused,
        looked_up_as(Ok(true)) is Traversable,
        looked_up_as(Ok(false)) is Refused,
        looked_up_as(Err(e)) is Absent,
        probe_for(has_search, force_fallback) is Search == (has_search && !force_fallback),
{
}

/// What is private to its owner gives nobody else any access, and lets its owner do all
/// that is needed: read and write a file, and enter a directory too.
pub proof fn lemma_private_modes()
    ensures
        PRIVATE_FILE_MODE & 0o077 == 0 && PRIVATE_FILE_MODE & 0o700 == 0o600,
        PRIVATE_DIR_MODE & 0o077 == 0 && PRIVATE_DIR_MODE & 0o700 == 0o700,
{
    assert(0o600u32 & 0o077 == 0 && 0o600u32 & 0o700 == 0o600) by (bit_vector);
    assert(0o700u32 & 0o077 == 0 && 0o700u32 & 0o700 == 0o700) by (bit_vector);
}

} // verus!
