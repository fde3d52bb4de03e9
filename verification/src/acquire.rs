//! How a run comes to own a log name.
//!
//! The sidecar of a log does two jobs: what it holds says durably who owns the log,
//! and a lock on it excludes other writers while a run lasts. Acquiring a name is a
//! dialogue: the state names what to do next, and what came of it gives the next
//! state.
use vstd::prelude::*;
use vstd::string::*;
use vstd::utf8::*;

use crate::claim::{
    claim_sidecar_name, decoded, encoded, lemma_record_fits, lemma_record_reads_back,
    sidecar_name, sound_token, ClaimRecord, RecordView, CLAIM_TOKEN_BYTES, MAX_CLAIM_BYTES,
};
use crate::digest::{byte_len, is_hex};
use crate::identity::MAX_CLAIM_KEY_BYTES;
use crate::safepath::{OsError, PRIVATE_FILE_MODE};
use crate::text::{lossy_text, lossy_utf8, same_text};

verus! {

/// What reading a sidecar gave.
#[derive(Debug, PartialEq, Eq)]
pub enum SidecarRead {
    /// Nothing stands at its name.
    Absent,
    /// Something stands there that could not be opened or read.
    Unreadable,
    /// Its bytes: all of them, or the first `MAX_CLAIM_BYTES + 1`.
    Bytes(Vec<u8>),
}

/// What a sidecar says.
///
/// "Cannot read it" is never read as "it is garbage".
#[derive(Debug, PartialEq, Eq)]
pub enum ClaimRead {
    /// No sidecar exists.
    Absent,
    /// A complete record.
    Record(ClaimRecord),
    /// Bytes that are no record: residue of an interrupted run.
    Malformed,
    /// It could not be read, so who owns the log is unknown.
    Unreadable,
}

/// The mathematical value of a [`ClaimRead`].
pub ghost enum ClaimView {
    Absent,
    Record(RecordView),
    Malformed,
    Unreadable,
}

impl View for ClaimRead {
    type V = ClaimView;

    open spec fn view(&self) -> ClaimView {
        match *self {
            ClaimRead::Absent => ClaimView::Absent,
            ClaimRead::Record(record) => ClaimView::Record(record@),
            ClaimRead::Malformed => ClaimView::Malformed,
            ClaimRead::Unreadable => ClaimView::Unreadable,
        }
    }
}

/// What a sidecar of this many bytes and this text says. One that is longer than
/// any record is no record, whatever it begins with.
pub open spec fn claim_in(size: nat, text: Seq<char>) -> ClaimView {
    if size > MAX_CLAIM_BYTES {
        ClaimView::Malformed
    } else {
        match decoded(text) {
            Some(record) => ClaimView::Record(record),
            None => ClaimView::Malformed,
        }
    }
}

/// What the claim sidecar of a log says, from what reading it gave.
pub fn read_claim_state(read: &SidecarRead) -> (r: ClaimRead)
    ensures
        match *read {
            SidecarRead::Absent => r@ is Absent,
            SidecarRead::Unreadable => r@ is Unreadable,
            SidecarRead::Bytes(bytes) => {
                &&& r@ == claim_in(bytes@.len(), lossy_utf8(bytes@))
                &&& valid_utf8(bytes@) ==> r@ == claim_in(bytes@.len(), decode_utf8(bytes@))
            },
        },
{
    match read {
        SidecarRead::Absent => ClaimRead::Absent,
        SidecarRead::Unreadable => ClaimRead::Unreadable,
        SidecarRead::Bytes(bytes) => {
            let text = lossy_text(bytes.as_slice());
            if bytes.len() > MAX_CLAIM_BYTES {
                return ClaimRead::Malformed;
            }
            match ClaimRecord::decode(text.as_str()) {
                Some(record) => ClaimRead::Record(record),
                None => ClaimRead::Malformed,
            }
        },
    }
}

/// A sidecar that holds the bytes of a minted record says that record.
pub proof fn lemma_written_claim_is_read(record: RecordView)
    requires
        sound_token(record.token),
        record.token.len() <= 2 * CLAIM_TOKEN_BYTES,
        forall|i: int| 0 <= i < record.token.len() ==> is_hex(#[trigger] record.token[i]),
        byte_len(record.key) <= MAX_CLAIM_KEY_BYTES,
    ensures
        valid_utf8(encode_utf8(encoded(record))),
        claim_in(
            encode_utf8(encoded(record)).len(),
            decode_utf8(encode_utf8(encoded(record))),
        ) == ClaimView::Record(record),
{
    encode_utf8_valid_utf8(encoded(record));
    encode_utf8_decode_utf8(encoded(record));
    lemma_record_fits(record);
    lemma_record_reads_back(record);
}

/// Whether a sidecar that says this may be taken over by `want`.
///
/// A record is taken over by its own identity alone. What is malformed says nothing
/// about who owns the log, so it is taken over only where there is no log to lose.
/// What cannot be read is never taken over, and what is absent is created instead.
pub open spec fn reclaimable(said: ClaimView, want: RecordView, log_present: bool) -> bool {
    match said {
        ClaimView::Record(record) => record == want,
        ClaimView::Malformed => !log_present,
        ClaimView::Unreadable => false,
        ClaimView::Absent => false,
    }
}

/// Whether a sidecar in this state may be taken over by `want`.
pub fn claim_is_reclaimable(state: &ClaimRead, want: &ClaimRecord, log_present: bool) -> (r: bool)
    ensures
        r == reclaimable(state@, want@, log_present),
{
    match state {
        ClaimRead::Record(existing) => same_text(existing.key.as_str(), want.key.as_str())
            && same_text(existing.token.as_str(), want.token.as_str()),
        ClaimRead::Malformed => !log_present,
        ClaimRead::Unreadable => false,
        ClaimRead::Absent => false,
    }
}

/// Whether a log name may be used where the platform has no locks: it carries this
/// very record, or it carries no record and there is no log.
pub open spec fn reusable_unlocked(said: ClaimView, want: RecordView, log_present: bool) -> bool {
    match said {
        ClaimView::Record(record) => record == want,
        _ => !log_present,
    }
}

/// Whether a log name may be used where the platform has no locks.
pub fn claim_is_reusable_unlocked(state: &ClaimRead, want: &ClaimRecord, log_present: bool) -> (r: bool)
    ensures
        r == reusable_unlocked(state@, want@, log_present),
{
    match state {
        ClaimRead::Record(existing) => same_text(existing.key.as_str(), want.key.as_str())
            && same_text(existing.token.as_str(), want.token.as_str()),
        _ => !log_present,
    }
}

/// How far acquiring a name has come. Each state but the last two says what to do
/// next.
#[derive(Debug, Clone, Copy, PartialEq, Eq, Structural)]
pub enum AcquireState {
    /// See whether the log and its sidecar are there.
    Probe,
    /// Create the sidecar, failing where it exists.
    Create,
    /// Read the existing sidecar, and see whether the log is there.
    Examine,
    /// Open the existing sidecar for writing, without following a link.
    Open,
    /// Make the open sidecar private to its owner.
    Restrict { created: bool },
    /// Lock it, without waiting.
    Lock { created: bool },
    /// Read it again under the lock, and see whether the log is there.
    Reexamine,
    /// Write the record.
    Write,
    /// The name is this run's while the lock is held.
    Granted,
    /// The name is not to be used.
    Refused,
}

/// What came of the last action.
#[derive(Debug, PartialEq, Eq)]
pub enum AcquireEvent {
    /// What stands at the two names.
    Presence { log: bool, sidecar: bool },
    /// What the sidecar says, and whether the log is there.
    Claim { said: ClaimRead, log_present: bool },
    /// The sidecar is open; it has this many names.
    Opened { links: u64 },
    /// The action succeeded.
    Done,
    /// The action failed.
    Failed(OsError),
}

/// The mathematical value of an [`AcquireEvent`].
pub ghost enum EventView {
    Presence { log: bool, sidecar: bool },
    Claim { said: ClaimView, log_present: bool },
    Opened { links: u64 },
    Done,
    Failed(OsError),
}

impl View for AcquireEvent {
    type V = EventView;

    open spec fn view(&self) -> EventView {
        match *self {
            AcquireEvent::Presence { log, sidecar } => EventView::Presence { log, sidecar },
            AcquireEvent::Claim { said, log_present } => EventView::Claim {
                said: said@,
                log_present,
            },
            AcquireEvent::Opened { links } => EventView::Opened { links },
            AcquireEvent::Done => EventView::Done,
            AcquireEvent::Failed(e) => EventView::Failed(e),
        }
    }
}

/// What to do next for a log name.
#[derive(Debug, PartialEq, Eq)]
pub enum AcquireRequest {
    /// See whether these two files are there, without following a link.
    Probe { log: String, sidecar: String },
    /// Create the sidecar with this mode, failing where it exists.
    Create { sidecar: String, mode: u32 },
    /// Read the sidecar, and see whether the log is there.
    Examine { log: String, sidecar: String },
    /// Open the sidecar for writing, without following a link.
    Open { sidecar: String, mode: u32 },
    /// Give the open sidecar this mode.
    Restrict { mode: u32 },
    /// Lock the open sidecar against every other run, without waiting.
    Lock,
    /// Make this text all that the sidecar holds.
    Write { sidecar: String, text: String },
    /// Nothing: the name is granted, or refused.
    Over { granted: bool },
}

/// The mathematical value of an [`AcquireRequest`].
pub ghost enum CallView {
    Probe { log: Seq<char>, sidecar: Seq<char> },
    Create { sidecar: Seq<char>, mode: u32 },
    Examine { log: Seq<char>, sidecar: Seq<char> },
    Open { sidecar: Seq<char>, mode: u32 },
    Restrict { mode: u32 },
    Lock,
    Write { sidecar: Seq<char>, text: Seq<char> },
    Over { granted: bool },
}

impl View for AcquireRequest {
    type V = CallView;

    open spec fn view(&self) -> CallView {
        match *self {
            AcquireRequest::Probe { log, sidecar } => CallView::Probe {
                log: log@,
                sidecar: sidecar@,
            },
            AcquireRequest::Create { sidecar, mode } => CallView::Create { sidecar: sidecar@, mode },
            AcquireRequest::Examine { log, sidecar } => CallView::Examine {
                log: log@,
                sidecar: sidecar@,
            },
            AcquireRequest::Open { sidecar, mode } => CallView::Open { sidecar: sidecar@, mode },
            AcquireRequest::Restrict { mode } => CallView::Restrict { mode },
            AcquireRequest::Lock => CallView::Lock,
            AcquireRequest::Write { sidecar, text } => CallView::Write {
                sidecar: sidecar@,
                text: text@,
            },
            AcquireRequest::Over { granted } => CallView::Over { granted },
        }
    }
}

/// What to do next for the log `name` that `want` is to own. Every file is private
/// to its owner, and what is written is the record of `want`.
pub open spec fn call_of(state: AcquireState, name: Seq<char>, want: RecordView) -> CallView {
    let sidecar = sidecar_name(name);
    match state {
        AcquireState::Probe => CallView::Probe { log: name, sidecar },
        AcquireState::Create => CallView::Create { sidecar, mode: PRIVATE_FILE_MODE },
        AcquireState::Examine => CallView::Examine { log: name, sidecar },
        AcquireState::Open => CallView::Open { sidecar, mode: PRIVATE_FILE_MODE },
        AcquireState::Restrict { .. } => CallView::Restrict { mode: PRIVATE_FILE_MODE },
        AcquireState::Lock { .. } => CallView::Lock,
        AcquireState::Reexamine => CallView::Examine { log: name, sidecar },
        AcquireState::Write => CallView::Write { sidecar, text: encoded(want) },
        AcquireState::Granted => CallView::Over { granted: true },
        AcquireState::Refused => CallView::Over { granted: false },
    }
}

/// What to do next for the log `name` that `want` is to own.
pub fn acquire_request(state: AcquireState, name: &str, want: &ClaimRecord) -> (r: AcquireRequest)
    ensures
        r@ == call_of(state, name@, want@),
{
    let sidecar = claim_sidecar_name(name);
    match state {
        AcquireState::Probe => AcquireRequest::Probe { log: name.to_owned(), sidecar },
        AcquireState::Create => AcquireRequest::Create { sidecar, mode: PRIVATE_FILE_MODE },
        AcquireState::Examine => AcquireRequest::Examine { log: name.to_owned(), sidecar },
        AcquireState::Open => AcquireRequest::Open { sidecar, mode: PRIVATE_FILE_MODE },
        AcquireState::Restrict { .. } => AcquireRequest::Restrict { mode: PRIVATE_FILE_MODE },
        AcquireState::Lock { .. } => AcquireRequest::Lock,
        AcquireState::Reexamine => AcquireRequest::Examine { log: name.to_owned(), sidecar },
        AcquireState::Write => AcquireRequest::Write { sidecar, text: want.encode() },
        AcquireState::Granted => AcquireRequest::Over { granted: true },
        AcquireState::Refused => AcquireRequest::Over { granted: false },
    }
}

/// The state after an event.
pub open spec fn acquire_next(state: AcquireState, event: EventView, want: RecordView) -> AcquireState {
    match (state, event) {
        (AcquireState::Probe, EventView::Presence { log, sidecar }) => if log && !sidecar {
            AcquireState::Refused
        } else {
            AcquireState::Create
        },
        (AcquireState::Create, EventView::Done) => AcquireState::Restrict { created: true },
        (AcquireState::Create, EventView::Failed(OsError::Exists)) => AcquireState::Examine,
        (AcquireState::Examine, EventView::Claim { said, log_present }) => if reclaimable(
            said,
            want,
            log_present,
        ) {
            AcquireState::Open
        } else {
            AcquireState::Refused
        },
        (AcquireState::Open, EventView::Opened { links }) => if links == 1 {
            AcquireState::Restrict { created: false }
        } else {
            AcquireState::Refused
        },
        (AcquireState::Restrict { created }, EventView::Done) => AcquireState::Lock { created },
        (AcquireState::Lock { created }, EventView::Done) => if created {
            AcquireState::Write
        } else {
            AcquireState::Reexamine
        },
        (AcquireState::Reexamine, EventView::Claim { said, log_present }) => if reclaimable(
            said,
            want,
            log_present,
        ) {
            AcquireState::Write
        } else {
            AcquireState::Refused
        },
        (AcquireState::Write, EventView::Done) => AcquireState::Granted,
        (AcquireState::Granted, _) => AcquireState::Granted,
        _ => AcquireState::Refused,
    }
}

/// The state after an event. Anything that does not answer the action is a failure.
pub fn try_acquire(state: AcquireState, event: &AcquireEvent, want: &ClaimRecord) -> (r: AcquireState)
    ensures
        r == acquire_next(state, event@, want@),
{
    match (state, event) {
        (AcquireState::Probe, AcquireEvent::Presence { log, sidecar }) => if *log && !*sidecar {
            AcquireState::Refused
        } else {
            AcquireState::Create
        },
        (AcquireState::Create, AcquireEvent::Done) => AcquireState::Restrict { created: true },
        (AcquireState::Create, AcquireEvent::Failed(OsError::Exists)) => AcquireState::Examine,
        (AcquireState::Examine, AcquireEvent::Claim { said, log_present }) => if claim_is_reclaimable(
            said,
            want,
            *log_present,
        ) {
            AcquireState::Open
        } else {
            AcquireState::Refused
        },
        (AcquireState::Open, AcquireEvent::Opened { links }) => if *links == 1 {
            AcquireState::Restrict { created: false }
        } else {
            AcquireState::Refused
        },
        (AcquireState::Restrict { created }, AcquireEvent::Done) => AcquireState::Lock { created },
        (AcquireState::Lock { created }, AcquireEvent::Done) => if created {
            AcquireState::Write
        } else {
            AcquireState::Reexamine
        },
        (AcquireState::Reexamine, AcquireEvent::Claim { said, log_present }) => if claim_is_reclaimable(
            said,
            want,
            *log_present,
        ) {
            AcquireState::Write
        } else {
            AcquireState::Refused
        },
        (AcquireState::Write, AcquireEvent::Done) => AcquireState::Granted,
        (AcquireState::Granted, _) => AcquireState::Granted,
        _ => AcquireState::Refused,
    }
}

/// The state after a list of events, from the start.
pub open spec fn acquire_run(events: Seq<EventView>, want: RecordView) -> AcquireState
    decreases events.len(),
{
    if events.len() == 0 {
        AcquireState::Probe
    } else {
        acquire_next(acquire_run(events.drop_last(), want), events.last(), want)
    }
}

/// There is no log without a sidecar.
pub open spec fn probed(event: EventView) -> bool {
    event matches EventView::Presence { log, sidecar } && (log ==> sidecar)
}

/// What the sidecar says lets `want` take it over.
pub open spec fn judged(event: EventView, want: RecordView) -> bool {
    event matches EventView::Claim { said, log_present } && reclaimable(said, want, log_present)
}

/// The sidecar is open and has one name.
pub open spec fn opened_alone(event: EventView) -> bool {
    event matches EventView::Opened { links } && links == 1
}

/// The sidecar was there already.
pub open spec fn found_there(event: EventView) -> bool {
    event matches EventView::Failed(e) && e is Exists
}

/// The events by which a run gets a name whose sidecar it creates: created, made
/// private, locked, written.
pub open spec fn created_afresh(events: Seq<EventView>, n: int) -> bool {
    &&& events.len() >= n
    &&& n > 0 ==> probed(events[0])
    &&& n > 1 ==> events[1] is Done
    &&& n > 2 ==> events[2] is Done
    &&& n > 3 ==> events[3] is Done
    &&& n > 4 ==> events[4] is Done
}

/// The events by which a run gets a name whose sidecar exists: what it says lets
/// `want` take it over, both before the lock is held and while it is.
pub open spec fn taken_over(events: Seq<EventView>, n: int, want: RecordView) -> bool {
    &&& events.len() >= n
    &&& n > 0 ==> probed(events[0])
    &&& n > 1 ==> found_there(events[1])
    &&& n > 2 ==> judged(events[2], want)
    &&& n > 3 ==> opened_alone(events[3])
    &&& n > 4 ==> events[4] is Done
    &&& n > 5 ==> events[5] is Done
    &&& n > 6 ==> judged(events[6], want)
    &&& n > 7 ==> events[7] is Done
}

proof fn lemma_acquire_step(events: Seq<EventView>, want: RecordView)
    ensures
        match acquire_run(events, want) {
            AcquireState::Probe => events.len() == 0,
            AcquireState::Create => events.len() == 1 && probed(events[0]),
            AcquireState::Examine => events.len() == 2 && taken_over(events, 2, want),
            AcquireState::Open => events.len() == 3 && taken_over(events, 3, want),
            AcquireState::Restrict { created } => if created {
                events.len() == 2 && created_afresh(events, 2)
            } else {
                events.len() == 4 && taken_over(events, 4, want)
            },
            AcquireState::Lock { created } => if created {
                events.len() == 3 && created_afresh(events, 3)
            } else {
                events.len() == 5 && taken_over(events, 5, want)
            },
            AcquireState::Reexamine => events.len() == 6 && taken_over(events, 6, want),
            AcquireState::Write => (events.len() == 4 && created_afresh(events, 4)) || (events.len() == 7
                && taken_over(events, 7, want)),
            AcquireState::Granted => created_afresh(events, 5) || taken_over(events, 8, want),
            AcquireState::Refused => true,
        },
    decreases events.len(),
{
    if events.len() > 0 {
        let front = events.drop_last();
        lemma_acquire_step(front, want);
        assert(forall|i: int| 0 <= i < front.len() ==> #[trigger] front[i] == events[i]);
        assert(events[events.len() - 1] == events.last());
    }
}

/// A name is granted only where its sidecar was created by this run, or where what
/// the sidecar said let this run take it over both before and after the lock was
/// got; and never where a log stands without a sidecar.
pub proof fn lemma_granted_only_when_owned(events: Seq<EventView>, want: RecordView)
    requires
        acquire_run(events, want) is Granted,
    ensures
        created_afresh(events, 5) || taken_over(events, 8, want),
{
    lemma_acquire_step(events, want);
}

proof fn lemma_acquire_prefix(events: Seq<EventView>, want: RecordView, n: int)
    requires
        0 <= n < events.len(),
    ensures
        acquire_run(events.take(n + 1), want) == acquire_next(
            acquire_run(events.take(n), want),
            events[n],
            want,
        ),
{
    assert(events.take(n + 1).drop_last() =~= events.take(n));
}

proof fn lemma_granted_stays(events: Seq<EventView>, want: RecordView, n: int)
    requires
        0 <= n <= events.len(),
        acquire_run(events.take(n), want) is Granted,
    ensures
        acquire_run(events, want) is Granted,
    decreases events.len() - n,
{
    if n < events.len() {
        lemma_acquire_prefix(events, want, n);
        lemma_granted_stays(events, want, n + 1);
    } else {
        assert(events.take(n) =~= events);
    }
}

/// A run that creates the sidecar, or that the sidecar lets take it over, is granted
/// the name once every call has succeeded.
pub proof fn lemma_owner_is_granted(events: Seq<EventView>, want: RecordView)
    requires
        created_afresh(events, 5) || taken_over(events, 8, want),
    ensures
        acquire_run(events, want) is Granted,
{
    assert(events.take(0) =~= Seq::<EventView>::empty());
    lemma_acquire_prefix(events, want, 0);
    lemma_acquire_prefix(events, want, 1);
    lemma_acquire_prefix(events, want, 2);
    lemma_acquire_prefix(events, want, 3);
    lemma_acquire_prefix(events, want, 4);
    if created_afresh(events, 5) {
        lemma_granted_stays(events, want, 5);
    } else {
        lemma_acquire_prefix(events, want, 5);
        lemma_acquire_prefix(events, want, 6);
        lemma_acquire_prefix(events, want, 7);
        lemma_granted_stays(events, want, 8);
    }
}

/// A log whose sidecar holds another's record, cannot be read, or is malformed is
/// never taken over.
pub proof fn lemma_foreign_log_is_kept(said: ClaimView, want: RecordView)
    requires
        said matches ClaimView::Record(record) ==> record != want,
    ensures
        !reclaimable(said, want, true),
{
}

/// The state after an event where the platform has no locks.
pub open spec fn unlocked_next(state: AcquireState, event: EventView, want: RecordView) -> AcquireState {
    match (state, event) {
        (AcquireState::Probe, EventView::Presence { log, sidecar }) => if log && !sidecar {
            AcquireState::Refused
        } else {
            AcquireState::Examine
        },
        (AcquireState::Examine, EventView::Claim { said, log_present }) => if reusable_unlocked(
            said,
            want,
            log_present,
        ) {
            AcquireState::Write
        } else {
            AcquireState::Refused
        },
        (AcquireState::Write, EventView::Done) => AcquireState::Granted,
        (AcquireState::Granted, _) => AcquireState::Granted,
        _ => AcquireState::Refused,
    }
}

/// The state after an event where the platform has no locks. Who owns the log is
/// recorded, but two runs of one identity are not kept apart.
pub fn try_acquire_unlocked(state: AcquireState, event: &AcquireEvent, want: &ClaimRecord) -> (r: AcquireState)
    ensures
        r == unlocked_next(state, event@, want@),
{
    match (state, event) {
        (AcquireState::Probe, AcquireEvent::Presence { log, sidecar }) => if *log && !*sidecar {
            AcquireState::Refused
        } else {
            AcquireState::Examine
        },
        (AcquireState::Examine, AcquireEvent::Claim { said, log_present }) => if claim_is_reusable_unlocked(
            said,
            want,
            *log_present,
        ) {
            AcquireState::Write
        } else {
            AcquireState::Refused
        },
        (AcquireState::Write, AcquireEvent::Done) => AcquireState::Granted,
        (AcquireState::Granted, _) => AcquireState::Granted,
        _ => AcquireState::Refused,
    }
}

/// The state after a list of events, from the start, where the platform has no locks.
pub open spec fn unlocked_run(events: Seq<EventView>, want: RecordView) -> AcquireState
    decreases events.len(),
{
    if events.len() == 0 {
        AcquireState::Probe
    } else {
        unlocked_next(unlocked_run(events.drop_last(), want), events.last(), want)
    }
}

/// What the sidecar says lets `want` use the name where there are no locks.
pub open spec fn judged_unlocked(event: EventView, want: RecordView) -> bool {
    event matches EventView::Claim { said, log_present } && reusable_unlocked(said, want, log_present)
}

/// Where the platform has no locks a name is granted if and only if no log stands
/// without a sidecar, the sidecar lets this run use the name, and the record is
/// written.
pub proof fn lemma_unlocked_granted_only_when_owned(events: Seq<EventView>, want: RecordView)
    ensures
        unlocked_run(events, want) is Granted == (events.len() >= 3 && probed(events[0])
            && judged_unlocked(events[1], want) && events[2] is Done),
        unlocked_run(events, want) is Probe == (events.len() == 0),
        unlocked_run(events, want) is Examine == (events.len() == 1 && probed(events[0])),
        unlocked_run(events, want) is Write == (events.len() == 2 && probed(events[0])
            && judged_unlocked(events[1], want)),
    decreases events.len(),
{
    if events.len() > 0 {
        let front = events.drop_last();
        lemma_unlocked_granted_only_when_owned(front, want);
        assert(forall|i: int| 0 <= i < front.len() ==> #[trigger] front[i] == events[i]);
        assert(events[events.len() - 1] == events.last());
    }
}

/// What stands at a log name and at its sidecar.
pub ghost struct Standing {
    /// Whether the log is there.
    pub log: bool,
    /// What the sidecar holds, where it is there.
    pub sidecar: Option<Seq<u8>>,
    /// Whether the sidecar can be read.
    pub readable: bool,
    /// The sidecar's mode.
    pub mode: u32,
    /// How many names the sidecar has.
    pub links: u64,
    /// Whether a run holds the lock on the sidecar.
    pub locked: bool,
}

/// What a sidecar says.
pub open spec fn standing_claim(at: Standing) -> ClaimView {
    match at.sidecar {
        None => ClaimView::Absent,
        Some(bytes) => if !at.readable {
            ClaimView::Unreadable
        } else if valid_utf8(bytes) {
            claim_in(bytes.len(), decode_utf8(bytes))
        } else {
            claim_in(bytes.len(), lossy_utf8(bytes))
        },
    }
}

/// What a call gives where every call succeeds that can: a sidecar is created only
/// where there is none, and locked only where no run holds the lock.
pub open spec fn standing_event(at: Standing, state: AcquireState) -> EventView {
    match state {
        AcquireState::Probe => EventView::Presence { log: at.log, sidecar: at.sidecar is Some },
        AcquireState::Create => if at.sidecar is Some {
            EventView::Failed(OsError::Exists)
        } else {
            EventView::Done
        },
        AcquireState::Examine => EventView::Claim { said: standing_claim(at), log_present: at.log },
        AcquireState::Open => EventView::Opened { links: at.links },
        AcquireState::Lock { .. } => if at.locked {
            EventView::Failed(OsError::Other)
        } else {
            EventView::Done
        },
        AcquireState::Reexamine => EventView::Claim {
            said: standing_claim(at),
            log_present: at.log,
        },
        _ => EventView::Done,
    }
}

/// What stands there after a call.
pub open spec fn standing_after(at: Standing, state: AcquireState, name: Seq<char>, want: RecordView) -> Standing {
    match call_of(state, name, want) {
        CallView::Create { mode, .. } => if at.sidecar is Some {
            at
        } else {
            Standing { sidecar: Some(Seq::empty()), readable: true, mode, links: 1, ..at }
        },
        CallView::Restrict { mode } => Standing { mode, ..at },
        CallView::Lock => Standing { locked: true, ..at },
        CallView::Write { text, .. } => Standing { sidecar: Some(encode_utf8(text)), ..at },
        _ => at,
    }
}

/// How far acquiring has come after `n` calls, and what stands there then.
pub open spec fn acquire_at(
    at: Standing,
    state: AcquireState,
    name: Seq<char>,
    want: RecordView,
    n: nat,
) -> (AcquireState, Standing)
    decreases n,
{
    if n == 0 {
        (state, at)
    } else {
        acquire_at(
            standing_after(at, state, name, want),
            acquire_next(state, standing_event(at, state), want),
            name,
            want,
            (n - 1) as nat,
        )
    }
}

/// The most calls that acquiring a name takes.
pub const ACQUIRE_CALLS: u64 = 8;

/// What comes of acquiring a name, and what stands there then.
pub open spec fn acquired(at: Standing, name: Seq<char>, want: RecordView) -> (AcquireState, Standing) {
    acquire_at(at, AcquireState::Probe, name, want, ACQUIRE_CALLS as nat)
}

/// What stands there once the run that holds the lock has let it go.
pub open spec fn released(at: Standing) -> Standing {
    Standing { locked: false, ..at }
}

/// How many more calls a state can lead to.
spec fn calls_left(state: AcquireState) -> nat {
    match state {
        AcquireState::Probe => 8,
        AcquireState::Create => 7,
        AcquireState::Examine => 6,
        AcquireState::Open => 5,
        AcquireState::Restrict { .. } => 4,
        AcquireState::Lock { .. } => 3,
        AcquireState::Reexamine => 2,
        AcquireState::Write => 1,
        AcquireState::Granted => 0,
        AcquireState::Refused => 0,
    }
}

proof fn lemma_acquire_at_ends(at: Standing, state: AcquireState, name: Seq<char>, want: RecordView, n: nat)
    requires
        n >= calls_left(state),
    ensures
        ({
            let end = acquire_at(at, state, name, want, n).0;
            end is Granted || end is Refused
        }),
    decreases n,
{
    if n > 0 {
        lemma_acquire_at_ends(
            standing_after(at, state, name, want),
            acquire_next(state, standing_event(at, state), want),
            name,
            want,
            (n - 1) as nat,
        );
    }
}

/// Acquiring comes to an end: the name is granted or refused.
pub proof fn lemma_acquiring_ends(at: Standing, name: Seq<char>, want: RecordView)
    ensures
        acquired(at, name, want).0 is Granted || acquired(at, name, want).0 is Refused,
{
    lemma_acquire_at_ends(at, AcquireState::Probe, name, want, ACQUIRE_CALLS as nat);
}

/// What a run has brought about by the time that it is in a state.
spec fn brought_about(state: AcquireState, at: Standing, want: RecordView) -> bool {
    match state {
        AcquireState::Open => at.readable,
        AcquireState::Restrict { .. } => at.readable && at.links == 1,
        AcquireState::Lock { .. } => at.readable && at.links == 1 && at.mode == PRIVATE_FILE_MODE,
        AcquireState::Reexamine => at.readable && at.links == 1 && at.mode == PRIVATE_FILE_MODE
            && at.locked,
        AcquireState::Write => at.readable && at.links == 1 && at.mode == PRIVATE_FILE_MODE
            && at.locked,
        AcquireState::Granted => at.readable && at.links == 1 && at.mode == PRIVATE_FILE_MODE
            && at.locked && at.sidecar == Some(encode_utf8(encoded(want))),
        _ => true,
    }
}

proof fn lemma_brought_about(at: Standing, state: AcquireState, name: Seq<char>, want: RecordView, n: nat)
    requires
        brought_about(state, at, want),
    ensures
        ({
            let end = acquire_at(at, state, name, want, n);
            brought_about(end.0, end.1, want) && end.1.log == at.log
        }),
    decreases n,
{
    if n > 0 {
        lemma_brought_about(
            standing_after(at, state, name, want),
            acquire_next(state, standing_event(at, state), want),
            name,
            want,
            (n - 1) as nat,
        );
    }
}

/// A run that is granted a name holds the lock on its sidecar, and the sidecar holds
/// exactly the run's record, private to its owner and under no second name.
pub proof fn lemma_granted_name_is_held(at: Standing, name: Seq<char>, want: RecordView)
    requires
        acquired(at, name, want).0 is Granted,
    ensures
        ({
            let held = acquired(at, name, want).1;
            &&& held.sidecar == Some(encode_utf8(encoded(want)))
            &&& held.mode == PRIVATE_FILE_MODE
            &&& held.links == 1
            &&& held.readable
            &&& held.locked
            &&& held.log == at.log
        }),
{
    lemma_brought_about(at, AcquireState::Probe, name, want, ACQUIRE_CALLS as nat);
}

/// The states of a run that has neither the lock nor a sidecar of its own making.
spec fn without_lock(state: AcquireState) -> bool {
    match state {
        AcquireState::Restrict { created } => !created,
        AcquireState::Lock { created } => !created,
        AcquireState::Reexamine => false,
        AcquireState::Write => false,
        AcquireState::Granted => false,
        _ => true,
    }
}

proof fn lemma_kept_out(at: Standing, state: AcquireState, name: Seq<char>, other: RecordView, n: nat)
    requires
        at.locked,
        at.sidecar is Some,
        without_lock(state),
    ensures
        ({
            let end = acquire_at(at, state, name, other, n);
            &&& without_lock(end.0)
            &&& end.1 == at || end.1 == Standing { mode: PRIVATE_FILE_MODE, ..at }
        }),
    decreases n,
{
    if n > 0 {
        lemma_kept_out(
            standing_after(at, state, name, other),
            acquire_next(state, standing_event(at, state), other),
            name,
            other,
            (n - 1) as nat,
        );
    }
}

/// While a run holds the lock no run is granted the name, be it of the same identity
/// or of another. All that it can change is that the sidecar becomes private.
pub proof fn lemma_held_name_is_refused(at: Standing, name: Seq<char>, other: RecordView)
    requires
        at.locked,
        at.sidecar is Some,
    ensures
        acquired(at, name, other).0 is Refused,
        acquired(at, name, other).1 == at || acquired(at, name, other).1 == (Standing {
            mode: PRIVATE_FILE_MODE,
            ..at
        }),
{
    lemma_acquiring_ends(at, name, other);
    lemma_kept_out(at, AcquireState::Probe, name, other, ACQUIRE_CALLS as nat);
}

/// The states of a run on its way to a name whose sidecar it owns.
spec fn on_its_way(state: AcquireState, at: Standing) -> bool {
    match state {
        AcquireState::Restrict { created } => !created && !at.locked,
        AcquireState::Lock { created } => !created && !at.locked,
        AcquireState::Reexamine => true,
        AcquireState::Write => true,
        AcquireState::Granted => true,
        AcquireState::Refused => false,
        _ => !at.locked,
    }
}

proof fn lemma_owner_proceeds(at: Standing, state: AcquireState, name: Seq<char>, want: RecordView, n: nat)
    requires
        at.sidecar == Some(encode_utf8(encoded(want))),
        standing_claim(at) == ClaimView::Record(want),
        at.links == 1,
        on_its_way(state, at),
    ensures
        !(acquire_at(at, state, name, want, n).0 is Refused),
    decreases n,
{
    if n > 0 {
        let after = standing_after(at, state, name, want);
        assert(standing_claim(after) == standing_claim(at));
        lemma_owner_proceeds(
            after,
            acquire_next(state, standing_event(at, state), want),
            name,
            want,
            (n - 1) as nat,
        );
    }
}

/// A run is granted the name whose sidecar holds its record, once nobody holds the
/// lock.
pub proof fn lemma_owner_gets_its_name(at: Standing, name: Seq<char>, want: RecordView)
    requires
        at.sidecar == Some(encode_utf8(encoded(want))),
        at.readable,
        at.links == 1,
        !at.locked,
        sound_token(want.token),
        byte_len(encoded(want)) <= MAX_CLAIM_BYTES,
    ensures
        acquired(at, name, want).0 is Granted,
{
    encode_utf8_valid_utf8(encoded(want));
    encode_utf8_decode_utf8(encoded(want));
    lemma_record_reads_back(want);
    assert(standing_claim(at) == ClaimView::Record(want));
    lemma_owner_proceeds(at, AcquireState::Probe, name, want, ACQUIRE_CALLS as nat);
    lemma_acquiring_ends(at, name, want);
}

/// A lock keeps out every second writer while it is held, and only then: the name
/// that a run was granted is refused to any run until it is released, and granted to
/// the same identity afterwards.
pub proof fn lemma_second_writer_waits_for_release(
    at: Standing,
    name: Seq<char>,
    want: RecordView,
    other: RecordView,
)
    requires
        acquired(at, name, want).0 is Granted,
        sound_token(want.token),
        byte_len(encoded(want)) <= MAX_CLAIM_BYTES,
    ensures
        ({
            let held = acquired(at, name, want).1;
            &&& held.sidecar == Some(encode_utf8(encoded(want)))
            &&& held.mode == PRIVATE_FILE_MODE
            &&& acquired(held, name, other).0 is Refused
            &&& acquired(held, name, other).1 == held
            &&& acquired(released(held), name, want).0 is Granted
        }),
{
    lemma_granted_name_is_held(at, name, want);
    let held = acquired(at, name, want).1;
    lemma_held_name_is_refused(held, name, other);
    lemma_owner_gets_its_name(released(held), name, want);
}

/// The states of a run on its way to a name that nothing stood at.
spec fn making_its_own(state: AcquireState, at: Standing) -> bool {
    match state {
        AcquireState::Probe => !at.log && at.sidecar is None && !at.locked,
        AcquireState::Create => at.sidecar is None && !at.locked,
        AcquireState::Restrict { created } => created && !at.locked,
        AcquireState::Lock { created } => created && !at.locked,
        AcquireState::Write => true,
        AcquireState::Granted => true,
        _ => false,
    }
}

proof fn lemma_maker_proceeds(at: Standing, state: AcquireState, name: Seq<char>, want: RecordView, n: nat)
    requires
        making_its_own(state, at),
    ensures
        !(acquire_at(at, state, name, want, n).0 is Refused),
    decreases n,
{
    if n > 0 {
        lemma_maker_proceeds(
            standing_after(at, state, name, want),
            acquire_next(state, standing_event(at, state), want),
            name,
            want,
            (n - 1) as nat,
        );
    }
}

/// A name that nothing stands at is granted.
pub proof fn lemma_unused_name_is_granted(at: Standing, name: Seq<char>, want: RecordView)
    requires
        !at.log,
        at.sidecar is None,
        !at.locked,
    ensures
        acquired(at, name, want).0 is Granted,
{
    lemma_maker_proceeds(at, AcquireState::Probe, name, want, ACQUIRE_CALLS as nat);
    lemma_acquiring_ends(at, name, want);
}

/// Whether a name holds nothing that is not `want`'s: there is no log, or the sidecar
/// says that the log is its own.
pub open spec fn loses_nothing(at: Standing, want: RecordView) -> bool {
    !at.log || standing_claim(at) == ClaimView::Record(want)
}

/// What a run that is in a state has made sure of.
spec fn made_sure(state: AcquireState, first: Standing, at: Standing, want: RecordView) -> bool {
    match state {
        AcquireState::Probe => at == first,
        AcquireState::Create => at == first && (at.log ==> at.sidecar is Some),
        AcquireState::Examine => at == first,
        AcquireState::Refused => true,
        _ => loses_nothing(first, want),
    }
}

proof fn lemma_made_sure(
    first: Standing,
    at: Standing,
    state: AcquireState,
    name: Seq<char>,
    want: RecordView,
    n: nat,
)
    requires
        made_sure(state, first, at, want),
    ensures
        made_sure(
            acquire_at(at, state, name, want, n).0,
            first,
            acquire_at(at, state, name, want, n).1,
            want,
        ),
    decreases n,
{
    if n > 0 {
        lemma_made_sure(
            first,
            standing_after(at, state, name, want),
            acquire_next(state, standing_event(at, state), want),
            name,
            want,
            (n - 1) as nat,
        );
    }
}

/// A name is granted only where there is no log yet, or where its sidecar holds this
/// very record.
pub proof fn lemma_granted_name_loses_nothing(at: Standing, name: Seq<char>, want: RecordView)
    requires
        acquired(at, name, want).0 is Granted,
    ensures
        loses_nothing(at, want),
{
    lemma_made_sure(at, at, AcquireState::Probe, name, want, ACQUIRE_CALLS as nat);
}

/// When a name is granted, exactly. Without a sidecar: if there is no log and nobody holds
/// the lock. With one: if nobody holds the lock, it has no second name, and it says that
/// this run owns the log, or it cannot be made out and there is no log to lose.
pub proof fn lemma_name_is_granted_exactly(at: Standing, name: Seq<char>, want: RecordView)
    ensures
        acquired(at, name, want).0 is Granted == (!at.locked && match at.sidecar {
            None => !at.log,
            Some(_) => at.links == 1 && match standing_claim(at) {
                ClaimView::Record(record) => record == want,
                ClaimView::Malformed => !at.log,
                ClaimView::Unreadable => false,
                ClaimView::Absent => false,
            },
        }),
{
    let probe = AcquireState::Probe;
    lemma_one_call(at, probe, name, want, 8);
    if at.log && at.sidecar is None {
        lemma_over_stays_over(at, AcquireState::Refused, name, want, 7);
    } else {
        lemma_one_call(at, AcquireState::Create, name, want, 7);
        if at.sidecar is None {
            let made = Standing {
                sidecar: Some(Seq::empty()),
                readable: true,
                mode: PRIVATE_FILE_MODE,
                links: 1,
                ..at
            };
            lemma_from_restricting(made, true, name, want, 6);
        } else {
            lemma_one_call(at, AcquireState::Examine, name, want, 6);
            if reclaimable(standing_claim(at), want, at.log) {
                lemma_one_call(at, AcquireState::Open, name, want, 5);
                if at.links == 1 {
                    lemma_from_restricting(at, false, name, want, 4);
                } else {
                    lemma_over_stays_over(at, AcquireState::Refused, name, want, 4);
                }
            } else {
                lemma_over_stays_over(at, AcquireState::Refused, name, want, 5);
            }
        }
    }
}

proof fn lemma_one_call(at: Standing, state: AcquireState, name: Seq<char>, want: RecordView, n: nat)
    requires
        n > 0,
    ensures
        acquire_at(at, state, name, want, n) == acquire_at(
            standing_after(at, state, name, want),
            acquire_next(state, standing_event(at, state), want),
            name,
            want,
            (n - 1) as nat,
        ),
{
}

proof fn lemma_over_stays_over(at: Standing, state: AcquireState, name: Seq<char>, want: RecordView, n: nat)
    requires
        state is Granted || state is Refused,
    ensures
        acquire_at(at, state, name, want, n).0 == state,
    decreases n,
{
    if n > 0 {
        lemma_over_stays_over(at, state, name, want, (n - 1) as nat);
    }
}

proof fn lemma_from_restricting(at: Standing, created: bool, name: Seq<char>, want: RecordView, n: nat)
    requires
        n >= 4,
        created || reclaimable(standing_claim(at), want, at.log),
    ensures
        acquire_at(at, AcquireState::Restrict { created }, name, want, n).0 is Granted == !at.locked,
{
    let mine = Standing { mode: PRIVATE_FILE_MODE, ..at };
    let held = Standing { locked: true, ..mine };
    lemma_one_call(at, AcquireState::Restrict { created }, name, want, n);
    lemma_one_call(mine, AcquireState::Lock { created }, name, want, (n - 1) as nat);
    if at.locked {
        lemma_over_stays_over(held, AcquireState::Refused, name, want, (n - 2) as nat);
    } else if created {
        lemma_one_call(held, AcquireState::Write, name, want, (n - 2) as nat);
        let written = standing_after(held, AcquireState::Write, name, want);
        lemma_over_stays_over(written, AcquireState::Granted, name, want, (n - 3) as nat);
    } else {
        assert(standing_claim(held) == standing_claim(at));
        lemma_one_call(held, AcquireState::Reexamine, name, want, (n - 2) as nat);
        lemma_one_call(held, AcquireState::Write, name, want, (n - 3) as nat);
        let written = standing_after(held, AcquireState::Write, name, want);
        lemma_over_stays_over(written, AcquireState::Granted, name, want, (n - 4) as nat);
    }
}

/// Who may take over what a sidecar says, where files are locked: the owner of the record,
/// or anyone where nothing can be made out and no log is there. What cannot be read is
/// nobody's.
pub proof fn lemma_reclaiming_by_the_record(record: RecordView, want: RecordView, log_present: bool)
    ensures
        reclaimable(ClaimView::Record(record), want, log_present) == (record.key == want.key
            && record.token == want.token),
        reclaimable(ClaimView::Malformed, want, log_present) == !log_present,
        !reclaimable(ClaimView::Unreadable, want, log_present),
        !reclaimable(ClaimView::Absent, want, log_present),
        reusable_unlocked(ClaimView::Record(record), want, log_present) == (record.key == want.key
            && record.token == want.token),
        reusable_unlocked(ClaimView::Malformed, want, log_present) == !log_present,
        reusable_unlocked(ClaimView::Unreadable, want, log_present) == !log_present,
        reusable_unlocked(ClaimView::Absent, want, log_present) == !log_present,
{
}

/// What is asked for a name: its sidecar is created, opened and restricted for its owner
/// alone, and what is written to it is the record that this run wants.
pub proof fn lemma_calls_for_a_name(name: Seq<char>, want: RecordView, created: bool)
    ensures
        ({
            let sidecar = seq!['.'] + name + ".claim"@;
            &&& call_of(AcquireState::Probe, name, want) == (CallView::Probe { log: name, sidecar })
            &&& call_of(AcquireState::Create, name, want) == (CallView::Create { sidecar, mode: 0o600 })
            &&& call_of(AcquireState::Examine, name, want) == (CallView::Examine { log: name, sidecar })
            &&& call_of(AcquireState::Open, name, want) == (CallView::Open { sidecar, mode: 0o600 })
            &&& call_of(AcquireState::Restrict { created }, name, want) == (CallView::Restrict {
                mode: 0o600,
            })
            &&& call_of(AcquireState::Lock { created }, name, want) is Lock
            &&& call_of(AcquireState::Reexamine, name, want) == (CallView::Examine { log: name, sidecar })
            &&& call_of(AcquireState::Write, name, want) == (CallView::Write {
                sidecar,
                text: encoded(want),
            })
            &&& call_of(AcquireState::Granted, name, want) == (CallView::Over { granted: true })
            &&& call_of(AcquireState::Refused, name, want) == (CallView::Over { granted: false })
        }),
{
}

/// What a sidecar is read as: one of more than 8236 bytes is not looked into, and any other
/// is the record in it, if there is one.
pub proof fn lemma_sidecar_is_read_up_to_its_size(size: nat, text: Seq<char>)
    ensures
        size > 8236 ==> claim_in(size, text) is Malformed,
        size <= 8236 && decoded(text) is None ==> claim_in(size, text) is Malformed,
        size <= 8236 && decoded(text) is Some ==> claim_in(size, text) == ClaimView::Record(
            decoded(text)->0,
        ),
{
}

/// Any call that fails ends the acquiring without the name, but for one: that the sidecar
/// could not be created because it is there.
pub proof fn lemma_failed_call_refuses_the_name(state: AcquireState, e: OsError, want: RecordView)
    requires
        !(state is Granted),
    ensures
        !(state is Create && e is Exists) ==> acquire_next(state, EventView::Failed(e), want) is Refused,
        acquire_next(AcquireState::Create, EventView::Failed(OsError::Exists), want) is Examine,
        unlocked_next(state, EventView::Failed(e), want) is Refused,
{
}

/// Where files are not locked a name is granted exactly so: there is no log without a
/// sidecar, and what the sidecar says is this run's own record, or there is no log; and
/// the record could be written.
pub proof fn lemma_unlocked_name_is_granted_exactly(
    log: bool,
    sidecar: bool,
    said: ClaimView,
    log_present: bool,
    last: EventView,
    want: RecordView,
)
    ensures
        unlocked_run(
            seq![
                EventView::Presence { log, sidecar },
                EventView::Claim { said, log_present },
                last,
            ],
            want,
        ) is Granted == ((log ==> sidecar) && (match said {
            ClaimView::Record(record) => record == want,
            _ => !log_present,
        }) && last is Done),
{
    let events = seq![
        EventView::Presence { log, sidecar },
        EventView::Claim { said, log_present },
        last,
    ];
    lemma_unlocked_granted_only_when_owned(events, want);
}

} // verus!
