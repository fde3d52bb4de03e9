//! The scenario runner, as a dialogue.
//!
//! A run goes through its steps in order. Each step asks for actions and goes on
//! from their replies; it ends with a report row, with nothing, or with a fault. A
//! failed expectation is a row and the run goes on; a fault stops it.
use vstd::prelude::*;
use vstd::slice::*;
use vstd::string::*;
use vstd::utf8::*;

use crate::error::{fault_code, mask_error, masked_fault, ErrorView, PittyError};
use crate::expand::expanded;
use crate::json::{file_json, json_fault, read_json_from_file, read_text_from_file, unread_message};
use crate::mask::masked;
use crate::path::name_list;
use crate::rawpath::{joined, shown};
use crate::report::{
    failed_row, mask_report, masked_report, overall, passed_row, rows, status_of, AssertionResult,
    Report, ReportView, RowView,
};
use crate::resolve::SnapshotAccess;
use crate::scenario::{JsonCheck, JsonCheckView, Scenario, Source, Step, StepKind};
use crate::string_map::{pair_list, Pairs};
use crate::text::{between, same_bytes};
use crate::workspace::{
    expanded_pairs, SnapshotTarget, TargetView, UnresolvablePath, Workspace, WorkspaceView,
};

verus! {

/// How long an expectation waits that does not say, in milliseconds.
pub const DEFAULT_EXPECT_TIMEOUT: u64 = 30000;

/// Options that cut across a whole scenario run.
#[derive(Debug, Clone, Copy, PartialEq, Eq, Structural)]
pub struct RunOptions {
    /// Record and refresh snapshots instead of failing on absent or different ones.
    pub update: bool,
}

impl Default for RunOptions {
    fn default() -> (r: RunOptions)
        ensures
            !r.update,
    {
        RunOptions { update: false }
    }
}

/// What a run asks for. Times are in milliseconds.
#[derive(Debug, PartialEq, Eq)]
pub enum Action {
    /// Note the state of the files `baselines`, then start a process.
    Spawn {
        command: String,
        cwd: Vec<u8>,
        env: Vec<(String, String)>,
        baselines: Vec<Vec<u8>>,
    },
    /// Send a line.
    SendLine(String),
    /// Send bytes.
    SendRaw(Vec<u8>),
    /// Send the bytes of a key.
    SendKey(Vec<u8>),
    /// Sleep.
    Sleep(u64),
    /// Wait for a text in the output.
    WaitText { contains: String, timeout: u64 },
    /// Check that a pattern can be used.
    CompilePattern(String),
    /// Wait for a match in the output.
    WaitPattern { pattern: String, timeout: u64 },
    /// Check that a text is not in the output.
    LacksText(String),
    /// Check that a file exists.
    FileExists(Vec<u8>),
    /// Check that a file holds a text.
    FileContains(Vec<u8>, String),
    /// Check that a file does not hold a text.
    FileLacks(Vec<u8>, String),
    /// Check that a file differs from its baseline.
    FileChanged(Vec<u8>),
    /// Check the exit code once.
    PollExit(i32),
    /// Wait for the exit and check its code.
    WaitExit { code: i32, timeout: u64 },
    /// Check whether the process runs.
    PollRunning(bool),
    /// Read a file as text.
    ReadFile(Vec<u8>),
    /// Wait for a JSON document at the end of the output.
    WaitTailJson(u64),
    /// Check the value at `path` of the JSON document `text`.
    EvaluateJson { text: String, path: String, check: JsonCheck },
    /// Resolve a snapshot path.
    ResolveSnapshot { file: String, access: SnapshotAccess },
    /// Compare the output with a snapshot, or record it.
    CompareSnapshot { target: SnapshotTarget, raw: bool, update: bool },
    /// Compare `output` with `text` by similarity. The check passes from the threshold
    /// `similarity` on, which is given as it was written.
    ScoreText { output: String, text: String, similarity: String },
    /// Compare the output with `text` by similarity, by the same rule.
    ScoreOutput { text: String, similarity: String },
}

/// The mathematical value of an [`Action`].
pub ghost enum ActionView {
    Spawn { command: Seq<char>, cwd: Seq<u8>, env: Pairs, baselines: Seq<Seq<u8>> },
    SendLine(Seq<char>),
    SendRaw(Seq<u8>),
    SendKey(Seq<u8>),
    Sleep(u64),
    WaitText { contains: Seq<char>, timeout: u64 },
    CompilePattern(Seq<char>),
    WaitPattern { pattern: Seq<char>, timeout: u64 },
    LacksText(Seq<char>),
    FileExists(Seq<u8>),
    FileContains(Seq<u8>, Seq<char>),
    FileLacks(Seq<u8>, Seq<char>),
    FileChanged(Seq<u8>),
    PollExit(i32),
    WaitExit { code: i32, timeout: u64 },
    PollRunning(bool),
    ReadFile(Seq<u8>),
    WaitTailJson(u64),
    EvaluateJson { text: Seq<char>, path: Seq<char>, check: JsonCheckView },
    ResolveSnapshot { file: Seq<char>, access: SnapshotAccess },
    CompareSnapshot { target: TargetView, raw: bool, update: bool },
    ScoreText { output: Seq<char>, text: Seq<char>, similarity: Seq<char> },
    ScoreOutput { text: Seq<char>, similarity: Seq<char> },
}

impl View for Action {
    type V = ActionView;

    open spec fn view(&self) -> ActionView {
        match *self {
            Action::Spawn { command, cwd, env, baselines } => ActionView::Spawn {
                command: command@,
                cwd: cwd@,
                env: pair_list(env@),
                baselines: name_list(baselines@),
            },
            Action::SendLine(text) => ActionView::SendLine(text@),
            Action::SendRaw(bytes) => ActionView::SendRaw(bytes@),
            Action::SendKey(bytes) => ActionView::SendKey(bytes@),
            Action::Sleep(time) => ActionView::Sleep(time),
            Action::WaitText { contains, timeout } => ActionView::WaitText {
                contains: contains@,
                timeout,
            },
            Action::CompilePattern(pattern) => ActionView::CompilePattern(pattern@),
            Action::WaitPattern { pattern, timeout } => ActionView::WaitPattern {
                pattern: pattern@,
                timeout,
            },
            Action::LacksText(text) => ActionView::LacksText(text@),
            Action::FileExists(path) => ActionView::FileExists(path@),
            Action::FileContains(path, text) => ActionView::FileContains(path@, text@),
            Action::FileLacks(path, text) => ActionView::FileLacks(path@, text@),
            Action::FileChanged(path) => ActionView::FileChanged(path@),
            Action::PollExit(code) => ActionView::PollExit(code),
            Action::WaitExit { code, timeout } => ActionView::WaitExit { code, timeout },
            Action::PollRunning(expected) => ActionView::PollRunning(expected),
            Action::ReadFile(path) => ActionView::ReadFile(path@),
            Action::WaitTailJson(timeout) => ActionView::WaitTailJson(timeout),
            Action::EvaluateJson { text, path, check } => ActionView::EvaluateJson {
                text: text@,
                path: path@,
                check: check@,
            },
            Action::ResolveSnapshot { file, access } => ActionView::ResolveSnapshot {
                file: file@,
                access,
            },
            Action::CompareSnapshot { target, raw, update } => ActionView::CompareSnapshot {
                target: target@,
                raw,
                update,
            },
            Action::ScoreText { output, text, similarity } => ActionView::ScoreText {
                output: output@,
                text: text@,
                similarity: similarity@,
            },
            Action::ScoreOutput { text, similarity } => ActionView::ScoreOutput {
                text: text@,
                similarity: similarity@,
            },
        }
    }
}

/// What came of an action.
#[derive(Debug, PartialEq, Eq)]
pub enum Reply {
    /// It succeeded.
    Done,
    /// It failed in a way that stops the run.
    Fault(PittyError),
    /// A check was made.
    Verdict { passed: bool, message: Option<String> },
    /// A pattern can be used, or cannot; then the reason.
    Pattern(Result<(), String>),
    /// A file was read, or could not be; then the error text.
    Text(Result<String, String>),
    /// A JSON document was found in time, or none.
    TailJson(Option<String>),
    /// A snapshot path was resolved.
    Resolved(Result<Result<SnapshotTarget, UnresolvablePath>, PittyError>),
}

/// How far a step has come.
#[derive(Debug, Clone, Copy, PartialEq, Eq, Structural)]
pub enum StepState {
    /// Its only, or its last, action is under way.
    Acting,
    /// Its pattern is looked at.
    Compiling,
    /// Its source is read.
    Reading,
    /// Its snapshot path is resolved.
    Resolving,
}

/// What a step does next.
#[derive(Debug, PartialEq, Eq)]
pub enum Move {
    /// Ask for an action.
    Do(Action, StepState),
    /// End with a row.
    Row(AssertionResult),
    /// End without a row.
    Silent,
    /// Stop the run.
    Fault(PittyError),
}

/// The mathematical value of a [`Move`].
pub ghost enum MoveView {
    Do(ActionView, StepState),
    Row(RowView),
    Silent,
    Fault(ErrorView),
}

impl View for Move {
    type V = MoveView;

    open spec fn view(&self) -> MoveView {
        match *self {
            Move::Do(action, state) => MoveView::Do(action@, state),
            Move::Row(row) => MoveView::Row(row@),
            Move::Silent => MoveView::Silent,
            Move::Fault(fault) => MoveView::Fault(fault@),
        }
    }
}

/// The fault of a step that needs a process before there is one.
pub open spec fn no_session() -> MoveView {
    MoveView::Fault(ErrorView::Scenario("step requires a prior 'spawn'"@))
}

/// The fault of a source keyword that means nothing.
pub open spec fn invalid_source(keyword: Seq<char>) -> MoveView {
    MoveView::Fault(
        ErrorView::Scenario(
            "unknown source '"@ + keyword
                + "'; use 'output' (the default) or '{file: <path>}'"@,
        ),
    )
}

/// The fault of a reply that does not answer the action.
pub open spec fn wrong_reply() -> MoveView {
    MoveView::Fault(ErrorView::Process("the reply does not answer the step"@))
}

/// An action that needs a process.
pub open spec fn with_session(spawned: bool, action: ActionView, state: StepState) -> MoveView {
    if spawned {
        MoveView::Do(action, state)
    } else {
        no_session()
    }
}

/// How long an expectation waits.
pub open spec fn timeout_of(timeout: Option<u64>) -> u64 {
    match timeout {
        Some(time) => time,
        None => DEFAULT_EXPECT_TIMEOUT,
    }
}

/// A path that a scenario writes, seen from the workspace.
pub open spec fn seen_from(space: WorkspaceView, rel: Seq<char>) -> Seq<u8> {
    joined(space.cwd, encode_utf8(rel), space.platform)
}

/// What a step asks for first.
pub open spec fn step_begins(
    step: Step,
    space: WorkspaceView,
    spawned: bool,
    primed: Seq<Seq<u8>>,
    baselines: Seq<Seq<u8>>,
    update: bool,
) -> MoveView {
    match step.kind {
        StepKind::Spawn { command, cwd, env } => MoveView::Do(
            ActionView::Spawn {
                command: expanded(space.variables, space.parent_env, command@),
                cwd: match cwd {
                    Some(rel) => seen_from(space, rel@),
                    None => space.cwd,
                },
                env: space.env + expanded_pairs(space.variables, space.parent_env, pair_list(env@)),
                baselines,
            },
            StepState::Acting,
        ),
        StepKind::Send(text) => with_session(
            spawned,
            ActionView::SendLine(expanded(space.variables, space.parent_env, text@)),
            StepState::Acting,
        ),
        StepKind::SendRaw(text) => with_session(
            spawned,
            ActionView::SendRaw(encode_utf8(expanded(space.variables, space.parent_env, text@))),
            StepState::Acting,
        ),
        StepKind::Key(bytes) => with_session(
            spawned,
            ActionView::SendKey(bytes@),
            StepState::Acting,
        ),
        StepKind::Wait(time) => MoveView::Do(ActionView::Sleep(time), StepState::Acting),
        StepKind::Expect { contains, timeout } => with_session(
            spawned,
            ActionView::WaitText { contains: contains@, timeout: timeout_of(timeout) },
            StepState::Acting,
        ),
        StepKind::ExpectRegex { pattern, timeout: _ } => MoveView::Do(
            ActionView::CompilePattern(pattern@),
            StepState::Compiling,
        ),
        StepKind::ExpectNot { contains } => with_session(
            spawned,
            ActionView::LacksText(contains@),
            StepState::Acting,
        ),
        StepKind::ExpectFileExists { path } => MoveView::Do(
            ActionView::FileExists(seen_from(space, path@)),
            StepState::Acting,
        ),
        StepKind::ExpectFileContains { path, contains } => MoveView::Do(
            ActionView::FileContains(seen_from(space, path@), contains@),
            StepState::Acting,
        ),
        StepKind::ExpectFileNotContains { path, contains } => MoveView::Do(
            ActionView::FileLacks(seen_from(space, path@), contains@),
            StepState::Acting,
        ),
        StepKind::ExpectFileChanged { path } => if primed.contains(seen_from(space, path@)) {
            MoveView::Do(ActionView::FileChanged(seen_from(space, path@)), StepState::Acting)
        } else {
            MoveView::Fault(
                ErrorView::Scenario(
                    "expect_file_changed for "@ + path@
                        + " has no baseline: it must appear after a 'spawn' so the file can be snapshotted at spawn time"@,
                ),
            )
        },
        StepKind::ExpectExit { code, timeout } => with_session(
            spawned,
            match timeout {
                Some(time) => ActionView::WaitExit { code, timeout: time },
                None => ActionView::PollExit(code),
            },
            StepState::Acting,
        ),
        StepKind::ExpectRunning(expected) => with_session(
            spawned,
            ActionView::PollRunning(expected),
            StepState::Acting,
        ),
        StepKind::ExpectJson { path, check: _, source, timeout, invalid_reason } => match invalid_reason {
            Some(reason) => MoveView::Fault(
                ErrorView::Scenario("expect_json '"@ + path@ + "': "@ + reason@),
            ),
            None => match source {
                Source::Invalid(keyword) => invalid_source(keyword@),
                Source::File(rel) => MoveView::Do(
                    ActionView::ReadFile(seen_from(space, rel@)),
                    StepState::Reading,
                ),
                Source::Output => with_session(
                    spawned,
                    ActionView::WaitTailJson(timeout_of(timeout)),
                    StepState::Reading,
                ),
            },
        },
        StepKind::ExpectSnapshot { file, raw: _ } => with_session(
            spawned,
            ActionView::ResolveSnapshot {
                file: file@,
                access: if update {
                    SnapshotAccess::Record
                } else {
                    SnapshotAccess::Verify
                },
            },
            StepState::Resolving,
        ),
        StepKind::ExpectSemantic { text, similarity, in_range, source } => if !in_range {
            MoveView::Fault(
                ErrorView::Scenario(
                    "expect_semantic similarity "@ + similarity@
                        + " is out of range; it must be within 0.0..=1.0"@,
                ),
            )
        } else {
            match source {
                Source::Invalid(keyword) => invalid_source(keyword@),
                Source::File(rel) => MoveView::Do(
                    ActionView::ReadFile(seen_from(space, rel@)),
                    StepState::Reading,
                ),
                Source::Output => with_session(
                    spawned,
                    ActionView::ScoreOutput { text: text@, similarity: similarity@ },
                    StepState::Acting,
                ),
            }
        },
    }
}

/// A message, or nothing.
pub open spec fn said(message: Option<String>) -> Seq<char> {
    match message {
        Some(text) => text@,
        None => Seq::empty(),
    }
}

/// The row of a check: a pass says nothing, a failure carries its message.
pub open spec fn check_row(label: Seq<char>, passed: bool, message: Option<String>) -> RowView {
    if passed {
        passed_row(label)
    } else {
        failed_row(label, said(message))
    }
}

/// The row of a snapshot: a pass may carry a note that it was recorded.
pub open spec fn snapshot_row(label: Seq<char>, passed: bool, message: Option<String>) -> RowView {
    if passed {
        RowView {
            step: label,
            passed: true,
            message: match message {
                Some(note) => Some(note@),
                None => None,
            },
        }
    } else {
        failed_row(label, said(message))
    }
}

/// How a step goes on from a reply that is no fault.
pub open spec fn step_answered(
    step: Step,
    space: WorkspaceView,
    spawned: bool,
    update: bool,
    state: StepState,
    reply: Reply,
) -> MoveView {
    let label = step.label@;
    match (step.kind, state, reply) {
        (StepKind::Spawn { .. }, StepState::Acting, Reply::Done) => MoveView::Silent,
        (StepKind::Send(_), StepState::Acting, Reply::Done) => MoveView::Silent,
        (StepKind::SendRaw(_), StepState::Acting, Reply::Done) => MoveView::Silent,
        (StepKind::Key(_), StepState::Acting, Reply::Done) => MoveView::Silent,
        (StepKind::Wait(_), StepState::Acting, Reply::Done) => MoveView::Silent,
        (StepKind::ExpectRegex { pattern, timeout }, StepState::Compiling, Reply::Pattern(usable)) => match usable {
            Ok(()) => with_session(
                spawned,
                ActionView::WaitPattern { pattern: pattern@, timeout: timeout_of(timeout) },
                StepState::Acting,
            ),
            Err(reason) => MoveView::Fault(ErrorView::Scenario(reason@)),
        },
        (StepKind::ExpectJson { path, check, source, .. }, StepState::Reading, Reply::Text(read)) => match source {
            Source::File(rel) => match file_json(seen_from(space, rel@), read, space.platform) {
                Ok(text) => MoveView::Do(
                    ActionView::EvaluateJson { text, path: path@, check: check@ },
                    StepState::Acting,
                ),
                Err(message) => MoveView::Row(failed_row(label, message)),
            },
            _ => wrong_reply(),
        },
        (StepKind::ExpectJson { path, check, .. }, StepState::Reading, Reply::TailJson(found)) => match found {
            Some(text) => MoveView::Do(
                ActionView::EvaluateJson { text: text@, path: path@, check: check@ },
                StepState::Acting,
            ),
            None => MoveView::Row(
                failed_row(label, "no valid JSON block found in output before timeout"@),
            ),
        },
        (StepKind::ExpectSnapshot { file: _, raw }, StepState::Resolving, Reply::Resolved(found)) => match found {
            Err(fault) => MoveView::Fault(fault@),
            Ok(Err(path)) => MoveView::Row(failed_row(label, path.reason())),
            Ok(Ok(target)) => MoveView::Do(
                ActionView::CompareSnapshot { target: target@, raw, update },
                StepState::Acting,
            ),
        },
        (StepKind::ExpectSnapshot { .. }, StepState::Acting, Reply::Verdict { passed, message }) => MoveView::Row(
            snapshot_row(label, passed, message),
        ),
        (StepKind::ExpectSemantic { text, similarity, source, .. }, StepState::Reading, Reply::Text(read)) => match source {
            Source::File(rel) => match read {
                Ok(output) => MoveView::Do(
                    ActionView::ScoreText { output: output@, text: text@, similarity: similarity@ },
                    StepState::Acting,
                ),
                Err(error) => MoveView::Row(
                    failed_row(label, unread_message(seen_from(space, rel@), error@, space.platform)),
                ),
            },
            _ => wrong_reply(),
        },
        (kind, StepState::Acting, Reply::Verdict { passed, message }) => if is_check(kind) {
            MoveView::Row(check_row(label, passed, message))
        } else {
            wrong_reply()
        },
        _ => wrong_reply(),
    }
}

/// Whether a step ends with a plain check.
pub open spec fn is_check(kind: StepKind) -> bool {
    match kind {
        StepKind::Spawn { .. } => false,
        StepKind::Send(_) => false,
        StepKind::SendRaw(_) => false,
        StepKind::Key(_) => false,
        StepKind::Wait(_) => false,
        StepKind::ExpectSnapshot { .. } => false,
        _ => true,
    }
}

/// How a step goes on from a reply.
pub open spec fn step_goes_on(
    step: Step,
    space: WorkspaceView,
    spawned: bool,
    update: bool,
    state: StepState,
    reply: Reply,
) -> MoveView {
    match reply {
        Reply::Fault(fault) => MoveView::Fault(fault@),
        _ => step_answered(step, space, spawned, update, state, reply),
    }
}

// ---------------------------------------------------------------------------
// Steps
// ---------------------------------------------------------------------------

fn session_or_fault(spawned: bool, action: Action, state: StepState) -> (r: Move)
    ensures
        r@ == with_session(spawned, action@, state),
{
    if spawned {
        Move::Do(action, state)
    } else {
        Move::Fault(PittyError::Scenario("step requires a prior 'spawn'".to_owned()))
    }
}

fn invalid_source_error(keyword: &str) -> (r: Move)
    ensures
        r@ == invalid_source(keyword@),
{
    Move::Fault(
        PittyError::Scenario(
            between(
                "unknown source '",
                keyword,
                "'; use 'output' (the default) or '{file: <path>}'",
            ),
        ),
    )
}

fn wrong_reply_error() -> (r: Move)
    ensures
        r@ == wrong_reply(),
{
    Move::Fault(PittyError::Process("the reply does not answer the step".to_owned()))
}

fn timeout_or_default(timeout: Option<u64>) -> (r: u64)
    ensures
        r == timeout_of(timeout),
{
    match timeout {
        Some(time) => time,
        None => DEFAULT_EXPECT_TIMEOUT,
    }
}

fn copy_names(list: &[Vec<u8>]) -> (r: Vec<Vec<u8>>)
    ensures
        name_list(r@) == name_list(list@),
{
    let mut out: Vec<Vec<u8>> = Vec::new();
    let mut i: usize = 0;
    while i < list.len()
        invariant
            i <= list@.len(),
            name_list(out@) =~= name_list(list@).take(i as int),
        decreases list@.len() - i,
    {
        let ghost before = out@;
        out.push(slice_to_vec(list[i].as_slice()));
        assert(name_list(out@) =~= name_list(before).push(list@[i as int]@));
        i = i + 1;
    }
    assert(name_list(out@) =~= name_list(list@));
    out
}

fn holds_name(list: &[Vec<u8>], name: &[u8]) -> (r: bool)
    ensures
        r == name_list(list@).contains(name@),
{
    let mut i: usize = 0;
    while i < list.len()
        invariant
            i <= list@.len(),
            forall|j: int| 0 <= j < i ==> #[trigger] name_list(list@)[j] != name@,
        decreases list@.len() - i,
    {
        if same_bytes(list[i].as_slice(), name) {
            assert(name_list(list@)[i as int] == name@);
            return true;
        }
        i = i + 1;
    }
    false
}

/// Begin a step: what it asks for first, or the fault that it is.
pub fn begin_step(
    step: &Step,
    workspace: &Workspace,
    spawned: bool,
    primed: &[Vec<u8>],
    baselines: &[Vec<u8>],
    options: &RunOptions,
) -> (r: Move)
    ensures
        r@ == step_begins(
            *step,
            workspace@,
            spawned,
            name_list(primed@),
            name_list(baselines@),
            options.update,
        ),
{
    match &step.kind {
        StepKind::Spawn { command, cwd, env } => {
            let dir = match cwd {
                Some(rel) => workspace.resolve_path(rel.as_str()),
                None => slice_to_vec(workspace.cwd()),
            };
            Move::Do(
                Action::Spawn {
                    command: workspace.expand(command.as_str()),
                    cwd: dir,
                    env: workspace.spawn_env(env),
                    baselines: copy_names(baselines),
                },
                StepState::Acting,
            )
        },
        StepKind::Send(text) => {
            let line = workspace.expand(text.as_str());
            session_or_fault(spawned, Action::SendLine(line), StepState::Acting)
        },
        StepKind::SendRaw(text) => {
            let raw = workspace.expand(text.as_str());
            let bytes = slice_to_vec(raw.as_str().as_bytes());
            session_or_fault(spawned, Action::SendRaw(bytes), StepState::Acting)
        },
        StepKind::Key(bytes) => session_or_fault(
            spawned,
            Action::SendKey(slice_to_vec(bytes.as_slice())),
            StepState::Acting,
        ),
        StepKind::Wait(time) => Move::Do(Action::Sleep(*time), StepState::Acting),
        StepKind::Expect { contains, timeout } => session_or_fault(
            spawned,
            Action::WaitText { contains: contains.clone(), timeout: timeout_or_default(*timeout) },
            StepState::Acting,
        ),
        StepKind::ExpectRegex { pattern, timeout: _ } => Move::Do(
            Action::CompilePattern(pattern.clone()),
            StepState::Compiling,
        ),
        StepKind::ExpectNot { contains } => session_or_fault(
            spawned,
            Action::LacksText(contains.clone()),
            StepState::Acting,
        ),
        StepKind::ExpectFileExists { path } => Move::Do(
            Action::FileExists(workspace.resolve_path(path.as_str())),
            StepState::Acting,
        ),
        StepKind::ExpectFileContains { path, contains } => Move::Do(
            Action::FileContains(workspace.resolve_path(path.as_str()), contains.clone()),
            StepState::Acting,
        ),
        StepKind::ExpectFileNotContains { path, contains } => Move::Do(
            Action::FileLacks(workspace.resolve_path(path.as_str()), contains.clone()),
            StepState::Acting,
        ),
        StepKind::ExpectFileChanged { path } => {
            let file = workspace.resolve_path(path.as_str());
            if holds_name(primed, file.as_slice()) {
                Move::Do(Action::FileChanged(file), StepState::Acting)
            } else {
                Move::Fault(
                    PittyError::Scenario(
                        between(
                            "expect_file_changed for ",
                            path.as_str(),
                            " has no baseline: it must appear after a 'spawn' so the file can be snapshotted at spawn time",
                        ),
                    ),
                )
            }
        },
        StepKind::ExpectExit { code, timeout } => {
            let action = match timeout {
                Some(time) => Action::WaitExit { code: *code, timeout: *time },
                None => Action::PollExit(*code),
            };
            session_or_fault(spawned, action, StepState::Acting)
        },
        StepKind::ExpectRunning(expected) => session_or_fault(
            spawned,
            Action::PollRunning(*expected),
            StepState::Acting,
        ),
        StepKind::ExpectJson { path, check: _, source, timeout, invalid_reason } => match invalid_reason {
            Some(reason) => {
                let mut message = between("expect_json '", path.as_str(), "': ");
                message.append(reason.as_str());
                Move::Fault(PittyError::Scenario(message))
            },
            None => match source {
                Source::Invalid(keyword) => invalid_source_error(keyword.as_str()),
                Source::File(rel) => Move::Do(
                    Action::ReadFile(workspace.resolve_path(rel.as_str())),
                    StepState::Reading,
                ),
                Source::Output => session_or_fault(
                    spawned,
                    Action::WaitTailJson(timeout_or_default(*timeout)),
                    StepState::Reading,
                ),
            },
        },
        StepKind::ExpectSnapshot { file, raw: _ } => {
            let access = if options.update {
                SnapshotAccess::Record
            } else {
                SnapshotAccess::Verify
            };
            session_or_fault(
                spawned,
                Action::ResolveSnapshot { file: file.clone(), access },
                StepState::Resolving,
            )
        },
        StepKind::ExpectSemantic { text, similarity, in_range, source } => {
            if !*in_range {
                return Move::Fault(
                    PittyError::Scenario(
                        between(
                            "expect_semantic similarity ",
                            similarity.as_str(),
                            " is out of range; it must be within 0.0..=1.0",
                        ),
                    ),
                );
            }
            match source {
                Source::Invalid(keyword) => invalid_source_error(keyword.as_str()),
                Source::File(rel) => Move::Do(
                    Action::ReadFile(workspace.resolve_path(rel.as_str())),
                    StepState::Reading,
                ),
                Source::Output => session_or_fault(
                    spawned,
                    Action::ScoreOutput { text: text.clone(), similarity: similarity.clone() },
                    StepState::Acting,
                ),
            }
        },
    }
}

fn message_or_empty(message: Option<String>) -> (r: String)
    ensures
        r@ == said(message),
{
    match message {
        Some(text) => text,
        None => String::new(),
    }
}

/// Convert a pass/fail check into a report row under `label`.
pub fn pass_fail(label: &str, passed: bool, message: Option<String>) -> (r: AssertionResult)
    ensures
        r@ == check_row(label@, passed, message),
{
    if passed {
        AssertionResult::pass(label)
    } else {
        AssertionResult::fail(label, message_or_empty(message))
    }
}

/// Convert a snapshot result into a report row under `label`. A pass keeps its note.
pub fn snapshot_result(label: &str, passed: bool, message: Option<String>) -> (r: AssertionResult)
    ensures
        r@ == snapshot_row(label@, passed, message),
{
    if passed {
        AssertionResult { step: label.to_owned(), passed: true, message }
    } else {
        AssertionResult::fail(label, message_or_empty(message))
    }
}

fn plain_check(kind: &StepKind) -> (r: bool)
    ensures
        r == is_check(*kind),
{
    match kind {
        StepKind::Spawn { .. } => false,
        StepKind::Send(_) => false,
        StepKind::SendRaw(_) => false,
        StepKind::Key(_) => false,
        StepKind::Wait(_) => false,
        StepKind::ExpectSnapshot { .. } => false,
        _ => true,
    }
}

/// Go on with a step from the reply to its last action.
pub fn execute_step(
    step: &Step,
    workspace: &Workspace,
    spawned: bool,
    options: &RunOptions,
    state: StepState,
    reply: Reply,
) -> (r: Move)
    ensures
        r@ == step_goes_on(*step, workspace@, spawned, options.update, state, reply),
{
    let label = step.label.as_str();
    match (&step.kind, state, reply) {
        (_, _, Reply::Fault(fault)) => Move::Fault(fault),
        (StepKind::Spawn { .. }, StepState::Acting, Reply::Done) => Move::Silent,
        (StepKind::Send(_), StepState::Acting, Reply::Done) => Move::Silent,
        (StepKind::SendRaw(_), StepState::Acting, Reply::Done) => Move::Silent,
        (StepKind::Key(_), StepState::Acting, Reply::Done) => Move::Silent,
        (StepKind::Wait(_), StepState::Acting, Reply::Done) => Move::Silent,
        (StepKind::ExpectRegex { pattern, timeout }, StepState::Compiling, Reply::Pattern(usable)) => match usable {
            Ok(()) => session_or_fault(
                spawned,
                Action::WaitPattern {
                    pattern: pattern.clone(),
                    timeout: timeout_or_default(*timeout),
                },
                StepState::Acting,
            ),
            Err(reason) => Move::Fault(PittyError::Scenario(reason)),
        },
        (StepKind::ExpectJson { path, check, source, .. }, StepState::Reading, Reply::Text(read)) => match source {
            Source::File(rel) => {
                let file = workspace.resolve_path(rel.as_str());
                match read_json_from_file(file.as_slice(), read, workspace.platform()) {
                    Ok(text) => Move::Do(
                        Action::EvaluateJson { text, path: path.clone(), check: check.copy() },
                        StepState::Acting,
                    ),
                    Err(message) => Move::Row(AssertionResult::fail(label, message)),
                }
            },
            _ => wrong_reply_error(),
        },
        (StepKind::ExpectJson { path, check, .. }, StepState::Reading, Reply::TailJson(found)) => match found {
            Some(text) => Move::Do(
                Action::EvaluateJson { text, path: path.clone(), check: check.copy() },
                StepState::Acting,
            ),
            None => Move::Row(
                AssertionResult::fail(
                    label,
                    "no valid JSON block found in output before timeout".to_owned(),
                ),
            ),
        },
        (StepKind::ExpectSnapshot { file: _, raw }, StepState::Resolving, Reply::Resolved(found)) => match found {
            Err(fault) => Move::Fault(fault),
            Ok(Err(path)) => Move::Row(AssertionResult::fail(label, path.into_message())),
            Ok(Ok(target)) => Move::Do(
                Action::CompareSnapshot { target, raw: *raw, update: options.update },
                StepState::Acting,
            ),
        },
        (StepKind::ExpectSnapshot { .. }, StepState::Acting, Reply::Verdict { passed, message }) => Move::Row(
            snapshot_result(label, passed, message),
        ),
        (StepKind::ExpectSemantic { text, similarity, source, .. }, StepState::Reading, Reply::Text(read)) => match source {
            Source::File(rel) => {
                let file = workspace.resolve_path(rel.as_str());
                match read_text_from_file(file.as_slice(), read, workspace.platform()) {
                    Ok(output) => Move::Do(
                        Action::ScoreText { output, text: text.clone(), similarity: similarity.clone() },
                        StepState::Acting,
                    ),
                    Err(message) => Move::Row(AssertionResult::fail(label, message)),
                }
            },
            _ => wrong_reply_error(),
        },
        (kind, StepState::Acting, Reply::Verdict { passed, message }) => if plain_check(kind) {
            Move::Row(pass_fail(label, passed, message))
        } else {
            wrong_reply_error()
        },
        _ => wrong_reply_error(),
    }
}

// ---------------------------------------------------------------------------
// Runs
// ---------------------------------------------------------------------------

/// The files whose change a list of steps checks.
pub open spec fn changed_files(steps: Seq<Step>, space: WorkspaceView) -> Seq<Seq<u8>>
    decreases steps.len(),
{
    if steps.len() == 0 {
        Seq::empty()
    } else {
        let front = changed_files(steps.drop_last(), space);
        match steps.last().kind {
            StepKind::ExpectFileChanged { path } => front.push(seen_from(space, path@)),
            _ => front,
        }
    }
}

/// The files to note the state of when a process is spawned, so that "changed" is
/// measured from that moment.
pub fn prime_snapshots(scenario: &Scenario, workspace: &Workspace) -> (r: Vec<Vec<u8>>)
    ensures
        name_list(r@) == changed_files(scenario.steps@, workspace@),
{
    let mut out: Vec<Vec<u8>> = Vec::new();
    let ghost steps = scenario.steps@;
    let mut i: usize = 0;
    proof {
        assert(steps.take(0) =~= Seq::<Step>::empty());
        assert(name_list(out@) =~= Seq::<Seq<u8>>::empty());
    }
    while i < scenario.steps.len()
        invariant
            i <= scenario.steps@.len(),
            steps == scenario.steps@,
            name_list(out@) == changed_files(steps.take(i as int), workspace@),
        decreases scenario.steps@.len() - i,
    {
        proof {
            assert(steps.take(i + 1).drop_last() =~= steps.take(i as int));
            assert(steps.take(i + 1).last() == steps[i as int]);
        }
        match &scenario.steps[i].kind {
            StepKind::ExpectFileChanged { path } => {
                let ghost before = out@;
                out.push(workspace.resolve_path(path.as_str()));
                assert(name_list(out@) =~= name_list(before).push(seen_from(workspace@, path@)));
            },
            _ => {},
        }
        i = i + 1;
    }
    assert(steps.take(steps.len() as int) =~= steps);
    out
}

/// A run under way.
#[derive(Debug)]
pub struct Run {
    index: usize,
    spawned: bool,
    primed: Vec<Vec<u8>>,
    assertions: Vec<AssertionResult>,
    fault: Option<PittyError>,
    doing: Option<(Action, StepState)>,
}

/// The mathematical value of a [`Run`].
pub ghost struct RunView {
    /// The number of the step under way.
    pub index: nat,
    /// Whether a process was spawned.
    pub spawned: bool,
    /// The files that have a baseline.
    pub primed: Seq<Seq<u8>>,
    /// The rows so far.
    pub assertions: Seq<RowView>,
    /// The fault that stopped the run.
    pub fault: Option<ErrorView>,
    /// What is asked for, and how far its step has come.
    pub doing: Option<(ActionView, StepState)>,
}

/// The value of an optional fault.
pub open spec fn fault_value(fault: Option<PittyError>) -> Option<ErrorView> {
    match fault {
        Some(f) => Some(f@),
        None => None,
    }
}

impl View for Run {
    type V = RunView;

    closed spec fn view(&self) -> RunView {
        RunView {
            index: self.index as nat,
            spawned: self.spawned,
            primed: name_list(self.primed@),
            assertions: rows(self.assertions@),
            fault: fault_value(self.fault),
            doing: match self.doing {
                Some(d) => Some((d.0@, d.1)),
                None => None,
            },
        }
    }
}

/// A run before its first step.
pub open spec fn fresh_run() -> RunView {
    RunView {
        index: 0,
        spawned: false,
        primed: Seq::empty(),
        assertions: Seq::empty(),
        fault: None,
        doing: None,
    }
}

/// The run once the step that it has come to has begun. After the last step there
/// is nothing left to do.
pub open spec fn run_begins(scenario: Scenario, space: WorkspaceView, update: bool, run: RunView) -> RunView {
    if run.index >= scenario.steps@.len() {
        RunView { doing: None, ..run }
    } else {
        let step = scenario.steps@[run.index as int];
        let baselines = changed_files(scenario.steps@, space);
        match step_begins(step, space, run.spawned, run.primed, baselines, update) {
            MoveView::Do(action, state) => RunView {
                doing: Some((action, state)),
                primed: if step.kind is Spawn {
                    baselines
                } else {
                    run.primed
                },
                ..run
            },
            MoveView::Fault(fault) => RunView { fault: Some(fault), doing: None, ..run },
            _ => RunView { doing: None, ..run },
        }
    }
}

/// The run after a reply.
pub open spec fn run_goes_on(
    scenario: Scenario,
    space: WorkspaceView,
    update: bool,
    run: RunView,
    reply: Reply,
) -> RunView {
    match run.doing {
        None => run,
        Some((_, state)) => if run.index >= scenario.steps@.len() {
            run
        } else {
            let step = scenario.steps@[run.index as int];
            match step_goes_on(step, space, run.spawned, update, state, reply) {
                MoveView::Do(action, next) => RunView { doing: Some((action, next)), ..run },
                MoveView::Row(row) => run_begins(
                    scenario,
                    space,
                    update,
                    RunView {
                        index: run.index + 1,
                        assertions: run.assertions.push(row),
                        ..run
                    },
                ),
                MoveView::Silent => run_begins(
                    scenario,
                    space,
                    update,
                    RunView {
                        index: run.index + 1,
                        spawned: run.spawned || step.kind is Spawn,
                        ..run
                    },
                ),
                MoveView::Fault(fault) => RunView { fault: Some(fault), doing: None, ..run },
            }
        },
    }
}

impl Run {
    fn begin(self, scenario: &Scenario, workspace: &Workspace, options: &RunOptions) -> (r: Run)
        ensures
            r@ == run_begins(*scenario, workspace@, options.update, self@),
    {
        let mut run = self;
        if run.index >= scenario.steps.len() {
            run.doing = None;
            return run;
        }
        let baselines = prime_snapshots(scenario, workspace);
        let step = &scenario.steps[run.index];
        let moved = begin_step(
            step,
            workspace,
            run.spawned,
            run.primed.as_slice(),
            baselines.as_slice(),
            options,
        );
        match moved {
            Move::Do(action, state) => {
                match &step.kind {
                    StepKind::Spawn { .. } => {
                        run.primed = baselines;
                    },
                    _ => {},
                }
                run.doing = Some((action, state));
            },
            Move::Fault(fault) => {
                run.fault = Some(fault);
                run.doing = None;
            },
            _ => {
                run.doing = None;
            },
        }
        run
    }

    /// Start a run.
    pub fn start(scenario: &Scenario, workspace: &Workspace, options: &RunOptions) -> (r: Run)
        ensures
            r@ == run_begins(*scenario, workspace@, options.update, fresh_run()),
    {
        let run = Run {
            index: 0,
            spawned: false,
            primed: Vec::new(),
            assertions: Vec::new(),
            fault: None,
            doing: None,
        };
        assert(name_list(run.primed@) =~= Seq::<Seq<u8>>::empty());
        assert(rows(run.assertions@) =~= Seq::<RowView>::empty());
        assert(run@ == fresh_run());
        run.begin(scenario, workspace, options)
    }

    /// What the run asks for; `None` once it is over.
    pub fn action(&self) -> (r: Option<&Action>)
        ensures
            match r {
                Some(action) => self@.doing is Some && (self@.doing->0).0 == action@,
                None => self@.doing is None,
            },
    {
        match &self.doing {
            Some(d) => Some(&d.0),
            None => None,
        }
    }

    /// The number of the step under way.
    pub fn index(&self) -> (r: usize)
        ensures
            r == self@.index,
    {
        self.index
    }

    /// The rows so far.
    pub fn assertions(&self) -> (r: &[AssertionResult])
        ensures
            rows(r@) == self@.assertions,
    {
        self.assertions.as_slice()
    }

    /// The fault that stopped the run.
    pub fn fault(&self) -> (r: Option<&PittyError>)
        ensures
            match r {
                Some(fault) => self@.fault == Some(fault@),
                None => self@.fault is None,
            },
    {
        match &self.fault {
            Some(fault) => Some(fault),
            None => None,
        }
    }
}

/// Go on with a run from the reply to what it asked for.
pub fn run_scenario(
    scenario: &Scenario,
    workspace: &Workspace,
    options: &RunOptions,
    run: Run,
    reply: Reply,
) -> (r: Run)
    ensures
        r@ == run_goes_on(*scenario, workspace@, options.update, run@, reply),
{
    let ghost before = run@;
    let mut run = run;
    let state = match &run.doing {
        None => {
            return run;
        },
        Some(d) => d.1,
    };
    if run.index >= scenario.steps.len() {
        return run;
    }
    let step = &scenario.steps[run.index];
    match execute_step(step, workspace, run.spawned, options, state, reply) {
        Move::Do(action, next) => {
            run.doing = Some((action, next));
            run
        },
        Move::Row(row) => {
            let ghost known = run.assertions@;
            let ghost added = row@;
            run.assertions.push(row);
            assert(rows(run.assertions@) =~= rows(known).push(added));
            run.index = run.index + 1;
            run.begin(scenario, workspace, options)
        },
        Move::Silent => {
            match &step.kind {
                StepKind::Spawn { .. } => {
                    run.spawned = true;
                },
                _ => {},
            }
            run.index = run.index + 1;
            run.begin(scenario, workspace, options)
        },
        Move::Fault(fault) => {
            run.fault = Some(fault);
            run.doing = None;
            run
        },
    }
}

/// A run that is over.
#[derive(Debug, PartialEq, Eq)]
pub struct FinishedRun {
    /// The report, with every secret masked. Where a fault stopped the run it goes
    /// to the log alone.
    pub report: Report,
    /// The fault that stopped the run, with every secret masked.
    pub fault: Option<PittyError>,
}

/// The report of a run, with every secret masked.
pub open spec fn run_report(name: Seq<char>, run: RunView, duration: nat, secrets: Seq<Seq<char>>) -> ReportView {
    masked_report(
        ReportView {
            scenario: name,
            status: overall(run.assertions),
            duration_ms: duration,
            assertions: run.assertions,
        },
        secrets,
    )
}

/// An optional fault, masked.
pub open spec fn masked_outcome(fault: Option<ErrorView>, secrets: Seq<Seq<char>>) -> Option<ErrorView> {
    match fault {
        Some(f) => Some(masked_fault(f, secrets)),
        None => None,
    }
}

/// Finish a run: its report, and the fault that stopped it, if one did.
pub fn finish_run(scenario: &Scenario, workspace: &Workspace, run: Run, duration_ms: u128) -> (r: FinishedRun)
    ensures
        r.report@ == run_report(scenario.name@, run@, duration_ms as nat, workspace@.secrets),
        fault_value(r.fault) == masked_outcome(run@.fault, workspace@.secrets),
{
    let status = status_of(run.assertions.as_slice());
    let mut report = Report {
        scenario: scenario.name.clone(),
        status,
        duration_ms,
        assertions: run.assertions,
    };
    mask_report(&mut report, workspace.secrets());
    let fault = match run.fault {
        Some(fault) => Some(mask_error(fault, workspace.secrets())),
        None => None,
    };
    FinishedRun { report, fault }
}

impl FinishedRun {
    /// The report of a run that completed, or the fault that stopped it.
    pub fn into_result(self) -> (r: Result<Report, PittyError>)
        ensures
            match self.fault {
                Some(fault) => r == Result::<Report, PittyError>::Err(fault),
                None => r == Result::<Report, PittyError>::Ok(self.report),
            },
    {
        match self.fault {
            Some(fault) => Err(fault),
            None => Ok(self.report),
        }
    }
}

// ---------------------------------------------------------------------------
// Laws
// ---------------------------------------------------------------------------

/// A fault stops the run: nothing is asked for any more, and no reply changes it.
pub proof fn lemma_fault_stops_the_run(
    scenario: Scenario,
    space: WorkspaceView,
    update: bool,
    run: RunView,
    reply: Reply,
    later: Reply,
)
    requires
        run.fault is None,
        run_goes_on(scenario, space, update, run, reply).fault is Some,
    ensures
        ({
            let stopped = run_goes_on(scenario, space, update, run, reply);
            stopped.doing is None && run_goes_on(scenario, space, update, stopped, later) == stopped
        }),
{
}

/// Rows are only ever added: what a run has found it keeps, in order.
pub proof fn lemma_rows_only_grow(
    scenario: Scenario,
    space: WorkspaceView,
    update: bool,
    run: RunView,
    reply: Reply,
)
    ensures
        ({
            let after = run_goes_on(scenario, space, update, run, reply);
            after.assertions == run.assertions || after.assertions == run.assertions.push(
                after.assertions.last(),
            )
        }),
{
    let after = run_goes_on(scenario, space, update, run, reply);
    match run.doing {
        Some((_, state)) => {
            if run.index < scenario.steps@.len() {
                match step_goes_on(
                    scenario.steps@[run.index as int],
                    space,
                    run.spawned,
                    update,
                    state,
                    reply,
                ) {
                    MoveView::Row(row) => {
                        assert(run.assertions.push(row).last() == row);
                    },
                    _ => {},
                }
            }
        },
        None => {},
    }
}

/// A failed check does not stop the run: the next step begins, as after a check
/// that passed.
pub proof fn lemma_failed_check_goes_on(
    scenario: Scenario,
    space: WorkspaceView,
    update: bool,
    run: RunView,
    passed: bool,
    message: Option<String>,
)
    requires
        run.doing matches Some((_, state)) && state is Acting,
        run.index < scenario.steps@.len(),
        is_check(scenario.steps@[run.index as int].kind),
    ensures
        run_goes_on(
            scenario,
            space,
            update,
            run,
            (Reply::Verdict { passed, message }),
        ) == run_begins(
            scenario,
            space,
            update,
            RunView {
                index: run.index + 1,
                assertions: run.assertions.push(
                    check_row(scenario.steps@[run.index as int].label@, passed, message),
                ),
                ..run
            },
        ),
{
}

/// Whether a step reads the output of a process as soon as it begins, or acts on it.
pub open spec fn needs_session(kind: StepKind) -> bool {
    match kind {
        StepKind::Send(_) => true,
        StepKind::SendRaw(_) => true,
        StepKind::Key(_) => true,
        StepKind::Expect { .. } => true,
        StepKind::ExpectNot { .. } => true,
        StepKind::ExpectExit { .. } => true,
        StepKind::ExpectRunning(_) => true,
        StepKind::ExpectJson { source, .. } => source is Output,
        StepKind::ExpectSnapshot { .. } => true,
        StepKind::ExpectSemantic { source, .. } => source is Output,
        _ => false,
    }
}

/// Whether a step is itself well written, as far as its beginning can tell.
pub open spec fn well_written(kind: StepKind) -> bool {
    match kind {
        StepKind::ExpectJson { invalid_reason, .. } => invalid_reason is None,
        StepKind::ExpectSemantic { in_range, .. } => in_range,
        _ => true,
    }
}

/// A step that needs a process is a fault of the scenario before the first spawn:
/// the fault says so, unless the step itself is badly written.
pub proof fn lemma_spawn_comes_first(
    scenario: Scenario,
    space: WorkspaceView,
    update: bool,
    run: RunView,
)
    requires
        run.index < scenario.steps@.len(),
        !run.spawned,
        needs_session(scenario.steps@[run.index as int].kind),
    ensures
        ({
            let after = run_begins(scenario, space, update, run);
            &&& after.doing is None
            &&& after.fault matches Some(fault) && fault_code(fault) == 2
            &&& well_written(scenario.steps@[run.index as int].kind) ==> after.fault == Some(
                ErrorView::Scenario("step requires a prior 'spawn'"@),
            )
        }),
{
}

/// A pattern is looked at before a process is asked for: one that cannot be used is a
/// fault of the scenario, with the reason as its message, whether there is a process or
/// not; and before the first spawn one that can be used is a fault of the scenario too.
pub proof fn lemma_pattern_needs_a_spawn(
    scenario: Scenario,
    space: WorkspaceView,
    update: bool,
    run: RunView,
    reason: String,
)
    requires
        run.index < scenario.steps@.len(),
        scenario.steps@[run.index as int].kind is ExpectRegex,
    ensures
        ({
            let begun = run_begins(scenario, space, update, run);
            let good = run_goes_on(scenario, space, update, begun, Reply::Pattern(Ok(())));
            let bad = run_goes_on(scenario, space, update, begun, Reply::Pattern(Err(reason)));
            &&& begun.doing matches Some((action, state)) && action is CompilePattern && state
                is Compiling
            &&& begun.fault == run.fault
            &&& !run.spawned ==> good.doing is None && good.fault == Some(
                ErrorView::Scenario("step requires a prior 'spawn'"@),
            )
            &&& bad.doing is None && bad.fault == Some(ErrorView::Scenario(reason@))
        }),
{
}

/// Whether a step ends with a row.
pub open spec fn is_expectation(kind: StepKind) -> bool {
    match kind {
        StepKind::Spawn { .. } => false,
        StepKind::Send(_) => false,
        StepKind::SendRaw(_) => false,
        StepKind::Key(_) => false,
        StepKind::Wait(_) => false,
        _ => true,
    }
}

/// The labels of the expectations among some steps, in order.
pub open spec fn expected_labels(steps: Seq<Step>) -> Seq<Seq<char>>
    decreases steps.len(),
{
    if steps.len() == 0 {
        Seq::empty()
    } else {
        let front = expected_labels(steps.drop_last());
        if is_expectation(steps.last().kind) {
            front.push(steps.last().label@)
        } else {
            front
        }
    }
}

/// The labels of some rows, in order.
pub open spec fn row_labels(assertions: Seq<RowView>) -> Seq<Seq<char>> {
    Seq::new(assertions.len(), |i: int| assertions[i].step)
}

/// A run after some replies.
pub open spec fn run_after(
    scenario: Scenario,
    space: WorkspaceView,
    update: bool,
    replies: Seq<Reply>,
) -> RunView
    decreases replies.len(),
{
    if replies.len() == 0 {
        run_begins(scenario, space, update, fresh_run())
    } else {
        run_goes_on(
            scenario,
            space,
            update,
            run_after(scenario, space, update, replies.drop_last()),
            replies.last(),
        )
    }
}

/// What holds of a run that has come to step `index`: it has one row for each
/// expectation before that step, and it ends only by a fault or after the last step.
spec fn on_course(scenario: Scenario, run: RunView) -> bool {
    &&& run.index <= scenario.steps@.len()
    &&& row_labels(run.assertions) == expected_labels(scenario.steps@.take(run.index as int))
    &&& run.fault is Some ==> run.doing is None
    &&& run.doing is None && run.fault is None ==> run.index == scenario.steps@.len()
}

proof fn lemma_step_done(scenario: Scenario, run: RunView, row: Option<RowView>)
    requires
        run.index < scenario.steps@.len(),
        row_labels(run.assertions) == expected_labels(scenario.steps@.take(run.index as int)),
        is_expectation(scenario.steps@[run.index as int].kind) == (row is Some),
        row matches Some(added) ==> added.step == scenario.steps@[run.index as int].label@,
    ensures
        ({
            let rows_now = match row {
                Some(added) => run.assertions.push(added),
                None => run.assertions,
            };
            row_labels(rows_now) == expected_labels(scenario.steps@.take(run.index as int + 1))
        }),
{
    let steps = scenario.steps@;
    let n = run.index as int;
    assert(steps.take(n + 1).drop_last() =~= steps.take(n));
    assert(steps.take(n + 1).last() == steps[n]);
    if let Some(added) = row {
        assert(row_labels(run.assertions.push(added)) =~= row_labels(run.assertions).push(
            added.step,
        ));
    }
}

proof fn lemma_run_keeps_course(
    scenario: Scenario,
    space: WorkspaceView,
    update: bool,
    run: RunView,
    reply: Reply,
)
    requires
        on_course(scenario, run),
    ensures
        on_course(scenario, run_goes_on(scenario, space, update, run, reply)),
{
    if run.doing is Some && run.index < scenario.steps@.len() {
        let state = (run.doing->0).1;
        let step = scenario.steps@[run.index as int];
        match step_goes_on(step, space, run.spawned, update, state, reply) {
            MoveView::Row(row) => {
                lemma_step_done(scenario, run, Some(row));
            },
            MoveView::Silent => {
                lemma_step_done(scenario, run, None);
            },
            _ => {},
        }
    }
}

/// At every point a run has exactly one row for each expectation that it is through
/// with, under that step's label and in the order of the steps.
pub proof fn lemma_one_row_per_expectation(
    scenario: Scenario,
    space: WorkspaceView,
    update: bool,
    replies: Seq<Reply>,
)
    ensures
        ({
            let run = run_after(scenario, space, update, replies);
            &&& run.index <= scenario.steps@.len()
            &&& row_labels(run.assertions) == expected_labels(scenario.steps@.take(run.index as int))
        }),
{
    lemma_run_is_on_course(scenario, space, update, replies);
}

proof fn lemma_run_is_on_course(
    scenario: Scenario,
    space: WorkspaceView,
    update: bool,
    replies: Seq<Reply>,
)
    ensures
        on_course(scenario, run_after(scenario, space, update, replies)),
    decreases replies.len(),
{
    if replies.len() == 0 {
        assert(scenario.steps@.take(0) =~= Seq::<Step>::empty());
        assert(row_labels(fresh_run().assertions) =~= Seq::<Seq<char>>::empty());
    } else {
        lemma_run_is_on_course(scenario, space, update, replies.drop_last());
        lemma_run_keeps_course(
            scenario,
            space,
            update,
            run_after(scenario, space, update, replies.drop_last()),
            replies.last(),
        );
    }
}

/// A run that is over and was not stopped by a fault went through every step, and
/// has exactly one row for each expectation of the scenario, in the order of the
/// steps.
pub proof fn lemma_completed_run_reports_every_expectation(
    scenario: Scenario,
    space: WorkspaceView,
    update: bool,
    replies: Seq<Reply>,
)
    requires
        run_after(scenario, space, update, replies).doing is None,
        run_after(scenario, space, update, replies).fault is None,
    ensures
        run_after(scenario, space, update, replies).index == scenario.steps@.len(),
        row_labels(run_after(scenario, space, update, replies).assertions) == expected_labels(
            scenario.steps@,
        ),
{
    lemma_run_is_on_course(scenario, space, update, replies);
    assert(scenario.steps@.take(scenario.steps@.len() as int) =~= scenario.steps@);
}

/// A completed run passes if and only if every one of its rows does.
pub proof fn lemma_report_tells_the_rows(
    name: Seq<char>,
    run: RunView,
    duration: nat,
    secrets: Seq<Seq<char>>,
)
    ensures
        run_report(name, run, duration, secrets).status is Passed == (forall|i: int|
            0 <= i < run.assertions.len() ==> (#[trigger] run.assertions[i]).passed),
        run_report(name, run, duration, secrets).assertions.len() == run.assertions.len(),
        forall|i: int|
            0 <= i < run.assertions.len() ==> (#[trigger] run_report(
                name,
                run,
                duration,
                secrets,
            ).assertions[i]).passed == run.assertions[i].passed,
{
}

// ---------------------------------------------------------------------------
// What a run asks for
// ---------------------------------------------------------------------------

/// What a step that acts on the terminal asks for, once there is a process: what it was
/// written with, with the placeholders of what is sent expanded.
pub proof fn lemma_acting_step_asks(scenario: Scenario, space: WorkspaceView, update: bool, run: RunView)
    requires
        run.index < scenario.steps@.len(),
        run.spawned,
    ensures
        ({
            let begun = run_begins(scenario, space, update, run);
            match scenario.steps@[run.index as int].kind {
                StepKind::Send(text) => begun == (RunView {
                    doing: Some(
                        (
                            ActionView::SendLine(expanded(space.variables, space.parent_env, text@)),
                            StepState::Acting,
                        ),
                    ),
                    ..run
                }),
                StepKind::SendRaw(text) => begun == (RunView {
                    doing: Some(
                        (
                            ActionView::SendRaw(
                                encode_utf8(expanded(space.variables, space.parent_env, text@)),
                            ),
                            StepState::Acting,
                        ),
                    ),
                    ..run
                }),
                StepKind::Key(bytes) => begun == (RunView {
                    doing: Some((ActionView::SendKey(bytes@), StepState::Acting)),
                    ..run
                }),
                _ => true,
            }
        }),
{
}

/// A spawn, whether it is the first or a later one: the command with its placeholders
/// expanded; the directory that the step names, seen from the workspace, or the
/// workspace's own; the environment of the scenario and after it that of the step, each
/// name as it is written and each value expanded; and every file whose change any step
/// checks is noted from then on.
pub proof fn lemma_spawn_asks(
    scenario: Scenario,
    space: WorkspaceView,
    update: bool,
    run: RunView,
    k: int,
)
    requires
        run.index < scenario.steps@.len(),
        scenario.steps@[run.index as int].kind is Spawn,
    ensures
        ({
            let begun = run_begins(scenario, space, update, run);
            match scenario.steps@[run.index as int].kind {
                StepKind::Spawn { command, cwd, env } => begun.doing matches Some(
                    (ActionView::Spawn { command: line, cwd: dir, env: all, baselines }, state),
                ) && {
                    &&& state is Acting
                    &&& line == expanded(space.variables, space.parent_env, command@)
                    &&& cwd matches Some(rel) ==> dir == joined(
                        space.cwd,
                        encode_utf8(rel@),
                        space.platform,
                    )
                    &&& cwd is None ==> dir == space.cwd
                    &&& all.len() == space.env.len() + env@.len()
                    &&& 0 <= k < space.env.len() ==> all[k] == space.env[k]
                    &&& 0 <= k < env@.len() ==> all[space.env.len() + k] == (
                        env@[k].0@,
                        expanded(space.variables, space.parent_env, env@[k].1@),
                    )
                    &&& begun.primed == baselines
                },
                _ => true,
            }
        }),
        run_begins(scenario, space, update, run).fault == run.fault,
        run_begins(scenario, space, update, run).spawned == run.spawned,
        run_begins(scenario, space, update, run).assertions == run.assertions,
        run_begins(scenario, space, update, run).index == run.index,
{
}

/// What an expectation of the output or of the process asks for, once there is a
/// process: the text, pattern, code or state that it was written with; and it waits as
/// long as it says, or thirty seconds. An exit without a time of its own is looked at
/// once.
pub proof fn lemma_output_expectation_asks(
    scenario: Scenario,
    space: WorkspaceView,
    update: bool,
    run: RunView,
)
    requires
        run.index < scenario.steps@.len(),
        run.spawned,
    ensures
        ({
            let begun = run_begins(scenario, space, update, run);
            match scenario.steps@[run.index as int].kind {
                StepKind::Expect { contains, timeout } => begun == (RunView {
                    doing: Some(
                        (
                            ActionView::WaitText {
                                contains: contains@,
                                timeout: match timeout {
                                    Some(time) => time,
                                    None => 30000,
                                },
                            },
                            StepState::Acting,
                        ),
                    ),
                    ..run
                }),
                StepKind::ExpectNot { contains } => begun == (RunView {
                    doing: Some((ActionView::LacksText(contains@), StepState::Acting)),
                    ..run
                }),
                StepKind::ExpectExit { code, timeout: None } => begun == (RunView {
                    doing: Some((ActionView::PollExit(code), StepState::Acting)),
                    ..run
                }),
                StepKind::ExpectExit { code, timeout: Some(time) } => begun == (RunView {
                    doing: Some((ActionView::WaitExit { code, timeout: time }, StepState::Acting)),
                    ..run
                }),
                StepKind::ExpectRunning(expected) => begun == (RunView {
                    doing: Some((ActionView::PollRunning(expected), StepState::Acting)),
                    ..run
                }),
                _ => true,
            }
        }),
{
}

/// A pattern is waited for as it was written, once it is known to be usable, for as long
/// as the step says, or thirty seconds.
pub proof fn lemma_pattern_expectation_asks(
    scenario: Scenario,
    space: WorkspaceView,
    update: bool,
    run: RunView,
)
    requires
        run.index < scenario.steps@.len(),
        run.spawned,
        scenario.steps@[run.index as int].kind is ExpectRegex,
    ensures
        ({
            let begun = run_begins(scenario, space, update, run);
            let usable = run_goes_on(scenario, space, update, begun, Reply::Pattern(Ok(())));
            match scenario.steps@[run.index as int].kind {
                StepKind::ExpectRegex { pattern, timeout } => {
                    &&& begun == (RunView {
                        doing: Some((ActionView::CompilePattern(pattern@), StepState::Compiling)),
                        ..run
                    })
                    &&& usable == (RunView {
                        doing: Some(
                            (
                                ActionView::WaitPattern {
                                    pattern: pattern@,
                                    timeout: match timeout {
                                        Some(time) => time,
                                        None => 30000,
                                    },
                                },
                                StepState::Acting,
                            ),
                        ),
                        ..run
                    })
                },
                _ => true,
            }
        }),
{
}

/// A pause and an expectation of a file need no process. The expectation looks at the file that the step names,
/// seen from the workspace, for the text that the step names.
pub proof fn lemma_file_expectation_asks(
    scenario: Scenario,
    space: WorkspaceView,
    update: bool,
    run: RunView,
)
    requires
        run.index < scenario.steps@.len(),
    ensures
        ({
            let begun = run_begins(scenario, space, update, run);
            match scenario.steps@[run.index as int].kind {
                StepKind::Wait(time) => begun == (RunView {
                    doing: Some((ActionView::Sleep(time), StepState::Acting)),
                    ..run
                }),
                StepKind::ExpectFileExists { path } => begun == (RunView {
                    doing: Some(
                        (
                            ActionView::FileExists(
                                joined(space.cwd, encode_utf8(path@), space.platform),
                            ),
                            StepState::Acting,
                        ),
                    ),
                    ..run
                }),
                StepKind::ExpectFileContains { path, contains } => begun == (RunView {
                    doing: Some(
                        (
                            ActionView::FileContains(
                                joined(space.cwd, encode_utf8(path@), space.platform),
                                contains@,
                            ),
                            StepState::Acting,
                        ),
                    ),
                    ..run
                }),
                StepKind::ExpectFileNotContains { path, contains } => begun == (RunView {
                    doing: Some(
                        (
                            ActionView::FileLacks(
                                joined(space.cwd, encode_utf8(path@), space.platform),
                                contains@,
                            ),
                            StepState::Acting,
                        ),
                    ),
                    ..run
                }),
                _ => true,
            }
        }),
{
}

/// Before the first spawn, whatever sends input to a process or looks at a process or its
/// output is a fault of the scenario, and the run has nothing more to do.
pub proof fn lemma_nothing_runs_before_a_spawn(
    scenario: Scenario,
    space: WorkspaceView,
    update: bool,
    run: RunView,
)
    requires
        run.index < scenario.steps@.len(),
        !run.spawned,
    ensures
        ({
            let begun = run_begins(scenario, space, update, run);
            let missing = begun.doing is None && begun.fault == Some(
                ErrorView::Scenario("step requires a prior 'spawn'"@),
            );
            match scenario.steps@[run.index as int].kind {
                StepKind::Send(_) => missing,
                StepKind::SendRaw(_) => missing,
                StepKind::Key(_) => missing,
                StepKind::Expect { .. } => missing,
                StepKind::ExpectNot { .. } => missing,
                StepKind::ExpectExit { .. } => missing,
                StepKind::ExpectRunning(_) => missing,
                StepKind::ExpectSnapshot { .. } => missing,
                StepKind::ExpectJson { source, invalid_reason, .. } => source is Output
                    && invalid_reason is None ==> missing,
                StepKind::ExpectSemantic { source, in_range, .. } => source is Output && in_range
                    ==> missing,
                _ => true,
            }
        }),
{
}

/// A step that cannot mean anything is a fault of the scenario before anything is asked
/// for, whether there is a process or not: a JSON check that was badly written, a
/// similarity out of range, a source with an unknown keyword.
pub proof fn lemma_meaningless_step_is_a_fault(
    scenario: Scenario,
    space: WorkspaceView,
    update: bool,
    run: RunView,
)
    requires
        run.index < scenario.steps@.len(),
    ensures
        ({
            let begun = run_begins(scenario, space, update, run);
            match scenario.steps@[run.index as int].kind {
                StepKind::ExpectJson { path, invalid_reason: Some(reason), .. } => begun.doing is None
                    && begun.fault == Some(
                    ErrorView::Scenario("expect_json '"@ + path@ + "': "@ + reason@),
                ),
                StepKind::ExpectJson { source: Source::Invalid(keyword), .. } => begun.doing is None
                    && begun.fault == Some(
                    ErrorView::Scenario(
                        "unknown source '"@ + keyword@
                            + "'; use 'output' (the default) or '{file: <path>}'"@,
                    ),
                ),
                StepKind::ExpectSemantic { similarity, in_range: false, .. } => begun.doing is None
                    && begun.fault == Some(
                    ErrorView::Scenario(
                        "expect_semantic similarity "@ + similarity@
                            + " is out of range; it must be within 0.0..=1.0"@,
                    ),
                ),
                StepKind::ExpectSemantic { source: Source::Invalid(keyword), .. } => begun.doing is None
                    && begun.fault == Some(
                    ErrorView::Scenario(
                        "unknown source '"@ + keyword@
                            + "'; use 'output' (the default) or '{file: <path>}'"@,
                    ),
                ),
                _ => true,
            }
        }),
{
}

/// A JSON check reads the file that the step names, seen from the workspace, or waits for
/// a document at the end of the output, for as long as the step says or thirty seconds.
/// The document that is found is checked at the step's path with the step's check; a file
/// that cannot be read, that holds no JSON, or an output without a document in time is a
/// failed row, and the run goes on.
pub proof fn lemma_json_expectation_asks(
    scenario: Scenario,
    space: WorkspaceView,
    update: bool,
    run: RunView,
    read: Result<String, String>,
    found: Option<String>,
)
    requires
        run.index < scenario.steps@.len(),
    ensures
        ({
            let begun = run_begins(scenario, space, update, run);
            let step = scenario.steps@[run.index as int];
            match step.kind {
                StepKind::ExpectJson {
                    path,
                    check,
                    source: Source::File(rel),
                    invalid_reason: None,
                    ..
                } => {
                    let file = joined(space.cwd, encode_utf8(rel@), space.platform);
                    let next = run_goes_on(scenario, space, update, begun, Reply::Text(read));
                    &&& begun == (RunView {
                        doing: Some((ActionView::ReadFile(file), StepState::Reading)),
                        ..run
                    })
                    &&& read matches Ok(text) ==> (json_fault(text@) is None ==> next == (RunView {
                        doing: Some(
                            (
                                ActionView::EvaluateJson { text: text@, path: path@, check: check@ },
                                StepState::Acting,
                            ),
                        ),
                        ..run
                    }))
                    &&& read matches Ok(text) ==> (json_fault(text@) is Some ==> next.assertions
                        == run.assertions.push(
                        RowView {
                            step: step.label@,
                            passed: false,
                            message: Some(
                                "file "@ + shown(file, space.platform) + " is not valid JSON: "@
                                    + json_fault(text@)->0,
                            ),
                        },
                    ) && next.index == run.index + 1)
                    &&& read matches Err(error) ==> next.assertions == run.assertions.push(
                        RowView {
                            step: step.label@,
                            passed: false,
                            message: Some(
                                "cannot read "@ + shown(file, space.platform) + ": "@ + error@,
                            ),
                        },
                    ) && next.index == run.index + 1
                },
                StepKind::ExpectJson {
                    path,
                    check,
                    source: Source::Output,
                    timeout,
                    invalid_reason: None,
                } => run.spawned ==> {
                    let next = run_goes_on(scenario, space, update, begun, Reply::TailJson(found));
                    &&& begun == (RunView {
                        doing: Some(
                            (
                                ActionView::WaitTailJson(
                                    match timeout {
                                        Some(time) => time,
                                        None => 30000,
                                    },
                                ),
                                StepState::Reading,
                            ),
                        ),
                        ..run
                    })
                    &&& found matches Some(text) ==> next == (RunView {
                        doing: Some(
                            (
                                ActionView::EvaluateJson { text: text@, path: path@, check: check@ },
                                StepState::Acting,
                            ),
                        ),
                        ..run
                    })
                    &&& found is None ==> next.assertions == run.assertions.push(
                        RowView {
                            step: step.label@,
                            passed: false,
                            message: Some("no valid JSON block found in output before timeout"@),
                        },
                    ) && next.index == run.index + 1
                },
                _ => true,
            }
        }),
{
}

/// A comparison by similarity is made with the text and the threshold that the step was
/// written with, of the output or of the whole text of the file that it names; a file
/// that cannot be read is a failed row, and the run goes on.
pub proof fn lemma_semantic_expectation_asks(
    scenario: Scenario,
    space: WorkspaceView,
    update: bool,
    run: RunView,
    read: Result<String, String>,
)
    requires
        run.index < scenario.steps@.len(),
    ensures
        ({
            let begun = run_begins(scenario, space, update, run);
            let step = scenario.steps@[run.index as int];
            match step.kind {
                StepKind::ExpectSemantic { text, similarity, in_range: true, source: Source::Output } => run.spawned
                    ==> begun == (RunView {
                    doing: Some(
                        (
                            ActionView::ScoreOutput { text: text@, similarity: similarity@ },
                            StepState::Acting,
                        ),
                    ),
                    ..run
                }),
                StepKind::ExpectSemantic {
                    text,
                    similarity,
                    in_range: true,
                    source: Source::File(rel),
                } => {
                    let file = joined(space.cwd, encode_utf8(rel@), space.platform);
                    let next = run_goes_on(scenario, space, update, begun, Reply::Text(read));
                    &&& begun == (RunView {
                        doing: Some((ActionView::ReadFile(file), StepState::Reading)),
                        ..run
                    })
                    &&& read matches Ok(output) ==> next == (RunView {
                        doing: Some(
                            (
                                ActionView::ScoreText {
                                    output: output@,
                                    text: text@,
                                    similarity: similarity@,
                                },
                                StepState::Acting,
                            ),
                        ),
                        ..run
                    })
                    &&& read matches Err(error) ==> next.assertions == run.assertions.push(
                        RowView {
                            step: step.label@,
                            passed: false,
                            message: Some(
                                "cannot read "@ + shown(file, space.platform) + ": "@ + error@,
                            ),
                        },
                    ) && next.index == run.index + 1
                },
                _ => true,
            }
        }),
{
}

/// A snapshot is resolved under the name that the step gives it and compared where it was
/// found. It is recorded if and only if the run updates snapshots, and raw if and only if
/// the step says so. A path that does not resolve is a failed row with the reason, and a
/// fault stops the run as it stands.
pub proof fn lemma_snapshot_expectation_asks(
    scenario: Scenario,
    space: WorkspaceView,
    update: bool,
    run: RunView,
    found: Result<Result<SnapshotTarget, UnresolvablePath>, PittyError>,
)
    requires
        run.index < scenario.steps@.len(),
        run.spawned,
        scenario.steps@[run.index as int].kind is ExpectSnapshot,
    ensures
        ({
            let begun = run_begins(scenario, space, update, run);
            let next = run_goes_on(scenario, space, update, begun, Reply::Resolved(found));
            let step = scenario.steps@[run.index as int];
            match step.kind {
                StepKind::ExpectSnapshot { file, raw } => {
                    &&& begun.doing matches Some((ActionView::ResolveSnapshot { file: name, access }, state))
                        && state is Resolving && name == file@ && access is Record == update
                    &&& begun == (RunView { doing: begun.doing, ..run })
                    &&& found matches Ok(Ok(target)) ==> next == (RunView {
                        doing: Some(
                            (
                                ActionView::CompareSnapshot { target: target@, raw, update },
                                StepState::Acting,
                            ),
                        ),
                        ..run
                    })
                    &&& found matches Ok(Err(path)) ==> next.assertions == run.assertions.push(
                        RowView { step: step.label@, passed: false, message: Some(path.reason()) },
                    ) && next.index == run.index + 1
                    &&& found matches Err(fault) ==> next == (RunView {
                        doing: None,
                        fault: Some(fault@),
                        ..run
                    })
                },
                _ => true,
            }
        }),
{
}

/// The verdict on an expectation becomes its row: under the step's label, passed as the
/// verdict says, with the message where it failed. A snapshot that passed keeps its note.
/// Then the run goes on with the next step.
pub proof fn lemma_verdict_becomes_the_row(
    scenario: Scenario,
    space: WorkspaceView,
    update: bool,
    run: RunView,
    passed: bool,
    message: Option<String>,
)
    requires
        run.index < scenario.steps@.len(),
        run.doing matches Some((_, state)) && state is Acting,
        ({
            let kind = scenario.steps@[run.index as int].kind;
            !(kind is Spawn || kind is Send || kind is SendRaw || kind is Key || kind is Wait)
        }),
    ensures
        ({
            let next = run_goes_on(scenario, space, update, run, Reply::Verdict { passed, message });
            let step = scenario.steps@[run.index as int];
            let words = match message {
                Some(text) => text@,
                None => Seq::<char>::empty(),
            };
            &&& next.index == run.index + 1
            &&& next.spawned == run.spawned
            &&& next.assertions == run.assertions.push(
                RowView {
                    step: step.label@,
                    passed,
                    message: if !passed {
                        Some(words)
                    } else if step.kind is ExpectSnapshot && message is Some {
                        Some(words)
                    } else {
                        None
                    },
                },
            )
        }),
{
}

/// A step that is no expectation leaves no row. Once it is done the run goes on with the
/// next step; and there is a process from the first spawn on.
pub proof fn lemma_other_steps_leave_no_row(
    scenario: Scenario,
    space: WorkspaceView,
    update: bool,
    run: RunView,
)
    requires
        run.index < scenario.steps@.len(),
        run.doing matches Some((_, state)) && state is Acting,
        ({
            let kind = scenario.steps@[run.index as int].kind;
            kind is Spawn || kind is Send || kind is SendRaw || kind is Key || kind is Wait
        }),
    ensures
        ({
            let next = run_goes_on(scenario, space, update, run, Reply::Done);
            &&& next.index == run.index + 1
            &&& next.assertions == run.assertions
            &&& next.spawned == (run.spawned || scenario.steps@[run.index as int].kind is Spawn)
        }),
{
}

/// A fault that comes back from any action stops the run as it is: no row is added, and
/// the fault is kept word for word.
pub proof fn lemma_fault_is_kept(
    scenario: Scenario,
    space: WorkspaceView,
    update: bool,
    run: RunView,
    fault: PittyError,
)
    requires
        run.index < scenario.steps@.len(),
        run.doing is Some,
    ensures
        run_goes_on(scenario, space, update, run, Reply::Fault(fault)) == (RunView {
            doing: None,
            fault: Some(fault@),
            ..run
        }),
{
}

/// The files noted at a spawn are exactly those whose change some step checks, seen from
/// the workspace.
pub proof fn lemma_baselines_are_the_checked_files(
    steps: Seq<Step>,
    space: WorkspaceView,
    file: Seq<u8>,
)
    ensures
        changed_files(steps, space).contains(file) == (exists|i: int|
            0 <= i < steps.len() && ((#[trigger] steps[i]).kind matches StepKind::ExpectFileChanged { path }
                && joined(space.cwd, encode_utf8(path@), space.platform) == file)),
    decreases steps.len(),
{
    let all = changed_files(steps, space);
    if steps.len() == 0 {
        assert(!all.contains(file));
    } else {
        let n = steps.len() - 1;
        let front = steps.drop_last();
        let some = changed_files(front, space);
        lemma_baselines_are_the_checked_files(front, space, file);
        if all.contains(file) {
            let k = choose|k: int| 0 <= k < all.len() && all[k] == file;
            if k < some.len() {
                assert(some[k] == file);
                assert(some.contains(file));
                let i = choose|i: int|
                    0 <= i < front.len() && ((#[trigger] front[i]).kind matches StepKind::ExpectFileChanged { path }
                        && joined(space.cwd, encode_utf8(path@), space.platform) == file);
                assert(steps[i] == front[i]);
            } else {
                assert(steps[n].kind matches StepKind::ExpectFileChanged { path } && joined(
                    space.cwd,
                    encode_utf8(path@),
                    space.platform,
                ) == file);
            }
        }
        if exists|i: int|
            0 <= i < steps.len() && ((#[trigger] steps[i]).kind matches StepKind::ExpectFileChanged { path }
                && joined(space.cwd, encode_utf8(path@), space.platform) == file) {
            let i = choose|i: int|
                0 <= i < steps.len() && ((#[trigger] steps[i]).kind matches StepKind::ExpectFileChanged { path }
                    && joined(space.cwd, encode_utf8(path@), space.platform) == file);
            if i < n {
                assert(front[i] == steps[i]);
                assert(some.contains(file));
                let k = choose|k: int| 0 <= k < some.len() && some[k] == file;
                assert(all[k] == file);
            } else {
                assert(all[all.len() - 1] == file);
            }
        }
    }
}

/// What holds of a run at every point: the baselines were taken if there is a process,
/// and none was taken before the first spawn began.
spec fn has_baselines(scenario: Scenario, space: WorkspaceView, run: RunView) -> bool {
    let files = changed_files(scenario.steps@, space);
    &&& run.spawned ==> run.primed == files
    &&& !run.spawned ==> run.primed.len() == 0 || (run.primed == files && (run.index
        < scenario.steps@.len() && scenario.steps@[run.index as int].kind is Spawn))
}

proof fn lemma_begun_run_has_baselines(
    scenario: Scenario,
    space: WorkspaceView,
    update: bool,
    run: RunView,
)
    requires
        run.spawned ==> run.primed == changed_files(scenario.steps@, space),
        !run.spawned ==> run.primed.len() == 0,
    ensures
        has_baselines(scenario, space, run_begins(scenario, space, update, run)),
{
}

proof fn lemma_spawn_ends_silently(
    step: Step,
    space: WorkspaceView,
    spawned: bool,
    update: bool,
    state: StepState,
    reply: Reply,
)
    requires
        step.kind is Spawn,
    ensures
        ({
            let moved = step_goes_on(step, space, spawned, update, state, reply);
            moved is Silent || moved is Fault
        }),
{
}

proof fn lemma_run_has_baselines(
    scenario: Scenario,
    space: WorkspaceView,
    update: bool,
    replies: Seq<Reply>,
)
    ensures
        has_baselines(scenario, space, run_after(scenario, space, update, replies)),
    decreases replies.len(),
{
    if replies.len() == 0 {
        lemma_begun_run_has_baselines(scenario, space, update, fresh_run());
    } else {
        let run = run_after(scenario, space, update, replies.drop_last());
        lemma_run_has_baselines(scenario, space, update, replies.drop_last());
        if run.doing is Some && run.index < scenario.steps@.len() {
            let step = scenario.steps@[run.index as int];
            let state = (run.doing->0).1;
            if step.kind is Spawn {
                lemma_spawn_ends_silently(step, space, run.spawned, update, state, replies.last());
            }
            match step_goes_on(step, space, run.spawned, update, state, replies.last()) {
                MoveView::Row(row) => {
                    lemma_begun_run_has_baselines(
                        scenario,
                        space,
                        update,
                        RunView {
                            index: run.index + 1,
                            assertions: run.assertions.push(row),
                            ..run
                        },
                    );
                },
                MoveView::Silent => {
                    lemma_begun_run_has_baselines(
                        scenario,
                        space,
                        update,
                        RunView {
                            index: run.index + 1,
                            spawned: run.spawned || step.kind is Spawn,
                            ..run
                        },
                    );
                },
                _ => {},
            }
        }
    }
}

/// Whenever a run comes to a check that a file changed: after a spawn the file is
/// compared with what was noted of it, and never is a baseline missing; before the first
/// spawn the step is a fault of the scenario.
pub proof fn lemma_changed_file_has_a_baseline(
    scenario: Scenario,
    space: WorkspaceView,
    update: bool,
    replies: Seq<Reply>,
    reply: Reply,
)
    requires
        ({
            let run = run_after(scenario, space, update, replies);
            let next = run_goes_on(scenario, space, update, run, reply);
            &&& run.index < next.index < scenario.steps@.len()
            &&& scenario.steps@[next.index as int].kind is ExpectFileChanged
        }),
    ensures
        ({
            let run = run_after(scenario, space, update, replies);
            let next = run_goes_on(scenario, space, update, run, reply);
            match scenario.steps@[next.index as int].kind {
                StepKind::ExpectFileChanged { path } => {
                    &&& next.spawned ==> next.fault == run.fault && next.doing == Some(
                        (
                            ActionView::FileChanged(
                                joined(space.cwd, encode_utf8(path@), space.platform),
                            ),
                            StepState::Acting,
                        ),
                    )
                    &&& !next.spawned ==> next.doing is None && next.fault == Some(
                        ErrorView::Scenario(
                            "expect_file_changed for "@ + path@
                                + " has no baseline: it must appear after a 'spawn' so the file can be snapshotted at spawn time"@,
                        ),
                    )
                },
                _ => true,
            }
        }),
{
    let run = run_after(scenario, space, update, replies);
    lemma_run_has_baselines(scenario, space, update, replies);
    let step = scenario.steps@[run.index as int];
    let state = (run.doing->0).1;
    if step.kind is Spawn {
        lemma_spawn_ends_silently(step, space, run.spawned, update, state, reply);
    }
    match step_goes_on(step, space, run.spawned, update, state, reply) {
        MoveView::Row(row) => {
            lemma_change_check_begins(
                scenario,
                space,
                update,
                RunView { index: run.index + 1, assertions: run.assertions.push(row), ..run },
            );
        },
        MoveView::Silent => {
            lemma_change_check_begins(
                scenario,
                space,
                update,
                RunView {
                    index: run.index + 1,
                    spawned: run.spawned || step.kind is Spawn,
                    ..run
                },
            );
        },
        _ => {},
    }
}

proof fn lemma_change_check_begins(
    scenario: Scenario,
    space: WorkspaceView,
    update: bool,
    run: RunView,
)
    requires
        run.spawned ==> run.primed == changed_files(scenario.steps@, space),
        !run.spawned ==> run.primed.len() == 0,
    ensures
        ({
            let begun = run_begins(scenario, space, update, run);
            &&& begun.index == run.index
            &&& begun.spawned == run.spawned
            &&& run.index < scenario.steps@.len() ==> match scenario.steps@[run.index as int].kind {
                StepKind::ExpectFileChanged { path } => {
                    &&& run.spawned ==> begun.fault == run.fault && begun.doing == Some(
                        (
                            ActionView::FileChanged(
                                joined(space.cwd, encode_utf8(path@), space.platform),
                            ),
                            StepState::Acting,
                        ),
                    )
                    &&& !run.spawned ==> begun.doing is None && begun.fault == Some(
                        ErrorView::Scenario(
                            "expect_file_changed for "@ + path@
                                + " has no baseline: it must appear after a 'spawn' so the file can be snapshotted at spawn time"@,
                        ),
                    )
                },
                _ => true,
            }
        }),
{
    if run.index < scenario.steps@.len() {
        let step = scenario.steps@[run.index as int];
        if let StepKind::ExpectFileChanged { path } = step.kind {
            let file = joined(space.cwd, encode_utf8(path@), space.platform);
            lemma_baselines_are_the_checked_files(scenario.steps@, space, file);
            assert(scenario.steps@[run.index as int].kind matches StepKind::ExpectFileChanged { path: p }
                && joined(space.cwd, encode_utf8(p@), space.platform) == file);
            assert(!run.spawned ==> !run.primed.contains(file));
        }
    }
}

/// What holds of the snapshot that a run asks for, at every point.
spec fn snapshot_is_due(scenario: Scenario, update: bool, run: RunView) -> bool {
    match run.doing {
        Some((ActionView::ResolveSnapshot { file, access }, _)) => {
            &&& access is Record == update
            &&& run.index < scenario.steps@.len()
            &&& scenario.steps@[run.index as int].kind matches StepKind::ExpectSnapshot { file: f, raw: _ }
                && file == f@
        },
        Some((ActionView::CompareSnapshot { target: _, raw, update: recorded }, _)) => {
            &&& recorded == update
            &&& run.index < scenario.steps@.len()
            &&& scenario.steps@[run.index as int].kind matches StepKind::ExpectSnapshot { file: _, raw: r }
                && raw == r
        },
        _ => true,
    }
}

proof fn lemma_begun_snapshot_is_due(
    scenario: Scenario,
    space: WorkspaceView,
    update: bool,
    run: RunView,
)
    ensures
        snapshot_is_due(scenario, update, run_begins(scenario, space, update, run)),
{
}

proof fn lemma_answered_snapshot_is_due(
    step: Step,
    space: WorkspaceView,
    spawned: bool,
    update: bool,
    state: StepState,
    reply: Reply,
)
    ensures
        match step_goes_on(step, space, spawned, update, state, reply) {
            MoveView::Do(ActionView::ResolveSnapshot { .. }, _) => false,
            MoveView::Do(ActionView::CompareSnapshot { target: _, raw, update: recorded }, _) => recorded
                == update && (step.kind matches StepKind::ExpectSnapshot { file: _, raw: r } && raw == r),
            _ => true,
        },
{
}

/// Whatever the replies were: a run that does not update snapshots never asks for one to
/// be recorded, and one that does never asks for one to be compared alone. A snapshot is
/// asked for by a snapshot step only, under its file and with its raw flag.
pub proof fn lemma_snapshots_follow_the_option(
    scenario: Scenario,
    space: WorkspaceView,
    update: bool,
    replies: Seq<Reply>,
)
    ensures
        match run_after(scenario, space, update, replies).doing {
            Some((ActionView::ResolveSnapshot { file, access }, _)) => {
                let run = run_after(scenario, space, update, replies);
                &&& access is Record == update
                &&& run.index < scenario.steps@.len()
                &&& scenario.steps@[run.index as int].kind matches StepKind::ExpectSnapshot { file: f, raw: _ }
                    && file == f@
            },
            Some((ActionView::CompareSnapshot { target: _, raw, update: recorded }, _)) => {
                let run = run_after(scenario, space, update, replies);
                &&& recorded == update
                &&& run.index < scenario.steps@.len()
                &&& scenario.steps@[run.index as int].kind matches StepKind::ExpectSnapshot { file: _, raw: r }
                    && raw == r
            },
            _ => true,
        },
{
    lemma_run_snapshot_is_due(scenario, space, update, replies);
}

proof fn lemma_run_snapshot_is_due(
    scenario: Scenario,
    space: WorkspaceView,
    update: bool,
    replies: Seq<Reply>,
)
    ensures
        snapshot_is_due(scenario, update, run_after(scenario, space, update, replies)),
    decreases replies.len(),
{
    if replies.len() == 0 {
        lemma_begun_snapshot_is_due(scenario, space, update, fresh_run());
    } else {
        let run = run_after(scenario, space, update, replies.drop_last());
        let reply = replies.last();
        lemma_run_snapshot_is_due(scenario, space, update, replies.drop_last());
        if run.doing is Some && run.index < scenario.steps@.len() {
            let step = scenario.steps@[run.index as int];
            let state = (run.doing->0).1;
            lemma_answered_snapshot_is_due(step, space, run.spawned, update, state, reply);
            match step_goes_on(step, space, run.spawned, update, state, reply) {
                MoveView::Row(row) => {
                    lemma_begun_snapshot_is_due(
                        scenario,
                        space,
                        update,
                        RunView {
                            index: run.index + 1,
                            assertions: run.assertions.push(row),
                            ..run
                        },
                    );
                },
                MoveView::Silent => {
                    lemma_begun_snapshot_is_due(
                        scenario,
                        space,
                        update,
                        RunView {
                            index: run.index + 1,
                            spawned: run.spawned || step.kind is Spawn,
                            ..run
                        },
                    );
                },
                _ => {},
            }
        }
    }
}

/// The report of a run is the run's: its name, its duration, and its rows one for one,
/// each text masked; and a fault keeps its class, with its message masked.
pub proof fn lemma_report_is_the_runs(
    name: Seq<char>,
    run: RunView,
    duration: nat,
    secrets: Seq<Seq<char>>,
    i: int,
)
    requires
        0 <= i < run.assertions.len(),
    ensures
        ({
            let report = run_report(name, run, duration, secrets);
            &&& report.scenario == masked(name, secrets)
            &&& report.duration_ms == duration
            &&& report.assertions.len() == run.assertions.len()
            &&& report.assertions[i].step == masked(run.assertions[i].step, secrets)
            &&& report.assertions[i].passed == run.assertions[i].passed
            &&& report.assertions[i].message is Some == run.assertions[i].message is Some
            &&& run.assertions[i].message matches Some(message) ==> report.assertions[i].message == Some(
                masked(message, secrets),
            )
        }),
        match run.fault {
            None => masked_outcome(run.fault, secrets) is None,
            Some(ErrorView::AssertionFailed(m)) => masked_outcome(run.fault, secrets) == Some(
                ErrorView::AssertionFailed(masked(m, secrets)),
            ),
            Some(ErrorView::Scenario(m)) => masked_outcome(run.fault, secrets) == Some(
                ErrorView::Scenario(masked(m, secrets)),
            ),
            Some(ErrorView::Process(m)) => masked_outcome(run.fault, secrets) == Some(
                ErrorView::Process(masked(m, secrets)),
            ),
        },
{
}

/// A run starts at its first step, without a process, a row, a baseline or a fault of its
/// own; after the last step, and once it is stopped, there is nothing to do, and no reply
/// changes that.
pub proof fn lemma_run_starts_and_ends(
    scenario: Scenario,
    space: WorkspaceView,
    update: bool,
    run: RunView,
    reply: Reply,
)
    ensures
        ({
            let first = run_after(scenario, space, update, Seq::empty());
            &&& first.index == 0
            &&& !first.spawned
            &&& first.assertions.len() == 0
            &&& scenario.steps@.len() == 0 ==> first.doing is None && first.fault is None
        }),
        run.index >= scenario.steps@.len() ==> run_begins(scenario, space, update, run) == (RunView {
            doing: None,
            ..run
        }),
        run.doing is None ==> run_goes_on(scenario, space, update, run, reply) == run,
{
}

/// A row passes only if a verdict said so, on the last action of its step: no other reply
/// can make an expectation pass.
pub proof fn lemma_only_a_verdict_passes(
    scenario: Scenario,
    space: WorkspaceView,
    update: bool,
    run: RunView,
    reply: Reply,
)
    requires
        ({
            let next = run_goes_on(scenario, space, update, run, reply);
            next.assertions.len() > run.assertions.len() && next.assertions.last().passed
        }),
    ensures
        reply matches Reply::Verdict { passed, .. } && passed,
        run.doing matches Some((_, state)) && state is Acting,
{
    let step = scenario.steps@[run.index as int];
    let state = (run.doing->0).1;
    lemma_answer_passes_by_verdict(step, space, run.spawned, update, state, reply);
    match step_goes_on(step, space, run.spawned, update, state, reply) {
        MoveView::Row(row) => {
            assert(run.assertions.push(row).last() == row);
        },
        _ => {},
    }
}

proof fn lemma_answer_passes_by_verdict(
    step: Step,
    space: WorkspaceView,
    spawned: bool,
    update: bool,
    state: StepState,
    reply: Reply,
)
    ensures
        step_goes_on(step, space, spawned, update, state, reply) matches MoveView::Row(row) ==> (row.passed
            ==> state is Acting && (reply matches Reply::Verdict { passed, .. } && passed)),
{
}

/// A step that is not an expectation is done only if its action was; and an expectation is
/// never done without its verdict.
pub proof fn lemma_steps_need_their_reply(
    scenario: Scenario,
    space: WorkspaceView,
    update: bool,
    run: RunView,
    passed: bool,
    message: Option<String>,
)
    requires
        run.index < scenario.steps@.len(),
        run.doing matches Some((_, state)) && state is Acting,
    ensures
        ({
            let kind = scenario.steps@[run.index as int].kind;
            let silent = kind is Spawn || kind is Send || kind is SendRaw || kind is Key || kind is Wait;
            let done = run_goes_on(scenario, space, update, run, Reply::Done);
            let judged = run_goes_on(scenario, space, update, run, Reply::Verdict { passed, message });
            &&& !silent ==> done.doing is None && (done.fault matches Some(fault) && fault is Process)
                && done.index == run.index && done.assertions == run.assertions
            &&& silent ==> judged.doing is None && (judged.fault matches Some(fault) && fault is Process)
                && judged.index == run.index && judged.assertions == run.assertions
        }),
{
}

} // verus!
