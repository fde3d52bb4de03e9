//! Writing a log, as a dialogue with the filesystem.
//!
//! The `logs` directory is opened from a directory that was held open before the
//! scenario ran; a name in it is searched for; the masked text is written.
use vstd::prelude::*;
use vstd::slice::*;
use vstd::string::*;

use crate::error::{ErrorView, PittyError};
use crate::facts::DirIdentity;
use crate::identity::{dedup_key_of, lemma_same_number, text_value, IdentityView, LogIdentity};
use crate::lognames::{
    exhausted_fault, no_free_name, noted, search_for, search_request, search_step, BookView,
    LogBook, NameSearch, SearchReply, SearchRequest, SearchView, Stage, Wanted,
};
use crate::mask::{
    lemma_mask_keeps_clean_text, lemma_mask_removes_secrets, masked, occurs, star_bound,
};
use crate::path::Platform;
use crate::rawpath::{
    join_path, joined, lemma_unix_join_by_bytes, lemma_windows_join_by_bytes, show_path, shown,
};
use crate::report::{log_text, masked_log_body, Report, ReportView};
use crate::safepath::{OsError, PRIVATE_DIR_MODE, PRIVATE_FILE_MODE};
use crate::text::{decimal, decimal_text, lemma_decimal_reads_back, lossy_text, lossy_utf8, texts};

verus! {

/// The base directory, where the empty path stands for the current directory.
pub open spec fn base_or_here(base_dir: Seq<u8>) -> Seq<u8> {
    if base_dir.len() == 0 {
        seq![46u8]
    } else {
        base_dir
    }
}

/// Resolve a base directory that may be the empty path to something openable.
pub fn normalize_base_dir(base_dir: &[u8]) -> (r: Vec<u8>)
    ensures
        r@ == base_or_here(base_dir@),
{
    if base_dir.len() == 0 {
        let mut here: Vec<u8> = Vec::new();
        here.push(46);
        assert(here@ =~= seq![46u8]);
        here
    } else {
        slice_to_vec(base_dir)
    }
}

/// The path of the logs directory.
pub open spec fn logs_path(base_dir: Seq<u8>, platform: Platform) -> Seq<u8> {
    joined(base_or_here(base_dir), seq![108u8, 111u8, 103u8, 115u8], platform)
}

/// The path of the logs directory under `base_dir`.
pub fn logs_dir(base_dir: &[u8], platform: Platform) -> (r: Vec<u8>)
    ensures
        r@ == logs_path(base_dir@, platform),
{
    let base = normalize_base_dir(base_dir);
    let name: [u8; 4] = [108, 111, 103, 115];
    assert(name@ =~= seq![108u8, 111u8, 103u8, 115u8]);
    join_path(base.as_slice(), vstd::array::array_as_slice(&name), platform)
}

/// The text that stands for a directory: its device and inode numbers, or its path
/// where these cannot be read.
pub open spec fn directory_key(identity: Option<DirIdentity>, path: Seq<u8>, platform: Platform) -> Seq<char> {
    match identity {
        Some(id) => decimal(id.0 as nat) + seq![':'] + decimal(id.1 as nat),
        None => shown(path, platform),
    }
}

/// The text that stands for a directory. One directory reached by two paths has one
/// key.
pub fn identity_key(identity: Option<DirIdentity>, path: &[u8], platform: Platform) -> (r: String)
    ensures
        r@ == directory_key(identity, path@, platform),
{
    match identity {
        Some(id) => {
            let mut out = decimal_text(id.0 as u128);
            let inode = decimal_text(id.1 as u128);
            out.push(':');
            out.append(inode.as_str());
            assert(out@ =~= directory_key(identity, path@, platform));
            out
        },
        None => show_path(path, platform),
    }
}

/// Two directories have the same key only where they are the same directory.
pub proof fn lemma_directory_keys_differ(a: DirIdentity, b: DirIdentity, path: Seq<u8>, platform: Platform)
    requires
        directory_key(Some(a), path, platform) == directory_key(Some(b), path, platform),
    ensures
        a == b,
{
    lemma_same_number(a.0 as nat, b.0 as nat, decimal(a.1 as nat), decimal(b.1 as nat));
    lemma_decimal_reads_back(a.1 as nat);
    lemma_decimal_reads_back(b.1 as nat);
}

/// The message where the base directory was not held open.
pub open spec fn unsecured_message(logs: Seq<u8>) -> Seq<char> {
    "cannot secure the logs directory under '"@ + lossy_utf8(logs)
        + "': the directory could not be opened before the scenario started, so writes to it cannot be confined; skipping the log"@
}

/// The message where the logs directory could not be created.
pub open spec fn uncreated_message(logs: Seq<u8>, error: Seq<char>) -> Seq<char> {
    "cannot create logs dir '"@ + lossy_utf8(logs) + "': "@ + error
}

/// The message where the logs directory could not be created together with the
/// directories above it.
pub open spec fn unmade_message(error: Seq<char>) -> Seq<char> {
    "cannot create logs dir: "@ + error
}

/// The message where the logs directory is a link.
pub open spec fn symlink_dir_message(logs: Seq<u8>) -> Seq<char> {
    "logs directory '"@ + lossy_utf8(logs) + "' is a symlink; refusing to write logs through it"@
}

/// The message where the logs directory could not be opened.
pub open spec fn unopened_message(logs: Seq<u8>, error: Seq<char>) -> Seq<char> {
    "cannot open logs dir '"@ + lossy_utf8(logs) + "': "@ + error
}

/// The message where the log could not be written.
pub open spec fn unwritten_message(error: Seq<char>) -> Seq<char> {
    "cannot write log: "@ + error
}

/// Where writing a log stands.
#[derive(Debug)]
pub enum WritePhase {
    /// Create the logs directory by its path, and the directories above it.
    MakeAll,
    /// Create the logs directory, for its owner alone.
    Make,
    /// Open the logs directory without following a link; make it private to its
    /// owner where this run created it.
    Open { created: bool },
    /// Tell which directory this is.
    Identify,
    /// Search for the name, in the directory told.
    Name { dir: String, search: NameSearch },
    /// Write the log under this name.
    Write { dir: String, name: String },
    /// The log is written under this name.
    Written { dir: String, name: String },
    /// No log is written. Where a search found no name, the directory is told.
    Failed { error: PittyError, searched: Option<String> },
}

/// What came of the last request.
#[derive(Debug)]
pub enum WriteReply {
    /// The action succeeded.
    Done,
    /// The action failed, for this reason and with this error text.
    Failed { kind: OsError, error: String },
    /// A text that stands for the directory.
    Directory(String),
    /// The reply to the search.
    Search(SearchReply),
}

/// A log being written.
#[derive(Debug)]
pub struct LogWrite {
    /// The path of the logs directory, for messages.
    pub logs: Vec<u8>,
    /// What to do next.
    pub phase: WritePhase,
}

fn path_message(before: &str, logs: &[u8], after: &str) -> (r: String)
    ensures
        r@ == before@ + lossy_utf8(logs@) + after@,
{
    let mut out = before.to_owned();
    let path = lossy_text(logs);
    out.append(path.as_str());
    out.append(after);
    out
}

fn failed(message: String) -> (r: WritePhase)
    ensures
        r matches WritePhase::Failed { error, searched } && error@ == ErrorView::Process(message@)
            && searched is None,
{
    WritePhase::Failed { error: PittyError::Process(message), searched: None }
}

/// Whether no log is written, for this reason, before any name was searched for.
pub open spec fn failed_with(phase: WritePhase, message: Seq<char>) -> bool {
    phase matches WritePhase::Failed { error, searched } && error@ == ErrorView::Process(message)
        && searched is None
}

/// Start writing a log under `base_dir`. Where that directory was not held open
/// before the scenario ran, the log is skipped. On Windows, where no directory is
/// held open, the logs directory is used by its path.
pub fn open_log_dir(base_dir: &[u8], anchored: bool, platform: Platform) -> (r: LogWrite)
    ensures
        r.logs@ == logs_path(base_dir@, platform),
        platform is Windows ==> r.phase is MakeAll,
        platform is Unix && anchored ==> r.phase is Make,
        platform is Unix && !anchored ==> failed_with(
            r.phase,
            unsecured_message(logs_path(base_dir@, platform)),
        ),
{
    let logs = logs_dir(base_dir, platform);
    let phase = match platform {
        Platform::Windows => WritePhase::MakeAll,
        Platform::Unix => if anchored {
            WritePhase::Make
        } else {
            failed(
                path_message(
                    "cannot secure the logs directory under '",
                    logs.as_slice(),
                    "': the directory could not be opened before the scenario started, so writes to it cannot be confined; skipping the log",
                ),
            )
        },
    };
    LogWrite { logs, phase }
}

/// What comes after a step on the way to the logs directory.
pub open spec fn way_to_directory(phase: WritePhase, reply: WriteReply) -> Option<WritePhase> {
    match (phase, reply) {
        (WritePhase::MakeAll, WriteReply::Done) => Some(WritePhase::Identify),
        (WritePhase::Make, WriteReply::Done) => Some(WritePhase::Open { created: true }),
        (WritePhase::Make, WriteReply::Failed { kind, error: _ }) => if kind is Exists {
            Some(WritePhase::Open { created: false })
        } else {
            None
        },
        (WritePhase::Open { created: _ }, WriteReply::Done) => Some(WritePhase::Identify),
        _ => None,
    }
}

/// The mode that the logs directory is given once it is open, if any.
pub open spec fn directory_mode(created: bool) -> Option<u32> {
    if created {
        Some(PRIVATE_DIR_MODE)
    } else {
        None
    }
}

/// The text that is written to a log.
pub open spec fn text_to_write(
    id: IdentityView,
    output: Seq<char>,
    report: ReportView,
    fault: Option<Seq<char>>,
    secrets: Seq<Seq<char>>,
) -> Seq<char> {
    masked(log_text(id, output, report, fault), secrets)
}

/// Why no log is written, where a reply says so.
pub open spec fn write_fault(phase: WritePhase, reply: WriteReply, logs: Seq<u8>) -> Option<Seq<char>> {
    match (phase, reply) {
        (WritePhase::MakeAll, WriteReply::Failed { kind: _, error }) => Some(unmade_message(error@)),
        (WritePhase::Make, WriteReply::Failed { kind, error }) => if kind is Exists {
            None
        } else {
            Some(uncreated_message(logs, error@))
        },
        (WritePhase::Open { created: _ }, WriteReply::Failed { kind, error }) => Some(
            if kind is Loop || kind is NotDirectory {
                symlink_dir_message(logs)
            } else {
                unopened_message(logs, error@)
            },
        ),
        (WritePhase::Write { dir: _, name: _ }, WriteReply::Failed { kind: _, error }) => Some(
            unwritten_message(error@),
        ),
        _ => None,
    }
}

/// What to do next about a log.
#[derive(Debug)]
pub enum WriteRequest {
    /// Create the logs directory by its path, and the directories above it. That it is
    /// there already is no failure.
    MakeDirs,
    /// Create the logs directory with this mode.
    MakeDir { mode: u32 },
    /// Open it without following a link, and give it this mode once it is open, if any.
    OpenDir { restrict: Option<u32> },
    /// Tell which directory it is.
    IdentifyDir,
    /// Reply to the search.
    Search(SearchRequest),
    /// Write this text to this log. It has this mode before any of the text is there,
    /// on a platform that has modes.
    WriteFile { name: String, text: String, mode: u32 },
    /// Done.
    Finished,
}

/// Whether this is the phase that a search brings about: its next request, the log
/// that it found, or the fault where it found none.
pub open spec fn search_phase(phase: WritePhase, dir: Seq<char>, search: SearchView) -> bool {
    match search.stage {
        Stage::Done(Some(found)) => phase matches WritePhase::Write { dir: d, name } && d@ == dir && name@ == found,
        Stage::Done(None) => phase matches WritePhase::Failed { error, searched } && text_value(searched) == Some(
            dir,
        ) && error@ == exhausted_fault(search.wanted.stem),
        _ => phase matches WritePhase::Name { dir: d, search: s } && d@ == dir && s@ == search,
    }
}

fn naming(dir: String, search: NameSearch, stem: &str) -> (r: WritePhase)
    requires
        stem@ == search@.wanted.stem,
    ensures
        search_phase(r, dir@, search@),
{
    match search.request() {
        SearchRequest::Found(name) => WritePhase::Write { dir, name },
        SearchRequest::Exhausted => WritePhase::Failed {
            error: no_free_name(stem),
            searched: Some(dir),
        },
        _ => WritePhase::Name { dir, search },
    }
}

impl LogWrite {
    /// What to do next: the text to write holds no secret that could be masked.
    pub fn request(
        &self,
        identity: &LogIdentity,
        output: &str,
        report: &Report,
        fault: Option<&str>,
        secrets: &[String],
    ) -> (r: WriteRequest)
        ensures
            self.phase matches WritePhase::Open { created } ==> r == (WriteRequest::OpenDir {
                restrict: directory_mode(created),
            }),
            r matches WriteRequest::WriteFile { name: _, text, mode: _ } ==> text@ == text_to_write(
                identity@,
                output@,
                report@,
                match fault {
                    Some(message) => Some(message@),
                    None => None,
                },
                texts(secrets@),
            ),
            match self.phase {
                WritePhase::MakeAll => r is MakeDirs,
                WritePhase::Make => r matches WriteRequest::MakeDir { mode } && mode == PRIVATE_DIR_MODE,
                WritePhase::Open { created } => r matches WriteRequest::OpenDir { restrict } && restrict
                    == if created {
                    Some(PRIVATE_DIR_MODE)
                } else {
                    None
                },
                WritePhase::Identify => r is IdentifyDir,
                WritePhase::Name { dir: _, search } => r matches WriteRequest::Search(request)
                    && request@ == search_request(search@),
                WritePhase::Write { dir: _, name } => r matches WriteRequest::WriteFile { name: n, text, mode }
                    && n@ == name@ && mode == PRIVATE_FILE_MODE && text@ == masked(
                    log_text(
                        identity@,
                        output@,
                        report@,
                        match fault {
                            Some(message) => Some(message@),
                            None => None,
                        },
                    ),
                    texts(secrets@),
                ),
                WritePhase::Written { dir: _, name: _ } => r is Finished,
                WritePhase::Failed { error: _, searched: _ } => r is Finished,
            },
    {
        match &self.phase {
            WritePhase::MakeAll => WriteRequest::MakeDirs,
            WritePhase::Make => WriteRequest::MakeDir { mode: PRIVATE_DIR_MODE },
            WritePhase::Open { created } => WriteRequest::OpenDir {
                restrict: if *created {
                    Some(PRIVATE_DIR_MODE)
                } else {
                    None
                },
            },
            WritePhase::Identify => WriteRequest::IdentifyDir,
            WritePhase::Name { dir: _, search } => WriteRequest::Search(search.request()),
            WritePhase::Write { dir: _, name } => WriteRequest::WriteFile {
                name: name.clone(),
                text: masked_log_body(identity, output, report, fault, secrets),
                mode: PRIVATE_FILE_MODE,
            },
            WritePhase::Written { dir: _, name: _ } => WriteRequest::Finished,
            WritePhase::Failed { error: _, searched: _ } => WriteRequest::Finished,
        }
    }

    /// Go on from what came of the last request. A reply that does not answer it
    /// counts as a failure without a text.
    pub fn write_log(
        self,
        reply: WriteReply,
        book: &LogBook,
        identity: &LogIdentity,
        secrets: &[String],
    ) -> (r: LogWrite)
        ensures
            r.logs == self.logs,
            way_to_directory(self.phase, reply) matches Some(next) ==> r.phase == next,
            write_fault(self.phase, reply, self.logs@) matches Some(message) ==> failed_with(
                r.phase,
                message,
            ),
            match (self.phase, reply) {
                (WritePhase::MakeAll, WriteReply::Done) => r.phase is Identify,
                (WritePhase::MakeAll, WriteReply::Failed { kind: _, error }) => failed_with(
                    r.phase,
                    unmade_message(error@),
                ),
                (WritePhase::Make, WriteReply::Done) => r.phase == (WritePhase::Open { created: true }),
                (WritePhase::Make, WriteReply::Failed { kind, error }) => if kind is Exists {
                    r.phase == (WritePhase::Open { created: false })
                } else {
                    failed_with(r.phase, uncreated_message(self.logs@, error@))
                },
                (WritePhase::Open { created: _ }, WriteReply::Done) => r.phase is Identify,
                (WritePhase::Open { created: _ }, WriteReply::Failed { kind, error }) => failed_with(
                    r.phase,
                    if kind is Loop || kind is NotDirectory {
                        symlink_dir_message(self.logs@)
                    } else {
                        unopened_message(self.logs@, error@)
                    },
                ),
                (WritePhase::Identify, WriteReply::Directory(dir)) => search_phase(
                    r.phase,
                    dir@,
                    search_for(book@, dir@, identity@, texts(secrets@)),
                ),
                (WritePhase::Name { dir, search }, WriteReply::Search(said)) => search_phase(
                    r.phase,
                    dir@,
                    search_step(search@, said@),
                ),
                (WritePhase::Write { dir, name }, WriteReply::Done) => r.phase matches WritePhase::Written {
                    dir: d,
                    name: n,
                } && d@ == dir@ && n@ == name@,
                (WritePhase::Write { dir: _, name: _ }, WriteReply::Failed { kind: _, error }) => failed_with(
                    r.phase,
                    unwritten_message(error@),
                ),
                (WritePhase::Written { dir: _, name: _ }, _) => r.phase == self.phase,
                (WritePhase::Failed { error: _, searched: _ }, _) => r.phase == self.phase,
                _ => failed_with(r.phase, unwritten_message(Seq::empty())),
            },
    {
        let logs = self.logs;
        let phase = match (self.phase, reply) {
            (WritePhase::MakeAll, WriteReply::Done) => WritePhase::Identify,
            (WritePhase::MakeAll, WriteReply::Failed { kind: _, error }) => {
                let mut message = "cannot create logs dir: ".to_owned();
                message.append(error.as_str());
                failed(message)
            },
            (WritePhase::Make, WriteReply::Done) => WritePhase::Open { created: true },
            (WritePhase::Make, WriteReply::Failed { kind, error }) => match kind {
                OsError::Exists => WritePhase::Open { created: false },
                _ => {
                    let mut message = path_message(
                        "cannot create logs dir '",
                        logs.as_slice(),
                        "': ",
                    );
                    message.append(error.as_str());
                    failed(message)
                },
            },
            (WritePhase::Open { created: _ }, WriteReply::Done) => WritePhase::Identify,
            (WritePhase::Open { created: _ }, WriteReply::Failed { kind, error }) => match kind {
                OsError::Loop | OsError::NotDirectory => failed(
                    path_message(
                        "logs directory '",
                        logs.as_slice(),
                        "' is a symlink; refusing to write logs through it",
                    ),
                ),
                _ => {
                    let mut message = path_message("cannot open logs dir '", logs.as_slice(), "': ");
                    message.append(error.as_str());
                    failed(message)
                },
            },
            (WritePhase::Identify, WriteReply::Directory(dir)) => {
                let search = book.resolve_log_path(dir.as_str(), identity, secrets);
                let stem = identity.stem(secrets);
                naming(dir, search, stem.as_str())
            },
            (WritePhase::Name { dir, search }, WriteReply::Search(said)) => {
                let stem = search.stem();
                let next = search.advance(said);
                naming(dir, next, stem.as_str())
            },
            (WritePhase::Write { dir, name }, WriteReply::Done) => WritePhase::Written { dir, name },
            (WritePhase::Write { dir: _, name: _ }, WriteReply::Failed { kind: _, error }) => {
                let mut message = "cannot write log: ".to_owned();
                message.append(error.as_str());
                failed(message)
            },
            (WritePhase::Written { dir, name }, _) => WritePhase::Written { dir, name },
            (WritePhase::Failed { error, searched }, _) => WritePhase::Failed { error, searched },
            _ => {
                let message = "cannot write log: ".to_owned();
                assert(message@ =~= unwritten_message(Seq::empty()));
                failed(message)
            },
        };
        LogWrite { logs, phase }
    }
}

/// What the process remembers of a log that is being written.
pub open spec fn remembered_book(book: BookView, phase: WritePhase, key: Seq<char>) -> BookView {
    match phase {
        WritePhase::Write { dir, name } => noted(book, dir@, key, Some(name@)),
        WritePhase::Written { dir, name } => noted(book, dir@, key, Some(name@)),
        WritePhase::Failed { error: _, searched: Some(dir) } => noted(book, dir@, key, None),
        _ => book,
    }
}

impl LogWrite {
    /// Remember the name that was found, or that none was.
    pub fn remember(&self, book: LogBook, identity: &LogIdentity) -> (r: LogBook)
        ensures
            r@ == remembered_book(book@, self.phase, dedup_key_of(identity@)),
    {
        match &self.phase {
            WritePhase::Write { dir, name } => book.note(dir.as_str(), identity, Some(name.as_str())),
            WritePhase::Written { dir, name } => book.note(dir.as_str(), identity, Some(name.as_str())),
            WritePhase::Failed { error: _, searched: Some(dir) } => book.note(
                dir.as_str(),
                identity,
                None,
            ),
            _ => book,
        }
    }
}

/// The logs stand in a directory `logs` of the base directory, and where that is the empty
/// path, of the current one.
pub proof fn lemma_logs_stand_in_the_base(base_dir: Seq<u8>)
    ensures
        base_dir.len() == 0 ==> logs_path(base_dir, Platform::Unix) == seq![46u8, 47u8, 108u8, 111u8, 103u8, 115u8],
        base_dir.len() > 0 && base_dir.last() != 47 ==> logs_path(base_dir, Platform::Unix) == base_dir
            + seq![47u8, 108u8, 111u8, 103u8, 115u8],
        base_dir.len() > 0 && base_dir.last() == 47 ==> logs_path(base_dir, Platform::Unix) == base_dir
            + seq![108u8, 111u8, 103u8, 115u8],
        base_dir.len() == 0 ==> logs_path(base_dir, Platform::Windows) == seq![
            46u8,
            92u8,
            108u8,
            111u8,
            103u8,
            115u8,
        ],
{
    let name = seq![108u8, 111u8, 103u8, 115u8];
    let base = base_or_here(base_dir);
    lemma_unix_join_by_bytes(base, name);
    lemma_windows_join_by_bytes(seq![46u8], name);
    if base_dir.len() == 0 {
        assert(base + seq![47u8] + name =~= seq![46u8, 47u8, 108u8, 111u8, 103u8, 115u8]);
        assert(base + seq![92u8] + name =~= seq![46u8, 92u8, 108u8, 111u8, 103u8, 115u8]);
    } else if base_dir.last() != 47 {
        assert(base + seq![47u8] + name =~= base_dir + seq![47u8, 108u8, 111u8, 103u8, 115u8]);
    }
}

/// What is said where no log can be written: each reason in its own words, with the
/// directory and the error.
pub proof fn lemma_log_faults_say_why(logs: Seq<u8>, error: Seq<char>)
    ensures
        ({
            let dir = lossy_utf8(logs);
            &&& unsecured_message(logs) == "cannot secure the logs directory under '"@ + dir
                + "': the directory could not be opened before the scenario started, so writes to it cannot be confined; skipping the log"@
            &&& uncreated_message(logs, error) == "cannot create logs dir '"@ + dir + "': "@ + error
            &&& unmade_message(error) == "cannot create logs dir: "@ + error
            &&& symlink_dir_message(logs) == "logs directory '"@ + dir
                + "' is a symlink; refusing to write logs through it"@
            &&& unopened_message(logs, error) == "cannot open logs dir '"@ + dir + "': "@ + error
            &&& unwritten_message(error) == "cannot write log: "@ + error
        }),
{
}

/// What a process remembers of a log: its name from the moment it was found, whether it
/// could be written or not; that there was none, where the search found none; and nothing
/// new before that.
pub proof fn lemma_found_name_is_remembered(
    book: BookView,
    key: Seq<char>,
    dir: String,
    name: String,
    error: PittyError,
)
    ensures
        remembered_book(book, WritePhase::Write { dir, name }, key) == noted(
            book,
            dir@,
            key,
            Some(name@),
        ),
        remembered_book(book, WritePhase::Written { dir, name }, key) == noted(
            book,
            dir@,
            key,
            Some(name@),
        ),
        remembered_book(book, WritePhase::Failed { error, searched: Some(dir) }, key) == noted(
            book,
            dir@,
            key,
            None,
        ),
        remembered_book(book, WritePhase::Failed { error, searched: None }, key) == book,
        remembered_book(book, WritePhase::Make, key) == book && remembered_book(
            book,
            WritePhase::MakeAll,
            key,
        ) == book && remembered_book(book, WritePhase::Identify, key) == book,
{
}

/// A directory is known by its device and inode numbers, in this order, wherever it is
/// reached; and by its path where they cannot be read.
pub proof fn lemma_directory_is_known(id: DirIdentity, path: Seq<u8>, platform: Platform)
    ensures
        directory_key(Some(id), path, platform) == decimal(id.0 as nat) + seq![':'] + decimal(
            id.1 as nat,
        ),
        directory_key(None, path, platform) == shown(path, platform),
{
}

/// What a search brings about: the log that it found is written next; where it found none
/// the run is told, and the directory that was searched is kept; else the search goes on.
pub proof fn lemma_search_brings_about(
    phase: WritePhase,
    dir: Seq<char>,
    wanted: Wanted,
    found: Seq<char>,
    n: nat,
)
    ensures
        search_phase(phase, dir, SearchView { wanted, stage: Stage::Done(Some(found)) }) == (
        phase matches WritePhase::Write { dir: d, name } && d@ == dir && name@ == found),
        search_phase(phase, dir, SearchView { wanted, stage: Stage::Done(None) }) == (
        phase matches WritePhase::Failed { error, searched } && (searched matches Some(d) && d@ == dir)
            && error@ == exhausted_fault(wanted.stem)),
        search_phase(phase, dir, SearchView { wanted, stage: Stage::Look(n) }) == (
        phase matches WritePhase::Name { dir: d, search } && d@ == dir && search@ == (SearchView {
            wanted,
            stage: Stage::Look(n),
        })),
{
}

/// Which replies leave a run without a log, and in which words: any failure to make or to
/// open the directory or to write the file, but not that the directory is there already. A
/// directory that is a link is told apart.
pub proof fn lemma_log_is_given_up_on_failure(
    logs: Seq<u8>,
    created: bool,
    dir: String,
    name: String,
    kind: OsError,
    error: String,
)
    ensures
        ({
            let shown_dir = lossy_utf8(logs);
            let failed = WriteReply::Failed { kind, error };
            &&& write_fault(WritePhase::MakeAll, failed, logs) == Some(
                "cannot create logs dir: "@ + error@,
            )
            &&& kind is Exists ==> write_fault(WritePhase::Make, failed, logs) is None
            &&& !(kind is Exists) ==> write_fault(WritePhase::Make, failed, logs) == Some(
                "cannot create logs dir '"@ + shown_dir + "': "@ + error@,
            )
            &&& kind is Loop || kind is NotDirectory ==> write_fault(
                WritePhase::Open { created },
                failed,
                logs,
            ) == Some(
                "logs directory '"@ + shown_dir + "' is a symlink; refusing to write logs through it"@,
            )
            &&& !(kind is Loop) && !(kind is NotDirectory) ==> write_fault(
                WritePhase::Open { created },
                failed,
                logs,
            ) == Some("cannot open logs dir '"@ + shown_dir + "': "@ + error@)
            &&& write_fault(WritePhase::Write { dir, name }, failed, logs) == Some(
                "cannot write log: "@ + error@,
            )
            &&& write_fault(WritePhase::Make, WriteReply::Done, logs) is None
            &&& write_fault(WritePhase::Open { created }, WriteReply::Done, logs) is None
            &&& write_fault(WritePhase::Write { dir, name }, WriteReply::Done, logs) is None
        }),
{
}

/// How a run comes to its logs directory. One that it made is opened and made private to
/// its owner; one that was there is opened and keeps its mode; and once it is open it is
/// told which directory it is. By its path alone it needs no opening.
pub proof fn lemma_way_to_the_logs_directory(created: bool, kind: OsError, error: String)
    ensures
        way_to_directory(WritePhase::MakeAll, WriteReply::Done) == Some(WritePhase::Identify),
        way_to_directory(WritePhase::Make, WriteReply::Done) == Some(WritePhase::Open { created: true }),
        kind is Exists ==> way_to_directory(WritePhase::Make, WriteReply::Failed { kind, error }) == Some(
            WritePhase::Open { created: false },
        ),
        !(kind is Exists) ==> way_to_directory(
            WritePhase::Make,
            WriteReply::Failed { kind, error },
        ) is None,
        way_to_directory(WritePhase::Open { created }, WriteReply::Done) == Some(WritePhase::Identify),
        way_to_directory(
            WritePhase::Open { created },
            WriteReply::Failed { kind, error },
        ) is None,
        directory_mode(created) == if created {
            Some(0o700u32)
        } else {
            None
        },
{
}

/// What is written to a log is the log text with its secrets masked. So a secret does not
/// stand in it, unless it can be pieced together from the stars that masking writes; and
/// where no secret stands in the log text, that is written as it is, with the whole output
/// in it.
pub proof fn lemma_written_log_is_the_masked_text(
    id: IdentityView,
    output: Seq<char>,
    report: ReportView,
    fault: Option<Seq<char>>,
    secrets: Seq<Seq<char>>,
    k: int,
)
    ensures
        0 <= k < secrets.len() && secrets[k].len() > 0 && !star_bound(secrets[k]) ==> !occurs(
            secrets[k],
            text_to_write(id, output, report, fault, secrets),
        ),
        (forall|i: int|
            0 <= i < secrets.len() && (#[trigger] secrets[i]).len() > 0 ==> !occurs(
                secrets[i],
                log_text(id, output, report, fault),
            )) ==> text_to_write(id, output, report, fault, secrets) == log_text(
            id,
            output,
            report,
            fault,
        ),
{
    let text = log_text(id, output, report, fault);
    if 0 <= k < secrets.len() && secrets[k].len() > 0 && !star_bound(secrets[k]) {
        lemma_mask_removes_secrets(text, secrets, k);
    }
    if forall|i: int|
        0 <= i < secrets.len() && (#[trigger] secrets[i]).len() > 0 ==> !occurs(secrets[i], text) {
        lemma_mask_keeps_clean_text(text, secrets);
    }
}

} // verus!
