use std::collections::{BTreeMap, BTreeSet};

use pitty::acquire::{
    acquire_request, claim_is_reclaimable, claim_is_reusable_unlocked, read_claim_state,
    try_acquire, try_acquire_unlocked, AcquireEvent, AcquireRequest, AcquireState, ClaimRead,
    SidecarRead,
};
use pitty::claim::{claim_sidecar_name, ClaimRecord, CLAIM_TOKEN_BYTES, MAX_CLAIM_BYTES};
use pitty::digest::{bound_text, fnv1a_hex, random_hex};
use pitty::error::PittyError;
use pitty::identity::{bound_stem, sanitize_stem, LogIdentity, MAX_LOG_FILE_NAME, MAX_STEM_BYTES};
use pitty::lognames::{LogBook, SearchReply, SearchRequest};
use pitty::logwriter::{
    identity_key, logs_dir, normalize_base_dir, open_log_dir, WritePhase, WriteReply, WriteRequest,
};
use pitty::path::Platform;
use pitty::path::Platform::{Unix, Windows};
use pitty::report::{
    log_body, masked_log_body, session_output, status_exit_code, status_of, status_verdict_label,
    verdict_label, AssertionResult, Report, Status,
};
use pitty::safepath::OsError;
use pitty::string_map::StringMap;

fn coords(pairs: &[(&str, &str)]) -> StringMap {
    let mut map = StringMap::new();
    for (k, v) in pairs {
        map = map.with(k.to_string(), v.to_string());
    }
    map
}

fn demo_report() -> Report {
    Report {
        scenario: "demo".into(),
        status: Status::Passed,
        duration_ms: 1,
        assertions: Vec::new(),
    }
}

/// A logs directory in memory, and the process that writes to it.
struct Logs {
    made: bool,
    anchored: bool,
    symlink: bool,
    full: bool,
    files: BTreeMap<String, Vec<u8>>,
    unreadable: BTreeSet<String>,
    locked: BTreeSet<String>,
    modes: BTreeMap<String, u32>,
    platform: Platform,
    tokens: u64,
    book: Option<LogBook>,
}

impl Logs {
    fn new() -> Logs {
        Logs {
            made: false,
            anchored: true,
            symlink: false,
            full: false,
            files: BTreeMap::new(),
            unreadable: BTreeSet::new(),
            locked: BTreeSet::new(),
            modes: BTreeMap::new(),
            platform: Unix,
            tokens: 0,
            book: Some(LogBook::new()),
        }
    }

    /// What a later process sees: the files, and nothing remembered.
    fn forget(&mut self) {
        self.book = Some(LogBook::new());
    }

    fn names(&self) -> Vec<String> {
        self.files
            .keys()
            .filter(|n| !n.ends_with(".claim"))
            .cloned()
            .collect()
    }

    fn body(&self, name: &str) -> String {
        String::from_utf8(self.files[name].clone()).unwrap()
    }

    fn claim(&self, name: &str) -> ClaimRead {
        let sidecar = claim_sidecar_name(name);
        let read = if self.unreadable.contains(&sidecar) {
            SidecarRead::Unreadable
        } else {
            match self.files.get(&sidecar) {
                None => SidecarRead::Absent,
                Some(bytes) => SidecarRead::Bytes(bytes.clone()),
            }
        };
        read_claim_state(&read)
    }

    fn claim_key(&self, name: &str) -> Option<String> {
        match self.claim(name) {
            ClaimRead::Record(record) => Some(record.key),
            _ => None,
        }
    }

    /// Acquire a name. On Unix its sidecar stays locked until it is released.
    fn acquire(&mut self, name: &str, want: &ClaimRecord) -> bool {
        let mut state = AcquireState::Probe;
        let mut open: Option<String> = None;
        let mut locked = false;
        loop {
            let event = match acquire_request(state, name, want) {
                AcquireRequest::Probe { log, sidecar } => AcquireEvent::Presence {
                    log: self.files.contains_key(&log),
                    sidecar: self.files.contains_key(&sidecar),
                },
                AcquireRequest::Create { sidecar, mode: _ } => {
                    if self.files.contains_key(&sidecar) {
                        AcquireEvent::Failed(OsError::Exists)
                    } else {
                        self.files.insert(sidecar.clone(), Vec::new());
                        open = Some(sidecar);
                        AcquireEvent::Done
                    }
                }
                AcquireRequest::Examine { log, sidecar: _ } => AcquireEvent::Claim {
                    said: self.claim(&log),
                    log_present: self.files.contains_key(&log),
                },
                AcquireRequest::Open { sidecar, mode: _ } => {
                    open = Some(sidecar);
                    AcquireEvent::Opened { links: 1 }
                }
                AcquireRequest::Restrict { mode } => {
                    self.modes.insert(open.clone().unwrap(), mode);
                    AcquireEvent::Done
                }
                AcquireRequest::Lock => {
                    if self.locked.insert(open.clone().unwrap()) {
                        locked = true;
                        AcquireEvent::Done
                    } else {
                        AcquireEvent::Failed(OsError::Other)
                    }
                }
                AcquireRequest::Write { sidecar, text } => {
                    self.files.insert(sidecar, text.into_bytes());
                    AcquireEvent::Done
                }
                AcquireRequest::Over { granted } => {
                    if locked && !granted {
                        self.release(name);
                    }
                    return granted;
                }
            };
            state = match self.platform {
                Unix => try_acquire(state, &event, want),
                Windows => try_acquire_unlocked(state, &event, want),
            };
        }
    }

    /// Let go of the lock on the sidecar of a log.
    fn release(&mut self, name: &str) {
        self.locked.remove(&claim_sidecar_name(name));
    }

    fn write(
        &mut self,
        identity: &LogIdentity,
        output: &str,
        report: &Report,
        fault: Option<&str>,
        secrets: &[String],
    ) -> Result<(), PittyError> {
        let mut write = open_log_dir(b"/t", self.anchored, self.platform);
        let mut held: Option<String> = None;
        loop {
            let book = write.remember(self.book.take().unwrap(), identity);
            let reply = match write.request(identity, output, report, fault, secrets) {
                WriteRequest::MakeDirs => {
                    if self.symlink {
                        failed(OsError::Other, "Access is denied.")
                    } else {
                        self.made = true;
                        WriteReply::Done
                    }
                }
                WriteRequest::MakeDir { mode } => {
                    self.modes.insert("logs".to_string(), mode);
                    if self.made {
                        failed(OsError::Exists, "File exists")
                    } else {
                        self.made = true;
                        WriteReply::Done
                    }
                }
                WriteRequest::OpenDir { restrict: _ } => {
                    if self.symlink {
                        failed(OsError::Loop, "Too many levels of symbolic links")
                    } else {
                        WriteReply::Done
                    }
                }
                WriteRequest::IdentifyDir => {
                    let numbers = match self.platform {
                        Unix => Some((7, 8)),
                        Windows => None,
                    };
                    WriteReply::Directory(identity_key(numbers, &write.logs, self.platform))
                }
                WriteRequest::Search(request) => WriteReply::Search(match request {
                    SearchRequest::ReadClaim(name) => SearchReply::Claim(self.claim(&name)),
                    SearchRequest::AcquireOwned(name, record) => {
                        let granted = self.acquire(&name, &record);
                        if granted {
                            held = Some(name);
                        }
                        SearchReply::Acquired(granted)
                    }
                    SearchRequest::AcquireFresh(name, key) => {
                        self.tokens += 1;
                        let want = ClaimRecord::mint(key, self.tokens.to_be_bytes());
                        let granted = self.acquire(&name, &want);
                        if granted {
                            held = Some(name);
                        }
                        SearchReply::Acquired(granted)
                    }
                    other => panic!("a finished search asks for nothing: {other:?}"),
                }),
                WriteRequest::WriteFile { name, text, mode } => {
                    self.modes.insert(name.clone(), mode);
                    if self.full {
                        failed(OsError::Other, "No space left on device")
                    } else {
                        self.files.insert(name, text.into_bytes());
                        WriteReply::Done
                    }
                }
                WriteRequest::Finished => {
                    if let Some(name) = held {
                        self.release(&name);
                    }
                    self.book = Some(book);
                    return match write.phase {
                        WritePhase::Failed { error, .. } => Err(error),
                        _ => Ok(()),
                    };
                }
            };
            write = write.write_log(reply, &book, identity, secrets);
            self.book = Some(book);
        }
    }

    fn run(&mut self, identity: &LogIdentity, output: &str, secrets: &[String]) {
        self.write(identity, output, &demo_report(), None, secrets)
            .unwrap();
    }
}

fn failed(kind: OsError, error: &str) -> WriteReply {
    WriteReply::Failed { kind, error: error.to_string() }
}

fn record(key: &str, token: &str) -> ClaimRecord {
    ClaimRecord {
        key: key.to_string(),
        token: token.to_string(),
    }
}

#[test]
fn status_exit_code_is_two_valued() {
    assert_eq!(status_exit_code(Status::Passed), 0);
    assert_eq!(status_exit_code(Status::Failed), 1);
}

#[test]
fn verdict_labels_read_pass_and_fail() {
    assert_eq!(verdict_label(true), "PASS");
    assert_eq!(verdict_label(false), "FAIL");
    assert_eq!(status_verdict_label(Status::Passed), "PASS");
    assert_eq!(status_verdict_label(Status::Failed), "FAIL");
}

#[test]
fn sanitize_stem_strips_path_separators() {
    assert_eq!(sanitize_stem("../../etc/passwd"), ".._.._etc_passwd");
    assert_eq!(sanitize_stem("ok-name_1.2"), "ok-name_1.2");
    assert_eq!(sanitize_stem(""), "scenario");
}

#[test]
fn plain_identity_keeps_the_name_only_stem() {
    assert_eq!(LogIdentity::new("demo").stem(&[]), "demo");
}

#[test]
fn file_stem_prefixes_a_differing_scenario_name() {
    let identity = LogIdentity::new("same-name").with_file(b"dir/a.yaml", Unix);
    assert_eq!(identity.stem(&[]), "a.same-name");
}

#[test]
fn file_stem_matching_the_name_is_not_repeated() {
    let identity = LogIdentity::new("echo-flow").with_file(b"e2e/echo-flow.yaml", Unix);
    assert_eq!(identity.stem(&[]), "echo-flow");
}

#[test]
fn a_file_named_after_another_scenario_still_gets_a_distinct_stem() {
    let same = LogIdentity::new("a").with_file(b"a.yaml", Unix);
    let other = LogIdentity::new("a").with_file(b"b.yaml", Unix);
    assert_eq!(same.stem(&[]), "a");
    assert_eq!(other.stem(&[]), "b.a");
    assert_ne!(same.stem(&[]), other.stem(&[]));
}

#[test]
fn cell_coords_suffix_the_stem_in_axis_order() {
    let identity = LogIdentity::new("m")
        .with_file(b"m.yaml", Unix)
        .with_cell(coords(&[("region", "us"), ("cmd", "bash")]));
    assert_eq!(identity.stem(&[]), "m.cmd-bash.region-us");
}

#[test]
fn identity_parts_are_sanitized_independently() {
    let identity = LogIdentity::new("../escape")
        .with_file(b"../../f.yaml", Unix)
        .with_cell(coords(&[("a", "../x")]));
    let stem = identity.stem(&[]);
    assert!(!stem.contains('/'), "stem must carry no separator: {stem}");
    assert_eq!(stem, "f..._escape.a-.._x");
}

#[test]
fn two_files_sharing_a_name_write_separate_logs() {
    let mut logs = Logs::new();
    for file in ["a.yaml", "b.yaml"] {
        let identity = LogIdentity::new("same-name").with_file(file.as_bytes(), Unix);
        logs.run(&identity, file, &[]);
    }
    assert_eq!(logs.names(), vec!["a.same-name.log", "b.same-name.log"]);
}

#[test]
fn matrix_cells_write_one_log_each() {
    let mut logs = Logs::new();
    for word in ["alpha", "bravo", "charlie"] {
        let identity = LogIdentity::new("m")
            .with_file(b"m.yaml", Unix)
            .with_cell(coords(&[("word", word)]));
        logs.run(&identity, word, &[]);
    }
    let names = logs.names();
    assert_eq!(names.len(), 3, "each cell needs its own log: {names:?}");
    for word in ["alpha", "bravo", "charlie"] {
        let body = logs.body(&format!("m.word-{word}.log"));
        assert!(body.contains(&format!("# cell: word={word}")));
        assert!(body.contains(word));
    }
}

#[test]
fn distinct_identities_colliding_on_a_stem_are_suffixed() {
    let mut logs = Logs::new();
    logs.run(&LogIdentity::new("my/test"), "first", &[]);
    logs.run(&LogIdentity::new("my_test"), "second", &[]);
    assert_eq!(logs.names(), vec!["my_test.2.log", "my_test.log"]);
    let first = logs.body("my_test.log");
    assert!(
        first.contains("first"),
        "the earlier log must survive: {first}"
    );
}

#[test]
fn repeating_one_identity_overwrites_its_own_log() {
    let mut logs = Logs::new();
    for i in 0..3 {
        logs.run(&LogIdentity::new("bench-shell"), &format!("run-{i}"), &[]);
    }
    assert_eq!(logs.names(), vec!["bench-shell.log"]);
    let log = logs.body("bench-shell.log");
    assert!(log.contains("run-2"), "the last run must win: {log}");
}

#[test]
fn a_log_records_the_claim_of_the_identity_that_wrote_it() {
    let mut logs = Logs::new();
    let identity = LogIdentity::new("claimed").with_file(b"c.yaml", Unix);
    logs.run(&identity, "out", &[]);
    assert_eq!(
        logs.claim_key("c.claimed.log").as_deref(),
        Some(&*identity.claim_key(&[]))
    );
}

#[test]
fn distinct_identities_get_distinct_claims() {
    let slash = LogIdentity::new("my/test");
    let underscore = LogIdentity::new("my_test");
    assert_eq!(
        slash.stem(&[]),
        underscore.stem(&[]),
        "stems must collide here"
    );
    assert_ne!(slash.claim_key(&[]), underscore.claim_key(&[]));
}

#[test]
fn an_unclaimed_file_is_never_treated_as_ours() {
    let mut logs = Logs::new();
    logs.files.insert("s.log".to_string(), b"older".to_vec());
    logs.run(&LogIdentity::new("s"), "new", &[]);
    assert_eq!(logs.names(), vec!["s.2.log", "s.log"]);
    assert_eq!(logs.body("s.log"), "older");
}

#[test]
fn yaml_and_yml_siblings_get_distinct_stems() {
    let yaml = LogIdentity::new("same").with_file(b"a.yaml", Unix);
    let yml = LogIdentity::new("same").with_file(b"a.yml", Unix);
    assert_ne!(yaml.stem(&[]), yml.stem(&[]));
    assert_ne!(yaml.claim_key(&[]), yml.claim_key(&[]));
}

#[test]
fn the_canonical_extension_leaves_the_common_name_untouched() {
    let conventional = LogIdentity::new("echo-flow").with_file(b"echo-flow.yaml", Unix);
    assert_eq!(conventional.stem(&[]), "echo-flow");

    let alternative = LogIdentity::new("echo-flow").with_file(b"echo-flow.yml", Unix);
    assert_eq!(alternative.stem(&[]), "echo-flow-yml.echo-flow");
}

#[test]
fn the_canonical_extension_is_recognized_in_any_case() {
    let upper = LogIdentity::new("n").with_file(b"n.YaML", Unix);
    assert_eq!(upper.stem(&[]), "n");
    assert_eq!(upper.file_extension.as_deref(), Some("YaML"));
}

#[test]
fn a_path_without_a_usable_stem_leaves_the_file_out() {
    let climbing = LogIdentity::new("n").with_file(b"a/..", Unix);
    assert_eq!(climbing.file_stem, None);
    let invalid = LogIdentity::new("n").with_file(b"\xff.yaml", Unix);
    assert_eq!(invalid.file_stem, None);
    assert_eq!(invalid.file_extension.as_deref(), Some("yaml"));
    let hidden = LogIdentity::new("n").with_file(b".yaml", Unix);
    assert_eq!(hidden.file_stem.as_deref(), Some(".yaml"));
    assert_eq!(hidden.file_extension, None);
    let bare = LogIdentity::new("n").with_file(b"plain/", Unix);
    assert_eq!(bare.file_stem.as_deref(), Some("plain"));
    let twice = LogIdentity::new("n").with_file(b"a.b.yml", Unix);
    assert_eq!(twice.file_stem.as_deref(), Some("a.b"));
    assert_eq!(twice.file_extension.as_deref(), Some("yml"));
}

#[test]
fn with_name_replaces_the_name_only() {
    let identity = LogIdentity::default()
        .with_file(b"a.yaml", Unix)
        .with_name("other");
    assert_eq!(identity.scenario_name, "other");
    assert_eq!(identity.stem(&[]), "a.other");
}

#[test]
fn an_over_long_stem_is_bounded_to_a_writable_name() {
    let identity = LogIdentity::new("m")
        .with_file(b"m.yaml", Unix)
        .with_cell(coords(&[("word", &"x".repeat(250))]));
    let stem = identity.stem(&[]);
    assert!(
        stem.len() <= MAX_STEM_BYTES,
        "stem must be bounded, got {} bytes",
        stem.len()
    );
    assert!(
        format!("{stem}.1000.log").len() <= MAX_LOG_FILE_NAME,
        "the suffixed form must still fit in a file name"
    );
    assert!(claim_sidecar_name(&format!("{stem}.1000.log")).len() <= MAX_LOG_FILE_NAME);
}

#[test]
fn a_short_stem_is_never_rewritten_by_the_length_bound() {
    assert_eq!(bound_stem("echo-flow"), "echo-flow");
    assert!(!bound_stem("echo-flow").contains('~'));
}

#[test]
fn distinct_over_long_stems_stay_distinct_after_truncation() {
    let long_a = format!("m.word-{}a", "x".repeat(300));
    let long_b = format!("m.word-{}b", "x".repeat(300));
    assert_ne!(bound_stem(&long_a), bound_stem(&long_b));
}

#[test]
fn bounded_text_is_cut_between_characters() {
    let text = "あ".repeat(20);
    let out = bound_text(&text, 30);
    assert_eq!(out, format!("ああああ~{}", fnv1a_hex(text.as_bytes())));
    assert_eq!(bound_text(&text, 60), text);
    assert_eq!(bound_text("abc", 2), format!("~{}", fnv1a_hex(b"abc")));
}

#[test]
fn digests_are_fnv1a() {
    assert_eq!(fnv1a_hex(b""), "cbf29ce484222325");
    assert_eq!(fnv1a_hex(b"a"), "af63dc4c8601ec8c");
    assert_eq!(fnv1a_hex(b"foobar"), "85944171f73967e8");
    assert_eq!(random_hex(&[0, 1, 0xab, 0xff]), "0001abff");
}

#[test]
fn a_secret_matching_the_claim_key_cannot_corrupt_the_claim() {
    let mut logs = Logs::new();
    let identity = LogIdentity::new("s");
    let secrets = vec!["id".to_string()];
    logs.run(&identity, "out", &secrets);
    assert_eq!(
        logs.claim_key("s.log").as_deref(),
        Some(&*identity.claim_key(&[])),
        "a secret colliding with the claim key must not corrupt it"
    );
}

#[test]
fn a_secret_matching_the_digest_cannot_corrupt_the_claim() {
    let mut logs = Logs::new();
    let identity = LogIdentity::new("s");
    let tag = identity.claim_key(&[]);
    let secrets = vec![tag[..4].to_string()];
    logs.run(&identity, "out", &secrets);
    assert_eq!(
        logs.claim_key("s.log").as_deref(),
        Some(&*identity.claim_key(&[])),
        "a secret colliding with the digest must not corrupt it"
    );
}

#[test]
fn a_claim_colliding_secret_still_does_not_accumulate_logs() {
    let mut logs = Logs::new();
    let identity = LogIdentity::new("s");
    let secrets = vec!["id".to_string(), identity.claim_key(&[])[..4].to_string()];
    for _ in 0..3 {
        logs.forget();
        logs.run(&identity, "out", &secrets);
    }
    assert_eq!(logs.names(), vec!["s.log"]);
}

#[test]
fn every_byte_of_a_log_including_the_claim_goes_through_masking() {
    let mut logs = Logs::new();
    let report = Report {
        scenario: "sec".into(),
        status: Status::Passed,
        duration_ms: 1,
        assertions: vec![AssertionResult::pass("step with topsecret inside")],
    };
    logs.write(
        &LogIdentity::new("scenario-name"),
        "output holding topsecret",
        &report,
        None,
        &["topsecret".to_string()],
    )
    .unwrap();
    let body = logs.body("scenario-name.log");
    assert!(
        !body.contains("topsecret"),
        "no secret may reach the log:\n{body}"
    );
    assert_eq!(body.matches("***").count(), 2, "body:\n{body}");
}

#[test]
fn a_hard_fault_is_logged_as_errored_not_passed() {
    let mut logs = Logs::new();
    logs.write(
        &LogIdentity::new("q"),
        "(no process spawned)",
        &demo_report(),
        Some("process error: cannot parse spawn command"),
        &[],
    )
    .unwrap();
    let body = logs.body("q.log");
    assert!(body.contains("# status: Errored"), "body:\n{body}");
    assert!(
        body.contains("# error: process error: cannot parse spawn command"),
        "the fault itself must be recorded:\n{body}"
    );
    assert!(!body.contains("# status: Passed"), "body:\n{body}");
}

#[test]
fn a_log_has_one_exact_layout() {
    let identity = LogIdentity::new("n").with_cell(coords(&[("b", "2"), ("a", "1")]));
    let report = Report {
        scenario: "n".into(),
        status: Status::Failed,
        duration_ms: 340282366920938463463374607431768211455,
        assertions: vec![
            AssertionResult::pass("one"),
            AssertionResult::fail("two", "why".to_string()),
        ],
    };
    let want = "# scenario: n\n# cell: a=1 b=2\n# status: Failed\n\
                # duration_ms: 340282366920938463463374607431768211455\n\n\
                ## terminal output\nhello\n\n## assertions\n[PASS] one\n[FAIL] two -- why\n";
    assert_eq!(log_body(&identity, "hello", &report, None), want);
    assert_eq!(
        masked_log_body(&identity, "hello", &report, None, &["hell".to_string()]),
        want.replace("hello", "***o")
    );
}

#[test]
fn session_output_shows_every_session() {
    assert_eq!(session_output(&[]), "(no process spawned)");
    assert_eq!(session_output(&["one".to_string()]), "one");
    assert_eq!(
        session_output(&["one".to_string(), "two".to_string()]),
        "--- session 1 ---\none\n--- session 2 ---\ntwo"
    );
}

#[test]
fn a_status_passes_only_with_every_row() {
    assert_eq!(status_of(&[]), Status::Passed);
    let rows = [
        AssertionResult::pass("a"),
        AssertionResult::fail("b", String::new()),
    ];
    assert_eq!(status_of(&rows[..1]), Status::Passed);
    assert_eq!(status_of(&rows), Status::Failed);
}

#[test]
fn a_second_writer_of_the_same_identity_is_excluded_while_the_lock_is_held() {
    let mut logs = Logs::new();
    let mine = record("same", "tok");
    assert!(
        logs.acquire("x.log", &mine),
        "first writer must acquire"
    );
    assert!(
        !logs.acquire("x.log", &mine),
        "a second writer of the SAME identity must be excluded while the lock is held"
    );
    assert!(!logs.acquire("x.log", &record("other", "tok")));
    assert_eq!(logs.body(".x.log.claim"), mine.encode());
    assert_eq!(logs.modes[".x.log.claim"], 0o600);
    logs.release("x.log");
    assert!(
        logs.acquire("x.log", &mine),
        "the name must be reusable once the lock is released"
    );
}

#[test]
fn a_run_takes_the_next_name_while_its_own_is_held() {
    let mut logs = Logs::new();
    let identity = LogIdentity::new("s");
    logs.run(&identity, "first", &[]);
    logs.locked.insert(".s.log.claim".to_string());
    logs.forget();
    logs.run(&identity, "second", &[]);
    assert_eq!(logs.names(), vec!["s.2.log", "s.log"]);
    assert!(logs.body("s.log").contains("first"));
    logs.locked.clear();
    logs.forget();
    logs.run(&identity, "third", &[]);
    assert!(logs.body("s.log").contains("third"));
}

#[test]
fn what_is_asked_for_a_name_is_fixed() {
    let want = record("k", "t");
    let ask = |state| acquire_request(state, "x.log", &want);
    let sidecar = || ".x.log.claim".to_string();
    assert_eq!(
        ask(AcquireState::Probe),
        AcquireRequest::Probe { log: "x.log".into(), sidecar: sidecar() }
    );
    assert_eq!(
        ask(AcquireState::Create),
        AcquireRequest::Create { sidecar: sidecar(), mode: 0o600 }
    );
    assert_eq!(
        ask(AcquireState::Reexamine),
        AcquireRequest::Examine { log: "x.log".into(), sidecar: sidecar() }
    );
    assert_eq!(
        ask(AcquireState::Restrict { created: false }),
        AcquireRequest::Restrict { mode: 0o600 }
    );
    assert_eq!(
        ask(AcquireState::Write),
        AcquireRequest::Write { sidecar: sidecar(), text: "t\n1\nk\n#end\n".into() }
    );
    assert_eq!(ask(AcquireState::Granted), AcquireRequest::Over { granted: true });
    assert_eq!(ask(AcquireState::Refused), AcquireRequest::Over { granted: false });
}

#[test]
fn without_locks_a_name_is_owned_but_not_excluded() {
    let mut logs = Logs::new();
    logs.platform = Windows;
    let mine = record("same", "tok");
    assert!(logs.acquire("x.log", &mine));
    assert!(logs.acquire("x.log", &mine));
    assert!(!logs.acquire("x.log", &record("other", "tok")));
    logs.files.insert("y.log".to_string(), b"theirs".to_vec());
    assert!(!logs.acquire("y.log", &mine), "a log without a sidecar is left alone");
    logs.files.insert(".y.log.claim".to_string(), b"garbage".to_vec());
    assert!(!logs.acquire("y.log", &mine), "a log with a broken sidecar is left alone");
    assert_eq!(
        try_acquire_unlocked(
            AcquireState::Write,
            &AcquireEvent::Failed(OsError::Other),
            &mine
        ),
        AcquireState::Refused
    );
}

#[test]
fn on_windows_the_logs_directory_is_used_by_its_path() {
    let mut logs = Logs::new();
    logs.platform = Windows;
    logs.anchored = false;
    logs.run(&LogIdentity::new("w").with_file(b"c:\\suites\\w.yaml", Windows), "out", &[]);
    assert_eq!(logs.names(), vec!["w.log"]);
    assert_eq!(logs_dir(b"C:\\base", Windows), b"C:\\base\\logs");
    assert_eq!(logs_dir(b"", Windows), b".\\logs");
    logs.symlink = true;
    let refused = logs.write(&LogIdentity::new("w"), "out", &demo_report(), None, &[]);
    assert_eq!(
        refused,
        Err(PittyError::Process("cannot create logs dir: Access is denied.".into()))
    );
}

#[test]
fn a_name_stays_bound_after_its_owner_finds_none() {
    let book = LogBook::new();
    let owner = LogIdentity::new("my/test");
    let other = LogIdentity::new("my_test");
    let book = book.note("d", &owner, Some("my_test.log"));
    let book = book.note("d", &owner, None);
    let search = book.resolve_log_path("d", &other, &[]);
    assert!(matches!(
        search.request(),
        SearchRequest::ReadClaim(name) if name == "my_test.2.log"
    ));
}

#[test]
fn an_empty_sidecar_from_an_interrupted_run_is_reclaimable() {
    let mut logs = Logs::new();
    logs.files.insert(".s.log.claim".to_string(), Vec::new());
    logs.run(&LogIdentity::new("s"), "out", &[]);
    assert_eq!(logs.names(), vec!["s.log"]);
}

#[test]
fn a_one_character_secret_inside_the_tag_does_not_break_reuse() {
    let mut logs = Logs::new();
    let identity = LogIdentity::new("claimed");
    let secrets: Vec<String> = "0123456789abcdef".chars().map(|c| c.to_string()).collect();
    for _ in 0..3 {
        logs.forget();
        logs.run(&identity, "out", &secrets);
    }
    assert_eq!(
        logs.names(),
        vec!["claimed.log"],
        "a secret colliding with the tag must not cause accumulation"
    );
}

#[test]
fn the_claim_tag_is_never_written_into_the_log_body() {
    let mut logs = Logs::new();
    let identity = LogIdentity::new("s");
    logs.run(&identity, "out", &[]);
    let body = logs.body("s.log");
    assert!(
        !body.contains(&identity.claim_key(&[])),
        "the tag must not appear in the masked body:\n{body}"
    );
    assert!(
        logs.claim_key("s.log").is_some(),
        "but it must be recorded in the sidecar"
    );
}

#[test]
fn dedup_keys_cannot_be_confused_by_separator_content() {
    let split = LogIdentity::new("b").with_file(b"a.yaml", Unix);
    let joined = LogIdentity::new("a\u{0}b");
    assert_ne!(split.dedup_key(), joined.dedup_key());
    assert_ne!(split.claim_key(&[]), joined.claim_key(&[]));
    assert_eq!(split.dedup_key(), "1:a4:yaml1:b");
}

#[test]
fn an_unbounded_identity_still_produces_a_readable_record() {
    let identity = LogIdentity::new(&"q".repeat(70_000));
    let record = ClaimRecord {
        key: identity.claim_key(&[]),
        token: "tok".to_string(),
    };
    let encoded = record.encode();
    assert!(
        encoded.len() <= MAX_CLAIM_BYTES,
        "the writer must never exceed what the reader accepts: {} > {}",
        encoded.len(),
        MAX_CLAIM_BYTES
    );
    assert_eq!(ClaimRecord::decode(&encoded).as_ref(), Some(&record));
}

#[test]
fn bounding_keeps_distinct_long_identities_distinct() {
    let a = LogIdentity::new(&format!("{}a", "q".repeat(70_000)));
    let b = LogIdentity::new(&format!("{}b", "q".repeat(70_000)));
    assert_ne!(a.claim_key(&[]), b.claim_key(&[]));
}

#[test]
fn the_filename_discriminator_is_deliberately_unkeyed() {
    let identity = LogIdentity::new("m")
        .with_file(b"m.yaml", Unix)
        .with_cell(coords(&[("word", "1234")]));
    assert_eq!(
        identity.name_discriminator(),
        fnv1a_hex(identity.dedup_key().as_bytes()),
        "the discriminator is a plain digest of the identity, by design"
    );
}

#[test]
fn the_discriminator_still_separates_identically_masked_cells() {
    let cell = |word: &str| {
        LogIdentity::new("m")
            .with_file(b"m.yaml", Unix)
            .with_cell(coords(&[("word", word)]))
    };
    assert_ne!(
        cell("alpha").name_discriminator(),
        cell("bravo").name_discriminator()
    );
}

#[test]
fn two_files_whose_stems_both_mask_keep_separate_logs() {
    let mut logs = Logs::new();
    let secrets = vec!["aaa".to_string(), "bbb".to_string()];
    for _ in 0..2 {
        logs.forget();
        for file in ["aaa.yaml", "bbb.yaml"] {
            let identity = LogIdentity::new("same").with_file(file.as_bytes(), Unix);
            logs.run(&identity, file, &secrets);
        }
        assert_eq!(logs.names().len(), 2, "{:?}", logs.names());
    }
}

#[test]
fn a_freed_preferred_name_does_not_orphan_the_log_we_own() {
    let mut logs = Logs::new();
    logs.files.insert("s.log".to_string(), b"foreign".to_vec());
    logs.run(&LogIdentity::new("s"), "one", &[]);
    assert_eq!(logs.names(), vec!["s.2.log", "s.log"]);
    logs.files.remove("s.log");
    logs.forget();
    logs.run(&LogIdentity::new("s"), "two", &[]);
    assert_eq!(logs.names(), vec!["s.2.log"]);
    assert!(logs.body("s.2.log").contains("two"));
}

#[test]
fn a_long_gap_does_not_orphan_the_log_we_own() {
    let mut logs = Logs::new();
    let identity = LogIdentity::new("s");
    logs.files.insert("s.500.log".to_string(), b"old".to_vec());
    let owned = record(&identity.claim_key(&[]), "00ff00ff00ff00ff");
    logs.files
        .insert(".s.500.log.claim".to_string(), owned.encode().into_bytes());
    logs.run(&identity, "new", &[]);
    assert_eq!(logs.names(), vec!["s.500.log"]);
    assert!(logs.body("s.500.log").contains("new"));
    match logs.claim("s.500.log") {
        ClaimRead::Record(kept) => assert_eq!(kept.token, "00ff00ff00ff00ff"),
        other => panic!("the record must stay: {other:?}"),
    }
}

#[test]
fn an_unreadable_sidecar_is_never_reclaimed() {
    let want = record("k", "t");
    assert!(!claim_is_reclaimable(&ClaimRead::Unreadable, &want, false));
    assert!(!claim_is_reclaimable(&ClaimRead::Unreadable, &want, true));
    let mut logs = Logs::new();
    logs.files.insert(".s.log.claim".to_string(), Vec::new());
    logs.unreadable.insert(".s.log.claim".to_string());
    logs.run(&LogIdentity::new("s"), "out", &[]);
    assert_eq!(logs.names(), vec!["s.2.log"]);
}

#[test]
fn a_malformed_sidecar_does_not_let_another_identity_take_the_log() {
    let mut logs = Logs::new();
    let a = LogIdentity::new("shared").with_file(b"a?.yaml", Unix);
    let b = LogIdentity::new("shared").with_file(b"a*.yaml", Unix);
    assert_eq!(
        a.stem(&[]),
        b.stem(&[]),
        "this test is only meaningful when the stems collide"
    );
    logs.forget();
    logs.run(&a, "FROM-A", &[]);
    let a_log = logs
        .names()
        .into_iter()
        .next()
        .expect("A must have written a log");
    logs.files.insert(format!(".{a_log}.claim"), Vec::new());
    logs.forget();
    logs.run(&b, "FROM-B", &[]);
    let preserved = logs.body(&a_log);
    assert!(
        preserved.contains("FROM-A"),
        "A's log must survive B's run:\n{preserved}"
    );
    let names = logs.names();
    assert_eq!(names.len(), 2, "B must write its own file: {names:?}");
}

#[test]
fn reclaiming_follows_the_record() {
    let want = record("k", "t");
    assert!(claim_is_reclaimable(&ClaimRead::Record(record("k", "t")), &want, true));
    assert!(!claim_is_reclaimable(&ClaimRead::Record(record("k", "u")), &want, true));
    assert!(!claim_is_reclaimable(&ClaimRead::Record(record("j", "t")), &want, false));
    assert!(claim_is_reclaimable(&ClaimRead::Malformed, &want, false));
    assert!(!claim_is_reclaimable(&ClaimRead::Malformed, &want, true));
    assert!(!claim_is_reclaimable(&ClaimRead::Absent, &want, false));
    assert!(claim_is_reusable_unlocked(&ClaimRead::Absent, &want, false));
    assert!(!claim_is_reusable_unlocked(&ClaimRead::Absent, &want, true));
    assert!(claim_is_reusable_unlocked(&ClaimRead::Record(record("k", "t")), &want, true));
    assert!(!claim_is_reusable_unlocked(&ClaimRead::Record(record("k", "u")), &want, false));
}

#[test]
fn a_name_is_refused_at_every_failed_call() {
    let want = record("k", "t");
    let done = AcquireEvent::Done;
    let failed = AcquireEvent::Failed(OsError::Other);
    for state in [
        AcquireState::Create,
        AcquireState::Open,
        AcquireState::Restrict { created: true },
        AcquireState::Lock { created: false },
        AcquireState::Write,
    ] {
        assert_eq!(try_acquire(state, &failed, &want), AcquireState::Refused);
    }
    assert_eq!(
        try_acquire(
            AcquireState::Probe,
            &AcquireEvent::Presence { log: true, sidecar: false },
            &want
        ),
        AcquireState::Refused
    );
    assert_eq!(
        try_acquire(AcquireState::Open, &AcquireEvent::Opened { links: 2 }, &want),
        AcquireState::Refused
    );
    assert_eq!(
        try_acquire(AcquireState::Lock { created: true }, &done, &want),
        AcquireState::Write
    );
    assert_eq!(
        try_acquire(AcquireState::Lock { created: false }, &done, &want),
        AcquireState::Reexamine
    );
    assert_eq!(
        try_acquire(
            AcquireState::Reexamine,
            &AcquireEvent::Claim {
                said: ClaimRead::Record(record("other", "x")),
                log_present: true
            },
            &want
        ),
        AcquireState::Refused
    );
}

#[test]
fn a_long_identity_records_a_complete_claim() {
    let identity = LogIdentity::new("m")
        .with_file(b"m.yaml", Unix)
        .with_cell(coords(&[("word", &"x".repeat(250))]));
    let record = ClaimRecord {
        key: identity.claim_key(&[]),
        token: "tok".to_string(),
    };
    let encoded = record.encode();
    assert!(
        encoded.len() > 256,
        "this test is only meaningful past the old cap: {}",
        encoded.len()
    );
    assert_eq!(
        ClaimRecord::decode(&encoded).as_ref(),
        Some(&record),
        "a complete record must round-trip however long it is"
    );
}

#[test]
fn a_truncated_claim_is_rejected_rather_than_mis_parsed() {
    let record = ClaimRecord {
        key: LogIdentity::new("m")
            .with_file(b"m.yaml", Unix)
            .with_cell(coords(&[("a", &"y".repeat(220)), ("b", "short")]))
            .claim_key(&[]),
        token: "tok".to_string(),
    };
    let encoded = record.encode();
    for cut in 1..encoded.len() {
        assert!(
            ClaimRecord::decode(&encoded[..cut]).is_none(),
            "a record truncated at {cut} must not parse"
        );
    }
}

#[test]
fn a_claim_reads_as_it_is_written() {
    assert_eq!(record("a\n#end\nb", "tok").encode(), "tok\n8\na\n#end\nb\n#end\n");
    assert_eq!(
        ClaimRecord::decode("tok\n8\na\n#end\nb\n#end\n"),
        Some(record("a\n#end\nb", "tok"))
    );
    assert_eq!(ClaimRecord::decode(" tok \n +3\t\nkey\n#end\n"), Some(record("key", "tok")));
    assert_eq!(ClaimRecord::decode("tok\n6\n値段\n#end\n"), Some(record("値段", "tok")));
    assert_eq!(ClaimRecord::decode("\u{3000}\n3\nkey\n#end\n"), None);
    assert_eq!(ClaimRecord::decode("tok\n4\nkey\n#end\n"), None);
    assert_eq!(ClaimRecord::decode("tok\n-3\nkey\n#end\n"), None);
    assert_eq!(ClaimRecord::decode("tok\n99999999999999999999999\nkey\n#end\n"), None);
    assert_eq!(ClaimRecord::decode("tok\n3\nkey#end\n"), None);
    assert_eq!(ClaimRecord::decode(""), None);
}

#[test]
fn a_sidecar_is_read_for_what_it_holds() {
    let written = record("key", &random_hex(&[1; CLAIM_TOKEN_BYTES]));
    let bytes = written.encode().into_bytes();
    assert_eq!(
        read_claim_state(&SidecarRead::Bytes(bytes)),
        ClaimRead::Record(written)
    );
    assert_eq!(read_claim_state(&SidecarRead::Absent), ClaimRead::Absent);
    assert_eq!(
        read_claim_state(&SidecarRead::Unreadable),
        ClaimRead::Unreadable
    );
    let long = vec![b'x'; MAX_CLAIM_BYTES + 1];
    assert_eq!(
        read_claim_state(&SidecarRead::Bytes(long)),
        ClaimRead::Malformed
    );
    assert_eq!(
        read_claim_state(&SidecarRead::Bytes(b"t\n3\n\xff\n#end\n".to_vec())),
        ClaimRead::Record(record("\u{fffd}", "t"))
    );
}

#[test]
fn a_long_identity_reuses_one_log_across_runs() {
    let mut logs = Logs::new();
    let identity = LogIdentity::new("m")
        .with_file(b"m.yaml", Unix)
        .with_cell(coords(&[("word", &"x".repeat(250))]));
    for _ in 0..3 {
        logs.forget();
        logs.run(&identity, "out", &[]);
    }
    let names = logs.names();
    assert_eq!(
        names.len(),
        1,
        "a long identity must reuse its log: {names:?}"
    );
}

#[test]
fn identically_masked_cells_are_interchangeable_across_processes() {
    let mut logs = Logs::new();
    let secrets = vec!["alpha".to_string(), "bravo".to_string()];
    let cell = |word: &str| {
        LogIdentity::new("m")
            .with_file(b"m.yaml", Unix)
            .with_cell(coords(&[("word", word)]))
    };
    assert_eq!(
        cell("alpha").claim_key(&secrets),
        cell("bravo").claim_key(&secrets),
        "identically-masked cells are indistinguishable on disk by design"
    );
    for word in ["alpha", "bravo"] {
        logs.run(&cell(word), word, &secrets);
    }
    let first = logs.names();
    assert_eq!(first.len(), 2, "they must not collide: {first:?}");

    logs.forget();
    for word in ["bravo", "alpha"] {
        logs.run(&cell(word), word, &secrets);
    }
    assert_eq!(
        logs.names(),
        first,
        "the set of logs must be stable across processes"
    );
}

#[test]
fn the_claim_record_is_not_recomputable_from_identity() {
    let secrets = vec!["1234".to_string()];
    let identity = LogIdentity::new("m")
        .with_file(b"m.yaml", Unix)
        .with_cell(coords(&[("word", "1234")]));
    let stored = identity.claim_key(&secrets);
    assert!(
        !stored.contains("1234"),
        "the stored claim must not contain the secret: {stored}"
    );
    let guess = |pin: &str| {
        LogIdentity::new("m")
            .with_file(b"m.yaml", Unix)
            .with_cell(coords(&[("word", pin)]))
            .claim_key(&[pin.to_string()])
    };
    assert_eq!(
        guess("1234"),
        guess("9999"),
        "brute-forcing candidates must not distinguish the real secret"
    );
}

#[test]
fn the_claim_tag_does_not_depend_on_secret_values() {
    let identity = LogIdentity::new("s");
    let with_pin = identity.claim_key(&[]);
    let with_other = identity.claim_key(&[]);
    assert_eq!(with_pin, with_other);

    let mut logs = Logs::new();
    logs.run(&identity, "out", &["1234".to_string()]);
    assert_eq!(
        logs.claim_key("s.log").as_deref(),
        Some(&*identity.claim_key(&[])),
        "the recorded tag must be the identity-only tag"
    );
}

#[test]
fn a_secret_equal_to_the_digest_still_allows_cross_process_reuse() {
    let mut logs = Logs::new();
    let identity = LogIdentity::new("s");
    let secrets = vec![identity.claim_key(&[]), "id".to_string()];
    for _ in 0..3 {
        logs.forget();
        logs.run(&identity, "out", &secrets);
    }
    assert_eq!(logs.names(), vec!["s.log"]);
}

#[test]
fn a_secret_in_a_matrix_axis_value_never_reaches_the_filename() {
    let mut logs = Logs::new();
    let identity = LogIdentity::new("m")
        .with_file(b"m.yaml", Unix)
        .with_cell(coords(&[("command", "prod")]));
    logs.run(&identity, "out", &["prod".to_string()]);
    let names = logs.names();
    assert!(
        !names.iter().any(|n| n.contains("prod")),
        "a secret must not reach the filename: {names:?}"
    );
    let tag = &identity.name_discriminator()[..8];
    assert_eq!(names, vec![format!("m.command-___-{tag}.log")]);
}

#[test]
fn a_secret_in_the_file_stem_never_reaches_the_filename() {
    let mut logs = Logs::new();
    let identity = LogIdentity::new("plain").with_file(b"prod-suite.yaml", Unix);
    logs.run(&identity, "out", &["prod".to_string()]);
    let names = logs.names();
    assert!(
        !names.iter().any(|n| n.contains("prod")),
        "a secret must not reach the filename: {names:?}"
    );
}

#[test]
fn cells_differing_only_inside_a_secret_keep_separate_logs() {
    let mut logs = Logs::new();
    let secrets = vec!["alpha".to_string(), "bravo".to_string()];
    for word in ["alpha", "bravo"] {
        let identity = LogIdentity::new("m")
            .with_file(b"m.yaml", Unix)
            .with_cell(coords(&[("word", word)]));
        logs.run(&identity, word, &secrets);
    }
    let names = logs.names();
    assert_eq!(names.len(), 2, "the two cells must not collide: {names:?}");
    assert!(!names
        .iter()
        .any(|n| n.contains("alpha") || n.contains("bravo")));
}

#[test]
fn a_filename_is_untouched_when_no_secret_is_involved() {
    let identity = LogIdentity::new("echo-flow").with_file(b"echo-flow.yaml", Unix);
    assert_eq!(identity.stem(&["unrelated".to_string()]), "echo-flow");
    assert!(!identity.masking_changed_the_stem(&["unrelated".to_string()]));
    assert!(identity.masking_changed_the_stem(&["flow".to_string()]));
}

#[test]
fn an_empty_base_dir_is_normalized_to_the_current_directory() {
    assert_eq!(normalize_base_dir(b""), b".");
    assert_eq!(normalize_base_dir(b"dir"), b"dir");
    assert_eq!(logs_dir(b"", Unix), b"./logs");
    assert_eq!(logs_dir(b"/a/", Unix), b"/a/logs");
}

#[test]
fn directories_are_known_by_their_numbers() {
    assert_eq!(identity_key(Some((12, 3)), b"/x", Unix), "12:3");
    assert_eq!(identity_key(None, b"/x", Unix), "/x");
}

#[test]
fn an_anchorless_run_refuses_to_log_rather_than_writing_unprotected() {
    let mut logs = Logs::new();
    logs.anchored = false;
    let err = logs
        .write(&LogIdentity::new("s"), "out", &demo_report(), None, &[])
        .unwrap_err();
    assert_eq!(err.exit_code(), 3);
    assert!(err.message().contains("skipping the log"), "{err:?}");
    assert!(logs.files.is_empty());
}

#[test]
fn a_symlinked_logs_directory_is_refused() {
    let mut logs = Logs::new();
    logs.symlink = true;
    let err = logs
        .write(&LogIdentity::new("s"), "out", &demo_report(), None, &[])
        .unwrap_err();
    assert_eq!(
        err.message(),
        "logs directory '/t/logs' is a symlink; refusing to write logs through it"
    );
    assert!(logs.files.is_empty());
}

#[test]
fn exhausting_every_candidate_name_reports_rather_than_overwrites() {
    let mut logs = Logs::new();
    logs.files.insert("s.log".to_string(), b"x".to_vec());
    for n in 2..=1000 {
        logs.files.insert(format!("s.{n}.log"), b"x".to_vec());
    }
    let before = logs.files.clone();
    let err = logs
        .write(&LogIdentity::new("s"), "out", &demo_report(), None, &[])
        .unwrap_err();
    assert_eq!(
        err.message(),
        "cannot find a free log name for 's': 1000 candidates are already taken or held by other runs"
    );
    assert_eq!(logs.files, before);
}

#[test]
fn a_log_write_failure_is_reported_rather_than_swallowed() {
    let mut logs = Logs::new();
    logs.full = true;
    let err = logs
        .write(&LogIdentity::new("s"), "out", &demo_report(), None, &[])
        .unwrap_err();
    assert_eq!(err.message(), "cannot write log: No space left on device");
}

#[test]
fn logs_dir_failures_say_what_failed() {
    let identity = LogIdentity::new("s");
    let book = LogBook::new();
    let made = open_log_dir(b"/t", true, Unix).write_log(
        failed(OsError::Other, "denied"),
        &book,
        &identity,
        &[],
    );
    match made.phase {
        WritePhase::Failed { error, .. } => {
            assert_eq!(error.message(), "cannot create logs dir '/t/logs': denied")
        }
        other => panic!("{other:?}"),
    }
    let opened = open_log_dir(b"/t", true, Unix)
        .write_log(failed(OsError::Exists, "File exists"), &book, &identity, &[])
        .write_log(failed(OsError::Other, "denied"), &book, &identity, &[]);
    match opened.phase {
        WritePhase::Failed { error, .. } => {
            assert_eq!(error.message(), "cannot open logs dir '/t/logs': denied")
        }
        other => panic!("{other:?}"),
    }
}

fn texts_of(list: &[&str]) -> Vec<String> {
    list.iter().map(|s| s.to_string()).collect()
}

#[test]
fn a_claim_survives_secret_masking() {
    let mut logs = Logs::new();
    let identity = LogIdentity::new("topsecret-name");
    let secrets = texts_of(&["topsecret"]);
    logs.run(&identity, "body", &secrets);
    let log_name = "topsecret-name.log";
    assert!(logs.body(log_name).contains("***"));
    assert_eq!(logs.claim_key(log_name), Some(identity.claim_key(&secrets)));
    assert!(!logs.claim_key(log_name).unwrap().contains("topsecret"));
}

#[test]
fn a_claimed_file_is_reused_even_by_a_fresh_process_view() {
    let mut logs = Logs::new();
    let identity = LogIdentity::new("rerun");
    logs.run(&identity, "first", &[]);
    logs.forget();
    logs.run(&identity, "second", &[]);
    assert_eq!(logs.names(), vec!["rerun.log"]);
    assert!(logs.body("rerun.log").contains("second"));
}

#[test]
fn two_yaml_and_yml_files_write_separate_logs() {
    let mut logs = Logs::new();
    for (file, body) in [("a.yaml", "AAA-yaml"), ("a.yml", "BBB-yml")] {
        let identity = LogIdentity::new("same").with_file(file.as_bytes(), Unix);
        logs.run(&identity, body, &[]);
    }
    assert_eq!(logs.names().len(), 2);
    assert!(logs.body("a.same.log").contains("AAA-yaml"));
}

#[test]
fn an_over_long_identity_actually_writes_its_log() {
    let mut logs = Logs::new();
    let identity = LogIdentity::new("m")
        .with_file(b"m.yaml", Unix)
        .with_cell(coords(&[("word", &"x".repeat(250))]));
    logs.run(&identity, "cell-output", &[]);
    let names = logs.names();
    assert_eq!(names.len(), 1);
    assert!(names[0].len() <= MAX_LOG_FILE_NAME);
    assert!(claim_sidecar_name(&names[0]).len() <= MAX_LOG_FILE_NAME);
    assert!(logs.body(&names[0]).contains("cell-output"));
}

#[test]
fn a_completed_run_is_still_logged_with_its_real_status() {
    let mut logs = Logs::new();
    logs.run(&LogIdentity::new("ok"), "out", &[]);
    let body = logs.body("ok.log");
    assert!(body.contains("# status: Passed"));
    assert!(!body.contains("# error:"));
}

#[test]
fn taking_a_log_name_is_atomic() {
    let mut logs = Logs::new();
    assert!(logs.acquire("x.log", &record("aaaa", "t1")));
    logs.release("x.log");
    assert!(!logs.acquire("x.log", &record("bbbb", "t2")));
}

#[test]
fn the_claim_lock_excludes_any_writer_of_the_same_log_name() {
    let mut logs = Logs::new();
    assert_eq!(claim_sidecar_name("x.log"), ".x.log.claim");
    assert!(logs.acquire("x.log", &record("mine", "t1")));
    assert!(!logs.acquire("x.log", &record("theirs", "t2")));
    assert!(!logs.acquire("x.log", &record("mine", "t1")));
    logs.release("x.log");
    assert!(logs.acquire("x.log", &record("mine", "t1")));
}

#[test]
fn a_stale_memo_entry_is_revalidated_against_the_current_directory() {
    let mut logs = Logs::new();
    let identity = LogIdentity::new("s");
    logs.run(&identity, "first", &[]);
    logs.files.clear();
    logs.files
        .insert("s.log".to_string(), b"someone else's log\n".to_vec());
    logs.run(&identity, "second", &[]);
    assert_eq!(logs.body("s.log"), "someone else's log\n");
    assert!(logs.body("s.2.log").contains("second"));
}

#[test]
fn a_hard_linked_sidecar_is_refused_rather_than_adopted() {
    let want = record("k", "t");
    let said = read_claim_state(&SidecarRead::Bytes(b"not a record".to_vec()));
    let examined = try_acquire(
        AcquireState::Examine,
        &AcquireEvent::Claim { said, log_present: false },
        &want,
    );
    assert_eq!(examined, AcquireState::Open);
    assert_eq!(
        try_acquire(examined, &AcquireEvent::Opened { links: 2 }, &want),
        AcquireState::Refused
    );
    assert_eq!(
        try_acquire(examined, &AcquireEvent::Opened { links: 1 }, &want),
        AcquireState::Restrict { created: false }
    );
}

#[test]
fn a_malformed_sidecar_is_still_distinguished_from_an_unreadable_one() {
    let said = read_claim_state(&SidecarRead::Bytes(b"half-written".to_vec()));
    assert_eq!(said, ClaimRead::Malformed);
    assert_eq!(read_claim_state(&SidecarRead::Unreadable), ClaimRead::Unreadable);
    let mine = record("mine", "tok");
    assert!(claim_is_reclaimable(&said, &mine, false));
    assert!(!claim_is_reclaimable(&said, &mine, true));
    assert!(!claim_is_reclaimable(&ClaimRead::Unreadable, &mine, false));
}

#[test]
fn an_interrupted_rewrite_leaves_the_existing_log_alone() {
    let mut logs = Logs::new();
    let identity = LogIdentity::new("s");
    logs.run(&identity, "first", &[]);
    for partial in ["tok", "", "tok\n5\nab"] {
        logs.files
            .insert(".s.log.claim".to_string(), partial.as_bytes().to_vec());
        logs.forget();
        logs.run(&identity, "later", &[]);
        assert!(logs.body("s.log").contains("first"));
        assert!(logs.names().len() > 1);
        logs.files
            .retain(|name, _| name == "s.log" || name == ".s.log.claim");
    }
}

#[test]
fn a_log_with_no_sidecar_at_all_is_still_left_alone() {
    let mut logs = Logs::new();
    logs.files.insert("s.log".to_string(), b"LEGACY\n".to_vec());
    logs.run(&LogIdentity::new("s"), "mine", &[]);
    assert_eq!(logs.body("s.log"), "LEGACY\n");
    assert!(logs.names().contains(&"s.2.log".to_string()));
}

#[test]
fn residue_from_an_interrupted_run_never_blocks_a_later_one() {
    let mut logs = Logs::new();
    for residue in ["", "garbage", "tok\n"] {
        logs.files
            .insert(".s.log.claim".to_string(), residue.as_bytes().to_vec());
        logs.forget();
        logs.run(&LogIdentity::new("s"), "out", &[]);
        assert_eq!(logs.names(), vec!["s.log"]);
        logs.files.remove("s.log");
    }
}

#[test]
fn one_directory_reached_two_ways_shares_its_bookkeeping() {
    assert_eq!(
        identity_key(Some((3, 4)), b"/real/logs", Unix),
        identity_key(Some((3, 4)), b"/alias/logs", Unix)
    );
    assert_ne!(
        identity_key(Some((3, 4)), b"/real/logs", Unix),
        identity_key(Some((34, 0)), b"/real/logs", Unix)
    );
}

#[test]
fn a_failed_write_keeps_a_sidecar_this_run_did_not_create() {
    let mut logs = Logs::new();
    let identity = LogIdentity::new("s");
    logs.run(&identity, "first", &[]);
    let before = logs.files[".s.log.claim"].clone();
    logs.forget();
    logs.full = true;
    let written = logs.write(&identity, "second", &demo_report(), None, &[]);
    assert!(written.is_err());
    assert_eq!(logs.files[".s.log.claim"], before);
}

#[test]
fn a_colliding_identity_still_suffixes_past_a_claimed_file() {
    let mut logs = Logs::new();
    logs.run(&LogIdentity::new("my/test"), "first", &[]);
    logs.forget();
    logs.run(&LogIdentity::new("my_test"), "second", &[]);
    assert_eq!(logs.names(), vec!["my_test.2.log", "my_test.log"]);
    assert!(logs.body("my_test.log").contains("first"));
}

#[test]
fn write_log_masks_secrets_and_sets_mode() {
    let mut logs = Logs::new();
    let report = Report {
        scenario: "sec".into(),
        status: Status::Passed,
        duration_ms: 1,
        assertions: vec![AssertionResult::pass("step")],
    };
    logs.write(
        &LogIdentity::new("sec"),
        "token=supersecret done",
        &report,
        None,
        &texts_of(&["supersecret"]),
    )
    .unwrap();
    assert_eq!(logs.modes["sec.log"], 0o600);
    assert_eq!(logs.modes["logs"], 0o700);
    let log = logs.body("sec.log");
    assert!(log.contains("token=***"));
    assert!(!log.contains("supersecret"));
}

#[test]
fn a_name_without_a_secret_reads_as_if_there_were_none() {
    let identity = LogIdentity::new("m")
        .with_file(b"m.yml", Unix)
        .with_cell(coords(&[("word", "hi")]));
    let secrets = texts_of(&["absent", "name-only"]);
    assert_eq!(identity.stem(&secrets), identity.stem(&[]));
    assert_eq!(identity.stem(&secrets), "m-yml.m.word-hi");
}

#[test]
fn a_file_name_shows_no_secret() {
    let identity = LogIdentity::new("m")
        .with_file(b"hunter2.yaml", Unix)
        .with_cell(coords(&[("word", "hunter2")]));
    let stem = identity.stem(&texts_of(&["hunter2"]));
    assert!(!stem.contains("hunter2"));
    assert!(stem.starts_with("___.m.word-___-"));
    // What sanitizing writes can spell a secret that holds a `_`.
    let spelled = LogIdentity::new("m").with_file(b"a+b.yaml", Unix);
    assert_eq!(spelled.stem(&texts_of(&["a_b"])), "a_b.m");
}

#[test]
fn a_found_log_is_never_another_identitys() {
    let mut logs = Logs::new();
    let secrets = texts_of(&["111", "222"]);
    let one = LogIdentity::new("m").with_cell(coords(&[("pin", "111")]));
    let two = LogIdentity::new("m").with_cell(coords(&[("pin", "222")]));
    assert_eq!(one.claim_key(&secrets), two.claim_key(&secrets));
    logs.run(&one, "ONE", &secrets);
    logs.run(&two, "TWO", &secrets);
    logs.run(&one, "ONE AGAIN", &secrets);
    assert_eq!(logs.names().len(), 2);
    let bodies: Vec<String> = logs.names().iter().map(|n| logs.body(n)).collect();
    assert!(bodies.iter().any(|b| b.contains("ONE AGAIN")));
    assert!(bodies.iter().any(|b| b.contains("TWO")));
}

#[test]
fn a_search_asks_for_one_name_after_the_other() {
    let book = LogBook::new();
    let identity = LogIdentity::new("s");
    let mut search = book.resolve_log_path("1:2", &identity, &[]);
    let key = identity.claim_key(&[]);
    for n in 1..=1000 {
        let name = if n == 1 { "s.log".to_string() } else { format!("s.{n}.log") };
        assert_eq!(search.request(), SearchRequest::ReadClaim(name));
        search = search.advance(SearchReply::Claim(ClaimRead::Absent));
    }
    assert_eq!(
        search.request(),
        SearchRequest::AcquireFresh("s.log".to_string(), key.clone())
    );
    search = search.advance(SearchReply::Acquired(false));
    assert_eq!(
        search.request(),
        SearchRequest::AcquireFresh("s.2.log".to_string(), key)
    );
    search = search.advance(SearchReply::Acquired(true));
    assert_eq!(search.request(), SearchRequest::Found("s.2.log".to_string()));
}

#[test]
fn every_log_of_a_process_is_named_after_its_stem() {
    let mut logs = Logs::new();
    let list = ["my/test", "my_test", "my test", "other", "my/test"];
    for (i, name) in list.iter().enumerate() {
        logs.run(&LogIdentity::new(name), &format!("run-{i}"), &[]);
    }
    assert_eq!(
        logs.names(),
        vec!["my_test.2.log", "my_test.3.log", "my_test.log", "other.log"]
    );
    assert!(logs.body("my_test.log").contains("run-4"));
    assert!(logs.body("my_test.2.log").contains("run-1"));
    assert!(logs.body("my_test.3.log").contains("run-2"));
}

#[test]
fn copies_are_equal_to_what_they_copy() {
    let identity = LogIdentity::new("m")
        .with_file(b"a.yml", Unix)
        .with_cell(coords(&[("b", "2"), ("a", "1")]));
    let copy = identity.clone();
    assert_eq!(format!("{copy:?}"), format!("{identity:?}"));
    assert_eq!(copy.dedup_key(), identity.dedup_key());
    let report = Report {
        scenario: "demo".into(),
        status: Status::Failed,
        duration_ms: 7,
        assertions: vec![
            AssertionResult::pass("one"),
            AssertionResult::fail("two", "why".to_string()),
        ],
    };
    assert_eq!(report.clone(), report);
    assert_eq!(record("k", "t").clone(), record("k", "t"));
}

#[test]
fn a_windows_directory_without_numbers_is_known_by_its_path() {
    assert_eq!(
        identity_key(None, b"C:\\\xED\xA0\x80\\logs", Windows),
        "C:\\\u{FFFD}\\logs"
    );
}
