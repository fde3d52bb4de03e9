use pitty::error::{mask_error, PittyError};
use pitty::json::{
    judge_json, read_json_from_file, read_text_from_file, tail_start, wait_for_tail_json, Poll,
    TAIL_JSON_WINDOW,
};
use pitty::path::Platform::{Unix, Windows};
use pitty::report::{mask_report, AssertionResult, Report, Status};
use pitty::resolve::SnapshotAccess;
use pitty::runner::{
    execute_step, finish_run, pass_fail, prime_snapshots, run_scenario, snapshot_result, Action,
    Move, Reply, Run, RunOptions, StepState, DEFAULT_EXPECT_TIMEOUT,
};
use pitty::scenario::{JsonCheck, Scenario, Source, Step, StepKind, Variable, WorkspaceSpec};
use pitty::string_map::StringMap;
use pitty::workspace::{Site, SnapshotTarget, Workspace};

fn scenario(name: &str, steps: Vec<StepKind>) -> Scenario {
    Scenario {
        name: name.to_string(),
        workspace: WorkspaceSpec { temp: false, cwd: ".".to_string() },
        variables: Vec::new(),
        env: Vec::new(),
        steps: steps
            .into_iter()
            .enumerate()
            .map(|(i, kind)| Step { label: format!("step {i}"), kind })
            .collect(),
    }
}

fn workspace(scenario: &Scenario) -> Workspace {
    let site = Site::Directory {
        cwd: b"/t".to_vec(),
        canonical: Some(b"/t".to_vec()),
        opened: Ok(Some((1, 2))),
    };
    Workspace::prepare(scenario, StringMap::new(), site, Unix).unwrap()
}

fn drive(
    scenario: &Scenario,
    options: &RunOptions,
    mut reply: impl FnMut(&Action) -> Reply,
) -> Result<Report, PittyError> {
    let ws = workspace(scenario);
    let mut run = Run::start(scenario, &ws, options);
    loop {
        let answer = match run.action() {
            Some(action) => reply(action),
            None => return finish_run(scenario, &ws, run, 5).into_result(),
        };
        run = run_scenario(scenario, &ws, options, run, answer);
    }
}

fn never(action: &Action) -> Reply {
    panic!("nothing may be asked for: {action:?}")
}

fn verdict(passed: bool) -> Reply {
    Reply::Verdict { passed, message: None }
}

fn spawn() -> StepKind {
    StepKind::Spawn { command: "true".to_string(), cwd: None, env: Vec::new() }
}

fn file_exists(path: &str) -> StepKind {
    StepKind::ExpectFileExists { path: path.to_string() }
}

#[test]
fn missing_spawn_is_scenario_error() {
    let s = scenario("x", vec![StepKind::Send("hello".to_string())]);
    let err = drive(&s, &RunOptions::default(), never).unwrap_err();
    assert_eq!(err.exit_code(), 2);
    assert_eq!(err.message(), "step requires a prior 'spawn'");
}

#[test]
fn file_only_scenario_reports_assertions_without_spawn() {
    let s = scenario(
        "files",
        vec![
            file_exists("result.txt"),
            StepKind::ExpectFileContains {
                path: "result.txt".to_string(),
                contains: "success".to_string(),
            },
        ],
    );
    let report = drive(&s, &RunOptions::default(), |action| match action {
        Action::FileExists(path) => verdict(path == b"/t/result.txt"),
        Action::FileContains(path, text) => {
            verdict(path == b"/t/result.txt" && text == "success")
        }
        other => never(other),
    })
    .unwrap();
    assert_eq!(report.status, Status::Passed);
    assert_eq!(report.assertions.len(), 2);
    assert!(report.assertions.iter().all(|a| a.passed));
}

#[test]
fn expect_file_changed_without_spawn_is_scenario_error() {
    let s = scenario(
        "no-spawn-changed",
        vec![StepKind::ExpectFileChanged { path: "kept.txt".to_string() }],
    );
    let err = drive(&s, &RunOptions::default(), never).unwrap_err();
    assert_eq!(err.exit_code(), 2);
    assert_eq!(
        err.message(),
        "expect_file_changed for kept.txt has no baseline: it must appear after a 'spawn' so the file can be snapshotted at spawn time"
    );
}

#[test]
fn expect_file_changed_before_spawn_is_scenario_error() {
    let s = scenario(
        "changed-before-spawn",
        vec![
            StepKind::ExpectFileChanged { path: "kept.txt".to_string() },
            spawn(),
        ],
    );
    let err = drive(&s, &RunOptions::default(), never).unwrap_err();
    assert_eq!(err.exit_code(), 2);
}

#[test]
fn expect_file_changed_after_spawn_uses_its_baseline() {
    let s = scenario(
        "changed",
        vec![
            spawn(),
            StepKind::ExpectFileChanged { path: "kept.txt".to_string() },
        ],
    );
    assert_eq!(prime_snapshots(&s, &workspace(&s)), vec![b"/t/kept.txt".to_vec()]);
    let report = drive(&s, &RunOptions::default(), |action| match action {
        Action::Spawn { command, cwd, env, baselines } => {
            assert_eq!(command, "true");
            assert_eq!(cwd, b"/t");
            assert!(env.is_empty());
            assert_eq!(baselines, &vec![b"/t/kept.txt".to_vec()]);
            Reply::Done
        }
        Action::FileChanged(path) => verdict(path == b"/t/kept.txt"),
        other => never(other),
    })
    .unwrap();
    assert_eq!(report.status, Status::Passed);
}

#[test]
fn mask_report_redacts_secrets_in_assertion_messages_and_name() {
    let mut report = Report {
        scenario: "leak-supersecret".into(),
        status: Status::Failed,
        duration_ms: 0,
        assertions: vec![
            AssertionResult::fail(
                "expect: x",
                "timed out; last output: \"token=supersecret\"".to_string(),
            ),
            AssertionResult::pass("expect: y"),
        ],
    };
    mask_report(&mut report, &["supersecret".to_string()]);
    let json = format!("{report:?}");
    assert!(!json.contains("supersecret"), "raw secret leaked: {json}");
    assert!(json.contains("***"));
    assert!(json.contains("leak-***"));
    assert_eq!(report.status, Status::Failed);
    assert_eq!(report.assertions[1], AssertionResult::pass("expect: y"));
}

fn expect_json(source: Source, invalid_reason: Option<&str>) -> StepKind {
    StepKind::ExpectJson {
        path: "a".to_string(),
        check: JsonCheck::Equals("1".to_string()),
        source,
        timeout: None,
        invalid_reason: invalid_reason.map(str::to_string),
    }
}

#[test]
fn expect_json_unknown_source_is_scenario_error() {
    let s = scenario("x", vec![expect_json(Source::Invalid("outpt".to_string()), None)]);
    let err = drive(&s, &RunOptions::default(), never).unwrap_err();
    assert_eq!(err.exit_code(), 2);
    assert_eq!(
        err.message(),
        "unknown source 'outpt'; use 'output' (the default) or '{file: <path>}'"
    );
}

#[test]
fn expect_json_invalid_check_is_scenario_error() {
    let s = scenario("x", vec![expect_json(Source::Output, Some("exactly one check"))]);
    let err = drive(&s, &RunOptions::default(), never).unwrap_err();
    assert_eq!(err.exit_code(), 2);
    assert_eq!(err.message(), "expect_json 'a': exactly one check");
}

#[test]
fn expect_json_from_file_evaluates_without_spawn() {
    let step = StepKind::ExpectJson {
        path: "status".to_string(),
        check: JsonCheck::Equals("\"ok\"".to_string()),
        source: Source::File("report.json".to_string()),
        timeout: None,
        invalid_reason: None,
    };
    let s = scenario("x", vec![step]);
    let report = drive(&s, &RunOptions::default(), |action| match action {
        Action::ReadFile(path) => {
            assert_eq!(path, b"/t/report.json");
            Reply::Text(Ok("{\"status\": \"ok\"}".to_string()))
        }
        Action::EvaluateJson { text, path, check: JsonCheck::Equals(expected) } => {
            let value: serde_json::Value = serde_json::from_str(text).unwrap();
            let expected: serde_json::Value = serde_json::from_str(expected).unwrap();
            verdict(path == "status" && value[path] == expected)
        }
        other => never(other),
    })
    .unwrap();
    assert_eq!(report.status, Status::Passed);
}

#[test]
fn a_file_that_is_not_json_fails_the_row_with_the_reason() {
    let s = scenario("x", vec![expect_json(Source::File("r.json".to_string()), None)]);
    let report = drive(&s, &RunOptions::default(), |_| Reply::Text(Ok("{\"a\":".to_string()))).unwrap();
    let message = report.assertions[0].message.clone().unwrap();
    assert_eq!(
        message,
        "file /t/r.json is not valid JSON: EOF while parsing a value at line 1 column 5"
    );
    let report = drive(&s, &RunOptions::default(), |_| Reply::Text(Err("gone".to_string()))).unwrap();
    assert_eq!(
        report.assertions[0],
        AssertionResult::fail("step 0", "cannot read /t/r.json: gone".to_string())
    );
}

#[test]
fn json_reading_keeps_the_text_or_says_why_not() {
    assert_eq!(
        read_json_from_file(b"/f", Ok("[1]".to_string()), Unix),
        Ok("[1]".to_string())
    );
    assert!(read_json_from_file(b"/f", Ok("[1] 2".to_string()), Unix).is_err());
    assert_eq!(
        judge_json(b"/f", "x".to_string(), Some("bad".to_string()), Unix),
        Err("file /f is not valid JSON: bad".to_string())
    );
    assert_eq!(
        judge_json(b"/f", "x".to_string(), None, Unix),
        Ok("x".to_string())
    );
    assert_eq!(
        read_text_from_file(b"/f", Err("no".to_string()), Unix),
        Err("cannot read /f: no".to_string())
    );
    assert_eq!(
        read_text_from_file(b"C:\\\xED\xA0\x80", Err("no".to_string()), Windows),
        Err("cannot read C:\\\u{FFFD}: no".to_string())
    );
}

/// Poll a buffer that does not change, on a clock that only sleeping moves.
fn poll_tail(buffer: &[u8], timeout: u64) -> (Option<serde_json::Value>, u64) {
    let mut now: u64 = 0;
    loop {
        let tail = &buffer[tail_start(buffer.len())..];
        let text = String::from_utf8_lossy(tail).into_owned();
        let found = text
            .rfind('{')
            .and_then(|at| serde_json::from_str::<serde_json::Value>(text[at..].trim_end()).ok());
        match wait_for_tail_json(found.is_some(), now, timeout) {
            Poll::Found => return (found, now),
            Poll::TimedOut => return (None, now),
            Poll::Sleep(time) => now += time,
        }
    }
}

#[test]
fn wait_for_tail_json_extracts_from_large_buffer() {
    let mut buffer = vec![b'.'; 5 * 1024 * 1024];
    buffer.extend_from_slice(b"\nLOG: done\n{\"status\": \"ok\", \"n\": 7}\n");
    let value = poll_tail(&buffer, 1000).0.expect("should extract");
    let want: serde_json::Value = serde_json::from_str("{\"status\": \"ok\", \"n\": 7}").unwrap();
    assert_eq!(value, want);
}

#[test]
fn wait_for_tail_json_drops_block_pushed_beyond_window() {
    let mut buffer = b"{\"status\": \"ok\"}\n".to_vec();
    buffer.extend(vec![b'.'; TAIL_JSON_WINDOW + 1024]);
    let value = poll_tail(&buffer, 50).0;
    assert!(
        value.is_none(),
        "a JSON block shoved past the tail window must not be extracted"
    );
}

#[test]
fn wait_for_tail_json_times_out_without_json() {
    let (value, now) = poll_tail(b"just plain log lines, no json here\n", 30);
    assert!(value.is_none());
    assert_eq!(now, 30);
}

#[test]
fn no_poll_sleeps_past_its_deadline() {
    assert_eq!(wait_for_tail_json(false, 0, 100), Poll::Sleep(20));
    assert_eq!(wait_for_tail_json(false, 95, 100), Poll::Sleep(5));
    assert_eq!(wait_for_tail_json(false, 100, 100), Poll::TimedOut);
    assert_eq!(wait_for_tail_json(true, 200, 100), Poll::Found);
    assert_eq!(tail_start(10), 0);
    assert_eq!(tail_start(TAIL_JSON_WINDOW + 3), 3);
}

#[test]
fn expect_json_from_output_waits_for_a_document() {
    let s = scenario("x", vec![spawn(), expect_json(Source::Output, None)]);
    let report = drive(&s, &RunOptions::default(), |action| match action {
        Action::Spawn { .. } => Reply::Done,
        Action::WaitTailJson(timeout) => {
            assert_eq!(*timeout, DEFAULT_EXPECT_TIMEOUT);
            Reply::TailJson(None)
        }
        other => never(other),
    })
    .unwrap();
    assert_eq!(
        report.assertions[0],
        AssertionResult::fail(
            "step 1",
            "no valid JSON block found in output before timeout".to_string()
        )
    );
}

#[test]
fn expect_semantic_out_of_range_similarity_is_scenario_error() {
    for similarity in ["1.5", "-0.1"] {
        let value: f64 = similarity.parse().unwrap();
        let s = scenario(
            "x",
            vec![StepKind::ExpectSemantic {
                text: "hi".to_string(),
                similarity: similarity.to_string(),
                in_range: (0.0..=1.0).contains(&value),
                source: Source::File("out.txt".to_string()),
            }],
        );
        let err = drive(&s, &RunOptions::default(), never).unwrap_err();
        assert_eq!(err.exit_code(), 2);
        assert_eq!(
            err.message(),
            format!(
                "expect_semantic similarity {similarity} is out of range; it must be within 0.0..=1.0"
            )
        );
    }
}

#[test]
fn expect_semantic_scores_the_text_of_its_source() {
    let semantic = |source| StepKind::ExpectSemantic {
        text: "hi".to_string(),
        similarity: "0.5".to_string(),
        in_range: true,
        source,
    };
    let s = scenario(
        "x",
        vec![
            semantic(Source::File("out.txt".to_string())),
            spawn(),
            semantic(Source::Output),
            semantic(Source::File("gone.txt".to_string())),
        ],
    );
    let report = drive(&s, &RunOptions::default(), |action| match action {
        Action::ReadFile(path) if path == b"/t/out.txt" => Reply::Text(Ok("hi there".to_string())),
        Action::ReadFile(_) => Reply::Text(Err("missing".to_string())),
        Action::ScoreText { output, text, similarity } => {
            verdict(output == "hi there" && text == "hi" && similarity == "0.5")
        }
        Action::ScoreOutput { text, similarity } => verdict(text == "hi" && similarity == "0.5"),
        Action::Spawn { .. } => Reply::Done,
        other => never(other),
    })
    .unwrap();
    let passed: Vec<bool> = report.assertions.iter().map(|a| a.passed).collect();
    assert_eq!(passed, vec![true, true, false]);
    assert_eq!(
        report.assertions[2].message.as_deref(),
        Some("cannot read /t/gone.txt: missing")
    );
}

fn snapshot(file: &str) -> StepKind {
    StepKind::ExpectSnapshot { file: file.to_string(), raw: false }
}

#[test]
fn expect_snapshot_escape_path_is_scenario_error_and_writes_nothing() {
    let s = scenario("x", vec![spawn(), snapshot("../pitty-escape.snap")]);
    let options = RunOptions { update: true };
    let err = drive(&s, &options, |action| match action {
        Action::Spawn { .. } => Reply::Done,
        Action::ResolveSnapshot { file, access } => {
            assert_eq!(file, "../pitty-escape.snap");
            assert_eq!(*access, SnapshotAccess::Record);
            Reply::Resolved(Err(PittyError::Scenario("escapes".to_string())))
        }
        other => never(other),
    })
    .unwrap_err();
    assert_eq!(err.exit_code(), 2);
}

#[test]
fn expect_snapshot_in_workspace_subdir_records_under_update() {
    let s = scenario("x", vec![spawn(), snapshot("__snapshots__/x.snap")]);
    let options = RunOptions { update: true };
    let report = drive(&s, &options, |action| match action {
        Action::Spawn { .. } => Reply::Done,
        Action::ResolveSnapshot { file, .. } => {
            Reply::Resolved(Ok(Ok(SnapshotTarget::for_test(b"/t", file.as_bytes(), Unix))))
        }
        Action::CompareSnapshot { target, raw, update } => {
            assert_eq!(target.display_path(), b"/t/__snapshots__/x.snap");
            assert!(!raw && *update);
            Reply::Verdict { passed: true, message: Some("recorded".to_string()) }
        }
        other => never(other),
    })
    .unwrap();
    assert_eq!(report.status, Status::Passed);
    assert_eq!(report.assertions[0].message.as_deref(), Some("recorded"));
}

#[test]
fn failing_file_assertion_marks_failed() {
    let s = scenario("files", vec![file_exists("nope.txt"), file_exists("yes.txt")]);
    let report = drive(&s, &RunOptions::default(), |action| match action {
        Action::FileExists(path) => Reply::Verdict {
            passed: path == b"/t/yes.txt",
            message: Some("file does not exist".to_string()),
        },
        other => never(other),
    })
    .unwrap();
    assert_eq!(report.status, Status::Failed);
    assert!(!report.assertions[0].passed);
    assert_eq!(
        report.assertions[1],
        AssertionResult::pass("step 1"),
        "a failed check must not stop the run"
    );
}

#[test]
fn a_fault_stops_the_run_and_is_masked() {
    let mut s = scenario("x", vec![spawn(), file_exists("never.txt")]);
    s.variables = vec![(
        "token".to_string(),
        Variable { value: "hunter2".to_string(), secret: true },
    )];
    let err = drive(&s, &RunOptions::default(), |action| match action {
        Action::Spawn { .. } => Reply::Fault(PittyError::Process("no pty for hunter2".to_string())),
        other => never(other),
    })
    .unwrap_err();
    assert_eq!(err, PittyError::Process("no pty for ***".to_string()));
}

#[test]
fn a_pattern_is_looked_at_before_a_process_is_asked_for() {
    let s = scenario(
        "x",
        vec![StepKind::ExpectRegex { pattern: "(".to_string(), timeout: None }],
    );
    let bad = drive(&s, &RunOptions::default(), |action| match action {
        Action::CompilePattern(p) if p == "(" => {
            Reply::Pattern(Err("unclosed group".to_string()))
        }
        other => never(other),
    })
    .unwrap_err();
    assert_eq!(bad, PittyError::Scenario("unclosed group".to_string()));
    assert_eq!(bad.exit_code(), 2);
    let early = drive(&s, &RunOptions::default(), |_| Reply::Pattern(Ok(()))).unwrap_err();
    assert_eq!(early.message(), "step requires a prior 'spawn'");
}

#[test]
fn every_step_asks_for_its_action() {
    let mut s = scenario(
        "x",
        vec![
            StepKind::Spawn {
                command: "run ${who}".to_string(),
                cwd: Some("sub".to_string()),
                env: vec![("E".to_string(), "${who}!".to_string())],
            },
            StepKind::Send("hi ${who}".to_string()),
            StepKind::SendRaw("é".to_string()),
            StepKind::Key(vec![27]),
            StepKind::Wait(7),
            StepKind::Expect { contains: "a".to_string(), timeout: Some(9) },
            StepKind::ExpectRegex { pattern: "b".to_string(), timeout: None },
            StepKind::ExpectNot { contains: "c".to_string() },
            StepKind::ExpectFileNotContains { path: "f".to_string(), contains: "d".to_string() },
            StepKind::ExpectExit { code: 3, timeout: None },
            StepKind::ExpectExit { code: 4, timeout: Some(8) },
            StepKind::ExpectRunning(true),
        ],
    );
    s.variables = vec![(
        "who".to_string(),
        Variable { value: "bob".to_string(), secret: false },
    )];
    s.env = vec![("BASE".to_string(), "1".to_string())];
    let mut seen = Vec::new();
    let report = drive(&s, &RunOptions::default(), |action| {
        seen.push(format!("{action:?}"));
        match action {
            Action::Spawn { .. }
            | Action::SendLine(_)
            | Action::SendRaw(_)
            | Action::SendKey(_)
            | Action::Sleep(_) => Reply::Done,
            Action::CompilePattern(_) => Reply::Pattern(Ok(())),
            _ => verdict(true),
        }
    })
    .unwrap();
    assert_eq!(report.assertions.len(), 7);
    let want = vec![
        format!(
            "{:?}",
            Action::Spawn {
                command: "run bob".to_string(),
                cwd: b"/t/sub".to_vec(),
                env: vec![
                    ("BASE".to_string(), "1".to_string()),
                    ("E".to_string(), "bob!".to_string())
                ],
                baselines: Vec::new(),
            }
        ),
        format!("{:?}", Action::SendLine("hi bob".to_string())),
        format!("{:?}", Action::SendRaw("é".as_bytes().to_vec())),
        format!("{:?}", Action::SendKey(vec![27])),
        format!("{:?}", Action::Sleep(7)),
        format!("{:?}", Action::WaitText { contains: "a".to_string(), timeout: 9 }),
        format!("{:?}", Action::CompilePattern("b".to_string())),
        format!("{:?}", Action::WaitPattern { pattern: "b".to_string(), timeout: 30000 }),
        format!("{:?}", Action::LacksText("c".to_string())),
        format!("{:?}", Action::FileLacks(b"/t/f".to_vec(), "d".to_string())),
        format!("{:?}", Action::PollExit(3)),
        format!("{:?}", Action::WaitExit { code: 4, timeout: 8 }),
        format!("{:?}", Action::PollRunning(true)),
    ];
    assert_eq!(seen, want);
}

#[test]
fn a_reply_that_does_not_answer_is_a_fault() {
    let s = scenario("x", vec![file_exists("f")]);
    let err = drive(&s, &RunOptions::default(), |_| Reply::Done).unwrap_err();
    assert_eq!(err.exit_code(), 3);
    let moved = execute_step(
        &s.steps[0],
        &workspace(&s),
        true,
        &RunOptions::default(),
        StepState::Acting,
        verdict(true),
    );
    assert_eq!(moved, Move::Row(AssertionResult::pass("step 0")));
}

#[test]
fn rows_of_checks_and_snapshots_differ_in_their_notes() {
    let note = || Some("note".to_string());
    assert_eq!(pass_fail("l", true, note()), AssertionResult::pass("l"));
    assert_eq!(
        pass_fail("l", false, None),
        AssertionResult::fail("l", String::new())
    );
    assert_eq!(snapshot_result("l", true, None), AssertionResult::pass("l"));
    assert_eq!(snapshot_result("l", true, note()).message, note());
    assert_eq!(
        snapshot_result("l", false, note()),
        AssertionResult::fail("l", "note".to_string())
    );
}

#[test]
fn masking_an_error_keeps_its_class() {
    let hide = ["s".to_string()];
    for (err, code) in [
        (PittyError::AssertionFailed("s".to_string()), 1),
        (PittyError::Scenario("s".to_string()), 2),
        (PittyError::Process("s".to_string()), 3),
    ] {
        let masked = mask_error(err, &hide);
        assert_eq!(masked.exit_code(), code);
        assert_eq!(masked.message(), "***");
    }
}

#[test]
fn every_json_check_is_handed_on() {
    for check in [
        JsonCheck::Equals("[1,2]".to_string()),
        JsonCheck::Contains("expired".to_string()),
        JsonCheck::Exists(true),
    ] {
        let step = StepKind::ExpectJson {
            path: "result".to_string(),
            check: check.copy(),
            source: Source::Output,
            timeout: Some(5000),
            invalid_reason: None,
        };
        let s = scenario("x", vec![spawn(), step]);
        let report = drive(&s, &RunOptions::default(), |action| match action {
            Action::Spawn { .. } => Reply::Done,
            Action::WaitTailJson(timeout) => {
                assert_eq!(*timeout, 5000);
                Reply::TailJson(Some("{}".to_string()))
            }
            Action::EvaluateJson { text, path, check: handed } => {
                assert_eq!((text.as_str(), path.as_str()), ("{}", "result"));
                verdict(*handed == check)
            }
            other => never(other),
        })
        .unwrap();
        assert_eq!(report.status, Status::Passed);
    }
}

#[test]
fn a_completed_run_has_one_row_per_expectation_in_order() {
    let s = scenario(
        "x",
        vec![
            file_exists("a"),
            StepKind::Wait(1),
            file_exists("b"),
            spawn(),
            StepKind::Send("line".to_string()),
            file_exists("c"),
        ],
    );
    let report = drive(&s, &RunOptions::default(), |action| match action {
        Action::FileExists(path) => verdict(path != b"/t/b"),
        _ => Reply::Done,
    })
    .unwrap();
    let rows: Vec<(&str, bool)> = report
        .assertions
        .iter()
        .map(|row| (row.step.as_str(), row.passed))
        .collect();
    assert_eq!(rows, vec![("step 0", true), ("step 2", false), ("step 5", true)]);
}

#[test]
fn every_step_that_reads_the_output_needs_a_spawn() {
    let regex = StepKind::ExpectRegex { pattern: "a+".to_string(), timeout: None };
    let semantic = StepKind::ExpectSemantic {
        text: "hi".to_string(),
        similarity: "0.5".to_string(),
        in_range: true,
        source: Source::Output,
    };
    for step in [regex, semantic, expect_json(Source::Output, None), snapshot("a.snap")] {
        let s = scenario("x", vec![step]);
        let err = drive(&s, &RunOptions::default(), |action| match action {
            Action::CompilePattern(_) => Reply::Pattern(Ok(())),
            other => never(other),
        })
        .unwrap_err();
        assert_eq!(err.exit_code(), 2);
        assert_eq!(err.message(), "step requires a prior 'spawn'");
    }
}

#[test]
fn a_fault_is_told_by_its_class() {
    assert_eq!(
        PittyError::Process("cannot parse spawn command".to_string()).text(),
        "process error: cannot parse spawn command"
    );
    assert_eq!(
        PittyError::Scenario("bad source".to_string()).text(),
        "scenario error: bad source"
    );
    assert_eq!(
        PittyError::AssertionFailed("no".to_string()).text(),
        "assertion failed: no"
    );
}
