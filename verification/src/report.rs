//! Run reports and the text of scenario logs.
use vstd::prelude::*;
use vstd::string::*;

use crate::identity::{copy_text, text_value, IdentityView, LogIdentity};
use crate::mask::{lemma_mask_removes_secrets, mask_secrets, masked, occurs, star_bound};
use crate::string_map::Pairs;
use crate::text::{decimal, decimal_text, texts};

verus! {

/// Overall status of a completed scenario run.
///
/// There are only two: a run that a fault stopped has no status, its fault has an
/// exit code.
#[derive(Debug, Clone, Copy, PartialEq, Eq, Structural)]
pub enum Status {
    /// All assertions passed.
    Passed,
    /// At least one assertion failed.
    Failed,
}

/// The exit code of a status.
pub open spec fn status_code(status: Status) -> u8 {
    match status {
        Status::Passed => 0,
        Status::Failed => 1,
    }
}

/// Map a completed run's [`Status`] to its process exit code.
pub fn status_exit_code(status: Status) -> (r: u8)
    ensures
        r == status_code(status),
{
    match status {
        Status::Passed => 0,
        Status::Failed => 1,
    }
}

/// The word for a verdict.
pub open spec fn verdict(passed: bool) -> Seq<char> {
    if passed {
        "PASS"@
    } else {
        "FAIL"@
    }
}

/// The human-facing PASS/FAIL verdict for a pass/fail boolean.
pub fn verdict_label(passed: bool) -> (r: &'static str)
    ensures
        r@ == verdict(passed),
{
    if passed {
        "PASS"
    } else {
        "FAIL"
    }
}

/// The PASS/FAIL verdict for a completed [`Status`].
pub fn status_verdict_label(status: Status) -> (r: &'static str)
    ensures
        r@ == verdict(status is Passed),
{
    match status {
        Status::Passed => verdict_label(true),
        Status::Failed => verdict_label(false),
    }
}

/// One row of a report.
#[derive(Debug, PartialEq, Eq)]
pub struct AssertionResult {
    /// The label of the step.
    pub step: String,
    /// Whether it held.
    pub passed: bool,
    /// What there is to say about it.
    pub message: Option<String>,
}

/// The mathematical value of an [`AssertionResult`].
pub ghost struct RowView {
    pub step: Seq<char>,
    pub passed: bool,
    pub message: Option<Seq<char>>,
}

impl View for AssertionResult {
    type V = RowView;

    open spec fn view(&self) -> RowView {
        RowView { step: self.step@, passed: self.passed, message: text_value(self.message) }
    }
}

impl Clone for AssertionResult {
    fn clone(&self) -> (r: AssertionResult)
        ensures
            r@ == self@,
    {
        AssertionResult {
            step: self.step.clone(),
            passed: self.passed,
            message: copy_text(&self.message),
        }
    }
}

/// A row that passed.
pub open spec fn passed_row(label: Seq<char>) -> RowView {
    RowView { step: label, passed: true, message: None }
}

/// A row that failed.
pub open spec fn failed_row(label: Seq<char>, message: Seq<char>) -> RowView {
    RowView { step: label, passed: false, message: Some(message) }
}

impl AssertionResult {
    /// A row that passed.
    pub fn pass(label: &str) -> (r: AssertionResult)
        ensures
            r@ == passed_row(label@),
    {
        AssertionResult { step: label.to_owned(), passed: true, message: None }
    }

    /// A row that failed, with the reason.
    pub fn fail(label: &str, message: String) -> (r: AssertionResult)
        ensures
            r@ == failed_row(label@, message@),
    {
        AssertionResult { step: label.to_owned(), passed: false, message: Some(message) }
    }
}

/// The values of a list of rows.
pub open spec fn rows(list: Seq<AssertionResult>) -> Seq<RowView> {
    Seq::new(list.len(), |i: int| list[i]@)
}

/// A summary of one scenario run.
#[derive(Debug, PartialEq, Eq)]
pub struct Report {
    /// The scenario's name.
    pub scenario: String,
    /// Overall status.
    pub status: Status,
    /// Wall-clock duration of the run in milliseconds.
    pub duration_ms: u128,
    /// Per-step assertion results.
    pub assertions: Vec<AssertionResult>,
}

/// The mathematical value of a [`Report`].
pub ghost struct ReportView {
    pub scenario: Seq<char>,
    pub status: Status,
    pub duration_ms: nat,
    pub assertions: Seq<RowView>,
}

impl View for Report {
    type V = ReportView;

    open spec fn view(&self) -> ReportView {
        ReportView {
            scenario: self.scenario@,
            status: self.status,
            duration_ms: self.duration_ms as nat,
            assertions: rows(self.assertions@),
        }
    }
}

impl Clone for Report {
    fn clone(&self) -> (r: Report)
        ensures
            r@ == self@,
    {
        let mut assertions: Vec<AssertionResult> = Vec::new();
        let mut i: usize = 0;
        while i < self.assertions.len()
            invariant
                i <= self.assertions@.len(),
                rows(assertions@) == rows(self.assertions@).take(i as int),
            decreases self.assertions@.len() - i,
        {
            let ghost before = assertions@;
            assertions.push(self.assertions[i].clone());
            i = i + 1;
            assert(rows(assertions@) =~= rows(before).push(rows(self.assertions@)[i - 1]));
            assert(rows(self.assertions@).take(i as int) =~= rows(self.assertions@).take(i - 1).push(
                rows(self.assertions@)[i - 1],
            ));
        }
        assert(rows(self.assertions@).take(i as int) =~= rows(self.assertions@));
        Report {
            scenario: self.scenario.clone(),
            status: self.status,
            duration_ms: self.duration_ms,
            assertions,
        }
    }
}

/// The status of these rows: passed if and only if every one of them did.
pub open spec fn overall(list: Seq<RowView>) -> Status {
    if forall|i: int| 0 <= i < list.len() ==> (#[trigger] list[i]).passed {
        Status::Passed
    } else {
        Status::Failed
    }
}

/// The status of a completed run with these rows.
pub fn status_of(list: &[AssertionResult]) -> (r: Status)
    ensures
        r == overall(rows(list@)),
{
    let mut i: usize = 0;
    while i < list.len()
        invariant
            i <= list@.len(),
            forall|j: int| 0 <= j < i ==> (#[trigger] rows(list@)[j]).passed,
        decreases list@.len() - i,
    {
        if !list[i].passed {
            assert(!rows(list@)[i as int].passed);
            return Status::Failed;
        }
        i = i + 1;
    }
    Status::Passed
}

/// An optional text, masked.
pub open spec fn masked_option(text: Option<Seq<char>>, secrets: Seq<Seq<char>>) -> Option<Seq<char>> {
    match text {
        Some(t) => Some(masked(t, secrets)),
        None => None,
    }
}

/// A row with its label and its message masked.
pub open spec fn masked_row(row: RowView, secrets: Seq<Seq<char>>) -> RowView {
    RowView {
        step: masked(row.step, secrets),
        passed: row.passed,
        message: masked_option(row.message, secrets),
    }
}

/// A list of rows, each masked.
pub open spec fn masked_rows(list: Seq<RowView>, secrets: Seq<Seq<char>>) -> Seq<RowView> {
    Seq::new(list.len(), |i: int| masked_row(list[i], secrets))
}

/// A report with its name and every row masked; the verdicts stay.
pub open spec fn masked_report(report: ReportView, secrets: Seq<Seq<char>>) -> ReportView {
    ReportView {
        scenario: masked(report.scenario, secrets),
        status: report.status,
        duration_ms: report.duration_ms,
        assertions: masked_rows(report.assertions, secrets),
    }
}

/// Mask secret values inside a report before it leaves the runner.
pub fn mask_report(report: &mut Report, secrets: &[String])
    ensures
        final(report)@ == masked_report(old(report)@, texts(secrets@)),
{
    let ghost hide = texts(secrets@);
    let mut assertions: Vec<AssertionResult> = Vec::new();
    let mut i: usize = 0;
    let ghost want = masked_rows(rows(report.assertions@), hide);
    while i < report.assertions.len()
        invariant
            i <= report.assertions@.len(),
            hide == texts(secrets@),
            want == masked_rows(rows(report.assertions@), hide),
            rows(assertions@) =~= want.take(i as int),
        decreases report.assertions@.len() - i,
    {
        let row = &report.assertions[i];
        let message: Option<String> = match &row.message {
            Some(text) => Some(mask_secrets(text.as_str(), secrets)),
            None => None,
        };
        let ghost before = assertions@;
        let hidden = AssertionResult {
            step: mask_secrets(row.step.as_str(), secrets),
            passed: row.passed,
            message,
        };
        assert(hidden@ == want[i as int]);
        assertions.push(hidden);
        assert(rows(assertions@) =~= rows(before).push(want[i as int]));
        i = i + 1;
    }
    assert(want.take(want.len() as int) =~= want);
    report.scenario = mask_secrets(report.scenario.as_str(), secrets);
    report.assertions = assertions;
}

/// Masking a report changes no verdict, neither of a row nor of the run.
pub proof fn lemma_masking_keeps_verdicts(report: ReportView, secrets: Seq<Seq<char>>)
    requires
        report.status == overall(report.assertions),
    ensures
        masked_report(report, secrets).status == overall(masked_report(report, secrets).assertions),
        masked_report(report, secrets).status == report.status,
{
    let a = report.assertions;
    let b = masked_report(report, secrets).assertions;
    if overall(a) is Passed {
        assert forall|i: int| 0 <= i < b.len() implies (#[trigger] b[i]).passed by {
            assert(a[i].passed);
        }
    } else {
        let i = choose|i: int| 0 <= i < a.len() && !(#[trigger] a[i]).passed;
        assert(!b[i].passed);
    }
}

/// A secret is not left in a masked report, unless it can be pieced together from
/// the stars that masking writes.
pub proof fn lemma_masked_report_holds_no_secret(report: ReportView, secrets: Seq<Seq<char>>, k: int)
    requires
        0 <= k < secrets.len(),
        secrets[k].len() > 0,
        !star_bound(secrets[k]),
    ensures
        !occurs(secrets[k], masked_report(report, secrets).scenario),
        forall|i: int|
            0 <= i < report.assertions.len() ==> {
                let row = #[trigger] masked_report(report, secrets).assertions[i];
                !occurs(secrets[k], row.step) && (row.message matches Some(message) ==> !occurs(
                    secrets[k],
                    message,
                ))
            },
{
    lemma_mask_removes_secrets(report.scenario, secrets, k);
    assert forall|i: int| 0 <= i < report.assertions.len() implies {
        let row = #[trigger] masked_report(report, secrets).assertions[i];
        !occurs(secrets[k], row.step) && (row.message matches Some(message) ==> !occurs(
            secrets[k],
            message,
        ))
    } by {
        lemma_mask_removes_secrets(report.assertions[i].step, secrets, k);
        match report.assertions[i].message {
            Some(message) => {
                lemma_mask_removes_secrets(message, secrets, k);
            },
            None => {},
        }
    }
}

// ---------------------------------------------------------------------------
// The text of a log
// ---------------------------------------------------------------------------

/// The coordinates of a cell as `axis=value`, with a space between them.
pub open spec fn cell_line(coords: Pairs) -> Seq<char>
    decreases coords.len(),
{
    if coords.len() == 0 {
        Seq::empty()
    } else {
        let front = cell_line(coords.drop_last());
        let gap = if coords.len() == 1 {
            Seq::empty()
        } else {
            seq![' ']
        };
        front + gap + coords.last().0 + seq!['='] + coords.last().1
    }
}

/// The word for a status, where a fault outranks any tally of assertions.
pub open spec fn status_word(status: Status, fault: Option<Seq<char>>) -> Seq<char> {
    match fault {
        Some(_) => "Errored"@,
        None => match status {
            Status::Passed => "Passed"@,
            Status::Failed => "Failed"@,
        },
    }
}

/// The lines that head a log.
pub open spec fn log_head(id: IdentityView, report: ReportView, fault: Option<Seq<char>>) -> Seq<char> {
    let name = "# scenario: "@ + id.scenario_name + seq!['\n'];
    let cell = if id.cell_coords.len() > 0 {
        "# cell: "@ + cell_line(id.cell_coords) + seq!['\n']
    } else {
        Seq::empty()
    };
    let status = "# status: "@ + status_word(report.status, fault) + seq!['\n'];
    let error = match fault {
        Some(message) => "# error: "@ + message + seq!['\n'],
        None => Seq::empty(),
    };
    name + cell + status + error + "# duration_ms: "@ + decimal(report.duration_ms) + "\n\n"@
}

/// The line of one row.
pub open spec fn row_line(row: RowView) -> Seq<char> {
    let head = seq!['['] + verdict(row.passed) + "] "@ + row.step;
    match row.message {
        Some(message) => head + " -- "@ + message + seq!['\n'],
        None => head + seq!['\n'],
    }
}

/// The lines of a list of rows.
pub open spec fn row_lines(list: Seq<RowView>) -> Seq<char>
    decreases list.len(),
{
    if list.len() == 0 {
        Seq::empty()
    } else {
        row_lines(list.drop_last()) + row_line(list.last())
    }
}

/// The text of a log before masking.
pub open spec fn log_text(
    id: IdentityView,
    output: Seq<char>,
    report: ReportView,
    fault: Option<Seq<char>>,
) -> Seq<char> {
    log_head(id, report, fault) + "## terminal output\n"@ + output + "\n\n## assertions\n"@ + row_lines(
        report.assertions,
    )
}

fn push_cell(out: &mut String, identity: &LogIdentity)
    ensures
        final(out)@ == old(out)@ + cell_line(identity@.cell_coords),
{
    let ghost start = out@;
    let ghost coords = identity@.cell_coords;
    let n = identity.cell_coords.len();
    let mut i: usize = 0;
    proof {
        assert(coords.take(0) =~= Seq::empty());
        assert(start + cell_line(coords.take(0)) =~= start);
    }
    while i < n
        invariant
            i <= n == coords.len(),
            coords == identity@.cell_coords,
            out@ == start + cell_line(coords.take(i as int)),
        decreases n - i,
    {
        if i > 0 {
            out.push(' ');
        }
        out.append(identity.cell_coords.key(i));
        out.push('=');
        out.append(identity.cell_coords.value(i));
        proof {
            assert(coords.take(i + 1).drop_last() =~= coords.take(i as int));
            assert(coords.take(i + 1).last() == coords[i as int]);
            assert(out@ =~= start + cell_line(coords.take(i + 1)));
        }
        i = i + 1;
    }
    assert(coords.take(n as int) =~= coords);
}

fn push_row(out: &mut String, row: &AssertionResult)
    ensures
        final(out)@ == old(out)@ + row_line(row@),
{
    let ghost start = out@;
    out.push('[');
    out.append(verdict_label(row.passed));
    out.append("] ");
    out.append(row.step.as_str());
    match &row.message {
        Some(message) => {
            out.append(" -- ");
            out.append(message.as_str());
            out.push('\n');
        },
        None => {
            out.push('\n');
        },
    }
    assert(out@ =~= start + row_line(row@));
}

/// The text of a log before masking: a head with the scenario, the cell, the
/// status, the fault and the duration, then the terminal output, then the rows.
pub fn log_body(identity: &LogIdentity, output: &str, report: &Report, fault: Option<&str>) -> (r: String)
    ensures
        r@ == log_text(
            identity@,
            output@,
            report@,
            match fault {
                Some(message) => Some(message@),
                None => None,
            },
        ),
{
    let ghost said = match fault {
        Some(message) => Some(message@),
        None => None,
    };
    let mut out = "# scenario: ".to_owned();
    out.append(identity.scenario_name.as_str());
    out.push('\n');
    if identity.cell_coords.len() > 0 {
        out.append("# cell: ");
        push_cell(&mut out, identity);
        out.push('\n');
    }
    out.append("# status: ");
    match fault {
        Some(message) => {
            out.append("Errored");
            out.push('\n');
            out.append("# error: ");
            out.append(message);
            out.push('\n');
        },
        None => {
            match report.status {
                Status::Passed => {
                    out.append("Passed");
                },
                Status::Failed => {
                    out.append("Failed");
                },
            }
            out.push('\n');
        },
    }
    out.append("# duration_ms: ");
    let duration = decimal_text(report.duration_ms);
    out.append(duration.as_str());
    out.append("\n\n");
    assert(out@ =~= log_head(identity@, report@, said));
    out.append("## terminal output\n");
    out.append(output);
    out.append("\n\n## assertions\n");
    let ghost start = out@;
    let ghost list = rows(report.assertions@);
    let mut i: usize = 0;
    proof {
        assert(list.take(0) =~= Seq::empty());
        assert(start + row_lines(list.take(0)) =~= start);
    }
    while i < report.assertions.len()
        invariant
            i <= report.assertions@.len(),
            list == rows(report.assertions@),
            out@ == start + row_lines(list.take(i as int)),
        decreases report.assertions@.len() - i,
    {
        push_row(&mut out, &report.assertions[i]);
        proof {
            assert(list.take(i + 1).drop_last() =~= list.take(i as int));
            assert(list.take(i + 1).last() == list[i as int]);
            assert(out@ =~= start + row_lines(list.take(i + 1)));
        }
        i = i + 1;
    }
    assert(list.take(list.len() as int) =~= list);
    out
}

/// The text that is written to a log: every secret in it is masked.
pub fn masked_log_body(
    identity: &LogIdentity,
    output: &str,
    report: &Report,
    fault: Option<&str>,
    secrets: &[String],
) -> (r: String)
    ensures
        r@ == masked(
            log_text(
                identity@,
                output@,
                report@,
                match fault {
                    Some(message) => Some(message@),
                    None => None,
                },
            ),
            texts(secrets@),
        ),
{
    let body = log_body(identity, output, report, fault);
    mask_secrets(body.as_str(), secrets)
}

/// A secret does not reach a log, unless it can be pieced together from the stars
/// that masking writes.
pub proof fn lemma_log_holds_no_secret(
    id: IdentityView,
    output: Seq<char>,
    report: ReportView,
    fault: Option<Seq<char>>,
    secrets: Seq<Seq<char>>,
    k: int,
)
    requires
        0 <= k < secrets.len(),
        secrets[k].len() > 0,
        !star_bound(secrets[k]),
    ensures
        !occurs(secrets[k], masked(log_text(id, output, report, fault), secrets)),
{
    lemma_mask_removes_secrets(log_text(id, output, report, fault), secrets, k);
}

/// The outputs of these sessions, each under its banner.
pub open spec fn bannered(outputs: Seq<Seq<char>>) -> Seq<char>
    decreases outputs.len(),
{
    if outputs.len() == 0 {
        Seq::empty()
    } else {
        let gap = if outputs.len() == 1 {
            Seq::empty()
        } else {
            seq!['\n']
        };
        bannered(outputs.drop_last()) + gap + "--- session "@ + decimal(outputs.len()) + " ---\n"@
            + outputs.last()
    }
}

/// What a log shows as terminal output: that there was no process, the output of
/// the only session, or each session's output under a banner of its own.
pub open spec fn shown_output(outputs: Seq<Seq<char>>) -> Seq<char> {
    if outputs.len() == 0 {
        "(no process spawned)"@
    } else if outputs.len() == 1 {
        outputs[0]
    } else {
        bannered(outputs)
    }
}

/// What a log shows as terminal output of these sessions.
pub fn session_output(outputs: &[String]) -> (r: String)
    ensures
        r@ == shown_output(texts(outputs@)),
{
    if outputs.len() == 0 {
        return "(no process spawned)".to_owned();
    }
    if outputs.len() == 1 {
        return outputs[0].clone();
    }
    let ghost all = texts(outputs@);
    let mut out = String::new();
    let mut i: usize = 0;
    assert(all.take(0) =~= Seq::<Seq<char>>::empty());
    while i < outputs.len()
        invariant
            i <= outputs@.len(),
            outputs@.len() == outputs.len(),
            all == texts(outputs@),
            out@ == bannered(all.take(i as int)),
        decreases outputs@.len() - i,
    {
        let ghost before = out@;
        if i > 0 {
            out.push('\n');
        }
        out.append("--- session ");
        let number = decimal_text((i + 1) as u128);
        out.append(number.as_str());
        out.append(" ---\n");
        out.append(outputs[i].as_str());
        proof {
            assert(all.take(i + 1).drop_last() =~= all.take(i as int));
            assert(all.take(i + 1).last() == outputs@[i as int]@);
            assert(out@ =~= bannered(all.take(i + 1)));
        }
        i = i + 1;
    }
    assert(all.take(all.len() as int) =~= all);
    out
}

// ---------------------------------------------------------------------------
// Laws
// ---------------------------------------------------------------------------

/// Exit codes and words of a completed run: 0 and `PASS` if and only if it passed, 1
/// and `FAIL` otherwise.
pub proof fn lemma_status_says_how_it_went(status: Status)
    ensures
        status is Passed ==> status_code(status) == 0 && verdict(status is Passed) == "PASS"@,
        status is Failed ==> status_code(status) == 1 && verdict(status is Passed) == "FAIL"@,
{
}

/// Without rows a run passes. One more row leaves a pass only if that row passed, and
/// never turns a failure into a pass.
pub proof fn lemma_status_counts_every_row(list: Seq<RowView>, row: RowView)
    ensures
        overall(Seq::empty()) is Passed,
        overall(list.push(row)) is Passed == (overall(list) is Passed && row.passed),
{
    let more = list.push(row);
    if overall(list) is Passed && row.passed {
        assert forall|i: int| 0 <= i < more.len() implies (#[trigger] more[i]).passed by {
            if i < list.len() {
                assert(list[i].passed);
            }
        }
    }
    if overall(more) is Passed {
        assert forall|i: int| 0 <= i < list.len() implies (#[trigger] list[i]).passed by {
            assert(more[i].passed);
        }
        assert(more[list.len() as int].passed);
    }
}

/// A masked report says what the report says, field by field: the status, the duration,
/// the number of rows and each verdict stay, a message is there where one was, and every
/// text is the masked one.
pub proof fn lemma_masked_report_says_the_same(report: ReportView, secrets: Seq<Seq<char>>, i: int)
    requires
        0 <= i < report.assertions.len(),
    ensures
        ({
            let hidden = masked_report(report, secrets);
            let row = report.assertions[i];
            &&& hidden.scenario == masked(report.scenario, secrets)
            &&& hidden.status == report.status
            &&& hidden.duration_ms == report.duration_ms
            &&& hidden.assertions.len() == report.assertions.len()
            &&& hidden.assertions[i].step == masked(row.step, secrets)
            &&& hidden.assertions[i].passed == row.passed
            &&& hidden.assertions[i].message is Some == row.message is Some
            &&& row.message matches Some(message) ==> hidden.assertions[i].message == Some(
                masked(message, secrets),
            )
        }),
{
}

/// The whole output stands in the log, unchanged and of any length, under its heading
/// and before the heading of the rows; and nothing else in the log depends on it.
pub proof fn lemma_log_keeps_the_output(
    id: IdentityView,
    report: ReportView,
    fault: Option<Seq<char>>,
)
    ensures
        ({
            let bare = log_text(id, Seq::empty(), report, fault);
            exists|k: int|
                0 <= k <= bare.len() && #[trigger] splits_at(
                    bare,
                    k,
                    "## terminal output\n"@,
                    "\n\n## assertions\n"@,
                ) && forall|output: Seq<char>| #[trigger]
                    log_text(id, output, report, fault) == bare.take(k) + output + bare.skip(k)
        }),
{
    let bare = log_text(id, Seq::empty(), report, fault);
    let head = log_head(id, report, fault);
    let tail = row_lines(report.assertions);
    let before = head + "## terminal output\n"@;
    let after = "\n\n## assertions\n"@ + tail;
    let k = before.len() as int;
    assert(bare =~= before + after);
    assert(bare.take(k) =~= before);
    assert(bare.skip(k) =~= after);
    assert(bare.take(k) == head + "## terminal output\n"@);
    assert(bare.skip(k) == "\n\n## assertions\n"@ + tail);
    assert(bare.subrange(head.len() as int, k) =~= "## terminal output\n"@);
    assert(bare.subrange(k, k + "\n\n## assertions\n"@.len()) =~= "\n\n## assertions\n"@);
    assert(splits_at(bare, k, "## terminal output\n"@, "\n\n## assertions\n"@));
    assert forall|output: Seq<char>| #[trigger]
        log_text(id, output, report, fault) == bare.take(k) + output + bare.skip(k) by {
        assert(log_text(id, output, report, fault) =~= before + output + after);
    }
}

/// Whether `before` ends and `after` begins at this place of a text.
pub open spec fn splits_at(text: Seq<char>, k: int, before: Seq<char>, after: Seq<char>) -> bool {
    &&& before.len() <= k <= text.len() - after.len()
    &&& text.subrange(k - before.len(), k) == before
    &&& text.subrange(k, k + after.len()) == after
}

/// Whatever is added to the output is added to the log, where the output ends: the log
/// grows by exactly as many characters.
pub proof fn lemma_log_grows_with_the_output(
    id: IdentityView,
    output: Seq<char>,
    more: Seq<char>,
    report: ReportView,
    fault: Option<Seq<char>>,
)
    ensures
        ({
            let short = log_text(id, output, report, fault);
            let long = log_text(id, output + more, report, fault);
            let at = log_head(id, report, fault).len() + "## terminal output\n"@.len() + output.len();
            &&& at <= short.len()
            &&& long == short.take(at as int) + more + short.skip(at as int)
            &&& long.len() == short.len() + more.len()
            &&& short.subrange(at - output.len(), at as int) == output
        }),
{
    let short = log_text(id, output, report, fault);
    let long = log_text(id, output + more, report, fault);
    let head = log_head(id, report, fault) + "## terminal output\n"@;
    let tail = "\n\n## assertions\n"@ + row_lines(report.assertions);
    let at = (head + output).len() as int;
    assert(short =~= head + output + tail);
    assert(long =~= head + output + more + tail);
    assert(short.take(at) =~= head + output);
    assert(short.skip(at) =~= tail);
    assert(long =~= short.take(at) + more + short.skip(at));
    assert(short.subrange(at - output.len(), at) =~= output);
}

/// A log without rows: the name, the cell where there is one, the status, the error
/// where a fault stopped the run, the duration, and then the output. A fault outranks
/// whatever status the rows have.
pub proof fn lemma_log_heads_with_the_facts(
    id: IdentityView,
    output: Seq<char>,
    report: ReportView,
    message: Seq<char>,
)
    requires
        report.assertions.len() == 0,
    ensures
        ({
            let first = "# scenario: "@ + id.scenario_name + seq!['\n'] + if id.cell_coords.len() == 0 {
                Seq::empty()
            } else {
                "# cell: "@ + cell_line(id.cell_coords) + seq!['\n']
            };
            let last = "# duration_ms: "@ + decimal(report.duration_ms) + "\n\n"@
                + "## terminal output\n"@ + output + "\n\n## assertions\n"@;
            &&& log_text(id, output, report, Some(message)) == first + "# status: "@ + "Errored"@
                + seq!['\n'] + "# error: "@ + message + seq!['\n'] + last
            &&& report.status is Passed ==> log_text(id, output, report, None) == first + "# status: "@
                + "Passed"@ + seq!['\n'] + last
            &&& report.status is Failed ==> log_text(id, output, report, None) == first + "# status: "@
                + "Failed"@ + seq!['\n'] + last
        }),
{
    let first = "# scenario: "@ + id.scenario_name + seq!['\n'] + if id.cell_coords.len() == 0 {
        Seq::empty()
    } else {
        "# cell: "@ + cell_line(id.cell_coords) + seq!['\n']
    };
    let last = "# duration_ms: "@ + decimal(report.duration_ms) + "\n\n"@ + "## terminal output\n"@
        + output + "\n\n## assertions\n"@;
    assert(row_lines(report.assertions) =~= Seq::<char>::empty());
    assert(log_text(id, output, report, Some(message)) =~= first + "# status: "@ + "Errored"@
        + seq!['\n'] + "# error: "@ + message + seq!['\n'] + last);
    if report.status is Passed {
        assert(log_text(id, output, report, None) =~= first + "# status: "@ + "Passed"@ + seq!['\n']
            + last);
    } else {
        assert(log_text(id, output, report, None) =~= first + "# status: "@ + "Failed"@ + seq!['\n']
            + last);
    }
}

/// One more row is one more line at the end of the log, with its verdict, its label and
/// its message; and nothing before it changes.
pub proof fn lemma_log_has_a_line_per_row(
    id: IdentityView,
    output: Seq<char>,
    report: ReportView,
    fault: Option<Seq<char>>,
    row: RowView,
)
    ensures
        ({
            let more = ReportView { assertions: report.assertions.push(row), ..report };
            log_text(id, output, more, fault) == log_text(id, output, report, fault) + seq!['[']
                + if row.passed {
                "PASS"@
            } else {
                "FAIL"@
            } + "] "@ + row.step + (match row.message {
                Some(message) => " -- "@ + message,
                None => Seq::empty(),
            }) + seq!['\n']
        }),
{
    let more = ReportView { assertions: report.assertions.push(row), ..report };
    assert(more.assertions.drop_last() =~= report.assertions);
    assert(more.assertions.last() == row);
    assert(log_text(id, output, more, fault) =~= log_text(id, output, report, fault) + seq!['[']
        + if row.passed {
        "PASS"@
    } else {
        "FAIL"@
    } + "] "@ + row.step + (match row.message {
        Some(message) => " -- "@ + message,
        None => Seq::empty(),
    }) + seq!['\n']);
}

/// The line of a cell shows every coordinate once, as `axis=value`, in the order of the
/// axes and with one space between two of them.
pub proof fn lemma_cell_line_shows_every_axis(coords: Pairs, axis: Seq<char>, value: Seq<char>)
    ensures
        cell_line(seq![(axis, value)]) == axis + seq!['='] + value,
        coords.len() > 0 ==> cell_line(coords.push((axis, value))) == cell_line(coords) + seq![' ']
            + axis + seq!['='] + value,
{
    let one = seq![(axis, value)];
    assert(one.drop_last() =~= Seq::empty());
    assert(cell_line(one.drop_last()) =~= Seq::<char>::empty());
    assert(cell_line(one) =~= axis + seq!['='] + value);
    let more = coords.push((axis, value));
    assert(more.drop_last() =~= coords);
    if coords.len() > 0 {
        assert(cell_line(more) =~= cell_line(coords) + seq![' '] + axis + seq!['='] + value);
    }
}

/// What a log shows of the sessions: without one, that there was none; of a single one
/// its output and nothing else; of two or more each output, whole and in order, under a
/// banner with its number.
pub proof fn lemma_every_session_is_shown(outputs: Seq<Seq<char>>, next: Seq<char>)
    ensures
        shown_output(Seq::empty()) == "(no process spawned)"@,
        shown_output(seq![next]) == next,
        outputs.len() == 1 ==> shown_output(outputs.push(next)) == "--- session "@ + decimal(1)
            + " ---\n"@ + outputs[0] + seq!['\n'] + "--- session "@ + decimal(2) + " ---\n"@ + next,
        outputs.len() > 1 ==> shown_output(outputs.push(next)) == shown_output(outputs) + seq!['\n']
            + "--- session "@ + decimal(outputs.len() + 1) + " ---\n"@ + next,
{
    let more = outputs.push(next);
    assert(more.drop_last() =~= outputs);
    assert(more.last() == next);
    if outputs.len() == 1 {
        assert(outputs.drop_last() =~= Seq::<Seq<char>>::empty());
        assert(bannered(outputs.drop_last()) =~= Seq::<char>::empty());
        assert(bannered(outputs) =~= "--- session "@ + decimal(1) + " ---\n"@ + outputs[0]);
        assert(bannered(more) =~= "--- session "@ + decimal(1) + " ---\n"@ + outputs[0] + seq!['\n']
            + "--- session "@ + decimal(2) + " ---\n"@ + next);
    } else if outputs.len() > 1 {
        assert(bannered(more) =~= shown_output(outputs) + seq!['\n'] + "--- session "@ + decimal(
            outputs.len() + 1,
        ) + " ---\n"@ + next);
    }
}

} // verus!
