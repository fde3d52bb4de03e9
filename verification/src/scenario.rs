//! A parsed scenario: what a run is asked to do.
use vstd::prelude::*;

verus! {

/// A scenario variable.
#[derive(Debug, PartialEq, Eq)]
pub struct Variable {
    /// What the variable stands for.
    pub value: String,
    /// Whether the value is masked wherever it would be shown.
    pub secret: bool,
}

/// Where a scenario runs.
#[derive(Debug, PartialEq, Eq)]
pub struct WorkspaceSpec {
    /// Run in a fresh temporary directory.
    pub temp: bool,
    /// The directory to run in otherwise, seen from the scenario file's directory.
    pub cwd: String,
}

/// Where an expectation reads the text that it checks.
#[derive(Debug, PartialEq, Eq)]
pub enum Source {
    /// The terminal output so far.
    Output,
    /// A file, seen from the workspace directory.
    File(String),
    /// A keyword that means nothing.
    Invalid(String),
}

/// What is checked of the value that a JSON path leads to.
#[derive(Debug, PartialEq, Eq)]
pub enum JsonCheck {
    /// It equals this value, given as JSON text.
    Equals(String),
    /// It is a string that holds this text.
    Contains(String),
    /// It is there, or is not.
    Exists(bool),
}

/// The mathematical value of a [`JsonCheck`].
pub ghost enum JsonCheckView {
    Equals(Seq<char>),
    Contains(Seq<char>),
    Exists(bool),
}

impl View for JsonCheck {
    type V = JsonCheckView;

    open spec fn view(&self) -> JsonCheckView {
        match *self {
            JsonCheck::Equals(value) => JsonCheckView::Equals(value@),
            JsonCheck::Contains(text) => JsonCheckView::Contains(text@),
            JsonCheck::Exists(expected) => JsonCheckView::Exists(expected),
        }
    }
}

impl JsonCheck {
    /// The same check.
    pub fn copy(&self) -> (r: JsonCheck)
        ensures
            r@ == self@,
    {
        match self {
            JsonCheck::Equals(value) => JsonCheck::Equals(value.clone()),
            JsonCheck::Contains(text) => JsonCheck::Contains(text.clone()),
            JsonCheck::Exists(expected) => JsonCheck::Exists(*expected),
        }
    }
}

/// What one step does. Times are in milliseconds.
#[derive(Debug, PartialEq, Eq)]
pub enum StepKind {
    /// Start a process under a terminal.
    Spawn { command: String, cwd: Option<String>, env: Vec<(String, String)> },
    /// Send a line.
    Send(String),
    /// Send text without a line end.
    SendRaw(String),
    /// Send the bytes of a key.
    Key(Vec<u8>),
    /// Sleep.
    Wait(u64),
    /// Wait for text in the output.
    Expect { contains: String, timeout: Option<u64> },
    /// Wait for a match in the output.
    ExpectRegex { pattern: String, timeout: Option<u64> },
    /// Check that text is not in the output.
    ExpectNot { contains: String },
    /// Check that a file exists.
    ExpectFileExists { path: String },
    /// Check that a file holds text.
    ExpectFileContains { path: String, contains: String },
    /// Check that a file does not hold text.
    ExpectFileNotContains { path: String, contains: String },
    /// Check that a file changed since the last spawn.
    ExpectFileChanged { path: String },
    /// Check the exit code.
    ExpectExit { code: i32, timeout: Option<u64> },
    /// Check whether the process is running.
    ExpectRunning(bool),
    /// Check a JSON document; `invalid_reason` says what is wrong with the check.
    ExpectJson {
        path: String,
        check: JsonCheck,
        source: Source,
        timeout: Option<u64>,
        invalid_reason: Option<String>,
    },
    /// Compare the output with a recorded file.
    ExpectSnapshot { file: String, raw: bool },
    /// Compare text by similarity. `similarity` is the threshold as it was written,
    /// and `in_range` whether it lies within 0.0..=1.0.
    ExpectSemantic { text: String, similarity: String, in_range: bool, source: Source },
}

/// One step with the label that its report row carries.
#[derive(Debug, PartialEq, Eq)]
pub struct Step {
    /// The name of the step in reports.
    pub label: String,
    /// What it does.
    pub kind: StepKind,
}

/// A parsed scenario.
#[derive(Debug, PartialEq, Eq)]
pub struct Scenario {
    /// Its name.
    pub name: String,
    /// Where it runs.
    pub workspace: WorkspaceSpec,
    /// Its variables, in order.
    pub variables: Vec<(String, Variable)>,
    /// The environment of the processes that it spawns, in order.
    pub env: Vec<(String, String)>,
    /// What it does, in order.
    pub steps: Vec<Step>,
}

} // verus!
