//! Faults that stop a run, and the exit code of each class.
use vstd::prelude::*;
use vstd::string::*;

use crate::mask::{mask_secrets, masked};
use crate::text::texts;

verus! {

/// A fault with its message.
#[derive(Debug, PartialEq, Eq)]
pub enum PittyError {
    /// An expectation did not hold.
    AssertionFailed(String),
    /// The scenario itself is wrong and has to be changed.
    Scenario(String),
    /// A process or the environment failed.
    Process(String),
}

/// The mathematical value of a [`PittyError`].
pub ghost enum ErrorView {
    AssertionFailed(Seq<char>),
    Scenario(Seq<char>),
    Process(Seq<char>),
}

impl View for PittyError {
    type V = ErrorView;

    open spec fn view(&self) -> ErrorView {
        match *self {
            PittyError::AssertionFailed(message) => ErrorView::AssertionFailed(message@),
            PittyError::Scenario(message) => ErrorView::Scenario(message@),
            PittyError::Process(message) => ErrorView::Process(message@),
        }
    }
}

/// The exit code of a fault.
pub open spec fn fault_code(fault: ErrorView) -> u8 {
    match fault {
        ErrorView::AssertionFailed(_) => 1,
        ErrorView::Scenario(_) => 2,
        ErrorView::Process(_) => 3,
    }
}

/// The message of a fault.
pub open spec fn fault_message(fault: ErrorView) -> Seq<char> {
    match fault {
        ErrorView::AssertionFailed(message) => message,
        ErrorView::Scenario(message) => message,
        ErrorView::Process(message) => message,
    }
}

/// A fault as one text: its class, then its message.
pub open spec fn fault_text(fault: ErrorView) -> Seq<char> {
    match fault {
        ErrorView::AssertionFailed(message) => "assertion failed: "@ + message,
        ErrorView::Scenario(message) => "scenario error: "@ + message,
        ErrorView::Process(message) => "process error: "@ + message,
    }
}

/// A fault of the same class with every secret in its message masked.
pub open spec fn masked_fault(fault: ErrorView, secrets: Seq<Seq<char>>) -> ErrorView {
    match fault {
        ErrorView::AssertionFailed(message) => ErrorView::AssertionFailed(masked(message, secrets)),
        ErrorView::Scenario(message) => ErrorView::Scenario(masked(message, secrets)),
        ErrorView::Process(message) => ErrorView::Process(masked(message, secrets)),
    }
}

impl PittyError {
    /// The process exit code of this class of fault.
    pub fn exit_code(&self) -> (r: u8)
        ensures
            r == fault_code(self@),
    {
        match self {
            PittyError::AssertionFailed(_) => 1,
            PittyError::Scenario(_) => 2,
            PittyError::Process(_) => 3,
        }
    }

    /// The message of this fault.
    pub fn message(&self) -> (r: &str)
        ensures
            r@ == fault_message(self@),
    {
        match self {
            PittyError::AssertionFailed(message) => message.as_str(),
            PittyError::Scenario(message) => message.as_str(),
            PittyError::Process(message) => message.as_str(),
        }
    }
}

impl PittyError {
    /// This fault as one text: its class, then its message.
    pub fn text(&self) -> (r: String)
        ensures
            r@ == fault_text(self@),
    {
        let mut out = match self {
            PittyError::AssertionFailed(_) => "assertion failed: ".to_owned(),
            PittyError::Scenario(_) => "scenario error: ".to_owned(),
            PittyError::Process(_) => "process error: ".to_owned(),
        };
        out.append(self.message());
        out
    }
}

/// Mask secret values inside an error's message before it leaves the runner.
pub fn mask_error(err: PittyError, secrets: &[String]) -> (r: PittyError)
    ensures
        r@ == masked_fault(err@, texts(secrets@)),
{
    match err {
        PittyError::AssertionFailed(m) => PittyError::AssertionFailed(
            mask_secrets(m.as_str(), secrets),
        ),
        PittyError::Scenario(m) => PittyError::Scenario(mask_secrets(m.as_str(), secrets)),
        PittyError::Process(m) => PittyError::Process(mask_secrets(m.as_str(), secrets)),
    }
}

/// Masking a fault changes its message only, never its exit code.
pub proof fn lemma_masking_keeps_code(fault: ErrorView, secrets: Seq<Seq<char>>)
    ensures
        fault_code(masked_fault(fault, secrets)) == fault_code(fault),
        fault_message(masked_fault(fault, secrets)) == masked(fault_message(fault), secrets),
{
}

/// Exit codes and words by class: a failed assertion is 1, a fault of the scenario is 2, a
/// fault of a process is 3; and each is told under the name of its class, with its message
/// unchanged.
pub proof fn lemma_fault_classes(message: Seq<char>)
    ensures
        ({
            let failed = ErrorView::AssertionFailed(message);
            let wrong = ErrorView::Scenario(message);
            let broken = ErrorView::Process(message);
            &&& fault_code(failed) == 1 && fault_code(wrong) == 2 && fault_code(broken) == 3
            &&& fault_message(failed) == message && fault_message(wrong) == message && fault_message(
                broken,
            ) == message
            &&& fault_text(failed) == "assertion failed: "@ + message
            &&& fault_text(wrong) == "scenario error: "@ + message
            &&& fault_text(broken) == "process error: "@ + message
        }),
{
}

/// Masking a fault leaves its class and masks its message.
pub proof fn lemma_masked_fault_keeps_its_class(message: Seq<char>, secrets: Seq<Seq<char>>)
    ensures
        masked_fault(ErrorView::AssertionFailed(message), secrets) == ErrorView::AssertionFailed(
            masked(message, secrets),
        ),
        masked_fault(ErrorView::Scenario(message), secrets) == ErrorView::Scenario(
            masked(message, secrets),
        ),
        masked_fault(ErrorView::Process(message), secrets) == ErrorView::Process(
            masked(message, secrets),
        ),
{
}

} // verus!
