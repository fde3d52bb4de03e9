//! JSON documents from files and from the end of the terminal output.
use vstd::prelude::*;
use vstd::string::*;

use crate::path::Platform;
use crate::rawpath::{show_path, shown};

verus! {

/// What `serde_json::from_str::<serde_json::Value>` objects to in a text; `None`
/// where the text is one JSON document.
pub uninterp spec fn json_fault(text: Seq<char>) -> Option<Seq<char>>;

/// `serde_json::from_str::<serde_json::Value>`: the text of its error, or `None`
/// where it succeeds. The contract names that outcome and says nothing else of it.
#[verifier::external_body]
fn parse_fault(text: &str) -> (r: Option<String>)
    ensures
        match r {
            Some(fault) => json_fault(text@) == Some(fault@),
            None => json_fault(text@) is None,
        },
{
    match serde_json::from_str::<serde_json::Value>(text) {
        Ok(_) => None,
        Err(e) => Some(e.to_string()),
    }
}

/// The message where a file could not be read.
pub open spec fn unread_message(path: Seq<u8>, error: Seq<char>, platform: Platform) -> Seq<char> {
    "cannot read "@ + shown(path, platform) + ": "@ + error
}

/// The message where a file is not JSON.
pub open spec fn not_json_message(path: Seq<u8>, fault: Seq<char>, platform: Platform) -> Seq<char> {
    "file "@ + shown(path, platform) + " is not valid JSON: "@ + fault
}

/// The text of a file, or a message ready to report.
pub fn read_text_from_file(path: &[u8], read: Result<String, String>, platform: Platform) -> (r: Result<
    String,
    String,
>)
    ensures
        match read {
            Ok(text) => r matches Ok(t) && t@ == text@,
            Err(error) => r matches Err(message) && message@ == unread_message(
                path@,
                error@,
                platform,
            ),
        },
{
    match read {
        Ok(text) => Ok(text),
        Err(error) => {
            let mut message = "cannot read ".to_owned();
            let file = show_path(path, platform);
            message.append(file.as_str());
            message.append(": ");
            message.append(error.as_str());
            Err(message)
        },
    }
}

/// A file's text where nothing is wrong with it as JSON, or a message ready to
/// report.
pub fn judge_json(path: &[u8], text: String, fault: Option<String>, platform: Platform) -> (r: Result<
    String,
    String,
>)
    ensures
        match fault {
            None => r matches Ok(t) && t@ == text@,
            Some(f) => r matches Err(message) && message@ == not_json_message(path@, f@, platform),
        },
{
    match fault {
        None => Ok(text),
        Some(f) => {
            let mut message = "file ".to_owned();
            let file = show_path(path, platform);
            message.append(file.as_str());
            message.append(" is not valid JSON: ");
            message.append(f.as_str());
            Err(message)
        },
    }
}

/// The JSON text of a file, or a message ready to report.
pub open spec fn file_json(path: Seq<u8>, read: Result<String, String>, platform: Platform) -> Result<
    Seq<char>,
    Seq<char>,
> {
    match read {
        Err(error) => Err(unread_message(path, error@, platform)),
        Ok(text) => match json_fault(text@) {
            None => Ok(text@),
            Some(fault) => Err(not_json_message(path, fault, platform)),
        },
    }
}

/// The values of a text or a message.
pub open spec fn text_result(r: Result<String, String>) -> Result<Seq<char>, Seq<char>> {
    match r {
        Ok(text) => Ok(text@),
        Err(message) => Err(message@),
    }
}

/// The text of a file that holds one JSON document, or a message ready to report.
pub fn read_json_from_file(path: &[u8], read: Result<String, String>, platform: Platform) -> (r: Result<
    String,
    String,
>)
    ensures
        text_result(r) == file_json(path@, read, platform),
{
    match read_text_from_file(path, read, platform) {
        Err(message) => Err(message),
        Ok(text) => {
            let fault = parse_fault(text.as_str());
            judge_json(path, text, fault, platform)
        },
    }
}

/// How many trailing bytes of the output are searched for a JSON document.
pub const TAIL_JSON_WINDOW: usize = 65536;

/// How long to wait between two looks at the output, in milliseconds.
pub const POLL_INTERVAL: u64 = 20;

/// Where the searched end of an output begins.
pub open spec fn tail_from(len: nat) -> nat {
    if len < TAIL_JSON_WINDOW {
        0
    } else {
        (len - TAIL_JSON_WINDOW) as nat
    }
}

/// Where the searched end of an output of `len` bytes begins.
pub fn tail_start(len: usize) -> (r: usize)
    ensures
        r == tail_from(len as nat),
        r <= len,
        len - r == if len < 65536 {
            len as int
        } else {
            65536
        },
{
    if len < TAIL_JSON_WINDOW {
        0
    } else {
        len - TAIL_JSON_WINDOW
    }
}

/// What to do after a look at the output.
#[derive(Debug, Clone, Copy, PartialEq, Eq, Structural)]
pub enum Poll {
    /// A document is there.
    Found,
    /// It is too late for one.
    TimedOut,
    /// Look again after this many milliseconds.
    Sleep(u64),
}

/// What to do after a look at the output.
pub open spec fn poll_next(found: bool, now: u64, deadline: u64) -> Poll {
    if found {
        Poll::Found
    } else if now >= deadline {
        Poll::TimedOut
    } else if deadline - now < POLL_INTERVAL {
        Poll::Sleep((deadline - now) as u64)
    } else {
        Poll::Sleep(POLL_INTERVAL)
    }
}

/// Decide what to do after a look at the output, from whether a document was found,
/// the time now and the time of the deadline.
///
/// A document counts however late it is seen, and no sleep outlasts the deadline.
pub fn wait_for_tail_json(found: bool, now: u64, deadline: u64) -> (r: Poll)
    ensures
        r == poll_next(found, now, deadline),
        r is Found == found,
        r is TimedOut == (!found && now >= deadline),
        r matches Poll::Sleep(time) ==> 0 < time <= 20 && now + time <= deadline && (time == 20
            || now + time == deadline),
{
    if found {
        Poll::Found
    } else if now >= deadline {
        Poll::TimedOut
    } else if deadline - now < POLL_INTERVAL {
        Poll::Sleep(deadline - now)
    } else {
        Poll::Sleep(POLL_INTERVAL)
    }
}

/// The searched end of an output is all of it up to 65536 bytes, and its last 65536 bytes
/// beyond that: what is written later can only push the beginning out.
pub proof fn lemma_tail_is_the_end_of_the_output(len: nat, more: nat)
    ensures
        len <= 65536 ==> tail_from(len) == 0,
        len > 65536 ==> len - tail_from(len) == 65536,
        tail_from(len) <= tail_from(len + more),
{
}

/// A document counts whenever it is seen, also at or after the deadline. Without one the
/// wait is over at the deadline and not before; until then it sleeps for twenty
/// milliseconds, or for what is left if that is less, so that the next look is later and
/// the last one is at the deadline.
pub proof fn lemma_waiting_looks_until_the_deadline(now: u64, deadline: u64)
    ensures
        poll_next(true, now, deadline) is Found,
        poll_next(false, now, deadline) is TimedOut == (now >= deadline),
        now + 20 <= deadline ==> poll_next(false, now, deadline) == Poll::Sleep(20),
        now < deadline < now + 20 ==> poll_next(false, now, deadline) == Poll::Sleep(
            (deadline - now) as u64,
        ),
{
}

/// What is said of a file that cannot be read or holds no JSON: which one, and why. A file
/// that can be read and holds one document is that document, character for character.
pub proof fn lemma_file_is_the_document(path: Seq<u8>, text: String, error: String, platform: Platform)
    ensures
        file_json(path, Err(error), platform) == Err::<Seq<char>, Seq<char>>(
            "cannot read "@ + shown(path, platform) + ": "@ + error@,
        ),
        json_fault(text@) is None ==> file_json(path, Ok(text), platform) == Ok::<
            Seq<char>,
            Seq<char>,
        >(text@),
        json_fault(text@) matches Some(fault) ==> file_json(path, Ok(text), platform) == Err::<
            Seq<char>,
            Seq<char>,
        >("file "@ + shown(path, platform) + " is not valid JSON: "@ + fault),
{
}

} // verus!
