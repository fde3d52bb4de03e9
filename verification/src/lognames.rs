//! Which file of a logs directory a run writes to.
//!
//! A run prefers `stem.log`, then `stem.2.log` and so on. It looks for a log that it
//! owns already before it takes a free name, and it never takes one that it cannot
//! prove to own. The search is a dialogue: it asks what a sidecar says, or to
//! acquire a name, and goes on from the reply.
use vstd::prelude::*;
use vstd::string::*;

use crate::acquire::{
    acquired, lemma_granted_name_loses_nothing, standing_claim, ClaimRead, ClaimView, Standing,
};
use crate::claim::{sidecar_name, ClaimRecord, RecordView};
use crate::digest::{byte_len, lemma_ascii_byte_len, lemma_encode_concat};
use crate::error::{ErrorView, PittyError};
use crate::identity::{
    claim_key_of, dedup_key_of, lemma_whole_identities_have_their_keys, stem_of, text_value, whole,
    IdentityView, LogIdentity, MAX_LOG_FILE_NAME, MAX_STEM_BYTES,
};
use crate::pair_table::{Cells, PairTable};
use crate::text::{
    decimal, decimal_text, holds_text, is_digit, lemma_decimal_is_digits, lemma_decimal_len,
    same_text, texts,
};

verus! {

/// How many names are tried for one stem.
pub const MAX_LOG_SUFFIX: u32 = 1000;

/// The `n`th name for a stem: `stem.log`, `stem.2.log`, `stem.3.log`, ...
pub open spec fn candidate(stem: Seq<char>, n: nat) -> Seq<char> {
    if n == 1 {
        stem + ".log"@
    } else {
        stem + seq!['.'] + decimal(n) + ".log"@
    }
}

fn candidate_name(stem: &str, n: u32) -> (r: String)
    ensures
        r@ == candidate(stem@, n as nat),
{
    let mut out = stem.to_owned();
    if n != 1 {
        out.push('.');
        let number = decimal_text(n as u128);
        out.append(number.as_str());
    }
    out.append(".log");
    assert(out@ =~= candidate(stem@, n as nat));
    out
}

/// A logs directory: what every sidecar says, and which names can be acquired.
pub ghost struct LogWorld {
    /// What the sidecar of a log says.
    pub claim: spec_fn(Seq<char>) -> ClaimView,
    /// Whether a log can be acquired with the record that its sidecar holds.
    pub owned: spec_fn(Seq<char>, RecordView) -> bool,
    /// Whether a log can be acquired with a record of its own.
    pub fresh: spec_fn(Seq<char>) -> bool,
}

/// What is searched for.
pub ghost struct Wanted {
    /// The stem of the names.
    pub stem: Seq<char>,
    /// The key of this run's claims.
    pub key: Seq<char>,
    /// Names that belong to other identities of this process.
    pub taken: Set<Seq<char>>,
}

/// Whether the log `name` is this run's own and can be had.
pub open spec fn own_log(world: LogWorld, key: Seq<char>, name: Seq<char>) -> bool {
    (world.claim)(name) matches ClaimView::Record(record) && record.key == key && (world.owned)(name, record)
}

/// The first name from the `n`th on that is this run's own log.
pub open spec fn first_own(world: LogWorld, wanted: Wanted, n: nat) -> Option<Seq<char>>
    decreases MAX_LOG_SUFFIX + 1 - n,
{
    if n > MAX_LOG_SUFFIX {
        None
    } else {
        let name = candidate(wanted.stem, n);
        if !wanted.taken.contains(name) && own_log(world, wanted.key, name) {
            Some(name)
        } else {
            first_own(world, wanted, n + 1)
        }
    }
}

/// The first name from the `n`th on that can be taken.
pub open spec fn first_free(world: LogWorld, wanted: Wanted, n: nat) -> Option<Seq<char>>
    decreases MAX_LOG_SUFFIX + 1 - n,
{
    if n > MAX_LOG_SUFFIX {
        None
    } else {
        let name = candidate(wanted.stem, n);
        if !wanted.taken.contains(name) && (world.fresh)(name) {
            Some(name)
        } else {
            first_free(world, wanted, n + 1)
        }
    }
}

/// The name that the search settles on from the `n`th on: this run's own log
/// wherever it stands, and only then the first name that can be taken.
pub open spec fn first_name(world: LogWorld, wanted: Wanted, n: nat) -> Option<Seq<char>> {
    match first_own(world, wanted, n) {
        Some(name) => Some(name),
        None => first_free(world, wanted, 1),
    }
}

/// Where a search stands.
#[derive(Debug, PartialEq, Eq)]
enum Phase {
    /// Ask what the sidecar of the remembered name says.
    Recall(String),
    /// Acquire the remembered name with its own record.
    Renew(String, ClaimRecord),
    /// Ask what the sidecar of the `n`th name says.
    Look(u32),
    /// Acquire the `n`th name with its own record.
    Reuse(u32, ClaimRecord),
    /// Acquire the `n`th name afresh.
    Take(u32),
    /// Done: this name, or none.
    Done(Option<String>),
}

/// A search for the log name of one run.
#[derive(Debug)]
pub struct NameSearch {
    stem: String,
    key: String,
    taken: Vec<String>,
    phase: Phase,
}

/// Where a search stands.
pub ghost enum Stage {
    /// Ask what the sidecar of the remembered name says.
    Recall(Seq<char>),
    /// Acquire the remembered name with its own record.
    Renew(Seq<char>, RecordView),
    /// Ask what the sidecar of the `n`th name says.
    Look(nat),
    /// Acquire the `n`th name with its own record.
    Reuse(nat, RecordView),
    /// Acquire the `n`th name afresh.
    Take(nat),
    /// Done: this name, or none.
    Done(Option<Seq<char>>),
}

/// The mathematical value of a [`NameSearch`].
pub ghost struct SearchView {
    /// What is searched for.
    pub wanted: Wanted,
    /// Where the search stands.
    pub stage: Stage,
}

spec fn stage_of(phase: Phase) -> Stage {
    match phase {
        Phase::Recall(name) => Stage::Recall(name@),
        Phase::Renew(name, record) => Stage::Renew(name@, record@),
        Phase::Look(n) => Stage::Look(n as nat),
        Phase::Reuse(n, record) => Stage::Reuse(n as nat, record@),
        Phase::Take(n) => Stage::Take(n as nat),
        Phase::Done(Some(name)) => Stage::Done(Some(name@)),
        Phase::Done(None) => Stage::Done(None),
    }
}

impl View for NameSearch {
    type V = SearchView;

    closed spec fn view(&self) -> SearchView {
        SearchView {
            wanted: Wanted {
                stem: self.stem@,
                key: self.key@,
                taken: texts(self.taken@).to_set(),
            },
            stage: stage_of(self.phase),
        }
    }
}

/// What a search asks for.
#[derive(Debug, PartialEq, Eq)]
pub enum SearchRequest {
    /// What does the sidecar of this log say?
    ReadClaim(String),
    /// Acquire this log with the record that its sidecar holds.
    AcquireOwned(String, ClaimRecord),
    /// Acquire this log with a fresh token for this key.
    AcquireFresh(String, String),
    /// Use this log; it is acquired.
    Found(String),
    /// There is no name to be had.
    Exhausted,
}

/// The mathematical value of a [`SearchRequest`].
pub ghost enum RequestView {
    ReadClaim(Seq<char>),
    AcquireOwned(Seq<char>, RecordView),
    AcquireFresh(Seq<char>, Seq<char>),
    Found(Seq<char>),
    Exhausted,
}

impl View for SearchRequest {
    type V = RequestView;

    open spec fn view(&self) -> RequestView {
        match *self {
            SearchRequest::ReadClaim(name) => RequestView::ReadClaim(name@),
            SearchRequest::AcquireOwned(name, record) => RequestView::AcquireOwned(name@, record@),
            SearchRequest::AcquireFresh(name, key) => RequestView::AcquireFresh(name@, key@),
            SearchRequest::Found(name) => RequestView::Found(name@),
            SearchRequest::Exhausted => RequestView::Exhausted,
        }
    }
}

/// What came of a request.
#[derive(Debug, PartialEq, Eq)]
pub enum SearchReply {
    /// What the sidecar says.
    Claim(ClaimRead),
    /// Whether the log was acquired.
    Acquired(bool),
}

/// The mathematical value of a [`SearchReply`].
pub ghost enum ReplyView {
    Claim(ClaimView),
    Acquired(bool),
}

impl View for SearchReply {
    type V = ReplyView;

    open spec fn view(&self) -> ReplyView {
        match *self {
            SearchReply::Claim(said) => ReplyView::Claim(said@),
            SearchReply::Acquired(got) => ReplyView::Acquired(got),
        }
    }
}

/// Where a search stands that looks for an own log from the `n`th name on. Names of
/// other identities are passed over.
pub open spec fn looking_from(wanted: Wanted, n: nat) -> Stage
    decreases MAX_LOG_SUFFIX + 1 - n,
{
    if n > MAX_LOG_SUFFIX {
        taking_from(wanted, 1)
    } else if wanted.taken.contains(candidate(wanted.stem, n)) {
        looking_from(wanted, n + 1)
    } else {
        Stage::Look(n)
    }
}

/// Where a search stands that takes the first name it can have from the `n`th on.
pub open spec fn taking_from(wanted: Wanted, n: nat) -> Stage
    decreases MAX_LOG_SUFFIX + 1 - n,
{
    if n > MAX_LOG_SUFFIX {
        Stage::Done(None)
    } else if wanted.taken.contains(candidate(wanted.stem, n)) {
        taking_from(wanted, n + 1)
    } else {
        Stage::Take(n)
    }
}

/// The start of a search: at the remembered name where there is one.
pub open spec fn search_start(wanted: Wanted, before: Option<Seq<char>>) -> SearchView {
    SearchView {
        wanted,
        stage: match before {
            Some(name) => Stage::Recall(name),
            None => looking_from(wanted, 1),
        },
    }
}

/// What a search asks for, or what it found.
pub open spec fn search_request(search: SearchView) -> RequestView {
    let stem = search.wanted.stem;
    match search.stage {
        Stage::Recall(name) => RequestView::ReadClaim(name),
        Stage::Renew(name, record) => RequestView::AcquireOwned(name, record),
        Stage::Look(n) => RequestView::ReadClaim(candidate(stem, n)),
        Stage::Reuse(n, record) => RequestView::AcquireOwned(candidate(stem, n), record),
        Stage::Take(n) => RequestView::AcquireFresh(candidate(stem, n), search.wanted.key),
        Stage::Done(Some(name)) => RequestView::Found(name),
        Stage::Done(None) => RequestView::Exhausted,
    }
}

/// The record in a reply, where it is one of this key.
pub open spec fn own_record(reply: ReplyView, key: Seq<char>) -> Option<RecordView> {
    match reply {
        ReplyView::Claim(ClaimView::Record(record)) => if record.key == key {
            Some(record)
        } else {
            None
        },
        _ => None,
    }
}

/// Where a search stands after a reply. One of the wrong sort counts as "not this
/// one".
pub open spec fn next_stage(search: SearchView, reply: ReplyView) -> Stage {
    let wanted = search.wanted;
    let got = reply == ReplyView::Acquired(true);
    match search.stage {
        Stage::Recall(name) => match own_record(reply, wanted.key) {
            Some(record) => Stage::Renew(name, record),
            None => looking_from(wanted, 1),
        },
        Stage::Renew(name, _) => if got {
            Stage::Done(Some(name))
        } else {
            looking_from(wanted, 1)
        },
        Stage::Look(n) => match own_record(reply, wanted.key) {
            Some(record) => Stage::Reuse(n, record),
            None => looking_from(wanted, n + 1),
        },
        Stage::Reuse(n, _) => if got {
            Stage::Done(Some(candidate(wanted.stem, n)))
        } else {
            looking_from(wanted, n + 1)
        },
        Stage::Take(n) => if got {
            Stage::Done(Some(candidate(wanted.stem, n)))
        } else {
            taking_from(wanted, n + 1)
        },
        Stage::Done(found) => Stage::Done(found),
    }
}

/// The search after a reply.
pub open spec fn search_step(search: SearchView, reply: ReplyView) -> SearchView {
    SearchView { wanted: search.wanted, stage: next_stage(search, reply) }
}

/// Whether a search stands at a name that it may have, with a record of its own.
pub open spec fn sound_search(search: SearchView) -> bool {
    let wanted = search.wanted;
    match search.stage {
        Stage::Look(n) => 1 <= n <= MAX_LOG_SUFFIX && !wanted.taken.contains(candidate(wanted.stem, n)),
        Stage::Reuse(n, record) => 1 <= n <= MAX_LOG_SUFFIX && !wanted.taken.contains(
            candidate(wanted.stem, n),
        ) && record.key == wanted.key,
        Stage::Take(n) => 1 <= n <= MAX_LOG_SUFFIX && !wanted.taken.contains(candidate(wanted.stem, n)),
        Stage::Renew(_, record) => record.key == wanted.key,
        _ => true,
    }
}

impl NameSearch {
    #[verifier::type_invariant]
    spec fn in_range(&self) -> bool {
        sound_search(self@)
    }

    /// The search for `stem` that is ready to look at the `from`th name.
    fn look_from(stem: String, key: String, taken: Vec<String>, from: u32) -> (r: NameSearch)
        requires
            1 <= from <= MAX_LOG_SUFFIX + 1,
        ensures
            r@.wanted == (Wanted { stem: stem@, key: key@, taken: texts(taken@).to_set() }),
            r@.stage == looking_from(r@.wanted, from as nat),
            sound_search(r@),
    {
        let mut n: u32 = from;
        let ghost wanted = Wanted { stem: stem@, key: key@, taken: texts(taken@).to_set() };
        while n <= MAX_LOG_SUFFIX
            invariant
                1 <= from <= n <= MAX_LOG_SUFFIX + 1,
                wanted == (Wanted { stem: stem@, key: key@, taken: texts(taken@).to_set() }),
                looking_from(wanted, from as nat) == looking_from(wanted, n as nat),
            decreases MAX_LOG_SUFFIX + 1 - n,
        {
            let name = candidate_name(stem.as_str(), n);
            if !holds_text(taken.as_slice(), name.as_str()) {
                return NameSearch { stem, key, taken, phase: Phase::Look(n) };
            }
            n = n + 1;
        }
        NameSearch::take_from(stem, key, taken, 1)
    }

    /// The search for `stem` that is ready to take the `from`th name.
    fn take_from(stem: String, key: String, taken: Vec<String>, from: u32) -> (r: NameSearch)
        requires
            1 <= from <= MAX_LOG_SUFFIX + 1,
        ensures
            r@.wanted == (Wanted { stem: stem@, key: key@, taken: texts(taken@).to_set() }),
            r@.stage == taking_from(r@.wanted, from as nat),
            sound_search(r@),
    {
        let mut n: u32 = from;
        let ghost wanted = Wanted { stem: stem@, key: key@, taken: texts(taken@).to_set() };
        while n <= MAX_LOG_SUFFIX
            invariant
                1 <= from <= n <= MAX_LOG_SUFFIX + 1,
                wanted == (Wanted { stem: stem@, key: key@, taken: texts(taken@).to_set() }),
                taking_from(wanted, from as nat) == taking_from(wanted, n as nat),
            decreases MAX_LOG_SUFFIX + 1 - n,
        {
            let name = candidate_name(stem.as_str(), n);
            if !holds_text(taken.as_slice(), name.as_str()) {
                return NameSearch { stem, key, taken, phase: Phase::Take(n) };
            }
            n = n + 1;
        }
        NameSearch { stem, key, taken, phase: Phase::Done(None) }
    }

    /// Start a search: for the remembered name first, where there is one, then
    /// through the names for `stem`.
    pub fn first_free_name(
        stem: String,
        claim_key: String,
        taken: Vec<String>,
        remembered: Option<String>,
    ) -> (r: NameSearch)
        ensures
            r@ == search_start(
                Wanted { stem: stem@, key: claim_key@, taken: texts(taken@).to_set() },
                text_value(remembered),
            ),
            sound_search(r@),
    {
        match remembered {
            Some(name) => NameSearch { stem, key: claim_key, taken, phase: Phase::Recall(name) },
            None => NameSearch::look_from(stem, claim_key, taken, 1),
        }
    }

    /// The stem that names are made of.
    pub fn stem(&self) -> (r: String)
        ensures
            r@ == self@.wanted.stem,
    {
        self.stem.clone()
    }

    /// What the search asks for next, or what it found.
    pub fn request(&self) -> (r: SearchRequest)
        ensures
            r@ == search_request(self@),
    {
        match &self.phase {
            Phase::Recall(name) => SearchRequest::ReadClaim(name.clone()),
            Phase::Renew(name, record) => SearchRequest::AcquireOwned(name.clone(), record.clone()),
            Phase::Look(n) => SearchRequest::ReadClaim(candidate_name(self.stem.as_str(), *n)),
            Phase::Reuse(n, record) => SearchRequest::AcquireOwned(
                candidate_name(self.stem.as_str(), *n),
                record.clone(),
            ),
            Phase::Take(n) => SearchRequest::AcquireFresh(
                candidate_name(self.stem.as_str(), *n),
                self.key.clone(),
            ),
            Phase::Done(Some(name)) => SearchRequest::Found(name.clone()),
            Phase::Done(None) => SearchRequest::Exhausted,
        }
    }

    /// Go on from the reply to the last request.
    pub fn advance(self, reply: SearchReply) -> (r: NameSearch)
        ensures
            r@ == search_step(self@, reply@),
            sound_search(r@),
    {
        proof {
            use_type_invariant(&self);
        }
        let stem = self.stem;
        let key = self.key;
        let taken = self.taken;
        match (self.phase, reply) {
            (Phase::Recall(name), SearchReply::Claim(ClaimRead::Record(record))) => {
                if same_text(record.key.as_str(), key.as_str()) {
                    NameSearch { stem, key, taken, phase: Phase::Renew(name, record) }
                } else {
                    NameSearch::look_from(stem, key, taken, 1)
                }
            },
            (Phase::Recall(_), _) => NameSearch::look_from(stem, key, taken, 1),
            (Phase::Renew(name, _), SearchReply::Acquired(true)) => NameSearch {
                stem,
                key,
                taken,
                phase: Phase::Done(Some(name)),
            },
            (Phase::Renew(_, _), _) => NameSearch::look_from(stem, key, taken, 1),
            (Phase::Look(n), SearchReply::Claim(ClaimRead::Record(record))) => {
                if same_text(record.key.as_str(), key.as_str()) {
                    NameSearch { stem, key, taken, phase: Phase::Reuse(n, record) }
                } else {
                    NameSearch::look_from(stem, key, taken, n + 1)
                }
            },
            (Phase::Look(n), _) => NameSearch::look_from(stem, key, taken, n + 1),
            (Phase::Reuse(n, _), SearchReply::Acquired(true)) => {
                let name = candidate_name(stem.as_str(), n);
                NameSearch { stem, key, taken, phase: Phase::Done(Some(name)) }
            },
            (Phase::Reuse(n, _), _) => NameSearch::look_from(stem, key, taken, n + 1),
            (Phase::Take(n), SearchReply::Acquired(true)) => {
                let name = candidate_name(stem.as_str(), n);
                NameSearch { stem, key, taken, phase: Phase::Done(Some(name)) }
            },
            (Phase::Take(n), _) => NameSearch::take_from(stem, key, taken, n + 1),
            (Phase::Done(found), _) => NameSearch { stem, key, taken, phase: Phase::Done(found) },
        }
    }
}

// ---------------------------------------------------------------------------
// What this process remembers
// ---------------------------------------------------------------------------

/// The names that this process has resolved, and whom it has bound them to.
///
/// Directories are named by a text that stands for the directory itself, so one
/// directory under two paths is one directory here.
#[derive(Debug)]
pub struct LogBook {
    written: PairTable,
    bound: PairTable,
}

/// The mathematical value of a [`LogBook`].
pub ghost struct BookView {
    /// The name that an identity, by its key, got in a directory.
    pub written: Cells,
    /// The identity, by its key, that a name in a directory is bound to.
    pub bound: Cells,
}

impl View for LogBook {
    type V = BookView;

    closed spec fn view(&self) -> BookView {
        BookView { written: self.written@, bound: self.bound@ }
    }
}

/// Whether every name that an identity got is bound to that identity.
pub open spec fn consistent(book: BookView) -> bool {
    forall|dir: Seq<char>, key: Seq<char>| #[trigger]
        book.written.contains_key((dir, key)) ==> book.bound.contains_key((dir, book.written[(dir, key)]))
            && book.bound[(dir, book.written[(dir, key)])] == key
}

/// Whether `name` is bound to another identity than `key`.
pub open spec fn bound_to_other(book: BookView, dir: Seq<char>, key: Seq<char>, name: Seq<char>) -> bool {
    book.bound.contains_key((dir, name)) && book.bound[(dir, name)] != key
}

/// The name that an identity got in a directory before.
pub open spec fn remembered(book: BookView, dir: Seq<char>, key: Seq<char>) -> Option<Seq<char>> {
    if book.written.contains_key((dir, key)) {
        Some(book.written[(dir, key)])
    } else {
        None
    }
}

/// What a search for the log of `id` looks for.
pub open spec fn wanted_for(book: BookView, dir: Seq<char>, id: IdentityView, secrets: Seq<Seq<char>>) -> Wanted {
    Wanted {
        stem: stem_of(id, secrets),
        key: claim_key_of(id, secrets),
        taken: Set::new(|name: Seq<char>| bound_to_other(book, dir, dedup_key_of(id), name)),
    }
}

/// The search for the log of `id`, at its start.
pub open spec fn search_for(book: BookView, dir: Seq<char>, id: IdentityView, secrets: Seq<Seq<char>>) -> SearchView {
    search_start(wanted_for(book, dir, id, secrets), remembered(book, dir, dedup_key_of(id)))
}

/// The name that a search ends at: the one that this identity got before where it
/// is still its own, and otherwise the first that the search settles on.
pub open spec fn log_name(
    world: LogWorld,
    book: BookView,
    dir: Seq<char>,
    id: IdentityView,
    secrets: Seq<Seq<char>>,
) -> Option<Seq<char>> {
    let wanted = wanted_for(book, dir, id, secrets);
    match remembered(book, dir, dedup_key_of(id)) {
        Some(name) => if own_log(world, wanted.key, name) {
            Some(name)
        } else {
            first_name(world, wanted, 1)
        },
        None => first_name(world, wanted, 1),
    }
}

/// The book once an identity has got a name, or none.
pub open spec fn noted(book: BookView, dir: Seq<char>, key: Seq<char>, found: Option<Seq<char>>) -> BookView {
    match found {
        Some(name) => if remembered(book, dir, key) == Some(name) {
            book
        } else {
            BookView {
                written: book.written.insert((dir, key), name),
                bound: book.bound.insert((dir, name), key),
            }
        },
        None => BookView { written: book.written.remove((dir, key)), bound: book.bound },
    }
}

impl LogBook {
    /// Nothing remembered.
    pub fn new() -> (r: LogBook)
        ensures
            r@.written == Cells::empty(),
            r@.bound == Cells::empty(),
            consistent(r@),
    {
        LogBook { written: PairTable::new(), bound: PairTable::new() }
    }

    /// Start the search for the file in `dir` that this identity writes to.
    pub fn resolve_log_path(&self, dir: &str, identity: &LogIdentity, secrets: &[String]) -> (r: NameSearch)
        ensures
            r@ == search_for(self@, dir@, identity@, texts(secrets@)),
            sound_search(r@),
    {
        let key = identity.dedup_key();
        let taken = self.bound.others(dir, key.as_str());
        assert(texts(taken@).to_set() =~= wanted_for(self@, dir@, identity@, texts(secrets@)).taken);
        NameSearch::first_free_name(
            identity.stem(secrets),
            identity.claim_key(secrets),
            taken,
            self.written.get(dir, key.as_str()),
        )
    }

    /// Remember the name that the search for this identity found, or that there was
    /// none.
    pub fn note(self, dir: &str, identity: &LogIdentity, found: Option<&str>) -> (r: LogBook)
        ensures
            r@ == noted(
                self@,
                dir@,
                dedup_key_of(identity@),
                match found {
                    Some(name) => Some(name@),
                    None => None,
                },
            ),
    {
        let key = identity.dedup_key();
        match found {
            Some(name) => {
                let known = match self.written.get(dir, key.as_str()) {
                    Some(before) => same_text(before.as_str(), name),
                    None => false,
                };
                if known {
                    self
                } else {
                    LogBook {
                        written: self.written.with(dir, key.as_str(), name),
                        bound: self.bound.with(dir, name, key.as_str()),
                    }
                }
            },
            None => LogBook {
                written: self.written.without(dir, key.as_str()),
                bound: self.bound,
            },
        }
    }
}

/// The fault reported where every name for a stem is taken.
pub open spec fn exhausted_fault(stem: Seq<char>) -> ErrorView {
    ErrorView::Process(
        "cannot find a free log name for '"@ + stem
            + "': 1000 candidates are already taken or held by other runs"@,
    )
}

/// The fault reported where every name for `stem` is taken. No log is overwritten
/// in that case.
pub fn no_free_name(stem: &str) -> (r: PittyError)
    ensures
        r@ == exhausted_fault(stem@),
{
    let mut message = "cannot find a free log name for '".to_owned();
    message.append(stem);
    message.append("': 1000 candidates are already taken or held by other runs");
    PittyError::Process(message)
}

// ---------------------------------------------------------------------------
// Laws
// ---------------------------------------------------------------------------

/// The first own log from the `n`th name on is a log of this run under one of those
/// names, and not bound to another; where there is none, none of them is such a log.
pub proof fn lemma_first_own(world: LogWorld, wanted: Wanted, n: nat)
    ensures
        match first_own(world, wanted, n) {
            Some(name) => {
                &&& own_log(world, wanted.key, name)
                &&& !wanted.taken.contains(name)
                &&& exists|k: nat| n <= k <= MAX_LOG_SUFFIX && name == #[trigger] candidate(wanted.stem, k)
            },
            None => forall|k: nat|
                n <= k <= MAX_LOG_SUFFIX ==> wanted.taken.contains(#[trigger] candidate(wanted.stem, k))
                    || !own_log(world, wanted.key, candidate(wanted.stem, k)),
        },
    decreases MAX_LOG_SUFFIX + 1 - n,
{
    if n <= MAX_LOG_SUFFIX {
        lemma_first_own(world, wanted, n + 1);
        if first_own(world, wanted, n) is None {
            assert forall|k: nat| n <= k <= MAX_LOG_SUFFIX implies wanted.taken.contains(
                #[trigger] candidate(wanted.stem, k),
            ) || !own_log(world, wanted.key, candidate(wanted.stem, k)) by {
                if k > n {
                    assert(n + 1 <= k);
                }
            }
        }
    }
}

/// The first free name from the `n`th on is one of those names, can be had afresh and
/// is not bound to another; where there is none, none of them can be had so.
pub proof fn lemma_first_free(world: LogWorld, wanted: Wanted, n: nat)
    ensures
        match first_free(world, wanted, n) {
            Some(name) => {
                &&& (world.fresh)(name)
                &&& !wanted.taken.contains(name)
                &&& exists|k: nat| n <= k <= MAX_LOG_SUFFIX && name == #[trigger] candidate(wanted.stem, k)
            },
            None => forall|k: nat|
                n <= k <= MAX_LOG_SUFFIX ==> wanted.taken.contains(#[trigger] candidate(wanted.stem, k))
                    || !(world.fresh)(candidate(wanted.stem, k)),
        },
    decreases MAX_LOG_SUFFIX + 1 - n,
{
    if n <= MAX_LOG_SUFFIX {
        lemma_first_free(world, wanted, n + 1);
        if first_free(world, wanted, n) is None {
            assert forall|k: nat| n <= k <= MAX_LOG_SUFFIX implies wanted.taken.contains(
                #[trigger] candidate(wanted.stem, k),
            ) || !(world.fresh)(candidate(wanted.stem, k)) by {
                if k > n {
                    assert(n + 1 <= k);
                }
            }
        }
    }
}

/// A run never gets a name that is bound to another identity of this process, and
/// never one that it could not acquire.
pub proof fn lemma_found_name_is_acquired(world: LogWorld, wanted: Wanted)
    ensures
        first_name(world, wanted, 1) matches Some(name) ==> !wanted.taken.contains(name) && (own_log(
            world,
            wanted.key,
            name,
        ) || (world.fresh)(name)),
{
    lemma_first_own(world, wanted, 1);
    lemma_first_free(world, wanted, 1);
}

/// Where a run owns a log under any of its names, it gets such a log and no new
/// name is taken.
pub proof fn lemma_own_log_comes_first(world: LogWorld, wanted: Wanted, k: nat)
    requires
        1 <= k <= MAX_LOG_SUFFIX,
        !wanted.taken.contains(candidate(wanted.stem, k)),
        own_log(world, wanted.key, candidate(wanted.stem, k)),
    ensures
        first_name(world, wanted, 1) matches Some(name) && own_log(world, wanted.key, name),
{
    lemma_first_own(world, wanted, 1);
}

proof fn lemma_first_own_is(world: LogWorld, wanted: Wanted, n: nat, k: nat)
    requires
        n <= k <= MAX_LOG_SUFFIX,
        !wanted.taken.contains(candidate(wanted.stem, k)),
        own_log(world, wanted.key, candidate(wanted.stem, k)),
        forall|j: nat|
            n <= j < k ==> wanted.taken.contains(#[trigger] candidate(wanted.stem, j)) || !own_log(
                world,
                wanted.key,
                candidate(wanted.stem, j),
            ),
    ensures
        first_own(world, wanted, n) == Some(candidate(wanted.stem, k)),
    decreases k - n,
{
    if n < k {
        assert(wanted.taken.contains(candidate(wanted.stem, n)) || !own_log(
            world,
            wanted.key,
            candidate(wanted.stem, n),
        ));
        lemma_first_own_is(world, wanted, n + 1, k);
    }
}

/// A run that is repeated gets the log that it got before, wherever that stands:
/// the first one that it owns, whatever other names have become free.
pub proof fn lemma_repeated_run_reuses_its_log(world: LogWorld, wanted: Wanted, k: nat)
    requires
        1 <= k <= MAX_LOG_SUFFIX,
        !wanted.taken.contains(candidate(wanted.stem, k)),
        own_log(world, wanted.key, candidate(wanted.stem, k)),
        forall|j: nat|
            1 <= j < k ==> wanted.taken.contains(#[trigger] candidate(wanted.stem, j)) || !own_log(
                world,
                wanted.key,
                candidate(wanted.stem, j),
            ),
    ensures
        first_name(world, wanted, 1) == Some(candidate(wanted.stem, k)),
{
    lemma_first_own_is(world, wanted, 1, k);
}

/// Where no name is found, none of them could be had.
pub proof fn lemma_exhaustion_is_real(world: LogWorld, wanted: Wanted, k: nat)
    requires
        first_name(world, wanted, 1) is None,
        1 <= k <= MAX_LOG_SUFFIX,
    ensures
        wanted.taken.contains(candidate(wanted.stem, k)) || !((world.fresh)(candidate(wanted.stem, k)) || own_log(
            world,
            wanted.key,
            candidate(wanted.stem, k),
        )),
{
    lemma_first_own(world, wanted, 1);
    lemma_first_free(world, wanted, 1);
}

/// The reply that a logs directory gives to a request.
pub open spec fn answer(world: LogWorld, request: RequestView) -> ReplyView {
    match request {
        RequestView::ReadClaim(name) => ReplyView::Claim((world.claim)(name)),
        RequestView::AcquireOwned(name, record) => ReplyView::Acquired((world.owned)(name, record)),
        RequestView::AcquireFresh(name, _) => ReplyView::Acquired((world.fresh)(name)),
        _ => ReplyView::Acquired(false),
    }
}

/// A search after `n` replies of a logs directory.
pub open spec fn search_after(search: SearchView, world: LogWorld, n: nat) -> SearchView
    decreases n,
{
    if n == 0 {
        search
    } else {
        search_after(search_step(search, answer(world, search_request(search))), world, (n - 1) as nat)
    }
}

/// How many more replies a search can need.
pub open spec fn replies_needed(stage: Stage) -> nat {
    match stage {
        Stage::Recall(_) => (3 * MAX_LOG_SUFFIX + 9) as nat,
        Stage::Renew(_, _) => (3 * MAX_LOG_SUFFIX + 8) as nat,
        Stage::Look(n) => (MAX_LOG_SUFFIX + 2 + 2 * (MAX_LOG_SUFFIX + 1 - n) + 1) as nat,
        Stage::Reuse(n, _) => (MAX_LOG_SUFFIX + 2 + 2 * (MAX_LOG_SUFFIX + 1 - n)) as nat,
        Stage::Take(n) => (MAX_LOG_SUFFIX + 2 - n) as nat,
        Stage::Done(_) => 0,
    }
}

/// The name that the rest of a search settles on.
pub open spec fn search_end(search: SearchView, world: LogWorld) -> Option<Seq<char>> {
    let wanted = search.wanted;
    match search.stage {
        Stage::Recall(name) => if own_log(world, wanted.key, name) {
            Some(name)
        } else {
            first_name(world, wanted, 1)
        },
        Stage::Renew(name, record) => if (world.owned)(name, record) {
            Some(name)
        } else {
            first_name(world, wanted, 1)
        },
        Stage::Look(n) => first_name(world, wanted, n),
        Stage::Reuse(n, record) => if (world.owned)(candidate(wanted.stem, n), record) {
            Some(candidate(wanted.stem, n))
        } else {
            first_name(world, wanted, n + 1)
        },
        Stage::Take(n) => first_free(world, wanted, n),
        Stage::Done(found) => found,
    }
}

proof fn lemma_taking_from(wanted: Wanted, world: LogWorld, n: nat)
    requires
        1 <= n,
    ensures
        sound_search(SearchView { wanted, stage: taking_from(wanted, n) }),
        search_end(SearchView { wanted, stage: taking_from(wanted, n) }, world) == first_free(world, wanted, n),
        n <= MAX_LOG_SUFFIX + 1 ==> replies_needed(taking_from(wanted, n)) <= MAX_LOG_SUFFIX + 2 - n,
    decreases MAX_LOG_SUFFIX + 1 - n,
{
    if n <= MAX_LOG_SUFFIX {
        lemma_taking_from(wanted, world, n + 1);
    }
}

proof fn lemma_looking_from(wanted: Wanted, world: LogWorld, n: nat)
    requires
        1 <= n,
    ensures
        sound_search(SearchView { wanted, stage: looking_from(wanted, n) }),
        search_end(SearchView { wanted, stage: looking_from(wanted, n) }, world) == first_name(world, wanted, n),
        n <= MAX_LOG_SUFFIX + 1 ==> replies_needed(looking_from(wanted, n)) <= MAX_LOG_SUFFIX + 2 + 2 * (
        MAX_LOG_SUFFIX + 1 - n) + 1,
    decreases MAX_LOG_SUFFIX + 1 - n,
{
    if n <= MAX_LOG_SUFFIX {
        lemma_looking_from(wanted, world, n + 1);
    } else {
        lemma_taking_from(wanted, world, 1);
    }
}

proof fn lemma_answer_keeps_the_end(search: SearchView, world: LogWorld)
    requires
        sound_search(search),
    ensures
        ({
            let next = search_step(search, answer(world, search_request(search)));
            &&& sound_search(next)
            &&& search_end(next, world) == search_end(search, world)
            &&& search.stage is Done || replies_needed(next.stage) < replies_needed(search.stage)
        }),
{
    let wanted = search.wanted;
    match search.stage {
        Stage::Recall(_) => {
            lemma_looking_from(wanted, world, 1);
        },
        Stage::Renew(_, _) => {
            lemma_looking_from(wanted, world, 1);
        },
        Stage::Look(n) => {
            lemma_looking_from(wanted, world, n + 1);
        },
        Stage::Reuse(n, _) => {
            lemma_looking_from(wanted, world, n + 1);
        },
        Stage::Take(n) => {
            lemma_taking_from(wanted, world, n + 1);
        },
        Stage::Done(_) => {},
    }
}

/// Every search comes to an end, wherever it stands, and answered by a logs
/// directory it ends at the name that the rest of it settles on.
pub proof fn lemma_search_reaches_its_end(search: SearchView, world: LogWorld, n: nat)
    requires
        sound_search(search),
        n >= replies_needed(search.stage),
    ensures
        search_after(search, world, n).stage == Stage::Done(search_end(search, world)),
    decreases n,
{
    if n > 0 {
        lemma_answer_keeps_the_end(search, world);
        lemma_search_reaches_its_end(
            search_step(search, answer(world, search_request(search))),
            world,
            (n - 1) as nat,
        );
    }
}

/// A search that begins afresh, answered by a logs directory, ends at the first name
/// that the run owns there, or else at the first that is free.
pub proof fn lemma_fresh_search_finds_the_first_name(world: LogWorld, wanted: Wanted, n: nat)
    requires
        n >= 3 * MAX_LOG_SUFFIX + 9,
    ensures
        search_after(search_start(wanted, None), world, n).stage == Stage::Done(
            first_name(world, wanted, 1),
        ),
{
    lemma_looking_from(wanted, world, 1);
    lemma_search_reaches_its_end(search_start(wanted, None), world, n);
}

/// Every search for the log of an identity, answered by a logs directory, ends at the
/// log that the run is to have there.
pub proof fn lemma_search_finds_the_log(
    world: LogWorld,
    book: BookView,
    dir: Seq<char>,
    id: IdentityView,
    secrets: Seq<Seq<char>>,
    n: nat,
)
    requires
        n >= 3 * MAX_LOG_SUFFIX + 9,
    ensures
        search_after(search_for(book, dir, id, secrets), world, n).stage == Stage::Done(
            log_name(world, book, dir, id, secrets),
        ),
{
    let wanted = wanted_for(book, dir, id, secrets);
    lemma_looking_from(wanted, world, 1);
    lemma_search_reaches_its_end(search_for(book, dir, id, secrets), world, n);
}

/// Noting what a search found keeps every name bound to the identity that got it.
pub proof fn lemma_noting_keeps_consistent(
    world: LogWorld,
    book: BookView,
    dir: Seq<char>,
    id: IdentityView,
    secrets: Seq<Seq<char>>,
)
    requires
        consistent(book),
    ensures
        consistent(noted(book, dir, dedup_key_of(id), log_name(world, book, dir, id, secrets))),
{
    let key = dedup_key_of(id);
    let wanted = wanted_for(book, dir, id, secrets);
    let found = log_name(world, book, dir, id, secrets);
    let after = noted(book, dir, key, found);
    lemma_found_name_is_acquired(world, wanted);
    assert forall|d: Seq<char>, k: Seq<char>| #[trigger] after.written.contains_key((d, k)) implies after.bound.contains_key(
        (d, after.written[(d, k)]),
    ) && after.bound[(d, after.written[(d, k)])] == k by {
        if found is Some && after != book {
            let name = found->0;
            if (d, k) != (dir, key) {
                assert(book.written.contains_key((d, k)));
                if d == dir && book.written[(d, k)] == name {
                    assert(!wanted.taken.contains(name));
                    assert(!bound_to_other(book, dir, key, name));
                }
            }
        } else if found is None {
            assert(book.written.contains_key((d, k)));
        }
    }
}

/// A run never gets a log that another identity of this process has got: neither one
/// that the other would get again, nor one that it once got and has been refused
/// since.
pub proof fn lemma_found_log_is_not_anothers(
    world: LogWorld,
    book: BookView,
    dir: Seq<char>,
    id: IdentityView,
    secrets: Seq<Seq<char>>,
    other: Seq<char>,
)
    requires
        consistent(book),
        other != dedup_key_of(id),
        log_name(world, book, dir, id, secrets) is Some,
    ensures
        remembered(book, dir, other) != log_name(world, book, dir, id, secrets),
        log_name(world, book, dir, id, secrets) matches Some(name) && !(book.bound.contains_key(
            (dir, name),
        ) && book.bound[(dir, name)] == other),
{
    let key = dedup_key_of(id);
    let wanted = wanted_for(book, dir, id, secrets);
    let name = log_name(world, book, dir, id, secrets)->0;
    lemma_found_name_is_acquired(world, wanted);
    if book.written.contains_key((dir, key)) {
        assert(book.bound[(dir, book.written[(dir, key)])] == key);
    }
    assert(!bound_to_other(book, dir, key, name)) by {
        if remembered(book, dir, key) != Some(name) {
            assert(!wanted.taken.contains(name));
        }
    }
    if book.written.contains_key((dir, other)) {
        assert(bound_to_other(book, dir, key, book.written[(dir, other)]));
    }
}

/// A name stays bound to the identity that got it, also once that identity finds no
/// name any more.
pub proof fn lemma_bound_names_stay_bound(
    world: LogWorld,
    book: BookView,
    dir: Seq<char>,
    id: IdentityView,
    secrets: Seq<Seq<char>>,
    name: Seq<char>,
)
    requires
        consistent(book),
        book.bound.contains_key((dir, name)),
    ensures
        ({
            let after = noted(book, dir, dedup_key_of(id), log_name(world, book, dir, id, secrets));
            &&& after.bound.contains_key((dir, name))
            &&& after.bound[(dir, name)] == book.bound[(dir, name)]
        }),
{
    lemma_found_name_is_acquired(world, wanted_for(book, dir, id, secrets));
    let found = log_name(world, book, dir, id, secrets);
    if found == Some(name) && remembered(book, dir, dedup_key_of(id)) != found {
        assert(!wanted_for(book, dir, id, secrets).taken.contains(name));
        assert(!bound_to_other(book, dir, dedup_key_of(id), name));
    }
}

/// `stem.log`, or `stem.N.log` where N runs from 2 to the last suffix.
pub open spec fn named_after(stem: Seq<char>, name: Seq<char>) -> bool {
    ||| name == stem + ".log"@
    ||| exists|n: nat|
        2 <= n <= MAX_LOG_SUFFIX && name == stem + seq!['.'] + #[trigger] decimal(n) + ".log"@
}

/// The name that a search settles on is made of the stem and at most a number.
pub proof fn lemma_found_name_follows_the_stem(world: LogWorld, wanted: Wanted)
    ensures
        first_name(world, wanted, 1) matches Some(name) ==> named_after(wanted.stem, name),
{
    lemma_first_own(world, wanted, 1);
    lemma_first_free(world, wanted, 1);
    if let Some(name) = first_name(world, wanted, 1) {
        let k = choose|k: nat| 1 <= k <= MAX_LOG_SUFFIX && name == #[trigger] candidate(wanted.stem, k);
        if k != 1 {
            assert(name == wanted.stem + seq!['.'] + decimal(k) + ".log"@);
        }
    }
}

/// The log of an identity is the one that it got before, or is named after the
/// identity's stem.
pub proof fn lemma_found_log_follows_the_stem(
    world: LogWorld,
    book: BookView,
    dir: Seq<char>,
    id: IdentityView,
    secrets: Seq<Seq<char>>,
)
    ensures
        log_name(world, book, dir, id, secrets) matches Some(name) ==> remembered(
            book,
            dir,
            dedup_key_of(id),
        ) == Some(name) || named_after(stem_of(id, secrets), name),
{
    lemma_found_name_follows_the_stem(world, wanted_for(book, dir, id, secrets));
}

/// Two identities of one process never write to the same log.
pub proof fn lemma_one_log_one_identity(book: BookView, dir: Seq<char>, a: Seq<char>, b: Seq<char>)
    requires
        consistent(book),
        remembered(book, dir, a) is Some,
        remembered(book, dir, a) == remembered(book, dir, b),
    ensures
        a == b,
{
    assert(book.written.contains_key((dir, a)));
    assert(book.written.contains_key((dir, b)));
}

/// Whether every remembered name is made of the stem of the identity that got it.
pub open spec fn well_named(book: BookView, secrets: Seq<Seq<char>>) -> bool {
    forall|dir: Seq<char>, id: IdentityView|
        whole(id) ==> ((#[trigger] remembered(book, dir, dedup_key_of(id))) matches Some(name)
            ==> named_after(stem_of(id, secrets), name))
}

/// Noting what a search found keeps every remembered name made of its identity's stem,
/// while the secrets stay the same.
pub proof fn lemma_noting_keeps_well_named(
    world: LogWorld,
    book: BookView,
    dir: Seq<char>,
    id: IdentityView,
    secrets: Seq<Seq<char>>,
)
    requires
        well_named(book, secrets),
        whole(id),
    ensures
        well_named(
            noted(book, dir, dedup_key_of(id), log_name(world, book, dir, id, secrets)),
            secrets,
        ),
        log_name(world, book, dir, id, secrets) matches Some(name) ==> named_after(
            stem_of(id, secrets),
            name,
        ),
{
    let key = dedup_key_of(id);
    let found = log_name(world, book, dir, id, secrets);
    let after = noted(book, dir, key, found);
    lemma_found_log_follows_the_stem(world, book, dir, id, secrets);
    assert forall|d: Seq<char>, other: IdentityView| whole(other) implies ((#[trigger] remembered(
        after,
        d,
        dedup_key_of(other),
    )) matches Some(name) ==> named_after(stem_of(other, secrets), name)) by {
        if (d, dedup_key_of(other)) == (dir, key) {
            lemma_whole_identities_have_their_keys(other, id);
        } else {
            assert(remembered(after, d, dedup_key_of(other)) == remembered(
                book,
                d,
                dedup_key_of(other),
            ));
        }
    }
}

/// One search of a process: the logs directory as it stood then, the text that stands
/// for it, and whose log was searched for.
pub ghost struct Asked {
    pub world: LogWorld,
    pub dir: Seq<char>,
    pub id: IdentityView,
    pub secrets: Seq<Seq<char>>,
}

/// What a process remembers after some searches.
pub open spec fn book_after(asked: Seq<Asked>) -> BookView
    decreases asked.len(),
{
    if asked.len() == 0 {
        BookView { written: Map::empty(), bound: Map::empty() }
    } else {
        let book = book_after(asked.drop_last());
        let last = asked.last();
        noted(
            book,
            last.dir,
            dedup_key_of(last.id),
            log_name(last.world, book, last.dir, last.id, last.secrets),
        )
    }
}

/// The log that the `i`th search found.
pub open spec fn found_by(asked: Seq<Asked>, i: int) -> Option<Seq<char>> {
    let one = asked[i];
    log_name(one.world, book_after(asked.take(i)), one.dir, one.id, one.secrets)
}

proof fn lemma_book_after_step(asked: Seq<Asked>, i: int)
    requires
        0 <= i < asked.len(),
    ensures
        book_after(asked.take(i + 1)) == noted(
            book_after(asked.take(i)),
            asked[i].dir,
            dedup_key_of(asked[i].id),
            found_by(asked, i),
        ),
{
    assert(asked.take(i + 1).drop_last() =~= asked.take(i));
    assert(asked.take(i + 1).last() == asked[i]);
}

/// What a process remembers is consistent, whatever it has searched for.
pub proof fn lemma_process_book_is_consistent(asked: Seq<Asked>)
    ensures
        consistent(book_after(asked)),
    decreases asked.len(),
{
    if asked.len() > 0 {
        let front = asked.drop_last();
        let last = asked.last();
        lemma_process_book_is_consistent(front);
        lemma_noting_keeps_consistent(
            last.world,
            book_after(front),
            last.dir,
            last.id,
            last.secrets,
        );
    }
}

proof fn lemma_found_name_stays_bound(asked: Seq<Asked>, i: int, j: int)
    requires
        0 <= i < j <= asked.len(),
        found_by(asked, i) is Some,
    ensures
        ({
            let book = book_after(asked.take(j));
            let place = (asked[i].dir, found_by(asked, i)->0);
            book.bound.contains_key(place) && book.bound[place] == dedup_key_of(asked[i].id)
        }),
    decreases j - i,
{
    lemma_book_after_step(asked, j - 1);
    lemma_process_book_is_consistent(asked.take(j - 1));
    let before = book_after(asked.take(j - 1));
    if j == i + 1 {
        let key = dedup_key_of(asked[i].id);
        if remembered(before, asked[i].dir, key) == found_by(asked, i) {
            assert(before.written.contains_key((asked[i].dir, key)));
        }
    } else {
        lemma_found_name_stays_bound(asked, i, j - 1);
        let one = asked[j - 1];
        let name = found_by(asked, i)->0;
        if one.dir == asked[i].dir {
            lemma_bound_names_stay_bound(one.world, before, one.dir, one.id, one.secrets, name);
        }
    }
}

/// In one process and one logs directory, two identities never get the same log,
/// however often each is searched for, whatever stems and claim keys they share, and
/// however the directory and the secrets change in between.
pub proof fn lemma_process_keeps_logs_apart(asked: Seq<Asked>, i: int, j: int)
    requires
        0 <= i < asked.len(),
        0 <= j < asked.len(),
        asked[i].dir == asked[j].dir,
        dedup_key_of(asked[i].id) != dedup_key_of(asked[j].id),
        found_by(asked, i) is Some,
        found_by(asked, j) is Some,
    ensures
        found_by(asked, i) != found_by(asked, j),
{
    let (first, later) = if i < j {
        (i, j)
    } else {
        (j, i)
    };
    lemma_found_name_stays_bound(asked, first, later);
    lemma_process_book_is_consistent(asked.take(later));
    let one = asked[later];
    lemma_found_log_is_not_anothers(
        one.world,
        book_after(asked.take(later)),
        one.dir,
        one.id,
        one.secrets,
        dedup_key_of(asked[first].id),
    );
}

proof fn lemma_process_book_is_well_named(asked: Seq<Asked>, secrets: Seq<Seq<char>>)
    requires
        forall|i: int|
            0 <= i < asked.len() ==> whole((#[trigger] asked[i]).id) && asked[i].secrets == secrets,
    ensures
        well_named(book_after(asked), secrets),
    decreases asked.len(),
{
    if asked.len() > 0 {
        let front = asked.drop_last();
        assert(forall|i: int| 0 <= i < front.len() ==> #[trigger] front[i] == asked[i]);
        assert(asked[asked.len() - 1] == asked.last());
        lemma_process_book_is_well_named(front, secrets);
        lemma_noting_keeps_well_named(
            asked.last().world,
            book_after(front),
            asked.last().dir,
            asked.last().id,
            secrets,
        );
    }
}

/// In one process with one list of secrets, every log that is found is its identity's
/// stem followed by `.log`, or by `.N.log` with N from 2 to [`MAX_LOG_SUFFIX`]. This
/// leaves out identities with a part that is there but empty: they share their key with
/// one that lacks it.
pub proof fn lemma_process_names_logs_by_their_stems(
    asked: Seq<Asked>,
    secrets: Seq<Seq<char>>,
    j: int,
)
    requires
        0 <= j < asked.len(),
        forall|i: int|
            0 <= i <= j ==> whole((#[trigger] asked[i]).id) && asked[i].secrets == secrets,
    ensures
        found_by(asked, j) matches Some(name) ==> named_after(stem_of(asked[j].id, secrets), name),
{
    let front = asked.take(j);
    assert(forall|i: int| 0 <= i < front.len() ==> #[trigger] front[i] == asked[i]);
    lemma_process_book_is_well_named(front, secrets);
    lemma_noting_keeps_well_named(
        asked[j].world,
        book_after(front),
        asked[j].dir,
        asked[j].id,
        secrets,
    );
}

/// The logs directory that is made of what stands at each name, for a run whose claims
/// have this key, and where `token` gives the token that it would make for a name.
pub open spec fn directory_of(
    at: spec_fn(Seq<char>) -> Standing,
    key: Seq<char>,
    token: spec_fn(Seq<char>) -> Seq<char>,
) -> LogWorld {
    LogWorld {
        claim: |name: Seq<char>| standing_claim(at(name)),
        owned: |name: Seq<char>, record: RecordView| acquired(at(name), name, record).0 is Granted,
        fresh: |name: Seq<char>|
            acquired(at(name), name, RecordView { token: token(name), key }).0 is Granted,
    }
}

/// A run never overwrites another's log: at the name that it gets there is no log yet,
/// or the sidecar there holds a record with the key of this run's claims.
pub proof fn lemma_found_log_is_new_or_own(
    at: spec_fn(Seq<char>) -> Standing,
    token: spec_fn(Seq<char>) -> Seq<char>,
    book: BookView,
    dir: Seq<char>,
    id: IdentityView,
    secrets: Seq<Seq<char>>,
)
    ensures
        ({
            let world = directory_of(at, claim_key_of(id, secrets), token);
            log_name(world, book, dir, id, secrets) matches Some(name) ==> !at(name).log || (standing_claim(
                at(name),
            ) matches ClaimView::Record(record) && record.key == claim_key_of(id, secrets))
        }),
{
    let key = claim_key_of(id, secrets);
    let world = directory_of(at, key, token);
    let wanted = wanted_for(book, dir, id, secrets);
    if let Some(name) = log_name(world, book, dir, id, secrets) {
        if own_log(world, key, name) {
        } else {
            lemma_found_name_is_acquired(world, wanted);
            assert((world.fresh)(name));
            lemma_granted_name_loses_nothing(at(name), name, RecordView { token: token(name), key });
        }
    }
}

proof fn lemma_suffix_len(n: nat)
    requires
        1 <= n <= MAX_LOG_SUFFIX,
    ensures
        decimal(n).len() <= 4,
        forall|i: int| 0 <= i < decimal(n).len() ==> (#[trigger] decimal(n)[i]) as u32 <= 0x7f,
{
    reveal(vstd::arithmetic::power::pow);
    assert(vstd::arithmetic::power::pow(10, 4) == 10000) by {
        reveal_with_fuel(vstd::arithmetic::power::pow, 5);
    }
    lemma_decimal_len(n, 4);
    lemma_decimal_is_digits(n);
    assert forall|i: int| 0 <= i < decimal(n).len() implies (#[trigger] decimal(n)[i]) as u32 <= 0x7f by {
        assert(is_digit(decimal(n)[i]));
    }
}

/// Every log name, and the name of its sidecar too, is short enough for the
/// filesystem.
pub proof fn lemma_names_fit(stem: Seq<char>, n: nat)
    requires
        byte_len(stem) <= MAX_STEM_BYTES,
        1 <= n <= MAX_LOG_SUFFIX,
    ensures
        byte_len(candidate(stem, n)) <= MAX_LOG_FILE_NAME,
        byte_len(sidecar_name(candidate(stem, n))) <= MAX_LOG_FILE_NAME,
{
    reveal_strlit(".log");
    reveal_strlit(".claim");
    lemma_suffix_len(n);
    let end = if n == 1 {
        ".log"@
    } else {
        seq!['.'] + decimal(n) + ".log"@
    };
    assert(".log"@ =~= seq!['.', 'l', 'o', 'g']);
    assert(".claim"@ =~= seq!['.', 'c', 'l', 'a', 'i', 'm']);
    assert forall|i: int| 0 <= i < end.len() implies (#[trigger] end[i]) as u32 <= 0x7f by {
        if n != 1 && 1 <= i < 1 + decimal(n).len() {
            assert(end[i] == decimal(n)[i - 1]);
        }
    }
    lemma_ascii_byte_len(end);
    assert(candidate(stem, n) =~= stem + end);
    lemma_encode_concat(stem, end);
    let name = candidate(stem, n);
    lemma_ascii_byte_len(seq!['.']);
    lemma_ascii_byte_len(".claim"@);
    lemma_encode_concat(seq!['.'], name);
    lemma_encode_concat(seq!['.'] + name, ".claim"@);
}

/// The names of the logs of a stem: `stem.log`, then `stem.2.log`, `stem.3.log` and so on.
pub proof fn lemma_names_of_a_stem(stem: Seq<char>, n: nat)
    ensures
        candidate(stem, 1) == stem + ".log"@,
        n > 1 ==> candidate(stem, n) == stem + seq!['.'] + decimal(n) + ".log"@,
{
}

/// A run that has no log of its own yet takes the lowest name that nobody else of this
/// process has and that it can get, up to the thousandth.
pub proof fn lemma_new_log_gets_the_lowest_free_name(world: LogWorld, wanted: Wanted, k: nat)
    requires
        1 <= k <= 1000,
        forall|j: nat|
            1 <= j <= 1000 ==> wanted.taken.contains(#[trigger] candidate(wanted.stem, j)) || !own_log(
                world,
                wanted.key,
                candidate(wanted.stem, j),
            ),
        !wanted.taken.contains(candidate(wanted.stem, k)),
        (world.fresh)(candidate(wanted.stem, k)),
        forall|j: nat|
            1 <= j < k ==> wanted.taken.contains(#[trigger] candidate(wanted.stem, j)) || !(world.fresh)(
                candidate(wanted.stem, j),
            ),
    ensures
        first_name(world, wanted, 1) == Some(candidate(wanted.stem, k)),
{
    lemma_first_own(world, wanted, 1);
    lemma_first_free_from(world, wanted, 1, k);
}

proof fn lemma_first_free_from(world: LogWorld, wanted: Wanted, n: nat, k: nat)
    requires
        1 <= n <= k <= MAX_LOG_SUFFIX,
        !wanted.taken.contains(candidate(wanted.stem, k)),
        (world.fresh)(candidate(wanted.stem, k)),
        forall|j: nat|
            n <= j < k ==> wanted.taken.contains(#[trigger] candidate(wanted.stem, j)) || !(world.fresh)(
                candidate(wanted.stem, j),
            ),
    ensures
        first_free(world, wanted, n) == Some(candidate(wanted.stem, k)),
    decreases k - n,
{
    if n < k {
        assert(wanted.taken.contains(candidate(wanted.stem, n)) || !(world.fresh)(
            candidate(wanted.stem, n),
        ));
        lemma_first_free_from(world, wanted, n + 1, k);
    }
}

/// A log is a run's own if and only if its sidecar holds a record with the key of the run
/// and the name can be acquired under that record.
pub proof fn lemma_own_log_by_its_claim(world: LogWorld, key: Seq<char>, name: Seq<char>)
    ensures
        match (world.claim)(name) {
            ClaimView::Record(record) => own_log(world, key, name) == (record.key == key && (world.owned)(
                name,
                record,
            )),
            _ => !own_log(world, key, name),
        },
{
}

/// What is searched for: the stem and the claim key of the identity, and no name that this
/// process has given to another identity in the same directory.
pub proof fn lemma_search_wants(
    book: BookView,
    dir: Seq<char>,
    id: IdentityView,
    secrets: Seq<Seq<char>>,
    name: Seq<char>,
)
    ensures
        ({
            let wanted = wanted_for(book, dir, id, secrets);
            &&& wanted.stem == stem_of(id, secrets)
            &&& wanted.key == claim_key_of(id, secrets)
            &&& wanted.taken.contains(name) == (book.bound.contains_key((dir, name)) && book.bound[(
                dir,
                name,
            )] != dedup_key_of(id))
        }),
{
}

/// What a search asks for at each stage: the claim of a name; the name, under the record
/// that was found there; or the name, under the key of the run.
pub proof fn lemma_search_asks(search: SearchView, name: Seq<char>, record: RecordView, n: nat)
    ensures
        ({
            let wanted = search.wanted;
            let own = candidate(wanted.stem, n);
            let at = |stage: Stage| search_request(SearchView { wanted, stage });
            &&& at(Stage::Recall(name)) == RequestView::ReadClaim(name)
            &&& at(Stage::Renew(name, record)) == RequestView::AcquireOwned(name, record)
            &&& at(Stage::Look(n)) == RequestView::ReadClaim(own)
            &&& at(Stage::Reuse(n, record)) == RequestView::AcquireOwned(own, record)
            &&& at(Stage::Take(n)) == RequestView::AcquireFresh(own, wanted.key)
            &&& at(Stage::Done(Some(name))) == RequestView::Found(name)
            &&& at(Stage::Done(None)) == RequestView::Exhausted
        }),
{
}

/// What noting a name does: this identity has it in this directory from then on, and it is
/// bound to it; what any other identity has, here or elsewhere, and every other binding
/// stay. Where none was found the identity has none, and every binding stays.
pub proof fn lemma_noting_a_name(
    book: BookView,
    dir: Seq<char>,
    key: Seq<char>,
    name: Seq<char>,
    place: (Seq<char>, Seq<char>),
)
    requires
        consistent(book),
    ensures
        ({
            let after = noted(book, dir, key, Some(name));
            &&& remembered(after, dir, key) == Some(name)
            &&& after.bound.contains_key((dir, name)) && after.bound[(dir, name)] == key
            &&& place != (dir, key) ==> remembered(after, place.0, place.1) == remembered(
                book,
                place.0,
                place.1,
            )
            &&& place != (dir, name) ==> after.bound.contains_key(place) == book.bound.contains_key(place)
                && (book.bound.contains_key(place) ==> after.bound[place] == book.bound[place])
        }),
        ({
            let after = noted(book, dir, key, None);
            &&& remembered(after, dir, key) is None
            &&& place != (dir, key) ==> remembered(after, place.0, place.1) == remembered(
                book,
                place.0,
                place.1,
            )
            &&& after.bound == book.bound
        }),
{
    if remembered(book, dir, key) == Some(name) {
        assert(book.written.contains_key((dir, key)));
    }
}

/// Without a free name the run is told so, by the stem.
pub proof fn lemma_exhaustion_is_told(stem: Seq<char>)
    ensures
        exhausted_fault(stem) == ErrorView::Process(
            "cannot find a free log name for '"@ + stem
                + "': 1000 candidates are already taken or held by other runs"@,
        ),
{
}

/// A log that this process remembers as the identity's is used again while it is still its
/// own; otherwise the identity is searched for as if it were new.
pub proof fn lemma_remembered_log_is_used_again(
    world: LogWorld,
    book: BookView,
    dir: Seq<char>,
    id: IdentityView,
    secrets: Seq<Seq<char>>,
    name: Seq<char>,
)
    ensures
        ({
            let found = log_name(world, book, dir, id, secrets);
            let anew = first_name(world, wanted_for(book, dir, id, secrets), 1);
            let known = book.written.contains_key((dir, dedup_key_of(id))) && book.written[(
                dir,
                dedup_key_of(id),
            )] == name;
            &&& known && own_log(world, claim_key_of(id, secrets), name) ==> found == Some(name)
            &&& known && !own_log(world, claim_key_of(id, secrets), name) ==> found == anew
            &&& !book.written.contains_key((dir, dedup_key_of(id))) ==> found == anew
        }),
{
}

} // verus!
