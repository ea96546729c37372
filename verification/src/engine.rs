//! The decisions of one upload, from the first read to the last report.
//!
//! The engine neither reads nor sends. It is told what has happened, one event
//! at a time, and answers each event with the one thing to do next. Whoever
//! runs it does that thing and comes back with the event that it led to.

use crate::assemble::{assemble, can_finalize, in_order, lemma_one_for_each, rearranged};
use crate::chunker::{
    block_at, block_count, chunker_wf, fed, fits, fresh, lemma_fed, ChunkStep, ChunkStepView,
    Chunker, ChunkerView,
};
use crate::ledger::{accepted, ledger_wf, opened, spent, Ledger, LedgerView, Token};
use crate::part::{Block, CompletedPart, PartOutcome, PartUploader, PartUploaderView};
use crate::session::UploadSession;
use vstd::prelude::*;
use vstd::string::StringExecFns;

verus! {

/// Why an upload was given up.
#[derive(Debug, PartialEq, Eq)]
pub enum UploadError {
    /// Reading the input failed.
    Read(String),
    /// The upload of a part failed for good.
    PartFailed(String),
    /// The backend refused to complete the upload.
    Finalize(String),
    /// The records that came back are not those of the parts sent.
    MissingParts,
    /// The input has more blocks than there are part numbers.
    TooManyParts,
    /// A block is to be read and no token can ever come for it.
    NoTokens,
    /// The pool of tokens is closed; with what the pool said of it.
    PoolClosed(String),
    /// A token came that is none of the pool's.
    PoolCorrupt,
    /// Something was reported that the upload was not waiting for.
    Unexpected,
}

impl UploadError {
    /// The same error once more.
    pub fn copy(&self) -> (c: UploadError)
        ensures
            c == *self,
    {
        match self {
            UploadError::Read(m) => UploadError::Read(m.clone()),
            UploadError::PartFailed(m) => UploadError::PartFailed(m.clone()),
            UploadError::Finalize(m) => UploadError::Finalize(m.clone()),
            UploadError::MissingParts => UploadError::MissingParts,
            UploadError::TooManyParts => UploadError::TooManyParts,
            UploadError::NoTokens => UploadError::NoTokens,
            UploadError::PoolClosed(m) => UploadError::PoolClosed(m.clone()),
            UploadError::PoolCorrupt => UploadError::PoolCorrupt,
            UploadError::Unexpected => UploadError::Unexpected,
        }
    }
}

impl UploadError {
    /// The error in words.
    pub open spec fn message_text(self) -> Seq<char> {
        match self {
            UploadError::Read(detail) => detail@,
            UploadError::PartFailed(detail) => "Failed to upload part: "@ + detail@,
            UploadError::Finalize(detail) => detail@,
            UploadError::MissingParts => "Uploaded parts do not match the parts sent"@,
            UploadError::TooManyParts => "Input has too many parts"@,
            UploadError::NoTokens => "No upload token available"@,
            UploadError::PoolClosed(detail) => "Failed communicate with threads: "@ + detail@,
            UploadError::PoolCorrupt => "Unexpected token from threads"@,
            UploadError::Unexpected => "Unexpected event"@,
        }
    }

    /// What is said when the session is about to be aborted over the error.
    pub open spec fn notice_text(self) -> Seq<char> {
        "Aborting upload: "@ + self.message_text()
    }

    /// What is said when the session is about to be aborted over the error.
    pub fn notice(&self) -> (text: String)
        ensures
            text@ == self.notice_text(),
    {
        let cause = self.message();
        String::from_str("Aborting upload: ").concat(cause.as_str())
    }

    /// The error in words.
    pub fn message(&self) -> (text: String)
        ensures
            text@ == self.message_text(),
    {
        match self {
            UploadError::Read(detail) => detail.clone(),
            UploadError::PartFailed(detail) => String::from_str("Failed to upload part: ").concat(
                detail.as_str(),
            ),
            UploadError::Finalize(detail) => detail.clone(),
            UploadError::MissingParts => String::from_str(
                "Uploaded parts do not match the parts sent",
            ),
            UploadError::TooManyParts => String::from_str("Input has too many parts"),
            UploadError::NoTokens => String::from_str("No upload token available"),
            UploadError::PoolClosed(detail) => String::from_str(
                "Failed communicate with threads: ",
            ).concat(detail.as_str()),
            UploadError::PoolCorrupt => String::from_str("Unexpected token from threads"),
            UploadError::Unexpected => String::from_str("Unexpected event"),
        }
    }
}

/// How an upload failed: why it was given up, and what went wrong when its
/// session was aborted, if anything did.
#[derive(Debug, PartialEq, Eq)]
pub struct UploadFailure {
    pub cause: UploadError,
    pub abort_error: Option<String>,
}

impl UploadFailure {
    /// What is said in the end: what went wrong with the abort, if anything
    /// did, and else that the upload has failed.
    pub open spec fn message_text(self) -> Seq<char> {
        match self.abort_error {
            Some(detail) => detail@,
            None => "Failed upload"@,
        }
    }

    /// What is said in the end.
    pub fn message(&self) -> (text: String)
        ensures
            text@ == self.message_text(),
    {
        match &self.abort_error {
            Some(detail) => detail.clone(),
            None => String::from_str("Failed upload"),
        }
    }
}

/// What has happened since the last decision.
#[derive(Debug, PartialEq, Eq)]
pub enum Event {
    /// The session is open and nothing has been read.
    Start,
    /// A read returned these bytes; none at all at the end of the input.
    Read(Vec<u8>),
    /// A read failed.
    ReadFailed(String),
    /// A token came out of the pool.
    Token(Token),
    /// The pool will never hand out a token again; with what it said of it.
    PoolClosed(String),
    /// The upload of the block is on its way.
    Dispatched,
    /// The call that completes the upload has returned.
    Finalized(Result<(), String>),
    /// The call that aborts the session has returned.
    Aborted(Result<(), String>),
}

/// What to do next.
#[derive(Debug, PartialEq, Eq)]
pub enum Decision {
    /// Read at most `max_len` bytes and report `Read` or `ReadFailed`.
    Read { max_len: usize },
    /// Wait for a token from the pool and report `Token` or `PoolClosed`.
    Acquire,
    /// Start the upload of `block`, which owns a token from now on, and report
    /// `Dispatched`. The upload hands its token back with its outcome.
    Dispatch { session: UploadSession, block: Block, uploader: PartUploader },
    /// Complete the upload with this list of parts and report `Finalized`.
    Finalize { session: UploadSession, parts: Vec<CompletedPart> },
    /// Abort the session, over `cause`, and report `Aborted`.
    Abort { session: UploadSession, cause: UploadError },
    /// The upload is over.
    Finished(Result<(), UploadFailure>),
}

impl Decision {
    /// Whether the decision is to wait for a token.
    pub fn is_acquire(&self) -> (b: bool)
        ensures
            b == (*self is Acquire),
    {
        match self {
            Decision::Acquire => true,
            _ => false,
        }
    }
}

/// Where an upload stands.
#[derive(Clone, Copy, Debug, PartialEq, Eq, Structural)]
pub enum Stage {
    /// Nothing has happened.
    Fresh,
    /// A token is in hand and a read is under way.
    Reading,
    /// The token for the next block is waited for.
    Acquiring,
    /// The upload of a block is being started.
    Dispatching,
    /// Nothing more is read; the tokens are being gathered.
    Draining,
    /// The call that completes the upload is under way.
    Finalizing,
    /// The call that aborts the session is under way.
    Aborting,
    /// The upload has been completed.
    Completed,
    /// The upload has failed and its session was aborted.
    Aborted,
}

/// The life of an upload in the large.
#[derive(Clone, Copy, Debug, PartialEq, Eq, Structural)]
pub enum Phase {
    Uploading,
    Finalizing,
    Completed,
    Aborted,
}

/// The part of the life of an upload that a stage belongs to.
pub open spec fn phase_of(stage: Stage) -> Phase {
    match stage {
        Stage::Fresh | Stage::Reading | Stage::Acquiring | Stage::Dispatching | Stage::Draining =>
            Phase::Uploading,
        Stage::Finalizing => Phase::Finalizing,
        Stage::Completed => Phase::Completed,
        Stage::Aborting | Stage::Aborted => Phase::Aborted,
    }
}

/// What an engine is, as far as its behaviour goes.
pub struct EngineView {
    pub session: UploadSession,
    /// How often the upload of a part may be retried.
    pub max_retries: u32,
    pub stage: Stage,
    pub chunker: ChunkerView,
    pub ledger: LedgerView,
    /// Why the upload is given up, once it is.
    pub cause: Option<UploadError>,
    /// What went wrong when the session was aborted.
    pub abort_error: Option<String>,
    /// How often the decision was to abort the session.
    pub aborts: nat,
    /// How often the decision was to complete the upload.
    pub finalizes: nat,
    /// How often the decision was to start the upload of a block.
    pub dispatches: nat,
}

/// The cause on record: the first one.
pub open spec fn first_cause(earlier: Option<UploadError>, cause: UploadError) -> UploadError {
    match earlier {
        Some(first) => first,
        None => cause,
    }
}

/// The upload is given up over `cause`, and the session is to be aborted.
pub open spec fn gives_up(pre: EngineView, cause: UploadError, post: EngineView, d: Decision) -> bool {
    &&& post == EngineView {
        stage: Stage::Aborting,
        cause: Some(first_cause(pre.cause, cause)),
        aborts: pre.aborts + 1,
        ..pre
    }
    &&& d == Decision::Abort { session: pre.session, cause: first_cause(pre.cause, cause) }
}

/// Every token is back. The upload is completed with the list of its parts,
/// unless something has gone wrong or the records are not those of the parts
/// sent; then it is given up, over the first thing that went wrong.
pub open spec fn concludes(pre: EngineView, post: EngineView, d: Decision) -> bool {
    match pre.cause {
        Some(cause) => gives_up(pre, cause, post, d),
        None => match pre.ledger.failure {
            Some(error) => gives_up(pre, UploadError::PartFailed(error), post, d),
            None => {
                let mid = EngineView {
                    ledger: LedgerView { parts: Seq::empty(), ..pre.ledger },
                    ..pre
                };
                if can_finalize(pre.ledger.parts, pre.chunker.emitted as int) {
                    &&& post == EngineView {
                        stage: Stage::Finalizing,
                        finalizes: pre.finalizes + 1,
                        ..mid
                    }
                    &&& d matches Decision::Finalize { session, parts }
                    &&& session == pre.session
                    &&& in_order(parts@, pre.chunker.emitted as int)
                    &&& rearranged(parts@, pre.ledger.parts)
                } else {
                    gives_up(mid, UploadError::MissingParts, post, d)
                }
            },
        },
    }
}

/// Nothing more is read. While a token is idle or in flight the next one is
/// waited for; after the last the upload concludes.
pub open spec fn drains(pre: EngineView, post: EngineView, d: Decision) -> bool {
    if pre.ledger.in_hand < pre.ledger.capacity {
        post == EngineView { stage: Stage::Draining, ..pre } && d == Decision::Acquire
    } else {
        concludes(pre, post, d)
    }
}

/// Something went wrong while uploads may be in flight: the cause is put on
/// record and the tokens are gathered.
pub open spec fn fails(pre: EngineView, cause: UploadError, post: EngineView, d: Decision) -> bool {
    drains(EngineView { cause: Some(first_cause(pre.cause, cause)), ..pre }, post, d)
}

/// How many blocks lie in memory: one for each upload in flight, and one more
/// while bytes of the next block are gathered.
pub open spec fn resident(e: EngineView) -> nat {
    e.ledger.in_flight + if e.chunker.pending.len() > 0 {
        1nat
    } else {
        0nat
    }
}

/// The next block is begun with the wait for its token: nothing of a block is
/// read before a token is in hand for it. Where no token can ever come the
/// upload is given up.
pub open spec fn begins(pre: EngineView, post: EngineView, d: Decision) -> bool {
    if pre.ledger.in_hand < pre.ledger.capacity {
        post == EngineView { stage: Stage::Acquiring, ..pre } && d == Decision::Acquire
    } else {
        gives_up(pre, UploadError::NoTokens, post, d)
    }
}

/// The next read is asked for, of no more than the block still lacks.
pub open spec fn reads(pre: EngineView, post: EngineView, d: Decision) -> bool {
    &&& post == EngineView { stage: Stage::Reading, ..pre }
    &&& d == Decision::Read {
        max_len: (pre.chunker.block_size - pre.chunker.pending.len()) as usize,
    }
}

/// What follows a read that returned `data`. A block that the read has
/// completed is sent at once, on the token that was in hand for it.
pub open spec fn after_read(pre: EngineView, data: Seq<u8>, post: EngineView, d: Decision) -> bool {
    let mid = EngineView { chunker: fed(pre.chunker, data).0, ..pre };
    match fed(pre.chunker, data).1 {
        ChunkStepView::NeedMore => reads(mid, post, d),
        ChunkStepView::Emit { part_number, payload } => if mid.ledger.in_hand > 0 {
            &&& post == EngineView {
                stage: Stage::Dispatching,
                ledger: spent(mid.ledger),
                dispatches: mid.dispatches + 1,
                ..mid
            }
            &&& d matches Decision::Dispatch { session, block, uploader }
            &&& session == pre.session
            &&& block.part_number == part_number
            &&& block.payload@ == payload
            &&& uploader@ == (PartUploaderView {
                part_number,
                max_retries: pre.max_retries as nat,
                retries: 0,
            })
        } else {
            gives_up(mid, UploadError::Unexpected, post, d)
        },
        ChunkStepView::EndOfStream => drains(mid, post, d),
        ChunkStepView::TooManyParts => fails(mid, UploadError::TooManyParts, post, d),
    }
}

/// What follows a token that came for the next block. A token that brings a
/// failure ends the sending; with any other in hand the block is read.
pub open spec fn after_token(pre: EngineView, token: Token, post: EngineView, d: Decision) -> bool {
    match accepted(pre.ledger, token) {
        None => gives_up(pre, UploadError::PoolCorrupt, post, d),
        Some(ledger) => if ledger.failure is Some {
            drains(EngineView { ledger, ..pre }, post, d)
        } else {
            reads(EngineView { ledger, ..pre }, post, d)
        },
    }
}

/// The report of an upload that has failed.
pub open spec fn failure_of(e: EngineView) -> UploadFailure {
    UploadFailure { cause: first_cause(e.cause, UploadError::Unexpected), abort_error: e.abort_error }
}

/// One step of an upload: from the state `pre`, the event leads to the state
/// `post` and the decision `d`. An event that the state was not waiting for
/// makes a running upload give up, and changes nothing once the upload is
/// over.
pub open spec fn steps(pre: EngineView, event: Event, post: EngineView, d: Decision) -> bool {
    match pre.stage {
        Stage::Fresh => match event {
            Event::Start => begins(pre, post, d),
            _ => gives_up(pre, UploadError::Unexpected, post, d),
        },
        Stage::Reading => match event {
            Event::Read(data) => if fits(pre.chunker, data@) {
                after_read(pre, data@, post, d)
            } else {
                gives_up(pre, UploadError::Unexpected, post, d)
            },
            Event::ReadFailed(message) => fails(pre, UploadError::Read(message), post, d),
            _ => gives_up(pre, UploadError::Unexpected, post, d),
        },
        Stage::Acquiring => match event {
            Event::Token(token) => after_token(pre, token, post, d),
            Event::PoolClosed(detail) => gives_up(
                pre,
                UploadError::PoolClosed(detail),
                post,
                d,
            ),
            _ => gives_up(pre, UploadError::Unexpected, post, d),
        },
        Stage::Dispatching => match event {
            Event::Dispatched => if pre.chunker.finished {
                drains(pre, post, d)
            } else {
                begins(pre, post, d)
            },
            _ => gives_up(pre, UploadError::Unexpected, post, d),
        },
        Stage::Draining => match event {
            Event::Token(token) => match accepted(pre.ledger, token) {
                Some(ledger) => drains(EngineView { ledger, ..pre }, post, d),
                None => gives_up(pre, UploadError::PoolCorrupt, post, d),
            },
            Event::PoolClosed(detail) => gives_up(
                pre,
                UploadError::PoolClosed(detail),
                post,
                d,
            ),
            _ => gives_up(pre, UploadError::Unexpected, post, d),
        },
        Stage::Finalizing => match event {
            Event::Finalized(Ok(_)) => {
                &&& post == EngineView { stage: Stage::Completed, ..pre }
                &&& d == Decision::Finished(Ok(()))
            },
            Event::Finalized(Err(message)) => gives_up(
                pre,
                UploadError::Finalize(message),
                post,
                d,
            ),
            _ => gives_up(pre, UploadError::Unexpected, post, d),
        },
        Stage::Aborting => {
            let abort_error = match event {
                Event::Aborted(Err(message)) => Some(message),
                _ => None,
            };
            &&& post == EngineView { stage: Stage::Aborted, abort_error, ..pre }
            &&& d == Decision::Finished(Err(failure_of(post)))
        },
        Stage::Completed => post == pre && d == Decision::Finished(Ok(())),
        Stage::Aborted => post == pre && d == Decision::Finished(Err(failure_of(pre))),
    }
}

/// The states that an upload can be in.
pub open spec fn engine_wf(e: EngineView) -> bool {
    &&& chunker_wf(e.chunker)
    &&& ledger_wf(e.ledger)
    &&& e.aborts <= 1
    &&& e.finalizes <= 1
    &&& e.aborts == 1 <==> phase_of(e.stage) == Phase::Aborted
    &&& e.aborts == 1 ==> e.cause is Some
    &&& phase_of(e.stage) == Phase::Uploading ==> e.finalizes == 0
    &&& (phase_of(e.stage) == Phase::Finalizing || e.stage == Stage::Completed) ==> e.finalizes == 1
        && e.cause is None
    &&& e.finalizes == 1 ==> {
        &&& e.ledger.failure is None
        &&& e.ledger.in_flight == 0
        &&& e.chunker.finished
        &&& !e.chunker.overflowed
    }
    &&& e.chunker.overflowed ==> e.cause is Some
    &&& e.stage == Stage::Draining && e.cause is None && e.ledger.failure is None
        ==> e.chunker.finished
    &&& e.dispatches <= e.chunker.emitted
    &&& e.finalizes == 0 && e.cause is None && e.ledger.failure is None ==> e.ledger.parts.len()
        + e.ledger.in_flight == e.dispatches
    &&& e.cause is None && e.ledger.failure is None ==> e.chunker.emitted == e.dispatches
    &&& (e.stage == Stage::Fresh || e.stage == Stage::Acquiring || e.stage == Stage::Dispatching)
        ==> e.ledger.in_hand == 0
    &&& e.stage == Stage::Reading ==> e.ledger.in_hand == 1
    &&& e.chunker.pending.len() > 0 ==> e.ledger.in_hand >= 1
    &&& resident(e) <= e.ledger.capacity
    &&& (e.stage == Stage::Fresh || e.stage == Stage::Reading || e.stage == Stage::Acquiring
        || e.stage == Stage::Dispatching) ==> e.cause is None && e.ledger.failure is None
}

/// A step leaves an upload in order. The decision to abort is made when the
/// upload is given up and at no other time, so at most once; the decision to
/// complete is made at most once, and never after a part has failed or the
/// upload was given up. What went wrong first stays on record. No more
/// blocks lie in memory than there are tokens, the block being gathered
/// counted, and a block that is sent bears the number of the last block cut.
pub proof fn lemma_steps(pre: EngineView, event: Event, post: EngineView, d: Decision)
    requires
        engine_wf(pre),
        steps(pre, event, post, d),
    ensures
        engine_wf(post),
        post.session == pre.session,
        post.max_retries == pre.max_retries,
        post.ledger.capacity == pre.ledger.capacity,
        post.chunker.block_size == pre.chunker.block_size,
        post.ledger.in_flight <= post.ledger.capacity,
        resident(post) <= post.ledger.capacity,
        post.aborts == pre.aborts + if d is Abort { 1nat } else { 0nat },
        post.finalizes == pre.finalizes + if d is Finalize { 1nat } else { 0nat },
        post.dispatches == pre.dispatches + if d is Dispatch { 1nat } else { 0nat },
        d matches Decision::Abort { cause, .. } ==> post.cause == Some(cause),
        d is Finalize ==> post.cause is None && post.ledger.failure is None,
        pre.cause is Some ==> post.cause == pre.cause,
        pre.ledger.failure is Some ==> post.ledger.failure == pre.ledger.failure,
        (pre.cause is Some || pre.ledger.failure is Some) ==> d !is Finalize && d !is Dispatch && d
            !is Read,
        d matches Decision::Finished(Ok(_)) ==> post.stage == Stage::Completed,
        d matches Decision::Finished(Err(failure)) ==> post.stage == Stage::Aborted && post.cause
            == Some(failure.cause),
        d matches Decision::Dispatch { block, .. } ==> block.part_number == post.dispatches
            && block.payload@ == block_at(
            post.chunker.consumed,
            post.chunker.block_size,
            (post.dispatches - 1) as nat,
        ) && post.ledger.in_flight >= 1,
        d matches Decision::Finalize { parts, .. } ==> in_order(parts@, post.dispatches as int)
            && post.dispatches == block_count(
            post.chunker.consumed.len(),
            post.chunker.block_size,
        ),
{
    match pre.stage {
        Stage::Reading => {
            if let Event::Read(data) = event {
                if fits(pre.chunker, data@) {
                    lemma_fed(pre.chunker, data@);
                }
            }
        },
        _ => {},
    }
}

/// The state in which step `i` of a run begins: the state at the start for
/// the first step, for every other the state that the step before has led to.
pub open spec fn state_before(start: EngineView, states: Seq<EngineView>, i: int) -> EngineView {
    if i == 0 {
        start
    } else {
        states[i - 1]
    }
}

/// From `start` the engine takes one step for each of `events`, in turn; step
/// `i` leads to the state `states[i]` and the decision `decisions[i]`.
pub open spec fn history(
    start: EngineView,
    events: Seq<Event>,
    states: Seq<EngineView>,
    decisions: Seq<Decision>,
) -> bool {
    &&& states.len() == events.len()
    &&& decisions.len() == events.len()
    &&& forall|i: int|
        0 <= i < events.len() ==> steps(
            state_before(start, states, i),
            #[trigger] events[i],
            states[i],
            decisions[i],
        )
}

/// How many of the decisions are to abort the session.
pub open spec fn aborts_in(decisions: Seq<Decision>) -> nat
    decreases decisions.len(),
{
    if decisions.len() == 0 {
        0
    } else {
        aborts_in(decisions.drop_last()) + if decisions.last() is Abort {
            1nat
        } else {
            0nat
        }
    }
}

/// How many of the decisions are to complete the upload.
pub open spec fn finalizes_in(decisions: Seq<Decision>) -> nat
    decreases decisions.len(),
{
    if decisions.len() == 0 {
        0
    } else {
        finalizes_in(decisions.drop_last()) + if decisions.last() is Finalize {
            1nat
        } else {
            0nat
        }
    }
}

/// How many of the decisions are to start the upload of a block.
pub open spec fn dispatches_in(decisions: Seq<Decision>) -> nat
    decreases decisions.len(),
{
    if decisions.len() == 0 {
        0
    } else {
        dispatches_in(decisions.drop_last()) + if decisions.last() is Dispatch {
            1nat
        } else {
            0nat
        }
    }
}

/// The state that a history ends in.
pub open spec fn state_after(start: EngineView, states: Seq<EngineView>) -> EngineView {
    state_before(start, states, states.len() as int)
}

/// A history without its last step is a history, and it ends where the last
/// step begins.
proof fn lemma_history_prefix(
    start: EngineView,
    events: Seq<Event>,
    states: Seq<EngineView>,
    decisions: Seq<Decision>,
)
    requires
        history(start, events, states, decisions),
        events.len() > 0,
    ensures
        history(start, events.drop_last(), states.drop_last(), decisions.drop_last()),
        state_after(start, states.drop_last()) == state_before(start, states, events.len() - 1),
        steps(
            state_after(start, states.drop_last()),
            events.last(),
            states.last(),
            decisions.last(),
        ),
{
    let earlier_events = events.drop_last();
    let earlier_states = states.drop_last();
    assert forall|i: int| 0 <= i < earlier_events.len() implies steps(
        state_before(start, earlier_states, i),
        #[trigger] earlier_events[i],
        earlier_states[i],
        decisions.drop_last()[i],
    ) by {
        assert(earlier_events[i] == events[i]);
        assert(state_before(start, earlier_states, i) == state_before(start, states, i));
    }
    let last = events.last();
    assert(last == events[events.len() - 1]);
}

/// Through any history every state is in order, the counts in the state are
/// the counts of the decisions made, the block that a decision sends bears
/// the number of that decision among those that send, and a failure once
/// seen stays on record.
pub proof fn lemma_history(
    start: EngineView,
    events: Seq<Event>,
    states: Seq<EngineView>,
    decisions: Seq<Decision>,
)
    requires
        engine_wf(start),
        history(start, events, states, decisions),
    ensures
        engine_wf(state_after(start, states)),
        state_after(start, states).session == start.session,
        state_after(start, states).ledger.capacity == start.ledger.capacity,
        state_after(start, states).chunker.block_size == start.chunker.block_size,
        state_after(start, states).aborts == start.aborts + aborts_in(decisions),
        state_after(start, states).finalizes == start.finalizes + finalizes_in(decisions),
        state_after(start, states).dispatches == start.dispatches + dispatches_in(decisions),
        start.cause is Some ==> state_after(start, states).cause == start.cause,
        start.ledger.failure is Some ==> state_after(start, states).ledger.failure
            == start.ledger.failure,
        forall|i: int|
            0 <= i < states.len() ==> {
                &&& engine_wf(#[trigger] states[i])
                &&& resident(states[i]) <= start.ledger.capacity
                &&& states[i].cause is Some ==> state_after(start, states).cause == states[i].cause
                &&& states[i].ledger.failure is Some ==> state_after(start, states).ledger.failure
                    == states[i].ledger.failure
            },
        forall|i: int|
            0 <= i < decisions.len() ==> (#[trigger] decisions[i] matches Decision::Dispatch {
                block,
                ..
            } ==> block.part_number == start.dispatches + dispatches_in(decisions.take(i + 1))),
    decreases events.len(),
{
    let n = events.len() as int;
    if n > 0 {
        let earlier_events = events.drop_last();
        let earlier_states = states.drop_last();
        let earlier = decisions.drop_last();
        lemma_history_prefix(start, events, states, decisions);
        lemma_history(start, earlier_events, earlier_states, earlier);
        let before = state_after(start, earlier_states);
        assert(before == state_before(start, states, n - 1));
        let event = events[n - 1];
        lemma_steps(before, event, states[n - 1], decisions[n - 1]);
        assert(state_after(start, states) == states[n - 1]);
        assert forall|i: int| 0 <= i < states.len() implies {
            &&& engine_wf(#[trigger] states[i])
            &&& resident(states[i]) <= start.ledger.capacity
            &&& states[i].cause is Some ==> state_after(start, states).cause == states[i].cause
            &&& states[i].ledger.failure is Some ==> state_after(start, states).ledger.failure
                == states[i].ledger.failure
        } by {
            if i < n - 1 {
                assert(states[i] == earlier_states[i]);
            }
        }
        assert forall|i: int| 0 <= i < decisions.len() implies (#[trigger] decisions[i]
            matches Decision::Dispatch { block, .. } ==> block.part_number == start.dispatches
            + dispatches_in(decisions.take(i + 1))) by {
            if i < n - 1 {
                assert(decisions[i] == earlier[i]);
                assert(decisions.take(i + 1) =~= earlier.take(i + 1));
            } else {
                assert(decisions.take(i + 1) =~= decisions);
            }
        }
    }
}

/// The life of an upload, from its start through any events whatever. The
/// session is aborted at most once and the upload is completed at most once.
/// Once the upload of a part has failed for good, the upload is never
/// completed. An upload that ends in failure has aborted its session just
/// once; an upload that ends well has completed just once and aborted
/// nothing. The blocks are sent under the numbers 1, 2, 3 and so on, and
/// never more of them lie in memory than there are tokens, the block that is
/// being gathered counted.
pub proof fn lemma_upload_life(
    start: EngineView,
    events: Seq<Event>,
    states: Seq<EngineView>,
    decisions: Seq<Decision>,
)
    requires
        engine_wf(start),
        start.stage == Stage::Fresh,
        start.aborts == 0,
        start.finalizes == 0,
        start.dispatches == 0,
        history(start, events, states, decisions),
    ensures
        aborts_in(decisions) <= 1,
        finalizes_in(decisions) <= 1,
        (exists|i: int| 0 <= i < states.len() && (#[trigger] states[i]).ledger.failure is Some)
            ==> finalizes_in(decisions) == 0,
        decisions.len() > 0 && (decisions.last() matches Decision::Finished(Err(_)))
            ==> aborts_in(decisions) == 1,
        decisions.len() > 0 && (decisions.last() matches Decision::Finished(Ok(_))) ==> aborts_in(
            decisions,
        ) == 0 && finalizes_in(decisions) == 1,
        forall|i: int|
            0 <= i < decisions.len() ==> (#[trigger] decisions[i] matches Decision::Dispatch {
                block,
                ..
            } ==> block.part_number == dispatches_in(decisions.take(i + 1))),
        forall|i: int| 0 <= i < states.len() ==> resident(#[trigger] states[i]) <= start.ledger.capacity,
{
    lemma_history(start, events, states, decisions);
    let n = events.len() as int;
    if n > 0 {
        let before = state_before(start, states, n - 1);
        let earlier_events = events.drop_last();
        let earlier_states = states.drop_last();
        let earlier = decisions.drop_last();
        lemma_history_prefix(start, events, states, decisions);
        lemma_history(start, earlier_events, earlier_states, earlier);
        assert(before == state_after(start, earlier_states));
        let event = events[n - 1];
        lemma_steps(before, event, states[n - 1], decisions[n - 1]);
    }
}

/// The part numbers of the uploads whose records are still to come, after
/// this step: the number of a block that the step sends is added, the number
/// of a record that the step brings back is taken out.
pub open spec fn waiting_after(waiting: Set<int>, event: Event, d: Decision) -> Set<int> {
    let left = match event {
        Event::Token(Token::Carrying(PartOutcome::Success(part))) => waiting.remove(
            part.part_number as int,
        ),
        _ => waiting,
    };
    match d {
        Decision::Dispatch { block, .. } => left.insert(block.part_number as int),
        _ => left,
    }
}

/// The part numbers of the uploads whose records are still to come, after
/// the steps of a history.
pub open spec fn waiting_for(events: Seq<Event>, decisions: Seq<Decision>) -> Set<int>
    decreases events.len(),
{
    if events.len() == 0 || decisions.len() != events.len() {
        Set::empty()
    } else {
        waiting_after(
            waiting_for(events.drop_last(), decisions.drop_last()),
            events.last(),
            decisions.last(),
        )
    }
}

/// The event is what was asked for, and it brings no bad news: a read that
/// fits the rest of the block, a token of the pool that is empty or brings
/// the record of a part whose record is still to come, the upload of the
/// block on its way, the upload completed.
pub open spec fn goes_well(
    asked: Option<Decision>,
    state: EngineView,
    waiting: Set<int>,
    event: Event,
) -> bool {
    match asked {
        None => event is Start,
        Some(Decision::Read { .. }) => event matches Event::Read(data) && fits(
            state.chunker,
            data@,
        ),
        Some(Decision::Acquire) => event matches Event::Token(token) && accepted(
            state.ledger,
            token,
        ) is Some && match token {
            Token::Empty => true,
            Token::Carrying(PartOutcome::Success(part)) => waiting.contains(
                part.part_number as int,
            ),
            Token::Carrying(PartOutcome::Failure(_)) => false,
        },
        Some(Decision::Dispatch { .. }) => event is Dispatched,
        Some(Decision::Finalize { .. }) => event matches Event::Finalized(Ok(_)),
        Some(Decision::Abort { .. }) => true,
        Some(Decision::Finished(_)) => true,
    }
}

/// The decision that was made before step `i` of a history, if there is one.
pub open spec fn asked_before(decisions: Seq<Decision>, i: int) -> Option<Decision> {
    if i == 0 {
        None
    } else {
        Some(decisions[i - 1])
    }
}

/// Every event of the history is what was asked for and brings no bad news,
/// and the part numbers last.
pub open spec fn all_goes_well(
    start: EngineView,
    events: Seq<Event>,
    states: Seq<EngineView>,
    decisions: Seq<Decision>,
) -> bool {
    forall|i: int|
        0 <= i < events.len() ==> {
            &&& goes_well(
                asked_before(decisions, i),
                state_before(start, states, i),
                waiting_for(events.take(i), decisions.take(i)),
                #[trigger] events[i],
            )
            &&& !states[i].chunker.overflowed
        }
}

/// What holds of an upload while all goes well: nothing has gone wrong, the
/// upload stands where its last decision has put it, and the records that
/// have come back are those of parts sent, one for each, none of a part
/// whose record is still to come.
pub open spec fn going_well(e: EngineView, waiting: Set<int>, asked: Option<Decision>) -> bool {
    &&& e.cause is None
    &&& e.ledger.failure is None
    &&& e.ledger.capacity >= 1
    &&& match asked {
        None => e.stage == Stage::Fresh,
        Some(Decision::Read { .. }) => e.stage == Stage::Reading,
        Some(Decision::Acquire) => e.stage == Stage::Acquiring || e.stage == Stage::Draining,
        Some(Decision::Dispatch { .. }) => e.stage == Stage::Dispatching,
        Some(Decision::Finalize { .. }) => e.stage == Stage::Finalizing,
        Some(Decision::Abort { .. }) => false,
        Some(Decision::Finished(result)) => result is Ok && e.stage == Stage::Completed,
    }
    &&& forall|i: int|
        0 <= i < e.ledger.parts.len() ==> {
            &&& 1 <= (#[trigger] e.ledger.parts[i]).part_number <= e.dispatches
            &&& !waiting.contains(e.ledger.parts[i].part_number as int)
        }
    &&& forall|i: int, j: int|
        0 <= i < j < e.ledger.parts.len() ==> (#[trigger] e.ledger.parts[i]).part_number != (
        #[trigger] e.ledger.parts[j]).part_number
    &&& forall|n: int| waiting.contains(n) ==> 1 <= n <= e.dispatches
}

/// While all goes well, a step that goes well leaves all well: it does not
/// give the upload up.
proof fn lemma_step_goes_well(
    pre: EngineView,
    waiting: Set<int>,
    asked: Option<Decision>,
    event: Event,
    post: EngineView,
    d: Decision,
)
    requires
        engine_wf(pre),
        going_well(pre, waiting, asked),
        goes_well(asked, pre, waiting, event),
        steps(pre, event, post, d),
        !post.chunker.overflowed,
    ensures
        engine_wf(post),
        going_well(post, waiting_after(waiting, event, d), Some(d)),
        d !is Abort,
{
    lemma_steps(pre, event, post, d);
    let after = waiting_after(waiting, event, d);
    match pre.stage {
        Stage::Reading => {
            if let Event::Read(data) = event {
                lemma_fed(pre.chunker, data@);
                let mid = EngineView { chunker: fed(pre.chunker, data@).0, ..pre };
                match fed(pre.chunker, data@).1 {
                    ChunkStepView::EndOfStream => {
                        if !(mid.ledger.in_hand < mid.ledger.capacity) {
                            lemma_done_goes_well(mid, waiting, post, d);
                        }
                    },
                    _ => {},
                }
            }
        },
        Stage::Acquiring => {
            if let Event::Token(token) = event {
                let ledger = accepted(pre.ledger, token)->0;
                let mid = EngineView { ledger, ..pre };
                lemma_token_goes_well(pre, waiting, token);
            }
        },
        Stage::Draining => {
            if let Event::Token(token) = event {
                let ledger = accepted(pre.ledger, token)->0;
                let mid = EngineView { ledger, ..pre };
                lemma_token_goes_well(pre, waiting, token);
                if !(mid.ledger.in_hand < mid.ledger.capacity) {
                    lemma_done_goes_well(mid, after, post, d);
                }
            }
        },
        Stage::Dispatching => {
            if pre.chunker.finished {
                if !(pre.ledger.in_hand < pre.ledger.capacity) {
                    lemma_done_goes_well(pre, waiting, post, d);
                }
            }
        },
        _ => {},
    }
}

/// A token that goes well leaves the records those of parts sent, one for
/// each.
proof fn lemma_token_goes_well(pre: EngineView, waiting: Set<int>, token: Token)
    requires
        engine_wf(pre),
        pre.cause is None,
        pre.ledger.failure is None,
        accepted(pre.ledger, token) is Some,
        token !is Carrying || (token->Carrying_0 matches PartOutcome::Success(part)
            && waiting.contains(part.part_number as int)),
        forall|i: int|
            0 <= i < pre.ledger.parts.len() ==> {
                &&& 1 <= (#[trigger] pre.ledger.parts[i]).part_number <= pre.dispatches
                &&& !waiting.contains(pre.ledger.parts[i].part_number as int)
            },
        forall|i: int, j: int|
            0 <= i < j < pre.ledger.parts.len() ==> (#[trigger] pre.ledger.parts[i]).part_number
                != (#[trigger] pre.ledger.parts[j]).part_number,
        forall|n: int| waiting.contains(n) ==> 1 <= n <= pre.dispatches,
    ensures
        ({
            let ledger = accepted(pre.ledger, token)->0;
            let after = waiting_after(waiting, Event::Token(token), Decision::Acquire);
            &&& ledger.failure is None
            &&& forall|i: int|
                0 <= i < ledger.parts.len() ==> {
                    &&& 1 <= (#[trigger] ledger.parts[i]).part_number <= pre.dispatches
                    &&& !after.contains(ledger.parts[i].part_number as int)
                }
            &&& forall|i: int, j: int|
                0 <= i < j < ledger.parts.len() ==> (#[trigger] ledger.parts[i]).part_number != (
                #[trigger] ledger.parts[j]).part_number
            &&& forall|n: int| after.contains(n) ==> 1 <= n <= pre.dispatches
        }),
{
    let ledger = accepted(pre.ledger, token)->0;
    match token {
        Token::Carrying(PartOutcome::Success(part)) => {
            let n = pre.ledger.parts.len() as int;
            assert(ledger.parts =~= pre.ledger.parts.push(part));
            assert forall|i: int, j: int| 0 <= i < j < ledger.parts.len() implies (
            #[trigger] ledger.parts[i]).part_number != (#[trigger] ledger.parts[j]).part_number by {
                if j == n {
                    assert(ledger.parts[i] == pre.ledger.parts[i]);
                    assert(!waiting.contains(pre.ledger.parts[i].part_number as int));
                } else {
                    assert(ledger.parts[i] == pre.ledger.parts[i]);
                    assert(ledger.parts[j] == pre.ledger.parts[j]);
                }
            }
            assert forall|i: int| 0 <= i < ledger.parts.len() implies {
                &&& 1 <= (#[trigger] ledger.parts[i]).part_number <= pre.dispatches
                &&& !waiting.remove(part.part_number as int).contains(
                    ledger.parts[i].part_number as int,
                )
            } by {
                if i < n {
                    assert(ledger.parts[i] == pre.ledger.parts[i]);
                }
            }
        },
        _ => {},
    }
}

/// When every token is back and all has gone well, the upload is completed.
proof fn lemma_done_goes_well(pre: EngineView, waiting: Set<int>, post: EngineView, d: Decision)
    requires
        pre.cause is None,
        pre.ledger.failure is None,
        pre.finalizes == 0,
        pre.ledger.in_flight == 0,
        pre.ledger.parts.len() == pre.dispatches,
        pre.chunker.emitted == pre.dispatches,
        forall|i: int|
            0 <= i < pre.ledger.parts.len() ==> 1 <= (#[trigger] pre.ledger.parts[i]).part_number
                <= pre.dispatches,
        forall|i: int, j: int|
            0 <= i < j < pre.ledger.parts.len() ==> (#[trigger] pre.ledger.parts[i]).part_number
                != (#[trigger] pre.ledger.parts[j]).part_number,
        concludes(pre, post, d),
    ensures
        d is Finalize,
        post.ledger.parts.len() == 0,
{
    lemma_one_for_each(pre.ledger.parts, pre.chunker.emitted as int);
}

/// A history in which all goes well, without its last step, is a history in
/// which all goes well, and its last step goes well.
proof fn lemma_goes_well_prefix(
    start: EngineView,
    events: Seq<Event>,
    states: Seq<EngineView>,
    decisions: Seq<Decision>,
)
    requires
        history(start, events, states, decisions),
        all_goes_well(start, events, states, decisions),
        events.len() > 0,
    ensures
        all_goes_well(start, events.drop_last(), states.drop_last(), decisions.drop_last()),
        goes_well(
            asked_before(decisions.drop_last(), decisions.len() - 1),
            state_after(start, states.drop_last()),
            waiting_for(events.drop_last(), decisions.drop_last()),
            events.last(),
        ),
        !states.last().chunker.overflowed,
{
    let n = events.len() as int;
    let earlier_events = events.drop_last();
    let earlier_states = states.drop_last();
    let earlier = decisions.drop_last();
    assert forall|i: int| 0 <= i < earlier_events.len() implies {
        &&& goes_well(
            asked_before(earlier, i),
            state_before(start, earlier_states, i),
            waiting_for(earlier_events.take(i), earlier.take(i)),
            #[trigger] earlier_events[i],
        )
        &&& !earlier_states[i].chunker.overflowed
    } by {
        assert(earlier_events[i] == events[i]);
        assert(earlier_events.take(i) =~= events.take(i));
        assert(earlier.take(i) =~= decisions.take(i));
        assert(asked_before(earlier, i) == asked_before(decisions, i));
        assert(state_before(start, earlier_states, i) == state_before(start, states, i));
        assert(earlier_states[i] == states[i]);
    }
    let last = events[n - 1];
    assert(events.take(n - 1) =~= earlier_events);
    assert(decisions.take(n - 1) =~= earlier);
    assert(asked_before(decisions, n - 1) == asked_before(earlier, n - 1));
    assert(state_before(start, states, n - 1) == state_after(start, earlier_states));
}

/// An upload in which all goes well ends well. Where every read fits, every
/// token is one of the pool and brings, if anything, the record of a part
/// that was sent and has not come back before, the completion succeeds and
/// the part numbers last, the upload is never given up: no decision is to
/// abort, and when the upload is over it has succeeded.
pub proof fn lemma_upload_goes_well(
    start: EngineView,
    events: Seq<Event>,
    states: Seq<EngineView>,
    decisions: Seq<Decision>,
)
    requires
        engine_wf(start),
        start.stage == Stage::Fresh,
        start.dispatches == 0,
        start.ledger.capacity >= 1,
        history(start, events, states, decisions),
        all_goes_well(start, events, states, decisions),
    ensures
        engine_wf(state_after(start, states)),
        going_well(
            state_after(start, states),
            waiting_for(events, decisions),
            asked_before(decisions, decisions.len() as int),
        ),
        forall|i: int| 0 <= i < decisions.len() ==> !(#[trigger] decisions[i] is Abort),
        forall|i: int|
            0 <= i < decisions.len() ==> (#[trigger] decisions[i] matches Decision::Finished(
                result,
            ) ==> result is Ok),
    decreases events.len(),
{
    let n = events.len() as int;
    if n > 0 {
        let earlier_events = events.drop_last();
        let earlier_states = states.drop_last();
        let earlier = decisions.drop_last();
        lemma_history_prefix(start, events, states, decisions);
        lemma_goes_well_prefix(start, events, states, decisions);
        lemma_upload_goes_well(start, earlier_events, earlier_states, earlier);
        lemma_step_goes_well(
            state_after(start, earlier_states),
            waiting_for(earlier_events, earlier),
            asked_before(earlier, n - 1),
            events.last(),
            states.last(),
            decisions.last(),
        );
        lemma_last_step(events, states, decisions);
    }
}

/// What holds of the decisions of a history holds of them all where it holds
/// of all but the last and of the last.
proof fn lemma_last_step(events: Seq<Event>, states: Seq<EngineView>, decisions: Seq<Decision>)
    requires
        events.len() > 0,
        states.len() == events.len(),
        decisions.len() == events.len(),
        forall|i: int|
            0 <= i < decisions.len() - 1 ==> !(#[trigger] decisions.drop_last()[i] is Abort),
        forall|i: int|
            0 <= i < decisions.len() - 1 ==> (#[trigger] decisions.drop_last()[i]
                matches Decision::Finished(result) ==> result is Ok),
        !(decisions.last() is Abort),
        decisions.last() matches Decision::Finished(result) ==> result is Ok,
    ensures
        forall|start: EngineView| #[trigger] state_after(start, states) == states.last(),
        waiting_for(events, decisions) == waiting_after(
            waiting_for(events.drop_last(), decisions.drop_last()),
            events.last(),
            decisions.last(),
        ),
        asked_before(decisions, decisions.len() as int) == Some(decisions.last()),
        forall|i: int| 0 <= i < decisions.len() ==> !(#[trigger] decisions[i] is Abort),
        forall|i: int|
            0 <= i < decisions.len() ==> (#[trigger] decisions[i] matches Decision::Finished(
                result,
            ) ==> result is Ok),
{
    let n = decisions.len() as int;
    let earlier = decisions.drop_last();
    assert forall|i: int| 0 <= i < decisions.len() implies !(#[trigger] decisions[i] is Abort) by {
        if i < n - 1 {
            assert(decisions[i] == earlier[i]);
        }
    }
    assert forall|i: int| 0 <= i < decisions.len() implies (#[trigger] decisions[i]
        matches Decision::Finished(result) ==> result is Ok) by {
        if i < n - 1 {
            assert(decisions[i] == earlier[i]);
        }
    }
}

/// A token is waited for only while one can come: while a block waits for it
/// or the tokens are gathered, and not every token is in hand. Each token
/// that comes while they are gathered is one more in hand.
pub proof fn lemma_acquire(pre: EngineView, event: Event, post: EngineView)
    requires
        engine_wf(pre),
        steps(pre, event, post, Decision::Acquire),
    ensures
        post.stage == Stage::Acquiring || post.stage == Stage::Draining,
        post.ledger.in_hand < post.ledger.capacity,
        event is Token || event is PoolClosed ==> post.ledger.in_hand == pre.ledger.in_hand + 1,
{
}

/// The state of one upload.
pub struct Engine {
    session: UploadSession,
    max_retries: u32,
    stage: Stage,
    chunker: Chunker,
    ledger: Ledger,
    cause: Option<UploadError>,
    abort_error: Option<String>,
    aborts: Ghost<nat>,
    finalizes: Ghost<nat>,
    dispatches: Ghost<nat>,
}

impl View for Engine {
    type V = EngineView;

    closed spec fn view(&self) -> EngineView {
        EngineView {
            session: self.session,
            max_retries: self.max_retries,
            stage: self.stage,
            chunker: self.chunker@,
            ledger: self.ledger@,
            cause: self.cause,
            abort_error: self.abort_error,
            aborts: self.aborts@,
            finalizes: self.finalizes@,
            dispatches: self.dispatches@,
        }
    }
}

impl Engine {
    /// The engine and its parts are in order.
    pub closed spec fn wf(&self) -> bool {
        &&& self.parts_wf()
        &&& engine_wf(self@)
    }

    /// An engine in order shows a state in order.
    pub proof fn lemma_wf(&self)
        requires
            self.wf(),
        ensures
            engine_wf(self@),
    {
    }

    /// What holds of the parts of an engine between the steps of a decision.
    spec fn parts_wf(&self) -> bool {
        &&& self.chunker.wf()
        &&& self.ledger.wf()
    }

    /// The state of an upload that has not begun.
    pub open spec fn new_view(
        session: UploadSession,
        block_size: usize,
        num_tokens: usize,
        max_retries: u32,
    ) -> EngineView {
        EngineView {
            session,
            max_retries,
            stage: Stage::Fresh,
            chunker: fresh(block_size as nat),
            ledger: opened(num_tokens as nat),
            cause: None,
            abort_error: None,
            aborts: 0,
            finalizes: 0,
            dispatches: 0,
        }
    }

    /// An upload into the open `session`, of blocks of `block_size` bytes, with
    /// `num_tokens` tokens, that retries each part at most `max_retries` times.
    pub fn new(session: UploadSession, block_size: usize, num_tokens: usize, max_retries: u32) -> (e:
        Engine)
        requires
            block_size > 0,
        ensures
            e.wf(),
            e@ == Engine::new_view(session, block_size, num_tokens, max_retries),
    {
        Engine {
            session,
            max_retries,
            stage: Stage::Fresh,
            chunker: Chunker::new(block_size),
            ledger: Ledger::new(num_tokens),
            cause: None,
            abort_error: None,
            aborts: Ghost(0),
            finalizes: Ghost(0),
            dispatches: Ghost(0),
        }
    }

    /// Where the upload stands.
    pub fn stage(&self) -> (stage: Stage)
        ensures
            stage == self@.stage,
    {
        self.stage
    }

    /// Where the upload stands in the large.
    pub fn phase(&self) -> (phase: Phase)
        ensures
            phase == phase_of(self@.stage),
    {
        match self.stage {
            Stage::Fresh | Stage::Reading | Stage::Acquiring | Stage::Dispatching | Stage::Draining =>
                Phase::Uploading,
            Stage::Finalizing => Phase::Finalizing,
            Stage::Completed => Phase::Completed,
            Stage::Aborting | Stage::Aborted => Phase::Aborted,
        }
    }

    /// How many uploads are in flight.
    pub fn in_flight(&self) -> (n: usize)
        ensures
            n == self@.ledger.in_flight,
    {
        self.ledger.in_flight()
    }

    /// How many blocks lie in memory: those of the uploads in flight, and one
    /// more while bytes of the next block are gathered.
    pub fn resident(&self) -> (n: usize)
        requires
            self.wf(),
        ensures
            n == resident(self@),
            n <= self@.ledger.capacity,
    {
        let in_flight = self.ledger.in_flight();
        if self.chunker.gathered() > 0 && in_flight < self.ledger.capacity() {
            in_flight + 1
        } else {
            in_flight
        }
    }

    /// How many blocks have been cut from the input.
    pub fn blocks(&self) -> (n: i32)
        requires
            self.wf(),
        ensures
            n == self@.chunker.emitted,
    {
        self.chunker.emitted()
    }

    /// The report of the upload as failed, as it stands.
    fn report(&self) -> (failure: UploadFailure)
        ensures
            failure == failure_of(self@),
    {
        UploadFailure {
            cause: match &self.cause {
                Some(cause) => cause.copy(),
                None => UploadError::Unexpected,
            },
            abort_error: match &self.abort_error {
                Some(error) => Some(error.clone()),
                None => None,
            },
        }
    }

    /// Gives the upload up over `cause`, unless an earlier cause is on record.
    fn give_up(&mut self, cause: UploadError) -> (d: Decision)
        requires
            old(self).parts_wf(),
        ensures
            final(self).parts_wf(),
            gives_up(old(self)@, cause, final(self)@, d),
    {
        if self.cause.is_none() {
            self.cause = Some(cause);
        }
        self.stage = Stage::Aborting;
        self.aborts = Ghost((self.aborts@ + 1) as nat);
        Decision::Abort { session: self.session.copy(), cause: self.report().cause }
    }

    /// Completes the upload, or gives it up, when every token is back.
    fn conclude(&mut self) -> (d: Decision)
        requires
            old(self).parts_wf(),
        ensures
            final(self).parts_wf(),
            concludes(old(self)@, final(self)@, d),
    {
        if self.cause.is_some() {
            return self.give_up(UploadError::Unexpected);
        }
        match self.ledger.failure() {
            Some(error) => {
                return self.give_up(UploadError::PartFailed(error));
            },
            None => {},
        }
        let parts = self.ledger.take_parts();
        match assemble(parts, self.chunker.emitted()) {
            Some(parts) => {
                self.stage = Stage::Finalizing;
                self.finalizes = Ghost((self.finalizes@ + 1) as nat);
                Decision::Finalize { session: self.session.copy(), parts }
            },
            None => self.give_up(UploadError::MissingParts),
        }
    }

    /// Waits for the next token, or concludes when every token is back.
    fn drain(&mut self) -> (d: Decision)
        requires
            old(self).parts_wf(),
        ensures
            final(self).parts_wf(),
            drains(old(self)@, final(self)@, d),
    {
        if self.ledger.expecting() {
            self.stage = Stage::Draining;
            Decision::Acquire
        } else {
            self.conclude()
        }
    }

    /// Puts `cause` on record and gathers the tokens.
    fn fail(&mut self, cause: UploadError) -> (d: Decision)
        requires
            old(self).parts_wf(),
        ensures
            final(self).parts_wf(),
            fails(old(self)@, cause, final(self)@, d),
    {
        if self.cause.is_none() {
            self.cause = Some(cause);
        }
        self.drain()
    }

    /// Asks for the next read.
    fn read(&mut self) -> (d: Decision)
        requires
            old(self).parts_wf(),
        ensures
            final(self).parts_wf(),
            reads(old(self)@, final(self)@, d),
    {
        self.stage = Stage::Reading;
        Decision::Read { max_len: self.chunker.wanted() }
    }

    /// Begins the next block with the wait for its token.
    fn begin(&mut self) -> (d: Decision)
        requires
            old(self).parts_wf(),
        ensures
            final(self).parts_wf(),
            begins(old(self)@, final(self)@, d),
    {
        if self.ledger.expecting() {
            self.stage = Stage::Acquiring;
            Decision::Acquire
        } else {
            self.give_up(UploadError::NoTokens)
        }
    }

    /// Takes what a read returned.
    fn on_read(&mut self, data: Vec<u8>) -> (d: Decision)
        requires
            old(self).parts_wf(),
            fits(old(self)@.chunker, data@),
        ensures
            final(self).parts_wf(),
            after_read(old(self)@, data@, final(self)@, d),
    {
        match self.chunker.feed(data.as_slice()) {
            ChunkStep::NeedMore => self.read(),
            ChunkStep::Emit(block) => {
                if self.ledger.in_hand() > 0 {
                    self.ledger.spend();
                    self.stage = Stage::Dispatching;
                    self.dispatches = Ghost((self.dispatches@ + 1) as nat);
                    let uploader = PartUploader::new(block.part_number, self.max_retries);
                    Decision::Dispatch { session: self.session.copy(), block, uploader }
                } else {
                    self.give_up(UploadError::Unexpected)
                }
            },
            ChunkStep::EndOfStream => self.drain(),
            ChunkStep::TooManyParts => self.fail(UploadError::TooManyParts),
        }
    }

    /// Takes the token that came for the next block.
    fn on_token(&mut self, token: Token) -> (d: Decision)
        requires
            old(self).parts_wf(),
        ensures
            final(self).parts_wf(),
            after_token(old(self)@, token, final(self)@, d),
    {
        if !self.ledger.accept(token) {
            return self.give_up(UploadError::PoolCorrupt);
        }
        if self.ledger.failed() {
            self.drain()
        } else {
            self.read()
        }
    }

    /// Takes what has happened and decides what to do next.
    pub fn step(&mut self, event: Event) -> (d: Decision)
        requires
            old(self).wf(),
        ensures
            final(self).wf(),
            steps(old(self)@, event, final(self)@, d),
    {
        let ghost reported = event;
        let d = match self.stage {
            Stage::Fresh => match event {
                Event::Start => self.begin(),
                _ => self.give_up(UploadError::Unexpected),
            },
            Stage::Reading => match event {
                Event::Read(data) => {
                    if data.len() <= self.chunker.wanted() {
                        self.on_read(data)
                    } else {
                        self.give_up(UploadError::Unexpected)
                    }
                },
                Event::ReadFailed(message) => self.fail(UploadError::Read(message)),
                _ => self.give_up(UploadError::Unexpected),
            },
            Stage::Acquiring => match event {
                Event::Token(token) => self.on_token(token),
                Event::PoolClosed(detail) => self.give_up(UploadError::PoolClosed(detail)),
                _ => self.give_up(UploadError::Unexpected),
            },
            Stage::Dispatching => match event {
                Event::Dispatched => {
                    if self.chunker.finished() {
                        self.drain()
                    } else {
                        self.begin()
                    }
                },
                _ => self.give_up(UploadError::Unexpected),
            },
            Stage::Draining => match event {
                Event::Token(token) => {
                    if self.ledger.accept(token) {
                        self.drain()
                    } else {
                        self.give_up(UploadError::PoolCorrupt)
                    }
                },
                Event::PoolClosed(detail) => self.give_up(UploadError::PoolClosed(detail)),
                _ => self.give_up(UploadError::Unexpected),
            },
            Stage::Finalizing => match event {
                Event::Finalized(Ok(_)) => {
                    self.stage = Stage::Completed;
                    Decision::Finished(Ok(()))
                },
                Event::Finalized(Err(message)) => self.give_up(UploadError::Finalize(message)),
                _ => self.give_up(UploadError::Unexpected),
            },
            Stage::Aborting => {
                self.abort_error = match event {
                    Event::Aborted(Err(message)) => Some(message),
                    _ => None,
                };
                self.stage = Stage::Aborted;
                Decision::Finished(Err(self.report()))
            },
            Stage::Completed => Decision::Finished(Ok(())),
            Stage::Aborted => Decision::Finished(Err(self.report())),
        };
        proof {
            lemma_steps(old(self)@, reported, self@, d);
        }
        d
    }
}

} // verus!
