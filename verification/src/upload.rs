//! One upload with its pool of tokens.
//!
//! An [`Upload`] is an engine that fetches its tokens itself: where the engine
//! decides to wait for a token, the upload waits at the pool and tells the
//! engine which token came. Its caller sees the other decisions only.

use crate::assemble::in_order;
use crate::chunker::{block_at, block_count};
use crate::engine::{
    engine_wf, lemma_acquire, lemma_steps, state_before, steps, Decision, Engine, EngineView,
    Event, UploadError, UploadFailure,
};
use crate::part::{Block, CompletedPart, PartUploader};
use crate::pool::{PoolError, Ticket, TokenPool, MAX_TOKENS};
use crate::session::UploadSession;
use vstd::pervasive::unreached;
use vstd::prelude::*;

verus! {

/// What the caller of an upload is to do next.
pub enum Action {
    /// Read at most `max_len` bytes and report `Read` or `ReadFailed`.
    Read { max_len: usize },
    /// Start the upload of `block` and report `Dispatched`. When the upload
    /// has ended, it releases `ticket` with its outcome.
    Dispatch { session: UploadSession, block: Block, uploader: PartUploader, ticket: Ticket },
    /// Complete the upload with this list of parts and report `Finalized`.
    Finalize { session: UploadSession, parts: Vec<CompletedPart> },
    /// Abort the session, over `cause`, and report `Aborted`.
    Abort { session: UploadSession, cause: UploadError },
    /// The upload is over.
    Finished(Result<(), UploadFailure>),
}

/// The decision that an action carries out.
pub open spec fn decision_of(action: Action) -> Decision {
    match action {
        Action::Read { max_len } => Decision::Read { max_len },
        Action::Dispatch { session, block, uploader, ticket } => Decision::Dispatch {
            session,
            block,
            uploader,
        },
        Action::Finalize { session, parts } => Decision::Finalize { session, parts },
        Action::Abort { session, cause } => Decision::Abort { session, cause },
        Action::Finished(result) => Decision::Finished(result),
    }
}

/// Whether the event is one that the pool gives rise to.
pub open spec fn from_pool(event: Event) -> bool {
    event is Token || event is PoolClosed
}

/// From `pre` the engine takes one step for each of `events`, in turn, and
/// step `i` leads to the state `states[i]`. Each step but the last ends with
/// the decision to wait for a token, and the last with the decision `d`.
pub open spec fn runs(
    pre: EngineView,
    events: Seq<Event>,
    states: Seq<EngineView>,
    d: Decision,
) -> bool {
    &&& events.len() >= 1
    &&& states.len() == events.len()
    &&& forall|i: int|
        0 <= i < events.len() ==> steps(
            state_before(pre, states, i),
            #[trigger] events[i],
            states[i],
            if i == events.len() - 1 {
                d
            } else {
                Decision::Acquire
            },
        )
}

/// The engine gets from `pre` to `post` and to the decision `d` by the step
/// that `event` leads to and, as long as the decision is to wait for a
/// token, the steps that follow from what the pool hands out. The decision
/// `d` is none to wait.
pub open spec fn follows(pre: EngineView, event: Event, post: EngineView, d: Decision) -> bool {
    &&& d !is Acquire
    &&& exists|events: Seq<Event>, states: Seq<EngineView>|
        {
            &&& #[trigger] runs(pre, events, states, d)
            &&& events[0] == event
            &&& forall|i: int| 1 <= i < events.len() ==> from_pool(#[trigger] events[i])
            &&& states.last() == post
        }
}

/// While a run waits for tokens the upload stays in order, nothing is
/// aborted or completed, and what went wrong first stays on record.
proof fn lemma_waiting(
    pre: EngineView,
    events: Seq<Event>,
    states: Seq<EngineView>,
    d: Decision,
    k: int,
)
    requires
        engine_wf(pre),
        runs(pre, events, states, d),
        0 <= k < events.len() - 1,
    ensures
        engine_wf(states[k]),
        states[k].session == pre.session,
        states[k].max_retries == pre.max_retries,
        states[k].ledger.capacity == pre.ledger.capacity,
        states[k].chunker.block_size == pre.chunker.block_size,
        states[k].aborts == pre.aborts,
        states[k].finalizes == pre.finalizes,
        states[k].dispatches == pre.dispatches,
        pre.cause is Some ==> states[k].cause == pre.cause,
        pre.ledger.failure is Some ==> states[k].ledger.failure == pre.ledger.failure,
    decreases k,
{
    if k > 0 {
        lemma_waiting(pre, events, states, d, k - 1);
    }
    let e = events[k];
    lemma_steps(state_before(pre, states, k), e, states[k], Decision::Acquire);
}

/// What holds of one step holds of a run of steps: the upload stays in order,
/// the session is aborted at most once and only when the upload is given up,
/// the upload is completed at most once and never after something went
/// wrong, and what went wrong first stays on record.
pub proof fn lemma_runs(
    pre: EngineView,
    events: Seq<Event>,
    states: Seq<EngineView>,
    d: Decision,
)
    requires
        engine_wf(pre),
        runs(pre, events, states, d),
    ensures
        engine_wf(states.last()),
        states.last().session == pre.session,
        states.last().max_retries == pre.max_retries,
        states.last().ledger.capacity == pre.ledger.capacity,
        states.last().chunker.block_size == pre.chunker.block_size,
        states.last().ledger.in_flight <= states.last().ledger.capacity,
        states.last().aborts == pre.aborts + if d is Abort { 1nat } else { 0nat },
        states.last().finalizes == pre.finalizes + if d is Finalize { 1nat } else { 0nat },
        states.last().dispatches == pre.dispatches + if d is Dispatch { 1nat } else { 0nat },
        d matches Decision::Abort { cause, .. } ==> states.last().cause == Some(cause),
        pre.cause is Some ==> states.last().cause == pre.cause,
        pre.ledger.failure is Some ==> states.last().ledger.failure == pre.ledger.failure,
        (pre.cause is Some || pre.ledger.failure is Some) ==> d !is Finalize && d !is Dispatch && d
            !is Read,
        d matches Decision::Finalize { parts, .. } ==> in_order(
            parts@,
            states.last().dispatches as int,
        ) && states.last().dispatches == block_count(
            states.last().chunker.consumed.len(),
            states.last().chunker.block_size,
        ),
        d matches Decision::Dispatch { block, .. } ==> block.part_number
            == states.last().dispatches && block.payload@ == block_at(
            states.last().chunker.consumed,
            states.last().chunker.block_size,
            (states.last().dispatches - 1) as nat,
        ),
{
    let n = events.len() as int;
    if n >= 2 {
        lemma_waiting(pre, events, states, d, n - 2);
    }
    let e = events[n - 1];
    lemma_steps(state_before(pre, states, n - 1), e, states[n - 1], d);
}

/// What a call of `step` leaves behind: the upload is in order, its session
/// and its sizes are what they were, the decision to abort or to complete
/// was made at most once more, nothing is sent or completed once something
/// went wrong, a block that is sent is the next block of the input under the
/// next number, and an upload is completed with the list of all its parts.
pub proof fn lemma_follows(pre: EngineView, event: Event, post: EngineView, d: Decision)
    requires
        engine_wf(pre),
        follows(pre, event, post, d),
    ensures
        engine_wf(post),
        post.session == pre.session,
        post.max_retries == pre.max_retries,
        post.ledger.capacity == pre.ledger.capacity,
        post.chunker.block_size == pre.chunker.block_size,
        post.ledger.in_flight <= post.ledger.capacity,
        post.aborts == pre.aborts + if d is Abort { 1nat } else { 0nat },
        post.finalizes == pre.finalizes + if d is Finalize { 1nat } else { 0nat },
        post.dispatches == pre.dispatches + if d is Dispatch { 1nat } else { 0nat },
        d matches Decision::Abort { cause, .. } ==> post.cause == Some(cause),
        pre.cause is Some ==> post.cause == pre.cause,
        pre.ledger.failure is Some ==> post.ledger.failure == pre.ledger.failure,
        (pre.cause is Some || pre.ledger.failure is Some) ==> d !is Finalize && d !is Dispatch && d
            !is Read,
        d matches Decision::Finalize { parts, .. } ==> in_order(parts@, post.dispatches as int)
            && post.dispatches == block_count(
            post.chunker.consumed.len(),
            post.chunker.block_size,
        ),
        d matches Decision::Dispatch { block, .. } ==> block.part_number == post.dispatches
            && block.payload@ == block_at(
            post.chunker.consumed,
            post.chunker.block_size,
            (post.dispatches - 1) as nat,
        ),
{
    let (events, states) = choose|events: Seq<Event>, states: Seq<EngineView>|
        {
            &&& #[trigger] runs(pre, events, states, d)
            &&& events[0] == event
            &&& forall|i: int| 1 <= i < events.len() ==> from_pool(#[trigger] events[i])
            &&& states.last() == post
        };
    lemma_runs(pre, events, states, d);
}

/// One upload: its engine and its pool of tokens.
pub struct Upload {
    engine: Engine,
    pool: TokenPool,
}

impl View for Upload {
    type V = EngineView;

    closed spec fn view(&self) -> EngineView {
        self.engine@
    }
}

impl Upload {
    /// The engine is in order and counts as many tokens as the pool was made
    /// with.
    pub closed spec fn wf(&self) -> bool {
        &&& self.engine.wf()
        &&& self.pool.capacity() == self.engine@.ledger.capacity
    }

    /// An upload in order shows a state in order.
    pub proof fn lemma_wf(&self)
        requires
            self.wf(),
        ensures
            engine_wf(self@),
    {
        self.engine.lemma_wf();
    }

    /// An upload into the open `session`, of blocks of `block_size` bytes, with
    /// a pool of `num_tokens` empty tokens, that retries each part at most
    /// `max_retries` times. There is no upload where the pool cannot be made.
    pub fn new(session: UploadSession, block_size: usize, num_tokens: usize, max_retries: u32) -> (r:
        Result<Upload, PoolError>)
        requires
            block_size > 0,
        ensures
            num_tokens > MAX_TOKENS <==> r matches Err(PoolError::TooLarge),
            num_tokens == 0 ==> r is Ok,
            r matches Ok(upload) ==> upload.wf() && upload@ == Engine::new_view(
                session,
                block_size,
                num_tokens,
                max_retries,
            ),
    {
        match TokenPool::new(num_tokens) {
            Ok(pool) => Ok(
                Upload { engine: Engine::new(session, block_size, num_tokens, max_retries), pool },
            ),
            Err(e) => Err(e),
        }
    }

    /// The engine of the upload, to look at.
    pub fn engine(&self) -> (e: &Engine)
        requires
            self.wf(),
        ensures
            e.wf(),
            e@ == self@,
    {
        &self.engine
    }

    /// Takes what has happened and says what to do next. Where the upload
    /// needs a token it waits for one here, and where it gathers its tokens it
    /// waits here for each; so this call returns when the uploads that the
    /// upload waits for have handed back their tokens.
    pub fn step(&mut self, event: Event) -> (action: Action)
        requires
            old(self).wf(),
        ensures
            final(self).wf(),
            follows(old(self)@, event, final(self)@, decision_of(action)),
    {
        let ghost start = self.engine@;
        let ghost first = event;
        proof {
            self.engine.lemma_wf();
        }
        let mut d = self.engine.step(event);
        let ghost mut events: Seq<Event> = seq![first];
        let ghost mut states: Seq<EngineView> = seq![self.engine@];
        proof {
            self.engine.lemma_wf();
            lemma_steps(start, first, self.engine@, d);
            if d is Acquire {
                lemma_acquire(start, first, self.engine@);
            }
        }
        while d.is_acquire()
            invariant
                self.engine.wf(),
                self.pool.capacity() == self.engine@.ledger.capacity,
                engine_wf(self.engine@),
                events[0] == first,
                forall|i: int| 1 <= i < events.len() ==> from_pool(#[trigger] events[i]),
                runs(start, events, states, d),
                states.last() == self.engine@,
                d is Acquire ==> self.engine@.ledger.in_hand < self.engine@.ledger.capacity,
            decreases
                if d is Acquire {
                    self.engine@.ledger.capacity - self.engine@.ledger.in_hand + 1
                } else {
                    0
                },
        {
            let next = match self.pool.acquire() {
                Ok(token) => Event::Token(token),
                Err(detail) => Event::PoolClosed(detail),
            };
            let ghost before = self.engine@;
            let ghost came = next;
            let ghost earlier = events;
            let ghost reached = states;
            d = self.engine.step(next);
            proof {
                events = earlier.push(came);
                states = reached.push(self.engine@);
                self.engine.lemma_wf();
                lemma_steps(before, came, self.engine@, d);
                if d is Acquire {
                    lemma_acquire(before, came, self.engine@);
                }
                assert forall|i: int| 0 <= i < events.len() implies steps(
                    state_before(start, states, i),
                    #[trigger] events[i],
                    states[i],
                    if i == events.len() - 1 {
                        d
                    } else {
                        Decision::Acquire
                    },
                ) by {
                    if i < earlier.len() {
                        assert(events[i] == earlier[i]);
                        assert(states[i] == reached[i]);
                        assert(state_before(start, states, i) == state_before(start, reached, i));
                    } else {
                        assert(state_before(start, states, i) == before);
                    }
                }
            }
        }
        match d {
            Decision::Read { max_len } => Action::Read { max_len },
            Decision::Dispatch { session, block, uploader } => Action::Dispatch {
                session,
                block,
                uploader,
                ticket: self.pool.ticket(),
            },
            Decision::Finalize { session, parts } => Action::Finalize { session, parts },
            Decision::Abort { session, cause } => Action::Abort { session, cause },
            Decision::Finished(result) => Action::Finished(result),
            Decision::Acquire => unreached(),
        }
    }
}

} // verus!
