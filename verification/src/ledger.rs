//! Keeps count of the tokens that bound the uploads in flight.
//!
//! A fixed number of tokens exists for an upload. Each is, at any time, in one
//! of three places: in the driver's hand, with an upload in flight, or lying
//! idle in the pool. A token comes back from the pool either empty or
//! carrying the outcome of the upload that it paid for.

use crate::part::{CompletedPart, PartOutcome};
use vstd::prelude::*;

verus! {

/// A token as it comes out of the pool.
#[derive(Debug, PartialEq, Eq)]
pub enum Token {
    /// A token that has paid for nothing yet.
    Empty,
    /// A token that an upload hands back, with how the upload ended.
    Carrying(PartOutcome),
}

/// What a ledger is, as far as its behaviour goes.
pub struct LedgerView {
    /// How many tokens there are in all.
    pub capacity: nat,
    /// Tokens that the driver has received and not spent.
    pub in_hand: nat,
    /// Tokens that were spent on an upload whose outcome has not come back.
    pub in_flight: nat,
    /// The records of the parts stored, in the order in which they came back.
    pub parts: Seq<CompletedPart>,
    /// The error of the first upload that came back as failed.
    pub failure: Option<String>,
}

/// No token is counted twice.
pub open spec fn ledger_wf(l: LedgerView) -> bool {
    l.in_hand + l.in_flight <= l.capacity
}

/// How many tokens lie idle in the pool.
pub open spec fn idle(l: LedgerView) -> int {
    l.capacity - l.in_hand - l.in_flight
}

/// A ledger of `capacity` tokens, all of them idle.
pub open spec fn opened(capacity: nat) -> LedgerView {
    LedgerView { capacity, in_hand: 0, in_flight: 0, parts: Seq::empty(), failure: None }
}

/// What has been recorded of the uploads, after `outcome` has come back.
pub open spec fn recorded(l: LedgerView, outcome: PartOutcome) -> LedgerView {
    match outcome {
        PartOutcome::Success(part) => LedgerView { parts: l.parts.push(part), ..l },
        PartOutcome::Failure(error) => LedgerView {
            failure: match l.failure {
                Some(first) => Some(first),
                None => Some(error),
            },
            ..l
        },
    }
}

/// The ledger after `token` has come out of the pool; `None` where no token
/// of the pool can be `token`: an empty one when none lies idle, or one
/// with an outcome when nothing is in flight.
pub open spec fn accepted(l: LedgerView, token: Token) -> Option<LedgerView> {
    match token {
        Token::Empty => if idle(l) > 0 {
            Some(LedgerView { in_hand: l.in_hand + 1, ..l })
        } else {
            None
        },
        Token::Carrying(outcome) => if l.in_flight > 0 {
            Some(
                recorded(
                    LedgerView {
                        in_hand: l.in_hand + 1,
                        in_flight: (l.in_flight - 1) as nat,
                        ..l
                    },
                    outcome,
                ),
            )
        } else {
            None
        },
    }
}

/// The ledger after a token in hand has been spent on an upload.
pub open spec fn spent(l: LedgerView) -> LedgerView {
    LedgerView { in_hand: (l.in_hand - 1) as nat, in_flight: l.in_flight + 1, ..l }
}

/// One thing that happens to a ledger.
pub enum LedgerOp {
    /// A token has come out of the pool.
    Accept(Token),
    /// A token is to be spent on an upload.
    Spend,
}

/// The ledger after `op`. What cannot happen leaves it as it is: a token that
/// is none of the pool's, or a spending with no token in hand.
pub open spec fn applied(l: LedgerView, op: LedgerOp) -> LedgerView {
    match op {
        LedgerOp::Accept(token) => match accepted(l, token) {
            Some(next) => next,
            None => l,
        },
        LedgerOp::Spend => if l.in_hand > 0 {
            spent(l)
        } else {
            l
        },
    }
}

/// The ledger after each of `ops` in turn.
pub open spec fn applied_all(l: LedgerView, ops: Seq<LedgerOp>) -> LedgerView
    decreases ops.len(),
{
    if ops.len() == 0 {
        l
    } else {
        applied(applied_all(l, ops.drop_last()), ops.last())
    }
}

/// Whatever happens to a ledger, and in whatever order, the tokens in hand, in
/// flight and idle add up to the capacity. So no more uploads are ever in
/// flight than there are tokens.
pub proof fn lemma_tokens_conserved(capacity: nat, ops: Seq<LedgerOp>)
    ensures
        ledger_wf(applied_all(opened(capacity), ops)),
        applied_all(opened(capacity), ops).capacity == capacity,
        applied_all(opened(capacity), ops).in_flight <= capacity,
        applied_all(opened(capacity), ops).in_hand + applied_all(opened(capacity), ops).in_flight
            + idle(applied_all(opened(capacity), ops)) == capacity,
    decreases ops.len(),
{
    if ops.len() > 0 {
        lemma_tokens_conserved(capacity, ops.drop_last());
    }
}

/// The count of the tokens of one upload, and what came back with them.
pub struct Ledger {
    capacity: usize,
    in_hand: usize,
    in_flight: usize,
    parts: Vec<CompletedPart>,
    failure: Option<String>,
}

impl View for Ledger {
    type V = LedgerView;

    closed spec fn view(&self) -> LedgerView {
        LedgerView {
            capacity: self.capacity as nat,
            in_hand: self.in_hand as nat,
            in_flight: self.in_flight as nat,
            parts: self.parts@,
            failure: self.failure,
        }
    }
}

impl Ledger {
    /// The ledger counts no token twice.
    pub open spec fn wf(&self) -> bool {
        ledger_wf(self@)
    }

    /// A ledger of `capacity` tokens, all of them idle.
    pub fn new(capacity: usize) -> (l: Ledger)
        ensures
            l.wf(),
            l@ == opened(capacity as nat),
    {
        Ledger { capacity, in_hand: 0, in_flight: 0, parts: Vec::new(), failure: None }
    }

    /// Counts a token that came out of the pool and records what it carries.
    /// Of the failures, the first is kept. Answers `false`, and changes
    /// nothing, where no token of the pool can be `token`.
    pub fn accept(&mut self, token: Token) -> (ok: bool)
        requires
            old(self).wf(),
        ensures
            final(self).wf(),
            match accepted(old(self)@, token) {
                Some(next) => ok && final(self)@ == next,
                None => !ok && final(self)@ == old(self)@,
            },
    {
        match token {
            Token::Empty => {
                if self.in_hand + self.in_flight < self.capacity {
                    self.in_hand = self.in_hand + 1;
                    true
                } else {
                    false
                }
            },
            Token::Carrying(outcome) => {
                if self.in_flight > 0 {
                    self.in_flight = self.in_flight - 1;
                    self.in_hand = self.in_hand + 1;
                    match outcome {
                        PartOutcome::Success(part) => {
                            self.parts.push(part);
                        },
                        PartOutcome::Failure(error) => {
                            if self.failure.is_none() {
                                self.failure = Some(error);
                            }
                        },
                    }
                    true
                } else {
                    false
                }
            },
        }
    }

    /// Spends a token in hand on an upload.
    pub fn spend(&mut self)
        requires
            old(self).wf(),
            old(self)@.in_hand > 0,
        ensures
            final(self).wf(),
            final(self)@ == spent(old(self)@),
    {
        self.in_hand = self.in_hand - 1;
        self.in_flight = self.in_flight + 1;
    }

    /// Whether a token can still come out of the pool: one is idle or in flight.
    pub fn expecting(&self) -> (b: bool)
        requires
            self.wf(),
        ensures
            b == (self@.in_hand < self@.capacity),
    {
        self.in_hand < self.capacity
    }

    /// Whether an upload has come back as failed.
    pub fn failed(&self) -> (b: bool)
        ensures
            b == self@.failure is Some,
    {
        self.failure.is_some()
    }

    /// How many tokens there are in all.
    pub fn capacity(&self) -> (n: usize)
        ensures
            n == self@.capacity,
    {
        self.capacity
    }

    /// How many tokens are in hand.
    pub fn in_hand(&self) -> (n: usize)
        ensures
            n == self@.in_hand,
    {
        self.in_hand
    }

    /// How many uploads are in flight.
    pub fn in_flight(&self) -> (n: usize)
        ensures
            n == self@.in_flight,
    {
        self.in_flight
    }

    /// The error of the first upload that came back as failed.
    pub fn failure(&self) -> (failure: Option<String>)
        ensures
            failure == self@.failure,
    {
        match &self.failure {
            Some(error) => Some(error.clone()),
            None => None,
        }
    }

    /// Hands out the records of the parts stored, and forgets them.
    pub fn take_parts(&mut self) -> (parts: Vec<CompletedPart>)
        requires
            old(self).wf(),
        ensures
            final(self).wf(),
            parts@ == old(self)@.parts,
            final(self)@ == (LedgerView { parts: Seq::empty(), ..old(self)@ }),
    {
        let mut parts: Vec<CompletedPart> = Vec::new();
        core::mem::swap(&mut self.parts, &mut parts);
        parts
    }
}

} // verus!
