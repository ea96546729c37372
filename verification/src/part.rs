//! Parts of an upload, and the retry policy of the upload of one part.

use vstd::arithmetic::power2::{
    lemma2_to64, lemma2_to64_rest, lemma_pow2_strictly_increases, lemma_pow2_unfold, pow2,
};
use vstd::prelude::*;

verus! {

/// One block of the input, numbered in the order in which it was read.
#[derive(Debug, PartialEq, Eq)]
pub struct Block {
    pub part_number: i32,
    pub payload: Vec<u8>,
}

/// The record of one part that the backend has stored.
#[derive(Debug, PartialEq, Eq)]
pub struct CompletedPart {
    pub part_number: i32,
    pub e_tag: String,
}

/// How the upload of one part ended.
#[derive(Debug, PartialEq, Eq)]
pub enum PartOutcome {
    Success(CompletedPart),
    Failure(String),
}

/// What the backend answered to one upload-part call.
#[derive(Debug, PartialEq, Eq)]
pub enum PartResponse {
    /// The part was stored; the backend may have left out its content tag.
    Uploaded { e_tag: Option<String> },
    /// The call failed with the given error.
    Rejected { error: String },
}

/// The uploads of one part: the first attempt and the retries after it.
#[derive(Debug, PartialEq, Eq)]
pub struct PartUploader {
    part_number: i32,
    max_retries: u32,
    retries: u32,
}

/// What to do after an upload-part call has returned.
#[derive(Debug, PartialEq, Eq)]
pub enum PartStep {
    /// The part is done, for better or worse: hand the outcome back with its token.
    Finished(PartOutcome),
    /// Wait `delay_secs` seconds, send the same block again, and report to `uploader`.
    Retry { uploader: PartUploader, delay_secs: u64 },
}

/// The seconds to wait before retry `n` of a part, `n` counted from 1: two to
/// the power `n`, and `u64::MAX` where that does not fit.
pub open spec fn backoff(n: nat) -> nat {
    if n < 64 {
        pow2(n)
    } else {
        u64::MAX as nat
    }
}

/// The content tag recorded for a stored part: the one the backend sent, or the
/// empty string where it sent none.
pub open spec fn tag_text(e_tag: Option<String>) -> Seq<char> {
    match e_tag {
        Some(t) => t@,
        None => Seq::empty(),
    }
}

/// The seconds to wait before retry `n` of a part.
pub fn backoff_secs(n: u32) -> (secs: u64)
    ensures
        secs == backoff(n as nat),
{
    if n >= 64 {
        return u64::MAX;
    }
    let mut secs: u64 = 1;
    let mut i: u32 = 0;
    proof {
        lemma2_to64();
    }
    while i < n
        invariant
            i <= n < 64,
            secs == pow2(i as nat),
        decreases n - i,
    {
        proof {
            lemma_pow2_unfold((i + 1) as nat);
            if i + 1 < 63 {
                lemma_pow2_strictly_increases((i + 1) as nat, 63);
            }
            lemma2_to64_rest();
        }
        secs = secs * 2;
        i += 1;
    }
    secs
}

/// What an uploader is, as far as its behaviour goes.
pub struct PartUploaderView {
    pub part_number: int,
    /// How many retries the part may have at most.
    pub max_retries: nat,
    /// How many retries have been granted so far.
    pub retries: nat,
}

/// What follows an upload-part call, over views.
pub enum PartStepView {
    Success { part_number: int, e_tag: Seq<char> },
    Failure { error: String },
    Retry { uploader: PartUploaderView, delay_secs: nat },
}

/// The step, with its uploader given by its view and a tag by its text.
pub open spec fn part_step_view(step: PartStep) -> PartStepView {
    match step {
        PartStep::Finished(PartOutcome::Success(part)) => PartStepView::Success {
            part_number: part.part_number as int,
            e_tag: part.e_tag@,
        },
        PartStep::Finished(PartOutcome::Failure(error)) => PartStepView::Failure { error },
        PartStep::Retry { uploader, delay_secs } => PartStepView::Retry {
            uploader: uploader@,
            delay_secs: delay_secs as nat,
        },
    }
}

/// What follows the response to an upload-part call. A stored part is a
/// success under the number of the part. A failed call is tried again while
/// fewer than `max_retries` retries have been granted, after a wait that
/// doubles with each retry; after that the part fails with the error of the
/// last call.
pub open spec fn answered(u: PartUploaderView, response: PartResponse) -> PartStepView {
    match response {
        PartResponse::Uploaded { e_tag } => PartStepView::Success {
            part_number: u.part_number,
            e_tag: tag_text(e_tag),
        },
        PartResponse::Rejected { error } => if u.retries < u.max_retries {
            PartStepView::Retry {
                uploader: PartUploaderView { retries: u.retries + 1, ..u },
                delay_secs: backoff(u.retries + 1),
            }
        } else {
            PartStepView::Failure { error }
        },
    }
}

/// What follows when every call, from the first on, is answered by the next
/// of `errors`: the outcome, or the uploader that waits for the next answer.
pub open spec fn rejected_all(u: PartUploaderView, errors: Seq<String>) -> PartStepView
    decreases errors.len(),
{
    if errors.len() == 0 {
        PartStepView::Retry { uploader: u, delay_secs: 0 }
    } else {
        match rejected_all(u, errors.drop_last()) {
            PartStepView::Retry { uploader, .. } => answered(
                uploader,
                PartResponse::Rejected { error: errors.last() },
            ),
            done => done,
        }
    }
}

/// A part whose calls all fail is retried `max_retries` times and no more:
/// the wait before retry `n` is two to the power `n` seconds, and the call
/// after the last retry ends the part with the error of that call.
pub proof fn lemma_retry_budget(u: PartUploaderView, errors: Seq<String>)
    requires
        u.retries == 0,
        errors.len() > 0,
    ensures
        errors.len() <= u.max_retries ==> rejected_all(u, errors) == (PartStepView::Retry {
            uploader: PartUploaderView { retries: errors.len(), ..u },
            delay_secs: backoff(errors.len()),
        }),
        errors.len() <= u.max_retries && errors.len() < 64 ==> backoff(errors.len()) == pow2(
            errors.len(),
        ),
        errors.len() > u.max_retries ==> rejected_all(u, errors) == (PartStepView::Failure {
            error: errors[u.max_retries as int],
        }),
    decreases errors.len(),
{
    let earlier = errors.drop_last();
    if errors.len() > 1 {
        lemma_retry_budget(u, earlier);
        if earlier.len() > u.max_retries {
            assert(earlier[u.max_retries as int] == errors[u.max_retries as int]);
        }
    } else {
        assert(rejected_all(u, earlier) == (PartStepView::Retry { uploader: u, delay_secs: 0 }));
        assert(u == PartUploaderView { retries: 0, ..u });
    }
}

impl View for PartUploader {
    type V = PartUploaderView;

    closed spec fn view(&self) -> PartUploaderView {
        PartUploaderView {
            part_number: self.part_number as int,
            max_retries: self.max_retries as nat,
            retries: self.retries as nat,
        }
    }
}

impl PartUploader {
    #[verifier::type_invariant]
    spec fn within_budget(self) -> bool {
        self.retries <= self.max_retries
    }

    /// An uploader for a part that has not been sent yet.
    pub fn new(part_number: i32, max_retries: u32) -> (u: PartUploader)
        ensures
            u@ == (PartUploaderView {
                part_number: part_number as int,
                max_retries: max_retries as nat,
                retries: 0,
            }),
    {
        PartUploader { part_number, max_retries, retries: 0 }
    }

    /// The number of the part.
    pub fn part_number(&self) -> (n: i32)
        ensures
            n == self@.part_number,
    {
        self.part_number
    }

    /// How many retries the part may have at most.
    pub fn max_retries(&self) -> (n: u32)
        ensures
            n == self@.max_retries,
    {
        self.max_retries
    }

    /// How many retries have been granted so far.
    pub fn retries(&self) -> (n: u32)
        ensures
            n == self@.retries,
            n <= self@.max_retries,
    {
        proof {
            use_type_invariant(self);
        }
        self.retries
    }

    /// Decides what follows an upload-part call.
    pub fn on_response(self, response: PartResponse) -> (step: PartStep)
        ensures
            part_step_view(step) == answered(self@, response),
            self@.retries <= self@.max_retries,
    {
        proof {
            use_type_invariant(&self);
        }
        match response {
            PartResponse::Uploaded { e_tag } => {
                let e_tag = match e_tag {
                    Some(t) => t,
                    None => String::new(),
                };
                PartStep::Finished(
                    PartOutcome::Success(CompletedPart { part_number: self.part_number, e_tag }),
                )
            },
            PartResponse::Rejected { error } => {
                if self.retries < self.max_retries {
                    let retries = self.retries + 1;
                    PartStep::Retry {
                        uploader: PartUploader {
                            part_number: self.part_number,
                            max_retries: self.max_retries,
                            retries,
                        },
                        delay_secs: backoff_secs(retries),
                    }
                } else {
                    PartStep::Finished(PartOutcome::Failure(error))
                }
            },
        }
    }
}

} // verus!
