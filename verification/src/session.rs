//! Opens the upload session, following the backend to the region of the bucket.
//!
//! The caller makes the create-session calls. After each call it reports what
//! the backend answered and is told what to do next: call again in another
//! region, go on with the session that was opened, or give up.

use vstd::prelude::*;
use vstd::string::StringExecFns;

verus! {

/// The region in which the first create-session call is made where none is
/// configured.
pub const DEFAULT_REGION: &'static str = "us-east-2";

/// How many create-session calls are made at most, the first one counted.
pub const MAX_ATTEMPTS: u32 = 3;

/// An open upload session: what every later call to the backend names.
#[derive(Debug, PartialEq, Eq)]
pub struct UploadSession {
    pub bucket: String,
    pub key: String,
    pub upload_id: String,
    pub region: String,
}

impl UploadSession {
    /// The same session once more, for another task to own.
    pub fn copy(&self) -> (c: UploadSession)
        ensures
            c == *self,
    {
        UploadSession {
            bucket: self.bucket.clone(),
            key: self.key.clone(),
            upload_id: self.upload_id.clone(),
            region: self.region.clone(),
        }
    }
}

/// What the backend answered to a create-session call.
#[derive(Debug, PartialEq, Eq)]
pub enum CreateResponse {
    /// The session was created; the backend may have left out its identifier.
    Created { upload_id: Option<String> },
    /// The backend refused, with an HTTP status and, where it sent one, the
    /// header that names the region of the bucket.
    ServiceError { status: u16, bucket_region: Option<String>, message: String },
    /// The call failed before the backend answered.
    Failed { message: String },
}

/// Why no session was opened.
#[derive(Debug, PartialEq, Eq)]
pub enum InitError {
    /// Every call allowed was answered with a redirect.
    TooManyRedirects,
    /// The backend created a session and did not say which.
    MissingUploadId,
    /// The backend's own error, as it came.
    Remote(String),
}

impl InitError {
    /// The error in words.
    pub open spec fn message_text(self) -> Seq<char> {
        match self {
            InitError::TooManyRedirects => "Stopped following redirects after 3 hops"@,
            InitError::MissingUploadId => "Could not get upload_id"@,
            InitError::Remote(detail) => detail@,
        }
    }

    /// The error in words.
    pub fn message(&self) -> (text: String)
        ensures
            text@ == self.message_text(),
    {
        match self {
            InitError::TooManyRedirects => String::from_str(
                "Stopped following redirects after 3 hops",
            ),
            InitError::MissingUploadId => String::from_str("Could not get upload_id"),
            InitError::Remote(detail) => detail.clone(),
        }
    }
}

/// What an initiator is, as far as its behaviour goes.
pub struct InitiatorView {
    pub bucket: String,
    pub key: String,
    /// The region in which the call that is under way was made.
    pub region: String,
    /// How many calls have been made, the one under way counted.
    pub attempts: nat,
}

/// What follows a create-session call, over views.
pub enum InitStepView {
    Retry(InitiatorView),
    Opened(UploadSession),
    Failed(InitError),
}

/// The status code of "moved permanently".
pub open spec fn moved_permanently() -> u16 {
    301
}

/// The region that a response sends the caller to, if it is a redirect: the
/// status says "moved permanently" and the header with the region is there.
pub open spec fn redirect_target(response: CreateResponse) -> Option<String> {
    match response {
        CreateResponse::ServiceError { status, bucket_region: Some(region), .. } => if status
            == moved_permanently() {
            Some(region)
        } else {
            None
        },
        _ => None,
    }
}

/// What follows the response to the call that is under way.
pub open spec fn responded(i: InitiatorView, response: CreateResponse) -> InitStepView {
    match response {
        CreateResponse::Created { upload_id: Some(upload_id) } => InitStepView::Opened(
            UploadSession { bucket: i.bucket, key: i.key, upload_id, region: i.region },
        ),
        CreateResponse::Created { upload_id: None } => InitStepView::Failed(
            InitError::MissingUploadId,
        ),
        CreateResponse::ServiceError { status, bucket_region, message } => match redirect_target(
            response,
        ) {
            Some(region) => if i.attempts < MAX_ATTEMPTS {
                InitStepView::Retry(InitiatorView { region, attempts: i.attempts + 1, ..i })
            } else {
                InitStepView::Failed(InitError::TooManyRedirects)
            },
            None => InitStepView::Failed(InitError::Remote(message)),
        },
        CreateResponse::Failed { message } => InitStepView::Failed(InitError::Remote(message)),
    }
}

/// What follows when the calls, from the one under way on, are answered by
/// `responses` in turn, as long as the answer is to call again.
pub open spec fn responded_all(i: InitiatorView, responses: Seq<CreateResponse>) -> InitStepView
    decreases responses.len(),
{
    if responses.len() == 0 {
        InitStepView::Retry(i)
    } else {
        match responded_all(i, responses.drop_last()) {
            InitStepView::Retry(next) => responded(next, responses.last()),
            done => done,
        }
    }
}

/// While the backend answers with nothing but redirects, each new call goes to
/// the region that the last redirect named, and the third redirect in a row
/// ends the attempt for good.
pub proof fn lemma_redirects(i: InitiatorView, responses: Seq<CreateResponse>)
    requires
        i.attempts == 1,
        forall|k: int| 0 <= k < responses.len() ==> redirect_target(#[trigger] responses[k]) is Some,
    ensures
        0 < responses.len() < MAX_ATTEMPTS ==> responded_all(i, responses) == InitStepView::Retry(
            InitiatorView {
                region: redirect_target(responses.last())->0,
                attempts: 1 + responses.len(),
                ..i
            },
        ),
        responses.len() >= MAX_ATTEMPTS ==> responded_all(i, responses) == InitStepView::Failed(
            InitError::TooManyRedirects,
        ),
    decreases responses.len(),
{
    if responses.len() > 0 {
        lemma_redirects(i, responses.drop_last());
        let earlier = responses.drop_last();
        if earlier.len() > 0 {
            assert(earlier.last() == responses[earlier.len() - 1]);
        }
    }
}

/// Whether `status` is the HTTP status "moved permanently". The comparison is
/// the one that the crate `http` defines between a number and its constant
/// `StatusCode::MOVED_PERMANENTLY`, which stands for 301.
#[verifier::external_body]
fn is_moved_permanently(status: u16) -> (b: bool)
    ensures
        b == (status == moved_permanently()),
{
    status == http::StatusCode::MOVED_PERMANENTLY
}

/// The opening of a session while a create-session call is under way.
#[derive(Debug, PartialEq, Eq)]
pub struct Initiator {
    bucket: String,
    key: String,
    region: String,
    attempts: u32,
}

/// What follows a create-session call.
#[derive(Debug, PartialEq, Eq)]
pub enum InitStep {
    /// Call again, in the region of this initiator, and report to it.
    Retry(Initiator),
    /// The session is open.
    Opened(UploadSession),
    /// No session was opened, and none is to be aborted.
    Failed(InitError),
}

/// The step, with its initiator given by its view.
pub open spec fn init_step_view(step: InitStep) -> InitStepView {
    match step {
        InitStep::Retry(i) => InitStepView::Retry(i@),
        InitStep::Opened(session) => InitStepView::Opened(session),
        InitStep::Failed(error) => InitStepView::Failed(error),
    }
}

impl View for Initiator {
    type V = InitiatorView;

    closed spec fn view(&self) -> InitiatorView {
        InitiatorView {
            bucket: self.bucket,
            key: self.key,
            region: self.region,
            attempts: self.attempts as nat,
        }
    }
}

impl Initiator {
    #[verifier::type_invariant]
    spec fn within_limit(self) -> bool {
        1 <= self.attempts <= MAX_ATTEMPTS
    }

    /// The opening of a session for `key` in `bucket`, with the first call
    /// under way in the region configured, or in the default region where none
    /// is.
    pub fn new(bucket: String, key: String, configured_region: Option<String>) -> (i: Initiator)
        ensures
            i@.bucket == bucket,
            i@.key == key,
            i@.attempts == 1,
            match configured_region {
                Some(region) => i@.region == region,
                None => i@.region@ == DEFAULT_REGION@,
            },
    {
        let region = match configured_region {
            Some(region) => region,
            None => String::from_str(DEFAULT_REGION),
        };
        Initiator { bucket, key, region, attempts: 1 }
    }

    /// The region in which to make the call.
    pub fn region(&self) -> (r: &String)
        ensures
            *r == self@.region,
    {
        &self.region
    }

    /// How many calls have been made, the one under way counted.
    pub fn attempts(&self) -> (n: u32)
        ensures
            n == self@.attempts,
            1 <= n <= MAX_ATTEMPTS,
    {
        proof {
            use_type_invariant(self);
        }
        self.attempts
    }

    /// The bucket of the session to be opened.
    pub fn bucket(&self) -> (r: &String)
        ensures
            *r == self@.bucket,
    {
        &self.bucket
    }

    /// The key of the session to be opened.
    pub fn key(&self) -> (r: &String)
        ensures
            *r == self@.key,
    {
        &self.key
    }

    /// Decides what follows the response to the call under way. A created
    /// session is open, unless its identifier is missing. A redirect makes
    /// the next call go to the region it names, unless this was the last call
    /// allowed. Every other error ends the attempt as it is.
    pub fn on_response(self, response: CreateResponse) -> (step: InitStep)
        ensures
            init_step_view(step) == responded(self@, response),
            1 <= self@.attempts <= MAX_ATTEMPTS,
    {
        proof {
            use_type_invariant(&self);
        }
        match response {
            CreateResponse::Created { upload_id: Some(upload_id) } => InitStep::Opened(
                UploadSession {
                    bucket: self.bucket,
                    key: self.key,
                    upload_id,
                    region: self.region,
                },
            ),
            CreateResponse::Created { upload_id: None } => InitStep::Failed(
                InitError::MissingUploadId,
            ),
            CreateResponse::ServiceError { status, bucket_region, message } => {
                let moved = is_moved_permanently(status);
                match bucket_region {
                    Some(region) => {
                        if moved {
                            if self.attempts < MAX_ATTEMPTS {
                                InitStep::Retry(
                                    Initiator {
                                        bucket: self.bucket,
                                        key: self.key,
                                        region,
                                        attempts: self.attempts + 1,
                                    },
                                )
                            } else {
                                InitStep::Failed(InitError::TooManyRedirects)
                            }
                        } else {
                            InitStep::Failed(InitError::Remote(message))
                        }
                    },
                    None => InitStep::Failed(InitError::Remote(message)),
                }
            },
            CreateResponse::Failed { message } => InitStep::Failed(InitError::Remote(message)),
        }
    }
}

} // verus!
