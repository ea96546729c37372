use s3_stream_upload::session::{
    CreateResponse, InitError, InitStep, Initiator, UploadSession, DEFAULT_REGION, MAX_ATTEMPTS,
};

fn fresh() -> Initiator {
    Initiator::new("bucket".to_string(), "key".to_string(), Some("eu-west-1".to_string()))
}

fn moved(region: &str) -> CreateResponse {
    CreateResponse::ServiceError {
        status: 301,
        bucket_region: Some(region.to_string()),
        message: format!("moved to {}", region),
    }
}

#[test]
fn first_call_goes_to_the_configured_region() {
    let initiator = fresh();
    assert_eq!(initiator.region(), "eu-west-1");
    assert_eq!(initiator.bucket(), "bucket");
    assert_eq!(initiator.key(), "key");
    assert_eq!(initiator.attempts(), 1);
}

#[test]
fn default_region() {
    assert_eq!(DEFAULT_REGION, "us-east-2");
    let initiator = Initiator::new("b".to_string(), "k".to_string(), None);
    assert_eq!(initiator.region(), "us-east-2");
}

#[test]
fn created_session_is_open() {
    let step = fresh().on_response(CreateResponse::Created { upload_id: Some("id-1".to_string()) });
    assert_eq!(
        step,
        InitStep::Opened(UploadSession {
            bucket: "bucket".to_string(),
            key: "key".to_string(),
            upload_id: "id-1".to_string(),
            region: "eu-west-1".to_string(),
        })
    );
}

#[test]
fn session_without_identifier_is_an_error() {
    let step = fresh().on_response(CreateResponse::Created { upload_id: None });
    assert_eq!(step, InitStep::Failed(InitError::MissingUploadId));
}

#[test]
fn redirect_sends_the_next_call_to_its_target() {
    match fresh().on_response(moved("ap-south-1")) {
        InitStep::Retry(next) => {
            assert_eq!(next.region(), "ap-south-1");
            assert_eq!(next.bucket(), "bucket");
            assert_eq!(next.key(), "key");
            assert_eq!(next.attempts(), 2);
            let step =
                next.on_response(CreateResponse::Created { upload_id: Some("id-2".to_string()) });
            assert_eq!(
                step,
                InitStep::Opened(UploadSession {
                    bucket: "bucket".to_string(),
                    key: "key".to_string(),
                    upload_id: "id-2".to_string(),
                    region: "ap-south-1".to_string(),
                })
            );
        }
        other => panic!("{:?}", other),
    }
}

#[test]
fn third_redirect_in_a_row_is_the_end() {
    assert_eq!(MAX_ATTEMPTS, 3);
    let mut initiator = fresh();
    for (n, region) in ["r1", "r2"].iter().enumerate() {
        match initiator.on_response(moved(region)) {
            InitStep::Retry(next) => {
                assert_eq!(next.region(), *region);
                assert_eq!(next.attempts() as usize, n + 2);
                initiator = next;
            }
            other => panic!("{:?}", other),
        }
    }
    assert_eq!(initiator.on_response(moved("r3")), InitStep::Failed(InitError::TooManyRedirects));
}

#[test]
fn only_status_301_redirects() {
    for status in [300u16, 302, 307, 308, 400, 403, 404, 500, 0, 0x12d + 1, 65535] {
        let step = fresh().on_response(CreateResponse::ServiceError {
            status,
            bucket_region: Some("elsewhere".to_string()),
            message: "refused".to_string(),
        });
        assert_eq!(step, InitStep::Failed(InitError::Remote("refused".to_string())), "{}", status);
    }
    assert!(matches!(fresh().on_response(moved("elsewhere")), InitStep::Retry(_)));
}

#[test]
fn redirect_without_region_is_an_error() {
    let step = fresh().on_response(CreateResponse::ServiceError {
        status: 301,
        bucket_region: None,
        message: "moved".to_string(),
    });
    assert_eq!(step, InitStep::Failed(InitError::Remote("moved".to_string())));
}

#[test]
fn other_errors_come_as_they_are() {
    let step = fresh().on_response(CreateResponse::Failed { message: "no route".to_string() });
    assert_eq!(step, InitStep::Failed(InitError::Remote("no route".to_string())));
    let step = fresh().on_response(CreateResponse::ServiceError {
        status: 403,
        bucket_region: None,
        message: "denied".to_string(),
    });
    assert_eq!(step, InitStep::Failed(InitError::Remote("denied".to_string())));
}

#[test]
fn error_after_a_redirect_ends_the_attempt() {
    match fresh().on_response(moved("r1")) {
        InitStep::Retry(next) => {
            assert_eq!(
                next.on_response(CreateResponse::Failed { message: "down".to_string() }),
                InitStep::Failed(InitError::Remote("down".to_string()))
            );
        }
        other => panic!("{:?}", other),
    }
}

#[test]
fn session_copy_is_equal() {
    let session = UploadSession {
        bucket: "b".to_string(),
        key: "k".to_string(),
        upload_id: "u".to_string(),
        region: "r".to_string(),
    };
    assert_eq!(session.copy(), session);
}

#[test]
fn init_errors_in_words() {
    assert_eq!(
        InitError::TooManyRedirects.message(),
        "Stopped following redirects after 3 hops"
    );
    assert_eq!(InitError::MissingUploadId.message(), "Could not get upload_id");
    assert_eq!(InitError::Remote("service error".to_string()).message(), "service error");
}
