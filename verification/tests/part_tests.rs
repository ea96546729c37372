use s3_stream_upload::part::{
    backoff_secs, CompletedPart, PartOutcome, PartResponse, PartStep, PartUploader,
};

fn rejected(text: &str) -> PartResponse {
    PartResponse::Rejected { error: text.to_string() }
}

#[test]
fn backoff_doubles() {
    assert_eq!(backoff_secs(0), 1);
    assert_eq!(backoff_secs(1), 2);
    assert_eq!(backoff_secs(2), 4);
    assert_eq!(backoff_secs(3), 8);
    assert_eq!(backoff_secs(4), 16);
    assert_eq!(backoff_secs(10), 1024);
    assert_eq!(backoff_secs(63), 1 << 63);
}

#[test]
fn backoff_stays_at_the_largest_number() {
    assert_eq!(backoff_secs(64), u64::MAX);
    assert_eq!(backoff_secs(65), u64::MAX);
    assert_eq!(backoff_secs(u32::MAX), u64::MAX);
}

#[test]
fn backoff_is_a_power_of_two_below_64() {
    for n in 0..64u32 {
        assert_eq!(backoff_secs(n), 2u64.pow(n));
    }
}

#[test]
fn new_uploader_has_made_no_retry() {
    let uploader = PartUploader::new(7, 4);
    assert_eq!(uploader.part_number(), 7);
    assert_eq!(uploader.max_retries(), 4);
    assert_eq!(uploader.retries(), 0);
}

#[test]
fn stored_part_is_a_success_under_its_number() {
    let step = PartUploader::new(3, 4)
        .on_response(PartResponse::Uploaded { e_tag: Some("\"abc\"".to_string()) });
    assert_eq!(
        step,
        PartStep::Finished(PartOutcome::Success(CompletedPart {
            part_number: 3,
            e_tag: "\"abc\"".to_string(),
        }))
    );
}

#[test]
fn missing_tag_is_the_empty_string() {
    let step = PartUploader::new(1, 4).on_response(PartResponse::Uploaded { e_tag: None });
    assert_eq!(
        step,
        PartStep::Finished(PartOutcome::Success(CompletedPart {
            part_number: 1,
            e_tag: String::new(),
        }))
    );
}

#[test]
fn part_that_fails_twice_waits_two_and_four_seconds() {
    let mut uploader = PartUploader::new(3, 4);
    let mut delays = Vec::new();
    for _ in 0..2 {
        match uploader.on_response(rejected("timeout")) {
            PartStep::Retry { uploader: next, delay_secs } => {
                delays.push(delay_secs);
                uploader = next;
            }
            PartStep::Finished(outcome) => panic!("gave up early: {:?}", outcome),
        }
    }
    assert_eq!(delays, vec![2, 4]);
    assert_eq!(uploader.retries(), 2);
    assert_eq!(uploader.part_number(), 3);
    let step = uploader.on_response(PartResponse::Uploaded { e_tag: Some("t3".to_string()) });
    assert_eq!(
        step,
        PartStep::Finished(PartOutcome::Success(CompletedPart {
            part_number: 3,
            e_tag: "t3".to_string(),
        }))
    );
}

#[test]
fn budget_of_four_gives_four_retries_and_then_the_last_error() {
    let mut uploader = PartUploader::new(2, 4);
    let mut delays = Vec::new();
    let mut calls = 0;
    let outcome = loop {
        calls += 1;
        match uploader.on_response(rejected(&format!("error {}", calls))) {
            PartStep::Retry { uploader: next, delay_secs } => {
                delays.push(delay_secs);
                uploader = next;
            }
            PartStep::Finished(outcome) => break outcome,
        }
    };
    assert_eq!(delays, vec![2, 4, 8, 16]);
    assert_eq!(calls, 5);
    assert_eq!(outcome, PartOutcome::Failure("error 5".to_string()));
}

#[test]
fn budget_of_zero_gives_up_at_once() {
    let step = PartUploader::new(1, 0).on_response(rejected("no"));
    assert_eq!(step, PartStep::Finished(PartOutcome::Failure("no".to_string())));
}

#[test]
fn retry_keeps_number_and_budget() {
    match PartUploader::new(9, 2).on_response(rejected("x")) {
        PartStep::Retry { uploader, delay_secs } => {
            assert_eq!(uploader.part_number(), 9);
            assert_eq!(uploader.max_retries(), 2);
            assert_eq!(uploader.retries(), 1);
            assert_eq!(delay_secs, 2);
        }
        other => panic!("{:?}", other),
    }
}

#[test]
fn long_budget_waits_saturate() {
    let mut uploader = PartUploader::new(1, 70);
    let mut last = 0;
    for _ in 0..70 {
        match uploader.on_response(rejected("x")) {
            PartStep::Retry { uploader: next, delay_secs } => {
                last = delay_secs;
                uploader = next;
            }
            other => panic!("{:?}", other),
        }
    }
    assert_eq!(last, u64::MAX);
    assert_eq!(
        uploader.on_response(rejected("end")),
        PartStep::Finished(PartOutcome::Failure("end".to_string()))
    );
}
