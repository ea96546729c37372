use s3_stream_upload::engine::{
    Decision, Engine, Event, Phase, Stage, UploadError, UploadFailure,
};
use s3_stream_upload::ledger::Token;
use s3_stream_upload::part::{
    Block, CompletedPart, PartOutcome, PartResponse, PartStep, PartUploader,
};
use s3_stream_upload::session::UploadSession;
use std::collections::VecDeque;

fn session() -> UploadSession {
    UploadSession {
        bucket: "bucket".to_string(),
        key: "dir/key".to_string(),
        upload_id: "upload-17".to_string(),
        region: "eu-west-1".to_string(),
    }
}

fn bytes(len: usize) -> Vec<u8> {
    (0..len).map(|i| (i * 5 + 1) as u8).collect()
}

/// What was seen of one upload that was run to its end.
struct Run {
    blocks: Vec<Block>,
    waits: Vec<(i32, u64)>,
    finalized: Vec<Vec<CompletedPart>>,
    aborted: Vec<UploadSession>,
    causes: Vec<UploadError>,
    most_in_flight: usize,
    most_resident: usize,
    result: Result<(), UploadFailure>,
}

/// How the calls for one part are answered, call by call; the last answer is
/// given to every further call.
fn answers(part_number: i32, failing: &[(i32, usize)]) -> usize {
    failing.iter().find(|(n, _)| *n == part_number).map(|(_, k)| *k).unwrap_or(0)
}

/// Runs an upload of `input`, read in pieces of at most `read_len` bytes. The
/// calls for the parts in `failing` fail as often as is said there before they
/// succeed. Outcomes come back last first where `reverse` is set.
fn run(
    input: &[u8],
    block_size: usize,
    tokens: usize,
    max_retries: u32,
    read_len: usize,
    failing: &[(i32, usize)],
    reverse: bool,
    finalize: Result<(), String>,
    abort: Result<(), String>,
) -> Run {
    let mut engine = Engine::new(session(), block_size, tokens, max_retries);
    assert_eq!(engine.stage(), Stage::Fresh);
    let mut pool: VecDeque<Token> = (0..tokens).map(|_| Token::Empty).collect();
    let mut seen = Run {
        blocks: Vec::new(),
        waits: Vec::new(),
        finalized: Vec::new(),
        aborted: Vec::new(),
        causes: Vec::new(),
        most_in_flight: 0,
        most_resident: 0,
        result: Ok(()),
    };
    let mut pos = 0;
    let mut decision = engine.step(Event::Start);
    loop {
        seen.most_in_flight = seen.most_in_flight.max(engine.in_flight());
        seen.most_resident = seen.most_resident.max(engine.resident());
        assert!(engine.in_flight() <= tokens);
        assert!(engine.resident() <= tokens);
        let event = match decision {
            Decision::Read { max_len } => {
                assert_eq!(engine.phase(), Phase::Uploading);
                assert!(max_len > 0 && max_len <= block_size);
                let end = (pos + max_len.min(read_len)).min(input.len());
                let data = input[pos..end].to_vec();
                pos = end;
                Event::Read(data)
            }
            Decision::Acquire => match pool.pop_front() {
                Some(token) => Event::Token(token),
                None => Event::PoolClosed("empty".to_string()),
            },
            Decision::Dispatch { session: s, block, uploader } => {
                assert_eq!(s, session());
                assert_eq!(uploader.part_number(), block.part_number);
                assert_eq!(uploader.max_retries(), max_retries);
                assert_eq!(uploader.retries(), 0);
                let mut failures_left = answers(block.part_number, failing);
                let mut uploader: PartUploader = uploader;
                let outcome = loop {
                    let response = if failures_left > 0 {
                        failures_left -= 1;
                        PartResponse::Rejected { error: format!("part {} refused", block.part_number) }
                    } else {
                        PartResponse::Uploaded { e_tag: Some(format!("tag-{}", block.part_number)) }
                    };
                    match uploader.on_response(response) {
                        PartStep::Retry { uploader: next, delay_secs } => {
                            seen.waits.push((block.part_number, delay_secs));
                            uploader = next;
                        }
                        PartStep::Finished(outcome) => break outcome,
                    }
                };
                if reverse {
                    pool.push_front(Token::Carrying(outcome));
                } else {
                    pool.push_back(Token::Carrying(outcome));
                }
                seen.blocks.push(block);
                Event::Dispatched
            }
            Decision::Finalize { session: s, parts } => {
                assert_eq!(s, session());
                assert_eq!(engine.phase(), Phase::Finalizing);
                assert_eq!(engine.in_flight(), 0);
                seen.finalized.push(parts);
                Event::Finalized(finalize.clone())
            }
            Decision::Abort { session: s, cause } => {
                assert_eq!(engine.phase(), Phase::Aborted);
                seen.causes.push(cause);
                seen.aborted.push(s);
                Event::Aborted(abort.clone())
            }
            Decision::Finished(result) => {
                seen.result = result;
                break;
            }
        };
        decision = engine.step(event);
    }
    match &seen.result {
        Ok(()) => {
            assert_eq!(engine.stage(), Stage::Completed);
            assert!(seen.causes.is_empty());
        }
        Err(failure) => {
            assert_eq!(engine.stage(), Stage::Aborted);
            assert_eq!(seen.causes.len(), 1);
            assert_eq!(seen.causes[0], failure.cause);
        }
    }
    assert_eq!(engine.step(Event::Start), Decision::Finished(copy_of(&seen.result)));
    seen
}

fn copy_of(result: &Result<(), UploadFailure>) -> Result<(), UploadFailure> {
    match result {
        Ok(()) => Ok(()),
        Err(f) => Err(UploadFailure { cause: f.cause.copy(), abort_error: f.abort_error.clone() }),
    }
}

fn tags(parts: &[CompletedPart]) -> Vec<(i32, String)> {
    parts.iter().map(|p| (p.part_number, p.e_tag.clone())).collect()
}

#[test]
fn empty_input_is_completed_with_an_empty_list() {
    let seen = run(&[], 4, 2, 4, 4, &[], false, Ok(()), Ok(()));
    assert_eq!(seen.result, Ok(()));
    assert_eq!(seen.blocks, Vec::new());
    assert_eq!(seen.finalized, vec![Vec::new()]);
    assert_eq!(seen.aborted, Vec::new());
}

#[test]
fn nothing_is_read_without_a_token() {
    for input in [bytes(0), bytes(3)] {
        let seen = run(&input, 4, 0, 4, 4, &[], false, Ok(()), Ok(()));
        assert_eq!(
            seen.result,
            Err(UploadFailure { cause: UploadError::NoTokens, abort_error: None })
        );
        assert_eq!(seen.blocks, Vec::new());
        assert_eq!(seen.finalized, Vec::<Vec<CompletedPart>>::new());
        assert_eq!(seen.aborted, vec![session()]);
        assert_eq!(seen.most_resident, 0);
    }
    let mut engine = Engine::new(session(), 4, 0, 4);
    assert_eq!(
        engine.step(Event::Start),
        Decision::Abort { session: session(), cause: UploadError::NoTokens }
    );
}

#[test]
fn input_of_one_block_is_one_part() {
    let input = bytes(8);
    let seen = run(&input, 8, 2, 4, 8, &[], false, Ok(()), Ok(()));
    assert_eq!(seen.result, Ok(()));
    assert_eq!(seen.blocks, vec![Block { part_number: 1, payload: input.clone() }]);
    assert_eq!(seen.finalized.len(), 1);
    assert_eq!(tags(&seen.finalized[0]), vec![(1, "tag-1".to_string())]);
    assert_eq!(seen.aborted, Vec::new());
}

#[test]
fn parts_are_numbered_from_one_without_a_gap() {
    let input = bytes(23);
    let seen = run(&input, 4, 3, 4, 3, &[], false, Ok(()), Ok(()));
    assert_eq!(seen.result, Ok(()));
    let numbers: Vec<i32> = seen.blocks.iter().map(|b| b.part_number).collect();
    assert_eq!(numbers, vec![1, 2, 3, 4, 5, 6]);
    let mut joined = Vec::new();
    for block in &seen.blocks {
        joined.extend_from_slice(&block.payload);
    }
    assert_eq!(joined, input);
    assert_eq!(seen.blocks[5].payload.len(), 3);
}

#[test]
fn list_is_in_order_whatever_the_order_of_arrival() {
    let input = bytes(40);
    for reverse in [false, true] {
        let seen = run(&input, 4, 4, 4, 4, &[], reverse, Ok(()), Ok(()));
        assert_eq!(seen.result, Ok(()));
        assert_eq!(seen.finalized.len(), 1);
        let expected: Vec<(i32, String)> = (1..=10).map(|n| (n, format!("tag-{}", n))).collect();
        assert_eq!(tags(&seen.finalized[0]), expected);
    }
}

#[test]
fn uploads_in_flight_are_bounded_by_the_tokens() {
    let input = bytes(64);
    for tokens in 1..=5 {
        let seen = run(&input, 2, tokens, 4, 2, &[], false, Ok(()), Ok(()));
        assert_eq!(seen.result, Ok(()));
        assert_eq!(seen.blocks.len(), 32);
        assert_eq!(seen.most_in_flight, tokens);
        assert_eq!(seen.most_resident, tokens);
    }
}

#[test]
fn third_part_fails_twice_and_the_upload_succeeds() {
    let input = bytes(20);
    let seen = run(&input, 4, 2, 4, 4, &[(3, 2)], false, Ok(()), Ok(()));
    assert_eq!(seen.result, Ok(()));
    assert_eq!(seen.waits, vec![(3, 2), (3, 4)]);
    let expected: Vec<(i32, String)> = (1..=5).map(|n| (n, format!("tag-{}", n))).collect();
    assert_eq!(tags(&seen.finalized[0]), expected);
    assert_eq!(seen.aborted, Vec::new());
}

#[test]
fn second_part_fails_for_good_and_the_session_is_aborted() {
    let input = bytes(20);
    let seen = run(&input, 4, 2, 4, 4, &[(2, 5)], false, Ok(()), Ok(()));
    assert_eq!(
        seen.result,
        Err(UploadFailure {
            cause: UploadError::PartFailed("part 2 refused".to_string()),
            abort_error: None,
        })
    );
    assert_eq!(seen.waits, vec![(2, 2), (2, 4), (2, 8), (2, 16)]);
    assert_eq!(seen.finalized, Vec::<Vec<CompletedPart>>::new());
    assert_eq!(seen.aborted, vec![session()]);
}

#[test]
fn no_block_is_sent_after_a_failure_was_seen() {
    let input = bytes(400);
    let seen = run(&input, 4, 2, 0, 4, &[(1, 1)], false, Ok(()), Ok(()));
    assert!(seen.result.is_err());
    assert_eq!(seen.blocks.len(), 2);
    assert_eq!(seen.aborted.len(), 1);
    assert!(seen.finalized.is_empty());
}

#[test]
fn failed_completion_aborts_the_session() {
    let input = bytes(10);
    let seen = run(&input, 4, 2, 4, 4, &[], false, Err("no quorum".to_string()), Ok(()));
    assert_eq!(
        seen.result,
        Err(UploadFailure {
            cause: UploadError::Finalize("no quorum".to_string()),
            abort_error: None,
        })
    );
    assert_eq!(seen.finalized.len(), 1);
    assert_eq!(seen.aborted, vec![session()]);
}

#[test]
fn failed_abort_is_reported_beside_the_cause() {
    let input = bytes(10);
    let seen =
        run(&input, 4, 2, 0, 4, &[(1, 1)], false, Ok(()), Err("abort refused".to_string()));
    assert_eq!(
        seen.result,
        Err(UploadFailure {
            cause: UploadError::PartFailed("part 1 refused".to_string()),
            abort_error: Some("abort refused".to_string()),
        })
    );
    assert_eq!(seen.aborted.len(), 1);
}

#[test]
fn block_is_read_only_with_a_token_in_hand() {
    let mut engine = Engine::new(session(), 1, 1, 4);
    assert_eq!(engine.step(Event::Start), Decision::Acquire);
    assert_eq!(engine.stage(), Stage::Acquiring);
    assert_eq!(engine.resident(), 0);
    assert_eq!(engine.step(Event::Token(Token::Empty)), Decision::Read { max_len: 1 });
    assert_eq!(engine.stage(), Stage::Reading);
    match engine.step(Event::Read(vec![1])) {
        Decision::Dispatch { block, .. } => {
            assert_eq!(block, Block { part_number: 1, payload: vec![1] })
        }
        other => panic!("{:?}", other),
    }
    assert_eq!(engine.in_flight(), 1);
    assert_eq!(engine.resident(), 1);
    assert_eq!(engine.step(Event::Dispatched), Decision::Acquire);
    assert_eq!(engine.resident(), 1);
    let back = PartOutcome::Success(CompletedPart { part_number: 1, e_tag: "t".to_string() });
    assert_eq!(
        engine.step(Event::Token(Token::Carrying(back))),
        Decision::Read { max_len: 1 }
    );
    assert_eq!(engine.in_flight(), 0);
    assert_eq!(engine.resident(), 0);
    match engine.step(Event::Read(vec![2])) {
        Decision::Dispatch { block, .. } => {
            assert_eq!(block, Block { part_number: 2, payload: vec![2] })
        }
        other => panic!("{:?}", other),
    }
    assert_eq!(engine.resident(), 1);
}

#[test]
fn block_being_gathered_counts_as_resident() {
    let mut engine = Engine::new(session(), 4, 2, 4);
    assert_eq!(engine.step(Event::Start), Decision::Acquire);
    assert_eq!(engine.step(Event::Token(Token::Empty)), Decision::Read { max_len: 4 });
    assert_eq!(engine.resident(), 0);
    assert_eq!(engine.step(Event::Read(vec![1, 2])), Decision::Read { max_len: 2 });
    assert_eq!(engine.resident(), 1);
    assert!(matches!(engine.step(Event::Read(vec![3, 4])), Decision::Dispatch { .. }));
    assert_eq!(engine.resident(), 1);
    assert_eq!(engine.step(Event::Dispatched), Decision::Acquire);
    assert_eq!(engine.step(Event::Token(Token::Empty)), Decision::Read { max_len: 4 });
    assert_eq!(engine.step(Event::Read(vec![5])), Decision::Read { max_len: 3 });
    assert_eq!(engine.in_flight(), 1);
    assert_eq!(engine.resident(), 2);
}

#[test]
fn read_error_drains_and_aborts() {
    let mut engine = Engine::new(session(), 2, 2, 4);
    assert_eq!(engine.step(Event::Start), Decision::Acquire);
    assert_eq!(engine.stage(), Stage::Acquiring);
    assert_eq!(engine.step(Event::Token(Token::Empty)), Decision::Read { max_len: 2 });
    match engine.step(Event::Read(vec![1, 2])) {
        Decision::Dispatch { block, .. } => {
            assert_eq!(block, Block { part_number: 1, payload: vec![1, 2] })
        }
        other => panic!("{:?}", other),
    }
    assert_eq!(engine.stage(), Stage::Dispatching);
    assert_eq!(engine.in_flight(), 1);
    assert_eq!(engine.step(Event::Dispatched), Decision::Acquire);
    assert_eq!(engine.step(Event::Token(Token::Empty)), Decision::Read { max_len: 2 });
    assert_eq!(engine.step(Event::Read(vec![3])), Decision::Read { max_len: 1 });
    assert_eq!(engine.step(Event::ReadFailed("disk gone".to_string())), Decision::Acquire);
    assert_eq!(engine.stage(), Stage::Draining);
    assert_eq!(engine.phase(), Phase::Uploading);
    let outcome = PartOutcome::Success(CompletedPart { part_number: 1, e_tag: "t".to_string() });
    assert_eq!(
        engine.step(Event::Token(Token::Carrying(outcome))),
        Decision::Abort {
            session: session(),
            cause: UploadError::Read("disk gone".to_string()),
        }
    );
    assert_eq!(engine.in_flight(), 0);
    assert_eq!(engine.stage(), Stage::Aborting);
    assert_eq!(
        engine.step(Event::Aborted(Ok(()))),
        Decision::Finished(Err(UploadFailure {
            cause: UploadError::Read("disk gone".to_string()),
            abort_error: None,
        }))
    );
    assert_eq!(engine.stage(), Stage::Aborted);
    assert_eq!(engine.blocks(), 1);
}

#[test]
fn first_failure_seen_is_the_one_reported() {
    let mut engine = Engine::new(session(), 1, 2, 0);
    assert_eq!(engine.step(Event::Start), Decision::Acquire);
    for byte in [1u8, 2] {
        assert_eq!(engine.step(Event::Token(Token::Empty)), Decision::Read { max_len: 1 });
        assert!(matches!(engine.step(Event::Read(vec![byte])), Decision::Dispatch { .. }));
        assert_eq!(engine.step(Event::Dispatched), Decision::Acquire);
    }
    assert_eq!(engine.in_flight(), 2);
    let late = Token::Carrying(PartOutcome::Failure("second part".to_string()));
    assert_eq!(engine.step(Event::Token(late)), Decision::Acquire);
    assert_eq!(engine.stage(), Stage::Draining);
    let later = Token::Carrying(PartOutcome::Failure("first part".to_string()));
    assert_eq!(
        engine.step(Event::Token(later)),
        Decision::Abort {
            session: session(),
            cause: UploadError::PartFailed("second part".to_string()),
        }
    );
    assert_eq!(
        engine.step(Event::Aborted(Ok(()))),
        Decision::Finished(Err(UploadFailure {
            cause: UploadError::PartFailed("second part".to_string()),
            abort_error: None,
        }))
    );
}

#[test]
fn record_of_a_part_not_sent_is_no_completion() {
    let mut engine = Engine::new(session(), 4, 1, 4);
    assert_eq!(engine.step(Event::Start), Decision::Acquire);
    assert_eq!(engine.step(Event::Token(Token::Empty)), Decision::Read { max_len: 4 });
    assert!(matches!(engine.step(Event::Read(vec![1, 2, 3, 4])), Decision::Dispatch { .. }));
    assert_eq!(engine.step(Event::Dispatched), Decision::Acquire);
    let wrong = PartOutcome::Success(CompletedPart { part_number: 2, e_tag: "t".to_string() });
    assert_eq!(
        engine.step(Event::Token(Token::Carrying(wrong))),
        Decision::Read { max_len: 4 }
    );
    assert_eq!(
        engine.step(Event::Read(Vec::new())),
        Decision::Abort { session: session(), cause: UploadError::MissingParts }
    );
    assert_eq!(
        engine.step(Event::Aborted(Ok(()))),
        Decision::Finished(Err(UploadFailure {
            cause: UploadError::MissingParts,
            abort_error: None,
        }))
    );
}

#[test]
fn token_that_is_none_of_the_pool_is_an_error() {
    let mut engine = Engine::new(session(), 4, 1, 4);
    assert_eq!(engine.step(Event::Start), Decision::Acquire);
    let stray = PartOutcome::Success(CompletedPart { part_number: 1, e_tag: "t".to_string() });
    assert_eq!(
        engine.step(Event::Token(Token::Carrying(stray))),
        Decision::Abort { session: session(), cause: UploadError::PoolCorrupt }
    );
    assert_eq!(
        engine.step(Event::Start),
        Decision::Finished(Err(UploadFailure {
            cause: UploadError::PoolCorrupt,
            abort_error: None,
        }))
    );
}

#[test]
fn closed_pool_is_an_error() {
    let mut engine = Engine::new(session(), 4, 1, 4);
    assert_eq!(engine.step(Event::Start), Decision::Acquire);
    assert_eq!(
        engine.step(Event::PoolClosed("channel gone".to_string())),
        Decision::Abort {
            session: session(),
            cause: UploadError::PoolClosed("channel gone".to_string()),
        }
    );
    assert_eq!(
        engine.step(Event::Aborted(Err("gone".to_string()))),
        Decision::Finished(Err(UploadFailure {
            cause: UploadError::PoolClosed("channel gone".to_string()),
            abort_error: Some("gone".to_string()),
        }))
    );
}

#[test]
fn event_out_of_turn_gives_the_upload_up() {
    let mut engine = Engine::new(session(), 4, 1, 4);
    assert_eq!(
        engine.step(Event::Dispatched),
        Decision::Abort { session: session(), cause: UploadError::Unexpected }
    );
    assert_eq!(engine.phase(), Phase::Aborted);
    assert_eq!(
        engine.step(Event::Aborted(Ok(()))),
        Decision::Finished(Err(UploadFailure {
            cause: UploadError::Unexpected,
            abort_error: None,
        }))
    );
}

#[test]
fn read_of_more_than_was_asked_for_gives_the_upload_up() {
    let mut engine = Engine::new(session(), 4, 1, 4);
    assert_eq!(engine.step(Event::Start), Decision::Acquire);
    assert_eq!(engine.step(Event::Token(Token::Empty)), Decision::Read { max_len: 4 });
    assert_eq!(
        engine.step(Event::Read(vec![0; 5])),
        Decision::Abort { session: session(), cause: UploadError::Unexpected }
    );
}

#[test]
fn finished_upload_stays_finished() {
    let mut engine = Engine::new(session(), 4, 1, 4);
    assert_eq!(engine.step(Event::Start), Decision::Acquire);
    assert_eq!(engine.step(Event::Token(Token::Empty)), Decision::Read { max_len: 4 });
    assert_eq!(
        engine.step(Event::Read(Vec::new())),
        Decision::Finalize { session: session(), parts: Vec::new() }
    );
    assert_eq!(engine.step(Event::Finalized(Ok(()))), Decision::Finished(Ok(())));
    assert_eq!(engine.phase(), Phase::Completed);
    for _ in 0..3 {
        assert_eq!(engine.step(Event::Aborted(Ok(()))), Decision::Finished(Ok(())));
        assert_eq!(engine.step(Event::Read(vec![1])), Decision::Finished(Ok(())));
        assert_eq!(engine.stage(), Stage::Completed);
    }
}

#[test]
fn session_is_aborted_once_at_most() {
    let mut engine = Engine::new(session(), 4, 1, 4);
    let mut aborts = 0;
    let events = vec![
        Event::Finalized(Ok(())),
        Event::ReadFailed("x".to_string()),
        Event::Dispatched,
        Event::Start,
        Event::PoolClosed("w".to_string()),
        Event::Finalized(Err("y".to_string())),
        Event::Aborted(Err("z".to_string())),
    ];
    for event in events {
        if let Decision::Abort { .. } = engine.step(event) {
            aborts += 1;
        }
    }
    assert_eq!(aborts, 1);
    assert_eq!(engine.stage(), Stage::Aborted);
}

#[test]
fn error_copy_is_equal() {
    let errors = vec![
        UploadError::Read("a".to_string()),
        UploadError::PartFailed("b".to_string()),
        UploadError::Finalize("c".to_string()),
        UploadError::MissingParts,
        UploadError::TooManyParts,
        UploadError::NoTokens,
        UploadError::PoolClosed("d".to_string()),
        UploadError::PoolCorrupt,
        UploadError::Unexpected,
    ];
    for error in &errors {
        assert_eq!(&error.copy(), error);
    }
}

#[test]
fn errors_in_words() {
    assert_eq!(UploadError::Read("disk gone".to_string()).message(), "disk gone");
    assert_eq!(
        UploadError::PartFailed("timeout".to_string()).message(),
        "Failed to upload part: timeout"
    );
    assert_eq!(UploadError::Finalize("denied".to_string()).message(), "denied");
    assert_eq!(
        UploadError::PoolClosed("receiving on an empty and disconnected channel".to_string())
            .message(),
        "Failed communicate with threads: receiving on an empty and disconnected channel"
    );
    assert_eq!(
        UploadError::PartFailed("timeout".to_string()).notice(),
        "Aborting upload: Failed to upload part: timeout"
    );
    for error in [
        UploadError::MissingParts,
        UploadError::TooManyParts,
        UploadError::NoTokens,
        UploadError::PoolCorrupt,
        UploadError::Unexpected,
    ] {
        assert!(!error.message().is_empty());
        assert_eq!(error.notice(), format!("Aborting upload: {}", error.message()));
    }
}

#[test]
fn failure_in_words() {
    let plain = UploadFailure { cause: UploadError::NoTokens, abort_error: None };
    assert_eq!(plain.message(), "Failed upload");
    let twice = UploadFailure {
        cause: UploadError::NoTokens,
        abort_error: Some("abort refused".to_string()),
    };
    assert_eq!(twice.message(), "abort refused");
}
