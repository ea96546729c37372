use s3_stream_upload::ledger::{Ledger, Token};
use s3_stream_upload::part::{CompletedPart, PartOutcome};

fn success(part_number: i32) -> Token {
    Token::Carrying(PartOutcome::Success(CompletedPart {
        part_number,
        e_tag: format!("tag{}", part_number),
    }))
}

fn failure(text: &str) -> Token {
    Token::Carrying(PartOutcome::Failure(text.to_string()))
}

#[test]
fn new_ledger_expects_its_tokens() {
    let ledger = Ledger::new(2);
    assert!(ledger.expecting());
    assert!(!ledger.failed());
    assert_eq!(ledger.in_flight(), 0);
    assert_eq!(ledger.failure(), None);
}

#[test]
fn ledger_without_tokens_expects_none() {
    let mut ledger = Ledger::new(0);
    assert!(!ledger.expecting());
    assert!(!ledger.accept(Token::Empty));
    assert!(!ledger.accept(success(1)));
}

#[test]
fn no_more_empty_tokens_than_the_pool_holds() {
    let mut ledger = Ledger::new(2);
    assert!(ledger.accept(Token::Empty));
    assert!(ledger.accept(Token::Empty));
    assert!(!ledger.expecting());
    assert!(!ledger.accept(Token::Empty));
}

#[test]
fn outcome_needs_an_upload_in_flight() {
    let mut ledger = Ledger::new(2);
    assert!(!ledger.accept(success(1)));
    assert!(ledger.accept(Token::Empty));
    ledger.spend();
    assert_eq!(ledger.in_flight(), 1);
    assert!(ledger.accept(success(1)));
    assert_eq!(ledger.in_flight(), 0);
    assert!(!ledger.accept(success(2)));
    assert_eq!(
        ledger.take_parts(),
        vec![CompletedPart { part_number: 1, e_tag: "tag1".to_string() }]
    );
    assert_eq!(ledger.take_parts(), Vec::new());
}

#[test]
fn uploads_in_flight_never_exceed_the_tokens() {
    let capacity = 3;
    let mut ledger = Ledger::new(capacity);
    let mut sent = 0;
    for round in 0..20 {
        let token = if round < capacity { Token::Empty } else { success(round as i32) };
        assert!(ledger.accept(token));
        ledger.spend();
        sent += 1;
        assert!(ledger.in_flight() <= capacity);
        assert_eq!(ledger.in_flight(), sent.min(capacity));
    }
    assert!(!ledger.accept(Token::Empty));
}

#[test]
fn first_failure_is_kept() {
    let mut ledger = Ledger::new(3);
    for _ in 0..3 {
        assert!(ledger.accept(Token::Empty));
        ledger.spend();
    }
    assert!(ledger.accept(failure("first")));
    assert!(ledger.failed());
    assert!(ledger.accept(success(2)));
    assert!(ledger.accept(failure("second")));
    assert_eq!(ledger.failure(), Some("first".to_string()));
    assert_eq!(ledger.in_flight(), 0);
    assert!(!ledger.expecting());
    assert_eq!(
        ledger.take_parts(),
        vec![CompletedPart { part_number: 2, e_tag: "tag2".to_string() }]
    );
}

#[test]
fn parts_are_kept_in_the_order_of_arrival() {
    let mut ledger = Ledger::new(3);
    for _ in 0..3 {
        assert!(ledger.accept(Token::Empty));
        ledger.spend();
    }
    assert!(ledger.accept(success(3)));
    assert!(ledger.accept(success(1)));
    assert!(ledger.accept(success(2)));
    let numbers: Vec<i32> = ledger.take_parts().iter().map(|p| p.part_number).collect();
    assert_eq!(numbers, vec![3, 1, 2]);
}
