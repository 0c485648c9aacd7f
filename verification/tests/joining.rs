use redshift::command::PlayerId;
use redshift::joining::{Acceptance, JoinAttempt, JoinOutcome, REQUEST_INTERVAL_MS};
use redshift::protocol::{Packet, RejectReason};

fn accepted(player: u8, seed: u64, input_delay: u32) -> Packet {
    Packet::JoinAccepted { player: PlayerId(player), seed, input_delay, players: Vec::new() }
}

#[test]
fn the_request_repeats_until_answered() {
    let mut attempt = JoinAttempt::new();
    assert!(attempt.request_due(0));
    assert!(!attempt.request_due(100));
    assert!(!attempt.request_due(REQUEST_INTERVAL_MS));
    assert!(attempt.request_due(REQUEST_INTERVAL_MS + 1));
    assert!(!attempt.request_due(REQUEST_INTERVAL_MS + 2));
    assert_eq!(attempt.receive(&accepted(1, 7, 3)), JoinOutcome::Waiting);
    assert!(!attempt.request_due(10_000));
}

#[test]
fn only_the_first_acceptance_counts() {
    let mut attempt = JoinAttempt::new();
    assert_eq!(attempt.receive(&accepted(1, 7, 3)), JoinOutcome::Waiting);
    assert_eq!(attempt.receive(&accepted(2, 9, 5)), JoinOutcome::Waiting);
    assert_eq!(
        attempt.accepted(),
        Some(Acceptance { player: PlayerId(1), seed: 7, input_delay: 3 })
    );
    assert_eq!(
        attempt.receive(&Packet::Start),
        JoinOutcome::Begin(Acceptance { player: PlayerId(1), seed: 7, input_delay: 3 })
    );
}

#[test]
fn a_start_before_acceptance_is_ignored() {
    let mut attempt = JoinAttempt::new();
    assert_eq!(attempt.receive(&Packet::Start), JoinOutcome::Waiting);
    assert_eq!(attempt.receive(&Packet::Ping { nonce: 4 }), JoinOutcome::Waiting);
    assert_eq!(attempt.accepted(), None);
}

#[test]
fn the_delay_is_raised_to_the_minimum() {
    let mut attempt = JoinAttempt::new();
    attempt.receive(&accepted(1, 7, 0));
    assert_eq!(
        attempt.receive(&Packet::Start),
        JoinOutcome::Begin(Acceptance { player: PlayerId(1), seed: 7, input_delay: 2 })
    );
}

#[test]
fn a_refusal_ends_the_attempt() {
    let mut attempt = JoinAttempt::new();
    let reason = RejectReason::RulesMismatch { host_rules_hash: 42 };
    assert_eq!(
        attempt.receive(&Packet::JoinRejected { reason }),
        JoinOutcome::Refused(reason)
    );
}
