use redshift::command::{Command, PlayerId};
use redshift::protocol::PROTOCOL_VERSION;
use redshift::replay::{Replay, ReplayError, REPLAY_FORMAT_VERSION};

fn sample() -> Replay {
    let mut replay = Replay::new(0xABCD, 0x1234, 2);
    for tick in 0..50u16 {
        if tick % 10 == 0 {
            replay.record(&vec![Command::new(
                PlayerId((tick % 2) as u8),
                0,
                vec![tick as u8, 5],
            )]);
        } else {
            replay.record(&vec![]);
        }
    }
    replay
}

#[test]
fn every_tick_is_recorded_including_empty_ones() {
    let replay = sample();
    assert_eq!(replay.length(), 50, "empty ticks must be recorded too");
    assert!(!replay.is_empty());
    assert_eq!(replay.commands_at(0).unwrap().len(), 1);
    assert_eq!(replay.commands_at(1).unwrap().len(), 0);
    assert!(replay.commands_at(50).is_none());
}

#[test]
fn errors_read_as_sentences() {
    let cases: Vec<ReplayError> = vec![
        ReplayError::FormatMismatch {
            found: 2,
            expected: 1,
        },
        ReplayError::ProtocolMismatch {
            found: 9,
            expected: 1,
        },
        ReplayError::Parse("bad token".into()),
    ];
    for error in cases {
        let text = error.to_string();
        assert!(text.len() > 20, "unhelpfully terse: {text}");
    }
}

#[test]
fn a_replay_from_another_build_is_refused() {
    let mut replay = sample();
    replay.protocol_version = PROTOCOL_VERSION + 1;
    match replay.check_loaded() {
        Err(ReplayError::ProtocolMismatch { found, expected }) => {
            assert_eq!(found, PROTOCOL_VERSION + 1);
            assert_eq!(expected, PROTOCOL_VERSION);
        }
        other => panic!("expected a protocol refusal, got {other:?}"),
    }

    let mut replay = sample();
    replay.format_version = REPLAY_FORMAT_VERSION + 1;
    replay.protocol_version = PROTOCOL_VERSION + 1;
    assert!(matches!(
        replay.check_loaded(),
        Err(ReplayError::FormatMismatch { .. })
    ));

    let accepted = sample().check_loaded().expect("this build's own recording");
    assert_eq!(accepted.seed, 0xABCD);
    assert_eq!(accepted.length(), 50);
}

#[test]
fn replay_errors_say_what_happened() {
    assert_eq!(
        ReplayError::FormatMismatch { found: 2, expected: 1 }.to_string(),
        "replay format 2 cannot be read by this build, which expects 1"
    );
    assert_eq!(
        ReplayError::Io("no such file".into()).to_string(),
        "could not read the replay: no such file"
    );
}
