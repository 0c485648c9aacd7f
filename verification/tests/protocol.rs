use redshift::protocol::{
    decode, encode, EncodeError, RejectReason, MAX_PACKET_BYTES, PROTOCOL_VERSION,
};

#[test]
fn roundtrip_preserves_every_body() {
    let bodies: Vec<Vec<u8>> = vec![
        vec![],
        vec![0],
        vec![7, 0, 0, 0, 1, 2, 3],
        (0..=255u8).collect(),
        vec![0xAB; MAX_PACKET_BYTES - 4],
    ];
    for body in bodies {
        let bytes = encode(&body).expect("should encode");
        assert_eq!(&bytes[..4], b"RSFT");
        assert_eq!(decode(&bytes), Some(body.clone()), "roundtrip failed");
    }
}

#[test]
fn foreign_traffic_is_ignored_not_misparsed() {
    assert_eq!(decode(b""), None);
    assert_eq!(decode(b"RS"), None);
    assert_eq!(decode(b"HTTP/1.1 200 OK"), None);
    assert_eq!(decode(&[0u8; 64]), None);
    assert_eq!(decode(b"RSFX1234"), None);
}

#[test]
fn truncated_packets_lose_their_frame_first() {
    let bytes = encode(&[1, 2, 3, 4, 5, 6]).unwrap();
    for cut in 1..4 {
        assert_eq!(decode(&bytes[..cut]), None, "a {cut}-byte prefix has no frame");
    }
    assert_eq!(decode(&bytes[..4]), Some(vec![]));
}

#[test]
fn oversized_packets_are_refused_rather_than_truncated() {
    let huge = vec![0u8; MAX_PACKET_BYTES];
    match encode(&huge) {
        Err(EncodeError::TooLarge { size, limit }) => {
            assert!(size > limit);
            assert_eq!(size, MAX_PACKET_BYTES + 4);
            assert_eq!(limit, MAX_PACKET_BYTES);
        }
        Err(other) => panic!("wrong error: {other:?}"),
        Ok(bytes) => panic!("expected refusal, got {} bytes", bytes.len()),
    }
    assert!(encode(&vec![0u8; MAX_PACKET_BYTES - 3]).is_err());
    assert!(encode(&vec![0u8; MAX_PACKET_BYTES - 4]).is_ok());
}

#[test]
fn reject_reasons_explain_themselves() {
    for reason in [
        RejectReason::ProtocolMismatch { host_protocol: 99 },
        RejectReason::RulesMismatch { host_rules_hash: 7 },
        RejectReason::MatchFull,
        RejectReason::AlreadyStarted,
    ] {
        let text = reason.describe();
        assert!(!text.is_empty());
        assert!(text.ends_with('.'), "{text:?} should read as a sentence");
    }
    assert_eq!(
        RejectReason::ProtocolMismatch { host_protocol: 99 }.describe(),
        format!(
            "Different game version: the host speaks protocol 99, this build speaks {}.",
            PROTOCOL_VERSION
        )
    );
    assert_eq!(RejectReason::MatchFull.describe(), "That match is full.");
}

#[test]
fn encode_errors_say_how_big() {
    assert_eq!(
        EncodeError::TooLarge {
            size: 1300,
            limit: 1200
        }
        .to_string(),
        "packet is 1300 bytes, over the 1200 byte limit"
    );
    assert_eq!(EncodeError::Serialisation.to_string(), "could not serialise packet");
}
