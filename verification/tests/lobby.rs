use redshift::command::PlayerId;
use redshift::lobby::{Address, HostLobby, LeaveReason, LobbyEvent, Peer};
use redshift::protocol::{Packet, RejectReason, PROTOCOL_VERSION};

const RULES_HASH: u64 = 0x5A1E_D0C5;

fn host() -> HostLobby {
    host_with_slots(2)
}

fn host_with_slots(max_players: u8) -> HostLobby {
    HostLobby::new("test".into(), "map".into(), max_players, RULES_HASH, 99, 47655)
}

fn client_addr(n: u16) -> Address {
    Address {
        v6: false,
        ip: 0x7F00_0001,
        port: 40000 + n,
        flowinfo: 0,
        scope_id: 0,
    }
}

fn join(hash: u64) -> Packet {
    Packet::JoinRequest {
        protocol: PROTOCOL_VERSION,
        rules_hash: hash,
        player_name: "guest".into(),
    }
}

#[test]
fn a_matching_client_is_accepted_and_given_a_slot() {
    let mut lobby = host();
    let mut events = Vec::new();
    let reply = lobby.handle(client_addr(1), &join(RULES_HASH), 0, &mut events);

    match reply {
        Some(Packet::JoinAccepted {
            player,
            seed,
            players,
            ..
        }) => {
            assert_eq!(player, PlayerId(1), "the host holds slot zero");
            assert_eq!(seed, 99, "every peer must start from the same seed");
            assert_eq!(players.len(), 2);
        }
        other => panic!("expected acceptance, got {other:?}"),
    }
    assert!(matches!(
        events[0],
        LobbyEvent::PlayerJoined {
            id: PlayerId(1),
            ..
        }
    ));
}

#[test]
fn a_different_build_is_refused_at_the_door() {
    let mut lobby = host();
    let mut events = Vec::new();
    let reply = lobby.handle(
        client_addr(1),
        &Packet::JoinRequest {
            protocol: PROTOCOL_VERSION + 1,
            rules_hash: RULES_HASH,
            player_name: "guest".into(),
        },
        0,
        &mut events,
    );
    match reply {
        Some(Packet::JoinRejected {
            reason: RejectReason::ProtocolMismatch { host_protocol },
        }) => assert_eq!(host_protocol, PROTOCOL_VERSION),
        other => panic!("expected a protocol rejection, got {other:?}"),
    }
    assert_eq!(lobby.peers().len(), 1, "the client must not have been admitted");
}

#[test]
fn different_rules_data_is_refused_even_on_the_same_build() {
    let mut lobby = host();
    let mut events = Vec::new();
    let reply = lobby.handle(client_addr(1), &join(RULES_HASH ^ 1), 0, &mut events);
    assert!(matches!(
        reply,
        Some(Packet::JoinRejected {
            reason: RejectReason::RulesMismatch { .. }
        })
    ));
    assert!(matches!(events[0], LobbyEvent::JoinRefused { .. }));
}

#[test]
fn version_is_checked_before_capacity() {
    let mut lobby = HostLobby::new("t".into(), "m".into(), 1, RULES_HASH, 1, 47655);
    let mut events = Vec::new();
    let reply = lobby.handle(
        client_addr(1),
        &Packet::JoinRequest {
            protocol: PROTOCOL_VERSION + 5,
            rules_hash: RULES_HASH,
            player_name: "guest".into(),
        },
        0,
        &mut events,
    );
    assert!(matches!(
        reply,
        Some(Packet::JoinRejected {
            reason: RejectReason::ProtocolMismatch { .. }
        })
    ));
}

#[test]
fn a_full_match_is_refused() {
    let mut lobby = HostLobby::new("t".into(), "m".into(), 2, RULES_HASH, 1, 47655);
    let mut events = Vec::new();
    lobby.handle(client_addr(1), &join(RULES_HASH), 0, &mut events);
    let reply = lobby.handle(client_addr(2), &join(RULES_HASH), 0, &mut events);
    assert!(matches!(
        reply,
        Some(Packet::JoinRejected {
            reason: RejectReason::MatchFull
        })
    ));
}

#[test]
fn rejoining_from_the_same_address_is_idempotent() {
    let mut lobby = host();
    let mut events = Vec::new();
    let first = lobby.handle(client_addr(1), &join(RULES_HASH), 0, &mut events);
    let second = lobby.handle(client_addr(1), &join(RULES_HASH), 5, &mut events);

    let slot_of = |p: &Option<Packet>| match p {
        Some(Packet::JoinAccepted { player, .. }) => *player,
        other => panic!("expected acceptance, got {other:?}"),
    };
    assert_eq!(slot_of(&first), slot_of(&second));
    assert_eq!(lobby.peers().len(), 2, "a retry must not create a second player");
}

#[test]
fn a_match_starts_only_when_everyone_is_ready() {
    let mut lobby = host();
    let mut events = Vec::new();
    lobby.handle(client_addr(1), &join(RULES_HASH), 0, &mut events);

    assert!(!lobby.can_start(), "nobody is ready yet");
    lobby.set_ready(PlayerId(0), true, &mut events);
    assert!(!lobby.can_start(), "the guest is not ready");
    lobby.set_ready(PlayerId(1), true, &mut events);
    assert!(lobby.can_start());

    assert!(matches!(lobby.start(&mut events), Some(Packet::Start)));
    assert!(lobby.started());
    assert!(events
        .iter()
        .any(|e| matches!(e, LobbyEvent::Starting { seed: 99, .. })));
}

#[test]
fn a_solo_lobby_cannot_start_a_network_match() {
    let mut lobby = host();
    let mut events = Vec::new();
    lobby.set_ready(PlayerId(0), true, &mut events);
    assert!(!lobby.can_start(), "one player is not a network match");
    assert!(lobby.start(&mut events).is_none());
}

#[test]
fn a_started_match_refuses_latecomers() {
    let mut lobby = host();
    let mut events = Vec::new();
    lobby.handle(client_addr(1), &join(RULES_HASH), 0, &mut events);
    lobby.set_ready(PlayerId(0), true, &mut events);
    lobby.set_ready(PlayerId(1), true, &mut events);
    lobby.start(&mut events);

    let reply = lobby.handle(client_addr(2), &join(RULES_HASH), 0, &mut events);
    assert!(matches!(
        reply,
        Some(Packet::JoinRejected {
            reason: RejectReason::AlreadyStarted
        })
    ));
    assert!(lobby.announce().in_progress, "the listing must say so too");
}

#[test]
fn input_delay_is_sized_for_the_slowest_peer() {
    let mut lobby = host_with_slots(4);
    let mut events = Vec::new();
    lobby.handle(client_addr(1), &join(RULES_HASH), 0, &mut events);
    lobby.handle(client_addr(2), &join(RULES_HASH), 0, &mut events);

    lobby.record_rtt(PlayerId(1), 10);
    let fast = lobby.negotiated_input_delay();
    lobby.record_rtt(PlayerId(2), 220);
    let mixed = lobby.negotiated_input_delay();

    assert!(mixed > fast, "a slow peer must widen the delay: {fast} -> {mixed}");
    assert_eq!(fast, 2);
    assert_eq!(mixed, 7);
}

#[test]
fn a_leaving_player_is_removed() {
    let mut lobby = host();
    let mut events = Vec::new();
    lobby.handle(client_addr(1), &join(RULES_HASH), 0, &mut events);
    assert_eq!(lobby.peers().len(), 2);

    events.clear();
    lobby.handle(client_addr(1), &Packet::Leave { player: PlayerId(1) }, 0, &mut events);
    assert_eq!(lobby.peers().len(), 1);
    assert!(matches!(
        events[0],
        LobbyEvent::PlayerLeft {
            id: PlayerId(1),
            reason: LeaveReason::Quit
        }
    ));
}

#[test]
fn the_host_cannot_be_removed_from_its_own_lobby() {
    let mut lobby = host();
    let mut events = Vec::new();
    lobby.handle(client_addr(1), &Packet::Leave { player: PlayerId(0) }, 0, &mut events);
    assert_eq!(lobby.peers()[0].id, PlayerId(0));
    assert!(events.is_empty());
}

#[test]
fn a_ping_is_answered() {
    let mut lobby = host();
    let mut events = Vec::new();
    let reply = lobby.handle(client_addr(1), &Packet::Ping { nonce: 77 }, 0, &mut events);
    assert_eq!(reply, Some(Packet::Pong { nonce: 77 }));
}

#[test]
fn the_announcement_reflects_the_lobby() {
    let mut lobby = host();
    let mut events = Vec::new();
    let empty = lobby.announce();
    assert_eq!(empty.players, 1);
    assert!(!empty.in_progress);

    lobby.handle(client_addr(1), &join(RULES_HASH), 0, &mut events);
    assert_eq!(lobby.announce().players, 2);
    assert_eq!(lobby.announce().game_port, 47655);
    assert_eq!(lobby.announce().match_name, "test");
}

#[test]
fn gameplay_traffic_skips_the_host_itself() {
    let mut lobby = host_with_slots(4);
    let mut events = Vec::new();
    lobby.handle(client_addr(1), &join(RULES_HASH), 0, &mut events);
    lobby.handle(client_addr(2), &join(RULES_HASH), 0, &mut events);

    let addresses = lobby.peer_addresses();
    assert_eq!(addresses, vec![client_addr(1), client_addr(2)]);
    assert!(!addresses.contains(&Address {
        v6: false,
        ip: 0,
        port: 0,
        flowinfo: 0,
        scope_id: 0,
    }));
}

#[test]
fn silent_peers_time_out_but_the_host_never_does() {
    let mut lobby = host_with_slots(4);
    let mut events = Vec::new();
    lobby.handle(client_addr(1), &join(RULES_HASH), 1_000, &mut events);
    lobby.handle(client_addr(2), &join(RULES_HASH), 9_000, &mut events);
    events.clear();

    lobby.expire_silent_peers(11_000, &mut events);
    assert_eq!(lobby.peers().len(), 3, "exactly ten seconds is not yet silent");

    lobby.expire_silent_peers(11_001, &mut events);
    assert_eq!(lobby.peers().len(), 2);
    assert_eq!(lobby.peers()[0].id, PlayerId(0));
    assert_eq!(lobby.peers()[1].id, PlayerId(2));
    assert_eq!(
        events,
        vec![LobbyEvent::PlayerLeft {
            id: PlayerId(1),
            reason: LeaveReason::TimedOut
        }]
    );

    // Hearing from a peer keeps it alive.
    lobby.handle(client_addr(2), &Packet::Ping { nonce: 1 }, 30_000, &mut events);
    lobby.expire_silent_peers(35_000, &mut events);
    assert_eq!(lobby.peers().len(), 2);
}

#[test]
fn readiness_changes_are_reported_once() {
    let mut lobby = host();
    let mut events = Vec::new();
    lobby.set_ready(PlayerId(0), true, &mut events);
    lobby.set_ready(PlayerId(0), true, &mut events);
    assert_eq!(
        events,
        vec![LobbyEvent::PlayerReady {
            id: PlayerId(0),
            ready: true
        }]
    );
    lobby.set_host_name("mohsen".into());
    assert_eq!(lobby.peers()[0].name, "mohsen");
}

#[test]
fn a_peer_times_out_after_ten_seconds_of_silence() {
    let peer = Peer {
        id: PlayerId(1),
        name: "guest".into(),
        address: client_addr(1),
        ready: false,
        last_heard_ms: 500,
        rtt_ms: None,
    };
    assert!(!peer.is_timed_out(10_500));
    assert!(peer.is_timed_out(10_501));
    assert!(!peer.is_timed_out(0), "a clock reading earlier is no silence");
}

#[test]
fn with_two_present_the_host_readies_both_and_starts() {
    let mut lobby = host();
    let mut events = Vec::new();
    // Alone, nothing happens.
    assert!(lobby.start_when_two_present(&mut events).is_none());
    assert!(events.is_empty());
    assert!(!lobby.started());

    lobby.handle(client_addr(1), &join(RULES_HASH), 0, &mut events);
    events.clear();
    match lobby.start_when_two_present(&mut events) {
        Some((Packet::Start, delay)) => assert!(delay >= 2),
        other => panic!("expected a start, got {other:?}"),
    }
    assert!(lobby.started());
    assert!(matches!(events[0], LobbyEvent::PlayerReady { id: PlayerId(0), ready: true }));
    assert!(matches!(events[1], LobbyEvent::PlayerReady { id: PlayerId(1), ready: true }));
    assert!(matches!(events[2], LobbyEvent::Starting { seed: 99, .. }));
    assert_eq!(events.len(), 3);
    // Once started, it does not start again.
    events.clear();
    assert!(lobby.start_when_two_present(&mut events).is_none());
    assert!(events.is_empty());
}

#[test]
fn link_local_peers_on_two_interfaces_are_two_peers() {
    let mut lobby = host_with_slots(4);
    let mut events = Vec::new();
    let on = |scope_id: u32| Address {
        v6: true,
        ip: 0xFE80_0000_0000_0000_0000_0000_0000_0001,
        port: 40000,
        flowinfo: 0,
        scope_id,
    };
    let first = lobby.handle(on(1), &join(RULES_HASH), 0, &mut events);
    let second = lobby.handle(on(2), &join(RULES_HASH), 0, &mut events);
    assert!(matches!(first, Some(Packet::JoinAccepted { player: PlayerId(1), .. })));
    assert!(matches!(second, Some(Packet::JoinAccepted { player: PlayerId(2), .. })));
    assert_eq!(lobby.peer_addresses(), vec![on(1), on(2)]);
}
