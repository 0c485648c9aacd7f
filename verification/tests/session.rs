use redshift::command::{Command, PlayerId};
use redshift::lockstep::{DesyncReport, TurnScheduler, TurnStatus};
use redshift::protocol::{Packet, StateCheck, TurnCommands};
use redshift::session::{
    first_divergence, halt_packet, receive_packet, seed_from_clock, send_turn, NetLink, NetOptions,
    SessionUpdate, STALL_NOTICE_DELAY_MS,
};

#[test]
fn diverging_replays_are_bisected_to_the_first_bad_tick() {
    let a = [1, 2, 3, 4, 5];
    let b = [1, 2, 9, 4, 5];
    assert_eq!(first_divergence(&a, &b), Some(2));
    assert_eq!(first_divergence(&a, &a), None);
    assert_eq!(first_divergence(&a, &a[..3]), Some(3), "one ended early");
    assert_eq!(first_divergence(&[], &[7]), Some(0));
}

#[test]
fn the_stall_notice_waits_half_a_second() {
    let mut update = SessionUpdate::default();
    assert!(!update.should_show_stall_notice());
    update.waiting_on = vec![PlayerId(1)];
    update.stalled_for_ms = STALL_NOTICE_DELAY_MS - 1;
    assert!(!update.should_show_stall_notice());
    update.stalled_for_ms = STALL_NOTICE_DELAY_MS;
    assert!(update.should_show_stall_notice());
    update.waiting_on.clear();
    assert!(!update.should_show_stall_notice(), "nobody awaited, no notice");
}

#[test]
fn options_default_to_the_well_known_ports() {
    let options = NetOptions::default();
    assert_eq!(options.port, 47655);
    assert_eq!(options.discovery_port, 47654);
    assert_eq!(options.name, "player");
}

#[test]
fn seeds_are_odd() {
    assert_eq!(seed_from_clock(Some(10)), 11);
    assert_eq!(seed_from_clock(Some(11)), 11);
    assert_eq!(seed_from_clock(None), 0x5EED);
    assert_eq!(seed_from_clock(Some(1 << 64)), 1, "the clock wraps into 64 bits");
}

#[test]
fn turn_packets_repeat_the_last_three_turns_newest_first() {
    let mut s = TurnScheduler::new(PlayerId(0), vec![PlayerId(0), PlayerId(1)], 2);
    let mut link = NetLink::new();
    let mut last = None;
    for _ in 0..4 {
        last = send_turn(&mut s, &mut link);
        s.poll();
    }
    match last {
        Some(Packet::Turn { tick, turns, hash }) => {
            assert_eq!(tick, 5, "the next turn to go out");
            let ticks: Vec<u32> = turns.iter().map(|t| t.tick).collect();
            assert_eq!(ticks, vec![4, 3, 2]);
            assert!(turns.iter().all(|t| t.player == PlayerId(0)));
            assert!(hash.is_none());
        }
        other => panic!("expected a turn packet, got {other:?}"),
    }
}

#[test]
fn a_captured_hash_goes_out_once() {
    let mut link = NetLink::new();
    link.capture_hash(StateCheck { tick: 20, hash: 7 });
    assert!(link.compose(3).is_none(), "nothing to send yet");
    link.record_turn(TurnCommands {
        tick: 2,
        player: PlayerId(0),
        commands: vec![],
    });
    match link.compose(3) {
        Some(Packet::Turn { hash, .. }) => assert_eq!(hash, Some(StateCheck { tick: 20, hash: 7 })),
        other => panic!("expected a turn packet, got {other:?}"),
    }
    match link.compose(3) {
        Some(Packet::Turn { hash, .. }) => assert_eq!(hash, None),
        other => panic!("expected a turn packet, got {other:?}"),
    }
}

#[test]
fn a_received_turn_reaches_the_scheduler() {
    let mut s = TurnScheduler::new(PlayerId(0), vec![PlayerId(0), PlayerId(1)], 2);
    for _ in 0..2 {
        assert!(matches!(s.poll(), TurnStatus::Ready(_)));
    }
    s.accept(2, PlayerId(0), vec![]);
    let packet = Packet::Turn {
        tick: 2,
        turns: vec![TurnCommands {
            tick: 2,
            player: PlayerId(1),
            commands: vec![Command::new(PlayerId(1), 0, vec![4])],
        }],
        hash: None,
    };
    assert!(receive_packet(&mut s, packet).is_none());
    match s.poll() {
        TurnStatus::Ready(commands) => assert_eq!(commands.len(), 1),
        other => panic!("expected ready, got {other:?}"),
    }
}

#[test]
fn a_peers_hash_is_checked_and_a_halt_is_handed_back() {
    let mut s = TurnScheduler::new(PlayerId(0), vec![PlayerId(0), PlayerId(1)], 2);
    s.record_local_hash(20, 5);
    let packet = Packet::Turn {
        tick: 30,
        turns: vec![],
        hash: Some(StateCheck { tick: 20, hash: 6 }),
    };
    receive_packet(&mut s, packet);
    let report = s.desync().expect("mismatch detected");
    assert_eq!(report.remote_player, PlayerId(1));

    let halt = receive_packet(
        &mut s,
        Packet::DesyncHalt {
            tick: 40,
            sender_hash: 1,
            expected_hash: 2,
        },
    )
    .expect("a halt is handed back");
    assert_eq!(halt.tick, 40);
    assert_eq!(halt.local_hash, 2);
    assert_eq!(halt.remote_hash, 1);
}

#[test]
fn a_halting_peer_sends_its_own_hash_and_the_one_it_expected() {
    let report = DesyncReport { tick: 40, local_hash: 7, remote_player: PlayerId(1), remote_hash: 9 };
    match halt_packet(&report) {
        Packet::DesyncHalt { tick, sender_hash, expected_hash } => {
            assert_eq!((tick, sender_hash, expected_hash), (40, 7, 9));
        }
        _ => panic!("expected a halt"),
    }
}
