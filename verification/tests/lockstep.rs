use redshift::command::{Command, PlayerId, Tick};
use redshift::lockstep::{
    input_delay_for_rtt, TurnScheduler, TurnStatus, HASH_HISTORY, MAX_INPUT_DELAY,
    MIN_INPUT_DELAY,
};

fn move_to(x: u8, y: u8) -> Vec<u8> {
    vec![1, x, y]
}

const DELAY: u32 = 2;

fn two_player() -> TurnScheduler {
    TurnScheduler::new(PlayerId(0), vec![PlayerId(0), PlayerId(1)], DELAY)
}

/// Runs the pre-seeded opening ticks, leaving the scheduler at the first tick
/// that genuinely needs commands from every player.
fn past_opening(s: &mut TurnScheduler) {
    for _ in 0..s.input_delay() {
        assert!(
            matches!(s.poll(), TurnStatus::Ready(_)),
            "opening ticks should not stall"
        );
    }
    assert_eq!(s.next_tick(), DELAY);
}

#[test]
fn a_tick_waits_for_every_player() {
    let mut s = two_player();
    past_opening(&mut s);
    assert!(matches!(s.poll(), TurnStatus::Waiting { tick: DELAY, .. }));

    s.accept(DELAY, PlayerId(0), Vec::new());
    match s.poll() {
        TurnStatus::Waiting {
            tick: DELAY,
            missing,
        } => assert_eq!(missing, vec![PlayerId(1)]),
        other => panic!("expected to still be waiting, got {other:?}"),
    }

    s.accept(DELAY, PlayerId(1), Vec::new());
    assert!(matches!(s.poll(), TurnStatus::Ready(_)));
    assert_eq!(s.next_tick(), DELAY + 1, "a ready poll advances the scheduler");
}

#[test]
fn the_simulation_never_runs_ahead_of_a_missing_peer() {
    let mut s = two_player();
    past_opening(&mut s);
    for tick in DELAY..50 {
        s.accept(tick, PlayerId(0), Vec::new());
    }
    for _ in 0..10 {
        assert!(matches!(s.poll(), TurnStatus::Waiting { tick: DELAY, .. }));
    }
    assert_eq!(s.next_tick(), DELAY);
}

#[test]
fn stall_counter_tracks_consecutive_waits() {
    let mut s = two_player();
    past_opening(&mut s);
    for expected in 1..=5 {
        s.poll();
        assert_eq!(s.stalled_polls(), expected);
    }
    s.accept(DELAY, PlayerId(0), Vec::new());
    s.accept(DELAY, PlayerId(1), Vec::new());
    s.poll();
    assert_eq!(s.stalled_polls(), 0, "a successful tick clears the stall");
}

#[test]
fn local_commands_go_through_the_same_queue_as_everyone_elses() {
    let mut s = two_player();
    s.issue(move_to(5, 5));
    let (tick, sent) = s
        .take_outgoing()
        .expect("the first turn is always available");

    assert_eq!(tick, 2, "input delay of 2 means the command lands at tick 2");
    assert_eq!(sent.len(), 1);

    for t in 0..2 {
        s.accept(t, PlayerId(0), Vec::new());
        s.accept(t, PlayerId(1), Vec::new());
        assert!(
            matches!(s.poll(), TurnStatus::Ready(c) if c.is_empty()),
            "tick {t}"
        );
    }

    s.accept(2, PlayerId(1), Vec::new());
    match s.poll() {
        TurnStatus::Ready(commands) => {
            assert_eq!(commands.len(), 1, "our own command arrives via the queue");
            assert_eq!(commands[0].player, PlayerId(0));
        }
        other => panic!("expected ready, got {other:?}"),
    }
}

#[test]
fn duplicate_deliveries_are_ignored() {
    let mut s = two_player();
    past_opening(&mut s);
    let cmd = Command::new(PlayerId(1), 0, move_to(9, 9));
    for _ in 0..5 {
        s.accept(DELAY, PlayerId(1), vec![cmd.clone()]);
    }
    s.accept(DELAY, PlayerId(0), Vec::new());
    match s.poll() {
        TurnStatus::Ready(commands) => assert_eq!(commands.len(), 1),
        other => panic!("expected ready, got {other:?}"),
    }
}

#[test]
fn late_commands_for_executed_ticks_are_dropped() {
    let mut s = two_player();
    past_opening(&mut s);
    s.accept(DELAY, PlayerId(0), Vec::new());
    s.accept(DELAY, PlayerId(1), Vec::new());
    assert!(matches!(s.poll(), TurnStatus::Ready(_)));

    s.accept(
        DELAY,
        PlayerId(1),
        vec![Command::new(PlayerId(1), 0, move_to(1, 1))],
    );
    assert!(matches!(s.poll(), TurnStatus::Waiting { tick: 3, .. }));
}

#[test]
fn commands_from_unknown_players_are_refused() {
    let mut s = two_player();
    past_opening(&mut s);
    s.accept(
        DELAY,
        PlayerId(9),
        vec![Command::new(PlayerId(9), 0, move_to(1, 1))],
    );
    match s.poll() {
        TurnStatus::Waiting { missing, .. } => {
            assert_eq!(missing, vec![PlayerId(0), PlayerId(1)]);
        }
        other => panic!("expected waiting, got {other:?}"),
    }
}

#[test]
fn ready_commands_are_in_total_order() {
    let build = |reverse: bool| {
        let mut s = TurnScheduler::new(PlayerId(0), vec![PlayerId(0), PlayerId(1)], DELAY);
        past_opening(&mut s);
        let p0 = vec![
            Command::new(PlayerId(0), 1, move_to(1, 1)),
            Command::new(PlayerId(0), 0, move_to(2, 2)),
        ];
        let p1 = vec![Command::new(PlayerId(1), 0, move_to(3, 3))];
        if reverse {
            s.accept(DELAY, PlayerId(1), p1);
            s.accept(DELAY, PlayerId(0), p0);
        } else {
            s.accept(DELAY, PlayerId(0), p0);
            s.accept(DELAY, PlayerId(1), p1);
        }
        match s.poll() {
            TurnStatus::Ready(c) => c,
            other => panic!("expected ready, got {other:?}"),
        }
    };
    let forwards = build(false);
    assert_eq!(forwards, build(true), "arrival order must not affect the result");
    let keys: Vec<_> = forwards.iter().map(|c| c.order_key()).collect();
    assert_eq!(keys, [(0, 0), (0, 1), (1, 0)]);
}

#[test]
fn matching_hashes_are_not_a_desync() {
    let mut s = two_player();
    s.record_local_hash(20, 0xABCD);
    s.check_remote_hash(PlayerId(1), 20, 0xABCD);
    assert!(s.desync().is_none());
    assert_eq!(s.comparisons_made(), 1);
    assert_eq!(s.last_verified(), Some((20, 0xABCD)));
}

#[test]
fn a_mismatched_hash_halts_the_match() {
    let mut s = two_player();
    s.record_local_hash(20, 0xABCD);
    s.check_remote_hash(PlayerId(1), 20, 0x1234);

    let report = s.desync().expect("divergence should be reported");
    assert_eq!(report.tick, 20);
    assert_eq!(report.local_hash, 0xABCD);
    assert_eq!(report.remote_hash, 0x1234);
    assert_eq!(report.remote_player, PlayerId(1));

    s.accept(0, PlayerId(0), Vec::new());
    s.accept(0, PlayerId(1), Vec::new());
    assert!(matches!(s.poll(), TurnStatus::Desynced(_)));
}

#[test]
fn a_hash_for_an_unknown_tick_is_not_a_desync() {
    let mut s = two_player();
    s.check_remote_hash(PlayerId(1), 999, 0xFFFF);
    assert!(s.desync().is_none());
}

#[test]
fn hash_history_stays_bounded() {
    let mut s = two_player();
    for tick in 0..10_000 {
        s.record_local_hash(tick, tick as u64);
    }
    assert!(
        s.local_hashes().len() <= HASH_HISTORY,
        "history grew to {}",
        s.local_hashes().len()
    );
    assert!(s.local_hashes().iter().any(|(t, _)| *t == 9_999));
}

#[test]
fn hash_checkpoints_land_once_a_second() {
    let checked: Vec<Tick> = (0..60).filter(|t| TurnScheduler::should_hash(*t)).collect();
    assert_eq!(checked, vec![0, 20, 40]);
}

#[test]
fn input_delay_scales_with_latency_and_stays_in_bounds() {
    assert_eq!(input_delay_for_rtt(2, 50), MIN_INPUT_DELAY);
    assert_eq!(input_delay_for_rtt(20, 50), MIN_INPUT_DELAY);
    assert_eq!(input_delay_for_rtt(60, 50), MIN_INPUT_DELAY);
    assert!(input_delay_for_rtt(150, 50) > MIN_INPUT_DELAY);
    assert!(input_delay_for_rtt(250, 50) > input_delay_for_rtt(150, 50));
    assert!(input_delay_for_rtt(300, 50) <= MAX_INPUT_DELAY);
    assert_eq!(input_delay_for_rtt(100_000, 50), MAX_INPUT_DELAY);
}

#[test]
fn input_delay_rounds_up_never_down() {
    for rtt in 1..200u32 {
        let ticks = input_delay_for_rtt(rtt, 50);
        let covered_ms = ticks * 50;
        let needed_ms = rtt + rtt / 2;
        assert!(
            covered_ms >= needed_ms.min(MAX_INPUT_DELAY * 50),
            "rtt {rtt}ms got {ticks} ticks, covering only {covered_ms}ms of {needed_ms}ms"
        );
    }
}

#[test]
fn input_delay_has_exact_values() {
    // 150 ms needs 225 ms of cover: five ticks, rounded up from 4.5.
    assert_eq!(input_delay_for_rtt(150, 50), 5);
    assert_eq!(input_delay_for_rtt(100, 50), 3);
    // A zero tick length is treated as one millisecond.
    assert_eq!(input_delay_for_rtt(4, 0), 6);
}

#[test]
fn outgoing_turn_numbers_never_skip() {
    let mut s = two_player();
    let mut emitted = Vec::new();
    for step in 0..200u32 {
        if let Some((tick, _)) = s.take_outgoing() {
            emitted.push(tick);
        }
        if step % 3 == 0 {
            for t in 0..=step {
                s.accept(t, PlayerId(1), Vec::new());
            }
        }
        while let TurnStatus::Ready(_) = s.poll() {}
    }

    assert!(emitted.len() > 50, "only {} turns were emitted", emitted.len());
    assert_eq!(emitted[0], DELAY, "the first turn lands one input delay out");
    for pair in emitted.windows(2) {
        assert_eq!(pair[1], pair[0] + 1, "turn numbers jumped");
    }
}

#[test]
fn a_stalled_peer_does_not_run_away() {
    let mut s = two_player();
    for _ in 0..10_000 {
        s.take_outgoing();
        while let TurnStatus::Ready(_) = s.poll() {}
    }
    assert!(
        s.turns_in_flight() <= s.input_delay() + 1,
        "ran {} turns ahead of execution",
        s.turns_in_flight()
    );
}

#[test]
fn the_opening_ticks_run_without_waiting_on_anyone() {
    for delay in MIN_INPUT_DELAY..=MAX_INPUT_DELAY {
        let mut s = TurnScheduler::new(PlayerId(0), vec![PlayerId(0), PlayerId(1)], delay);
        for tick in 0..delay {
            match s.poll() {
                TurnStatus::Ready(commands) => assert!(commands.is_empty()),
                other => panic!("delay {delay} stalled at opening tick {tick}: {other:?}"),
            }
        }
        assert!(
            matches!(s.poll(), TurnStatus::Waiting { .. }),
            "delay {delay}: tick {delay} should wait for real commands"
        );
    }
}

#[test]
fn a_single_player_match_needs_no_waiting() {
    let mut s = TurnScheduler::new(PlayerId(0), vec![PlayerId(0)], MIN_INPUT_DELAY);
    let mut executed = 0;
    for step in 0..100u32 {
        if let Some((scheduled, _)) = s.take_outgoing() {
            assert_eq!(scheduled, step + MIN_INPUT_DELAY, "turn numbers must not skip");
        }
        while let TurnStatus::Ready(_) = s.poll() {
            executed += 1;
        }
    }
    assert!(executed >= 100, "single player only reached tick {executed}");
}

#[test]
fn players_are_kept_in_order_each_once() {
    let mut s = TurnScheduler::new(
        PlayerId(3),
        vec![PlayerId(3), PlayerId(1), PlayerId(3)],
        0,
    );
    assert_eq!(s.input_delay(), MIN_INPUT_DELAY, "delay is clamped");
    assert_eq!(s.local_player(), PlayerId(3));
    for _ in 0..MIN_INPUT_DELAY {
        assert!(matches!(s.poll(), TurnStatus::Ready(_)));
    }
    match s.poll() {
        TurnStatus::Waiting { missing, .. } => assert_eq!(missing, vec![PlayerId(1), PlayerId(3)]),
        other => panic!("expected waiting, got {other:?}"),
    }
    let s = TurnScheduler::new(PlayerId(0), vec![PlayerId(0)], 99);
    assert_eq!(s.input_delay(), MAX_INPUT_DELAY);
    assert_eq!(s.scheduled_tick(), MAX_INPUT_DELAY);
}

#[test]
fn sequence_numbers_are_shared_and_reset_per_turn() {
    let mut s = two_player();
    s.issue(move_to(1, 1));
    s.issue_for(PlayerId(1), move_to(2, 2));
    let (_, sent) = s.take_outgoing().unwrap();
    assert_eq!(sent[0].sequence, 0);
    assert_eq!(sent[1].sequence, 1);
    assert_eq!(sent[1].player, PlayerId(1));
    s.issue(move_to(3, 3));
    assert!(s.take_outgoing().is_none(), "a full input delay ahead already");
    assert!(matches!(s.poll(), TurnStatus::Ready(_)));
    let (_, sent) = s.take_outgoing().unwrap();
    assert_eq!(sent[0].sequence, 0, "each turn numbers from zero");
}
