use std::collections::VecDeque;

use redshift::command::{Command, PlayerId};
use redshift::lockstep::{TurnScheduler, TurnStatus};
use redshift::protocol::Packet;
use redshift::session::{receive_packet, send_turn, NetLink};

/// A deterministic, unpleasant network: delays, drops and duplicates.
struct Link {
    in_flight: VecDeque<(u32, Packet)>,
    seed: u64,
}

impl Link {
    fn next(&mut self) -> u32 {
        self.seed ^= self.seed << 13;
        self.seed ^= self.seed >> 7;
        self.seed ^= self.seed << 17;
        (self.seed >> 32) as u32
    }

    fn send(&mut self, step: u32, packet: Packet) {
        let roll = self.next() % 100;
        if roll < 10 {
            return;
        }
        let delay = 1 + self.next() % 3;
        self.in_flight.push_back((step + delay, packet.clone()));
        if roll > 90 {
            self.in_flight.push_back((step + delay + 1, packet));
        }
    }

    fn deliver(&mut self, step: u32) -> Vec<Packet> {
        let mut out = Vec::new();
        let mut keep = VecDeque::new();
        while let Some((at, p)) = self.in_flight.pop_front() {
            if at <= step {
                out.push(p);
            } else {
                keep.push_back((at, p));
            }
        }
        self.in_flight = keep;
        out
    }
}

struct Peer {
    scheduler: TurnScheduler,
    link: NetLink,
    executed: Vec<Vec<Command>>,
}

impl Peer {
    fn new(local: u8) -> Peer {
        Peer {
            scheduler: TurnScheduler::new(PlayerId(local), vec![PlayerId(0), PlayerId(1)], 6),
            link: NetLink::new(),
            executed: Vec::new(),
        }
    }

    fn run(&mut self) {
        while let TurnStatus::Ready(commands) = self.scheduler.poll() {
            self.executed.push(commands);
        }
    }
}

#[test]
fn two_peers_execute_identical_ticks_over_a_hostile_link() {
    let mut peers = [Peer::new(0), Peer::new(1)];
    let mut links = [Link { in_flight: VecDeque::new(), seed: 0x9E37_79B9_7F4A_7C15 }, Link { in_flight: VecDeque::new(), seed: 0x1234_5678_9ABC_DEF1 }];
    for step in 0..400u32 {
        for (i, peer) in peers.iter_mut().enumerate() {
            if step % 7 == i as u32 {
                peer.scheduler.issue(vec![step as u8, i as u8]);
            }
            if let Some(packet) = send_turn(&mut peer.scheduler, &mut peer.link) {
                links[i].send(step, packet);
            }
        }
        for i in 0..2 {
            for packet in links[1 - i].deliver(step) {
                assert!(receive_packet(&mut peers[i].scheduler, packet).is_none());
            }
            peers[i].run();
        }
    }
    let common = peers[0].executed.len().min(peers[1].executed.len());
    assert!(common > 200, "only {common} ticks ran on both");
    assert_eq!(peers[0].executed[..common], peers[1].executed[..common]);
    let issued: usize = peers[0].executed[..common].iter().map(|c| c.len()).sum();
    assert!(issued > 20, "the peers' orders reached both simulations");
}
