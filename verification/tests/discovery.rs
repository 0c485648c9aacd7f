use redshift::discovery::{Announcer, DiscoveredMatch, Discovery, ANNOUNCE_INTERVAL_MS, ENTRY_TIMEOUT_MS};
use redshift::lobby::Address;
use redshift::protocol::{Announce, Packet, DISCOVERY_PORT, PROTOCOL_VERSION};

fn sample_announce(players: u8) -> Announce {
    Announce {
        protocol: PROTOCOL_VERSION,
        match_name: "mohsen's game".into(),
        map_name: "crossroads".into(),
        players,
        max_players: 2,
        game_port: 47655,
        in_progress: false,
    }
}

fn loopback(port: u16) -> Address {
    Address {
        v6: false,
        ip: 0x7F00_0001,
        port,
        flowinfo: 0,
        scope_id: 0,
    }
}

#[test]
fn a_host_is_found_on_its_game_port() {
    let mut discovery = Discovery::new();
    let appeared = discovery.tick(
        vec![(loopback(50_000), Packet::Announce(sample_announce(1)))],
        0,
    );
    assert_eq!(appeared, 1);
    let found = &discovery.matches()[0];
    assert_eq!(found.announce.match_name, "mohsen's game");
    assert_eq!(found.address.port, 47655, "the advertised game port must be used");
    assert!(found.is_joinable());
}

#[test]
fn announcements_are_rate_limited() {
    let mut announcer = Announcer::with_target(loopback(9));
    assert!(announcer.due(0));
    announcer.record_sent();
    for t in 1..ANNOUNCE_INTERVAL_MS {
        assert!(!announcer.due(t), "should not send again so soon");
    }
    assert_eq!(announcer.announcements_sent(), 1);
    assert!(announcer.due(ANNOUNCE_INTERVAL_MS + 50), "should send again after the interval");
    announcer.record_sent();
    assert_eq!(announcer.announcements_sent(), 2);
    assert_eq!(Announcer::new().target().port, DISCOVERY_PORT);
}

#[test]
fn a_host_that_stops_announcing_disappears() {
    let mut discovery = Discovery::new();
    discovery.tick(vec![(loopback(1), Packet::Announce(sample_announce(1)))], 1_000);
    assert_eq!(discovery.matches().len(), 1);
    discovery.tick(vec![], 1_000 + ENTRY_TIMEOUT_MS - 1);
    assert_eq!(discovery.matches().len(), 1);
    discovery.tick(vec![], 1_000 + ENTRY_TIMEOUT_MS + 100);
    assert!(discovery.is_empty(), "a silent host should have expired");
}

#[test]
fn re_announcing_updates_rather_than_duplicates() {
    let mut discovery = Discovery::new();
    discovery.tick(vec![(loopback(1), Packet::Announce(sample_announce(1)))], 0);
    let appeared = discovery.tick(vec![(loopback(2), Packet::Announce(sample_announce(2)))], 600);
    assert_eq!(appeared, 0, "the same host on its game port is not new");
    assert_eq!(discovery.matches().len(), 1, "the host must not appear twice");
    assert_eq!(discovery.matches()[0].announce.players, 2, "the entry should have updated");
}

#[test]
fn unjoinable_matches_are_listed_but_explained() {
    let cases = [
        (
            Announce {
                in_progress: true,
                ..sample_announce(1)
            },
            "already started",
        ),
        (
            Announce {
                players: 2,
                ..sample_announce(2)
            },
            "full",
        ),
        (
            Announce {
                protocol: PROTOCOL_VERSION + 1,
                ..sample_announce(1)
            },
            "different game version",
        ),
    ];
    for (announce, expected) in cases {
        let entry = DiscoveredMatch {
            address: loopback(47655),
            announce,
            last_seen_ms: 0,
        };
        assert!(!entry.is_joinable());
        assert_eq!(entry.unjoinable_reason(), Some(expected));
    }

    let open = DiscoveredMatch {
        address: loopback(47655),
        announce: sample_announce(1),
        last_seen_ms: 0,
    };
    assert!(open.is_joinable());
    assert_eq!(open.unjoinable_reason(), None);
}

#[test]
fn foreign_traffic_does_not_appear_as_a_match() {
    let mut discovery = Discovery::new();
    let appeared = discovery.tick(
        vec![
            (loopback(1), Packet::Ping { nonce: 3 }),
            (loopback(2), Packet::Start),
        ],
        0,
    );
    assert_eq!(appeared, 0);
    assert!(discovery.is_empty(), "junk must not become a match listing");
}

#[test]
fn the_list_is_kept_in_address_order() {
    let mut discovery = Discovery::new();
    let far = Address {
        v6: false,
        ip: 0x0A00_0009,
        port: 1,
        flowinfo: 0,
        scope_id: 0,
    };
    let near = Address {
        v6: false,
        ip: 0x0A00_0002,
        port: 1,
        flowinfo: 0,
        scope_id: 0,
    };
    let six = Address {
        v6: true,
        ip: 1,
        port: 1,
        flowinfo: 0,
        scope_id: 0,
    };
    let mut open = sample_announce(1);
    let mut full = sample_announce(2);
    open.game_port = 7;
    full.game_port = 7;
    discovery.tick(
        vec![
            (six, Packet::Announce(open.clone())),
            (far, Packet::Announce(full)),
            (near, Packet::Announce(open)),
        ],
        0,
    );
    let ips: Vec<u128> = discovery.matches().iter().map(|m| m.address.ip).collect();
    assert_eq!(ips, vec![0x0A00_0002, 0x0A00_0009, 1]);
    let joinable: Vec<u128> = discovery.joinable().iter().map(|m| m.address.ip).collect();
    assert_eq!(joinable, vec![0x0A00_0002, 1]);
    discovery.clear();
    assert!(discovery.is_empty());
}

#[test]
fn a_host_heard_over_ipv6_is_listed_without_its_scope() {
    let mut discovery = Discovery::new();
    let from = Address {
        v6: true,
        ip: 0xFE80_0000_0000_0000_0000_0000_0000_0001,
        port: 50_000,
        flowinfo: 3,
        scope_id: 7,
    };
    discovery.tick(vec![(from, Packet::Announce(sample_announce(1)))], 0);
    let found = &discovery.matches()[0];
    assert_eq!(
        found.address,
        Address {
            v6: true,
            ip: 0xFE80_0000_0000_0000_0000_0000_0000_0001,
            port: 47655,
            flowinfo: 0,
            scope_id: 0,
        }
    );
}
