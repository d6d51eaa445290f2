//! Frames, versions and gossip.
use pizza_factory::clock::UnixTime;
use pizza_factory::network::tcp::read_frame;
use pizza_factory::network::tcp::write_frame;
use pizza_factory::network::udp;
use pizza_factory::network::udp::gossip;
use pizza_factory::network::udp::is_newer_version;
use pizza_factory::network::udp::now_secs;
use pizza_factory::network::udp::transport::Processed;
use pizza_factory::network::udp::transport::Received;
use pizza_factory::network::udp::transport::RecvFailure;
use pizza_factory::node::GossipState;
use pizza_factory::node::Identity;
use pizza_factory::node::NodeState;
use pizza_factory::node::PeerInfo;
use pizza_factory::protocol::addr;
use pizza_factory::protocol::Announce;
use pizza_factory::protocol::Check;
use pizza_factory::protocol::LastSeenMap;
use pizza_factory::protocol::Required;
use pizza_factory::protocol::UdpMessage;
use pizza_factory::protocol::Version;
use pizza_factory::string_map::StringMap;
use std::collections::HashMap;

fn build_shared_state(addr: &str, capabilities: Vec<String>, generation: u64) -> NodeState {
    NodeState {
        identity: Identity { addr: addr.to_string(), capabilities, recipes: vec![] },
        gossip: GossipState {
            peers: StringMap::new(),
            version: Version { counter: 1, generation },
        },
        pending_orders: StringMap::new(),
    }
}

fn at(secs: u64, nanos: u32) -> UnixTime {
    UnixTime { secs, nanos }
}

// ── Frames ───────────────────────────────────────────────────────────────────

#[test]
fn test_write_read_frame() {
    let mut stream = Vec::new();
    write_frame(&mut stream, b"hello pizza");
    assert_eq!(&stream[..4], &[0u8, 0, 0, 11]);
    let data = read_frame(&mut stream).unwrap();
    assert_eq!(data, b"hello pizza");
    assert!(stream.is_empty());
}

#[test]
fn test_payload_vide() {
    let mut stream = Vec::new();
    write_frame(&mut stream, b"");
    let data = read_frame(&mut stream).unwrap();
    assert_eq!(data, b"");
}

#[test]
fn test_plusieurs_frames() {
    let mut stream = Vec::new();
    write_frame(&mut stream, b"premier");
    write_frame(&mut stream, b"deuxieme");
    assert_eq!(read_frame(&mut stream).unwrap(), b"premier");
    assert_eq!(read_frame(&mut stream).unwrap(), b"deuxieme");
    assert!(read_frame(&mut stream).is_none());
}

#[test]
fn frames_that_arrive_in_pieces() {
    let mut whole = Vec::new();
    write_frame(&mut whole, b"pizza");
    let mut stream = Vec::new();
    for byte in whole {
        assert!(read_frame(&mut stream).is_none());
        stream.push(byte);
    }
    assert_eq!(read_frame(&mut stream).unwrap(), b"pizza");
}

#[test]
fn frame_length_is_big_endian() {
    let payload = vec![7u8; 0x0001_0203];
    let mut stream = Vec::new();
    write_frame(&mut stream, &payload);
    assert_eq!(&stream[..4], &[0u8, 1, 2, 3]);
    assert_eq!(read_frame(&mut stream).unwrap(), payload);
}

// ── Versions ─────────────────────────────────────────────────────────────────

#[test]
fn is_newer_version_when_generation_is_greater() {
    let current = Version { generation: 1000, counter: 5 };
    let newer = Version { generation: 2000, counter: 1 };
    assert!(is_newer_version(&newer, &current));
    assert!(!is_newer_version(&current, &newer));
}

#[test]
fn is_newer_version_when_generation_equal_and_counter_greater() {
    let current = Version { generation: 1000, counter: 5 };
    let newer = Version { generation: 1000, counter: 10 };
    assert!(is_newer_version(&newer, &current));
    assert!(!is_newer_version(&current, &newer));
}

#[test]
fn is_newer_version_when_equal() {
    let ver1 = Version { generation: 1000, counter: 5 };
    let ver2 = Version { generation: 1000, counter: 5 };
    assert!(!is_newer_version(&ver1, &ver2));
    assert!(!is_newer_version(&ver2, &ver1));
}

#[test]
fn is_newer_version_when_generation_smaller() {
    let current = Version { generation: 2000, counter: 100 };
    let older = Version { generation: 1000, counter: 1000 };
    assert!(!is_newer_version(&older, &current));
    assert!(is_newer_version(&current, &older));
}

// ── Gossip without answers to announcements ──────────────────────────────────

#[test]
fn udp_handle_udp_message_shared_updates_peer_from_announce() {
    let mut state = build_shared_state("127.0.0.1:8010", vec!["MakeDough".to_string()], now_secs());
    let announce = Announce {
        node_addr: addr("127.0.0.1:8012"),
        capabilities: vec!["Bake".to_string()],
        recipes: vec!["Pepperoni".to_string()],
        peers: vec![addr("127.0.0.1:8013")],
        version: Version { counter: 9, generation: now_secs() + 1 },
    };

    let response = udp::handle_udp_message_shared(
        &mut state,
        "127.0.0.1:8012",
        &UdpMessage::Announce(announce.clone()),
    );
    assert!(response.is_none());

    let peer = state.gossip.peers.get("127.0.0.1:8012").unwrap();
    assert_eq!(peer.capabilities, vec!["Bake".to_string()]);
    assert_eq!(peer.recipes, vec!["Pepperoni".to_string()]);
    assert_eq!(peer.version, announce.version);
    assert!(state.gossip.peers.contains_key("127.0.0.1:8013"));
    assert_eq!(state.gossip.version, announce.version);
}

#[test]
fn udp_handle_udp_message_shared_ping_returns_pong_and_updates_version() {
    let mut state = build_shared_state("127.0.0.1:8020", vec!["MakeDough".to_string()], now_secs());
    let incoming = Check {
        last_seen: Required(LastSeenMap::ByAddress(StringMap::new())),
        version: Version { counter: 4, generation: now_secs() + 1 },
    };

    let response = udp::handle_udp_message_shared(
        &mut state,
        "127.0.0.1:8022",
        &UdpMessage::Ping(incoming.clone()),
    );

    assert!(matches!(response, Some(UdpMessage::Pong(_))));
    let peer = state.gossip.peers.get("127.0.0.1:8022").unwrap();
    assert_eq!(peer.version, incoming.version);
    assert_eq!(state.gossip.version, incoming.version);
}

#[test]
fn udp_send_ping_to_known_peers_shared_sends_to_all_neighbors() {
    let own = "127.0.0.1:9000";
    let mut state = build_shared_state(own, vec!["MakeDough".to_string()], 7);
    for peer in ["127.0.0.1:9002", "127.0.0.1:9001", own] {
        state.gossip.peers.insert(peer.to_string(), PeerInfo::unknown());
    }
    let (announce, ping, targets) = udp::round(&state, at(12, 0));
    assert_eq!(targets.len(), 2);
    assert_eq!(targets, vec!["127.0.0.1:9001", "127.0.0.1:9002"]);
    match announce {
        UdpMessage::Announce(a) => assert_eq!(a.peers.len(), 3),
        other => panic!("expected an announcement, got {other:?}"),
    }
    match ping {
        UdpMessage::Ping(Check { last_seen, version }) => {
            assert_eq!(version, Version { counter: 1, generation: 7 });
            match last_seen.0 {
                LastSeenMap::ByAddress(m) => assert_eq!(m.get(own), Some(&12)),
                other => panic!("expected addresses, got {other:?}"),
            }
        }
        other => panic!("expected a ping, got {other:?}"),
    }
}

#[test]
fn udp_timeouts_count_as_an_empty_pong_and_the_rest_fails() {
    let mut state = build_shared_state("a", vec![], 1);
    let quiet = udp::process_one_datagram_at(
        &mut state,
        Received::Nothing(RecvFailure::TimedOut),
        at(1, 0),
    );
    assert_eq!(
        quiet.message,
        Some(UdpMessage::Pong(Check {
            last_seen: Required(LastSeenMap::ByAddress(StringMap::new())),
            version: Version { counter: 0, generation: 0 },
        }))
    );
    let failed = Processed { message: None, reply: None };
    for received in [
        Received::Malformed,
        Received::Nothing(RecvFailure::ConnectionReset),
        Received::Nothing(RecvFailure::Other),
    ] {
        assert_eq!(udp::process_one_datagram_at(&mut state, received, at(1, 0)), failed);
    }
    let ping = UdpMessage::Ping(Check {
        last_seen: Required(LastSeenMap::ByAddress(StringMap::new())),
        version: Version { counter: 0, generation: 0 },
    });
    let heard = udp::process_one_datagram_at(
        &mut state,
        Received::Message { from: "b".to_string(), message: ping.clone() },
        at(5, 0),
    );
    assert_eq!(heard.message, Some(ping));
    match heard.reply {
        Some((to, UdpMessage::Pong(check))) => {
            assert_eq!(to, "b");
            assert_eq!(check.version, state.gossip.version);
        }
        other => panic!("expected a pong, got {other:?}"),
    }
}

// ── Gossip with answers to announcements ─────────────────────────────────────

#[test]
fn gossip_handle_udp_message_shared_updates_peer_from_announce() {
    let mut state =
        build_shared_state("127.0.0.1:8010", vec!["MakeDough".to_string()], 1776292969);
    let announce = Announce {
        node_addr: addr("127.0.0.1:8012"),
        capabilities: vec!["Bake".to_string()],
        recipes: vec!["Pepperoni".to_string()],
        peers: vec![addr("127.0.0.1:8013")],
        version: Version { counter: 1, generation: 1776292969 },
    };

    let response = gossip::handle_udp_message_shared(
        &mut state,
        "127.0.0.1:8012",
        &UdpMessage::Announce(announce.clone()),
    );
    assert!(matches!(response, Some(UdpMessage::Announce(_))));

    let peer = state
        .gossip
        .peers
        .get("127.0.0.1:8012")
        .expect("expected peer 127.0.0.1:8012 to exist");
    assert_eq!(peer.capabilities, vec!["Bake".to_string()]);
    assert_eq!(peer.recipes, vec!["Pepperoni".to_string()]);
    assert_eq!(peer.version, announce.version);
    assert!(state.gossip.peers.contains_key("127.0.0.1:8013"));
    assert_eq!(state.gossip.version, announce.version);
}

#[test]
fn handle_udp_message_shared_known_peer_announce_does_not_reply() {
    let mut state =
        build_shared_state("127.0.0.1:8040", vec!["MakeDough".to_string()], 1776292969);
    state.gossip.peers.insert("127.0.0.1:8042".to_string(), PeerInfo::unknown());

    let announce = Announce {
        node_addr: addr("127.0.0.1:8042"),
        capabilities: vec!["Bake".to_string()],
        recipes: vec!["Pepperoni".to_string()],
        peers: vec![addr("127.0.0.1:8043")],
        version: Version { counter: 10, generation: 1776292969 },
    };

    let response = gossip::handle_udp_message_shared(
        &mut state,
        "127.0.0.1:8042",
        &UdpMessage::Announce(announce.clone()),
    );

    assert!(response.is_none());

    let peer = state
        .gossip
        .peers
        .get("127.0.0.1:8042")
        .expect("expected peer 127.0.0.1:8042 to exist");
    assert_eq!(peer.capabilities, vec!["Bake".to_string()]);
    assert_eq!(peer.recipes, vec!["Pepperoni".to_string()]);
    assert_eq!(peer.version, announce.version);
}

#[test]
fn gossip_handle_udp_message_shared_ping_returns_pong_and_updates_version() {
    let mut state =
        build_shared_state("127.0.0.1:8020", vec!["MakeDough".to_string()], 1776292969);
    let incoming = Check {
        last_seen: Required(LastSeenMap::ByCode(HashMap::new())),
        version: Version { counter: 4, generation: 1776292969 },
    };

    let response = gossip::handle_udp_message_shared(
        &mut state,
        "127.0.0.1:8022",
        &UdpMessage::Ping(incoming.clone()),
    );

    assert!(matches!(response, Some(UdpMessage::Pong(_))));
    let peer = state
        .gossip
        .peers
        .get("127.0.0.1:8022")
        .expect("expected peer 127.0.0.1:8022 to exist");
    assert_eq!(peer.version, incoming.version);
    assert_eq!(state.gossip.version, incoming.version);
}

#[test]
fn handle_udp_message_shared_ping_echoes_last_seen_in_pong() {
    let mut state =
        build_shared_state("127.0.0.1:8030", vec!["MakeDough".to_string()], 1776292969);

    let mut by_code = HashMap::new();
    by_code.insert(1_i64, 1_776_203_464);
    by_code.insert(-6_i64, 732_948);
    let incoming = Check {
        last_seen: Required(LastSeenMap::ByCode(by_code.clone())),
        version: Version { counter: 2, generation: 1776292969 },
    };

    let response = gossip::handle_udp_message_shared(
        &mut state,
        "127.0.0.1:8031",
        &UdpMessage::Ping(incoming.clone()),
    );

    match response {
        Some(UdpMessage::Pong(Check { last_seen, .. })) => {
            assert_eq!(last_seen.0, LastSeenMap::ByCode(by_code));
        }
        other => panic!("expected Pong response, got {other:?}"),
    }
}

#[test]
fn gossip_send_ping_to_known_peers_shared_sends_to_all_neighbors() {
    let own = "127.0.0.1:9000";
    let mut state = build_shared_state(own, vec!["MakeDough".to_string()], 7);
    for peer in ["127.0.0.1:9001", "127.0.0.1:9002"] {
        state.gossip.peers.insert(peer.to_string(), PeerInfo::unknown());
    }
    assert_eq!(gossip::ping_targets(&state).len(), 2);
    match gossip::build_ping_from_node(&state, at(1_776_203_464, 732_948_999)) {
        UdpMessage::Ping(Check { last_seen, .. }) => match last_seen.0 {
            LastSeenMap::ByCode(m) => {
                assert_eq!(m.get(&1), Some(&1_776_203_464));
                assert_eq!(m.get(&-6), Some(&732_948));
                assert_eq!(m.len(), 2);
            }
            LastSeenMap::ByAddress(_) => panic!("expected numeric-keyed last_seen in Ping"),
        },
        _ => panic!("expected Ping"),
    }
}

fn announce_from(sender: &str, receiver: &str) -> UdpMessage {
    UdpMessage::Announce(Announce {
        node_addr: addr(sender),
        capabilities: vec!["Bake".to_string()],
        recipes: vec!["Pepperoni".to_string()],
        peers: vec![addr(receiver)],
        version: Version { counter: 1, generation: 1776292969 },
    })
}

#[test]
fn process_one_datagram_shared_announce_from_new_peer_emits_reply() {
    let mut state = build_shared_state("receiver", vec!["MakeDough".to_string()], 1776292969);
    let message = announce_from("sender", "receiver");
    let processed = gossip::process_one_datagram_at(
        &mut state,
        Received::Message { from: "sender".to_string(), message: message.clone() },
        at(3, 0),
    );
    assert!(matches!(processed.message, Some(UdpMessage::Announce(_))));
    match processed.reply {
        Some((to, UdpMessage::Announce(a))) => {
            assert_eq!(to, "sender");
            assert_eq!(a.node_addr.0, "receiver");
            assert_eq!(a.capabilities, vec!["MakeDough"]);
            assert_eq!(a.peers, vec![addr("receiver"), addr("sender")]);
        }
        other => panic!("Expected Announce reply from receiver, got {other:?}"),
    }
}

#[test]
fn process_one_datagram_shared_second_announce_no_reply() {
    let mut state = build_shared_state("receiver", vec!["MakeDough".to_string()], 1776292969);
    let message = announce_from("sender", "receiver");
    for round in 0..2 {
        let processed = gossip::process_one_datagram_at(
            &mut state,
            Received::Message { from: "sender".to_string(), message: message.clone() },
            at(3, 0),
        );
        assert_eq!(processed.reply.is_some(), round == 0);
    }
}

#[test]
fn gossip_placeholders_and_failures() {
    let mut state = build_shared_state("receiver", vec![], 1);
    for received in [
        Received::Malformed,
        Received::Nothing(RecvFailure::WouldBlock),
        Received::Nothing(RecvFailure::TimedOut),
        Received::Nothing(RecvFailure::ConnectionReset),
    ] {
        let processed = gossip::process_one_datagram_at(&mut state, received, at(2, 5000));
        assert_eq!(processed.message, Some(gossip::placeholder_pong(at(2, 5000))));
        assert!(processed.reply.is_none());
    }
    let broken = gossip::process_one_datagram_at(
        &mut state,
        Received::Nothing(RecvFailure::Other),
        at(2, 0),
    );
    assert!(broken.message.is_none());
    assert!(state.gossip.peers.is_empty());
}

#[test]
fn announcements_are_idempotent_but_for_the_time() {
    let message = announce_from("sender", "neighbour");
    let mut once = build_shared_state("own", vec![], 1);
    let mut twice = build_shared_state("own", vec![], 1);
    gossip::handle_udp_message_at(&mut twice, "sender", &message, at(3, 0));
    gossip::handle_udp_message_at(&mut twice, "sender", &message, at(9, 0));
    gossip::handle_udp_message_at(&mut once, "sender", &message, at(9, 0));
    assert_eq!(once, twice);
    assert_eq!(once.gossip.peers.get("sender").unwrap().last_seen_us, 9_000_000);
}

#[test]
fn older_versions_do_not_win() {
    let mut state = build_shared_state("own", vec![], 100);
    let old = Check {
        last_seen: Required(LastSeenMap::ByCode(HashMap::new())),
        version: Version { counter: 50, generation: 99 },
    };
    gossip::handle_udp_message_at(&mut state, "peer", &UdpMessage::Pong(old), at(1, 0));
    assert_eq!(state.gossip.version, Version { counter: 1, generation: 100 });
    assert_eq!(
        state.gossip.peers.get("peer").unwrap().version,
        Version { counter: 50, generation: 99 }
    );
}

#[test]
fn first_announcement_goes_to_all_bootstrap_peers_but_oneself() {
    let state = build_shared_state("own", vec!["Bake".to_string()], 5);
    let peers = vec!["b".to_string(), "own".to_string(), "a".to_string()];
    let (message, targets) = gossip::first_announcement(&state, &peers);
    assert_eq!(targets, vec!["b", "a"]);
    match message {
        UdpMessage::Announce(a) => {
            assert_eq!(a.node_addr.0, "own");
            assert_eq!(a.peers.len(), 3);
            assert_eq!(a.version, Version { counter: 1, generation: 5 });
        }
        other => panic!("expected an announcement, got {other:?}"),
    }
}

#[test]
fn two_nodes_get_to_know_each_other() {
    let mut a = build_shared_state("a", vec!["MakeDough".to_string()], 3);
    let mut b = build_shared_state("b", vec!["Bake".to_string()], 5);
    a.pending_orders.insert("order".to_string(), 1);
    let (hello, _) = gossip::first_announcement(&a, &vec!["b".to_string()]);
    let answer = gossip::handle_udp_message_at(&mut b, "a", &hello, at(1, 0)).unwrap();
    assert_eq!(b.gossip.peers.get("a").unwrap().capabilities, vec!["MakeDough"]);
    let more = gossip::handle_udp_message_at(&mut a, "b", &answer, at(2, 0));
    assert!(more.is_some());
    assert_eq!(a.gossip.peers.get("b").unwrap().capabilities, vec!["Bake"]);
    assert_eq!(a.gossip.version, b.gossip.version);
    assert_eq!(gossip::handle_udp_message_at(&mut b, "a", &more.unwrap(), at(3, 0)), None);
    assert_eq!(a.identity.addr, "a");
    assert_eq!(a.pending_orders.get("order"), Some(&1));
}
