use pure_poison::announce::{Announce, SerializableIdentity};
use pure_poison::engine::{PacketEvent, attack_decision, collect_decision, viable_frame};
use pure_poison::ring::{REPLAY_THRESHOLD, Ring};
use pure_poison::store::ExploitStore;

fn make_announce(identity_hash: u8, random: u8) -> Announce {
    Announce {
        identity: SerializableIdentity {
            public_key: [1u8; 32],
            verifying_key: [2u8; 32],
            hash: [identity_hash; 16],
        },
        signature: vec![0u8; 64],
        name_hash: [3u8; 10],
        random_hash: [random; 10],
        app_data: None,
        destination: [identity_hash; 16],
    }
}

#[test]
fn gating_below_threshold_returns_nothing() {
    let mut ring = Ring::new();
    for k in 0..(REPLAY_THRESHOLD - 1) {
        ring.append(make_announce(1, k as u8));
        assert!(ring.next().is_none());
    }
    assert_eq!(ring.len(), REPLAY_THRESHOLD - 1);
    ring.append(make_announce(1, (REPLAY_THRESHOLD - 1) as u8));
    assert!(ring.next().is_some());
}

#[test]
fn round_robin_with_wraparound() {
    let mut ring = Ring::new();
    for k in 0..REPLAY_THRESHOLD {
        ring.append(make_announce(1, k as u8));
    }
    for k in 0..REPLAY_THRESHOLD {
        let replay = ring.next().expect("active ring must replay");
        assert_eq!(replay.random_hash, [k as u8; 10]);
    }
    let wrapped = ring.next().expect("active ring must replay");
    assert_eq!(wrapped.random_hash, [0u8; 10]);
    let after_wrap = ring.next().expect("active ring must replay");
    assert_eq!(after_wrap.random_hash, [1u8; 10]);
}

#[test]
fn dedup_same_key_leaves_size_unchanged() {
    let mut store = ExploitStore::new();
    assert!(store.record(make_announce(1, 7)));
    assert_eq!(store.collected(), 1);
    // Same identity hash and random hash: a re-broadcast of the same
    // announce, even if other fields differ.
    let mut rebroadcast = make_announce(1, 7);
    rebroadcast.app_data = Some(vec![0xaa]);
    assert!(!store.record(rebroadcast));
    assert_eq!(store.collected(), 1);
}

#[test]
fn distinct_keys_accumulate() {
    let mut store = ExploitStore::new();
    assert!(store.record(make_announce(1, 7)));
    assert!(store.record(make_announce(1, 8)));
    assert!(store.record(make_announce(2, 7)));
    assert_eq!(store.collected(), 3);
}

#[test]
fn snapshot_copies_all_records() {
    let mut store = ExploitStore::new();
    store.record(make_announce(1, 0));
    store.record(make_announce(2, 1));
    let records = store.snapshot();
    assert_eq!(records.len(), 2);
    assert_eq!(records[0].identity.hash, [1u8; 16]);
    assert_eq!(records[0].random_hash, [0u8; 10]);
    assert_eq!(records[1].identity.hash, [2u8; 16]);
    assert_eq!(records[1].random_hash, [1u8; 10]);
}

#[test]
fn restore_reports_exploitable_destinations() {
    let mut store = ExploitStore::new();
    let mut records = Vec::new();
    for k in 0..REPLAY_THRESHOLD {
        records.push(make_announce(5, k as u8));
    }
    // A destination short of the threshold.
    records.push(make_announce(6, 0));
    store.restore(records);
    let prone = store.exploitable_targets();
    assert_eq!(prone, vec![[5u8; 16]]);
}

#[test]
fn end_to_end_path_request_cycle() {
    let mut store = ExploitStore::new();
    let mut records = Vec::new();
    for k in 0..REPLAY_THRESHOLD {
        records.push(make_announce(9, k as u8));
    }
    store.restore(records);
    let dest = [9u8; 16];
    // One replayed announce per path request, cycling through all stored
    // announces in insertion order before repeating the first.
    for k in 0..REPLAY_THRESHOLD {
        let replay = attack_decision(&mut store, PacketEvent::PathRequestReceived(dest))
            .expect("an active bucket must replay on every query");
        assert_eq!(replay.random_hash, [k as u8; 10]);
        assert_eq!(replay.identity.hash, dest);
    }
    let wrapped = attack_decision(&mut store, PacketEvent::PathRequestReceived(dest))
        .expect("an active bucket must replay on every query");
    assert_eq!(wrapped.random_hash, [0u8; 10]);
}

#[test]
fn path_request_for_unknown_destination_is_ignored() {
    let mut store = ExploitStore::new();
    let replay = attack_decision(&mut store, PacketEvent::PathRequestReceived([1u8; 16]));
    assert!(replay.is_none());
}

#[test]
fn invalid_announce_event_triggers_nothing() {
    let mut store = ExploitStore::new();
    let mut records = Vec::new();
    for k in 0..REPLAY_THRESHOLD {
        records.push(make_announce(9, k as u8));
    }
    store.restore(records);
    // The zero signature of these synthetic records never verifies, so even
    // though the sender's bucket is active, nothing is replayed.
    let replay = attack_decision(&mut store, PacketEvent::AnnounceReceived(make_announce(9, 0)));
    assert!(replay.is_none());
}

#[test]
fn other_and_malformed_events_do_nothing() {
    let mut store = ExploitStore::new();
    assert!(attack_decision(&mut store, PacketEvent::OtherPacket).is_none());
    assert!(attack_decision(&mut store, PacketEvent::Malformed).is_none());
    assert!(!collect_decision(&mut store, PacketEvent::OtherPacket));
    assert!(!collect_decision(&mut store, PacketEvent::Malformed));
    assert_eq!(store.collected(), 0);
}

#[test]
fn unvalidated_announce_is_not_collected() {
    let mut store = ExploitStore::new();
    let recorded = collect_decision(&mut store, PacketEvent::AnnounceReceived(make_announce(1, 0)));
    assert!(!recorded);
    assert_eq!(store.collected(), 0);
}

#[test]
fn undersized_frames_are_noise() {
    assert!(!viable_frame(0));
    assert!(!viable_frame(19));
    assert!(viable_frame(20));
    assert!(viable_frame(2000));
}
