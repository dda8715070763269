use ed25519_dalek::{Signer, SigningKey};
use pure_poison::announce::{Announce, SerializableIdentity};
use pure_poison::engine::{PacketEvent, collect_decision};
use pure_poison::store::ExploitStore;

fn signed_announce(app_data: Option<Vec<u8>>) -> Announce {
    let signing_key = SigningKey::from_bytes(&[11u8; 32]);
    let verifying_key = signing_key.verifying_key().to_bytes();
    let public_key = [5u8; 32];
    let name_hash = [1u8; 10];
    let random_hash = [2u8; 10];
    let destination = [3u8; 16];
    let mut message = Vec::new();
    message.extend_from_slice(&destination);
    message.extend_from_slice(&public_key);
    message.extend_from_slice(&verifying_key);
    message.extend_from_slice(&name_hash);
    message.extend_from_slice(&random_hash);
    if let Some(data) = &app_data {
        message.extend_from_slice(data);
    }
    let signature = signing_key.sign(&message);
    Announce {
        identity: SerializableIdentity {
            public_key,
            verifying_key,
            hash: [9u8; 16],
        },
        signature: signature.to_bytes().to_vec(),
        name_hash,
        random_hash,
        app_data,
        destination,
    }
}

#[test]
fn valid_signature_is_accepted() {
    assert!(signed_announce(None).validate());
    assert!(signed_announce(Some(vec![0xde, 0xad, 0xbe, 0xef])).validate());
}

#[test]
fn mutated_destination_is_rejected() {
    for i in 0..16 {
        let mut announce = signed_announce(None);
        announce.destination[i] ^= 1;
        assert!(!announce.validate(), "flipped destination byte {i}");
    }
}

#[test]
fn mutated_name_hash_is_rejected() {
    for i in 0..10 {
        let mut announce = signed_announce(None);
        announce.name_hash[i] ^= 1;
        assert!(!announce.validate(), "flipped name hash byte {i}");
    }
}

#[test]
fn mutated_random_hash_is_rejected() {
    for i in 0..10 {
        let mut announce = signed_announce(None);
        announce.random_hash[i] ^= 1;
        assert!(!announce.validate(), "flipped random hash byte {i}");
    }
}

#[test]
fn mutated_app_data_is_rejected() {
    let data = vec![0x10u8, 0x20, 0x30, 0x40, 0x50];
    for i in 0..data.len() {
        let mut announce = signed_announce(Some(data.clone()));
        announce.app_data.as_mut().unwrap()[i] ^= 1;
        assert!(!announce.validate(), "flipped app data byte {i}");
    }
}

#[test]
fn wrong_key_is_rejected() {
    let mut announce = signed_announce(None);
    let other = SigningKey::from_bytes(&[12u8; 32]);
    announce.identity.verifying_key = other.verifying_key().to_bytes();
    assert!(!announce.validate());
}

#[test]
fn malformed_signature_is_rejected() {
    let mut announce = signed_announce(None);
    announce.signature.truncate(63);
    assert!(!announce.validate());
    let mut announce = signed_announce(None);
    announce.signature = Vec::new();
    assert!(!announce.validate());
}

#[test]
fn validated_announce_is_collected() {
    let mut store = ExploitStore::new();
    let announce = signed_announce(None);
    assert!(collect_decision(&mut store, PacketEvent::AnnounceReceived(announce)));
    assert_eq!(store.collected(), 1);
    // The identical announce arriving again on another connection is
    // deduplicated.
    let again = signed_announce(None);
    assert!(!collect_decision(&mut store, PacketEvent::AnnounceReceived(again)));
    assert_eq!(store.collected(), 1);
}
