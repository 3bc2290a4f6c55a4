use bitmessage_node::address::{deserialize_address, serialize_address, Address};
use bitmessage_node::messages::{Object, ObjectKind};
use bitmessage_node::models::{Message, MessageStatus};
use bitmessage_node::repo_address::AddressRepository;
use bitmessage_node::repo_inventory::InventoryRepository;
use bitmessage_node::repo_message::MessageRepository;

fn sample_object(expires: i64, tag: u8) -> Object {
    Object::new(expires, vec![tag; 64], ObjectKind::Getpubkey { tag: vec![tag; 32] })
}

/// Inventory advertisement: a hash is advertised exactly when its row has a
/// non-empty nonce and a future expiry.
#[test]
fn inventory_advertisement_iff() {
    let now: i64 = 1_700_000_000;
    let mut inv = InventoryRepository::new();

    // Completed PoW, future expiry: advertised.
    let mut ready = sample_object(now + 100, 1);
    ready.nonce = vec![1];
    let ready_hash = inv.store_object(ready).unwrap();

    // Awaiting PoW: not advertised.
    let waiting = sample_object(now + 100, 2);
    let waiting_hash = inv.store_object(waiting).unwrap();

    // Completed PoW but expired: not advertised.
    let mut stale = sample_object(now - 1, 3);
    stale.nonce = vec![1];
    let stale_hash = inv.store_object(stale).unwrap();

    let advertised = inv.get(now);
    assert_eq!(advertised, vec![ready_hash.clone()]);
    assert!(!advertised.contains(&waiting_hash));
    assert!(!advertised.contains(&stale_hash));

    // `get_object` withholds rows awaiting PoW.
    assert!(inv.get_object(ready_hash).is_some());
    assert!(inv.get_object(waiting_hash.clone()).is_none());

    // The PoW backlog is exactly the rows with an empty nonce.
    let backlog = inv.get_missing_pow_objects();
    assert_eq!(backlog.len(), 1);
    assert_eq!(backlog[0].kind.object_type(), 2);

    // Completing the nonce advertises the row.
    inv.update_nonce(waiting_hash.clone(), vec![9]).unwrap();
    let advertised = inv.get(now);
    assert_eq!(advertised.len(), 2);
    assert!(advertised.contains(&waiting_hash));
}

/// Missing-objects set: exactly the incoming hashes not currently
/// advertised.
#[test]
fn missing_objects_is_set_difference() {
    let now: i64 = 1_700_000_000;
    let mut inv = InventoryRepository::new();
    let mut held = sample_object(now + 100, 1);
    held.nonce = vec![1];
    let held_hash = inv.store_object(held).unwrap();

    let unknown = "3yZe7d".to_string();
    let incoming = vec![held_hash.clone(), unknown.clone()];
    let missing = inv.get_missing_objects(&incoming, now);
    assert_eq!(missing, vec![unknown]);

    // Everything is missing from an empty inventory.
    let empty = InventoryRepository::new();
    assert_eq!(empty.get_missing_objects(&incoming, now), incoming);
}

/// Expiry garbage collection: an expired row is excluded by `get`, and
/// `cleanup` deletes it, returns the count, and leaves no expired row.
#[test]
fn cleanup_removes_expired_rows() {
    let now: i64 = 1_700_000_000;
    let mut inv = InventoryRepository::new();
    let mut stale = sample_object(now - 1, 1);
    stale.nonce = vec![1];
    inv.store_object(stale).unwrap();
    let mut fresh = sample_object(now + 50, 2);
    fresh.nonce = vec![2];
    let fresh_hash = inv.store_object(fresh).unwrap();

    assert_eq!(inv.get(now), vec![fresh_hash.clone()]);
    let removed = inv.cleanup(now);
    assert_eq!(removed, 1);
    assert_eq!(inv.cleanup(now), 0);
    assert_eq!(inv.get(now), vec![fresh_hash]);
}

/// Duplicate keys are refused by the stores.
#[test]
fn duplicate_keys_are_refused() {
    let now: i64 = 1_700_000_000;
    let mut inv = InventoryRepository::new();
    let o = sample_object(now + 100, 1);
    inv.store_object(o.clone()).unwrap();
    assert!(inv.store_object(o).is_err());

    let mut msgs = MessageRepository::new();
    let m = Message {
        hash: "h1".to_string(),
        sender: "a".to_string(),
        recipient: "b".to_string(),
        data: vec![1],
        created_at: now,
        status: MessageStatus::Received,
        signature: vec![],
    };
    msgs.save_model(m.clone()).unwrap();
    assert!(msgs.save_model(m).is_err());
}

#[test]
fn message_queries_and_transitions() {
    let now: i64 = 1_700_000_000;
    let mut msgs = MessageRepository::new();
    let mk = |hash: &str, sender: &str, recipient: &str, status: MessageStatus| Message {
        hash: hash.to_string(),
        sender: sender.to_string(),
        recipient: recipient.to_string(),
        data: vec![1, 2],
        created_at: now,
        status,
        signature: vec![],
    };
    msgs.save_model(mk("h1", "alice", "bob", MessageStatus::WaitingForPubkey)).unwrap();
    msgs.save_model(mk("h2", "alice", "carol", MessageStatus::Sent)).unwrap();
    msgs.save_model(mk("h3", "dave", "bob", MessageStatus::Received)).unwrap();

    assert_eq!(msgs.get_messages().len(), 3);
    let to_bob = msgs.get_messages_by_recipient("bob".to_string());
    assert_eq!(to_bob.len(), 2);
    assert_eq!(to_bob[0].hash, "h1");
    assert_eq!(to_bob[1].hash, "h3");
    let from_alice = msgs.get_messages_by_sender("alice".to_string());
    assert_eq!(from_alice.len(), 2);
    let waiting = msgs.get_messages_by_status(MessageStatus::WaitingForPubkey);
    assert_eq!(waiting.len(), 1);
    assert_eq!(waiting[0].hash, "h1");

    msgs.update_message_status("h1".to_string(), MessageStatus::WaitingForPOW).unwrap();
    assert_eq!(
        msgs.get_messages_by_status(MessageStatus::WaitingForPubkey).len(),
        0
    );
    assert_eq!(
        msgs.get_messages_by_status(MessageStatus::WaitingForPOW)[0].hash,
        "h1"
    );

    msgs.update_hash("h1".to_string(), "h9".to_string()).unwrap();
    assert_eq!(msgs.get_messages_by_status(MessageStatus::WaitingForPOW)[0].hash, "h9");
    // Re-keying onto a taken key is refused.
    assert!(msgs.update_hash("h9".to_string(), "h2".to_string()).is_err());

    msgs.remove_message("h9".to_string()).unwrap();
    assert_eq!(msgs.get_messages().len(), 2);
}

#[test]
fn status_text_round_trip() {
    for s in [
        MessageStatus::WaitingForPubkey,
        MessageStatus::WaitingForPOW,
        MessageStatus::Sent,
        MessageStatus::Received,
        MessageStatus::Unknown,
    ] {
        let text = s.as_text();
        assert_eq!(MessageStatus::from_text(text.as_str()), s);
    }
    assert_eq!(MessageStatus::from_text("nonsense"), MessageStatus::Unknown);
    assert_eq!(MessageStatus::WaitingForPOW.as_text(), "WaitingForPOW");
}

/// Round-trip identity: an address stored as a row and rebuilt keeps its
/// ripe, tag, keys, and display string.
#[test]
fn address_storage_round_trip() {
    let mut a = Address::generate().expect("identity generated");
    a.label = "me".to_string();
    let rec = serialize_address(&a);
    assert_eq!(rec.address, a.string_repr);
    let back = deserialize_address(&rec).expect("row decodes");
    assert_eq!(back.ripe, a.ripe);
    assert_eq!(back.tag, a.tag);
    assert_eq!(back.string_repr, a.string_repr);
    assert_eq!(back.public_decryption_key, a.public_decryption_key);
    assert_eq!(back.public_signing_key, a.public_signing_key);
    assert_eq!(back.public_encryption_key, a.public_encryption_key);
    assert_eq!(back.private_signing_key, a.private_signing_key);
    assert_eq!(back.private_encryption_key, a.private_encryption_key);
    assert_eq!(back.label, "me");
}

#[test]
fn address_repository_lookup_and_updates() {
    let mut repo = AddressRepository::new();
    let a = Address::generate().expect("identity generated");
    let a_str = a.string_repr.clone();
    let a_tag = bs58::encode(&a.tag).into_string();
    repo.store(a).unwrap();

    // Lookup by display string and by tag string both find the row.
    assert!(repo.get_by_ripe_or_tag(a_str.clone()).is_some());
    assert!(repo.get_by_ripe_or_tag(a_tag).is_some());
    assert!(repo.get_by_ripe_or_tag("missing".to_string()).is_none());

    assert_eq!(repo.get_identities().len(), 1);
    assert_eq!(repo.get_contacts().len(), 1);

    // A skeleton contact has no keys until a pubkey is learned.
    let skeleton = Address::new(vec![7u8; 20]);
    let skel_str = skeleton.string_repr.clone();
    repo.store(skeleton).unwrap();
    assert_eq!(repo.get_identities().len(), 1);
    assert_eq!(repo.get_contacts().len(), 1);
    repo.update_public_keys(skel_str.clone(), vec![1u8; 65], vec![2u8; 65]).unwrap();
    assert_eq!(repo.get_contacts().len(), 2);
    let learned = repo.get_by_ripe_or_tag(skel_str.clone()).unwrap();
    assert_eq!(learned.public_signing_key, Some(vec![1u8; 65]));

    repo.update_label(skel_str.clone(), "friend".to_string()).unwrap();
    assert_eq!(repo.get_by_ripe_or_tag(skel_str.clone()).unwrap().label, "friend");

    repo.delete_address(skel_str.clone()).unwrap();
    assert!(repo.get_by_ripe_or_tag(skel_str).is_none());
    assert_eq!(repo.get_by_ripe_or_tag(a_str).unwrap().label, "");
}
