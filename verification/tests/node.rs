use bitmessage_node::address::Address;
use bitmessage_node::handler::{Handler, HandlerEffect};
use bitmessage_node::messages::{MessageCommand, MessagePayload, Object, ObjectKind};
use bitmessage_node::models::{Message, MessageStatus, NodeError};
use bitmessage_node::pow::{do_pow, get_pow_target};
use bitmessage_node::repo_address::AddressRepository;
use bitmessage_node::repo_inventory::InventoryRepository;
use bitmessage_node::repo_message::MessageRepository;
use bitmessage_node::worker::{CommandReply, Folder, NodeAction, NodeWorker, WorkerCommand};
use ripemd::Digest as RipemdDigest;
use sha2::Digest;

const NOW: i64 = 1_700_000_000;

fn fresh_worker() -> NodeWorker {
    let handler = Handler::new(
        AddressRepository::new(),
        InventoryRepository::new(),
        MessageRepository::new(),
    );
    NodeWorker::new(handler)
}

fn generate(worker: &mut NodeWorker, label: &str) -> String {
    match worker.generate_identity(label.to_string()) {
        CommandReply::StringValue { value } => value,
        _ => panic!("identity generation failed"),
    }
}

fn mail(sender: &str, recipient: &str, body: &[u8]) -> Message {
    Message {
        hash: String::new(),
        sender: sender.to_string(),
        recipient: recipient.to_string(),
        data: body.to_vec(),
        created_at: NOW,
        status: MessageStatus::Unknown,
        signature: vec![],
    }
}

/// Make an object cheap to mine and attach a real nonce that passes the
/// verification the handler performs.
fn mine(mut obj: Object) -> Object {
    obj.nonce_trials_per_byte = 1;
    obj.extra_bytes = 1;
    let target = get_pow_target(&obj, obj.nonce_trials_per_byte, obj.extra_bytes, NOW);
    let (_, nonce) = do_pow(target, &obj.hash, 10_000_000).expect("nonce found");
    obj.nonce = nonce;
    obj
}

/// Address derivation: the tag is bytes 32..64 of SHA-512(SHA-512(ripe)),
/// the envelope-opening key bytes 0..32, and the display string base58 of
/// the ripe, checked against the hash and encoding libraries directly.
#[test]
fn address_derivation_from_ripe() {
    let ripe: Vec<u8> = (0u8..20).collect();
    let a = Address::new(ripe.clone());
    let checksum: Vec<u8> =
        sha2::Sha512::digest(&sha2::Sha512::digest(&ripe)).to_vec();
    assert_eq!(a.public_decryption_key, checksum[..32].to_vec());
    assert_eq!(a.tag, checksum[32..].to_vec());
    assert_eq!(a.string_repr, bs58::encode(&ripe).into_string());
    assert!(a.public_signing_key.is_none());
    assert!(a.private_signing_key.is_none());

    // A user-supplied display string names the same skeleton.
    let b = Address::with_string_repr(a.string_repr.as_str()).expect("valid base58");
    assert_eq!(b.ripe, ripe);
    assert_eq!(b.tag, a.tag);
    // A string that is not base58 is rejected.
    assert!(Address::with_string_repr("0OIl").is_none());
}

/// A generated identity carries all four key parts and a 20-byte ripe.
#[test]
fn generated_identity_is_fully_keyed() {
    let a = Address::generate().expect("identity generated");
    assert_eq!(a.ripe.len(), 20);
    assert_eq!(a.tag.len(), 32);
    assert_eq!(a.public_decryption_key.len(), 32);
    assert_eq!(a.public_signing_key.as_ref().unwrap().len(), 65);
    assert_eq!(a.public_encryption_key.as_ref().unwrap().len(), 65);
    assert_eq!(a.private_signing_key.as_ref().unwrap().len(), 32);
    assert_eq!(a.private_encryption_key.as_ref().unwrap().len(), 32);

    // The signature attached by object signing is 64 bytes and the hash is
    // not the signed input itself.
    let obj = Object::with_signing(&a, ObjectKind::Getpubkey { tag: a.tag.clone() }, NOW + 60)
        .expect("signing succeeds");
    assert_eq!(obj.signature.len(), 64);
    assert_eq!(obj.hash.len(), 32);
}

/// Send state machine, unknown recipient: the mail waits for a pubkey under
/// a random 16-character key, the tag is tracked, and a Getpubkey job is
/// queued.
#[test]
fn send_to_unknown_recipient_waits_for_pubkey() {
    let mut a = fresh_worker();
    let a_addr = generate(&mut a, "alice");
    let stranger = Address::new(vec![9u8; 20]);

    let (reply, actions) = a.send_message(mail(&a_addr, &stranger.string_repr, b"hi"), a_addr.clone(), NOW);
    assert!(matches!(reply, CommandReply::Done));

    let stored = a.get_messages(stranger.string_repr.clone(), Folder::Inbox);
    assert_eq!(stored.len(), 1);
    assert_eq!(stored[0].status, MessageStatus::WaitingForPubkey);
    assert_eq!(stored[0].hash.len(), 16);

    // The queued job is a Getpubkey for the recipient's tag.
    let started: Vec<&Object> = actions
        .iter()
        .filter_map(|x| match x {
            NodeAction::StartPow { object } => Some(object),
            _ => None,
        })
        .collect();
    assert_eq!(started.len(), 1);
    match &started[0].kind {
        ObjectKind::Getpubkey { tag } => assert_eq!(tag, &stranger.tag),
        _ => panic!("expected a Getpubkey object"),
    }
    assert_eq!(a.tracked_pubkeys.len(), 1);
    assert_eq!(a.tracked_pubkeys[0], bs58::encode(&stranger.tag).into_string());

    // A recipient that is not base58 at all is rejected.
    let (reply, _) = a.send_message(mail(&a_addr, "0OIl", b"x"), a_addr, NOW);
    assert!(matches!(reply, CommandReply::Failed { error: NodeError::Validation }));
}

/// Pubkey learning end to end: node A sends to node B's address without its
/// keys, B answers the Getpubkey with a Pubkey object, A learns the keys
/// and the mail moves WaitingForPubkey -> WaitingForPOW -> Sent.
#[test]
fn pubkey_learning_transitions_message() {
    let mut a = fresh_worker();
    let a_addr = generate(&mut a, "alice");
    let mut b = fresh_worker();
    let b_addr = generate(&mut b, "bob");

    // A sends to B knowing only the display string.
    let (reply, actions) = a.send_message(mail(&a_addr, &b_addr, b"hello bob"), a_addr.clone(), NOW);
    assert!(matches!(reply, CommandReply::Done));
    let getpubkey = actions
        .iter()
        .find_map(|x| match x {
            NodeAction::StartPow { object } => Some(object.clone()),
            _ => None,
        })
        .expect("a Getpubkey job starts");

    // B serves its pubkey for the requested tag.
    let effects = b.handler.handle_get_pubkey_object(&getpubkey, NOW);
    assert_eq!(effects.len(), 1);
    let pubkey_obj = match &effects[0] {
        HandlerEffect::EnqueuePow { object } => object.clone(),
        _ => panic!("expected a queued Pubkey object"),
    };

    // The Pubkey object travels back to A with completed proof of work.
    let mined = mine(pubkey_obj);
    let effects = a
        .handler
        .handle_objects(MessagePayload::Objects { objects: vec![mined] }, NOW);
    let tag = effects
        .iter()
        .find_map(|x| match x {
            HandlerEffect::NotifyPubkey { tag } => Some(tag.clone()),
            _ => None,
        })
        .expect("the learned tag is notified");

    // A now knows B's keys.
    let learned = a.handler.addresses.get_by_ripe_or_tag(b_addr.clone()).unwrap();
    assert!(learned.public_signing_key.is_some());
    assert!(learned.public_encryption_key.is_some());

    // The notification rebuilds the mail as an object and moves it on.
    let _ = a.handle_pubkey_notification(tag, NOW);
    assert!(a.tracked_pubkeys.is_empty());
    let stored = a.get_messages(b_addr.clone(), Folder::Inbox);
    assert_eq!(stored.len(), 1);
    assert_eq!(stored[0].status, MessageStatus::WaitingForPOW);
    assert_ne!(stored[0].hash.len(), 16);

    // The backlog object finishes its proof of work: the mail is Sent and
    // the inventory is re-offered.
    let rebuilt = a
        .handler
        .inventory
        .get_object(stored[0].hash.clone());
    // Still awaiting PoW, so not yet served:
    assert!(rebuilt.is_none());
    let pending = a.handler.inventory.get_missing_pow_objects();
    let msg_obj = pending
        .iter()
        .find(|o| matches!(o.kind, ObjectKind::Msg { .. }))
        .expect("the mail's object is stored")
        .clone();
    let actions = a.nonce_calculated(msg_obj, NOW);
    assert!(actions.iter().any(|x| matches!(
        x,
        NodeAction::Publish { message } if matches!(message.command, MessageCommand::Inv)
    )));
    let sent = a.get_messages(a_addr, Folder::Sent);
    assert_eq!(sent.len(), 1);
    assert_eq!(sent[0].status, MessageStatus::Sent);
}

/// Two-node gossip: A sends to a fully keyed contact; after proof of work
/// B accepts the object, advertises it, and stores the decrypted mail as
/// Received from A.
#[test]
fn gossip_delivers_message_between_nodes() {
    let mut a = fresh_worker();
    let a_addr = generate(&mut a, "alice");
    let mut b = fresh_worker();
    let b_addr = generate(&mut b, "bob");

    // A holds B as a contact with both public keys.
    let b_identity = b.get_own_identities().remove(0);
    let contact = Address::with_public_key(
        b_identity.public_signing_key.clone().unwrap(),
        b_identity.public_encryption_key.clone().unwrap(),
    );
    assert_eq!(contact.string_repr, b_addr);
    a.handler.addresses.store(contact).unwrap();

    let (reply, actions) = a.send_message(mail(&a_addr, &b_addr, b"over the wire"), a_addr.clone(), NOW);
    assert!(matches!(reply, CommandReply::Done));
    let msg_obj = actions
        .iter()
        .find_map(|x| match x {
            NodeAction::StartPow { object } => Some(object.clone()),
            _ => None,
        })
        .expect("the mail's object starts its search");
    assert_eq!(
        a.get_messages(a_addr.clone(), Folder::Sent)[0].status,
        MessageStatus::WaitingForPOW
    );

    // The object reaches B with completed proof of work.
    let mined = mine(msg_obj);
    let mined_hash = bs58::encode(&mined.hash).into_string();
    let effects = b
        .handler
        .handle_objects(MessagePayload::Objects { objects: vec![mined.clone()] }, NOW);
    assert!(effects.iter().any(|x| matches!(x, HandlerEffect::BroadcastInv { .. })));

    // B stores and advertises the object...
    assert!(b.handler.inventory.get_object(mined_hash.clone()).is_some());
    assert!(b.handler.inventory.get(NOW).contains(&mined_hash));
    // ... and holds the decrypted mail as Received from A.
    let inbox = b.get_messages(b_addr, Folder::Inbox);
    assert_eq!(inbox.len(), 1);
    assert_eq!(inbox[0].status, MessageStatus::Received);
    assert_eq!(inbox[0].sender, a_addr);
    assert_eq!(inbox[0].data, b"over the wire".to_vec());
    assert_eq!(inbox[0].hash, mined_hash);

    // A duplicate of the same object is silently ignored.
    let before = b.handler.inventory.get(NOW).len();
    b.handler
        .handle_objects(MessagePayload::Objects { objects: vec![mined] }, NOW);
    assert_eq!(b.handler.inventory.get(NOW).len(), before);
}

/// Malformed proof of work: an object with nonce bytes encoding zero fails
/// verification, is not stored, and nothing is re-broadcast.
#[test]
fn object_with_zero_nonce_is_dropped() {
    let mut b = fresh_worker();
    generate(&mut b, "bob");
    let mut obj = Object::new(
        NOW + 3600,
        vec![1u8; 64],
        ObjectKind::Getpubkey { tag: vec![3u8; 32] },
    );
    obj.nonce = vec![0u8];
    let hash_str = bs58::encode(&obj.hash).into_string();
    let effects = b
        .handler
        .handle_objects(MessagePayload::Objects { objects: vec![obj] }, NOW);
    assert!(effects.is_empty());
    assert!(b.handler.inventory.get_object(hash_str).is_none());
    assert!(b.handler.inventory.get(NOW).is_empty());
}

/// The protocol handler's request/reply behaviour over the four verbs.
#[test]
fn handler_replies_to_verbs() {
    let mut node = fresh_worker();
    generate(&mut node, "carol");
    let mut obj = mine(Object::new(
        NOW + 3600,
        vec![2u8; 64],
        ObjectKind::Broadcast { tag: vec![1], encrypted: vec![2] },
    ));
    obj = mine(obj);
    let hash_str = bs58::encode(&obj.hash).into_string();
    node.handler
        .handle_objects(MessagePayload::Objects { objects: vec![obj] }, NOW);

    // ReqInv: the advertised inventory comes back.
    let (reply, _) = node.handler.handle_message(
        bitmessage_node::messages::NetworkMessage {
            command: MessageCommand::ReqInv,
            payload: MessagePayload::Empty,
        },
        NOW,
    );
    match reply.expect("ReqInv always gets a reply").payload {
        MessagePayload::Inv { inventory } => assert_eq!(inventory, vec![hash_str.clone()]),
        _ => panic!("expected an Inv payload"),
    }

    // Inv listing only known hashes: no request goes out.
    let none = node.handler.handle_inv(
        MessagePayload::Inv { inventory: vec![hash_str.clone()] },
        NOW,
    );
    assert!(none.is_none());

    // Inv with an unknown hash: exactly that hash is requested.
    let ask = node
        .handler
        .handle_inv(
            MessagePayload::Inv {
                inventory: vec![hash_str.clone(), "unknownhash".to_string()],
            },
            NOW,
        )
        .expect("something is missing");
    assert!(matches!(ask.command, MessageCommand::GetData));
    match ask.payload {
        MessagePayload::GetData { inventory } => {
            assert_eq!(inventory, vec!["unknownhash".to_string()])
        },
        _ => panic!("expected a GetData payload"),
    }

    // GetData: the held object is served.
    let served = node.handler.handle_get_data(MessagePayload::GetData {
        inventory: vec![hash_str.clone(), "unknownhash".to_string()],
    });
    match served.payload {
        MessagePayload::Objects { objects } => {
            assert_eq!(objects.len(), 1);
            assert_eq!(bs58::encode(&objects[0].hash).into_string(), hash_str);
        },
        _ => panic!("expected an Objects payload"),
    }
}

/// Restart recovery: a stored object with an empty nonce and a mail stuck
/// in WaitingForPOW are both re-queued; after completion the mail is Sent.
#[test]
fn startup_requeues_unfinished_work() {
    let mut a = fresh_worker();
    let a_addr = generate(&mut a, "alice");
    let mut b = fresh_worker();
    let b_addr = generate(&mut b, "bob");
    let b_identity = b.get_own_identities().remove(0);
    let contact = Address::with_public_key(
        b_identity.public_signing_key.clone().unwrap(),
        b_identity.public_encryption_key.clone().unwrap(),
    );
    a.handler.addresses.store(contact).unwrap();

    // An inventory row awaiting proof of work.
    let orphan = Object::new(NOW + 3600, vec![5u8; 64], ObjectKind::Getpubkey { tag: vec![6u8; 32] });
    a.handler.inventory.store_object(orphan).unwrap();
    // A mail stuck in WaitingForPOW, as if the node stopped mid-send.
    let stuck = Message {
        hash: "temporarykey0000".to_string(),
        sender: a_addr.clone(),
        recipient: b_addr.clone(),
        data: b"resumed".to_vec(),
        created_at: NOW,
        status: MessageStatus::WaitingForPOW,
        signature: vec![],
    };
    a.handler.messages.save_model(stuck).unwrap();
    // An expired row that the startup scan must clear.
    let mut stale = Object::new(NOW - 1, vec![7u8; 64], ObjectKind::Getpubkey { tag: vec![8u8; 32] });
    stale.nonce = vec![1];
    a.handler.inventory.store_object(stale).unwrap();

    let actions = a.startup(NOW);
    // The orphan starts its search at once; the rebuilt mail object queues
    // behind it.
    assert!(actions.iter().any(|x| matches!(x, NodeAction::StartPow { .. })));
    assert!(a.handler.inventory.get(NOW).is_empty());

    let sent = a.get_messages(a_addr.clone(), Folder::Sent);
    assert_eq!(sent.len(), 1);
    assert_eq!(sent[0].status, MessageStatus::WaitingForPOW);
    // The mail is re-keyed to its object's hash.
    assert_ne!(sent[0].hash, "temporarykey0000");

    // When the rebuilt object's search completes, the mail is Sent.
    let pending = a.handler.inventory.get_missing_pow_objects();
    let msg_obj = pending
        .iter()
        .find(|o| matches!(o.kind, ObjectKind::Msg { .. }))
        .expect("the rebuilt object is stored")
        .clone();
    let _ = a.nonce_calculated(msg_obj, NOW);
    assert_eq!(
        a.get_messages(a_addr, Folder::Sent)[0].status,
        MessageStatus::Sent
    );
}

/// The command dispatcher covers the identity and mailbox commands.
#[test]
fn worker_commands_round_trip() {
    let mut node = fresh_worker();
    let (reply, _) = node.handle_command(
        WorkerCommand::GenerateIdentity { label: "me".to_string() },
        NOW,
    );
    let addr = match reply {
        CommandReply::StringValue { value } => value,
        _ => panic!("expected the new display string"),
    };
    let (reply, _) = node.handle_command(WorkerCommand::GetOwnIdentities, NOW);
    match reply {
        CommandReply::Identities { identities } => {
            assert_eq!(identities.len(), 1);
            assert_eq!(identities[0].string_repr, addr);
            assert_eq!(identities[0].label, "me");
        },
        _ => panic!("expected the identity list"),
    }
    let (reply, _) = node.handle_command(
        WorkerCommand::RenameIdentity { new_label: "work".to_string(), address: addr.clone() },
        NOW,
    );
    assert!(matches!(reply, CommandReply::Done));
    assert_eq!(
        node.handler.addresses.get_by_ripe_or_tag(addr.clone()).unwrap().label,
        "work"
    );
    let (reply, _) = node.handle_command(WorkerCommand::DeleteIdentity { address: addr.clone() }, NOW);
    assert!(matches!(reply, CommandReply::Done));
    assert!(node.handler.addresses.get_by_ripe_or_tag(addr).is_none());

    let (_, actions) = node.handle_command(
        WorkerCommand::BroadcastMsgByPubSub {
            msg: node.request_inventory_message(),
        },
        NOW,
    );
    assert_eq!(actions.len(), 1);
    assert!(matches!(
        &actions[0],
        NodeAction::Publish { message } if matches!(message.command, MessageCommand::ReqInv)
    ));
}

/// The pending-listener queue: callers wait until the first address event
/// and are all answered with it.
#[test]
fn listener_requests_wait_for_first_address() {
    let mut node = fresh_worker();
    assert_eq!(
        node.request_listener_address(1, Some("/ip4/127.0.0.1/tcp/4".to_string())),
        Some("/ip4/127.0.0.1/tcp/4".to_string())
    );
    assert_eq!(node.request_listener_address(2, None), None);
    assert_eq!(node.request_listener_address(3, None), None);
    let replies = node.on_listener_address("/ip4/10.0.0.1/tcp/9".to_string());
    assert_eq!(
        replies,
        vec![
            (2, "/ip4/10.0.0.1/tcp/9".to_string()),
            (3, "/ip4/10.0.0.1/tcp/9".to_string())
        ]
    );
    assert!(node.pending_listener_requests.is_empty());
}

/// A peer is added to the routing table exactly when it advertises our
/// Kademlia protocol name.
#[test]
fn identify_matches_kademlia_protocol() {
    let kad = "/bitmessage/kad/1.0.0".to_string();
    let yes = vec!["/other/1.0".to_string(), kad.clone()];
    let no = vec!["/other/1.0".to_string()];
    assert!(bitmessage_node::worker::identify_accepts(&yes, &kad));
    assert!(!bitmessage_node::worker::identify_accepts(&no, &kad));
    assert!(!bitmessage_node::worker::identify_accepts(&vec![], &kad));
}

/// Sending from an address that is no identity fails with NotFound, and
/// the error kinds describe themselves.
#[test]
fn send_from_unknown_identity_fails() {
    let mut node = fresh_worker();
    let (reply, actions) = node.send_message(mail("ghost", "ghost2", b"x"), "ghost".to_string(), NOW);
    assert!(matches!(reply, CommandReply::Failed { error: NodeError::NotFound }));
    assert!(actions.is_empty());
    assert_eq!(NodeError::NotFound.message(), "no such entity");
    assert_eq!(NodeError::Validation.message(), "invalid argument");
}

/// A contact's ripe is RIPEMD-160 of SHA-512 of the two serialised public
/// keys, checked against the hash libraries called directly.
#[test]
fn contact_ripe_from_public_keys() {
    let a = Address::generate().expect("identity generated");
    let psk = a.public_signing_key.clone().unwrap();
    let pek = a.public_encryption_key.clone().unwrap();
    let contact = Address::with_public_key(psk.clone(), pek.clone());
    let mut keys = psk.clone();
    keys.extend_from_slice(&pek);
    let expected: Vec<u8> =
        ripemd::Ripemd160::digest(&sha2::Sha512::digest(&keys)).to_vec();
    assert_eq!(contact.ripe, expected);
    assert_eq!(contact.ripe, a.ripe);

    // Two generated identities never share a ripe.
    let b = Address::generate().expect("identity generated");
    assert_ne!(a.ripe, b.ripe);
}

/// An object signature verifies under the signer's public key, checked with
/// the signature library called directly.
#[test]
fn object_signature_verifies() {
    let a = Address::generate().expect("identity generated");
    let obj = Object::with_signing(&a, ObjectKind::Getpubkey { tag: a.tag.clone() }, NOW + 60)
        .expect("signing succeeds");
    let message = libsecp256k1::Message::parse_slice(&obj.hash).unwrap();
    let signature = libsecp256k1::Signature::parse_standard_slice(&obj.signature).unwrap();
    let pubkey =
        libsecp256k1::PublicKey::parse_slice(a.public_signing_key.as_ref().unwrap(), None)
            .unwrap();
    assert!(libsecp256k1::verify(&message, &signature, &pubkey));
    // A different message does not verify.
    let other = libsecp256k1::Message::parse_slice(&[7u8; 32]).unwrap();
    assert!(!libsecp256k1::verify(&other, &signature, &pubkey));
}

/// The proof-of-work queue runs one search at a time and serves waiting
/// jobs in arrival order.
#[test]
fn pow_queue_is_fifo() {
    let mut node = fresh_worker();
    let o1 = Object::new(NOW + 10, vec![1], ObjectKind::Getpubkey { tag: vec![1; 32] });
    let o2 = Object::new(NOW + 20, vec![2], ObjectKind::Getpubkey { tag: vec![2; 32] });
    let o3 = Object::new(NOW + 30, vec![3], ObjectKind::Getpubkey { tag: vec![3; 32] });

    // The first job starts at once; the rest wait.
    assert!(node.pow.enqueue_pow(o1.clone()).is_some());
    assert!(node.pow.enqueue_pow(o2.clone()).is_none());
    assert!(node.pow.enqueue_pow(o3.clone()).is_none());

    let next = node.pow.on_pow_finished().expect("a job waits");
    assert_eq!(next.hash, o2.hash);
    let next = node.pow.on_pow_finished().expect("one more waits");
    assert_eq!(next.hash, o3.hash);
    assert!(node.pow.on_pow_finished().is_none());
}
