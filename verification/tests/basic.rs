use bitmessage_node::address::{get_leading, Address};
use bitmessage_node::cbor;
use bitmessage_node::decode::{
    decode_network_message, decode_unenc_msg, decode_unenc_pubkey,
};
use bitmessage_node::messages::{
    encode_kind, encode_network_message, encode_unenc_msg, encode_unenc_pubkey, MessageCommand,
    MessagePayload, MsgEncoding, NetworkMessage, Object, ObjectKind, UnencryptedMsg,
    UnencryptedPubkey,
};
use bitmessage_node::pow::{check_pow, do_pow, get_pow_target, normalize_be, trial_value, PoWError};
use sha2::Digest;

#[test]
fn it_works() {}

#[test]
fn object_type_numbers() {
    assert_eq!(ObjectKind::Msg { encrypted: vec![] }.object_type(), 0);
    assert_eq!(
        ObjectKind::Broadcast { tag: vec![], encrypted: vec![] }.object_type(),
        1
    );
    assert_eq!(ObjectKind::Getpubkey { tag: vec![] }.object_type(), 2);
    assert_eq!(
        ObjectKind::Pubkey { tag: vec![], encrypted: vec![] }.object_type(),
        3
    );
}

#[test]
fn get_leading_counts_zero_bits() {
    assert_eq!(get_leading(&[]), 0);
    assert_eq!(get_leading(&[0x80]), 0);
    assert_eq!(get_leading(&[0x01]), 7);
    assert_eq!(get_leading(&[0x00, 0x00, 0x10]), 19);
    assert_eq!(get_leading(&[0x00, 0x00]), 16);
}

/// Hash determinism: the object hash is SHA-256 of
/// `expires (LE) ‖ signature ‖ cbor(kind)`, recomputed here with the hash
/// library called directly.
#[test]
fn object_hash_is_sha256_of_parts() {
    let expires: i64 = 1_700_000_000;
    let signature = vec![7u8, 8, 9];
    let kind = ObjectKind::Getpubkey { tag: vec![1, 2, 3, 4] };
    let kind_bytes = encode_kind(&kind);
    let mut input = Vec::new();
    input.extend_from_slice(&expires.to_le_bytes());
    input.extend_from_slice(&signature);
    input.extend_from_slice(&kind_bytes);
    let expected: Vec<u8> = sha2::Sha256::digest(&input).to_vec();

    let object = Object::new(expires, signature.clone(), kind);
    assert_eq!(object.hash, expected);
    assert_eq!(object.hash.len(), 32);
    assert!(object.nonce.is_empty());

    // Determinism: the same parts give the same hash.
    let again = Object::new(
        expires,
        signature,
        ObjectKind::Getpubkey { tag: vec![1, 2, 3, 4] },
    );
    assert_eq!(again.hash, object.hash);
}

/// PoW round trip with target 2^60 and a 32-byte zero initial hash: the
/// search finds a nonce, and verification accepts it.
#[test]
fn pow_round_trip_small_target() {
    let target: u64 = 1u64 << 60;
    let initial_hash = vec![0u8; 32];
    let (trial, nonce) = do_pow(target, &initial_hash, 1_000_000).expect("a nonce is found");
    assert!(trial <= target);
    assert_eq!(trial, trial_value(&nonce, &initial_hash));
    assert!(check_pow(target, &nonce, &initial_hash).is_ok());
}

/// PoW soundness: a verified nonce recomputes to a trial within the target,
/// and a rejected nonce carries the expected error.
#[test]
fn pow_rejects_zero_nonce() {
    // A nonce encoding zero against a hard target: the trial for this fixed
    // input is far above it, so verification must fail.
    let initial_hash = vec![0u8; 32];
    let nonce = vec![0u8];
    let trial = trial_value(&nonce, &initial_hash);
    let target: u64 = 1000;
    assert!(trial > target);
    assert_eq!(
        check_pow(target, &nonce, &initial_hash),
        Err(PoWError::InsufficientProofOfWork)
    );
    assert_eq!(
        PoWError::InsufficientProofOfWork.message(),
        "proof of work of object is insufficient (trivial_value > target)"
    );
}

/// Nonce bytes are read as a big-endian integer: leading zeros are ignored,
/// exactly as a big-integer round trip would.
#[test]
fn pow_nonce_normalisation() {
    let initial_hash = vec![9u8; 32];
    let padded = vec![0u8, 0, 5];
    let minimal = vec![5u8];
    assert_eq!(
        trial_value(&padded, &initial_hash),
        trial_value(&minimal, &initial_hash)
    );
    assert_eq!(normalize_be(&padded), vec![5u8]);
    assert_eq!(normalize_be(&vec![0u8, 0]), vec![0u8]);
    assert_eq!(normalize_be(&vec![]), vec![0u8]);
}

/// Target monotonicity on concrete values: a shorter TTL and a smaller
/// nonce-trials parameter both give a larger target.
#[test]
fn pow_target_monotonic_values() {
    let now: i64 = 1_700_000_000;
    let kind = ObjectKind::Getpubkey { tag: vec![0u8; 32] };
    let short = Object::new(now + 3600, vec![], kind.clone());
    let long = Object::new(now + 604_800, vec![], kind);

    let t_short = get_pow_target(&short, 1000, 1000, now);
    let t_long = get_pow_target(&long, 1000, 1000, now);
    assert!(t_short >= t_long);

    let t_easy = get_pow_target(&long, 10, 1000, now);
    assert!(t_easy >= t_long);

    // Zero parameters fall back to the network minimums.
    let t_default = get_pow_target(&long, 0, 0, now);
    assert_eq!(t_default, get_pow_target(&long, 1000, 1000, now));
}

#[test]
fn cbor_headers_round_trip() {
    let mut out: Vec<u8> = Vec::new();
    cbor::push_uint(&mut out, 0);
    cbor::push_uint(&mut out, 23);
    cbor::push_uint(&mut out, 24);
    cbor::push_uint(&mut out, 65536);
    cbor::push_int(&mut out, -1);
    assert_eq!(out, vec![0x00, 0x17, 0x18, 0x18, 0x1a, 0x00, 0x01, 0x00, 0x00, 0x20]);
    let (v0, p) = cbor::read_uint(&out, 0).unwrap();
    assert_eq!((v0, p), (0, 1));
    let (v1, p) = cbor::read_uint(&out, p).unwrap();
    assert_eq!((v1, p), (23, 2));
    let (v2, p) = cbor::read_uint(&out, p).unwrap();
    assert_eq!((v2, p), (24, 4));
    let (v3, p) = cbor::read_uint(&out, p).unwrap();
    assert_eq!((v3, p), (65536, 9));
    let (v4, p) = cbor::read_int(&out, p).unwrap();
    assert_eq!((v4, p), (-1, 10));
    // A non-minimal header is rejected.
    assert!(cbor::read_uint(&[0x18, 0x05], 0).is_none());
}

#[test]
fn unencrypted_pubkey_round_trip() {
    let p = UnencryptedPubkey {
        behaviour_bitfield: 7,
        public_signing_key: vec![1u8; 65],
        public_encryption_key: vec![2u8; 65],
    };
    let bytes = encode_unenc_pubkey(&p);
    let back = decode_unenc_pubkey(&bytes).expect("round trip");
    assert_eq!(back.behaviour_bitfield, 7);
    assert_eq!(back.public_signing_key, p.public_signing_key);
    assert_eq!(back.public_encryption_key, p.public_encryption_key);
    // A truncated envelope is rejected.
    assert!(decode_unenc_pubkey(&bytes[..bytes.len() - 1]).is_none());
}

#[test]
fn unencrypted_msg_round_trip() {
    let m = UnencryptedMsg {
        behavior_bitfield: 0,
        sender_ripe: "3abc".to_string(),
        destination_ripe: "4def".to_string(),
        encoding: MsgEncoding::Simple,
        message: b"hello over the wire".to_vec(),
        public_signing_key: vec![3u8; 65],
        public_encryption_key: vec![4u8; 65],
    };
    let bytes = encode_unenc_msg(&m);
    let back = decode_unenc_msg(&bytes).expect("round trip");
    assert_eq!(back.sender_ripe, "3abc");
    assert_eq!(back.destination_ripe, "4def");
    assert_eq!(back.encoding, MsgEncoding::Simple);
    assert_eq!(back.message, m.message);
    assert_eq!(back.public_signing_key, m.public_signing_key);
    assert_eq!(back.public_encryption_key, m.public_encryption_key);
}

#[test]
fn network_message_round_trip() {
    let ripe = vec![5u8; 20];
    let a = Address::new(ripe);
    let object = Object::new(
        1_700_000_123,
        vec![9u8; 64],
        ObjectKind::Pubkey { tag: a.tag.clone(), encrypted: vec![1, 2, 3] },
    );
    let messages = vec![
        NetworkMessage { command: MessageCommand::ReqInv, payload: MessagePayload::Empty },
        NetworkMessage {
            command: MessageCommand::Inv,
            payload: MessagePayload::Inv {
                inventory: vec![a.string_repr.clone(), "abc".to_string()],
            },
        },
        NetworkMessage {
            command: MessageCommand::GetData,
            payload: MessagePayload::GetData { inventory: vec!["xyz".to_string()] },
        },
        NetworkMessage {
            command: MessageCommand::Objects,
            payload: MessagePayload::Objects { objects: vec![object] },
        },
    ];
    for m in &messages {
        let bytes = encode_network_message(m);
        let back = decode_network_message(&bytes).expect("round trip");
        assert_eq!(back.command, m.command);
        let bytes_again = encode_network_message(&back);
        assert_eq!(bytes, bytes_again);
    }
    // Garbage is rejected.
    assert!(decode_network_message(&[0xff, 0x00]).is_none());
    assert!(decode_network_message(&[]).is_none());
}
