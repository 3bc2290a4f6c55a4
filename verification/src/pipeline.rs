//! Building outbound objects: signing, payload encryption, and the
//! construction of a Msg object from a stored mail.
use vstd::prelude::*;

use crate::address::{Address, AddressView};
use crate::crypto::{
    ecies_decrypt_of, ecies_encrypt, pubkey_from_secret, pubkey_of, secret_key_ok, sign_bytes,
    sign_of,
};
use crate::messages::{
    spec_enc_unenc_msg, spec_enc_unenc_pubkey, spec_object_hash, unenc_msg_ascii, MsgEncoding,
    Object, ObjectKind, UnencryptedMsg, UnencryptedPubkey, NETWORK_MIN_EXTRA_BYTES,
    NETWORK_MIN_NONCE_TRIALS_PER_BYTE,
};
use crate::models::Message;
use crate::repo_address::lemma_bytes_deep;

verus! {

/// The time to live of user messages and pubkey requests, in seconds.
pub const MSG_TTL_SECONDS: i64 = 604800;

/// The time to live of pubkey objects, in seconds.
pub const PUBKEY_TTL_SECONDS: i64 = 2419200;

impl Object {
    /// Build an object and sign its hash with the identity's private
    /// signing key; the hash is computed before the signature is attached.
    /// Fails exactly when the identity holds no valid private signing key.
    pub fn with_signing(identity: &Address, kind: ObjectKind, expires: i64) -> (r: Option<Object>)
        ensures
            match r {
                Some(o) => {
                    &&& identity@.private_signing_key is Some
                    &&& secret_key_ok(identity@.private_signing_key->0)
                    &&& o@.hash == spec_object_hash(expires as int, Seq::<u8>::empty(), o@.kind)
                    &&& o@.signature == sign_of(identity@.private_signing_key->0, o@.hash)
                    &&& o@.nonce == Seq::<u8>::empty()
                    &&& o@.expires == expires as int
                    &&& o@.nonce_trials_per_byte == NETWORK_MIN_NONCE_TRIALS_PER_BYTE
                    &&& o@.extra_bytes == NETWORK_MIN_EXTRA_BYTES
                },
                None => !(identity@.private_signing_key matches Some(sk) && secret_key_ok(sk)),
            },
            r matches Some(o) ==> o@.kind == kind@,
    {
        let sk = match &identity.private_signing_key {
            Some(sk) => sk,
            None => return None,
        };
        proof {
            lemma_bytes_deep(*sk);
            assert(identity@.private_signing_key == Some(sk@));
        }
        let mut object = Object::new(expires, Vec::new(), kind);
        let signature = match sign_bytes(sk.as_slice(), object.hash.as_slice()) {
            Some(s) => s,
            None => return None,
        };
        object.signature = signature;
        Some(object)
    }
}

/// Encode a pubkey payload and encrypt it to the public counterpart of
/// `secret_key`, so that exactly the holder of that key can open it. Fails
/// exactly when `secret_key` is invalid or the encoded payload is over the
/// encryption size cap.
pub fn serialize_and_encrypt_payload(payload: &UnencryptedPubkey, secret_key: &Vec<u8>) -> (r:
    Option<Vec<u8>>)
    ensures
        match r {
            Some(ct) => secret_key_ok(secret_key@) && ecies_decrypt_of(secret_key@, ct@) == Some(
                spec_enc_unenc_pubkey(payload@),
            ),
            None => !secret_key_ok(secret_key@) || spec_enc_unenc_pubkey(payload@).len()
                >= 0x1_0000_0000,
        },
{
    let encoded = crate::messages::encode_unenc_pubkey(payload);
    let pk = match pubkey_from_secret(secret_key.as_slice()) {
        Some(pk) => pk,
        None => return None,
    };
    let r = ecies_encrypt(pk.as_slice(), encoded.as_slice());
    proof {
        if r is None {
            assert(secret_key_ok(secret_key@) && pubkey_of(secret_key@) == pk@);
        }
    }
    r
}

/// Encode a message payload and encrypt it to a public key; whoever holds
/// the matching secret key recovers exactly the encoded payload. Fails
/// exactly when the key is no derived public key or the encoded payload is
/// over the encryption size cap.
pub fn serialize_and_encrypt_payload_pub(payload: &UnencryptedMsg, public_key: &Vec<u8>) -> (r:
    Option<Vec<u8>>)
    requires
        unenc_msg_ascii(payload@),
    ensures
        match r {
            Some(ct) => forall|sk: Seq<u8>|
                pubkey_of(sk) == public_key@ ==> ecies_decrypt_of(sk, ct@) == Some(
                    spec_enc_unenc_msg(payload@),
                ),
            None => !(exists|sk: Seq<u8>| secret_key_ok(sk) && #[trigger] pubkey_of(sk)
                == public_key@) || spec_enc_unenc_msg(payload@).len() >= 0x1_0000_0000,
        },
{
    let encoded = crate::messages::encode_unenc_msg(payload);
    ecies_encrypt(public_key.as_slice(), encoded.as_slice())
}

/// The plaintext a stored mail is sent as.
pub open spec fn spec_unenc_msg_of(
    msg: crate::models::MessageView,
    identity: AddressView,
    recipient: AddressView,
) -> crate::messages::UnencryptedMsgView {
    crate::messages::UnencryptedMsgView {
        behavior_bitfield: 0,
        sender_ripe: msg.sender,
        destination_ripe: msg.recipient,
        encoding: MsgEncoding::Simple,
        message: msg.data,
        public_signing_key: identity.public_signing_key->0,
        public_encryption_key: recipient.public_encryption_key->0,
    }
}

/// Build the signed Msg object carrying a stored mail: the plaintext is
/// encrypted to the recipient's encryption key, the envelope signed by the
/// sender and set to expire a week from `now`. Fails exactly when the
/// sender's private signing key is missing or invalid, or encryption fails.
pub fn create_object_from_msg(
    identity: &Address,
    recipient: &Address,
    msg: &Message,
    now: i64,
) -> (r: Option<Object>)
    requires
        identity@.public_signing_key is Some,
        recipient@.public_encryption_key is Some,
        msg.sender.is_ascii(),
        msg.recipient.is_ascii(),
        now + MSG_TTL_SECONDS <= i64::MAX,
    ensures
        match r {
            Some(o) => {
                &&& o@.expires == now + MSG_TTL_SECONDS
                &&& o@.nonce == Seq::<u8>::empty()
                &&& (o@.kind matches crate::messages::KindView::Msg { encrypted } && (forall|
                    sk: Seq<u8>,
                |
                    pubkey_of(sk) == recipient@.public_encryption_key->0 ==> ecies_decrypt_of(
                        sk,
                        encrypted,
                    ) == Some(
                        spec_enc_unenc_msg(spec_unenc_msg_of(msg@, identity@, recipient@)),
                    )))
                &&& o@.hash == spec_object_hash(
                    now + MSG_TTL_SECONDS,
                    Seq::<u8>::empty(),
                    o@.kind,
                )
                &&& identity@.private_signing_key is Some
                &&& o@.signature == sign_of(identity@.private_signing_key->0, o@.hash)
            },
            None => {
                ||| !(identity@.private_signing_key matches Some(sk) && secret_key_ok(sk))
                ||| !(exists|ek: Seq<u8>| secret_key_ok(ek) && #[trigger] pubkey_of(ek)
                    == recipient@.public_encryption_key->0)
                ||| spec_enc_unenc_msg(spec_unenc_msg_of(msg@, identity@, recipient@)).len()
                    >= 0x1_0000_0000
            },
        },
{
    let unenc = UnencryptedMsg {
        behavior_bitfield: 0,
        sender_ripe: msg.sender.clone(),
        destination_ripe: msg.recipient.clone(),
        encoding: MsgEncoding::Simple,
        message: crate::messages::clone_bytes(&msg.data),
        public_signing_key: match &identity.public_signing_key {
            Some(k) => {
                proof {
                    lemma_bytes_deep(*k);
                }
                crate::messages::clone_bytes(k)
            },
            None => return None,
        },
        public_encryption_key: match &recipient.public_encryption_key {
            Some(k) => {
                proof {
                    lemma_bytes_deep(*k);
                }
                crate::messages::clone_bytes(k)
            },
            None => return None,
        },
    };
    assert(unenc@ == spec_unenc_msg_of(msg@, identity@, recipient@));
    let pek = match &recipient.public_encryption_key {
        Some(k) => k,
        None => return None,
    };
    proof {
        lemma_bytes_deep(*pek);
        assert(recipient@.public_encryption_key == Some(pek@));
    }
    let encrypted = match serialize_and_encrypt_payload_pub(&unenc, pek) {
        Some(ct) => ct,
        None => return None,
    };
    Object::with_signing(identity, ObjectKind::Msg { encrypted }, now + MSG_TTL_SECONDS)
}

} // verus!
