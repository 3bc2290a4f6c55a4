//! Trusted wrappers around the cryptographic primitives the node consumes:
//! hashing (SHA-256, SHA-512, RIPEMD-160), base58 encoding, secp256k1 keys
//! and signatures, ECIES encryption, and randomness.
//!
//! Each hash or encoding result is named by an uninterpreted spec function;
//! the wrappers relate the executable calls to those names, and everything
//! else in the crate is proved against them.
use vstd::prelude::*;

use rand::distr::SampleString;
use ripemd::Digest as RipemdDigest;
use sha2::Digest as Sha2Digest;

verus! {

/// The SHA-256 digest (32 bytes) of a byte sequence.
pub uninterp spec fn sha256_of(data: Seq<u8>) -> Seq<u8>;

/// The SHA-512 digest (64 bytes) of a byte sequence.
pub uninterp spec fn sha512_of(data: Seq<u8>) -> Seq<u8>;

/// The RIPEMD-160 digest (20 bytes) of a byte sequence.
pub uninterp spec fn ripemd160_of(data: Seq<u8>) -> Seq<u8>;

/// The base58 encoding of a byte sequence (Bitcoin alphabet).
pub uninterp spec fn base58_of(data: Seq<u8>) -> Seq<char>;

/// The byte sequence a base58 string decodes to, or `None` when the string
/// is not valid base58.
pub uninterp spec fn base58_decode_of(s: Seq<char>) -> Option<Seq<u8>>;

/// Whether 32 bytes form a valid secp256k1 secret key (non-zero and below
/// the group order).
pub uninterp spec fn secret_key_ok(sk: Seq<u8>) -> bool;

/// The serialised (65-byte, uncompressed) secp256k1 public key derived from
/// a secret key.
pub uninterp spec fn pubkey_of(sk: Seq<u8>) -> Seq<u8>;

/// The serialised (64-byte) secp256k1 signature of a 32-byte message by a
/// secret key (RFC 6979 deterministic nonces).
pub uninterp spec fn sign_of(sk: Seq<u8>, msg: Seq<u8>) -> Seq<u8>;

/// The plaintext an ECIES ciphertext decrypts to under a secret key, or
/// `None` when decryption fails.
pub uninterp spec fn ecies_decrypt_of(sk: Seq<u8>, ciphertext: Seq<u8>) -> Option<Seq<u8>>;

/// Relies on sha2::Sha256: a 32-byte digest determined by the input alone.
#[verifier::external_body]
pub(crate) fn sha256(data: &[u8]) -> (r: Vec<u8>)
    ensures
        r@ == sha256_of(data@),
        r@.len() == 32,
{
    sha2::Sha256::digest(data).to_vec()
}

/// Relies on sha2::Sha512: a 64-byte digest determined by the input alone.
#[verifier::external_body]
pub(crate) fn sha512(data: &[u8]) -> (r: Vec<u8>)
    ensures
        r@ == sha512_of(data@),
        r@.len() == 64,
{
    sha2::Sha512::digest(data).to_vec()
}

/// Relies on ripemd::Ripemd160: a 20-byte digest determined by the input alone.
#[verifier::external_body]
pub(crate) fn ripemd160(data: &[u8]) -> (r: Vec<u8>)
    ensures
        r@ == ripemd160_of(data@),
        r@.len() == 20,
{
    ripemd::Ripemd160::digest(data).to_vec()
}

/// Relies on bs58::encode: an ASCII (alphanumeric, no 0/O/I/l) string
/// determined by the input alone, and the exact preimage of bs58::decode.
#[verifier::external_body]
pub(crate) fn base58_encode(data: &[u8]) -> (r: String)
    ensures
        r@ == base58_of(data@),
        r.is_ascii(),
        base58_decode_of(r@) == Some(data@),
{
    bs58::encode(data).into_string()
}

/// Relies on bs58::decode: the inverse of bs58::encode, determined by the
/// input alone; fails exactly on strings that are not valid base58, and
/// every accepted string is the encoding of its own decoding (base58 has no
/// redundant forms: the digits are a number, the leading ones the zero
/// bytes).
#[verifier::external_body]
pub(crate) fn base58_decode(s: &str) -> (r: Option<Vec<u8>>)
    ensures
        match r {
            Some(v) => base58_decode_of(s@) == Some(v@) && base58_of(v@) == s@,
            None => base58_decode_of(s@) is None,
        },
{
    match bs58::decode(s).into_vec() {
        Ok(v) => Some(v),
        Err(_) => None,
    }
}

/// Relies on libsecp256k1::SecretKey::parse_slice: accepts exactly the
/// 32-byte scalars that form a valid secret key.
#[verifier::external_body]
pub(crate) fn secret_key_check(sk: &[u8]) -> (r: bool)
    ensures
        r == secret_key_ok(sk@),
{
    libsecp256k1::SecretKey::parse_slice(sk).is_ok()
}

/// Relies on libsecp256k1::PublicKey::from_secret_key and serialize: the
/// 65-byte public key is determined by the secret key alone.
#[verifier::external_body]
pub(crate) fn pubkey_from_secret(sk: &[u8]) -> (r: Option<Vec<u8>>)
    ensures
        match r {
            Some(pk) => secret_key_ok(sk@) && pk@ == pubkey_of(sk@) && pk@.len() == 65,
            None => !secret_key_ok(sk@),
        },
{
    match libsecp256k1::SecretKey::parse_slice(sk) {
        Ok(key) => Some(libsecp256k1::PublicKey::from_secret_key(&key).serialize().to_vec()),
        Err(_) => None,
    }
}

/// Relies on libsecp256k1::sign (with Message::parse_slice and
/// Signature::serialize): a 64-byte signature determined by the secret key
/// and the 32-byte message alone.
#[verifier::external_body]
pub(crate) fn sign_bytes(sk: &[u8], msg: &[u8]) -> (r: Option<Vec<u8>>)
    requires
        msg@.len() == 32,
    ensures
        match r {
            Some(sig) => secret_key_ok(sk@) && sig@ == sign_of(sk@, msg@) && sig@.len() == 64,
            None => !secret_key_ok(sk@),
        },
{
    let key = match libsecp256k1::SecretKey::parse_slice(sk) {
        Ok(k) => k,
        Err(_) => return None,
    };
    let message = match libsecp256k1::Message::parse_slice(msg) {
        Ok(m) => m,
        Err(_) => return None,
    };
    let (signature, _) = libsecp256k1::sign(&message, &key);
    Some(signature.serialize().to_vec())
}

/// Relies on ecies::encrypt: the ciphertext uses a random ephemeral key, so
/// nothing is said of its bytes, only that decryption with the matching
/// secret key recovers the plaintext. Encryption fails only on a public key
/// that does not parse or a plaintext over the AES-GCM size cap, so on the
/// serialised form of a derived key and a plaintext well under that cap it
/// succeeds.
#[verifier::external_body]
pub(crate) fn ecies_encrypt(pk: &[u8], msg: &[u8]) -> (r: Option<Vec<u8>>)
    ensures
        match r {
            Some(ct) => forall|sk: Seq<u8>|
                pubkey_of(sk) == pk@ ==> ecies_decrypt_of(sk, ct@) == Some(msg@),
            None => true,
        },
        ((exists|sk: Seq<u8>| secret_key_ok(sk) && #[trigger] pubkey_of(sk) == pk@)
            && msg@.len() < 0x1_0000_0000) ==> r is Some,
{
    match ecies::encrypt(pk, msg) {
        Ok(ct) => Some(ct),
        Err(_) => None,
    }
}

/// Relies on ecies::decrypt: a pure function of the secret key and the
/// ciphertext, so its outcome is named and two calls agree.
#[verifier::external_body]
pub(crate) fn ecies_decrypt(sk: &[u8], ciphertext: &[u8]) -> (r: Option<Vec<u8>>)
    ensures
        match r {
            Some(m) => ecies_decrypt_of(sk@, ciphertext@) == Some(m@),
            None => ecies_decrypt_of(sk@, ciphertext@) is None,
        },
{
    match ecies::decrypt(sk, ciphertext) {
        Ok(m) => Some(m),
        Err(_) => None,
    }
}

/// Relies on rand::fill (thread-local CSPRNG): 32 bytes with no other
/// promise; two calls may differ.
#[verifier::external_body]
pub(crate) fn random_bytes_32() -> (r: Vec<u8>)
    ensures
        r@.len() == 32,
{
    let mut buf = [0u8; 32];
    rand::fill(&mut buf[..]);
    buf.to_vec()
}

/// Relies on rand::distr::Alphanumeric::sample_string: a string of exactly
/// `len` random ASCII alphanumeric characters; two calls may differ.
#[verifier::external_body]
pub(crate) fn random_alphanumeric(len: usize) -> (r: String)
    ensures
        r@.len() == len,
        r.is_ascii(),
{
    rand::distr::Alphanumeric.sample_string(&mut rand::rng(), len)
}

/// Relies on alloc::string::String::from_utf8: ASCII bytes decode to the
/// string whose characters are those bytes.
#[verifier::external_body]
pub(crate) fn string_from_ascii(bytes: Vec<u8>) -> (r: Option<String>)
    requires
        forall|i: int| 0 <= i < bytes@.len() ==> bytes@[i] < 128,
    ensures
        match r {
            Some(s) => s@ == bytes@.map_values(|b: u8| b as char) && s.is_ascii(),
            None => false,
        },
{
    match String::from_utf8(bytes) {
        Ok(s) => Some(s),
        Err(_) => None,
    }
}

} // verus!
