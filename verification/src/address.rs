//! Addresses: cryptographic identities and contacts, their derivation from
//! the ripe, and their storage record form.
//!
//! All derived fields are pure functions of the 20-byte ripe: the checksum
//! is SHA-512(SHA-512(ripe)); its first half is the key that opens pubkey
//! envelopes addressed by the tag, its second half is the tag; the display
//! string is base58 of the ripe.
use vstd::prelude::*;

use crate::crypto::{
    base58_decode, base58_decode_of, base58_encode, base58_of, pubkey_from_secret, pubkey_of,
    random_bytes_32, ripemd160, ripemd160_of, secret_key_check, secret_key_ok, sha512, sha512_of,
};
use crate::messages::clone_bytes;

verus! {

broadcast use vstd::std_specs::bits::axiom_u8_leading_zeros;

/// The double-SHA-512 checksum of a ripe.
pub open spec fn spec_checksum(ripe: Seq<u8>) -> Seq<u8> {
    sha512_of(sha512_of(ripe))
}

/// The tag: bytes 32..64 of the checksum.
pub open spec fn spec_tag(ripe: Seq<u8>) -> Seq<u8> {
    spec_checksum(ripe).subrange(32, 64)
}

/// The secret key that opens pubkey envelopes addressed by the tag:
/// bytes 0..32 of the checksum.
pub open spec fn spec_public_decryption_key(ripe: Seq<u8>) -> Seq<u8> {
    spec_checksum(ripe).subrange(0, 32)
}

/// An identity or contact: a ripe with its derived fields and whatever key
/// material is known.
pub struct Address {
    pub ripe: Vec<u8>,
    pub string_repr: String,
    pub tag: Vec<u8>,
    pub public_decryption_key: Vec<u8>,
    pub public_signing_key: Option<Vec<u8>>,
    pub public_encryption_key: Option<Vec<u8>>,
    pub private_signing_key: Option<Vec<u8>>,
    pub private_encryption_key: Option<Vec<u8>>,
    pub label: String,
}

pub struct AddressView {
    pub ripe: Seq<u8>,
    pub string_repr: Seq<char>,
    pub tag: Seq<u8>,
    pub public_decryption_key: Seq<u8>,
    pub public_signing_key: Option<Seq<u8>>,
    pub public_encryption_key: Option<Seq<u8>>,
    pub private_signing_key: Option<Seq<u8>>,
    pub private_encryption_key: Option<Seq<u8>>,
    pub label: Seq<char>,
}

impl View for Address {
    type V = AddressView;

    open spec fn view(&self) -> AddressView {
        AddressView {
            ripe: self.ripe@,
            string_repr: self.string_repr@,
            tag: self.tag@,
            public_decryption_key: self.public_decryption_key@,
            public_signing_key: self.public_signing_key.deep_view(),
            public_encryption_key: self.public_encryption_key.deep_view(),
            private_signing_key: self.private_signing_key.deep_view(),
            private_encryption_key: self.private_encryption_key.deep_view(),
            label: self.label@,
        }
    }
}

/// The derived fields are the pure functions of the ripe.
pub open spec fn addr_derived(a: AddressView) -> bool {
    &&& a.tag == spec_tag(a.ripe)
    &&& a.public_decryption_key == spec_public_decryption_key(a.ripe)
    &&& a.string_repr == base58_of(a.ripe)
}

/// An identity: we hold both private keys.
pub open spec fn is_identity(a: AddressView) -> bool {
    a.private_signing_key is Some && a.private_encryption_key is Some
}

/// A contact: we hold at least both of the counterpart's public keys.
pub open spec fn is_contact(a: AddressView) -> bool {
    a.public_signing_key is Some && a.public_encryption_key is Some
}

/// Copy an optional byte vector, keeping its contents.
pub fn clone_opt_bytes(v: &Option<Vec<u8>>) -> (r: Option<Vec<u8>>)
    ensures
        r.deep_view() == v.deep_view(),
{
    match v {
        Some(b) => Some(clone_bytes(b)),
        None => None,
    }
}

impl Clone for Address {
    fn clone(&self) -> (r: Self)
        ensures
            r@ == self@,
    {
        let r = Address {
            ripe: clone_bytes(&self.ripe),
            string_repr: self.string_repr.clone(),
            tag: clone_bytes(&self.tag),
            public_decryption_key: clone_bytes(&self.public_decryption_key),
            public_signing_key: clone_opt_bytes(&self.public_signing_key),
            public_encryption_key: clone_opt_bytes(&self.public_encryption_key),
            private_signing_key: clone_opt_bytes(&self.private_signing_key),
            private_encryption_key: clone_opt_bytes(&self.private_encryption_key),
            label: self.label.clone(),
        };
        assert(r@ == self@);
        r
    }
}

impl Address {
    /// Build the skeleton address of a ripe: every derived field computed,
    /// no key material, no label.
    pub fn new(ripe: Vec<u8>) -> (r: Address)
        ensures
            r@.ripe == ripe@,
            addr_derived(r@),
            base58_decode_of(base58_of(ripe@)) == Some(ripe@),
            r@.public_signing_key is None,
            r@.public_encryption_key is None,
            r@.private_signing_key is None,
            r@.private_encryption_key is None,
            r@.label == Seq::<char>::empty(),
    {
        let checksum = sha512(sha512(ripe.as_slice()).as_slice());
        let mut public_decryption_key: Vec<u8> = Vec::new();
        let mut k: usize = 0;
        while k < 32
            invariant
                k <= 32,
                checksum@.len() == 64,
                checksum@ == spec_checksum(ripe@),
                public_decryption_key@ == checksum@.subrange(0, k as int),
            decreases 32 - k,
        {
            public_decryption_key.push(checksum[k]);
            assert(public_decryption_key@ =~= checksum@.subrange(0, k + 1));
            k = k + 1;
        }
        let mut tag: Vec<u8> = Vec::new();
        let mut t: usize = 32;
        while t < 64
            invariant
                32 <= t <= 64,
                checksum@.len() == 64,
                checksum@ == spec_checksum(ripe@),
                tag@ == checksum@.subrange(32, t as int),
            decreases 64 - t,
        {
            tag.push(checksum[t]);
            assert(tag@ =~= checksum@.subrange(32, t + 1));
            t = t + 1;
        }
        let string_repr = base58_encode(ripe.as_slice());
        Address {
            ripe,
            string_repr,
            tag,
            public_decryption_key,
            public_signing_key: None,
            public_encryption_key: None,
            private_signing_key: None,
            private_encryption_key: None,
            label: String::new(),
        }
    }

    /// Build a contact from its two serialised public keys: the ripe is
    /// RIPEMD-160 of SHA-512 of the two keys concatenated.
    pub fn with_public_key(public_signing_key: Vec<u8>, public_encryption_key: Vec<u8>) -> (r:
        Address)
        ensures
            r@.ripe == ripemd160_of(sha512_of(public_signing_key@ + public_encryption_key@)),
            r@.ripe.len() == 20,
            addr_derived(r@),
            base58_decode_of(r@.string_repr) == Some(r@.ripe),
            r@.public_signing_key == Some(public_signing_key@),
            r@.public_encryption_key == Some(public_encryption_key@),
            r@.private_signing_key is None,
            r@.private_encryption_key is None,
    {
        let mut keys = clone_bytes(&public_signing_key);
        crate::cbor::push_slice(&mut keys, public_encryption_key.as_slice());
        assert(keys@ =~= public_signing_key@ + public_encryption_key@);
        let ripe = ripemd160(sha512(keys.as_slice()).as_slice());
        let mut address = Address::new(ripe);
        address.public_signing_key = Some(public_signing_key);
        address.public_encryption_key = Some(public_encryption_key);
        address
    }

    /// Build an identity from its two private keys; fails exactly when one
    /// of them is not a valid secret key.
    pub fn with_private_key(private_signing_key: Vec<u8>, private_encryption_key: Vec<u8>) -> (r:
        Option<Address>)
        ensures
            match r {
                Some(a) => {
                    &&& secret_key_ok(private_signing_key@)
                    &&& secret_key_ok(private_encryption_key@)
                    &&& addr_derived(a@)
                    &&& base58_decode_of(a@.string_repr) == Some(a@.ripe)
                    &&& a@.ripe == ripemd160_of(
                        sha512_of(
                            pubkey_of(private_signing_key@) + pubkey_of(private_encryption_key@),
                        ),
                    )
                    &&& a@.public_signing_key == Some(pubkey_of(private_signing_key@))
                    &&& a@.public_encryption_key == Some(pubkey_of(private_encryption_key@))
                    &&& a@.private_signing_key == Some(private_signing_key@)
                    &&& a@.private_encryption_key == Some(private_encryption_key@)
                },
                None => !(secret_key_ok(private_signing_key@) && secret_key_ok(
                    private_encryption_key@,
                )),
            },
    {
        let psk = match pubkey_from_secret(private_signing_key.as_slice()) {
            Some(k) => k,
            None => return None,
        };
        let pek = match pubkey_from_secret(private_encryption_key.as_slice()) {
            Some(k) => k,
            None => return None,
        };
        let mut address = Address::with_public_key(psk, pek);
        address.private_signing_key = Some(private_signing_key);
        address.private_encryption_key = Some(private_encryption_key);
        Some(address)
    }

    /// Build the skeleton address a user-supplied display string names;
    /// fails exactly when the string is not valid base58.
    pub fn with_string_repr(address: &str) -> (r: Option<Address>)
        ensures
            match r {
                Some(a) => {
                    &&& base58_decode_of(address@) == Some(a@.ripe)
                    &&& base58_decode_of(a@.string_repr) == Some(a@.ripe)
                    &&& a@.string_repr == address@
                    &&& addr_derived(a@)
                    &&& a@.public_signing_key is None
                    &&& a@.public_encryption_key is None
                    &&& a@.private_signing_key is None
                    &&& a@.private_encryption_key is None
                    &&& a@.label == Seq::<char>::empty()
                },
                None => base58_decode_of(address@) is None,
            },
    {
        match base58_decode(address) {
            Some(ripe) => Some(Address::new(ripe)),
            None => None,
        }
    }

    /// Generate a fresh identity from random keys, retrying a few times if
    /// the random bytes do not form valid secret keys (which almost never
    /// happens); fails only if every try was invalid.
    pub fn generate() -> (r: Option<Address>)
        ensures
            match r {
                Some(a) => addr_derived(a@) && is_identity(a@) && is_contact(a@)
                    && base58_decode_of(a@.string_repr) == Some(a@.ripe),
                None => true,
            },
    {
        let mut tries: u8 = 0;
        while tries < 16
            invariant
                tries <= 16,
            decreases 16 - tries,
        {
            let ssk = random_bytes_32();
            let sek = random_bytes_32();
            if secret_key_check(ssk.as_slice()) && secret_key_check(sek.as_slice()) {
                return Address::with_private_key(ssk, sek);
            }
            tries = tries + 1;
        }
        None
    }
}

/// Number of leading zero bits of `bytes`: all bits of the zero bytes at the
/// front, plus the leading zero bits of the first non-zero byte.
pub open spec fn spec_leading_zero_bits(bytes: Seq<u8>) -> int
    decreases bytes.len(),
{
    if bytes.len() == 0 {
        0
    } else if bytes[0] == 0 {
        8 + spec_leading_zero_bits(bytes.skip(1))
    } else {
        vstd::std_specs::bits::u8_leading_zeros(bytes[0]) as int
    }
}

/// Count the leading zero bits of `bytes`, stopping at the first non-zero
/// byte.
pub fn get_leading(bytes: &[u8]) -> (zeros: u32)
    requires
        bytes@.len() * 8 <= u32::MAX,
    ensures
        zeros == spec_leading_zero_bits(bytes@),
{
    let mut zeros: u32 = 0;
    let mut i: usize = 0;
    assert(bytes@.skip(0) =~= bytes@);
    while i < bytes.len()
        invariant
            i <= bytes@.len(),
            bytes@.len() * 8 <= u32::MAX,
            zeros == i * 8,
            spec_leading_zero_bits(bytes@) == zeros + spec_leading_zero_bits(bytes@.skip(i as int)),
            forall|j: int| 0 <= j < i ==> bytes@[j] == 0,
        decreases bytes@.len() - i,
    {
        let byte = bytes[i];
        assert(bytes@.skip(i as int)[0] == bytes@[i as int]);
        zeros = zeros + byte.leading_zeros();
        if byte != 0 {
            return zeros;
        }
        assert(bytes@.skip(i as int).skip(1) =~= bytes@.skip(i + 1));
        i = i + 1;
    }
    assert(bytes@.skip(i as int) =~= Seq::<u8>::empty());
    zeros
}

/// The stored row form of an address: strings and raw key bytes, keyed by
/// the display string.
pub struct AddressRecord {
    pub address: String,
    pub tag: String,
    pub public_signing_key: Option<Vec<u8>>,
    pub public_encryption_key: Option<Vec<u8>>,
    pub private_signing_key: Option<Vec<u8>>,
    pub private_encryption_key: Option<Vec<u8>>,
    pub label: Option<String>,
}

pub struct AddressRecordView {
    pub address: Seq<char>,
    pub tag: Seq<char>,
    pub public_signing_key: Option<Seq<u8>>,
    pub public_encryption_key: Option<Seq<u8>>,
    pub private_signing_key: Option<Seq<u8>>,
    pub private_encryption_key: Option<Seq<u8>>,
    pub label: Option<Seq<char>>,
}

impl View for AddressRecord {
    type V = AddressRecordView;

    open spec fn view(&self) -> AddressRecordView {
        AddressRecordView {
            address: self.address@,
            tag: self.tag@,
            public_signing_key: self.public_signing_key.deep_view(),
            public_encryption_key: self.public_encryption_key.deep_view(),
            private_signing_key: self.private_signing_key.deep_view(),
            private_encryption_key: self.private_encryption_key.deep_view(),
            label: self.label.deep_view(),
        }
    }
}

/// The row an address is stored as.
pub open spec fn spec_serialize_address(a: AddressView) -> AddressRecordView {
    AddressRecordView {
        address: a.string_repr,
        tag: base58_of(a.tag),
        public_signing_key: a.public_signing_key,
        public_encryption_key: a.public_encryption_key,
        private_signing_key: a.private_signing_key,
        private_encryption_key: a.private_encryption_key,
        label: if a.label.len() == 0 {
            None
        } else {
            Some(a.label)
        },
    }
}

/// The address a stored row denotes: the ripe is decoded from the key
/// column and the derived fields recomputed; fails exactly when the key
/// column is not base58.
pub open spec fn spec_deserialize_address(r: AddressRecordView) -> Option<AddressView> {
    match base58_decode_of(r.address) {
        Some(ripe) => Some(
            AddressView {
                ripe,
                string_repr: base58_of(ripe),
                tag: spec_tag(ripe),
                public_decryption_key: spec_public_decryption_key(ripe),
                public_signing_key: r.public_signing_key,
                public_encryption_key: r.public_encryption_key,
                private_signing_key: r.private_signing_key,
                private_encryption_key: r.private_encryption_key,
                label: match r.label {
                    Some(l) => l,
                    None => Seq::empty(),
                },
            },
        ),
        None => None,
    }
}

/// Serialise an address to its stored row.
pub fn serialize_address(a: &Address) -> (r: AddressRecord)
    ensures
        r@ == spec_serialize_address(a@),
{
    AddressRecord {
        address: a.string_repr.clone(),
        tag: base58_encode(a.tag.as_slice()),
        public_signing_key: clone_opt_bytes(&a.public_signing_key),
        public_encryption_key: clone_opt_bytes(&a.public_encryption_key),
        private_signing_key: clone_opt_bytes(&a.private_signing_key),
        private_encryption_key: clone_opt_bytes(&a.private_encryption_key),
        label: if a.label.as_str().is_empty() {
            None
        } else {
            Some(a.label.clone())
        },
    }
}

/// Rebuild an address from its stored row.
pub fn deserialize_address(r: &AddressRecord) -> (a: Option<Address>)
    ensures
        a matches Some(addr) ==> Some(addr@) == spec_deserialize_address(r@),
        a is None <==> spec_deserialize_address(r@) is None,
{
    let mut address = match Address::with_string_repr(r.address.as_str()) {
        Some(a) => a,
        None => return None,
    };
    address.public_signing_key = clone_opt_bytes(&r.public_signing_key);
    address.public_encryption_key = clone_opt_bytes(&r.public_encryption_key);
    address.private_signing_key = clone_opt_bytes(&r.private_signing_key);
    address.private_encryption_key = clone_opt_bytes(&r.private_encryption_key);
    address.label = match &r.label {
        Some(l) => l.clone(),
        None => String::new(),
    };
    Some(address)
}

/// Round-trip identity: an address whose derived fields follow from its
/// ripe, stored as a row and rebuilt, keeps its ripe, tag, every key field,
/// and its display string.
pub proof fn lemma_address_round_trip(a: AddressView)
    requires
        addr_derived(a),
        base58_decode_of(base58_of(a.ripe)) == Some(a.ripe),
    ensures
        ({
            let back = spec_deserialize_address(spec_serialize_address(a));
            &&& back is Some
            &&& back->0.ripe == a.ripe
            &&& back->0.tag == a.tag
            &&& back->0.string_repr == a.string_repr
            &&& back->0.public_decryption_key == a.public_decryption_key
            &&& back->0.public_signing_key == a.public_signing_key
            &&& back->0.public_encryption_key == a.public_encryption_key
            &&& back->0.private_signing_key == a.private_signing_key
            &&& back->0.private_encryption_key == a.private_encryption_key
        }),
{
}

} // verus!
