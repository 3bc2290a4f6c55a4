//! The wire data model: objects, their four payload kinds, the network
//! message envelope, and the unencrypted payloads carried inside ECIES
//! ciphertexts — with their canonical CBOR encoding.
//!
//! Every value is encoded as an externally tagged CBOR map with ASCII text
//! keys in a fixed order; decoders accept exactly the encoders' output.
use vstd::prelude::*;

use crate::cbor::{
    push_bytes, push_int, push_map_header, push_text, push_uint, spec_enc_bytes, spec_enc_int,
    spec_enc_map_header, spec_enc_text, spec_enc_uint,
};
use crate::crypto::{sha256, sha256_of};
use vstd::string::StringSliceAdditionalSpecFns;

verus! {

/// The four payload kinds an inventory object can carry.
pub enum ObjectKind {
    Msg { encrypted: Vec<u8> },
    Broadcast { tag: Vec<u8>, encrypted: Vec<u8> },
    Getpubkey { tag: Vec<u8> },
    Pubkey { tag: Vec<u8>, encrypted: Vec<u8> },
}

/// The mathematical value of an `ObjectKind`.
pub enum KindView {
    Msg { encrypted: Seq<u8> },
    Broadcast { tag: Seq<u8>, encrypted: Seq<u8> },
    Getpubkey { tag: Seq<u8> },
    Pubkey { tag: Seq<u8>, encrypted: Seq<u8> },
}

impl View for ObjectKind {
    type V = KindView;

    open spec fn view(&self) -> KindView {
        match self {
            ObjectKind::Msg { encrypted } => KindView::Msg { encrypted: encrypted@ },
            ObjectKind::Broadcast { tag, encrypted } => KindView::Broadcast {
                tag: tag@,
                encrypted: encrypted@,
            },
            ObjectKind::Getpubkey { tag } => KindView::Getpubkey { tag: tag@ },
            ObjectKind::Pubkey { tag, encrypted } => KindView::Pubkey {
                tag: tag@,
                encrypted: encrypted@,
            },
        }
    }
}

/// The object type tag persisted with each inventory row.
pub open spec fn spec_object_type(k: KindView) -> u8 {
    match k {
        KindView::Msg { .. } => 0,
        KindView::Broadcast { .. } => 1,
        KindView::Getpubkey { .. } => 2,
        KindView::Pubkey { .. } => 3,
    }
}

impl ObjectKind {
    pub fn object_type(&self) -> (t: u8)
        ensures
            t == spec_object_type(self@),
    {
        match self {
            ObjectKind::Msg { .. } => 0,
            ObjectKind::Broadcast { .. } => 1,
            ObjectKind::Getpubkey { .. } => 2,
            ObjectKind::Pubkey { .. } => 3,
        }
    }
}

/// Copy a byte vector, keeping its contents.
pub fn clone_bytes(v: &Vec<u8>) -> (r: Vec<u8>)
    ensures
        r@ == v@,
{
    let mut r: Vec<u8> = Vec::new();
    let mut k: usize = 0;
    while k < v.len()
        invariant
            k <= v@.len(),
            r@ == v@.subrange(0, k as int),
        decreases v@.len() - k,
    {
        r.push(v[k]);
        assert(r@ =~= v@.subrange(0, k + 1));
        k = k + 1;
    }
    assert(r@ =~= v@);
    r
}

impl Clone for ObjectKind {
    fn clone(&self) -> (r: Self)
        ensures
            r@ == self@,
    {
        match self {
            ObjectKind::Msg { encrypted } => ObjectKind::Msg { encrypted: clone_bytes(encrypted) },
            ObjectKind::Broadcast { tag, encrypted } => ObjectKind::Broadcast {
                tag: clone_bytes(tag),
                encrypted: clone_bytes(encrypted),
            },
            ObjectKind::Getpubkey { tag } => ObjectKind::Getpubkey { tag: clone_bytes(tag) },
            ObjectKind::Pubkey { tag, encrypted } => ObjectKind::Pubkey {
                tag: clone_bytes(tag),
                encrypted: clone_bytes(encrypted),
            },
        }
    }
}

/// Key strings of the kind encoding.
pub open spec fn key_msg() -> Seq<char> {
    seq!['M', 's', 'g']
}

pub open spec fn key_broadcast() -> Seq<char> {
    seq!['B', 'r', 'o', 'a', 'd', 'c', 'a', 's', 't']
}

pub open spec fn key_getpubkey() -> Seq<char> {
    seq!['G', 'e', 't', 'p', 'u', 'b', 'k', 'e', 'y']
}

pub open spec fn key_pubkey() -> Seq<char> {
    seq!['P', 'u', 'b', 'k', 'e', 'y']
}

pub open spec fn key_tag() -> Seq<char> {
    seq!['t', 'a', 'g']
}

pub open spec fn key_encrypted() -> Seq<char> {
    seq!['e', 'n', 'c', 'r', 'y', 'p', 't', 'e', 'd']
}

/// The canonical encoding of an object kind: a one-entry map from the
/// variant name to a map of its fields, in declaration order.
pub open spec fn spec_enc_kind(k: KindView) -> Seq<u8> {
    match k {
        KindView::Msg { encrypted } => spec_enc_map_header(1) + spec_enc_text(key_msg())
            + spec_enc_map_header(1) + spec_enc_text(key_encrypted()) + spec_enc_bytes(encrypted),
        KindView::Broadcast { tag, encrypted } => spec_enc_map_header(1) + spec_enc_text(
            key_broadcast(),
        ) + spec_enc_map_header(2) + spec_enc_text(key_tag()) + spec_enc_bytes(tag)
            + spec_enc_text(key_encrypted()) + spec_enc_bytes(encrypted),
        KindView::Getpubkey { tag } => spec_enc_map_header(1) + spec_enc_text(key_getpubkey())
            + spec_enc_map_header(1) + spec_enc_text(key_tag()) + spec_enc_bytes(tag),
        KindView::Pubkey { tag, encrypted } => spec_enc_map_header(1) + spec_enc_text(key_pubkey())
            + spec_enc_map_header(2) + spec_enc_text(key_tag()) + spec_enc_bytes(tag)
            + spec_enc_text(key_encrypted()) + spec_enc_bytes(encrypted),
    }
}

/// Append the encoding of `k` to `out`.
pub fn push_kind(out: &mut Vec<u8>, k: &ObjectKind)
    ensures
        final(out)@ == old(out)@ + spec_enc_kind(k@),
{
    match k {
        ObjectKind::Msg { encrypted } => {
            push_map_header(out, 1);
            proof {
                reveal_strlit("Msg");
                reveal_strlit("encrypted");
                assert("Msg"@ =~= key_msg());
                assert("encrypted"@ =~= key_encrypted());
            }
            push_text(out, "Msg");
            push_map_header(out, 1);
            push_text(out, "encrypted");
            push_bytes(out, encrypted.as_slice());
            assert(out@ =~= old(out)@ + spec_enc_kind(k@));
        },
        ObjectKind::Broadcast { tag, encrypted } => {
            push_map_header(out, 1);
            proof {
                reveal_strlit("Broadcast");
                reveal_strlit("tag");
                reveal_strlit("encrypted");
                assert("Broadcast"@ =~= key_broadcast());
                assert("tag"@ =~= key_tag());
                assert("encrypted"@ =~= key_encrypted());
            }
            push_text(out, "Broadcast");
            push_map_header(out, 2);
            push_text(out, "tag");
            push_bytes(out, tag.as_slice());
            push_text(out, "encrypted");
            push_bytes(out, encrypted.as_slice());
            assert(out@ =~= old(out)@ + spec_enc_kind(k@));
        },
        ObjectKind::Getpubkey { tag } => {
            push_map_header(out, 1);
            proof {
                reveal_strlit("Getpubkey");
                reveal_strlit("tag");
                assert("Getpubkey"@ =~= key_getpubkey());
                assert("tag"@ =~= key_tag());
            }
            push_text(out, "Getpubkey");
            push_map_header(out, 1);
            push_text(out, "tag");
            push_bytes(out, tag.as_slice());
            assert(out@ =~= old(out)@ + spec_enc_kind(k@));
        },
        ObjectKind::Pubkey { tag, encrypted } => {
            push_map_header(out, 1);
            proof {
                reveal_strlit("Pubkey");
                reveal_strlit("tag");
                reveal_strlit("encrypted");
                assert("Pubkey"@ =~= key_pubkey());
                assert("tag"@ =~= key_tag());
                assert("encrypted"@ =~= key_encrypted());
            }
            push_text(out, "Pubkey");
            push_map_header(out, 2);
            push_text(out, "tag");
            push_bytes(out, tag.as_slice());
            push_text(out, "encrypted");
            push_bytes(out, encrypted.as_slice());
            assert(out@ =~= old(out)@ + spec_enc_kind(k@));
        },
    }
}

/// The encoding of `k` as a fresh vector.
pub fn encode_kind(k: &ObjectKind) -> (r: Vec<u8>)
    ensures
        r@ == spec_enc_kind(k@),
{
    let mut out: Vec<u8> = Vec::new();
    push_kind(&mut out, k);
    assert(out@ =~= spec_enc_kind(k@));
    out
}

/// The 8 little-endian bytes of an `i64`, two's complement.
pub open spec fn spec_le(n: nat, width: nat) -> Seq<u8>
    decreases width,
{
    if width == 0 {
        Seq::empty()
    } else {
        seq![(n % 256) as u8] + spec_le(n / 256, (width - 1) as nat)
    }
}

/// The two's-complement value of an `i64` as a natural number.
pub open spec fn i64_as_u64(e: int) -> nat {
    if e >= 0 {
        e as nat
    } else {
        (e + 0x1_0000_0000_0000_0000) as nat
    }
}

pub open spec fn spec_i64_le_bytes(e: int) -> Seq<u8> {
    spec_le(i64_as_u64(e), 8)
}

/// Append the `width` low little-endian bytes of `n`.
pub fn push_le(out: &mut Vec<u8>, n: u64, width: u8)
    requires
        width <= 8,
    ensures
        final(out)@ == old(out)@ + spec_le(n as nat, width as nat),
    decreases width,
{
    if width == 0 {
        assert(out@ =~= old(out)@ + spec_le(n as nat, 0));
    } else {
        out.push((n % 256) as u8);
        push_le(out, n / 256, width - 1);
        assert(out@ =~= old(out)@ + spec_le(n as nat, width as nat));
    }
}

/// Append the 8 little-endian bytes of `e`, two's complement.
pub fn push_i64_le(out: &mut Vec<u8>, e: i64)
    ensures
        final(out)@ == old(out)@ + spec_i64_le_bytes(e as int),
{
    let u: u64 = if e >= 0 {
        e as u64
    } else {
        u64::MAX - ((-(e + 1)) as u64)
    };
    assert(u as nat == i64_as_u64(e as int));
    push_le(out, u, 8);
}

/// The unit of the inventory: a signed, PoW-sealed envelope around one of
/// the four payload kinds.
pub struct Object {
    /// SHA-256 over `expires (LE) ‖ signature ‖ cbor(kind)`.
    pub hash: Vec<u8>,
    /// Big-endian proof-of-work nonce; empty until PoW completes.
    pub nonce: Vec<u8>,
    /// Expiry, Unix seconds.
    pub expires: i64,
    /// secp256k1 signature over `hash` by the sender's signing key.
    pub signature: Vec<u8>,
    pub kind: ObjectKind,
    pub nonce_trials_per_byte: u32,
    pub extra_bytes: u32,
}

pub struct ObjectView {
    pub hash: Seq<u8>,
    pub nonce: Seq<u8>,
    pub expires: int,
    pub signature: Seq<u8>,
    pub kind: KindView,
    pub nonce_trials_per_byte: u32,
    pub extra_bytes: u32,
}

impl View for Object {
    type V = ObjectView;

    open spec fn view(&self) -> ObjectView {
        ObjectView {
            hash: self.hash@,
            nonce: self.nonce@,
            expires: self.expires as int,
            signature: self.signature@,
            kind: self.kind@,
            nonce_trials_per_byte: self.nonce_trials_per_byte,
            extra_bytes: self.extra_bytes,
        }
    }
}

impl Clone for Object {
    fn clone(&self) -> (r: Self)
        ensures
            r@ == self@,
    {
        let r = Object {
            hash: clone_bytes(&self.hash),
            nonce: clone_bytes(&self.nonce),
            expires: self.expires,
            signature: clone_bytes(&self.signature),
            kind: self.kind.clone(),
            nonce_trials_per_byte: self.nonce_trials_per_byte,
            extra_bytes: self.extra_bytes,
        };
        assert(r@ == self@);
        r
    }
}

/// The network-wide minimum difficulty parameters, used as defaults.
pub const NETWORK_MIN_NONCE_TRIALS_PER_BYTE: u32 = 1000;

pub const NETWORK_MIN_EXTRA_BYTES: u32 = 1000;

/// The bytes the object hash is computed over.
pub open spec fn spec_hash_input(expires: int, signature: Seq<u8>, kind: KindView) -> Seq<u8> {
    spec_i64_le_bytes(expires) + signature + spec_enc_kind(kind)
}

/// The object hash: SHA-256 of the expiry (little-endian), the signature,
/// and the encoded kind, in that order.
pub open spec fn spec_object_hash(expires: int, signature: Seq<u8>, kind: KindView) -> Seq<u8> {
    sha256_of(spec_hash_input(expires, signature, kind))
}

impl Object {
    /// Build an object from its parts, computing its hash; the nonce starts
    /// empty and the difficulty parameters at the network defaults.
    pub fn new(expires: i64, signature: Vec<u8>, kind: ObjectKind) -> (r: Object)
        ensures
            r@.hash == spec_object_hash(expires as int, signature@, kind@),
            r@.hash.len() == 32,
            r@.nonce == Seq::<u8>::empty(),
            r@.expires == expires as int,
            r@.signature == signature@,
            r@.kind == kind@,
            r@.nonce_trials_per_byte == NETWORK_MIN_NONCE_TRIALS_PER_BYTE,
            r@.extra_bytes == NETWORK_MIN_EXTRA_BYTES,
    {
        let mut hash_data: Vec<u8> = Vec::new();
        push_i64_le(&mut hash_data, expires);
        crate::cbor::push_slice(&mut hash_data, signature.as_slice());
        push_kind(&mut hash_data, &kind);
        assert(hash_data@ =~= spec_hash_input(expires as int, signature@, kind@));
        let hash = sha256(hash_data.as_slice());
        Object {
            hash,
            nonce: Vec::new(),
            expires,
            signature,
            kind,
            nonce_trials_per_byte: NETWORK_MIN_NONCE_TRIALS_PER_BYTE,
            extra_bytes: NETWORK_MIN_EXTRA_BYTES,
        }
    }
}

/// The four wire verbs.
#[derive(Clone, Copy, PartialEq, Eq, Structural, Debug)]
pub enum MessageCommand {
    GetData,
    Inv,
    ReqInv,
    Objects,
}

/// Encoding tag of the message body carried in an `UnencryptedMsg`.
#[derive(Clone, Copy, PartialEq, Eq, Structural, Debug)]
pub enum MsgEncoding {
    Ignore,
    Trivial,
    Simple,
    Extended,
}

/// The numeric value an encoding tag is serialised as.
pub open spec fn spec_encoding_value(e: MsgEncoding) -> u8 {
    match e {
        MsgEncoding::Ignore => 0,
        MsgEncoding::Trivial => 1,
        MsgEncoding::Simple => 2,
        MsgEncoding::Extended => 3,
    }
}

/// The hash list a peer advertises or requests.
pub type InventoryVector = Vec<String>;

/// The payload of a network message.
pub enum MessagePayload {
    GetData { inventory: InventoryVector },
    Inv { inventory: InventoryVector },
    Objects { objects: Vec<Object> },
    Empty,
}

pub enum PayloadView {
    GetData { inventory: Seq<Seq<char>> },
    Inv { inventory: Seq<Seq<char>> },
    Objects { objects: Seq<ObjectView> },
    Empty,
}

impl View for MessagePayload {
    type V = PayloadView;

    open spec fn view(&self) -> PayloadView {
        match self {
            MessagePayload::GetData { inventory } => PayloadView::GetData {
                inventory: inventory.deep_view(),
            },
            MessagePayload::Inv { inventory } => PayloadView::Inv {
                inventory: inventory.deep_view(),
            },
            MessagePayload::Objects { objects } => PayloadView::Objects {
                objects: Seq::new(objects@.len(), |k: int| objects@[k]@),
            },
            MessagePayload::Empty => PayloadView::Empty,
        }
    }
}

/// A command and its payload: the unit of gossip and request/response.
pub struct NetworkMessage {
    pub command: MessageCommand,
    pub payload: MessagePayload,
}

pub struct NetworkMessageView {
    pub command: MessageCommand,
    pub payload: PayloadView,
}

impl View for NetworkMessage {
    type V = NetworkMessageView;

    open spec fn view(&self) -> NetworkMessageView {
        NetworkMessageView { command: self.command, payload: self.payload@ }
    }
}

/// The plaintext of a Msg object: the mail itself with the sender's keys.
pub struct UnencryptedMsg {
    pub behavior_bitfield: u32,
    pub sender_ripe: String,
    pub destination_ripe: String,
    pub encoding: MsgEncoding,
    pub message: Vec<u8>,
    pub public_signing_key: Vec<u8>,
    pub public_encryption_key: Vec<u8>,
}

pub struct UnencryptedMsgView {
    pub behavior_bitfield: u32,
    pub sender_ripe: Seq<char>,
    pub destination_ripe: Seq<char>,
    pub encoding: MsgEncoding,
    pub message: Seq<u8>,
    pub public_signing_key: Seq<u8>,
    pub public_encryption_key: Seq<u8>,
}

impl View for UnencryptedMsg {
    type V = UnencryptedMsgView;

    open spec fn view(&self) -> UnencryptedMsgView {
        UnencryptedMsgView {
            behavior_bitfield: self.behavior_bitfield,
            sender_ripe: self.sender_ripe@,
            destination_ripe: self.destination_ripe@,
            encoding: self.encoding,
            message: self.message@,
            public_signing_key: self.public_signing_key@,
            public_encryption_key: self.public_encryption_key@,
        }
    }
}

/// The plaintext of a Pubkey object: the owner's two public keys.
pub struct UnencryptedPubkey {
    pub behaviour_bitfield: u32,
    pub public_signing_key: Vec<u8>,
    pub public_encryption_key: Vec<u8>,
}

pub struct UnencryptedPubkeyView {
    pub behaviour_bitfield: u32,
    pub public_signing_key: Seq<u8>,
    pub public_encryption_key: Seq<u8>,
}

impl View for UnencryptedPubkey {
    type V = UnencryptedPubkeyView;

    open spec fn view(&self) -> UnencryptedPubkeyView {
        UnencryptedPubkeyView {
            behaviour_bitfield: self.behaviour_bitfield,
            public_signing_key: self.public_signing_key@,
            public_encryption_key: self.public_encryption_key@,
        }
    }
}

pub open spec fn key_hash() -> Seq<char> {
    seq!['h', 'a', 's', 'h']
}

pub open spec fn key_nonce() -> Seq<char> {
    seq!['n', 'o', 'n', 'c', 'e']
}

pub open spec fn key_expires() -> Seq<char> {
    seq!['e', 'x', 'p', 'i', 'r', 'e', 's']
}

pub open spec fn key_signature() -> Seq<char> {
    seq!['s', 'i', 'g', 'n', 'a', 't', 'u', 'r', 'e']
}

pub open spec fn key_kind() -> Seq<char> {
    seq!['k', 'i', 'n', 'd']
}

pub open spec fn key_nonce_trials() -> Seq<char> {
    seq![
        'n', 'o', 'n', 'c', 'e', '_', 't', 'r', 'i', 'a', 'l', 's', '_', 'p', 'e', 'r', '_', 'b',
        'y', 't', 'e',
    ]
}

pub open spec fn key_extra_bytes() -> Seq<char> {
    seq!['e', 'x', 't', 'r', 'a', '_', 'b', 'y', 't', 'e', 's']
}

/// The canonical encoding of a whole object: a seven-entry map in field
/// order.
pub open spec fn spec_enc_object(o: ObjectView) -> Seq<u8> {
    spec_enc_map_header(7) + spec_enc_text(key_hash()) + spec_enc_bytes(o.hash) + spec_enc_text(
        key_nonce(),
    ) + spec_enc_bytes(o.nonce) + spec_enc_text(key_expires()) + spec_enc_int(o.expires)
        + spec_enc_text(key_signature()) + spec_enc_bytes(o.signature) + spec_enc_text(key_kind())
        + spec_enc_kind(o.kind) + spec_enc_text(key_nonce_trials()) + spec_enc_uint(
        o.nonce_trials_per_byte as nat,
    ) + spec_enc_text(key_extra_bytes()) + spec_enc_uint(o.extra_bytes as nat)
}

/// Append the encoding of `o` to `out`.
#[verifier::rlimit(100)]
pub fn push_object(out: &mut Vec<u8>, o: &Object)
    ensures
        final(out)@ == old(out)@ + spec_enc_object(o@),
{
    push_map_header(out, 7);
    proof {
        reveal_strlit("hash");
        reveal_strlit("nonce");
        reveal_strlit("expires");
        reveal_strlit("signature");
        reveal_strlit("kind");
        reveal_strlit("nonce_trials_per_byte");
        reveal_strlit("extra_bytes");
        assert("hash"@ =~= key_hash());
        assert("nonce"@ =~= key_nonce());
        assert("expires"@ =~= key_expires());
        assert("signature"@ =~= key_signature());
        assert("kind"@ =~= key_kind());
        assert("nonce_trials_per_byte"@ =~= key_nonce_trials());
        assert("extra_bytes"@ =~= key_extra_bytes());
    }
    push_text(out, "hash");
    push_bytes(out, o.hash.as_slice());
    push_text(out, "nonce");
    push_bytes(out, o.nonce.as_slice());
    push_text(out, "expires");
    push_int(out, o.expires);
    push_text(out, "signature");
    push_bytes(out, o.signature.as_slice());
    push_text(out, "kind");
    push_kind(out, &o.kind);
    push_text(out, "nonce_trials_per_byte");
    push_uint(out, o.nonce_trials_per_byte as u64);
    push_text(out, "extra_bytes");
    push_uint(out, o.extra_bytes as u64);
    assert(out@ =~= old(out)@ + spec_enc_object(o@));
}

pub open spec fn key_command() -> Seq<char> {
    seq!['c', 'o', 'm', 'm', 'a', 'n', 'd']
}

pub open spec fn key_payload() -> Seq<char> {
    seq!['p', 'a', 'y', 'l', 'o', 'a', 'd']
}

pub open spec fn key_getdata() -> Seq<char> {
    seq!['G', 'e', 't', 'D', 'a', 't', 'a']
}

pub open spec fn key_inv() -> Seq<char> {
    seq!['I', 'n', 'v']
}

pub open spec fn key_reqinv() -> Seq<char> {
    seq!['R', 'e', 'q', 'I', 'n', 'v']
}

pub open spec fn key_objects_tag() -> Seq<char> {
    seq!['O', 'b', 'j', 'e', 'c', 't', 's']
}

pub open spec fn key_none() -> Seq<char> {
    seq!['N', 'o', 'n', 'e']
}

pub open spec fn key_inventory() -> Seq<char> {
    seq!['i', 'n', 'v', 'e', 'n', 't', 'o', 'r', 'y']
}

pub open spec fn key_objects_field() -> Seq<char> {
    seq!['o', 'b', 'j', 'e', 'c', 't', 's']
}

/// The concatenated encodings of a sequence of text strings.
pub open spec fn spec_enc_text_seq(ss: Seq<Seq<char>>) -> Seq<u8>
    decreases ss.len(),
{
    if ss.len() == 0 {
        Seq::empty()
    } else {
        spec_enc_text(ss[0]) + spec_enc_text_seq(ss.skip(1))
    }
}

pub proof fn lemma_text_seq_snoc(ss: Seq<Seq<char>>, x: Seq<char>)
    ensures
        spec_enc_text_seq(ss.push(x)) == spec_enc_text_seq(ss) + spec_enc_text(x),
    decreases ss.len(),
{
    if ss.len() == 0 {
        assert(ss.push(x).skip(1) =~= Seq::<Seq<char>>::empty());
        assert(ss.push(x)[0] == x);
        assert(spec_enc_text_seq(Seq::<Seq<char>>::empty()) == Seq::<u8>::empty());
        assert(spec_enc_text_seq(ss.push(x)) =~= spec_enc_text_seq(ss) + spec_enc_text(x));
    } else {
        assert(ss.push(x).skip(1) =~= ss.skip(1).push(x));
        lemma_text_seq_snoc(ss.skip(1), x);
        let a = spec_enc_text(ss[0]);
        let b = spec_enc_text_seq(ss.skip(1));
        let c = spec_enc_text(x);
        assert(ss.push(x)[0] == ss[0]);
        assert(spec_enc_text_seq(ss.push(x)) == a + (b + c));
        assert(a + (b + c) =~= (a + b) + c);
    }
}

/// All strings of an inventory vector are ASCII (base58 hashes are).
pub open spec fn inv_ascii(ss: Seq<Seq<char>>) -> bool {
    forall|k: int| 0 <= k < ss.len() ==> vstd::utf8::is_ascii_chars(#[trigger] ss[k])
}

/// The encoding of a hash list: an array of text strings.
pub open spec fn spec_enc_inventory(ss: Seq<Seq<char>>) -> Seq<u8> {
    crate::cbor::spec_enc_array_header(ss.len()) + spec_enc_text_seq(ss)
}

/// Append the encoding of a hash list.
pub fn push_inventory(out: &mut Vec<u8>, ss: &Vec<String>)
    requires
        inv_ascii(ss.deep_view()),
    ensures
        final(out)@ == old(out)@ + spec_enc_inventory(ss.deep_view()),
{
    crate::cbor::push_array_header(out, ss.len() as u64);
    let ghost base = out@;
    let mut k: usize = 0;
    while k < ss.len()
        invariant
            k <= ss@.len(),
            inv_ascii(ss.deep_view()),
            out@ == base + spec_enc_text_seq(ss.deep_view().take(k as int)),
        decreases ss@.len() - k,
    {
        proof {
            assert(ss.deep_view()[k as int] == ss@[k as int]@);
            assert(vstd::utf8::is_ascii_chars(ss.deep_view()[k as int]));
        }
        push_text(out, ss[k].as_str());
        proof {
            lemma_text_seq_snoc(ss.deep_view().take(k as int), ss@[k as int]@);
            assert(ss.deep_view().take(k as int).push(ss@[k as int]@) =~= ss.deep_view().take(
                k + 1,
            ));
            assert(out@ =~= base + spec_enc_text_seq(ss.deep_view().take(k + 1)));
        }
        k = k + 1;
    }
    proof {
        assert(ss.deep_view().take(ss@.len() as int) =~= ss.deep_view());
        assert(out@ =~= old(out)@ + spec_enc_inventory(ss.deep_view()));
    }
}

/// The concatenated encodings of a sequence of objects.
pub open spec fn spec_enc_object_seq(os: Seq<ObjectView>) -> Seq<u8>
    decreases os.len(),
{
    if os.len() == 0 {
        Seq::empty()
    } else {
        spec_enc_object(os[0]) + spec_enc_object_seq(os.skip(1))
    }
}

pub proof fn lemma_object_seq_snoc(os: Seq<ObjectView>, x: ObjectView)
    ensures
        spec_enc_object_seq(os.push(x)) == spec_enc_object_seq(os) + spec_enc_object(x),
    decreases os.len(),
{
    if os.len() == 0 {
        assert(os.push(x).skip(1) =~= Seq::<ObjectView>::empty());
        assert(os.push(x)[0] == x);
        assert(spec_enc_object_seq(Seq::<ObjectView>::empty()) == Seq::<u8>::empty());
        assert(spec_enc_object_seq(os.push(x)) =~= spec_enc_object_seq(os) + spec_enc_object(x));
    } else {
        assert(os.push(x).skip(1) =~= os.skip(1).push(x));
        lemma_object_seq_snoc(os.skip(1), x);
        let a = spec_enc_object(os[0]);
        let b = spec_enc_object_seq(os.skip(1));
        let c = spec_enc_object(x);
        assert(os.push(x)[0] == os[0]);
        assert(spec_enc_object_seq(os.push(x)) == a + (b + c));
        assert(a + (b + c) =~= (a + b) + c);
    }
}

/// The view of a vector of objects.
pub open spec fn objects_view(objects: Seq<Object>) -> Seq<ObjectView> {
    Seq::new(objects.len(), |k: int| objects[k]@)
}

/// Append the encodings of all objects, preceded by an array header.
pub fn push_objects(out: &mut Vec<u8>, objects: &Vec<Object>)
    ensures
        final(out)@ == old(out)@ + crate::cbor::spec_enc_array_header(objects@.len())
            + spec_enc_object_seq(objects_view(objects@)),
{
    crate::cbor::push_array_header(out, objects.len() as u64);
    let ghost base = out@;
    let mut k: usize = 0;
    while k < objects.len()
        invariant
            k <= objects@.len(),
            out@ == base + spec_enc_object_seq(objects_view(objects@).take(k as int)),
        decreases objects@.len() - k,
    {
        push_object(out, &objects[k]);
        proof {
            lemma_object_seq_snoc(objects_view(objects@).take(k as int), objects@[k as int]@);
            assert(objects_view(objects@).take(k as int).push(objects@[k as int]@)
                =~= objects_view(objects@).take(k + 1));
            assert(out@ =~= base + spec_enc_object_seq(objects_view(objects@).take(k + 1)));
        }
        k = k + 1;
    }
    proof {
        assert(objects_view(objects@).take(objects@.len() as int) =~= objects_view(objects@));
        assert(out@ =~= old(out)@ + crate::cbor::spec_enc_array_header(objects@.len())
            + spec_enc_object_seq(objects_view(objects@)));
    }
}

/// Whether a payload's strings are all ASCII, so that it can be encoded.
pub open spec fn payload_ascii(p: PayloadView) -> bool {
    match p {
        PayloadView::GetData { inventory } => inv_ascii(inventory),
        PayloadView::Inv { inventory } => inv_ascii(inventory),
        PayloadView::Objects { .. } => true,
        PayloadView::Empty => true,
    }
}

/// The canonical encoding of a payload: a one-entry map from the variant
/// name to its fields.
pub open spec fn spec_enc_payload(p: PayloadView) -> Seq<u8> {
    match p {
        PayloadView::GetData { inventory } => spec_enc_map_header(1) + spec_enc_text(key_getdata())
            + spec_enc_map_header(1) + spec_enc_text(key_inventory()) + spec_enc_inventory(
            inventory,
        ),
        PayloadView::Inv { inventory } => spec_enc_map_header(1) + spec_enc_text(key_inv())
            + spec_enc_map_header(1) + spec_enc_text(key_inventory()) + spec_enc_inventory(
            inventory,
        ),
        PayloadView::Objects { objects } => spec_enc_map_header(1) + spec_enc_text(
            key_objects_tag(),
        ) + spec_enc_map_header(1) + spec_enc_text(key_objects_field())
            + crate::cbor::spec_enc_array_header(objects.len()) + spec_enc_object_seq(objects),
        PayloadView::Empty => spec_enc_map_header(1) + spec_enc_text(key_none())
            + spec_enc_map_header(0),
    }
}

/// Append the encoding of a payload.
#[verifier::rlimit(50)]
pub fn push_payload(out: &mut Vec<u8>, p: &MessagePayload)
    requires
        payload_ascii(p@),
    ensures
        final(out)@ == old(out)@ + spec_enc_payload(p@),
{
    match p {
        MessagePayload::GetData { inventory } => {
            push_map_header(out, 1);
            proof {
                reveal_strlit("GetData");
                reveal_strlit("inventory");
                assert("GetData"@ =~= key_getdata());
                assert("inventory"@ =~= key_inventory());
            }
            push_text(out, "GetData");
            push_map_header(out, 1);
            push_text(out, "inventory");
            push_inventory(out, inventory);
            assert(out@ =~= old(out)@ + spec_enc_payload(p@));
        },
        MessagePayload::Inv { inventory } => {
            push_map_header(out, 1);
            proof {
                reveal_strlit("Inv");
                reveal_strlit("inventory");
                assert("Inv"@ =~= key_inv());
                assert("inventory"@ =~= key_inventory());
            }
            push_text(out, "Inv");
            push_map_header(out, 1);
            push_text(out, "inventory");
            push_inventory(out, inventory);
            assert(out@ =~= old(out)@ + spec_enc_payload(p@));
        },
        MessagePayload::Objects { objects } => {
            push_map_header(out, 1);
            proof {
                reveal_strlit("Objects");
                reveal_strlit("objects");
                assert("Objects"@ =~= key_objects_tag());
                assert("objects"@ =~= key_objects_field());
            }
            push_text(out, "Objects");
            push_map_header(out, 1);
            push_text(out, "objects");
            push_objects(out, objects);
            assert(out@ =~= old(out)@ + spec_enc_payload(p@));
        },
        MessagePayload::Empty => {
            push_map_header(out, 1);
            proof {
                reveal_strlit("None");
                assert("None"@ =~= key_none());
            }
            push_text(out, "None");
            push_map_header(out, 0);
            assert(out@ =~= old(out)@ + spec_enc_payload(p@));
        },
    }
}

/// The text a command is serialised as.
pub open spec fn spec_command_text(c: MessageCommand) -> Seq<char> {
    match c {
        MessageCommand::GetData => key_getdata(),
        MessageCommand::Inv => key_inv(),
        MessageCommand::ReqInv => key_reqinv(),
        MessageCommand::Objects => key_objects_tag(),
    }
}

/// The canonical encoding of a network message.
pub open spec fn spec_enc_network_message(m: NetworkMessageView) -> Seq<u8> {
    spec_enc_map_header(2) + spec_enc_text(key_command()) + spec_enc_text(
        spec_command_text(m.command),
    ) + spec_enc_text(key_payload()) + spec_enc_payload(m.payload)
}

/// Encode a network message for the wire.
#[verifier::rlimit(50)]
pub fn encode_network_message(m: &NetworkMessage) -> (r: Vec<u8>)
    requires
        payload_ascii(m@.payload),
    ensures
        r@ == spec_enc_network_message(m@),
{
    let mut out: Vec<u8> = Vec::new();
    push_map_header(&mut out, 2);
    proof {
        reveal_strlit("command");
        reveal_strlit("payload");
        assert("command"@ =~= key_command());
        assert("payload"@ =~= key_payload());
    }
    push_text(&mut out, "command");
    match m.command {
        MessageCommand::GetData => {
            proof {
                reveal_strlit("GetData");
                assert("GetData"@ =~= key_getdata());
            }
            push_text(&mut out, "GetData");
        },
        MessageCommand::Inv => {
            proof {
                reveal_strlit("Inv");
                assert("Inv"@ =~= key_inv());
            }
            push_text(&mut out, "Inv");
        },
        MessageCommand::ReqInv => {
            proof {
                reveal_strlit("ReqInv");
                assert("ReqInv"@ =~= key_reqinv());
            }
            push_text(&mut out, "ReqInv");
        },
        MessageCommand::Objects => {
            proof {
                reveal_strlit("Objects");
                assert("Objects"@ =~= key_objects_tag());
            }
            push_text(&mut out, "Objects");
        },
    }
    push_text(&mut out, "payload");
    push_payload(&mut out, &m.payload);
    assert(out@ =~= spec_enc_network_message(m@));
    out
}

/// Compare two byte vectors.
pub fn eq_bytes(a: &Vec<u8>, b: &Vec<u8>) -> (r: bool)
    ensures
        r == (a@ == b@),
{
    if a.len() != b.len() {
        return false;
    }
    let mut k: usize = 0;
    while k < a.len()
        invariant
            k <= a@.len(),
            a@.len() == b@.len(),
            forall|q: int| 0 <= q < k ==> a@[q] == b@[q],
        decreases a@.len() - k,
    {
        if a[k] != b[k] {
            return false;
        }
        k = k + 1;
    }
    proof {
        assert(a@ =~= b@);
    }
    true
}

/// Compare two ASCII strings by bytes.
pub fn ascii_str_eq(a: &str, b: &str) -> (r: bool)
    requires
        a.is_ascii(),
        b.is_ascii(),
    ensures
        r == (a@ == b@),
{
    proof {
        vstd::string::is_ascii_spec_bytes(a);
        vstd::string::is_ascii_spec_bytes(b);
    }
    let ab = a.as_bytes();
    let bb = b.as_bytes();
    if ab.len() != bb.len() {
        proof {
            assert(a@.len() != b@.len());
        }
        return false;
    }
    let mut k: usize = 0;
    while k < ab.len()
        invariant
            k <= ab@.len(),
            ab@.len() == bb@.len(),
            ab@ == a.spec_bytes(),
            bb@ == b.spec_bytes(),
            a.spec_bytes() =~= Seq::new(a@.len(), |q: int| a@.index(q) as u8),
            b.spec_bytes() =~= Seq::new(b@.len(), |q: int| b@.index(q) as u8),
            a.is_ascii(),
            b.is_ascii(),
            forall|q: int| 0 <= q < k ==> a@[q] == b@[q],
        decreases ab@.len() - k,
    {
        if ab[k] != bb[k] {
            proof {
                assert(a@[k as int] as u8 != b@[k as int] as u8);
            }
            return false;
        }
        proof {
            assert(a@[k as int] as u8 == b@[k as int] as u8);
            assert('\0' <= a@[k as int] <= '\u{7f}');
            assert('\0' <= b@[k as int] <= '\u{7f}');
            assert(a@[k as int] == b@[k as int]);
        }
        k = k + 1;
    }
    proof {
        assert(a@ =~= b@);
    }
    true
}

pub open spec fn key_behavior_bitfield() -> Seq<char> {
    seq!['b', 'e', 'h', 'a', 'v', 'i', 'o', 'r', '_', 'b', 'i', 't', 'f', 'i', 'e', 'l', 'd']
}

pub open spec fn key_behaviour_bitfield() -> Seq<char> {
    seq!['b', 'e', 'h', 'a', 'v', 'i', 'o', 'u', 'r', '_', 'b', 'i', 't', 'f', 'i', 'e', 'l', 'd']
}

pub open spec fn key_sender_ripe() -> Seq<char> {
    seq!['s', 'e', 'n', 'd', 'e', 'r', '_', 'r', 'i', 'p', 'e']
}

pub open spec fn key_destination_ripe() -> Seq<char> {
    seq!['d', 'e', 's', 't', 'i', 'n', 'a', 't', 'i', 'o', 'n', '_', 'r', 'i', 'p', 'e']
}

pub open spec fn key_encoding() -> Seq<char> {
    seq!['e', 'n', 'c', 'o', 'd', 'i', 'n', 'g']
}

pub open spec fn key_message() -> Seq<char> {
    seq!['m', 'e', 's', 's', 'a', 'g', 'e']
}

pub open spec fn key_public_signing_key() -> Seq<char> {
    seq![
        'p', 'u', 'b', 'l', 'i', 'c', '_', 's', 'i', 'g', 'n', 'i', 'n', 'g', '_', 'k', 'e', 'y',
    ]
}

pub open spec fn key_public_encryption_key() -> Seq<char> {
    seq![
        'p', 'u', 'b', 'l', 'i', 'c', '_', 'e', 'n', 'c', 'r', 'y', 'p', 't', 'i', 'o', 'n', '_',
        'k', 'e', 'y',
    ]
}

/// Whether an `UnencryptedMsg` can be encoded: its address strings are ASCII.
pub open spec fn unenc_msg_ascii(m: UnencryptedMsgView) -> bool {
    vstd::utf8::is_ascii_chars(m.sender_ripe) && vstd::utf8::is_ascii_chars(m.destination_ripe)
}

/// The canonical encoding of the plaintext of a Msg object: a seven-entry
/// map in field order.
pub open spec fn spec_enc_unenc_msg(m: UnencryptedMsgView) -> Seq<u8> {
    spec_enc_map_header(7) + spec_enc_text(key_behavior_bitfield()) + spec_enc_uint(
        m.behavior_bitfield as nat,
    ) + spec_enc_text(key_sender_ripe()) + spec_enc_text(m.sender_ripe) + spec_enc_text(
        key_destination_ripe(),
    ) + spec_enc_text(m.destination_ripe) + spec_enc_text(key_encoding()) + spec_enc_uint(
        spec_encoding_value(m.encoding) as nat,
    ) + spec_enc_text(key_message()) + spec_enc_bytes(m.message) + spec_enc_text(
        key_public_signing_key(),
    ) + spec_enc_bytes(m.public_signing_key) + spec_enc_text(key_public_encryption_key())
        + spec_enc_bytes(m.public_encryption_key)
}

/// Encode the plaintext of a Msg object.
#[verifier::rlimit(100)]
pub fn encode_unenc_msg(m: &UnencryptedMsg) -> (r: Vec<u8>)
    requires
        unenc_msg_ascii(m@),
    ensures
        r@ == spec_enc_unenc_msg(m@),
{
    let mut out: Vec<u8> = Vec::new();
    push_map_header(&mut out, 7);
    proof {
        reveal_strlit("behavior_bitfield");
        reveal_strlit("sender_ripe");
        reveal_strlit("destination_ripe");
        reveal_strlit("encoding");
        reveal_strlit("message");
        reveal_strlit("public_signing_key");
        reveal_strlit("public_encryption_key");
        assert("behavior_bitfield"@ =~= key_behavior_bitfield());
        assert("sender_ripe"@ =~= key_sender_ripe());
        assert("destination_ripe"@ =~= key_destination_ripe());
        assert("encoding"@ =~= key_encoding());
        assert("message"@ =~= key_message());
        assert("public_signing_key"@ =~= key_public_signing_key());
        assert("public_encryption_key"@ =~= key_public_encryption_key());
    }
    push_text(&mut out, "behavior_bitfield");
    push_uint(&mut out, m.behavior_bitfield as u64);
    push_text(&mut out, "sender_ripe");
    push_text(&mut out, m.sender_ripe.as_str());
    push_text(&mut out, "destination_ripe");
    push_text(&mut out, m.destination_ripe.as_str());
    push_text(&mut out, "encoding");
    let ev: u8 = match m.encoding {
        MsgEncoding::Ignore => 0,
        MsgEncoding::Trivial => 1,
        MsgEncoding::Simple => 2,
        MsgEncoding::Extended => 3,
    };
    push_uint(&mut out, ev as u64);
    push_text(&mut out, "message");
    push_bytes(&mut out, m.message.as_slice());
    push_text(&mut out, "public_signing_key");
    push_bytes(&mut out, m.public_signing_key.as_slice());
    push_text(&mut out, "public_encryption_key");
    push_bytes(&mut out, m.public_encryption_key.as_slice());
    assert(out@ =~= spec_enc_unenc_msg(m@));
    out
}

/// The canonical encoding of the plaintext of a Pubkey object: a three-entry
/// map in field order.
pub open spec fn spec_enc_unenc_pubkey(p: UnencryptedPubkeyView) -> Seq<u8> {
    spec_enc_map_header(3) + spec_enc_text(key_behaviour_bitfield()) + spec_enc_uint(
        p.behaviour_bitfield as nat,
    ) + spec_enc_text(key_public_signing_key()) + spec_enc_bytes(p.public_signing_key)
        + spec_enc_text(key_public_encryption_key()) + spec_enc_bytes(p.public_encryption_key)
}

/// A pubkey payload built from two serialised keys encodes to well under
/// the encryption size cap.
pub proof fn lemma_pubkey_payload_small(pv: UnencryptedPubkeyView)
    requires
        pv.public_signing_key.len() <= 65,
        pv.public_encryption_key.len() <= 65,
    ensures
        spec_enc_unenc_pubkey(pv).len() < 0x1_0000_0000,
{
    crate::cbor::lemma_header_len(5, 3);
    crate::cbor::lemma_header_len(3, key_behaviour_bitfield().len());
    crate::cbor::lemma_header_len(0, pv.behaviour_bitfield as nat);
    crate::cbor::lemma_header_len(3, key_public_signing_key().len());
    crate::cbor::lemma_header_len(2, pv.public_signing_key.len());
    crate::cbor::lemma_header_len(3, key_public_encryption_key().len());
    crate::cbor::lemma_header_len(2, pv.public_encryption_key.len());
}

/// Encode the plaintext of a Pubkey object.
#[verifier::rlimit(50)]
pub fn encode_unenc_pubkey(p: &UnencryptedPubkey) -> (r: Vec<u8>)
    ensures
        r@ == spec_enc_unenc_pubkey(p@),
{
    let mut out: Vec<u8> = Vec::new();
    push_map_header(&mut out, 3);
    proof {
        reveal_strlit("behaviour_bitfield");
        reveal_strlit("public_signing_key");
        reveal_strlit("public_encryption_key");
        assert("behaviour_bitfield"@ =~= key_behaviour_bitfield());
        assert("public_signing_key"@ =~= key_public_signing_key());
        assert("public_encryption_key"@ =~= key_public_encryption_key());
    }
    push_text(&mut out, "behaviour_bitfield");
    push_uint(&mut out, p.behaviour_bitfield as u64);
    push_text(&mut out, "public_signing_key");
    push_bytes(&mut out, p.public_signing_key.as_slice());
    push_text(&mut out, "public_encryption_key");
    push_bytes(&mut out, p.public_encryption_key.as_slice());
    assert(out@ =~= spec_enc_unenc_pubkey(p@));
    out
}

/// The request/response protocol this node speaks.
pub struct BitmessageProtocol;

impl BitmessageProtocol {
    /// The protocol name offered during negotiation.
    pub fn protocol_name(&self) -> (r: &'static str)
        ensures
            r@ == "/bitmessage/1.0"@,
    {
        "/bitmessage/1.0"
    }
}

/// A request on the wire: one network message.
pub struct BitmessageRequest(pub NetworkMessage);

/// A response on the wire: one network message.
pub struct BitmessageResponse(pub NetworkMessage);

/// Encodes and decodes the request/response frames; both sides carry one
/// canonically encoded network message.
pub struct BitmessageProtocolCodec;

impl BitmessageProtocolCodec {
    /// The bytes of an outbound request.
    pub fn write_request(&self, request: &BitmessageRequest) -> (r: Vec<u8>)
        requires
            payload_ascii(request.0@.payload),
        ensures
            r@ == spec_enc_network_message(request.0@),
    {
        encode_network_message(&request.0)
    }

    /// The bytes of an outbound response.
    pub fn write_response(&self, response: &BitmessageResponse) -> (r: Vec<u8>)
        requires
            payload_ascii(response.0@.payload),
        ensures
            r@ == spec_enc_network_message(response.0@),
    {
        encode_network_message(&response.0)
    }

    /// Decode an inbound request; strict and total on the wire format, like
    /// `decode_network_message`: reading a written request gives it back.
    pub fn read_request(&self, data: &[u8]) -> (r: Option<BitmessageRequest>)
        ensures
            match r {
                Some(m) => data@ == spec_enc_network_message(m.0@),
                None => true,
            },
            forall|mv: NetworkMessageView| #![trigger spec_enc_network_message(mv)]
                crate::decode::network_message_at(data@, mv) ==> (match r {
                    Some(m) => m.0@ == mv,
                    None => false,
                }),
    {
        match crate::decode::decode_network_message(data) {
            Some(m) => Some(BitmessageRequest(m)),
            None => None,
        }
    }

    /// Decode an inbound response; strict and total on the wire format, like
    /// `decode_network_message`: reading a written response gives it back.
    pub fn read_response(&self, data: &[u8]) -> (r: Option<BitmessageResponse>)
        ensures
            match r {
                Some(m) => data@ == spec_enc_network_message(m.0@),
                None => true,
            },
            forall|mv: NetworkMessageView| #![trigger spec_enc_network_message(mv)]
                crate::decode::network_message_at(data@, mv) ==> (match r {
                    Some(m) => m.0@ == mv,
                    None => false,
                }),
    {
        match crate::decode::decode_network_message(data) {
            Some(m) => Some(BitmessageResponse(m)),
            None => None,
        }
    }
}

} // verus!
