//! Decoders for the wire encodings of `messages`.
//!
//! Every decoder is strict: it accepts exactly the canonical bytes the
//! encoders produce, and its contract says that whatever it returns
//! re-encodes to the bytes it consumed. The decoders for the two encrypted
//! plaintexts also promise to succeed on every encoded value, which gives
//! the round trip.
use vstd::prelude::*;

use crate::cbor::{
    read_bytes, read_int, read_map_header, read_text, read_uint, spec_enc_bytes, spec_enc_int,
    spec_enc_map_header, spec_enc_text, spec_enc_uint,
};
use crate::cbor::{read_array_header, spec_enc_array_header};
use crate::repo_inventory::strs_view;
use crate::repo_message::lemma_take_push;
use crate::messages::{
    ascii_str_eq, inv_ascii, key_behaviour_bitfield, key_behavior_bitfield, key_broadcast,
    key_command, key_destination_ripe, key_encoding, key_encrypted, key_expires, key_extra_bytes,
    key_getdata, key_getpubkey, key_hash, key_inv, key_inventory, key_kind, key_message, key_msg,
    key_none, key_nonce, key_nonce_trials, key_objects_field, key_objects_tag, key_payload,
    key_public_encryption_key, key_public_signing_key, key_pubkey, key_reqinv, key_sender_ripe,
    key_signature, key_tag, objects_view, spec_command_text, spec_enc_inventory, spec_enc_kind,
    spec_enc_network_message, spec_enc_object, spec_enc_object_seq, spec_enc_payload,
    spec_enc_text_seq, spec_enc_unenc_msg, spec_enc_unenc_pubkey, spec_encoding_value,
    lemma_object_seq_snoc, lemma_text_seq_snoc, payload_ascii, unenc_msg_ascii, MessageCommand,
    KindView, MessagePayload, MsgEncoding, NetworkMessage, Object, ObjectKind, UnencryptedMsg,
    UnencryptedMsgView, UnencryptedPubkey, UnencryptedPubkeyView,
};

verus! {

/// Adjacent subranges concatenate.
pub proof fn lemma_join(data: Seq<u8>, i: int, j: int, k: int, a: Seq<u8>, b: Seq<u8>)
    requires
        0 <= i <= j <= k <= data.len(),
        data.subrange(i, j) == a,
        data.subrange(j, k) == b,
    ensures
        data.subrange(i, k) == a + b,
{
    assert(data.subrange(i, k) =~= a + b) by {
        assert forall|t: int| 0 <= t < k - i implies data.subrange(i, k)[t] == (a + b)[t] by {
            if t < a.len() {
                assert(data.subrange(i, j)[t] == data[i + t]);
            } else {
                assert(data.subrange(j, k)[t - a.len()] == data[j + (t - a.len())]);
            }
        }
    }
}

/// A prefix made of two chunks puts each chunk at its own offset.
pub proof fn lemma_split2(data: Seq<u8>, i: int, a: Seq<u8>, b: Seq<u8>)
    requires
        0 <= i,
        i + a.len() + b.len() <= data.len(),
        data.subrange(i, i + a.len() + b.len()) == a + b,
    ensures
        data.subrange(i, i + a.len()) == a,
        data.subrange(i + a.len(), i + a.len() + b.len()) == b,
{
    assert(data.subrange(i, i + a.len()) =~= a) by {
        assert forall|t: int| 0 <= t < a.len() implies data.subrange(i, i + a.len())[t]
            == a[t] by {
            assert(data.subrange(i, i + a.len() + b.len())[t] == (a + b)[t]);
        }
    }
    assert(data.subrange(i + a.len(), i + a.len() + b.len()) =~= b) by {
        assert forall|t: int| 0 <= t < b.len() implies data.subrange(
            i + a.len(),
            i + a.len() + b.len(),
        )[t] == b[t] by {
            assert(data.subrange(i + a.len(), i + a.len() + b.len())[t] == data[i + a.len() + t]);
            assert(data.subrange(i, i + a.len() + b.len())[a.len() + t] == data[i + a.len() + t]);
            assert((a + b)[a.len() + t] == b[t]);
        }
    }
}

/// Decode the plaintext of a Pubkey object; the exact inverse of
/// `encode_unenc_pubkey`.
#[verifier::rlimit(100)]
#[verifier::spinoff_prover]
pub fn decode_unenc_pubkey(data: &[u8]) -> (r: Option<UnencryptedPubkey>)
    ensures
        match r {
            Some(p) => data@ == spec_enc_unenc_pubkey(p@),
            None => true,
        },
        forall|pv: UnencryptedPubkeyView| #![trigger spec_enc_unenc_pubkey(pv)]
            data@ == spec_enc_unenc_pubkey(pv) ==> (match r {
                Some(p) => p@ == pv,
                None => false,
            }),
{
    let dlen = data.len();
    proof {
        reveal_strlit("behaviour_bitfield");
        reveal_strlit("public_signing_key");
        reveal_strlit("public_encryption_key");
        assert("behaviour_bitfield"@ =~= key_behaviour_bitfield());
        assert("public_signing_key"@ =~= key_public_signing_key());
        assert("public_encryption_key"@ =~= key_public_encryption_key());
    }
    let ghost decomposed = |pv: UnencryptedPubkeyView|
        {
            let c1 = spec_enc_map_header(3);
            let c2 = spec_enc_text(key_behaviour_bitfield());
            let c3 = spec_enc_uint(pv.behaviour_bitfield as nat);
            let c4 = spec_enc_text(key_public_signing_key());
            let c5 = spec_enc_bytes(pv.public_signing_key);
            let c6 = spec_enc_text(key_public_encryption_key());
            let c7 = spec_enc_bytes(pv.public_encryption_key);
            &&& data@.subrange(0, c1.len() as int) == c1
            &&& data@.subrange(c1.len() as int, (c1 + c2).len() as int) == c2
            &&& data@.subrange((c1 + c2).len() as int, (c1 + c2 + c3).len() as int) == c3
            &&& data@.subrange((c1 + c2 + c3).len() as int, (c1 + c2 + c3 + c4).len() as int) == c4
            &&& data@.subrange(
                (c1 + c2 + c3 + c4).len() as int,
                (c1 + c2 + c3 + c4 + c5).len() as int,
            ) == c5
            &&& data@.subrange(
                (c1 + c2 + c3 + c4 + c5).len() as int,
                (c1 + c2 + c3 + c4 + c5 + c6).len() as int,
            ) == c6
            &&& data@.subrange(
                (c1 + c2 + c3 + c4 + c5 + c6).len() as int,
                (c1 + c2 + c3 + c4 + c5 + c6 + c7).len() as int,
            ) == c7
            &&& data@.len() == (c1 + c2 + c3 + c4 + c5 + c6 + c7).len()
        };
    proof {
        assert forall|pv: UnencryptedPubkeyView| #[trigger]
            spec_enc_unenc_pubkey(pv) == data@ implies decomposed(pv) by {
            let c1 = spec_enc_map_header(3);
            let c2 = spec_enc_text(key_behaviour_bitfield());
            let c3 = spec_enc_uint(pv.behaviour_bitfield as nat);
            let c4 = spec_enc_text(key_public_signing_key());
            let c5 = spec_enc_bytes(pv.public_signing_key);
            let c6 = spec_enc_text(key_public_encryption_key());
            let c7 = spec_enc_bytes(pv.public_encryption_key);
            assert(data@.subrange(0, data@.len() as int) =~= data@);
            lemma_split2(data@, 0, c1 + c2 + c3 + c4 + c5 + c6, c7);
            lemma_split2(data@, 0, c1 + c2 + c3 + c4 + c5, c6);
            lemma_split2(data@, 0, c1 + c2 + c3 + c4, c5);
            lemma_split2(data@, 0, c1 + c2 + c3, c4);
            lemma_split2(data@, 0, c1 + c2, c3);
            lemma_split2(data@, 0, c1, c2);
        }
    }
    let r0 = read_map_header(data, 0);
    let (count, p1) = match r0 {
        Some(v) => v,
        None => {
            proof {
                assert forall|pv: UnencryptedPubkeyView| #[trigger]
                    spec_enc_unenc_pubkey(pv) == data@ implies false by {
                    lemma_uint_instantiate_header(data@, 0, r0, 5, 3);
                }
            }
            return None;
        },
    };
    if count != 3 {
        proof {
            assert forall|pv: UnencryptedPubkeyView| #[trigger]
                spec_enc_unenc_pubkey(pv) == data@ implies false by {
                lemma_uint_instantiate_header(data@, 0, r0, 5, 3);
            }
        }
        return None;
    }
    let r1 = read_text(data, p1);
    let (k1, p2) = match r1 {
        Some(v) => v,
        None => {
            proof {
                lemma_key_ascii();
                assert forall|pv: UnencryptedPubkeyView| #[trigger]
                    spec_enc_unenc_pubkey(pv) == data@ implies false by {
                }
            }
            return None;
        },
    };
    if !ascii_str_eq(k1.as_str(), "behaviour_bitfield") {
        proof {
            lemma_key_ascii();
            assert forall|pv: UnencryptedPubkeyView| #[trigger]
                spec_enc_unenc_pubkey(pv) == data@ implies false by {
            }
        }
        return None;
    }
    let r2 = read_uint(data, p2);
    let (bb, p3) = match r2 {
        Some(v) => v,
        None => {
            proof {
                assert forall|pv: UnencryptedPubkeyView| #[trigger]
                    spec_enc_unenc_pubkey(pv) == data@ implies false by {
                    lemma_uint_cast_u32(data@, p2 as int, r2, pv.behaviour_bitfield);
                }
            }
            return None;
        },
    };
    if bb > u32::MAX as u64 {
        proof {
            assert forall|pv: UnencryptedPubkeyView| #[trigger]
                spec_enc_unenc_pubkey(pv) == data@ implies false by {
                lemma_uint_cast_u32(data@, p2 as int, r2, pv.behaviour_bitfield);
            }
        }
        return None;
    }
    let r3 = read_text(data, p3);
    let (k2, p4) = match r3 {
        Some(v) => v,
        None => {
            proof {
                lemma_key_ascii();
                assert forall|pv: UnencryptedPubkeyView| #[trigger]
                    spec_enc_unenc_pubkey(pv) == data@ implies false by {
                    lemma_uint_cast_u32(data@, p2 as int, r2, pv.behaviour_bitfield);
                }
            }
            return None;
        },
    };
    if !ascii_str_eq(k2.as_str(), "public_signing_key") {
        proof {
            lemma_key_ascii();
            assert forall|pv: UnencryptedPubkeyView| #[trigger]
                spec_enc_unenc_pubkey(pv) == data@ implies false by {
                lemma_uint_cast_u32(data@, p2 as int, r2, pv.behaviour_bitfield);
            }
        }
        return None;
    }
    let r4 = read_bytes(data, p4);
    let (psk, p5) = match r4 {
        Some(v) => v,
        None => {
            proof {
                lemma_key_ascii();
                assert forall|pv: UnencryptedPubkeyView| #[trigger]
                    spec_enc_unenc_pubkey(pv) == data@ implies false by {
                    lemma_uint_cast_u32(data@, p2 as int, r2, pv.behaviour_bitfield);
                }
            }
            return None;
        },
    };
    let r5 = read_text(data, p5);
    let (k3, p6) = match r5 {
        Some(v) => v,
        None => {
            proof {
                lemma_key_ascii();
                assert forall|pv: UnencryptedPubkeyView| #[trigger]
                    spec_enc_unenc_pubkey(pv) == data@ implies false by {
                    lemma_uint_cast_u32(data@, p2 as int, r2, pv.behaviour_bitfield);
                }
            }
            return None;
        },
    };
    if !ascii_str_eq(k3.as_str(), "public_encryption_key") {
        proof {
            lemma_key_ascii();
            assert forall|pv: UnencryptedPubkeyView| #[trigger]
                spec_enc_unenc_pubkey(pv) == data@ implies false by {
                lemma_uint_cast_u32(data@, p2 as int, r2, pv.behaviour_bitfield);
            }
        }
        return None;
    }
    let r6 = read_bytes(data, p6);
    let (pek, p7) = match r6 {
        Some(v) => v,
        None => {
            proof {
                lemma_key_ascii();
                assert forall|pv: UnencryptedPubkeyView| #[trigger]
                    spec_enc_unenc_pubkey(pv) == data@ implies false by {
                    lemma_uint_cast_u32(data@, p2 as int, r2, pv.behaviour_bitfield);
                }
            }
            return None;
        },
    };
    if p7 != dlen {
        proof {
            lemma_key_ascii();
            assert forall|pv: UnencryptedPubkeyView| #[trigger]
                spec_enc_unenc_pubkey(pv) == data@ implies false by {
                lemma_uint_cast_u32(data@, p2 as int, r2, pv.behaviour_bitfield);
            }
        }
        return None;
    }
    let result = UnencryptedPubkey {
        behaviour_bitfield: bb as u32,
        public_signing_key: psk,
        public_encryption_key: pek,
    };
    assert(data@ =~= spec_enc_unenc_pubkey(result@)) by {
        assert(data@.subrange(0, dlen as int) =~= data@);
    }
    proof {
        assert forall|pv: UnencryptedPubkeyView| #[trigger]
            spec_enc_unenc_pubkey(pv) == data@ implies result@ == pv by {
            lemma_uint_cast_u32(data@, p2 as int, r2, pv.behaviour_bitfield);
        }
    }
    Some(result)
}

/// The fixed keys of this module are ASCII.
pub proof fn lemma_key_ascii()
    ensures
        vstd::utf8::is_ascii_chars(key_msg()),
        vstd::utf8::is_ascii_chars(key_broadcast()),
        vstd::utf8::is_ascii_chars(key_getpubkey()),
        vstd::utf8::is_ascii_chars(key_pubkey()),
        vstd::utf8::is_ascii_chars(key_tag()),
        vstd::utf8::is_ascii_chars(key_encrypted()),
        vstd::utf8::is_ascii_chars(key_behaviour_bitfield()),
        vstd::utf8::is_ascii_chars(key_behavior_bitfield()),
        vstd::utf8::is_ascii_chars(key_public_signing_key()),
        vstd::utf8::is_ascii_chars(key_public_encryption_key()),
        vstd::utf8::is_ascii_chars(key_sender_ripe()),
        vstd::utf8::is_ascii_chars(key_destination_ripe()),
        vstd::utf8::is_ascii_chars(key_encoding()),
        vstd::utf8::is_ascii_chars(key_message()),
{
}

/// Bridge a `u32` value to the `u64` quantifier of `read_uint`'s contract:
/// when the encoding of `w` sits at `i`, the read returned exactly `w`.
pub proof fn lemma_uint_cast_u32(data: Seq<u8>, i: int, r: Option<(u64, usize)>, w: u32)
    requires
        0 <= i,
        i + spec_enc_uint(w as nat).len() <= data.len(),
        data.subrange(i, i + spec_enc_uint(w as nat).len()) == spec_enc_uint(w as nat),
        forall|v: u64|
            i + spec_enc_uint(v as nat).len() <= data.len() && data.subrange(
                i,
                i + spec_enc_uint(v as nat).len(),
            ) == spec_enc_uint(v as nat) ==> r == Some(
                (v, (i + spec_enc_uint(v as nat).len()) as usize),
            ),
    ensures
        r == Some((w as u64, (i + spec_enc_uint(w as nat).len()) as usize)),
{
    let v: u64 = w as u64;
    assert(spec_enc_uint(v as nat) == spec_enc_uint(w as nat));
}

/// Bridge a known `nat` header value to the `u64` quantifier of a header
/// read's contract.
pub proof fn lemma_uint_instantiate_header(
    data: Seq<u8>,
    i: int,
    r: Option<(u64, usize)>,
    major: u8,
    n: u64,
)
    requires
        0 <= i,
        major == 5,
        i + spec_enc_map_header(n as nat).len() <= data.len(),
        data.subrange(i, i + spec_enc_map_header(n as nat).len()) == spec_enc_map_header(n as nat),
        forall|v: u64|
            i + spec_enc_map_header(v as nat).len() <= data.len() && data.subrange(
                i,
                i + spec_enc_map_header(v as nat).len(),
            ) == spec_enc_map_header(v as nat) ==> r == Some(
                (v, (i + spec_enc_map_header(v as nat).len()) as usize),
            ),
    ensures
        r == Some((n, (i + spec_enc_map_header(n as nat).len()) as usize)),
{
}

/// Bridge a known `nat` value below 2^64 to the `u64` quantifier of
/// `read_uint`'s contract.
pub proof fn lemma_uint_reads(data: Seq<u8>, i: int, r: Option<(u64, usize)>, n: nat)
    requires
        0 <= i,
        n < 0x1_0000_0000_0000_0000,
        i + spec_enc_uint(n).len() <= data.len(),
        data.subrange(i, i + spec_enc_uint(n).len()) == spec_enc_uint(n),
        forall|v: u64|
            i + spec_enc_uint(v as nat).len() <= data.len() && data.subrange(
                i,
                i + spec_enc_uint(v as nat).len(),
            ) == spec_enc_uint(v as nat) ==> r == Some(
                (v, (i + spec_enc_uint(v as nat).len()) as usize),
            ),
    ensures
        r == Some((n as u64, (i + spec_enc_uint(n).len()) as usize)),
{
    let v: u64 = n as u64;
    assert(spec_enc_uint(v as nat) == spec_enc_uint(n));
}

/// The head of a Msg plaintext encoding: the map header through the
/// encoding field.
pub open spec fn spec_enc_msg_head(
    bb: u32,
    sender: Seq<char>,
    dest: Seq<char>,
    enc: MsgEncoding,
) -> Seq<u8> {
    spec_enc_map_header(7) + spec_enc_text(key_behavior_bitfield()) + spec_enc_uint(bb as nat)
        + spec_enc_text(key_sender_ripe()) + spec_enc_text(sender) + spec_enc_text(
        key_destination_ripe(),
    ) + spec_enc_text(dest) + spec_enc_text(key_encoding()) + spec_enc_uint(
        spec_encoding_value(enc) as nat,
    )
}

/// The tail of a Msg plaintext encoding: the message body and the two keys.
pub open spec fn spec_enc_msg_tail(message: Seq<u8>, psk: Seq<u8>, pek: Seq<u8>) -> Seq<u8> {
    spec_enc_text(key_message()) + spec_enc_bytes(message) + spec_enc_text(
        key_public_signing_key(),
    ) + spec_enc_bytes(psk) + spec_enc_text(key_public_encryption_key()) + spec_enc_bytes(pek)
}

/// The whole encoding is its head followed by its tail.
pub proof fn lemma_msg_enc_split(mv: UnencryptedMsgView)
    ensures
        spec_enc_unenc_msg(mv) == spec_enc_msg_head(
            mv.behavior_bitfield,
            mv.sender_ripe,
            mv.destination_ripe,
            mv.encoding,
        ) + spec_enc_msg_tail(mv.message, mv.public_signing_key, mv.public_encryption_key),
{
    assert(spec_enc_unenc_msg(mv) =~= spec_enc_msg_head(
        mv.behavior_bitfield,
        mv.sender_ripe,
        mv.destination_ripe,
        mv.encoding,
    ) + spec_enc_msg_tail(mv.message, mv.public_signing_key, mv.public_encryption_key));
}

/// Where a whole input is the encoding of `mv`, each head chunk sits at its
/// own offset.
proof fn lemma_msg_head_decomposed(data: Seq<u8>, mv: UnencryptedMsgView)
    requires
        data == spec_enc_unenc_msg(mv),
        data.len() < 0x1_0000_0000_0000_0000,
    ensures
        ({
            let c1 = spec_enc_map_header(7);
            let c2 = spec_enc_text(key_behavior_bitfield());
            let c3 = spec_enc_uint(mv.behavior_bitfield as nat);
            let c4 = spec_enc_text(key_sender_ripe());
            let c5 = spec_enc_text(mv.sender_ripe);
            let c6 = spec_enc_text(key_destination_ripe());
            let c7 = spec_enc_text(mv.destination_ripe);
            let c8 = spec_enc_text(key_encoding());
            let c9 = spec_enc_uint(spec_encoding_value(mv.encoding) as nat);
            let p1 = c1.len() as int;
            let p2 = p1 + c2.len();
            let p3 = p2 + c3.len();
            let p4 = p3 + c4.len();
            let p5 = p4 + c5.len();
            let p6 = p5 + c6.len();
            let p7 = p6 + c7.len();
            let p8 = p7 + c8.len();
            let p9 = p8 + c9.len();
            &&& p9 <= data.len()
            &&& data.subrange(0, p1) == c1
            &&& data.subrange(p1, p2) == c2
            &&& data.subrange(p2, p3) == c3
            &&& data.subrange(p3, p4) == c4
            &&& data.subrange(p4, p5) == c5
            &&& data.subrange(p5, p6) == c6
            &&& data.subrange(p6, p7) == c7
            &&& data.subrange(p7, p8) == c8
            &&& data.subrange(p8, p9) == c9
        }),
{
    let c1 = spec_enc_map_header(7);
    let c2 = spec_enc_text(key_behavior_bitfield());
    let c3 = spec_enc_uint(mv.behavior_bitfield as nat);
    let c4 = spec_enc_text(key_sender_ripe());
    let c5 = spec_enc_text(mv.sender_ripe);
    let c6 = spec_enc_text(key_destination_ripe());
    let c7 = spec_enc_text(mv.destination_ripe);
    let c8 = spec_enc_text(key_encoding());
    let c9 = spec_enc_uint(spec_encoding_value(mv.encoding) as nat);
    let head = spec_enc_msg_head(
        mv.behavior_bitfield,
        mv.sender_ripe,
        mv.destination_ripe,
        mv.encoding,
    );
    let tail = spec_enc_msg_tail(mv.message, mv.public_signing_key, mv.public_encryption_key);
    lemma_msg_enc_split(mv);
    assert(data.subrange(0, data.len() as int) =~= data);
    lemma_split2(data, 0, head, tail);
    lemma_split2(data, 0, c1 + c2 + c3 + c4 + c5 + c6 + c7 + c8, c9);
    lemma_split2(data, 0, c1 + c2 + c3 + c4 + c5 + c6 + c7, c8);
    lemma_split2(data, 0, c1 + c2 + c3 + c4 + c5 + c6, c7);
    lemma_split2(data, 0, c1 + c2 + c3 + c4 + c5, c6);
    lemma_split2(data, 0, c1 + c2 + c3 + c4, c5);
    lemma_split2(data, 0, c1 + c2 + c3, c4);
    lemma_split2(data, 0, c1 + c2, c3);
    lemma_split2(data, 0, c1, c2);
}

/// Where a whole input is the encoding of `mv`, each tail chunk sits at its
/// own offset after the head.
proof fn lemma_msg_tail_decomposed(data: Seq<u8>, mv: UnencryptedMsgView, start: int)
    requires
        data == spec_enc_unenc_msg(mv),
        data.len() < 0x1_0000_0000_0000_0000,
        start == spec_enc_msg_head(
            mv.behavior_bitfield,
            mv.sender_ripe,
            mv.destination_ripe,
            mv.encoding,
        ).len(),
    ensures
        ({
            let c10 = spec_enc_text(key_message());
            let c11 = spec_enc_bytes(mv.message);
            let c12 = spec_enc_text(key_public_signing_key());
            let c13 = spec_enc_bytes(mv.public_signing_key);
            let c14 = spec_enc_text(key_public_encryption_key());
            let c15 = spec_enc_bytes(mv.public_encryption_key);
            let p10 = start + c10.len();
            let p11 = p10 + c11.len();
            let p12 = p11 + c12.len();
            let p13 = p12 + c13.len();
            let p14 = p13 + c14.len();
            let p15 = p14 + c15.len();
            &&& 0 <= start
            &&& p15 == data.len()
            &&& data.subrange(start, p10) == c10
            &&& data.subrange(p10, p11) == c11
            &&& data.subrange(p11, p12) == c12
            &&& data.subrange(p12, p13) == c13
            &&& data.subrange(p13, p14) == c14
            &&& data.subrange(p14, p15) == c15
        }),
{
    let head = spec_enc_msg_head(
        mv.behavior_bitfield,
        mv.sender_ripe,
        mv.destination_ripe,
        mv.encoding,
    );
    let c10 = spec_enc_text(key_message());
    let c11 = spec_enc_bytes(mv.message);
    let c12 = spec_enc_text(key_public_signing_key());
    let c13 = spec_enc_bytes(mv.public_signing_key);
    let c14 = spec_enc_text(key_public_encryption_key());
    let c15 = spec_enc_bytes(mv.public_encryption_key);
    lemma_msg_enc_split(mv);
    assert(data.subrange(0, data.len() as int) =~= data);
    lemma_split2(
        data,
        0,
        head,
        spec_enc_msg_tail(mv.message, mv.public_signing_key, mv.public_encryption_key),
    );
    lemma_split2(data, start, c10 + c11 + c12 + c13 + c14, c15);
    lemma_split2(data, start, c10 + c11 + c12 + c13, c14);
    lemma_split2(data, start, c10 + c11 + c12, c13);
    lemma_split2(data, start, c10 + c11, c12);
    lemma_split2(data, start, c10, c11);
}

/// The opening of a Msg plaintext head: the map header and the bitfield.
pub open spec fn spec_enc_msg_part1(bb: u32) -> Seq<u8> {
    spec_enc_map_header(7) + spec_enc_text(key_behavior_bitfield()) + spec_enc_uint(bb as nat)
}

/// The rest of a Msg plaintext head: the two address strings and the
/// encoding tag.
pub open spec fn spec_enc_msg_part2(sender: Seq<char>, dest: Seq<char>, enc: MsgEncoding) -> Seq<
    u8,
> {
    spec_enc_text(key_sender_ripe()) + spec_enc_text(sender) + spec_enc_text(
        key_destination_ripe(),
    ) + spec_enc_text(dest) + spec_enc_text(key_encoding()) + spec_enc_uint(
        spec_encoding_value(enc) as nat,
    )
}

/// Decode the map header and the bitfield of a Msg plaintext.
#[verifier::rlimit(100)]
#[verifier::spinoff_prover]
fn decode_msg_part1(data: &[u8]) -> (r: Option<(u32, usize)>)
    ensures
        match r {
            Some((bb, pos)) => pos <= data@.len() && data@.subrange(0, pos as int)
                == spec_enc_msg_part1(bb),
            None => true,
        },
        forall|mv: UnencryptedMsgView| #![trigger spec_enc_unenc_msg(mv)]
            unenc_msg_ascii(mv) && data@ == spec_enc_unenc_msg(mv) ==> (match r {
                Some((bb, pos)) => bb == mv.behavior_bitfield && pos as int == spec_enc_msg_part1(
                    mv.behavior_bitfield,
                ).len(),
                None => false,
            }),
{
    let _dl = data.len();
    assert(data@.len() < 0x1_0000_0000_0000_0000);
    proof {
        reveal_strlit("behavior_bitfield");
        assert("behavior_bitfield"@ =~= key_behavior_bitfield());
        lemma_key_ascii();
    }
    let ghost decomposed = |mv: UnencryptedMsgView|
        {
            let c1 = spec_enc_map_header(7);
            let c2 = spec_enc_text(key_behavior_bitfield());
            let c3 = spec_enc_uint(mv.behavior_bitfield as nat);
            let p1 = c1.len() as int;
            let p2 = p1 + c2.len();
            let p3 = p2 + c3.len();
            &&& p3 <= data@.len()
            &&& data@.subrange(0, p1) == c1
            &&& data@.subrange(p1, p2) == c2
            &&& data@.subrange(p2, p3) == c3
        };
    proof {
        assert forall|mv: UnencryptedMsgView| #[trigger]
            spec_enc_unenc_msg(mv) == data@ implies decomposed(mv) by {
            lemma_msg_head_decomposed(data@, mv);
        }
    }
    let r0 = read_map_header(data, 0);
    let (count, q1) = match r0 {
        Some(v) => v,
        None => {
            proof {
                assert forall|mv: UnencryptedMsgView| #[trigger] spec_enc_unenc_msg(mv) == data@
                    && unenc_msg_ascii(mv) implies false by {
                    lemma_map_header_reads(data@, 0, r0, 7);
                }
            }
            return None;
        },
    };
    if count != 7 {
        proof {
            assert forall|mv: UnencryptedMsgView| #[trigger] spec_enc_unenc_msg(mv) == data@
                && unenc_msg_ascii(mv) implies false by {
                lemma_map_header_reads(data@, 0, r0, 7);
            }
        }
        return None;
    }
    let r1 = read_text(data, q1);
    let (k1, q2) = match r1 {
        Some(v) => v,
        None => {
            proof {
                assert forall|mv: UnencryptedMsgView| #[trigger] spec_enc_unenc_msg(mv) == data@
                    && unenc_msg_ascii(mv) implies false by {}
            }
            return None;
        },
    };
    if !ascii_str_eq(k1.as_str(), "behavior_bitfield") {
        proof {
            assert forall|mv: UnencryptedMsgView| #[trigger] spec_enc_unenc_msg(mv) == data@
                && unenc_msg_ascii(mv) implies false by {}
        }
        return None;
    }
    let r2 = read_uint(data, q2);
    let (bb, q3) = match r2 {
        Some(v) => v,
        None => {
            proof {
                assert forall|mv: UnencryptedMsgView| #[trigger] spec_enc_unenc_msg(mv) == data@
                    && unenc_msg_ascii(mv) implies false by {
                    lemma_uint_reads(data@, q2 as int, r2, mv.behavior_bitfield as nat);
                }
            }
            return None;
        },
    };
    if bb > u32::MAX as u64 {
        proof {
            assert forall|mv: UnencryptedMsgView| #[trigger] spec_enc_unenc_msg(mv) == data@
                && unenc_msg_ascii(mv) implies false by {
                lemma_uint_reads(data@, q2 as int, r2, mv.behavior_bitfield as nat);
            }
        }
        return None;
    }
    proof {
        lemma_join(data@, 0, q1 as int, q2 as int, spec_enc_map_header(7), spec_enc_text(
            key_behavior_bitfield(),
        ));
        lemma_join(
            data@,
            0,
            q2 as int,
            q3 as int,
            spec_enc_map_header(7) + spec_enc_text(key_behavior_bitfield()),
            spec_enc_uint(bb as nat),
        );
        assert((bb as u32) as nat == bb as nat);
        assert forall|mv: UnencryptedMsgView| #[trigger] spec_enc_unenc_msg(mv) == data@
            && unenc_msg_ascii(mv) implies bb as u32 == mv.behavior_bitfield && (q3 as int)
            == spec_enc_msg_part1(mv.behavior_bitfield).len() by {
            lemma_uint_reads(data@, q2 as int, r2, mv.behavior_bitfield as nat);
        }
    }
    Some((bb as u32, q3))
}

/// Decode the address strings and the encoding tag of a Msg plaintext.
#[verifier::rlimit(100)]
#[verifier::spinoff_prover]
fn decode_msg_part2(data: &[u8], start: usize) -> (r: Option<(String, String, MsgEncoding, usize)>)
    requires
        start <= data@.len(),
    ensures
        match r {
            Some((s, d, e, pos)) => {
                &&& start < pos <= data@.len()
                &&& s.is_ascii()
                &&& d.is_ascii()
                &&& data@.subrange(start as int, pos as int) == spec_enc_msg_part2(s@, d@, e)
            },
            None => true,
        },
        forall|mv: UnencryptedMsgView| #![trigger spec_enc_unenc_msg(mv)]
            unenc_msg_ascii(mv) && data@ == spec_enc_unenc_msg(mv) && start as int
                == spec_enc_msg_part1(mv.behavior_bitfield).len() ==> (match r {
                Some((s, d, e, pos)) => s@ == mv.sender_ripe && d@ == mv.destination_ripe && e
                    == mv.encoding && pos as int == spec_enc_msg_head(
                    mv.behavior_bitfield,
                    mv.sender_ripe,
                    mv.destination_ripe,
                    mv.encoding,
                ).len(),
                None => false,
            }),
{
    let _dl = data.len();
    assert(data@.len() < 0x1_0000_0000_0000_0000);
    proof {
        reveal_strlit("sender_ripe");
        reveal_strlit("destination_ripe");
        reveal_strlit("encoding");
        assert("sender_ripe"@ =~= key_sender_ripe());
        assert("destination_ripe"@ =~= key_destination_ripe());
        assert("encoding"@ =~= key_encoding());
        lemma_key_ascii();
    }
    let ghost hyp = |mv: UnencryptedMsgView|
        unenc_msg_ascii(mv) && data@ == spec_enc_unenc_msg(mv) && start as int
            == spec_enc_msg_part1(mv.behavior_bitfield).len();
    let ghost decomposed = |mv: UnencryptedMsgView|
        {
            let c4 = spec_enc_text(key_sender_ripe());
            let c5 = spec_enc_text(mv.sender_ripe);
            let c6 = spec_enc_text(key_destination_ripe());
            let c7 = spec_enc_text(mv.destination_ripe);
            let c8 = spec_enc_text(key_encoding());
            let c9 = spec_enc_uint(spec_encoding_value(mv.encoding) as nat);
            let p4 = start + c4.len();
            let p5 = p4 + c5.len();
            let p6 = p5 + c6.len();
            let p7 = p6 + c7.len();
            let p8 = p7 + c8.len();
            let p9 = p8 + c9.len();
            &&& p9 <= data@.len()
            &&& data@.subrange(start as int, p4 as int) == c4
            &&& data@.subrange(p4 as int, p5 as int) == c5
            &&& data@.subrange(p5 as int, p6 as int) == c6
            &&& data@.subrange(p6 as int, p7 as int) == c7
            &&& data@.subrange(p7 as int, p8 as int) == c8
            &&& data@.subrange(p8 as int, p9 as int) == c9
            &&& p9 == spec_enc_msg_head(
                mv.behavior_bitfield,
                mv.sender_ripe,
                mv.destination_ripe,
                mv.encoding,
            ).len()
        };
    proof {
        assert forall|mv: UnencryptedMsgView| #[trigger] spec_enc_unenc_msg(mv) == data@ && hyp(
            mv,
        ) implies decomposed(mv) by {
            lemma_msg_head_decomposed(data@, mv);
        }
    }
    let r3 = read_text(data, start);
    let (k2, q4) = match r3 {
        Some(v) => v,
        None => {
            proof {
                assert forall|mv: UnencryptedMsgView| #[trigger] spec_enc_unenc_msg(mv) == data@
                    && hyp(mv) implies false by {}
            }
            return None;
        },
    };
    if !ascii_str_eq(k2.as_str(), "sender_ripe") {
        proof {
            assert forall|mv: UnencryptedMsgView| #[trigger] spec_enc_unenc_msg(mv) == data@
                && hyp(mv) implies false by {}
        }
        return None;
    }
    let r4 = read_text(data, q4);
    let (sender, q5) = match r4 {
        Some(v) => v,
        None => {
            proof {
                assert forall|mv: UnencryptedMsgView| #[trigger] spec_enc_unenc_msg(mv) == data@
                    && hyp(mv) implies false by {}
            }
            return None;
        },
    };
    let r5 = read_text(data, q5);
    let (k3, q6) = match r5 {
        Some(v) => v,
        None => {
            proof {
                assert forall|mv: UnencryptedMsgView| #[trigger] spec_enc_unenc_msg(mv) == data@
                    && hyp(mv) implies false by {}
            }
            return None;
        },
    };
    if !ascii_str_eq(k3.as_str(), "destination_ripe") {
        proof {
            assert forall|mv: UnencryptedMsgView| #[trigger] spec_enc_unenc_msg(mv) == data@
                && hyp(mv) implies false by {}
        }
        return None;
    }
    let r6 = read_text(data, q6);
    let (dest, q7) = match r6 {
        Some(v) => v,
        None => {
            proof {
                assert forall|mv: UnencryptedMsgView| #[trigger] spec_enc_unenc_msg(mv) == data@
                    && hyp(mv) implies false by {}
            }
            return None;
        },
    };
    let r7 = read_text(data, q7);
    let (k4, q8) = match r7 {
        Some(v) => v,
        None => {
            proof {
                assert forall|mv: UnencryptedMsgView| #[trigger] spec_enc_unenc_msg(mv) == data@
                    && hyp(mv) implies false by {}
            }
            return None;
        },
    };
    if !ascii_str_eq(k4.as_str(), "encoding") {
        proof {
            assert forall|mv: UnencryptedMsgView| #[trigger] spec_enc_unenc_msg(mv) == data@
                && hyp(mv) implies false by {}
        }
        return None;
    }
    let r8 = read_uint(data, q8);
    let (ev, q9) = match r8 {
        Some(v) => v,
        None => {
            proof {
                assert forall|mv: UnencryptedMsgView| #[trigger] spec_enc_unenc_msg(mv) == data@
                    && hyp(mv) implies false by {
                    lemma_uint_reads(data@, q8 as int, r8, spec_encoding_value(mv.encoding) as nat);
                }
            }
            return None;
        },
    };
    let encoding = if ev == 0 {
        MsgEncoding::Ignore
    } else if ev == 1 {
        MsgEncoding::Trivial
    } else if ev == 2 {
        MsgEncoding::Simple
    } else if ev == 3 {
        MsgEncoding::Extended
    } else {
        proof {
            assert forall|mv: UnencryptedMsgView| #[trigger] spec_enc_unenc_msg(mv) == data@
                && hyp(mv) implies false by {
                lemma_uint_reads(data@, q8 as int, r8, spec_encoding_value(mv.encoding) as nat);
            }
        }
        return None;
    };
    let ghost sv = sender@;
    let ghost dv = dest@;
    proof {
        let d = data@;
        let c4 = spec_enc_text(key_sender_ripe());
        let c5 = spec_enc_text(sv);
        let c6 = spec_enc_text(key_destination_ripe());
        let c7 = spec_enc_text(dv);
        let c8 = spec_enc_text(key_encoding());
        let c9 = spec_enc_uint(ev as nat);
        lemma_join(d, start as int, q4 as int, q5 as int, c4, c5);
        lemma_join(d, start as int, q5 as int, q6 as int, c4 + c5, c6);
        lemma_join(d, start as int, q6 as int, q7 as int, c4 + c5 + c6, c7);
        lemma_join(d, start as int, q7 as int, q8 as int, c4 + c5 + c6 + c7, c8);
        lemma_join(d, start as int, q8 as int, q9 as int, c4 + c5 + c6 + c7 + c8, c9);
        assert(spec_encoding_value(encoding) as nat == ev as nat);
        assert forall|mv: UnencryptedMsgView| #[trigger] spec_enc_unenc_msg(mv) == data@ && hyp(
            mv,
        ) implies sv == mv.sender_ripe && dv == mv.destination_ripe && encoding == mv.encoding && (
        q9 as int) == spec_enc_msg_head(
            mv.behavior_bitfield,
            mv.sender_ripe,
            mv.destination_ripe,
            mv.encoding,
        ).len() by {
            lemma_uint_reads(data@, q8 as int, r8, spec_encoding_value(mv.encoding) as nat);
        }
    }
    Some((sender, dest, encoding, q9))
}

/// Decode the tail of a Msg plaintext, which must reach the end of the
/// input.
#[verifier::rlimit(100)]
#[verifier::spinoff_prover]
fn decode_msg_tail(data: &[u8], start: usize) -> (r: Option<(Vec<u8>, Vec<u8>, Vec<u8>)>)
    requires
        start <= data@.len(),
    ensures
        match r {
            Some((message, psk, pek)) => data@.subrange(start as int, data@.len() as int)
                == spec_enc_msg_tail(message@, psk@, pek@),
            None => true,
        },
        forall|mv: UnencryptedMsgView| #![trigger spec_enc_unenc_msg(mv)]
            unenc_msg_ascii(mv) && data@ == spec_enc_unenc_msg(mv) && start as int
                == spec_enc_msg_head(
                mv.behavior_bitfield,
                mv.sender_ripe,
                mv.destination_ripe,
                mv.encoding,
            ).len() ==> (match r {
                Some((message, psk, pek)) => message@ == mv.message && psk@
                    == mv.public_signing_key && pek@ == mv.public_encryption_key,
                None => false,
            }),
{
    let dlen = data.len();
    assert(data@.len() < 0x1_0000_0000_0000_0000);
    proof {
        reveal_strlit("message");
        reveal_strlit("public_signing_key");
        reveal_strlit("public_encryption_key");
        assert("message"@ =~= key_message());
        assert("public_signing_key"@ =~= key_public_signing_key());
        assert("public_encryption_key"@ =~= key_public_encryption_key());
        lemma_key_ascii();
    }
    let ghost hyp = |mv: UnencryptedMsgView|
        unenc_msg_ascii(mv) && data@ == spec_enc_unenc_msg(mv) && start as int
            == spec_enc_msg_head(
            mv.behavior_bitfield,
            mv.sender_ripe,
            mv.destination_ripe,
            mv.encoding,
        ).len();
    let ghost tail_decomposed = |mv: UnencryptedMsgView|
        {
            let c10 = spec_enc_text(key_message());
            let c11 = spec_enc_bytes(mv.message);
            let c12 = spec_enc_text(key_public_signing_key());
            let c13 = spec_enc_bytes(mv.public_signing_key);
            let c14 = spec_enc_text(key_public_encryption_key());
            let c15 = spec_enc_bytes(mv.public_encryption_key);
            let p10 = start + c10.len();
            let p11 = p10 + c11.len();
            let p12 = p11 + c12.len();
            let p13 = p12 + c13.len();
            let p14 = p13 + c14.len();
            let p15 = p14 + c15.len();
            &&& p15 == data@.len()
            &&& data@.subrange(start as int, p10 as int) == c10
            &&& data@.subrange(p10 as int, p11 as int) == c11
            &&& data@.subrange(p11 as int, p12 as int) == c12
            &&& data@.subrange(p12 as int, p13 as int) == c13
            &&& data@.subrange(p13 as int, p14 as int) == c14
            &&& data@.subrange(p14 as int, p15 as int) == c15
        };
    proof {
        assert forall|mv: UnencryptedMsgView| #[trigger] spec_enc_unenc_msg(mv) == data@
            && hyp(mv) implies tail_decomposed(mv) by {
            lemma_msg_tail_decomposed(data@, mv, start as int);
        }
    }
    let r9 = read_text(data, start);
    let (k5, q10) = match r9 {
        Some(v) => v,
        None => {
            proof {
                assert forall|mv: UnencryptedMsgView| #[trigger] spec_enc_unenc_msg(mv) == data@
                    && hyp(mv) implies false by {}
            }
            return None;
        },
    };
    if !ascii_str_eq(k5.as_str(), "message") {
        proof {
            assert forall|mv: UnencryptedMsgView| #[trigger] spec_enc_unenc_msg(mv) == data@
                && hyp(mv) implies false by {}
        }
        return None;
    }
    let r10 = read_bytes(data, q10);
    let (message, q11) = match r10 {
        Some(v) => v,
        None => {
            proof {
                assert forall|mv: UnencryptedMsgView| #[trigger] spec_enc_unenc_msg(mv) == data@
                    && hyp(mv) implies false by {}
            }
            return None;
        },
    };
    let r11 = read_text(data, q11);
    let (k6, q12) = match r11 {
        Some(v) => v,
        None => {
            proof {
                assert forall|mv: UnencryptedMsgView| #[trigger] spec_enc_unenc_msg(mv) == data@
                    && hyp(mv) implies false by {}
            }
            return None;
        },
    };
    if !ascii_str_eq(k6.as_str(), "public_signing_key") {
        proof {
            assert forall|mv: UnencryptedMsgView| #[trigger] spec_enc_unenc_msg(mv) == data@
                && hyp(mv) implies false by {}
        }
        return None;
    }
    let r12 = read_bytes(data, q12);
    let (psk, q13) = match r12 {
        Some(v) => v,
        None => {
            proof {
                assert forall|mv: UnencryptedMsgView| #[trigger] spec_enc_unenc_msg(mv) == data@
                    && hyp(mv) implies false by {}
            }
            return None;
        },
    };
    let r13 = read_text(data, q13);
    let (k7, q14) = match r13 {
        Some(v) => v,
        None => {
            proof {
                assert forall|mv: UnencryptedMsgView| #[trigger] spec_enc_unenc_msg(mv) == data@
                    && hyp(mv) implies false by {}
            }
            return None;
        },
    };
    if !ascii_str_eq(k7.as_str(), "public_encryption_key") {
        proof {
            assert forall|mv: UnencryptedMsgView| #[trigger] spec_enc_unenc_msg(mv) == data@
                && hyp(mv) implies false by {}
        }
        return None;
    }
    let r14 = read_bytes(data, q14);
    let (pek, q15) = match r14 {
        Some(v) => v,
        None => {
            proof {
                assert forall|mv: UnencryptedMsgView| #[trigger] spec_enc_unenc_msg(mv) == data@
                    && hyp(mv) implies false by {}
            }
            return None;
        },
    };
    if q15 != dlen {
        proof {
            assert forall|mv: UnencryptedMsgView| #[trigger] spec_enc_unenc_msg(mv) == data@
                && hyp(mv) implies false by {}
        }
        return None;
    }
    let ghost mm = message@;
    let ghost pskv = psk@;
    let ghost pekv = pek@;
    proof {
        let d = data@;
        let c10 = spec_enc_text(key_message());
        let c11 = spec_enc_bytes(mm);
        let c12 = spec_enc_text(key_public_signing_key());
        let c13 = spec_enc_bytes(pskv);
        let c14 = spec_enc_text(key_public_encryption_key());
        let c15 = spec_enc_bytes(pekv);
        lemma_join(d, start as int, q10 as int, q11 as int, c10, c11);
        lemma_join(d, start as int, q11 as int, q12 as int, c10 + c11, c12);
        lemma_join(d, start as int, q12 as int, q13 as int, c10 + c11 + c12, c13);
        lemma_join(d, start as int, q13 as int, q14 as int, c10 + c11 + c12 + c13, c14);
        lemma_join(d, start as int, q14 as int, q15 as int, c10 + c11 + c12 + c13 + c14, c15);
    }
    Some((message, psk, pek))
}

/// Decode the plaintext of a Msg object; the exact inverse of
/// `encode_unenc_msg` on ASCII-addressed messages: it accepts exactly the
/// encoder's output and succeeds on all of it.
pub fn decode_unenc_msg(data: &[u8]) -> (r: Option<UnencryptedMsg>)
    ensures
        match r {
            Some(m) => data@ == spec_enc_unenc_msg(m@) && unenc_msg_ascii(m@),
            None => true,
        },
        forall|mv: UnencryptedMsgView| #![trigger spec_enc_unenc_msg(mv)]
            unenc_msg_ascii(mv) && data@ == spec_enc_unenc_msg(mv) ==> (match r {
                Some(m) => m@ == mv,
                None => false,
            }),
{
    let (behavior_bitfield, mid) = match decode_msg_part1(data) {
        Some(v) => v,
        None => {
            return None;
        },
    };
    let (sender_ripe, destination_ripe, encoding, pos) = match decode_msg_part2(data, mid) {
        Some(v) => v,
        None => {
            proof {
                assert forall|mv: UnencryptedMsgView| #[trigger] spec_enc_unenc_msg(mv) == data@
                    && unenc_msg_ascii(mv) implies false by {}
            }
            return None;
        },
    };
    proof {
        assert forall|mv: UnencryptedMsgView| #[trigger] spec_enc_unenc_msg(mv) == data@
            && unenc_msg_ascii(mv) implies (pos as int) == spec_enc_msg_head(
            mv.behavior_bitfield,
            mv.sender_ripe,
            mv.destination_ripe,
            mv.encoding,
        ).len() by {}
    }
    let (message, public_signing_key, public_encryption_key) = match decode_msg_tail(data, pos) {
        Some(v) => v,
        None => {
            proof {
                assert forall|mv: UnencryptedMsgView| #[trigger] spec_enc_unenc_msg(mv) == data@
                    && unenc_msg_ascii(mv) implies false by {}
            }
            return None;
        },
    };
    let result = UnencryptedMsg {
        behavior_bitfield,
        sender_ripe,
        destination_ripe,
        encoding,
        message,
        public_signing_key,
        public_encryption_key,
    };
    proof {
        let rv = result@;
        let head = spec_enc_msg_head(rv.behavior_bitfield, rv.sender_ripe, rv.destination_ripe, rv.encoding);
        assert(head =~= spec_enc_msg_part1(rv.behavior_bitfield) + spec_enc_msg_part2(
            rv.sender_ripe,
            rv.destination_ripe,
            rv.encoding,
        ));
        lemma_join(
            data@,
            0,
            mid as int,
            pos as int,
            spec_enc_msg_part1(rv.behavior_bitfield),
            spec_enc_msg_part2(rv.sender_ripe, rv.destination_ripe, rv.encoding),
        );
        lemma_msg_enc_split(rv);
        lemma_join(
            data@,
            0,
            pos as int,
            data@.len() as int,
            head,
            spec_enc_msg_tail(rv.message, rv.public_signing_key, rv.public_encryption_key),
        );
        assert(data@.subrange(0, data@.len() as int) =~= data@);
    }
    Some(result)
}

/// Bridge a known `nat` pair count to the `u64` quantifier of
/// `read_map_header`'s contract.
pub proof fn lemma_map_header_reads(data: Seq<u8>, i: int, r: Option<(u64, usize)>, n: nat)
    requires
        0 <= i,
        n < 0x1_0000_0000_0000_0000,
        i + spec_enc_map_header(n).len() <= data.len(),
        data.subrange(i, i + spec_enc_map_header(n).len()) == spec_enc_map_header(n),
        forall|v: u64|
            i + spec_enc_map_header(v as nat).len() <= data.len() && data.subrange(
                i,
                i + spec_enc_map_header(v as nat).len(),
            ) == spec_enc_map_header(v as nat) ==> r == Some(
                (v, (i + spec_enc_map_header(v as nat).len()) as usize),
            ),
    ensures
        r == Some((n as u64, (i + spec_enc_map_header(n).len()) as usize)),
{
    let v: u64 = n as u64;
    assert(spec_enc_map_header(v as nat) == spec_enc_map_header(n));
}

/// The tag key a kind variant is written under.
pub open spec fn kind_tag_key(kv: KindView) -> Seq<char> {
    match kv {
        KindView::Msg { .. } => key_msg(),
        KindView::Broadcast { .. } => key_broadcast(),
        KindView::Getpubkey { .. } => key_getpubkey(),
        KindView::Pubkey { .. } => key_pubkey(),
    }
}

/// Whether the encoding of kind `kv` matches a prefix of `data` at `i`.
pub open spec fn kind_at(data: Seq<u8>, i: int, kv: KindView) -> bool {
    &&& i + spec_enc_kind(kv).len() <= data.len()
    &&& data.subrange(i, i + spec_enc_kind(kv).len()) == spec_enc_kind(kv)
}

/// Where the encoding of a kind sits at `i`, its outer map header, its tag
/// key, and each of its fields sit at their own offsets.
proof fn lemma_kind_decomposed(data: Seq<u8>, i: int, kv: KindView)
    requires
        0 <= i,
        data.len() < 0x1_0000_0000_0000_0000,
        kind_at(data, i, kv),
    ensures
        ({
            let c1 = spec_enc_map_header(1);
            let c2 = spec_enc_text(kind_tag_key(kv));
            let p1 = i + c1.len();
            let p2 = p1 + c2.len();
            &&& p2 <= data.len()
            &&& data.subrange(i, p1) == c1
            &&& data.subrange(p1, p2) == c2
            &&& (match kv {
                KindView::Msg { encrypted } => {
                    let c3 = spec_enc_map_header(1);
                    let c4 = spec_enc_text(key_encrypted());
                    let c5 = spec_enc_bytes(encrypted);
                    let p3 = p2 + c3.len();
                    let p4 = p3 + c4.len();
                    let p5 = p4 + c5.len();
                    &&& p5 == i + spec_enc_kind(kv).len()
                    &&& data.subrange(p2, p3) == c3
                    &&& data.subrange(p3, p4) == c4
                    &&& data.subrange(p4, p5) == c5
                },
                KindView::Getpubkey { tag } => {
                    let c3 = spec_enc_map_header(1);
                    let c4 = spec_enc_text(key_tag());
                    let c5 = spec_enc_bytes(tag);
                    let p3 = p2 + c3.len();
                    let p4 = p3 + c4.len();
                    let p5 = p4 + c5.len();
                    &&& p5 == i + spec_enc_kind(kv).len()
                    &&& data.subrange(p2, p3) == c3
                    &&& data.subrange(p3, p4) == c4
                    &&& data.subrange(p4, p5) == c5
                },
                KindView::Broadcast { tag, encrypted } => {
                    let c3 = spec_enc_map_header(2);
                    let c4 = spec_enc_text(key_tag());
                    let c5 = spec_enc_bytes(tag);
                    let c6 = spec_enc_text(key_encrypted());
                    let c7 = spec_enc_bytes(encrypted);
                    let p3 = p2 + c3.len();
                    let p4 = p3 + c4.len();
                    let p5 = p4 + c5.len();
                    let p6 = p5 + c6.len();
                    let p7 = p6 + c7.len();
                    &&& p7 == i + spec_enc_kind(kv).len()
                    &&& data.subrange(p2, p3) == c3
                    &&& data.subrange(p3, p4) == c4
                    &&& data.subrange(p4, p5) == c5
                    &&& data.subrange(p5, p6) == c6
                    &&& data.subrange(p6, p7) == c7
                },
                KindView::Pubkey { tag, encrypted } => {
                    let c3 = spec_enc_map_header(2);
                    let c4 = spec_enc_text(key_tag());
                    let c5 = spec_enc_bytes(tag);
                    let c6 = spec_enc_text(key_encrypted());
                    let c7 = spec_enc_bytes(encrypted);
                    let p3 = p2 + c3.len();
                    let p4 = p3 + c4.len();
                    let p5 = p4 + c5.len();
                    let p6 = p5 + c6.len();
                    let p7 = p6 + c7.len();
                    &&& p7 == i + spec_enc_kind(kv).len()
                    &&& data.subrange(p2, p3) == c3
                    &&& data.subrange(p3, p4) == c4
                    &&& data.subrange(p4, p5) == c5
                    &&& data.subrange(p5, p6) == c6
                    &&& data.subrange(p6, p7) == c7
                },
            })
        }),
{
    match kv {
        KindView::Msg { encrypted } => {
            let c1 = spec_enc_map_header(1);
            let c2 = spec_enc_text(key_msg());
            let c3 = spec_enc_map_header(1);
            let c4 = spec_enc_text(key_encrypted());
            let c5 = spec_enc_bytes(encrypted);
            lemma_split2(data, i, c1 + c2 + c3 + c4, c5);
            lemma_split2(data, i, c1 + c2 + c3, c4);
            lemma_split2(data, i, c1 + c2, c3);
            lemma_split2(data, i, c1, c2);
        },
        KindView::Getpubkey { tag } => {
            let c1 = spec_enc_map_header(1);
            let c2 = spec_enc_text(key_getpubkey());
            let c3 = spec_enc_map_header(1);
            let c4 = spec_enc_text(key_tag());
            let c5 = spec_enc_bytes(tag);
            lemma_split2(data, i, c1 + c2 + c3 + c4, c5);
            lemma_split2(data, i, c1 + c2 + c3, c4);
            lemma_split2(data, i, c1 + c2, c3);
            lemma_split2(data, i, c1, c2);
        },
        KindView::Broadcast { tag, encrypted } => {
            let c1 = spec_enc_map_header(1);
            let c2 = spec_enc_text(key_broadcast());
            let c3 = spec_enc_map_header(2);
            let c4 = spec_enc_text(key_tag());
            let c5 = spec_enc_bytes(tag);
            let c6 = spec_enc_text(key_encrypted());
            let c7 = spec_enc_bytes(encrypted);
            lemma_split2(data, i, c1 + c2 + c3 + c4 + c5 + c6, c7);
            lemma_split2(data, i, c1 + c2 + c3 + c4 + c5, c6);
            lemma_split2(data, i, c1 + c2 + c3 + c4, c5);
            lemma_split2(data, i, c1 + c2 + c3, c4);
            lemma_split2(data, i, c1 + c2, c3);
            lemma_split2(data, i, c1, c2);
        },
        KindView::Pubkey { tag, encrypted } => {
            let c1 = spec_enc_map_header(1);
            let c2 = spec_enc_text(key_pubkey());
            let c3 = spec_enc_map_header(2);
            let c4 = spec_enc_text(key_tag());
            let c5 = spec_enc_bytes(tag);
            let c6 = spec_enc_text(key_encrypted());
            let c7 = spec_enc_bytes(encrypted);
            lemma_split2(data, i, c1 + c2 + c3 + c4 + c5 + c6, c7);
            lemma_split2(data, i, c1 + c2 + c3 + c4 + c5, c6);
            lemma_split2(data, i, c1 + c2 + c3 + c4, c5);
            lemma_split2(data, i, c1 + c2 + c3, c4);
            lemma_split2(data, i, c1 + c2, c3);
            lemma_split2(data, i, c1, c2);
        },
    }
}

/// Decode the single field of a Msg (`want_encrypted`) or Getpubkey kind:
/// a one-entry map holding one byte string.
#[verifier::rlimit(100)]
#[verifier::spinoff_prover]
fn decode_kind_single_field(data: &[u8], i: usize, pos: usize, want_encrypted: bool) -> (r: Option<
    (Vec<u8>, usize),
>)
    requires
        i <= pos <= data@.len(),
    ensures
        match r {
            Some((b, j)) => pos < j <= data@.len() && data@.subrange(pos as int, j as int)
                == spec_enc_map_header(1) + spec_enc_text(
                if want_encrypted {
                    key_encrypted()
                } else {
                    key_tag()
                },
            ) + spec_enc_bytes(b@),
            None => true,
        },
        forall|kv: KindView| #![trigger spec_enc_kind(kv)]
            kind_at(data@, i as int, kv) && (if want_encrypted {
                kv is Msg
            } else {
                kv is Getpubkey
            }) && pos as int == i + spec_enc_map_header(1).len() + spec_enc_text(
                kind_tag_key(kv),
            ).len() ==> (match r {
                Some((b, j)) => b@ == (if want_encrypted {
                    kv->Msg_encrypted
                } else {
                    kv->Getpubkey_tag
                }) && j == i + spec_enc_kind(kv).len(),
                None => false,
            }),
{
    let _dl = data.len();
    assert(data@.len() < 0x1_0000_0000_0000_0000);
    proof {
        reveal_strlit("tag");
        reveal_strlit("encrypted");
        assert("tag"@ =~= key_tag());
        assert("encrypted"@ =~= key_encrypted());
        lemma_key_ascii();
    }
    let r2 = read_map_header(data, pos);
    let (fcount, q3) = match r2 {
        Some(v) => v,
        None => {
            proof {
                assert forall|kv: KindView| #[trigger]
                    spec_enc_kind(kv).len() >= 0 && kind_at(data@, i as int, kv) && (
                if want_encrypted {
                    kv is Msg
                } else {
                    kv is Getpubkey
                }) && pos as int == i + spec_enc_map_header(1).len() + spec_enc_text(
                    kind_tag_key(kv),
                ).len() implies false by {
                    lemma_kind_decomposed(data@, i as int, kv);
                    lemma_map_header_reads(data@, pos as int, r2, 1);
                }
            }
            return None;
        },
    };
    if fcount != 1 {
        proof {
            assert forall|kv: KindView| #[trigger]
                spec_enc_kind(kv).len() >= 0 && kind_at(data@, i as int, kv) && (
            if want_encrypted {
                kv is Msg
            } else {
                kv is Getpubkey
            }) && pos as int == i + spec_enc_map_header(1).len() + spec_enc_text(
                kind_tag_key(kv),
            ).len() implies false by {
                lemma_kind_decomposed(data@, i as int, kv);
                lemma_map_header_reads(data@, pos as int, r2, 1);
            }
        }
        return None;
    }
    let r3 = read_text(data, q3);
    let (k1, q4) = match r3 {
        Some(v) => v,
        None => {
            proof {
                assert forall|kv: KindView| #[trigger]
                    spec_enc_kind(kv).len() >= 0 && kind_at(data@, i as int, kv) && (
                if want_encrypted {
                    kv is Msg
                } else {
                    kv is Getpubkey
                }) && pos as int == i + spec_enc_map_header(1).len() + spec_enc_text(
                    kind_tag_key(kv),
                ).len() implies false by {
                    lemma_kind_decomposed(data@, i as int, kv);
                    lemma_map_header_reads(data@, pos as int, r2, 1);
                }
            }
            return None;
        },
    };
    let key_ok = if want_encrypted {
        ascii_str_eq(k1.as_str(), "encrypted")
    } else {
        ascii_str_eq(k1.as_str(), "tag")
    };
    if !key_ok {
        proof {
            assert forall|kv: KindView| #[trigger]
                spec_enc_kind(kv).len() >= 0 && kind_at(data@, i as int, kv) && (
            if want_encrypted {
                kv is Msg
            } else {
                kv is Getpubkey
            }) && pos as int == i + spec_enc_map_header(1).len() + spec_enc_text(
                kind_tag_key(kv),
            ).len() implies false by {
                lemma_kind_decomposed(data@, i as int, kv);
                lemma_map_header_reads(data@, pos as int, r2, 1);
            }
        }
        return None;
    }
    let r4 = read_bytes(data, q4);
    match r4 {
        Some((b, j)) => {
            let ghost bv = b@;
            proof {
                let d = data@;
                let key = if want_encrypted {
                    key_encrypted()
                } else {
                    key_tag()
                };
                lemma_join(d, pos as int, q3 as int, q4 as int, spec_enc_map_header(1),
                    spec_enc_text(key));
                lemma_join(
                    d,
                    pos as int,
                    q4 as int,
                    j as int,
                    spec_enc_map_header(1) + spec_enc_text(key),
                    spec_enc_bytes(bv),
                );
                assert forall|kv: KindView| #[trigger]
                    spec_enc_kind(kv).len() >= 0 && kind_at(data@, i as int, kv) && (
                if want_encrypted {
                    kv is Msg
                } else {
                    kv is Getpubkey
                }) && pos as int == i + spec_enc_map_header(1).len() + spec_enc_text(
                    kind_tag_key(kv),
                ).len() implies bv == (if want_encrypted {
                    kv->Msg_encrypted
                } else {
                    kv->Getpubkey_tag
                }) && (j as int) == i + spec_enc_kind(kv).len() by {
                    lemma_kind_decomposed(data@, i as int, kv);
                    lemma_map_header_reads(data@, pos as int, r2, 1);
                }
            }
            Some((b, j))
        },
        None => {
            proof {
                assert forall|kv: KindView| #[trigger]
                    spec_enc_kind(kv).len() >= 0 && kind_at(data@, i as int, kv) && (
                if want_encrypted {
                    kv is Msg
                } else {
                    kv is Getpubkey
                }) && pos as int == i + spec_enc_map_header(1).len() + spec_enc_text(
                    kind_tag_key(kv),
                ).len() implies false by {
                    lemma_kind_decomposed(data@, i as int, kv);
                    lemma_map_header_reads(data@, pos as int, r2, 1);
                }
            }
            None
        },
    }
}

/// Decode the two fields of a Broadcast (`is_broadcast`) or Pubkey kind: a
/// two-entry map holding the tag and the ciphertext.
#[verifier::rlimit(100)]
#[verifier::spinoff_prover]
fn decode_kind_double_field(data: &[u8], i: usize, pos: usize, is_broadcast: bool) -> (r: Option<
    (Vec<u8>, Vec<u8>, usize),
>)
    requires
        i <= pos <= data@.len(),
    ensures
        match r {
            Some((t, e, j)) => pos < j <= data@.len() && data@.subrange(pos as int, j as int)
                == spec_enc_map_header(2) + spec_enc_text(key_tag()) + spec_enc_bytes(t@)
                + spec_enc_text(key_encrypted()) + spec_enc_bytes(e@),
            None => true,
        },
        forall|kv: KindView| #![trigger spec_enc_kind(kv)]
            kind_at(data@, i as int, kv) && (if is_broadcast {
                kv is Broadcast
            } else {
                kv is Pubkey
            }) && pos as int == i + spec_enc_map_header(1).len() + spec_enc_text(
                kind_tag_key(kv),
            ).len() ==> (match r {
                Some((t, e, j)) => t@ == (if is_broadcast {
                    kv->Broadcast_tag
                } else {
                    kv->Pubkey_tag
                }) && e@ == (if is_broadcast {
                    kv->Broadcast_encrypted
                } else {
                    kv->Pubkey_encrypted
                }) && j == i + spec_enc_kind(kv).len(),
                None => false,
            }),
{
    let _dl = data.len();
    assert(data@.len() < 0x1_0000_0000_0000_0000);
    proof {
        reveal_strlit("tag");
        reveal_strlit("encrypted");
        assert("tag"@ =~= key_tag());
        assert("encrypted"@ =~= key_encrypted());
        lemma_key_ascii();
    }
    let ghost hyp = |kv: KindView|
        kind_at(data@, i as int, kv) && (if is_broadcast {
            kv is Broadcast
        } else {
            kv is Pubkey
        }) && pos as int == i + spec_enc_map_header(1).len() + spec_enc_text(
            kind_tag_key(kv),
        ).len();
    let r2 = read_map_header(data, pos);
    let (fcount, q3) = match r2 {
        Some(v) => v,
        None => {
            proof {
                assert forall|kv: KindView| #[trigger]
                    spec_enc_kind(kv).len() >= 0 && hyp(kv) implies false by {
                    lemma_kind_decomposed(data@, i as int, kv);
                    lemma_map_header_reads(data@, pos as int, r2, 2);
                }
            }
            return None;
        },
    };
    if fcount != 2 {
        proof {
            assert forall|kv: KindView| #[trigger]
                spec_enc_kind(kv).len() >= 0 && hyp(kv) implies false by {
                lemma_kind_decomposed(data@, i as int, kv);
                lemma_map_header_reads(data@, pos as int, r2, 2);
            }
        }
        return None;
    }
    let r3 = read_text(data, q3);
    let (k1, q4) = match r3 {
        Some(v) => v,
        None => {
            proof {
                assert forall|kv: KindView| #[trigger]
                    spec_enc_kind(kv).len() >= 0 && hyp(kv) implies false by {
                    lemma_kind_decomposed(data@, i as int, kv);
                    lemma_map_header_reads(data@, pos as int, r2, 2);
                }
            }
            return None;
        },
    };
    if !ascii_str_eq(k1.as_str(), "tag") {
        proof {
            assert forall|kv: KindView| #[trigger]
                spec_enc_kind(kv).len() >= 0 && hyp(kv) implies false by {
                lemma_kind_decomposed(data@, i as int, kv);
                lemma_map_header_reads(data@, pos as int, r2, 2);
            }
        }
        return None;
    }
    let r4 = read_bytes(data, q4);
    let (tagb, q5) = match r4 {
        Some(v) => v,
        None => {
            proof {
                assert forall|kv: KindView| #[trigger]
                    spec_enc_kind(kv).len() >= 0 && hyp(kv) implies false by {
                    lemma_kind_decomposed(data@, i as int, kv);
                    lemma_map_header_reads(data@, pos as int, r2, 2);
                }
            }
            return None;
        },
    };
    let r5 = read_text(data, q5);
    let (k2, q6) = match r5 {
        Some(v) => v,
        None => {
            proof {
                assert forall|kv: KindView| #[trigger]
                    spec_enc_kind(kv).len() >= 0 && hyp(kv) implies false by {
                    lemma_kind_decomposed(data@, i as int, kv);
                    lemma_map_header_reads(data@, pos as int, r2, 2);
                }
            }
            return None;
        },
    };
    if !ascii_str_eq(k2.as_str(), "encrypted") {
        proof {
            assert forall|kv: KindView| #[trigger]
                spec_enc_kind(kv).len() >= 0 && hyp(kv) implies false by {
                lemma_kind_decomposed(data@, i as int, kv);
                lemma_map_header_reads(data@, pos as int, r2, 2);
            }
        }
        return None;
    }
    let r6 = read_bytes(data, q6);
    match r6 {
        Some((e, j)) => {
            let ghost tv = tagb@;
            let ghost ev = e@;
            proof {
                let d = data@;
                lemma_join(d, pos as int, q3 as int, q4 as int, spec_enc_map_header(2),
                    spec_enc_text(key_tag()));
                lemma_join(
                    d,
                    pos as int,
                    q4 as int,
                    q5 as int,
                    spec_enc_map_header(2) + spec_enc_text(key_tag()),
                    spec_enc_bytes(tv),
                );
                lemma_join(
                    d,
                    pos as int,
                    q5 as int,
                    q6 as int,
                    spec_enc_map_header(2) + spec_enc_text(key_tag()) + spec_enc_bytes(tv),
                    spec_enc_text(key_encrypted()),
                );
                lemma_join(
                    d,
                    pos as int,
                    q6 as int,
                    j as int,
                    spec_enc_map_header(2) + spec_enc_text(key_tag()) + spec_enc_bytes(tv)
                        + spec_enc_text(key_encrypted()),
                    spec_enc_bytes(ev),
                );
                assert forall|kv: KindView| #[trigger]
                    spec_enc_kind(kv).len() >= 0 && hyp(kv) implies tv == (if is_broadcast {
                    kv->Broadcast_tag
                } else {
                    kv->Pubkey_tag
                }) && ev == (if is_broadcast {
                    kv->Broadcast_encrypted
                } else {
                    kv->Pubkey_encrypted
                }) && (j as int) == i + spec_enc_kind(kv).len() by {
                    lemma_kind_decomposed(data@, i as int, kv);
                    lemma_map_header_reads(data@, pos as int, r2, 2);
                }
            }
            Some((tagb, e, j))
        },
        None => {
            proof {
                assert forall|kv: KindView| #[trigger]
                    spec_enc_kind(kv).len() >= 0 && hyp(kv) implies false by {
                    lemma_kind_decomposed(data@, i as int, kv);
                    lemma_map_header_reads(data@, pos as int, r2, 2);
                }
            }
            None
        },
    }
}

/// Decode an object kind. Strict: whatever it accepts re-encodes to exactly
/// the consumed bytes, and every encoded kind is accepted, to itself.
#[verifier::rlimit(100)]
#[verifier::spinoff_prover]
pub fn decode_kind(data: &[u8], i: usize) -> (r: Option<(ObjectKind, usize)>)
    ensures
        match r {
            Some((k, j)) => i < j <= data@.len() && data@.subrange(i as int, j as int)
                == spec_enc_kind(k@),
            None => true,
        },
        forall|kv: KindView| #![trigger spec_enc_kind(kv)]
            kind_at(data@, i as int, kv) ==> (match r {
                Some((k, j)) => k@ == kv && j == i + spec_enc_kind(kv).len(),
                None => false,
            }),
{
    let _dl = data.len();
    assert(data@.len() < 0x1_0000_0000_0000_0000);
    proof {
        reveal_strlit("Msg");
        reveal_strlit("Broadcast");
        reveal_strlit("Getpubkey");
        reveal_strlit("Pubkey");
        assert("Msg"@ =~= key_msg());
        assert("Broadcast"@ =~= key_broadcast());
        assert("Getpubkey"@ =~= key_getpubkey());
        assert("Pubkey"@ =~= key_pubkey());
        lemma_key_ascii();
    }
    let r0 = read_map_header(data, i);
    let (count, q1) = match r0 {
        Some(v) => v,
        None => {
            proof {
                assert forall|kv: KindView| #[trigger]
                    spec_enc_kind(kv).len() >= 0 && kind_at(data@, i as int, kv) implies false by {
                    lemma_kind_decomposed(data@, i as int, kv);
                    lemma_map_header_reads(data@, i as int, r0, 1);
                }
            }
            return None;
        },
    };
    if count != 1 {
        proof {
            assert forall|kv: KindView| #[trigger]
                spec_enc_kind(kv).len() >= 0 && kind_at(data@, i as int, kv) implies false by {
                lemma_kind_decomposed(data@, i as int, kv);
                lemma_map_header_reads(data@, i as int, r0, 1);
            }
        }
        return None;
    }
    let r1 = read_text(data, q1);
    let (tag_text, q2) = match r1 {
        Some(v) => v,
        None => {
            proof {
                assert forall|kv: KindView| #[trigger]
                    spec_enc_kind(kv).len() >= 0 && kind_at(data@, i as int, kv) implies false by {
                    lemma_kind_decomposed(data@, i as int, kv);
                    lemma_map_header_reads(data@, i as int, r0, 1);
                }
            }
            return None;
        },
    };
    proof {
        assert forall|kv: KindView| #[trigger]
            spec_enc_kind(kv).len() >= 0 && kind_at(data@, i as int, kv) implies tag_text@
            == kind_tag_key(kv) && (q2 as int) == i + spec_enc_map_header(1).len()
            + spec_enc_text(kind_tag_key(kv)).len() by {
            lemma_kind_decomposed(data@, i as int, kv);
            lemma_map_header_reads(data@, i as int, r0, 1);
        }
    }
    if ascii_str_eq(tag_text.as_str(), "Msg") {
        match decode_kind_single_field(data, i, q2, true) {
            Some((encrypted, j)) => {
                let ghost ev = encrypted@;
                let result = ObjectKind::Msg { encrypted };
                proof {
                    let d = data@;
                    lemma_join(d, i as int, q1 as int, q2 as int, spec_enc_map_header(1),
                        spec_enc_text(key_msg()));
                    lemma_join(
                        d,
                        i as int,
                        q2 as int,
                        j as int,
                        spec_enc_map_header(1) + spec_enc_text(key_msg()),
                        spec_enc_map_header(1) + spec_enc_text(key_encrypted()) + spec_enc_bytes(
                            ev,
                        ),
                    );
                    assert(d.subrange(i as int, j as int) =~= spec_enc_kind(result@));
                }
                Some((result, j))
            },
            None => None,
        }
    } else if ascii_str_eq(tag_text.as_str(), "Getpubkey") {
        match decode_kind_single_field(data, i, q2, false) {
            Some((tag, j)) => {
                let ghost tv = tag@;
                let result = ObjectKind::Getpubkey { tag };
                proof {
                    let d = data@;
                    lemma_join(d, i as int, q1 as int, q2 as int, spec_enc_map_header(1),
                        spec_enc_text(key_getpubkey()));
                    lemma_join(
                        d,
                        i as int,
                        q2 as int,
                        j as int,
                        spec_enc_map_header(1) + spec_enc_text(key_getpubkey()),
                        spec_enc_map_header(1) + spec_enc_text(key_tag()) + spec_enc_bytes(tv),
                    );
                    assert(d.subrange(i as int, j as int) =~= spec_enc_kind(result@));
                }
                Some((result, j))
            },
            None => None,
        }
    } else if ascii_str_eq(tag_text.as_str(), "Broadcast") {
        match decode_kind_double_field(data, i, q2, true) {
            Some((tag, encrypted, j)) => {
                let ghost tv = tag@;
                let ghost ev = encrypted@;
                let result = ObjectKind::Broadcast { tag, encrypted };
                proof {
                    let d = data@;
                    lemma_join(d, i as int, q1 as int, q2 as int, spec_enc_map_header(1),
                        spec_enc_text(key_broadcast()));
                    lemma_join(
                        d,
                        i as int,
                        q2 as int,
                        j as int,
                        spec_enc_map_header(1) + spec_enc_text(key_broadcast()),
                        spec_enc_map_header(2) + spec_enc_text(key_tag()) + spec_enc_bytes(tv)
                            + spec_enc_text(key_encrypted()) + spec_enc_bytes(ev),
                    );
                    assert(d.subrange(i as int, j as int) =~= spec_enc_kind(result@));
                }
                Some((result, j))
            },
            None => None,
        }
    } else if ascii_str_eq(tag_text.as_str(), "Pubkey") {
        match decode_kind_double_field(data, i, q2, false) {
            Some((tag, encrypted, j)) => {
                let ghost tv = tag@;
                let ghost ev = encrypted@;
                let result = ObjectKind::Pubkey { tag, encrypted };
                proof {
                    let d = data@;
                    lemma_join(d, i as int, q1 as int, q2 as int, spec_enc_map_header(1),
                        spec_enc_text(key_pubkey()));
                    lemma_join(
                        d,
                        i as int,
                        q2 as int,
                        j as int,
                        spec_enc_map_header(1) + spec_enc_text(key_pubkey()),
                        spec_enc_map_header(2) + spec_enc_text(key_tag()) + spec_enc_bytes(tv)
                            + spec_enc_text(key_encrypted()) + spec_enc_bytes(ev),
                    );
                    assert(d.subrange(i as int, j as int) =~= spec_enc_kind(result@));
                }
                Some((result, j))
            },
            None => None,
        }
    } else {
        proof {
            assert forall|kv: KindView| #[trigger]
                spec_enc_kind(kv).len() >= 0 && kind_at(data@, i as int, kv) implies false by {}
        }
        None
    }
}

/// The opening section of an object encoding: map header, hash, nonce.
pub open spec fn spec_enc_obj_a(hash: Seq<u8>, nonce: Seq<u8>) -> Seq<u8> {
    spec_enc_map_header(7) + spec_enc_text(key_hash()) + spec_enc_bytes(hash) + spec_enc_text(
        key_nonce(),
    ) + spec_enc_bytes(nonce)
}

/// The middle section: expiry and signature.
pub open spec fn spec_enc_obj_b(expires: int, signature: Seq<u8>) -> Seq<u8> {
    spec_enc_text(key_expires()) + spec_enc_int(expires) + spec_enc_text(key_signature())
        + spec_enc_bytes(signature)
}

/// The closing section: kind and the two difficulty parameters.
pub open spec fn spec_enc_obj_c(kind: KindView, ntpb: u32, eb: u32) -> Seq<u8> {
    spec_enc_text(key_kind()) + spec_enc_kind(kind) + spec_enc_text(key_nonce_trials())
        + spec_enc_uint(ntpb as nat) + spec_enc_text(key_extra_bytes()) + spec_enc_uint(eb as nat)
}

/// The whole object encoding is its three sections.
pub proof fn lemma_object_sections(ov: crate::messages::ObjectView)
    ensures
        spec_enc_object(ov) == spec_enc_obj_a(ov.hash, ov.nonce) + spec_enc_obj_b(
            ov.expires,
            ov.signature,
        ) + spec_enc_obj_c(ov.kind, ov.nonce_trials_per_byte, ov.extra_bytes),
{
    assert(spec_enc_object(ov) =~= spec_enc_obj_a(ov.hash, ov.nonce) + spec_enc_obj_b(
        ov.expires,
        ov.signature,
    ) + spec_enc_obj_c(ov.kind, ov.nonce_trials_per_byte, ov.extra_bytes));
}

/// Whether the encoding of object `ov` (with a representable expiry)
/// matches a prefix of `data` at `i`.
pub open spec fn object_at(data: Seq<u8>, i: int, ov: crate::messages::ObjectView) -> bool {
    &&& i64::MIN <= ov.expires <= i64::MAX
    &&& i + spec_enc_object(ov).len() <= data.len()
    &&& data.subrange(i, i + spec_enc_object(ov).len()) == spec_enc_object(ov)
}

/// Where the encoding of an object sits at `i`, each of its fifteen chunks
/// sits at its own offset.
proof fn lemma_object_decomposed(data: Seq<u8>, i: int, ov: crate::messages::ObjectView)
    requires
        0 <= i,
        data.len() < 0x1_0000_0000_0000_0000,
        object_at(data, i, ov),
    ensures
        ({
            let c1 = spec_enc_map_header(7);
            let c2 = spec_enc_text(key_hash());
            let c3 = spec_enc_bytes(ov.hash);
            let c4 = spec_enc_text(key_nonce());
            let c5 = spec_enc_bytes(ov.nonce);
            let c6 = spec_enc_text(key_expires());
            let c7 = spec_enc_int(ov.expires);
            let c8 = spec_enc_text(key_signature());
            let c9 = spec_enc_bytes(ov.signature);
            let c10 = spec_enc_text(key_kind());
            let c11 = spec_enc_kind(ov.kind);
            let c12 = spec_enc_text(key_nonce_trials());
            let c13 = spec_enc_uint(ov.nonce_trials_per_byte as nat);
            let c14 = spec_enc_text(key_extra_bytes());
            let c15 = spec_enc_uint(ov.extra_bytes as nat);
            let p1 = i + c1.len();
            let p2 = p1 + c2.len();
            let p3 = p2 + c3.len();
            let p4 = p3 + c4.len();
            let p5 = p4 + c5.len();
            let p6 = p5 + c6.len();
            let p7 = p6 + c7.len();
            let p8 = p7 + c8.len();
            let p9 = p8 + c9.len();
            let p10 = p9 + c10.len();
            let p11 = p10 + c11.len();
            let p12 = p11 + c12.len();
            let p13 = p12 + c13.len();
            let p14 = p13 + c14.len();
            let p15 = p14 + c15.len();
            &&& p15 == i + spec_enc_object(ov).len()
            &&& data.subrange(i, p1) == c1
            &&& data.subrange(p1, p2) == c2
            &&& data.subrange(p2, p3) == c3
            &&& data.subrange(p3, p4) == c4
            &&& data.subrange(p4, p5) == c5
            &&& data.subrange(p5, p6) == c6
            &&& data.subrange(p6, p7) == c7
            &&& data.subrange(p7, p8) == c8
            &&& data.subrange(p8, p9) == c9
            &&& data.subrange(p9, p10) == c10
            &&& data.subrange(p10, p11) == c11
            &&& data.subrange(p11, p12) == c12
            &&& data.subrange(p12, p13) == c13
            &&& data.subrange(p13, p14) == c14
            &&& data.subrange(p14, p15) == c15
        }),
{
    let c1 = spec_enc_map_header(7);
    let c2 = spec_enc_text(key_hash());
    let c3 = spec_enc_bytes(ov.hash);
    let c4 = spec_enc_text(key_nonce());
    let c5 = spec_enc_bytes(ov.nonce);
    let c6 = spec_enc_text(key_expires());
    let c7 = spec_enc_int(ov.expires);
    let c8 = spec_enc_text(key_signature());
    let c9 = spec_enc_bytes(ov.signature);
    let c10 = spec_enc_text(key_kind());
    let c11 = spec_enc_kind(ov.kind);
    let c12 = spec_enc_text(key_nonce_trials());
    let c13 = spec_enc_uint(ov.nonce_trials_per_byte as nat);
    let c14 = spec_enc_text(key_extra_bytes());
    let c15 = spec_enc_uint(ov.extra_bytes as nat);
    lemma_split2(data, i, c1 + c2 + c3 + c4 + c5 + c6 + c7 + c8 + c9 + c10 + c11 + c12 + c13
        + c14, c15);
    lemma_split2(data, i, c1 + c2 + c3 + c4 + c5 + c6 + c7 + c8 + c9 + c10 + c11 + c12 + c13,
        c14);
    lemma_split2(data, i, c1 + c2 + c3 + c4 + c5 + c6 + c7 + c8 + c9 + c10 + c11 + c12, c13);
    lemma_split2(data, i, c1 + c2 + c3 + c4 + c5 + c6 + c7 + c8 + c9 + c10 + c11, c12);
    lemma_split2(data, i, c1 + c2 + c3 + c4 + c5 + c6 + c7 + c8 + c9 + c10, c11);
    lemma_split2(data, i, c1 + c2 + c3 + c4 + c5 + c6 + c7 + c8 + c9, c10);
    lemma_split2(data, i, c1 + c2 + c3 + c4 + c5 + c6 + c7 + c8, c9);
    lemma_split2(data, i, c1 + c2 + c3 + c4 + c5 + c6 + c7, c8);
    lemma_split2(data, i, c1 + c2 + c3 + c4 + c5 + c6, c7);
    lemma_split2(data, i, c1 + c2 + c3 + c4 + c5, c6);
    lemma_split2(data, i, c1 + c2 + c3 + c4, c5);
    lemma_split2(data, i, c1 + c2 + c3, c4);
    lemma_split2(data, i, c1 + c2, c3);
    lemma_split2(data, i, c1, c2);
}

/// Bridge a known `i64` value to the quantifier of `read_int`'s contract.
proof fn lemma_int_reads(data: Seq<u8>, i: int, r: Option<(i64, usize)>, n: int)
    requires
        0 <= i,
        i64::MIN <= n <= i64::MAX,
        i + spec_enc_int(n).len() <= data.len(),
        data.subrange(i, i + spec_enc_int(n).len()) == spec_enc_int(n),
        forall|v: i64|
            i + spec_enc_int(v as int).len() <= data.len() && data.subrange(
                i,
                i + spec_enc_int(v as int).len(),
            ) == spec_enc_int(v as int) ==> r == Some(
                (v, (i + spec_enc_int(v as int).len()) as usize),
            ),
    ensures
        r == Some((n as i64, (i + spec_enc_int(n).len()) as usize)),
{
    let v: i64 = n as i64;
    assert(spec_enc_int(v as int) == spec_enc_int(n));
}

/// Decode the opening section of an object: map header, hash, nonce.
#[verifier::rlimit(100)]
#[verifier::spinoff_prover]
fn decode_obj_a(data: &[u8], i: usize) -> (r: Option<(Vec<u8>, Vec<u8>, usize)>)
    ensures
        match r {
            Some((h, n, j)) => i < j <= data@.len() && data@.subrange(i as int, j as int)
                == spec_enc_obj_a(h@, n@),
            None => true,
        },
        forall|ov: crate::messages::ObjectView| #![trigger spec_enc_object(ov)]
            object_at(data@, i as int, ov) ==> (match r {
                Some((h, n, j)) => h@ == ov.hash && n@ == ov.nonce && j as int == i
                    + spec_enc_obj_a(ov.hash, ov.nonce).len(),
                None => false,
            }),
{
    let _dl = data.len();
    assert(data@.len() < 0x1_0000_0000_0000_0000);
    proof {
        reveal_strlit("hash");
        reveal_strlit("nonce");
        assert("hash"@ =~= key_hash());
        assert("nonce"@ =~= key_nonce());
        lemma_key_ascii2();
    }
    let r0 = read_map_header(data, i);
    let (count, q1) = match r0 {
        Some(v) => v,
        None => {
            proof {
                assert forall|ov: crate::messages::ObjectView| #[trigger]
                    spec_enc_object(ov).len() >= 0 && object_at(data@, i as int, ov)
                    implies false by {
                    lemma_object_decomposed(data@, i as int, ov);
                    lemma_map_header_reads(data@, i as int, r0, 7);
                }
            }
            return None;
        },
    };
    if count != 7 {
        proof {
            assert forall|ov: crate::messages::ObjectView| #[trigger]
                spec_enc_object(ov).len() >= 0 && object_at(data@, i as int, ov) implies false by {
                lemma_object_decomposed(data@, i as int, ov);
                lemma_map_header_reads(data@, i as int, r0, 7);
            }
        }
        return None;
    }
    let r1 = read_text(data, q1);
    let (k1, q2) = match r1 {
        Some(v) => v,
        None => {
            proof {
                assert forall|ov: crate::messages::ObjectView| #[trigger]
                    spec_enc_object(ov).len() >= 0 && object_at(data@, i as int, ov)
                    implies false by {
                    lemma_object_decomposed(data@, i as int, ov);
                    lemma_map_header_reads(data@, i as int, r0, 7);
                }
            }
            return None;
        },
    };
    if !ascii_str_eq(k1.as_str(), "hash") {
        proof {
            assert forall|ov: crate::messages::ObjectView| #[trigger]
                spec_enc_object(ov).len() >= 0 && object_at(data@, i as int, ov) implies false by {
                lemma_object_decomposed(data@, i as int, ov);
                lemma_map_header_reads(data@, i as int, r0, 7);
            }
        }
        return None;
    }
    let r2 = read_bytes(data, q2);
    let (hash, q3) = match r2 {
        Some(v) => v,
        None => {
            proof {
                assert forall|ov: crate::messages::ObjectView| #[trigger]
                    spec_enc_object(ov).len() >= 0 && object_at(data@, i as int, ov)
                    implies false by {
                    lemma_object_decomposed(data@, i as int, ov);
                    lemma_map_header_reads(data@, i as int, r0, 7);
                }
            }
            return None;
        },
    };
    let r3 = read_text(data, q3);
    let (k2, q4) = match r3 {
        Some(v) => v,
        None => {
            proof {
                assert forall|ov: crate::messages::ObjectView| #[trigger]
                    spec_enc_object(ov).len() >= 0 && object_at(data@, i as int, ov)
                    implies false by {
                    lemma_object_decomposed(data@, i as int, ov);
                    lemma_map_header_reads(data@, i as int, r0, 7);
                }
            }
            return None;
        },
    };
    if !ascii_str_eq(k2.as_str(), "nonce") {
        proof {
            assert forall|ov: crate::messages::ObjectView| #[trigger]
                spec_enc_object(ov).len() >= 0 && object_at(data@, i as int, ov) implies false by {
                lemma_object_decomposed(data@, i as int, ov);
                lemma_map_header_reads(data@, i as int, r0, 7);
            }
        }
        return None;
    }
    let r4 = read_bytes(data, q4);
    match r4 {
        Some((nonce, j)) => {
            let ghost hv = hash@;
            let ghost nv = nonce@;
            proof {
                let d = data@;
                lemma_join(d, i as int, q1 as int, q2 as int, spec_enc_map_header(7),
                    spec_enc_text(key_hash()));
                lemma_join(
                    d,
                    i as int,
                    q2 as int,
                    q3 as int,
                    spec_enc_map_header(7) + spec_enc_text(key_hash()),
                    spec_enc_bytes(hv),
                );
                lemma_join(
                    d,
                    i as int,
                    q3 as int,
                    q4 as int,
                    spec_enc_map_header(7) + spec_enc_text(key_hash()) + spec_enc_bytes(hv),
                    spec_enc_text(key_nonce()),
                );
                lemma_join(
                    d,
                    i as int,
                    q4 as int,
                    j as int,
                    spec_enc_map_header(7) + spec_enc_text(key_hash()) + spec_enc_bytes(hv)
                        + spec_enc_text(key_nonce()),
                    spec_enc_bytes(nv),
                );
                assert forall|ov: crate::messages::ObjectView| #[trigger]
                    spec_enc_object(ov).len() >= 0 && object_at(data@, i as int, ov) implies hv
                    == ov.hash && nv == ov.nonce && (j as int) == i + spec_enc_obj_a(
                    ov.hash,
                    ov.nonce,
                ).len() by {
                    lemma_object_decomposed(data@, i as int, ov);
                    lemma_map_header_reads(data@, i as int, r0, 7);
                }
            }
            Some((hash, nonce, j))
        },
        None => {
            proof {
                assert forall|ov: crate::messages::ObjectView| #[trigger]
                    spec_enc_object(ov).len() >= 0 && object_at(data@, i as int, ov)
                    implies false by {
                    lemma_object_decomposed(data@, i as int, ov);
                    lemma_map_header_reads(data@, i as int, r0, 7);
                }
            }
            None
        },
    }
}

/// The object field keys are ASCII.
pub proof fn lemma_key_ascii2()
    ensures
        vstd::utf8::is_ascii_chars(key_hash()),
        vstd::utf8::is_ascii_chars(key_nonce()),
        vstd::utf8::is_ascii_chars(key_expires()),
        vstd::utf8::is_ascii_chars(key_signature()),
        vstd::utf8::is_ascii_chars(key_kind()),
        vstd::utf8::is_ascii_chars(key_nonce_trials()),
        vstd::utf8::is_ascii_chars(key_extra_bytes()),
{
}

/// Decode the middle section of an object: expiry and signature.
#[verifier::rlimit(100)]
#[verifier::spinoff_prover]
fn decode_obj_b(data: &[u8], i: usize, pos: usize) -> (r: Option<(i64, Vec<u8>, usize)>)
    requires
        i <= pos <= data@.len(),
    ensures
        match r {
            Some((e, sg, j)) => pos < j <= data@.len() && data@.subrange(pos as int, j as int)
                == spec_enc_obj_b(e as int, sg@),
            None => true,
        },
        forall|ov: crate::messages::ObjectView| #![trigger spec_enc_object(ov)]
            object_at(data@, i as int, ov) && pos as int == i + spec_enc_obj_a(
                ov.hash,
                ov.nonce,
            ).len() ==> (match r {
                Some((e, sg, j)) => e as int == ov.expires && sg@ == ov.signature && j as int
                    == pos + spec_enc_obj_b(ov.expires, ov.signature).len(),
                None => false,
            }),
{
    let _dl = data.len();
    assert(data@.len() < 0x1_0000_0000_0000_0000);
    proof {
        reveal_strlit("expires");
        reveal_strlit("signature");
        assert("expires"@ =~= key_expires());
        assert("signature"@ =~= key_signature());
        lemma_key_ascii2();
    }
    let ghost hyp = |ov: crate::messages::ObjectView|
        object_at(data@, i as int, ov) && pos as int == i + spec_enc_obj_a(
            ov.hash,
            ov.nonce,
        ).len();
    let r0 = read_text(data, pos);
    let (k1, q1) = match r0 {
        Some(v) => v,
        None => {
            proof {
                assert forall|ov: crate::messages::ObjectView| #[trigger]
                    spec_enc_object(ov).len() >= 0 && hyp(ov) implies false by {
                    lemma_object_decomposed(data@, i as int, ov);
                }
            }
            return None;
        },
    };
    if !ascii_str_eq(k1.as_str(), "expires") {
        proof {
            assert forall|ov: crate::messages::ObjectView| #[trigger]
                spec_enc_object(ov).len() >= 0 && hyp(ov) implies false by {
                lemma_object_decomposed(data@, i as int, ov);
            }
        }
        return None;
    }
    let r1 = read_int(data, q1);
    let (expires, q2) = match r1 {
        Some(v) => v,
        None => {
            proof {
                assert forall|ov: crate::messages::ObjectView| #[trigger]
                    spec_enc_object(ov).len() >= 0 && hyp(ov) implies false by {
                    lemma_object_decomposed(data@, i as int, ov);
                    lemma_int_reads(data@, q1 as int, r1, ov.expires);
                }
            }
            return None;
        },
    };
    let r2 = read_text(data, q2);
    let (k2, q3) = match r2 {
        Some(v) => v,
        None => {
            proof {
                assert forall|ov: crate::messages::ObjectView| #[trigger]
                    spec_enc_object(ov).len() >= 0 && hyp(ov) implies false by {
                    lemma_object_decomposed(data@, i as int, ov);
                    lemma_int_reads(data@, q1 as int, r1, ov.expires);
                }
            }
            return None;
        },
    };
    if !ascii_str_eq(k2.as_str(), "signature") {
        proof {
            assert forall|ov: crate::messages::ObjectView| #[trigger]
                spec_enc_object(ov).len() >= 0 && hyp(ov) implies false by {
                lemma_object_decomposed(data@, i as int, ov);
                lemma_int_reads(data@, q1 as int, r1, ov.expires);
            }
        }
        return None;
    }
    let r3 = read_bytes(data, q3);
    match r3 {
        Some((signature, j)) => {
            let ghost sv = signature@;
            proof {
                let d = data@;
                lemma_join(d, pos as int, q1 as int, q2 as int, spec_enc_text(key_expires()),
                    spec_enc_int(expires as int));
                lemma_join(
                    d,
                    pos as int,
                    q2 as int,
                    q3 as int,
                    spec_enc_text(key_expires()) + spec_enc_int(expires as int),
                    spec_enc_text(key_signature()),
                );
                lemma_join(
                    d,
                    pos as int,
                    q3 as int,
                    j as int,
                    spec_enc_text(key_expires()) + spec_enc_int(expires as int) + spec_enc_text(
                        key_signature(),
                    ),
                    spec_enc_bytes(sv),
                );
                assert forall|ov: crate::messages::ObjectView| #[trigger]
                    spec_enc_object(ov).len() >= 0 && hyp(ov) implies expires as int == ov.expires
                    && sv == ov.signature && (j as int) == pos + spec_enc_obj_b(
                    ov.expires,
                    ov.signature,
                ).len() by {
                    lemma_object_decomposed(data@, i as int, ov);
                    lemma_int_reads(data@, q1 as int, r1, ov.expires);
                }
            }
            Some((expires, signature, j))
        },
        None => {
            proof {
                assert forall|ov: crate::messages::ObjectView| #[trigger]
                    spec_enc_object(ov).len() >= 0 && hyp(ov) implies false by {
                    lemma_object_decomposed(data@, i as int, ov);
                    lemma_int_reads(data@, q1 as int, r1, ov.expires);
                }
            }
            None
        },
    }
}

/// Decode the difficulty parameters at the end of an object.
#[verifier::rlimit(100)]
#[verifier::spinoff_prover]
fn decode_obj_d(data: &[u8], i: usize, pos: usize) -> (r: Option<(u32, u32, usize)>)
    requires
        i <= pos <= data@.len(),
    ensures
        match r {
            Some((ntpb, eb, j)) => pos < j <= data@.len() && data@.subrange(pos as int, j as int)
                == spec_enc_text(key_nonce_trials()) + spec_enc_uint(ntpb as nat) + spec_enc_text(
                key_extra_bytes(),
            ) + spec_enc_uint(eb as nat),
            None => true,
        },
        forall|ov: crate::messages::ObjectView| #![trigger spec_enc_object(ov)]
            object_at(data@, i as int, ov) && pos as int == i + spec_enc_obj_a(
                ov.hash,
                ov.nonce,
            ).len() + spec_enc_obj_b(ov.expires, ov.signature).len() + spec_enc_text(
                key_kind(),
            ).len() + spec_enc_kind(ov.kind).len() ==> (match r {
                Some((ntpb, eb, j)) => ntpb == ov.nonce_trials_per_byte && eb == ov.extra_bytes
                    && j as int == i + spec_enc_object(ov).len(),
                None => false,
            }),
{
    let _dl = data.len();
    assert(data@.len() < 0x1_0000_0000_0000_0000);
    proof {
        reveal_strlit("nonce_trials_per_byte");
        reveal_strlit("extra_bytes");
        assert("nonce_trials_per_byte"@ =~= key_nonce_trials());
        assert("extra_bytes"@ =~= key_extra_bytes());
        lemma_key_ascii2();
    }
    let ghost hyp = |ov: crate::messages::ObjectView|
        object_at(data@, i as int, ov) && pos as int == i + spec_enc_obj_a(
            ov.hash,
            ov.nonce,
        ).len() + spec_enc_obj_b(ov.expires, ov.signature).len() + spec_enc_text(
            key_kind(),
        ).len() + spec_enc_kind(ov.kind).len();
    let r0 = read_text(data, pos);
    let (k1, q1) = match r0 {
        Some(v) => v,
        None => {
            proof {
                assert forall|ov: crate::messages::ObjectView| #[trigger]
                    spec_enc_object(ov).len() >= 0 && hyp(ov) implies false by {
                    lemma_object_decomposed(data@, i as int, ov);
                }
            }
            return None;
        },
    };
    if !ascii_str_eq(k1.as_str(), "nonce_trials_per_byte") {
        proof {
            assert forall|ov: crate::messages::ObjectView| #[trigger]
                spec_enc_object(ov).len() >= 0 && hyp(ov) implies false by {
                lemma_object_decomposed(data@, i as int, ov);
            }
        }
        return None;
    }
    let r1 = read_uint(data, q1);
    let (ntpb, q2) = match r1 {
        Some(v) => v,
        None => {
            proof {
                assert forall|ov: crate::messages::ObjectView| #[trigger]
                    spec_enc_object(ov).len() >= 0 && hyp(ov) implies false by {
                    lemma_object_decomposed(data@, i as int, ov);
                    lemma_uint_reads(data@, q1 as int, r1, ov.nonce_trials_per_byte as nat);
                }
            }
            return None;
        },
    };
    if ntpb > u32::MAX as u64 {
        proof {
            assert forall|ov: crate::messages::ObjectView| #[trigger]
                spec_enc_object(ov).len() >= 0 && hyp(ov) implies false by {
                lemma_object_decomposed(data@, i as int, ov);
                lemma_uint_reads(data@, q1 as int, r1, ov.nonce_trials_per_byte as nat);
            }
        }
        return None;
    }
    let r2 = read_text(data, q2);
    let (k2, q3) = match r2 {
        Some(v) => v,
        None => {
            proof {
                assert forall|ov: crate::messages::ObjectView| #[trigger]
                    spec_enc_object(ov).len() >= 0 && hyp(ov) implies false by {
                    lemma_object_decomposed(data@, i as int, ov);
                    lemma_uint_reads(data@, q1 as int, r1, ov.nonce_trials_per_byte as nat);
                }
            }
            return None;
        },
    };
    if !ascii_str_eq(k2.as_str(), "extra_bytes") {
        proof {
            assert forall|ov: crate::messages::ObjectView| #[trigger]
                spec_enc_object(ov).len() >= 0 && hyp(ov) implies false by {
                lemma_object_decomposed(data@, i as int, ov);
                lemma_uint_reads(data@, q1 as int, r1, ov.nonce_trials_per_byte as nat);
            }
        }
        return None;
    }
    let r3 = read_uint(data, q3);
    match r3 {
        Some((eb, j)) => {
            if eb > u32::MAX as u64 {
                proof {
                    assert forall|ov: crate::messages::ObjectView| #[trigger]
                        spec_enc_object(ov).len() >= 0 && hyp(ov) implies false by {
                        lemma_object_decomposed(data@, i as int, ov);
                        lemma_uint_reads(data@, q1 as int, r1, ov.nonce_trials_per_byte as nat);
                        lemma_uint_reads(data@, q3 as int, r3, ov.extra_bytes as nat);
                    }
                }
                return None;
            }
            proof {
                let d = data@;
                lemma_join(d, pos as int, q1 as int, q2 as int, spec_enc_text(key_nonce_trials()),
                    spec_enc_uint(ntpb as nat));
                lemma_join(
                    d,
                    pos as int,
                    q2 as int,
                    q3 as int,
                    spec_enc_text(key_nonce_trials()) + spec_enc_uint(ntpb as nat),
                    spec_enc_text(key_extra_bytes()),
                );
                lemma_join(
                    d,
                    pos as int,
                    q3 as int,
                    j as int,
                    spec_enc_text(key_nonce_trials()) + spec_enc_uint(ntpb as nat)
                        + spec_enc_text(key_extra_bytes()),
                    spec_enc_uint(eb as nat),
                );
                assert((ntpb as u32) as nat == ntpb as nat);
                assert((eb as u32) as nat == eb as nat);
                assert forall|ov: crate::messages::ObjectView| #[trigger]
                    spec_enc_object(ov).len() >= 0 && hyp(ov) implies ntpb as u32
                    == ov.nonce_trials_per_byte && eb as u32 == ov.extra_bytes && (j as int) == i
                    + spec_enc_object(ov).len() by {
                    lemma_object_decomposed(data@, i as int, ov);
                    lemma_uint_reads(data@, q1 as int, r1, ov.nonce_trials_per_byte as nat);
                    lemma_uint_reads(data@, q3 as int, r3, ov.extra_bytes as nat);
                }
            }
            Some((ntpb as u32, eb as u32, j))
        },
        None => {
            proof {
                assert forall|ov: crate::messages::ObjectView| #[trigger]
                    spec_enc_object(ov).len() >= 0 && hyp(ov) implies false by {
                    lemma_object_decomposed(data@, i as int, ov);
                    lemma_uint_reads(data@, q1 as int, r1, ov.nonce_trials_per_byte as nat);
                    lemma_uint_reads(data@, q3 as int, r3, ov.extra_bytes as nat);
                }
            }
            None
        },
    }
}

/// Decode the closing section of an object: kind and difficulty parameters.
#[verifier::rlimit(100)]
#[verifier::spinoff_prover]
fn decode_obj_c(data: &[u8], i: usize, pos: usize) -> (r: Option<(ObjectKind, u32, u32, usize)>)
    requires
        i <= pos <= data@.len(),
    ensures
        match r {
            Some((k, ntpb, eb, j)) => pos < j <= data@.len() && data@.subrange(
                pos as int,
                j as int,
            ) == spec_enc_obj_c(k@, ntpb, eb),
            None => true,
        },
        forall|ov: crate::messages::ObjectView| #![trigger spec_enc_object(ov)]
            object_at(data@, i as int, ov) && pos as int == i + spec_enc_obj_a(
                ov.hash,
                ov.nonce,
            ).len() + spec_enc_obj_b(ov.expires, ov.signature).len() ==> (match r {
                Some((k, ntpb, eb, j)) => k@ == ov.kind && ntpb == ov.nonce_trials_per_byte && eb
                    == ov.extra_bytes && j as int == i + spec_enc_object(ov).len(),
                None => false,
            }),
{
    let _dl = data.len();
    assert(data@.len() < 0x1_0000_0000_0000_0000);
    proof {
        reveal_strlit("kind");
        assert("kind"@ =~= key_kind());
        lemma_key_ascii2();
    }
    let ghost hyp = |ov: crate::messages::ObjectView|
        object_at(data@, i as int, ov) && pos as int == i + spec_enc_obj_a(
            ov.hash,
            ov.nonce,
        ).len() + spec_enc_obj_b(ov.expires, ov.signature).len();
    let r0 = read_text(data, pos);
    let (k1, q1) = match r0 {
        Some(v) => v,
        None => {
            proof {
                assert forall|ov: crate::messages::ObjectView| #[trigger]
                    spec_enc_object(ov).len() >= 0 && hyp(ov) implies false by {
                    lemma_object_decomposed(data@, i as int, ov);
                }
            }
            return None;
        },
    };
    if !ascii_str_eq(k1.as_str(), "kind") {
        proof {
            assert forall|ov: crate::messages::ObjectView| #[trigger]
                spec_enc_object(ov).len() >= 0 && hyp(ov) implies false by {
                lemma_object_decomposed(data@, i as int, ov);
            }
        }
        return None;
    }
    let r1 = decode_kind(data, q1);
    let (kind, q2) = match r1 {
        Some(v) => v,
        None => {
            proof {
                assert forall|ov: crate::messages::ObjectView| #[trigger]
                    spec_enc_object(ov).len() >= 0 && hyp(ov) implies false by {
                    lemma_object_decomposed(data@, i as int, ov);
                    assert(kind_at(data@, q1 as int, ov.kind));
                }
            }
            return None;
        },
    };
    let ghost kv = kind@;
    proof {
        assert forall|ov: crate::messages::ObjectView| #[trigger]
            spec_enc_object(ov).len() >= 0 && hyp(ov) implies kv == ov.kind && (q2 as int) == i
            + spec_enc_obj_a(ov.hash, ov.nonce).len() + spec_enc_obj_b(
            ov.expires,
            ov.signature,
        ).len() + spec_enc_text(key_kind()).len() + spec_enc_kind(ov.kind).len() by {
            lemma_object_decomposed(data@, i as int, ov);
            assert(kind_at(data@, q1 as int, ov.kind));
        }
    }
    match decode_obj_d(data, i, q2) {
        Some((ntpb, eb, j)) => {
            proof {
                let d = data@;
                lemma_join(d, pos as int, q1 as int, q2 as int, spec_enc_text(key_kind()),
                    spec_enc_kind(kv));
                lemma_join(
                    d,
                    pos as int,
                    q2 as int,
                    j as int,
                    spec_enc_text(key_kind()) + spec_enc_kind(kv),
                    spec_enc_text(key_nonce_trials()) + spec_enc_uint(ntpb as nat)
                        + spec_enc_text(key_extra_bytes()) + spec_enc_uint(eb as nat),
                );
                assert(d.subrange(pos as int, j as int) =~= spec_enc_obj_c(kv, ntpb, eb));
            }
            Some((kind, ntpb, eb, j))
        },
        None => {
            proof {
                assert forall|ov: crate::messages::ObjectView| #[trigger]
                    spec_enc_object(ov).len() >= 0 && hyp(ov) implies false by {}
            }
            None
        },
    }
}

/// Decode a whole object. Strict: whatever it accepts re-encodes to exactly
/// the consumed bytes, and every encoded object with a representable expiry
/// is accepted, to itself.
#[verifier::rlimit(100)]
#[verifier::spinoff_prover]
pub fn decode_object(data: &[u8], i: usize) -> (r: Option<(Object, usize)>)
    ensures
        match r {
            Some((o, j)) => i < j <= data@.len() && data@.subrange(i as int, j as int)
                == spec_enc_object(o@),
            None => true,
        },
        forall|ov: crate::messages::ObjectView| #![trigger spec_enc_object(ov)]
            object_at(data@, i as int, ov) ==> (match r {
                Some((o, j)) => o@ == ov && j == i + spec_enc_object(ov).len(),
                None => false,
            }),
{
    let (hash, nonce, qa) = match decode_obj_a(data, i) {
        Some(v) => v,
        None => {
            return None;
        },
    };
    let (expires, signature, qb) = match decode_obj_b(data, i, qa) {
        Some(v) => v,
        None => {
            proof {
                assert forall|ov: crate::messages::ObjectView| #[trigger]
                    spec_enc_object(ov).len() >= 0 && object_at(data@, i as int, ov)
                    implies false by {}
            }
            return None;
        },
    };
    let (kind, nonce_trials_per_byte, extra_bytes, j) = match decode_obj_c(data, i, qb) {
        Some(v) => v,
        None => {
            proof {
                assert forall|ov: crate::messages::ObjectView| #[trigger]
                    spec_enc_object(ov).len() >= 0 && object_at(data@, i as int, ov)
                    implies false by {}
            }
            return None;
        },
    };
    let result = Object { hash, nonce, expires, signature, kind, nonce_trials_per_byte, extra_bytes };
    proof {
        let rv = result@;
        lemma_object_sections(rv);
        lemma_join(
            data@,
            i as int,
            qa as int,
            qb as int,
            spec_enc_obj_a(rv.hash, rv.nonce),
            spec_enc_obj_b(rv.expires, rv.signature),
        );
        lemma_join(
            data@,
            i as int,
            qb as int,
            j as int,
            spec_enc_obj_a(rv.hash, rv.nonce) + spec_enc_obj_b(rv.expires, rv.signature),
            spec_enc_obj_c(rv.kind, rv.nonce_trials_per_byte, rv.extra_bytes),
        );
    }
    Some((result, j))
}

/// Where the concatenated encodings of `ss` sit at `base`, the `k`-th
/// element's encoding sits after the first `k` encodings.
proof fn lemma_text_seq_element(data: Seq<u8>, base: int, ss: Seq<Seq<char>>, k: int)
    requires
        0 <= base,
        0 <= k < ss.len(),
        base + spec_enc_text_seq(ss).len() <= data.len(),
        data.subrange(base, base + spec_enc_text_seq(ss).len()) == spec_enc_text_seq(ss),
    ensures
        spec_enc_text_seq(ss.take(k)).len() + spec_enc_text(ss[k]).len() <= spec_enc_text_seq(
            ss,
        ).len(),
        data.subrange(
            base + spec_enc_text_seq(ss.take(k)).len(),
            base + spec_enc_text_seq(ss.take(k)).len() + spec_enc_text(ss[k]).len(),
        ) == spec_enc_text(ss[k]),
    decreases k,
{
    lemma_split2(data, base, spec_enc_text(ss[0]), spec_enc_text_seq(ss.skip(1)));
    if k == 0 {
        assert(ss.take(0) =~= Seq::<Seq<char>>::empty());
        assert(spec_enc_text_seq(ss.take(0)) == Seq::<u8>::empty());
    } else {
        let rest = ss.skip(1);
        lemma_text_seq_element(data, base + spec_enc_text(ss[0]).len(), rest, k - 1);
        assert(ss.take(k)[0] == ss[0]);
        assert(ss.take(k).skip(1) =~= rest.take(k - 1));
        assert(spec_enc_text_seq(ss.take(k)) == spec_enc_text(ss[0]) + spec_enc_text_seq(
            rest.take(k - 1),
        ));
        assert(rest[k - 1] == ss[k]);
    }
}

/// Every encoded text contributes at least one byte.
proof fn lemma_text_seq_min_len(ss: Seq<Seq<char>>)
    ensures
        spec_enc_text_seq(ss).len() >= ss.len(),
    decreases ss.len(),
{
    if ss.len() > 0 {
        lemma_text_seq_min_len(ss.skip(1));
        crate::cbor::lemma_header_len(3, ss[0].len());
    }
}

/// Every encoded object contributes at least one byte.
proof fn lemma_object_seq_min_len(os: Seq<crate::messages::ObjectView>)
    ensures
        spec_enc_object_seq(os).len() >= os.len(),
    decreases os.len(),
{
    if os.len() > 0 {
        lemma_object_seq_min_len(os.skip(1));
        crate::cbor::lemma_header_len(5, 7);
    }
}

/// The text-array analogue of `object_at`.
pub open spec fn inventory_at(data: Seq<u8>, i: int, ss: Seq<Seq<char>>) -> bool {
    &&& inv_ascii(ss)
    &&& i + spec_enc_inventory(ss).len() <= data.len()
    &&& data.subrange(i, i + spec_enc_inventory(ss).len()) == spec_enc_inventory(ss)
}

/// Where the concatenated encodings of objects `os` sit at `base`, the
/// `k`-th object's encoding sits after the first `k` encodings.
#[verifier::rlimit(100)]
#[verifier::spinoff_prover]
proof fn lemma_object_seq_element(data: Seq<u8>, base: int, os: Seq<crate::messages::ObjectView>, k: int)
    requires
        0 <= base,
        0 <= k < os.len(),
        base + spec_enc_object_seq(os).len() <= data.len(),
        data.subrange(base, base + spec_enc_object_seq(os).len()) == spec_enc_object_seq(os),
    ensures
        spec_enc_object_seq(os.take(k)).len() + spec_enc_object(os[k]).len()
            <= spec_enc_object_seq(os).len(),
        data.subrange(
            base + spec_enc_object_seq(os.take(k)).len(),
            base + spec_enc_object_seq(os.take(k)).len() + spec_enc_object(os[k]).len(),
        ) == spec_enc_object(os[k]),
    decreases k,
{
    lemma_split2(data, base, spec_enc_object(os[0]), spec_enc_object_seq(os.skip(1)));
    if k == 0 {
        assert(os.take(0) =~= Seq::<crate::messages::ObjectView>::empty());
        assert(spec_enc_object_seq(os.take(0)) == Seq::<u8>::empty());
    } else {
        let rest = os.skip(1);
        lemma_object_seq_element(data, base + spec_enc_object(os[0]).len(), rest, k - 1);
        assert(os.take(k)[0] == os[0]);
        assert(os.take(k).skip(1) =~= rest.take(k - 1));
        assert(spec_enc_object_seq(os.take(k)) == spec_enc_object(os[0]) + spec_enc_object_seq(
            rest.take(k - 1),
        ));
        assert(rest[k - 1] == os[k]);
    }
}

/// The object-array analogue of `object_at`: every element's expiry is
/// representable.
pub open spec fn objects_at(data: Seq<u8>, i: int, os: Seq<crate::messages::ObjectView>) -> bool {
    &&& (forall|t: int|
        0 <= t < os.len() ==> i64::MIN <= (#[trigger] os[t]).expires <= i64::MAX)
    &&& i + spec_enc_array_header(os.len()).len() + spec_enc_object_seq(os).len() <= data.len()
    &&& data.subrange(
        i,
        i + spec_enc_array_header(os.len()).len() + spec_enc_object_seq(os).len(),
    ) == spec_enc_array_header(os.len()) + spec_enc_object_seq(os)
}

/// Bridge a known `nat` item count to the `u64` quantifier of
/// `read_array_header`'s contract.
proof fn lemma_array_header_reads(data: Seq<u8>, i: int, r: Option<(u64, usize)>, n: nat)
    requires
        0 <= i,
        n < 0x1_0000_0000_0000_0000,
        i + spec_enc_array_header(n).len() <= data.len(),
        data.subrange(i, i + spec_enc_array_header(n).len()) == spec_enc_array_header(n),
        forall|v: u64|
            i + spec_enc_array_header(v as nat).len() <= data.len() && data.subrange(
                i,
                i + spec_enc_array_header(v as nat).len(),
            ) == spec_enc_array_header(v as nat) ==> r == Some(
                (v, (i + spec_enc_array_header(v as nat).len()) as usize),
            ),
    ensures
        r == Some((n as u64, (i + spec_enc_array_header(n).len()) as usize)),
{
    let v: u64 = n as u64;
    assert(spec_enc_array_header(v as nat) == spec_enc_array_header(n));
}

/// Decode an array of text strings (a hash list with its array header).
/// Strict: whatever it accepts re-encodes to exactly the consumed bytes,
/// and every encoded ASCII hash list is accepted, to itself.
#[verifier::rlimit(100)]
#[verifier::loop_isolation(false)]
#[verifier::spinoff_prover]
pub fn decode_inventory(data: &[u8], i: usize) -> (r: Option<(Vec<String>, usize)>)
    ensures
        match r {
            Some((ss, j)) => i < j <= data@.len() && inv_ascii(ss.deep_view()) && data@.subrange(
                i as int,
                j as int,
            ) == spec_enc_inventory(ss.deep_view()),
            None => true,
        },
        forall|sv: Seq<Seq<char>>| #![trigger spec_enc_inventory(sv)]
            inventory_at(data@, i as int, sv) ==> (match r {
                Some((ss, j)) => strs_view(ss@) == sv && j as int == i + spec_enc_inventory(
                    sv,
                ).len(),
                None => false,
            }),
{
    let _dl = data.len();
    assert(data@.len() < 0x1_0000_0000_0000_0000);
    let r0 = read_array_header(data, i);
    let (count, q1) = match r0 {
        Some(v) => v,
        None => {
            proof {
                assert forall|sv: Seq<Seq<char>>| #[trigger]
                    spec_enc_inventory(sv).len() >= 0 && inventory_at(data@, i as int, sv)
                    implies false by {
                    assert(spec_enc_inventory(sv) == spec_enc_array_header(sv.len())
                        + spec_enc_text_seq(sv));
                    lemma_text_seq_min_len(sv);
                    lemma_split2(data@, i as int, spec_enc_array_header(sv.len()),
                        spec_enc_text_seq(sv));
                    lemma_array_header_reads(data@, i as int, r0, sv.len());
                }
            }
            return None;
        },
    };
    proof {
        assert forall|sv: Seq<Seq<char>>| #[trigger]
            spec_enc_inventory(sv).len() >= 0 && inventory_at(data@, i as int, sv) implies sv.len()
            == count as int && (q1 as int) == i + spec_enc_array_header(sv.len()).len()
            && data@.subrange(q1 as int, q1 + spec_enc_text_seq(sv).len()) == spec_enc_text_seq(
            sv,
        ) by {
            assert(spec_enc_inventory(sv) == spec_enc_array_header(sv.len()) + spec_enc_text_seq(
                sv,
            ));
            lemma_text_seq_min_len(sv);
            lemma_split2(data@, i as int, spec_enc_array_header(sv.len()), spec_enc_text_seq(sv));
            lemma_array_header_reads(data@, i as int, r0, sv.len());
        }
    }
    let mut ss: Vec<String> = Vec::new();
    let mut pos = q1;
    let mut k: u64 = 0;
    proof {
        assert(ss.deep_view() =~= Seq::<Seq<char>>::empty());
        assert(data@.subrange(q1 as int, q1 as int) =~= spec_enc_text_seq(ss.deep_view()));
    }
    while k < count
        invariant
            k <= count,
            ss@.len() == k,
            inv_ascii(ss.deep_view()),
            q1 <= pos <= data@.len(),
            data@.subrange(q1 as int, pos as int) == spec_enc_text_seq(ss.deep_view()),
            forall|sv: Seq<Seq<char>>| #![trigger spec_enc_inventory(sv)]
                inventory_at(data@, i as int, sv) ==> strs_view(ss@) == sv.take(k as int) && (
                pos as int) == q1 + spec_enc_text_seq(sv.take(k as int)).len(),
        decreases count - k,
    {
        let r1 = read_text(data, pos);
        let (sx, next) = match r1 {
            Some(v) => v,
            None => {
                proof {
                    assert forall|sv: Seq<Seq<char>>| #[trigger]
                        spec_enc_inventory(sv).len() >= 0 && inventory_at(data@, i as int, sv)
                        implies false by {
                        lemma_text_seq_element(data@, q1 as int, sv, k as int);
                    }
                }
                return None;
            },
        };
        let ghost old_ss = ss.deep_view();
        let ghost old_sv = ss@;
        let ghost sxv = sx@;
        ss.push(sx);
        proof {
            assert(ss.deep_view() =~= old_ss.push(sxv));
            lemma_text_seq_snoc(old_ss, sxv);
            lemma_join(
                data@,
                q1 as int,
                pos as int,
                next as int,
                spec_enc_text_seq(old_ss),
                spec_enc_text(sxv),
            );
            assert forall|sv: Seq<Seq<char>>| #[trigger]
                spec_enc_inventory(sv).len() >= 0 && inventory_at(data@, i as int, sv)
                implies strs_view(ss@) == sv.take(k + 1) && (next as int) == q1
                + spec_enc_text_seq(sv.take(k + 1)).len() by {
                lemma_text_seq_element(data@, q1 as int, sv, k as int);
                assert(sxv == sv[k as int]);
                lemma_take_push(sv, k as int);
                lemma_text_seq_snoc(sv.take(k as int), sv[k as int]);
                assert(strs_view(old_sv) == sv.take(k as int));
                crate::repo_inventory::lemma_strs_view_push(old_sv, ss@.last());
            }
        }
        pos = next;
        k = k + 1;
    }
    proof {
        assert(ss.deep_view().len() == count);
        lemma_join(
            data@,
            i as int,
            q1 as int,
            pos as int,
            spec_enc_array_header(count as nat),
            spec_enc_text_seq(ss.deep_view()),
        );
        assert forall|sv: Seq<Seq<char>>| #[trigger]
            spec_enc_inventory(sv).len() >= 0 && inventory_at(data@, i as int, sv) implies strs_view(
            ss@,
        ) == sv && (pos as int) == i + spec_enc_inventory(sv).len() by {
            assert(sv.take(count as int) =~= sv);
        }
    }
    Some((ss, pos))
}

/// Decode an array of objects with its array header. Strict: whatever it
/// accepts re-encodes to exactly the consumed bytes, and every encoded
/// object list (with representable expiries) is accepted, to itself.
#[verifier::rlimit(100)]
#[verifier::loop_isolation(false)]
#[verifier::spinoff_prover]
pub fn decode_objects(data: &[u8], i: usize) -> (r: Option<(Vec<Object>, usize)>)
    ensures
        match r {
            Some((os, j)) => i < j <= data@.len() && data@.subrange(i as int, j as int)
                == spec_enc_array_header(os@.len()) + spec_enc_object_seq(objects_view(os@)),
            None => true,
        },
        forall|ov: Seq<crate::messages::ObjectView>| #![trigger spec_enc_object_seq(ov)]
            objects_at(data@, i as int, ov) ==> (match r {
                Some((os, j)) => objects_view(os@) == ov && j as int == i + spec_enc_array_header(
                    ov.len(),
                ).len() + spec_enc_object_seq(ov).len(),
                None => false,
            }),
{
    let _dl = data.len();
    assert(data@.len() < 0x1_0000_0000_0000_0000);
    let r0 = read_array_header(data, i);
    let (count, q1) = match r0 {
        Some(v) => v,
        None => {
            proof {
                assert forall|ov: Seq<crate::messages::ObjectView>| #[trigger]
                    spec_enc_object_seq(ov).len() >= 0 && objects_at(data@, i as int, ov)
                    implies false by {
                    lemma_object_seq_min_len(ov);
                    lemma_split2(data@, i as int, spec_enc_array_header(ov.len()),
                        spec_enc_object_seq(ov));
                    lemma_array_header_reads(data@, i as int, r0, ov.len());
                }
            }
            return None;
        },
    };
    proof {
        assert forall|ov: Seq<crate::messages::ObjectView>| #[trigger]
            spec_enc_object_seq(ov).len() >= 0 && objects_at(data@, i as int, ov) implies ov.len()
            == count as int && (q1 as int) == i + spec_enc_array_header(ov.len()).len()
            && data@.subrange(q1 as int, q1 + spec_enc_object_seq(ov).len())
            == spec_enc_object_seq(ov) by {
            lemma_object_seq_min_len(ov);
            lemma_split2(data@, i as int, spec_enc_array_header(ov.len()),
                spec_enc_object_seq(ov));
            lemma_array_header_reads(data@, i as int, r0, ov.len());
        }
    }
    let mut os: Vec<Object> = Vec::new();
    let mut pos = q1;
    let mut k: u64 = 0;
    proof {
        assert(objects_view(os@) =~= Seq::<crate::messages::ObjectView>::empty());
        assert(data@.subrange(q1 as int, q1 as int) =~= spec_enc_object_seq(objects_view(os@)));
    }
    while k < count
        invariant
            k <= count,
            os@.len() == k,
            q1 <= pos <= data@.len(),
            data@.subrange(q1 as int, pos as int) == spec_enc_object_seq(objects_view(os@)),
            forall|ov: Seq<crate::messages::ObjectView>| #![trigger spec_enc_object_seq(ov)]
                objects_at(data@, i as int, ov) ==> objects_view(os@) == ov.take(k as int) && (
                pos as int) == q1 + spec_enc_object_seq(ov.take(k as int)).len(),
        decreases count - k,
    {
        let r1 = decode_object(data, pos);
        let (ox, next) = match r1 {
            Some(v) => v,
            None => {
                proof {
                    assert forall|ov: Seq<crate::messages::ObjectView>| #[trigger]
                        spec_enc_object_seq(ov).len() >= 0 && objects_at(data@, i as int, ov)
                        implies false by {
                        lemma_object_seq_element(data@, q1 as int, ov, k as int);
                        assert(object_at(data@, pos as int, ov[k as int]));
                    }
                }
                return None;
            },
        };
        let ghost old_os = objects_view(os@);
        let ghost oxv = ox@;
        os.push(ox);
        proof {
            assert(objects_view(os@) =~= old_os.push(oxv));
            lemma_object_seq_snoc(old_os, oxv);
            lemma_join(
                data@,
                q1 as int,
                pos as int,
                next as int,
                spec_enc_object_seq(old_os),
                spec_enc_object(oxv),
            );
            assert forall|ov: Seq<crate::messages::ObjectView>| #[trigger]
                spec_enc_object_seq(ov).len() >= 0 && objects_at(data@, i as int, ov)
                implies objects_view(os@) == ov.take(k + 1) && (next as int) == q1
                + spec_enc_object_seq(ov.take(k + 1)).len() by {
                lemma_object_seq_element(data@, q1 as int, ov, k as int);
                assert(object_at(data@, pos as int, ov[k as int]));
                assert(oxv == ov[k as int]);
                lemma_take_push(ov, k as int);
                lemma_object_seq_snoc(ov.take(k as int), ov[k as int]);
            }
        }
        pos = next;
        k = k + 1;
    }
    proof {
        assert(objects_view(os@).len() == count);
        lemma_join(
            data@,
            i as int,
            q1 as int,
            pos as int,
            spec_enc_array_header(count as nat),
            spec_enc_object_seq(objects_view(os@)),
        );
        assert forall|ov: Seq<crate::messages::ObjectView>| #[trigger]
            spec_enc_object_seq(ov).len() >= 0 && objects_at(data@, i as int, ov)
            implies objects_view(os@) == ov && (pos as int) == i + spec_enc_array_header(
            ov.len(),
        ).len() + spec_enc_object_seq(ov).len() by {
            assert(ov.take(count as int) =~= ov);
        }
    }
    Some((os, pos))
}

/// The tag key a payload variant is written under.
pub open spec fn payload_tag_key(pv: crate::messages::PayloadView) -> Seq<char> {
    match pv {
        crate::messages::PayloadView::GetData { .. } => key_getdata(),
        crate::messages::PayloadView::Inv { .. } => key_inv(),
        crate::messages::PayloadView::Objects { .. } => key_objects_tag(),
        crate::messages::PayloadView::Empty => key_none(),
    }
}

/// Whether the encoding of payload `pv` (ASCII strings, representable
/// expiries) matches a prefix of `data` at `i`.
pub open spec fn payload_at(data: Seq<u8>, i: int, pv: crate::messages::PayloadView) -> bool {
    &&& payload_ascii(pv)
    &&& (pv matches crate::messages::PayloadView::Objects { objects } ==> forall|t: int|
        0 <= t < objects.len() ==> i64::MIN <= (#[trigger] objects[t]).expires <= i64::MAX)
    &&& i + spec_enc_payload(pv).len() <= data.len()
    &&& data.subrange(i, i + spec_enc_payload(pv).len()) == spec_enc_payload(pv)
}

/// Where the encoding of a payload sits at `i`, its chunks sit at their own
/// offsets.
proof fn lemma_payload_decomposed(data: Seq<u8>, i: int, pv: crate::messages::PayloadView)
    requires
        0 <= i,
        data.len() < 0x1_0000_0000_0000_0000,
        payload_at(data, i, pv),
    ensures
        ({
            let c1 = spec_enc_map_header(1);
            let c2 = spec_enc_text(payload_tag_key(pv));
            let p1 = i + c1.len();
            let p2 = p1 + c2.len();
            &&& p2 <= data.len()
            &&& data.subrange(i, p1) == c1
            &&& data.subrange(p1, p2) == c2
            &&& (match pv {
                crate::messages::PayloadView::GetData { inventory } => {
                    let c3 = spec_enc_map_header(1);
                    let c4 = spec_enc_text(key_inventory());
                    let c5 = spec_enc_inventory(inventory);
                    let p3 = p2 + c3.len();
                    let p4 = p3 + c4.len();
                    let p5 = p4 + c5.len();
                    &&& p5 == i + spec_enc_payload(pv).len()
                    &&& data.subrange(p2, p3) == c3
                    &&& data.subrange(p3, p4) == c4
                    &&& data.subrange(p4, p5) == c5
                },
                crate::messages::PayloadView::Inv { inventory } => {
                    let c3 = spec_enc_map_header(1);
                    let c4 = spec_enc_text(key_inventory());
                    let c5 = spec_enc_inventory(inventory);
                    let p3 = p2 + c3.len();
                    let p4 = p3 + c4.len();
                    let p5 = p4 + c5.len();
                    &&& p5 == i + spec_enc_payload(pv).len()
                    &&& data.subrange(p2, p3) == c3
                    &&& data.subrange(p3, p4) == c4
                    &&& data.subrange(p4, p5) == c5
                },
                crate::messages::PayloadView::Objects { objects } => {
                    let c3 = spec_enc_map_header(1);
                    let c4 = spec_enc_text(key_objects_field());
                    let c5 = spec_enc_array_header(objects.len()) + spec_enc_object_seq(objects);
                    let p3 = p2 + c3.len();
                    let p4 = p3 + c4.len();
                    let p5 = p4 + c5.len();
                    &&& p5 == i + spec_enc_payload(pv).len()
                    &&& data.subrange(p2, p3) == c3
                    &&& data.subrange(p3, p4) == c4
                    &&& data.subrange(p4, p5) == c5
                },
                crate::messages::PayloadView::Empty => {
                    let c3 = spec_enc_map_header(0);
                    let p3 = p2 + c3.len();
                    &&& p3 == i + spec_enc_payload(pv).len()
                    &&& data.subrange(p2, p3) == c3
                },
            })
        }),
{
    match pv {
        crate::messages::PayloadView::GetData { inventory } => {
            let c1 = spec_enc_map_header(1);
            let c2 = spec_enc_text(key_getdata());
            let c3 = spec_enc_map_header(1);
            let c4 = spec_enc_text(key_inventory());
            let c5 = spec_enc_inventory(inventory);
            lemma_split2(data, i, c1 + c2 + c3 + c4, c5);
            lemma_split2(data, i, c1 + c2 + c3, c4);
            lemma_split2(data, i, c1 + c2, c3);
            lemma_split2(data, i, c1, c2);
        },
        crate::messages::PayloadView::Inv { inventory } => {
            let c1 = spec_enc_map_header(1);
            let c2 = spec_enc_text(key_inv());
            let c3 = spec_enc_map_header(1);
            let c4 = spec_enc_text(key_inventory());
            let c5 = spec_enc_inventory(inventory);
            lemma_split2(data, i, c1 + c2 + c3 + c4, c5);
            lemma_split2(data, i, c1 + c2 + c3, c4);
            lemma_split2(data, i, c1 + c2, c3);
            lemma_split2(data, i, c1, c2);
        },
        crate::messages::PayloadView::Objects { objects } => {
            let c1 = spec_enc_map_header(1);
            let c2 = spec_enc_text(key_objects_tag());
            let c3 = spec_enc_map_header(1);
            let c4 = spec_enc_text(key_objects_field());
            let c5 = spec_enc_array_header(objects.len()) + spec_enc_object_seq(objects);
            assert(spec_enc_payload(pv) =~= c1 + c2 + c3 + c4 + c5);
            assert(data.subrange(i, i + (c1 + c2 + c3 + c4 + c5).len()) == c1 + c2 + c3 + c4
                + c5);
            lemma_split2(data, i, c1 + c2 + c3 + c4, c5);
            lemma_split2(data, i, c1 + c2 + c3, c4);
            lemma_split2(data, i, c1 + c2, c3);
            lemma_split2(data, i, c1, c2);
        },
        crate::messages::PayloadView::Empty => {
            let c1 = spec_enc_map_header(1);
            let c2 = spec_enc_text(key_none());
            let c3 = spec_enc_map_header(0);
            lemma_split2(data, i, c1 + c2, c3);
            lemma_split2(data, i, c1, c2);
        },
    }
}

/// Decode a message payload. Strict: whatever it accepts re-encodes to
/// exactly the consumed bytes, and every encoded payload (ASCII hash lists,
/// representable expiries) is accepted, to itself.
#[verifier::rlimit(100)]
#[verifier::spinoff_prover]
pub fn decode_payload(data: &[u8], i: usize) -> (r: Option<(MessagePayload, usize)>)
    ensures
        match r {
            Some((p, j)) => i < j <= data@.len() && payload_ascii(p@) && data@.subrange(
                i as int,
                j as int,
            ) == spec_enc_payload(p@),
            None => true,
        },
        forall|pv: crate::messages::PayloadView| #![trigger spec_enc_payload(pv)]
            payload_at(data@, i as int, pv) ==> (match r {
                Some((p, j)) => p@ == pv && j as int == i + spec_enc_payload(pv).len(),
                None => false,
            }),
{
    let _dl = data.len();
    assert(data@.len() < 0x1_0000_0000_0000_0000);
    proof {
        reveal_strlit("GetData");
        reveal_strlit("Inv");
        reveal_strlit("Objects");
        reveal_strlit("None");
        reveal_strlit("inventory");
        reveal_strlit("objects");
        assert("GetData"@ =~= key_getdata());
        assert("Inv"@ =~= key_inv());
        assert("Objects"@ =~= key_objects_tag());
        assert("None"@ =~= key_none());
        assert("inventory"@ =~= key_inventory());
        assert("objects"@ =~= key_objects_field());
        lemma_key_ascii3();
    }
    let r0 = read_map_header(data, i);
    let (count, q1) = match r0 {
        Some(v) => v,
        None => {
            proof {
                assert forall|pv: crate::messages::PayloadView| #[trigger]
                    spec_enc_payload(pv).len() >= 0 && payload_at(data@, i as int, pv)
                    implies false by {
                    lemma_payload_decomposed(data@, i as int, pv);
                    lemma_map_header_reads(data@, i as int, r0, 1);
                }
            }
            return None;
        },
    };
    if count != 1 {
        proof {
            assert forall|pv: crate::messages::PayloadView| #[trigger]
                spec_enc_payload(pv).len() >= 0 && payload_at(data@, i as int, pv)
                implies false by {
                lemma_payload_decomposed(data@, i as int, pv);
                lemma_map_header_reads(data@, i as int, r0, 1);
            }
        }
        return None;
    }
    let r1 = read_text(data, q1);
    let (tag_text, q2) = match r1 {
        Some(v) => v,
        None => {
            proof {
                assert forall|pv: crate::messages::PayloadView| #[trigger]
                    spec_enc_payload(pv).len() >= 0 && payload_at(data@, i as int, pv)
                    implies false by {
                    lemma_payload_decomposed(data@, i as int, pv);
                    lemma_map_header_reads(data@, i as int, r0, 1);
                }
            }
            return None;
        },
    };
    proof {
        assert forall|pv: crate::messages::PayloadView| #[trigger]
            spec_enc_payload(pv).len() >= 0 && payload_at(data@, i as int, pv) implies tag_text@
            == payload_tag_key(pv) && (q2 as int) == i + spec_enc_map_header(1).len()
            + spec_enc_text(payload_tag_key(pv)).len() by {
            lemma_payload_decomposed(data@, i as int, pv);
            lemma_map_header_reads(data@, i as int, r0, 1);
        }
    }
    if ascii_str_eq(tag_text.as_str(), "GetData") || ascii_str_eq(tag_text.as_str(), "Inv") {
        let is_getdata = ascii_str_eq(tag_text.as_str(), "GetData");
        match decode_payload_inventory(data, i, q2, is_getdata) {
            Some((inventory, j)) => {
                let ghost iv = inventory.deep_view();
                let result = if is_getdata {
                    MessagePayload::GetData { inventory }
                } else {
                    MessagePayload::Inv { inventory }
                };
                proof {
                    let d = data@;
                    let c2 = if is_getdata {
                        spec_enc_text(key_getdata())
                    } else {
                        spec_enc_text(key_inv())
                    };
                    lemma_join(d, i as int, q1 as int, q2 as int, spec_enc_map_header(1), c2);
                    lemma_join(
                        d,
                        i as int,
                        q2 as int,
                        j as int,
                        spec_enc_map_header(1) + c2,
                        spec_enc_map_header(1) + spec_enc_text(key_inventory())
                            + spec_enc_inventory(iv),
                    );
                    assert(d.subrange(i as int, j as int) =~= spec_enc_payload(result@));
                }
                Some((result, j))
            },
            None => None,
        }
    } else if ascii_str_eq(tag_text.as_str(), "Objects") {
        match decode_payload_objects(data, i, q2) {
            Some((objects, j)) => {
                let ghost ov = objects@;
                let result = MessagePayload::Objects { objects };
                proof {
                    let d = data@;
                    lemma_join(d, i as int, q1 as int, q2 as int, spec_enc_map_header(1),
                        spec_enc_text(key_objects_tag()));
                    lemma_join(
                        d,
                        i as int,
                        q2 as int,
                        j as int,
                        spec_enc_map_header(1) + spec_enc_text(key_objects_tag()),
                        spec_enc_map_header(1) + spec_enc_text(key_objects_field())
                            + spec_enc_array_header(ov.len()) + spec_enc_object_seq(
                            objects_view(ov),
                        ),
                    );
                    assert(result@ matches crate::messages::PayloadView::Objects { objects: x }
                        && x =~= objects_view(ov));
                    assert(d.subrange(i as int, j as int) =~= spec_enc_payload(result@));
                }
                Some((result, j))
            },
            None => None,
        }
    } else if ascii_str_eq(tag_text.as_str(), "None") {
        let r2 = read_map_header(data, q2);
        let (fcount, q3) = match r2 {
            Some(v) => v,
            None => {
                proof {
                    assert forall|pv: crate::messages::PayloadView| #[trigger]
                        spec_enc_payload(pv).len() >= 0 && payload_at(data@, i as int, pv)
                        implies false by {
                        lemma_payload_decomposed(data@, i as int, pv);
                        lemma_map_header_reads(data@, q2 as int, r2, 0);
                    }
                }
                return None;
            },
        };
        if fcount != 0 {
            proof {
                assert forall|pv: crate::messages::PayloadView| #[trigger]
                    spec_enc_payload(pv).len() >= 0 && payload_at(data@, i as int, pv)
                    implies false by {
                    lemma_payload_decomposed(data@, i as int, pv);
                    lemma_map_header_reads(data@, q2 as int, r2, 0);
                }
            }
            return None;
        }
        let result = MessagePayload::Empty;
        proof {
            let d = data@;
            lemma_join(d, i as int, q1 as int, q2 as int, spec_enc_map_header(1),
                spec_enc_text(key_none()));
            lemma_join(
                d,
                i as int,
                q2 as int,
                q3 as int,
                spec_enc_map_header(1) + spec_enc_text(key_none()),
                spec_enc_map_header(0),
            );
            assert forall|pv: crate::messages::PayloadView| #[trigger]
                spec_enc_payload(pv).len() >= 0 && payload_at(data@, i as int, pv) implies pv
                is Empty && (q3 as int) == i + spec_enc_payload(pv).len() by {
                lemma_payload_decomposed(data@, i as int, pv);
                lemma_map_header_reads(data@, q2 as int, r2, 0);
            }
        }
        Some((result, q3))
    } else {
        proof {
            assert forall|pv: crate::messages::PayloadView| #[trigger]
                spec_enc_payload(pv).len() >= 0 && payload_at(data@, i as int, pv)
                implies false by {}
        }
        None
    }
}

/// Decode the `inventory` field of a GetData or Inv payload.
#[verifier::rlimit(100)]
#[verifier::spinoff_prover]
fn decode_payload_inventory(data: &[u8], i: usize, pos: usize, is_getdata: bool) -> (r: Option<
    (Vec<String>, usize),
>)
    requires
        i <= pos <= data@.len(),
    ensures
        match r {
            Some((ss, j)) => pos < j <= data@.len() && inv_ascii(ss.deep_view())
                && data@.subrange(pos as int, j as int) == spec_enc_map_header(1)
                + spec_enc_text(key_inventory()) + spec_enc_inventory(ss.deep_view()),
            None => true,
        },
        forall|pv: crate::messages::PayloadView| #![trigger spec_enc_payload(pv)]
            payload_at(data@, i as int, pv) && (if is_getdata {
                pv is GetData
            } else {
                pv is Inv
            }) && pos as int == i + spec_enc_map_header(1).len() + spec_enc_text(
                payload_tag_key(pv),
            ).len() ==> (match r {
                Some((ss, j)) => strs_view(ss@) == (if is_getdata {
                    pv->GetData_inventory
                } else {
                    pv->Inv_inventory
                }) && j as int == i + spec_enc_payload(pv).len(),
                None => false,
            }),
{
    let _dl = data.len();
    assert(data@.len() < 0x1_0000_0000_0000_0000);
    proof {
        reveal_strlit("inventory");
        assert("inventory"@ =~= key_inventory());
        lemma_key_ascii3();
    }
    let ghost hyp = |pv: crate::messages::PayloadView|
        payload_at(data@, i as int, pv) && (if is_getdata {
            pv is GetData
        } else {
            pv is Inv
        }) && pos as int == i + spec_enc_map_header(1).len() + spec_enc_text(
            payload_tag_key(pv),
        ).len();
    let r0 = read_map_header(data, pos);
    let (fcount, q3) = match r0 {
        Some(v) => v,
        None => {
            proof {
                assert forall|pv: crate::messages::PayloadView| #[trigger]
                    spec_enc_payload(pv).len() >= 0 && hyp(pv) implies false by {
                    lemma_payload_decomposed(data@, i as int, pv);
                    lemma_map_header_reads(data@, pos as int, r0, 1);
                }
            }
            return None;
        },
    };
    if fcount != 1 {
        proof {
            assert forall|pv: crate::messages::PayloadView| #[trigger]
                spec_enc_payload(pv).len() >= 0 && hyp(pv) implies false by {
                lemma_payload_decomposed(data@, i as int, pv);
                lemma_map_header_reads(data@, pos as int, r0, 1);
            }
        }
        return None;
    }
    let r1 = read_text(data, q3);
    let (k1, q4) = match r1 {
        Some(v) => v,
        None => {
            proof {
                assert forall|pv: crate::messages::PayloadView| #[trigger]
                    spec_enc_payload(pv).len() >= 0 && hyp(pv) implies false by {
                    lemma_payload_decomposed(data@, i as int, pv);
                    lemma_map_header_reads(data@, pos as int, r0, 1);
                }
            }
            return None;
        },
    };
    if !ascii_str_eq(k1.as_str(), "inventory") {
        proof {
            assert forall|pv: crate::messages::PayloadView| #[trigger]
                spec_enc_payload(pv).len() >= 0 && hyp(pv) implies false by {
                lemma_payload_decomposed(data@, i as int, pv);
                lemma_map_header_reads(data@, pos as int, r0, 1);
            }
        }
        return None;
    }
    let r2 = decode_inventory(data, q4);
    match r2 {
        Some((ss, j)) => {
            let ghost iv = ss.deep_view();
            proof {
                let d = data@;
                lemma_join(d, pos as int, q3 as int, q4 as int, spec_enc_map_header(1),
                    spec_enc_text(key_inventory()));
                lemma_join(
                    d,
                    pos as int,
                    q4 as int,
                    j as int,
                    spec_enc_map_header(1) + spec_enc_text(key_inventory()),
                    spec_enc_inventory(iv),
                );
                assert forall|pv: crate::messages::PayloadView| #[trigger]
                    spec_enc_payload(pv).len() >= 0 && hyp(pv) implies strs_view(ss@) == (
                if is_getdata {
                    pv->GetData_inventory
                } else {
                    pv->Inv_inventory
                }) && (j as int) == i + spec_enc_payload(pv).len() by {
                    lemma_payload_decomposed(data@, i as int, pv);
                    lemma_map_header_reads(data@, pos as int, r0, 1);
                    let fld = if is_getdata {
                        pv->GetData_inventory
                    } else {
                        pv->Inv_inventory
                    };
                    assert(inventory_at(data@, q4 as int, fld));
                    assert(strs_view(ss@) =~= ss.deep_view());
                }
            }
            Some((ss, j))
        },
        None => {
            proof {
                assert forall|pv: crate::messages::PayloadView| #[trigger]
                    spec_enc_payload(pv).len() >= 0 && hyp(pv) implies false by {
                    lemma_payload_decomposed(data@, i as int, pv);
                    lemma_map_header_reads(data@, pos as int, r0, 1);
                    let fld = if is_getdata {
                        pv->GetData_inventory
                    } else {
                        pv->Inv_inventory
                    };
                    assert(inventory_at(data@, q4 as int, fld));
                }
            }
            None
        },
    }
}

/// Decode the `objects` field of an Objects payload.
#[verifier::rlimit(100)]
#[verifier::spinoff_prover]
fn decode_payload_objects(data: &[u8], i: usize, pos: usize) -> (r: Option<(Vec<Object>, usize)>)
    requires
        i <= pos <= data@.len(),
    ensures
        match r {
            Some((os, j)) => pos < j <= data@.len() && data@.subrange(pos as int, j as int)
                == spec_enc_map_header(1) + spec_enc_text(key_objects_field())
                + spec_enc_array_header(os@.len()) + spec_enc_object_seq(objects_view(os@)),
            None => true,
        },
        forall|pv: crate::messages::PayloadView| #![trigger spec_enc_payload(pv)]
            payload_at(data@, i as int, pv) && pv is Objects && pos as int == i
                + spec_enc_map_header(1).len() + spec_enc_text(payload_tag_key(pv)).len() ==> (
            match r {
                Some((os, j)) => objects_view(os@) == pv->Objects_objects && j as int == i
                    + spec_enc_payload(pv).len(),
                None => false,
            }),
{
    let _dl = data.len();
    assert(data@.len() < 0x1_0000_0000_0000_0000);
    proof {
        reveal_strlit("objects");
        assert("objects"@ =~= key_objects_field());
        lemma_key_ascii3();
    }
    let ghost hyp = |pv: crate::messages::PayloadView|
        payload_at(data@, i as int, pv) && pv is Objects && pos as int == i
            + spec_enc_map_header(1).len() + spec_enc_text(payload_tag_key(pv)).len();
    let r0 = read_map_header(data, pos);
    let (fcount, q3) = match r0 {
        Some(v) => v,
        None => {
            proof {
                assert forall|pv: crate::messages::PayloadView| #[trigger]
                    spec_enc_payload(pv).len() >= 0 && hyp(pv) implies false by {
                    lemma_payload_decomposed(data@, i as int, pv);
                    lemma_map_header_reads(data@, pos as int, r0, 1);
                }
            }
            return None;
        },
    };
    if fcount != 1 {
        proof {
            assert forall|pv: crate::messages::PayloadView| #[trigger]
                spec_enc_payload(pv).len() >= 0 && hyp(pv) implies false by {
                lemma_payload_decomposed(data@, i as int, pv);
                lemma_map_header_reads(data@, pos as int, r0, 1);
            }
        }
        return None;
    }
    let r1 = read_text(data, q3);
    let (k1, q4) = match r1 {
        Some(v) => v,
        None => {
            proof {
                assert forall|pv: crate::messages::PayloadView| #[trigger]
                    spec_enc_payload(pv).len() >= 0 && hyp(pv) implies false by {
                    lemma_payload_decomposed(data@, i as int, pv);
                    lemma_map_header_reads(data@, pos as int, r0, 1);
                }
            }
            return None;
        },
    };
    if !ascii_str_eq(k1.as_str(), "objects") {
        proof {
            assert forall|pv: crate::messages::PayloadView| #[trigger]
                spec_enc_payload(pv).len() >= 0 && hyp(pv) implies false by {
                lemma_payload_decomposed(data@, i as int, pv);
                lemma_map_header_reads(data@, pos as int, r0, 1);
            }
        }
        return None;
    }
    let r2 = decode_objects(data, q4);
    match r2 {
        Some((os, j)) => {
            let ghost ov = objects_view(os@);
            proof {
                let d = data@;
                lemma_join(d, pos as int, q3 as int, q4 as int, spec_enc_map_header(1),
                    spec_enc_text(key_objects_field()));
                lemma_join(
                    d,
                    pos as int,
                    q4 as int,
                    j as int,
                    spec_enc_map_header(1) + spec_enc_text(key_objects_field()),
                    spec_enc_array_header(os@.len()) + spec_enc_object_seq(ov),
                );
                assert(d.subrange(pos as int, j as int) =~= spec_enc_map_header(1)
                    + spec_enc_text(key_objects_field()) + spec_enc_array_header(os@.len())
                    + spec_enc_object_seq(ov));
                assert forall|pv: crate::messages::PayloadView| #[trigger]
                    spec_enc_payload(pv).len() >= 0 && hyp(pv) implies ov == pv->Objects_objects
                    && (j as int) == i + spec_enc_payload(pv).len() by {
                    lemma_payload_decomposed(data@, i as int, pv);
                    lemma_map_header_reads(data@, pos as int, r0, 1);
                    assert(objects_at(data@, q4 as int, pv->Objects_objects));
                }
            }
            Some((os, j))
        },
        None => {
            proof {
                assert forall|pv: crate::messages::PayloadView| #[trigger]
                    spec_enc_payload(pv).len() >= 0 && hyp(pv) implies false by {
                    lemma_payload_decomposed(data@, i as int, pv);
                    lemma_map_header_reads(data@, pos as int, r0, 1);
                    assert(objects_at(data@, q4 as int, pv->Objects_objects));
                }
            }
            None
        },
    }
}

/// The payload keys are ASCII.
pub proof fn lemma_key_ascii3()
    ensures
        vstd::utf8::is_ascii_chars(key_getdata()),
        vstd::utf8::is_ascii_chars(key_inv()),
        vstd::utf8::is_ascii_chars(key_objects_tag()),
        vstd::utf8::is_ascii_chars(key_none()),
        vstd::utf8::is_ascii_chars(key_inventory()),
        vstd::utf8::is_ascii_chars(key_objects_field()),
        vstd::utf8::is_ascii_chars(key_command()),
        vstd::utf8::is_ascii_chars(key_payload()),
        vstd::utf8::is_ascii_chars(key_reqinv()),
{
}

/// Whether `data` is exactly the encoding of network message `m` (ASCII
/// hash lists, representable expiries).
pub open spec fn network_message_at(data: Seq<u8>, m: crate::messages::NetworkMessageView) -> bool {
    &&& payload_ascii(m.payload)
    &&& (m.payload matches crate::messages::PayloadView::Objects { objects } ==> forall|t: int|
        0 <= t < objects.len() ==> i64::MIN <= (#[trigger] objects[t]).expires <= i64::MAX)
    &&& data == spec_enc_network_message(m)
}

/// Where the encoding of a network message is the whole input, its chunks
/// sit at their own offsets.
proof fn lemma_message_decomposed(data: Seq<u8>, m: crate::messages::NetworkMessageView)
    requires
        data.len() < 0x1_0000_0000_0000_0000,
        network_message_at(data, m),
    ensures
        ({
            let c1 = spec_enc_map_header(2);
            let c2 = spec_enc_text(key_command());
            let c3 = spec_enc_text(spec_command_text(m.command));
            let c4 = spec_enc_text(key_payload());
            let c5 = spec_enc_payload(m.payload);
            let p1 = c1.len() as int;
            let p2 = p1 + c2.len();
            let p3 = p2 + c3.len();
            let p4 = p3 + c4.len();
            let p5 = p4 + c5.len();
            &&& p5 == data.len()
            &&& data.subrange(0, p1) == c1
            &&& data.subrange(p1, p2) == c2
            &&& data.subrange(p2, p3) == c3
            &&& data.subrange(p3, p4) == c4
            &&& data.subrange(p4, p5) == c5
            &&& payload_at(data, p4, m.payload)
        }),
{
    let c1 = spec_enc_map_header(2);
    let c2 = spec_enc_text(key_command());
    let c3 = spec_enc_text(spec_command_text(m.command));
    let c4 = spec_enc_text(key_payload());
    let c5 = spec_enc_payload(m.payload);
    assert(data.subrange(0, data.len() as int) =~= data);
    lemma_split2(data, 0, c1 + c2 + c3 + c4, c5);
    lemma_split2(data, 0, c1 + c2 + c3, c4);
    lemma_split2(data, 0, c1 + c2, c3);
    lemma_split2(data, 0, c1, c2);
}

/// Decode a whole network message from the wire. Strict: accepts exactly
/// the output of `encode_network_message`, nothing else, and accepts all of
/// it — read of write is the identity.
#[verifier::rlimit(100)]
#[verifier::spinoff_prover]
pub fn decode_network_message(data: &[u8]) -> (r: Option<NetworkMessage>)
    ensures
        match r {
            Some(m) => data@ == spec_enc_network_message(m@) && payload_ascii(m@.payload),
            None => true,
        },
        forall|mv: crate::messages::NetworkMessageView| #![trigger spec_enc_network_message(mv)]
            network_message_at(data@, mv) ==> (match r {
                Some(m) => m@ == mv,
                None => false,
            }),
{
    let dlen = data.len();
    assert(data@.len() < 0x1_0000_0000_0000_0000);
    proof {
        reveal_strlit("command");
        reveal_strlit("payload");
        reveal_strlit("GetData");
        reveal_strlit("Inv");
        reveal_strlit("ReqInv");
        reveal_strlit("Objects");
        assert("command"@ =~= key_command());
        assert("payload"@ =~= key_payload());
        assert("GetData"@ =~= key_getdata());
        assert("Inv"@ =~= key_inv());
        assert("ReqInv"@ =~= key_reqinv());
        assert("Objects"@ =~= key_objects_tag());
        lemma_key_ascii3();
    }
    let r0 = read_map_header(data, 0);
    let (count, q1) = match r0 {
        Some(v) => v,
        None => {
            proof {
                assert forall|mv: crate::messages::NetworkMessageView| #[trigger]
                    spec_enc_network_message(mv).len() >= 0 && network_message_at(data@, mv)
                    implies false by {
                    lemma_message_decomposed(data@, mv);
                    lemma_map_header_reads(data@, 0, r0, 2);
                }
            }
            return None;
        },
    };
    if count != 2 {
        proof {
            assert forall|mv: crate::messages::NetworkMessageView| #[trigger]
                spec_enc_network_message(mv).len() >= 0 && network_message_at(data@, mv)
                implies false by {
                lemma_message_decomposed(data@, mv);
                lemma_map_header_reads(data@, 0, r0, 2);
            }
        }
        return None;
    }
    let r1 = read_text(data, q1);
    let (k1, q2) = match r1 {
        Some(v) => v,
        None => {
            proof {
                assert forall|mv: crate::messages::NetworkMessageView| #[trigger]
                    spec_enc_network_message(mv).len() >= 0 && network_message_at(data@, mv)
                    implies false by {
                    lemma_message_decomposed(data@, mv);
                    lemma_map_header_reads(data@, 0, r0, 2);
                }
            }
            return None;
        },
    };
    if !ascii_str_eq(k1.as_str(), "command") {
        proof {
            assert forall|mv: crate::messages::NetworkMessageView| #[trigger]
                spec_enc_network_message(mv).len() >= 0 && network_message_at(data@, mv)
                implies false by {
                lemma_message_decomposed(data@, mv);
                lemma_map_header_reads(data@, 0, r0, 2);
            }
        }
        return None;
    }
    let r2 = read_text(data, q2);
    let (cmd_text, q3) = match r2 {
        Some(v) => v,
        None => {
            proof {
                assert forall|mv: crate::messages::NetworkMessageView| #[trigger]
                    spec_enc_network_message(mv).len() >= 0 && network_message_at(data@, mv)
                    implies false by {
                    lemma_message_decomposed(data@, mv);
                    lemma_map_header_reads(data@, 0, r0, 2);
                }
            }
            return None;
        },
    };
    proof {
        assert forall|mv: crate::messages::NetworkMessageView| #[trigger]
            spec_enc_network_message(mv).len() >= 0 && network_message_at(data@, mv)
            implies cmd_text@ == spec_command_text(mv.command) && (q3 as int)
            == spec_enc_map_header(2).len() + spec_enc_text(key_command()).len() + spec_enc_text(
            spec_command_text(mv.command),
        ).len() by {
            lemma_message_decomposed(data@, mv);
            lemma_map_header_reads(data@, 0, r0, 2);
        }
    }
    let command = if ascii_str_eq(cmd_text.as_str(), "GetData") {
        MessageCommand::GetData
    } else if ascii_str_eq(cmd_text.as_str(), "Inv") {
        MessageCommand::Inv
    } else if ascii_str_eq(cmd_text.as_str(), "ReqInv") {
        MessageCommand::ReqInv
    } else if ascii_str_eq(cmd_text.as_str(), "Objects") {
        MessageCommand::Objects
    } else {
        proof {
            assert forall|mv: crate::messages::NetworkMessageView| #[trigger]
                spec_enc_network_message(mv).len() >= 0 && network_message_at(data@, mv)
                implies false by {}
        }
        return None;
    };
    let r3 = read_text(data, q3);
    let (k2, q4) = match r3 {
        Some(v) => v,
        None => {
            proof {
                assert forall|mv: crate::messages::NetworkMessageView| #[trigger]
                    spec_enc_network_message(mv).len() >= 0 && network_message_at(data@, mv)
                    implies false by {
                    lemma_message_decomposed(data@, mv);
                }
            }
            return None;
        },
    };
    if !ascii_str_eq(k2.as_str(), "payload") {
        proof {
            assert forall|mv: crate::messages::NetworkMessageView| #[trigger]
                spec_enc_network_message(mv).len() >= 0 && network_message_at(data@, mv)
                implies false by {
                lemma_message_decomposed(data@, mv);
            }
        }
        return None;
    }
    let r4 = decode_payload(data, q4);
    let (payload, q5) = match r4 {
        Some(v) => v,
        None => {
            proof {
                assert forall|mv: crate::messages::NetworkMessageView| #[trigger]
                    spec_enc_network_message(mv).len() >= 0 && network_message_at(data@, mv)
                    implies false by {
                    lemma_message_decomposed(data@, mv);
                }
            }
            return None;
        },
    };
    if q5 != dlen {
        proof {
            assert forall|mv: crate::messages::NetworkMessageView| #[trigger]
                spec_enc_network_message(mv).len() >= 0 && network_message_at(data@, mv)
                implies false by {
                lemma_message_decomposed(data@, mv);
            }
        }
        return None;
    }
    let ghost pv = payload@;
    let result = NetworkMessage { command, payload };
    proof {
        let d = data@;
        let c1 = spec_enc_map_header(2);
        let c2 = spec_enc_text(key_command());
        let c3 = spec_enc_text(spec_command_text(command));
        let c4 = spec_enc_text(key_payload());
        let c5 = spec_enc_payload(pv);
        lemma_join(d, 0, q1 as int, q2 as int, c1, c2);
        lemma_join(d, 0, q2 as int, q3 as int, c1 + c2, c3);
        lemma_join(d, 0, q3 as int, q4 as int, c1 + c2 + c3, c4);
        lemma_join(d, 0, q4 as int, q5 as int, c1 + c2 + c3 + c4, c5);
        assert(d.subrange(0, dlen as int) =~= d);
        assert forall|mv: crate::messages::NetworkMessageView| #[trigger]
            spec_enc_network_message(mv).len() >= 0 && network_message_at(data@, mv)
            implies result@ == mv by {
            lemma_message_decomposed(data@, mv);
            assert(payload_at(data@, q4 as int, mv.payload));
        }
    }
    Some(result)
}

} // verus!