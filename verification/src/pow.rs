//! The proof-of-work engine: target computation from payload size and
//! remaining time-to-live, the double-SHA-512 trial, verification, and the
//! bounded nonce search.
use vstd::prelude::*;

use crate::cbor::{be_val, push_be, read_be, spec_be};
use crate::crypto::{sha512, sha512_of};
use crate::messages::{spec_enc_kind, Object};

verus! {

/// Failure of proof-of-work verification.
#[derive(Clone, Copy, PartialEq, Eq, Structural, Debug)]
pub enum PoWError {
    InsufficientProofOfWork,
}

impl PoWError {
    /// A human-readable description of the failure.
    pub fn message(&self) -> String {
        "proof of work of object is insufficient (trivial_value > target)".to_owned()
    }
}

/// Big-endian bytes with leading zeros removed; the all-zero value keeps a
/// single zero byte, matching the shortest big-integer byte form.
pub open spec fn spec_normalize_be(b: Seq<u8>) -> Seq<u8>
    decreases b.len(),
{
    if b.len() == 0 {
        seq![0u8]
    } else if b[0] == 0 {
        spec_normalize_be(b.skip(1))
    } else {
        b
    }
}

/// Strip leading zero bytes; an empty or all-zero input becomes `[0]`.
pub fn normalize_be(b: &Vec<u8>) -> (r: Vec<u8>)
    ensures
        r@ == spec_normalize_be(b@),
{
    let mut k: usize = 0;
    assert(b@.skip(0) =~= b@);
    while k < b.len()
        invariant
            k <= b@.len(),
            spec_normalize_be(b@) == spec_normalize_be(b@.skip(k as int)),
            forall|q: int| 0 <= q < k ==> b@[q] == 0,
        decreases b@.len() - k,
    {
        if b[k] != 0 {
            let mut r: Vec<u8> = Vec::new();
            let mut t = k;
            while t < b.len()
                invariant
                    k <= t <= b@.len(),
                    r@ == b@.subrange(k as int, t as int),
                decreases b@.len() - t,
            {
                r.push(b[t]);
                assert(r@ =~= b@.subrange(k as int, t + 1));
                t = t + 1;
            }
            assert(r@ =~= b@.skip(k as int));
            assert(spec_normalize_be(b@.skip(k as int)) == b@.skip(k as int)) by {
                assert(b@.skip(k as int)[0] == b@[k as int]);
            }
            return r;
        }
        proof {
            assert(b@.skip(k as int)[0] == b@[k as int]);
            assert(b@.skip(k as int).skip(1) =~= b@.skip(k + 1));
        }
        k = k + 1;
    }
    proof {
        assert(b@.skip(b@.len() as int) =~= Seq::<u8>::empty());
    }
    let mut r: Vec<u8> = Vec::new();
    r.push(0);
    assert(r@ =~= seq![0u8]);
    r
}

/// The proof-of-work trial value: the first 8 bytes, big-endian, of
/// SHA-512(SHA-512(nonce ‖ initial_hash)), where the nonce bytes are taken
/// in their shortest big-endian form.
pub open spec fn pow_trial(nonce_be: Seq<u8>, initial_hash: Seq<u8>) -> nat {
    be_val(sha512_of(sha512_of(spec_normalize_be(nonce_be) + initial_hash)).subrange(0, 8))
}

/// Compute the trial value for a nonce and an initial hash.
pub fn trial_value(nonce: &Vec<u8>, initial_hash: &Vec<u8>) -> (r: u64)
    ensures
        r as nat == pow_trial(nonce@, initial_hash@),
{
    let mut buf = normalize_be(nonce);
    crate::cbor::push_slice(&mut buf, initial_hash.as_slice());
    assert(buf@ =~= spec_normalize_be(nonce@) + initial_hash@);
    let h1 = sha512(buf.as_slice());
    let h2 = sha512(h1.as_slice());
    match read_be(h2.as_slice(), 0, 8) {
        Some((v, _)) => v,
        None => {
            // SHA-512 digests hold 64 bytes, so 8 can always be read.
            proof {
                assert(false);
            }
            0
        },
    }
}

/// Verify a nonce against a target: recompute the trial from the nonce and
/// the object's initial hash and demand `trial <= target`. Succeeds exactly
/// on sufficient proof of work.
pub fn check_pow(target: u64, nonce: &Vec<u8>, initial_hash: &Vec<u8>) -> (r: Result<
    (),
    PoWError,
>)
    ensures
        r is Ok <==> pow_trial(nonce@, initial_hash@) <= target,
        r is Err ==> r == Result::<(), PoWError>::Err(PoWError::InsufficientProofOfWork),
{
    let trial = trial_value(nonce, initial_hash);
    if trial > target {
        Err(PoWError::InsufficientProofOfWork)
    } else {
        Ok(())
    }
}

/// Time to live: seconds until expiry, never negative.
pub open spec fn spec_ttl(expires: int, now: int) -> nat {
    if expires >= now {
        (expires - now) as nat
    } else {
        0
    }
}

/// The proof-of-work target as a function of the encoded kind length, the
/// remaining time to live, and the difficulty parameters (each defaulted to
/// 1000 when zero):
/// `2^64 / (trials * (payload + ttl * payload / 2^16))` with
/// `payload = kind_len + extra + 8`.
pub open spec fn spec_pow_target(kind_len: nat, ttl: nat, trials: nat, extra: nat) -> int {
    let n: nat = if trials == 0 {
        1000
    } else {
        trials
    };
    let x: nat = if extra == 0 {
        1000
    } else {
        extra
    };
    let payload: nat = kind_len + x + 8;
    let denom: nat = n * (payload + (ttl * payload) / 0x10000);
    0x1_0000_0000_0000_0000int / denom as int
}

/// Compute the proof-of-work target for an object.
///
/// The time to live is capped by the precondition so that the intermediate
/// products fit in the machine arithmetic; the protocol's lifetimes are
/// days, far below the bound.
pub fn get_pow_target(object: &Object, nonce_trials_per_byte: u32, extra_bytes: u32, now: i64) -> (r:
    u64)
    requires
        object@.expires - now < 0x1_0000_0000,
    ensures
        r == spec_pow_target(
            spec_enc_kind(object@.kind).len(),
            spec_ttl(object@.expires, now as int),
            nonce_trials_per_byte as nat,
            extra_bytes as nat,
        ),
{
    let trials: u32 = if nonce_trials_per_byte == 0 {
        1000
    } else {
        nonce_trials_per_byte
    };
    let extra: u32 = if extra_bytes == 0 {
        1000
    } else {
        extra_bytes
    };
    let kind_bytes = crate::messages::encode_kind(&object.kind);
    let kind_len = kind_bytes.len();
    let ttl: u128 = if object.expires > now {
        (object.expires as i128 - now as i128) as u128
    } else {
        0
    };
    let payload: u128 = kind_len as u128 + extra as u128 + 8;
    assert(payload >= 9);
    assert(ttl < 0x1_0000_0000);
    assert(payload < 0x2_0000_0000_0000_0000) by {
        assert(kind_len as nat <= usize::MAX as nat);
    }
    assert(ttl * payload < 0x1_0000_0000 * 0x2_0000_0000_0000_0000) by (nonlinear_arith)
        requires
            ttl < 0x1_0000_0000,
            payload < 0x2_0000_0000_0000_0000,
    ;
    let inner: u128 = payload + (ttl * payload) / 0x10000;
    assert(inner < 0x4_0000_0000_0000_0000_0000) by (nonlinear_arith)
        requires
            payload < 0x2_0000_0000_0000_0000,
            ttl * payload < 0x2_0000_0000_0000_0000_0000_0000,
            inner == payload + (ttl * payload) / 0x10000,
    ;
    assert((trials as u128) * inner < 0x1_0000_0000 * 0x4_0000_0000_0000_0000_0000 && (trials
        as u128) * inner >= inner) by (nonlinear_arith)
        requires
            1 <= trials as u128,
            (trials as u128) < 0x1_0000_0000,
            9 <= inner,
            inner < 0x4_0000_0000_0000_0000_0000,
    ;
    let denom: u128 = (trials as u128) * inner;
    let target: u128 = 0x1_0000_0000_0000_0000u128 / denom;
    assert(target < 0x1_0000_0000_0000_0000) by (nonlinear_arith)
        requires
            denom >= 9,
            target == 0x1_0000_0000_0000_0000u128 / denom,
    ;
    target as u64
}

/// The shortest big-endian bytes of a 64-bit nonce.
pub open spec fn spec_nonce_bytes(n: nat) -> Seq<u8> {
    spec_normalize_be(spec_be(n, 8))
}

/// The 8-byte value as its shortest big-endian form.
pub fn nonce_bytes(n: u64) -> (r: Vec<u8>)
    ensures
        r@ == spec_nonce_bytes(n as nat),
{
    let mut buf: Vec<u8> = Vec::new();
    proof {
        crate::cbor::lemma_pow256_values();
    }
    push_be(&mut buf, n, 8);
    normalize_be(&buf)
}

/// Search nonces 1, 2, ... for one whose trial value meets the target,
/// giving up after `max_tries` candidates. On success the returned trial
/// meets the target; on failure every tried nonce missed it.
pub fn do_pow(target: u64, initial_hash: &Vec<u8>, max_tries: u64) -> (r: Option<(u64, Vec<u8>)>)
    ensures
        match r {
            Some((trial, nonce)) => {
                &&& trial as nat == pow_trial(nonce@, initial_hash@)
                &&& trial <= target
                &&& exists|n: nat|
                    #![trigger spec_nonce_bytes(n)]
                    {
                        &&& 1 <= n <= max_tries
                        &&& nonce@ == spec_nonce_bytes(n)
                        &&& forall|q: nat|
                            1 <= q < n ==> pow_trial(
                                #[trigger] spec_nonce_bytes(q),
                                initial_hash@,
                            ) > target
                    }
            },
            None => forall|n: nat|
                1 <= n <= max_tries ==> pow_trial(#[trigger] spec_nonce_bytes(n), initial_hash@)
                    > target,
        },
{
    let mut n: u64 = 0;
    while n < max_tries
        invariant
            n <= max_tries,
            forall|q: nat|
                1 <= q <= n ==> pow_trial(#[trigger] spec_nonce_bytes(q), initial_hash@) > target,
        decreases max_tries - n,
    {
        n = n + 1;
        let nb = nonce_bytes(n);
        let trial = trial_value(&nb, initial_hash);
        if trial <= target {
            return Some((trial, nb));
        }
        proof {
            assert(spec_normalize_be(spec_nonce_bytes(n as nat)) == spec_nonce_bytes(n as nat))
                by {
                lemma_normalize_idempotent(spec_be(n as nat, 8));
            }
        }
    }
    None
}

/// Normalisation is idempotent.
pub proof fn lemma_normalize_idempotent(b: Seq<u8>)
    ensures
        spec_normalize_be(spec_normalize_be(b)) == spec_normalize_be(b),
    decreases b.len(),
{
    if b.len() == 0 {
        assert(spec_normalize_be(seq![0u8]) =~= spec_normalize_be(seq![0u8].skip(1)));
        assert(seq![0u8].skip(1) =~= Seq::<u8>::empty());
    } else if b[0] == 0 {
        lemma_normalize_idempotent(b.skip(1));
    } else {
    }
}

/// Target monotonicity: with the payload size fixed, a shorter time to live
/// and a smaller (non-zero) nonce-trials parameter both make the target
/// larger, so the proof of work easier.
pub proof fn lemma_target_monotonic(
    kind_len: nat,
    ttl1: nat,
    ttl2: nat,
    trials1: nat,
    trials2: nat,
    extra: nat,
)
    requires
        ttl1 <= ttl2,
        1 <= trials1 <= trials2,
    ensures
        spec_pow_target(kind_len, ttl1, trials1, extra) >= spec_pow_target(
            kind_len,
            ttl2,
            trials2,
            extra,
        ),
{
    let x: nat = if extra == 0 {
        1000
    } else {
        extra
    };
    let payload: nat = kind_len + x + 8;
    let inner1: nat = payload + (ttl1 * payload) / 0x10000;
    let inner2: nat = payload + (ttl2 * payload) / 0x10000;
    assert(ttl1 * payload <= ttl2 * payload) by (nonlinear_arith)
        requires
            ttl1 <= ttl2,
    ;
    vstd::arithmetic::div_mod::lemma_div_is_ordered(
        (ttl1 * payload) as int,
        (ttl2 * payload) as int,
        0x10000,
    );
    let denom1: nat = trials1 * inner1;
    let denom2: nat = trials2 * inner2;
    assert(denom1 <= denom2) by (nonlinear_arith)
        requires
            trials1 <= trials2,
            inner1 <= inner2,
            denom1 == trials1 * inner1,
            denom2 == trials2 * inner2,
    ;
    assert(denom1 >= 9) by (nonlinear_arith)
        requires
            trials1 >= 1,
            inner1 >= 9,
            denom1 == trials1 * inner1,
    ;
    vstd::arithmetic::div_mod::lemma_div_is_ordered_by_denominator(
        0x1_0000_0000_0000_0000,
        denom1 as int,
        denom2 as int,
    );
}

} // verus!
