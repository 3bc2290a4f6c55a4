//! A small, canonical CBOR subset: the byte-level primitives the wire
//! encoding of this node is built from.
//!
//! Only what the protocol needs is covered: unsigned and negative integers,
//! byte strings, ASCII text strings, and array/map headers, all with
//! definite, minimal-length headers. Encoders are exact functions of their
//! input; decoders accept exactly the encoders' output (canonical CBOR) and
//! return the unique value a well-formed prefix encodes.
use vstd::prelude::*;

verus! {

/// 256^width.
pub open spec fn pow256(width: nat) -> nat
    decreases width,
{
    if width == 0 {
        1
    } else {
        256 * pow256((width - 1) as nat)
    }
}

/// The unsigned value of big-endian bytes.
pub open spec fn be_val(s: Seq<u8>) -> nat
    decreases s.len(),
{
    if s.len() == 0 {
        0
    } else {
        be_val(s.drop_last()) * 256 + s.last() as nat
    }
}

/// The `width`-byte big-endian encoding of `n`.
pub open spec fn spec_be(n: nat, width: nat) -> Seq<u8>
    decreases width,
{
    if width == 0 {
        Seq::empty()
    } else {
        spec_be(n / 256, (width - 1) as nat).push((n % 256) as u8)
    }
}

pub proof fn lemma_spec_be_len(n: nat, width: nat)
    ensures
        spec_be(n, width).len() == width,
    decreases width,
{
    if width > 0 {
        lemma_spec_be_len(n / 256, (width - 1) as nat);
    }
}

pub proof fn lemma_be_val_spec_be(n: nat, width: nat)
    requires
        n < pow256(width),
    ensures
        be_val(spec_be(n, width)) == n,
    decreases width,
{
    if width > 0 {
        lemma_spec_be_len(n / 256, (width - 1) as nat);
        lemma_be_val_spec_be(n / 256, (width - 1) as nat);
        assert(spec_be(n, width).drop_last() =~= spec_be(n / 256, (width - 1) as nat));
    }
}

/// The canonical CBOR header with major type `major` and value `n`:
/// the shortest additional-information form that holds `n`.
pub open spec fn spec_header(major: u8, n: nat) -> Seq<u8> {
    if n < 24 {
        seq![((major as nat) * 32 + n) as u8]
    } else if n < 256 {
        seq![((major as nat) * 32 + 24) as u8] + spec_be(n, 1)
    } else if n < 65536 {
        seq![((major as nat) * 32 + 25) as u8] + spec_be(n, 2)
    } else if n < 0x1_0000_0000 {
        seq![((major as nat) * 32 + 26) as u8] + spec_be(n, 4)
    } else {
        seq![((major as nat) * 32 + 27) as u8] + spec_be(n, 8)
    }
}

pub proof fn lemma_header_len(major: u8, n: nat)
    ensures
        spec_header(major, n).len() == if n < 24 {
            1int
        } else if n < 256 {
            2int
        } else if n < 65536 {
            3int
        } else if n < 0x1_0000_0000 {
            5int
        } else {
            9int
        },
{
    if n < 24 {
    } else if n < 256 {
        lemma_spec_be_len(n, 1);
    } else if n < 65536 {
        lemma_spec_be_len(n, 2);
    } else if n < 0x1_0000_0000 {
        lemma_spec_be_len(n, 4);
    } else {
        lemma_spec_be_len(n, 8);
    }
}

/// Append the big-endian bytes of `n` (exactly `width` bytes) to `out`.
pub fn push_be(out: &mut Vec<u8>, n: u64, width: u8)
    requires
        width <= 8,
        (n as nat) < pow256(width as nat),
    ensures
        final(out)@ == old(out)@ + spec_be(n as nat, width as nat),
    decreases width,
{
    if width == 0 {
        assert(out@ =~= old(out)@ + spec_be(n as nat, 0));
    } else {
        push_be(out, n / 256, width - 1);
        out.push((n % 256) as u8);
        assert(out@ =~= old(out)@ + spec_be(n as nat, width as nat));
    }
}

/// Append the canonical CBOR header for major type `major` and value `n`.
pub fn push_header(out: &mut Vec<u8>, major: u8, n: u64)
    requires
        major <= 5,
    ensures
        final(out)@ == old(out)@ + spec_header(major, n as nat),
{
    proof {
        lemma_pow256_values();
    }
    if n < 24 {
        out.push(major * 32 + n as u8);
        assert(out@ =~= old(out)@ + spec_header(major, n as nat));
    } else if n < 256 {
        out.push(major * 32 + 24);
        push_be(out, n, 1);
        assert(out@ =~= old(out)@ + spec_header(major, n as nat));
    } else if n < 65536 {
        out.push(major * 32 + 25);
        push_be(out, n, 2);
        assert(out@ =~= old(out)@ + spec_header(major, n as nat));
    } else if n < 0x1_0000_0000 {
        out.push(major * 32 + 26);
        push_be(out, n, 4);
        assert(out@ =~= old(out)@ + spec_header(major, n as nat));
    } else {
        out.push(major * 32 + 27);
        push_be(out, n, 8);
        assert(out@ =~= old(out)@ + spec_header(major, n as nat));
    }
}

/// Read `width` big-endian bytes starting at `i`.
pub fn read_be(data: &[u8], i: usize, width: u8) -> (r: Option<(u64, usize)>)
    requires
        width <= 8,
    ensures
        match r {
            Some((v, j)) => {
                &&& j == i + width
                &&& j <= data@.len()
                &&& v as nat == be_val(data@.subrange(i as int, j as int))
                &&& (v as nat) < pow256(width as nat)
            },
            None => i + width > data@.len(),
        },
{
    if data.len() < width as usize || i > data.len() - width as usize {
        return None;
    }
    let end = i + width as usize;
    let mut v: u64 = 0;
    let mut k: usize = 0;
    proof {
        assert(data@.subrange(i as int, i as int) =~= Seq::<u8>::empty());
        assert(pow256(0) == 1);
    }
    while k < width as usize
        invariant
            k <= width <= 8,
            end == i + width,
            end <= data@.len(),
            v as nat == be_val(data@.subrange(i as int, (i + k) as int)),
            (v as nat) < pow256(k as nat),
        decreases width - k,
    {
        proof {
            lemma_pow256_mono(k as nat, 7);
            lemma_pow256_values();
        }
        let b = data[i + k];
        proof {
            assert(data@.subrange(i as int, (i + k + 1) as int).drop_last() =~= data@.subrange(
                i as int,
                (i + k) as int,
            ));
            assert(data@.subrange(i as int, (i + k + 1) as int).last() == data@[(i + k) as int]);
        }
        v = v * 256 + b as u64;
        k = k + 1;
    }
    Some((v, end))
}

pub proof fn lemma_pow256_values()
    ensures
        pow256(0) == 1,
        pow256(1) == 256,
        pow256(2) == 0x1_0000,
        pow256(4) == 0x1_0000_0000,
        pow256(7) == 0x100_0000_0000_0000,
        pow256(8) == 0x1_0000_0000_0000_0000,
{
    assert(pow256(0) == 1);
    assert(pow256(1) == 256);
    assert(pow256(2) == 0x1_0000);
    assert(pow256(3) == 0x100_0000);
    assert(pow256(4) == 0x1_0000_0000);
    assert(pow256(5) == 0x100_0000_0000);
    assert(pow256(6) == 0x1_0000_0000_0000);
    assert(pow256(7) == 0x100_0000_0000_0000);
    assert(pow256(8) == 0x1_0000_0000_0000_0000);
}

pub proof fn lemma_pow256_mono(a: nat, b: nat)
    requires
        a <= b,
    ensures
        pow256(a) <= pow256(b),
    decreases b,
{
    if a < b {
        lemma_pow256_mono(a, (b - 1) as nat);
    }
}

/// Read a canonical CBOR header at `i`: the major type, its value, and the
/// position after the header. Fails on truncated input and on headers that
/// are not in their shortest form.
pub fn read_header(data: &[u8], i: usize) -> (r: Option<(u8, u64, usize)>)
    ensures
        match r {
            Some((m, v, j)) => {
                &&& m <= 7
                &&& i < j <= data@.len()
                &&& data@.subrange(i as int, j as int) == spec_header(m, v as nat)
            },
            None => true,
        },
        forall|m: u8, v: u64|
            m <= 7 && i + spec_header(m, v as nat).len() <= data@.len() && data@.subrange(
                i as int,
                i + spec_header(m, v as nat).len(),
            ) == spec_header(m, v as nat) ==> r == Some(
                (m, v, (i + spec_header(m, v as nat).len()) as usize),
            ),
{
    if i >= data.len() {
        proof {
            lemma_no_header_when_short(data@, i as int);
        }
        return None;
    }
    let b = data[i];
    let major = b / 32;
    let info = b % 32;
    if info < 24 {
        let j = i + 1;
        proof {
            assert(data@.subrange(i as int, j as int) =~= spec_header(major, info as nat));
            lemma_header_unique(data@, i as int, major, info as u64, j as int);
        }
        Some((major, info as u64, j))
    } else if info == 24 {
        match read_be(data, i + 1, 1) {
            Some((v, j)) => {
                if v < 24 {
                    proof {
                        lemma_no_header_nonminimal(data@, i as int);
                    }
                    None
                } else {
                    proof {
                        lemma_pow256_values();
                        assert(data@.subrange(i + 1, j as int) =~= spec_be(v as nat, 1)) by {
                            lemma_spec_be_len(v as nat, 1);
                            lemma_be_inverse(data@.subrange(i + 1, j as int), v as nat, 1);
                        }
                        assert(data@.subrange(i as int, j as int) =~= spec_header(
                            major,
                            v as nat,
                        ));
                        lemma_header_unique(data@, i as int, major, v, j as int);
                    }
                    Some((major, v, j))
                }
            },
            None => {
                proof {
                    lemma_no_header_truncated(data@, i as int);
                }
                None
            },
        }
    } else if info == 25 {
        match read_be(data, i + 1, 2) {
            Some((v, j)) => {
                if v < 256 {
                    proof {
                        lemma_no_header_nonminimal(data@, i as int);
                    }
                    None
                } else {
                    proof {
                        lemma_pow256_values();
                        assert(data@.subrange(i + 1, j as int) =~= spec_be(v as nat, 2)) by {
                            lemma_spec_be_len(v as nat, 2);
                            lemma_be_inverse(data@.subrange(i + 1, j as int), v as nat, 2);
                        }
                        assert(data@.subrange(i as int, j as int) =~= spec_header(
                            major,
                            v as nat,
                        ));
                        lemma_header_unique(data@, i as int, major, v, j as int);
                    }
                    Some((major, v, j))
                }
            },
            None => {
                proof {
                    lemma_no_header_truncated(data@, i as int);
                }
                None
            },
        }
    } else if info == 26 {
        match read_be(data, i + 1, 4) {
            Some((v, j)) => {
                if v < 65536 {
                    proof {
                        lemma_no_header_nonminimal(data@, i as int);
                    }
                    None
                } else {
                    proof {
                        lemma_pow256_values();
                        assert(data@.subrange(i + 1, j as int) =~= spec_be(v as nat, 4)) by {
                            lemma_spec_be_len(v as nat, 4);
                            lemma_be_inverse(data@.subrange(i + 1, j as int), v as nat, 4);
                        }
                        assert(data@.subrange(i as int, j as int) =~= spec_header(
                            major,
                            v as nat,
                        ));
                        lemma_header_unique(data@, i as int, major, v, j as int);
                    }
                    Some((major, v, j))
                }
            },
            None => {
                proof {
                    lemma_no_header_truncated(data@, i as int);
                }
                None
            },
        }
    } else if info == 27 {
        match read_be(data, i + 1, 8) {
            Some((v, j)) => {
                if v < 0x1_0000_0000 {
                    proof {
                        lemma_no_header_nonminimal(data@, i as int);
                    }
                    None
                } else {
                    proof {
                        lemma_pow256_values();
                        assert(data@.subrange(i + 1, j as int) =~= spec_be(v as nat, 8)) by {
                            lemma_spec_be_len(v as nat, 8);
                            lemma_be_inverse(data@.subrange(i + 1, j as int), v as nat, 8);
                        }
                        assert(data@.subrange(i as int, j as int) =~= spec_header(
                            major,
                            v as nat,
                        ));
                        lemma_header_unique(data@, i as int, major, v, j as int);
                    }
                    Some((major, v, j))
                }
            },
            None => {
                proof {
                    lemma_no_header_truncated(data@, i as int);
                }
                None
            },
        }
    } else {
        proof {
            lemma_no_header_badinfo(data@, i as int);
        }
        None
    }
}

/// Big-endian bytes of the right length and value are the encoding itself.
proof fn lemma_be_inverse(s: Seq<u8>, n: nat, width: nat)
    requires
        s.len() == width,
        be_val(s) == n,
        n < pow256(width),
    ensures
        s == spec_be(n, width),
    decreases width,
{
    if width == 0 {
        assert(s =~= spec_be(n, 0));
    } else {
        let head = s.drop_last();
        assert(be_val(s) == be_val(head) * 256 + s.last());
        assert(be_val(head) == n / 256 && (s.last() as nat) == n % 256) by (nonlinear_arith)
            requires
                be_val(head) * 256 + s.last() == n,
                s.last() < 256,
        ;
        assert(be_val(head) < pow256((width - 1) as nat)) by (nonlinear_arith)
            requires
                n < pow256(width),
                pow256(width) == 256 * pow256((width - 1) as nat),
                be_val(head) == n / 256,
        ;
        lemma_be_inverse(head, n / 256, (width - 1) as nat);
        assert(s =~= spec_be(n / 256, (width - 1) as nat).push((n % 256) as u8));
    }
}

/// No well-formed header fits when the input ends at or before `i`.
proof fn lemma_no_header_when_short(data: Seq<u8>, i: int)
    requires
        i >= data.len(),
    ensures
        forall|m: u8, v: u64|
            m <= 7 ==> i + spec_header(m, v as nat).len() > data.len(),
{
    assert forall|m: u8, v: u64| m <= 7 implies i + spec_header(m, v as nat).len() > data.len() by {
        lemma_header_len(m, v as nat);
    }
}

/// The first byte of a header determines the major type and the
/// additional-information field.
proof fn lemma_header_first_byte(m: u8, v: nat)
    requires
        m <= 7,
    ensures
        spec_header(m, v).len() >= 1,
        spec_header(m, v)[0] / 32 == m,
        spec_header(m, v)[0] % 32 == if v < 24 {
            v as u8
        } else if v < 256 {
            24u8
        } else if v < 65536 {
            25u8
        } else if v < 0x1_0000_0000 {
            26u8
        } else {
            27u8
        },
{
    lemma_header_len(m, v);
    let info: nat = if v < 24 {
        v
    } else if v < 256 {
        24
    } else if v < 65536 {
        25
    } else if v < 0x1_0000_0000 {
        26
    } else {
        27
    };
    assert(spec_header(m, v)[0] == ((m as nat) * 32 + info) as u8);
    assert(((m as nat) * 32 + info) < 256);
    assert((((m as nat) * 32 + info) as u8) / 32 == m && (((m as nat) * 32 + info) as u8) % 32
        == info) by (nonlinear_arith)
        requires
            m <= 7,
            info < 32,
    ;
}

/// When a well-formed header starts at `i` and the decoder has identified
/// `(m0, v0)` occupying `[i, j0)`, any header that matches a prefix at `i`
/// is that one.
proof fn lemma_header_unique(data: Seq<u8>, i: int, m0: u8, v0: u64, j0: int)
    requires
        m0 <= 7,
        0 <= i,
        j0 == i + spec_header(m0, v0 as nat).len(),
        j0 <= data.len(),
        data.subrange(i, j0) == spec_header(m0, v0 as nat),
    ensures
        forall|m: u8, v: u64|
            m <= 7 && i + spec_header(m, v as nat).len() <= data.len() && data.subrange(
                i,
                i + spec_header(m, v as nat).len(),
            ) == spec_header(m, v as nat) ==> m == m0 && v == v0 && i + spec_header(
                m,
                v as nat,
            ).len() == j0,
{
    assert forall|m: u8, v: u64|
        m <= 7 && i + spec_header(m, v as nat).len() <= data.len() && data.subrange(
            i,
            i + spec_header(m, v as nat).len(),
        ) == spec_header(m, v as nat) implies m == m0 && v == v0 && i + spec_header(
        m,
        v as nat,
    ).len() == j0 by {
        lemma_header_first_byte(m, v as nat);
        lemma_header_first_byte(m0, v0 as nat);
        lemma_header_len(m, v as nat);
        lemma_header_len(m0, v0 as nat);
        assert(spec_header(m, v as nat)[0] == data[i]);
        assert(spec_header(m0, v0 as nat)[0] == data[i]);
        assert(m == m0);
        // Same first byte means the same additional-information field, so the
        // same header length and the same value bytes.
        let info = data[i] % 32;
        if info < 24 {
            assert(v as nat == info as nat && v0 as nat == info as nat);
        } else {
            let w: nat = if info == 24 {
                1
            } else if info == 25 {
                2
            } else if info == 26 {
                4
            } else {
                8
            };
            assert(spec_header(m, v as nat).skip(1) =~= spec_be(v as nat, w));
            assert(spec_header(m0, v0 as nat).skip(1) =~= spec_be(v0 as nat, w));
            assert(data.subrange(i + 1, i + 1 + w) =~= spec_be(v as nat, w)) by {
                assert(data.subrange(i, i + spec_header(m, v as nat).len()).skip(1)
                    =~= data.subrange(i + 1, i + 1 + w));
            }
            assert(data.subrange(i + 1, i + 1 + w) =~= spec_be(v0 as nat, w)) by {
                assert(data.subrange(i, j0).skip(1) =~= data.subrange(i + 1, i + 1 + w));
            }
            lemma_value_fits(m, v as nat, w);
            lemma_value_fits(m0, v0 as nat, w);
            lemma_be_val_spec_be(v as nat, w);
            lemma_be_val_spec_be(v0 as nat, w);
        }
    }
}

/// The value of a header with a `width`-byte argument fits in that width.
proof fn lemma_value_fits(m: u8, v: nat, width: nat)
    requires
        m <= 7,
        v < 0x1_0000_0000_0000_0000,
        spec_header(m, v).len() == 1 + width,
        width == 1 || width == 2 || width == 4 || width == 8,
    ensures
        v < pow256(width),
{
    lemma_header_len(m, v);
    lemma_pow256_values();
}

/// A non-minimal header (argument bytes holding a value a shorter form
/// could) matches no canonical header.
proof fn lemma_no_header_nonminimal(data: Seq<u8>, i: int)
    requires
        0 <= i < data.len(),
        ({
            let info = data[i] % 32;
            ||| (info == 24 && i + 2 <= data.len() && be_val(data.subrange(i + 1, i + 2)) < 24)
            ||| (info == 25 && i + 3 <= data.len() && be_val(data.subrange(i + 1, i + 3)) < 256)
            ||| (info == 26 && i + 5 <= data.len() && be_val(data.subrange(i + 1, i + 5)) < 65536)
            ||| (info == 27 && i + 9 <= data.len() && be_val(data.subrange(i + 1, i + 9))
                < 0x1_0000_0000)
        }),
    ensures
        forall|m: u8, v: u64|
            m <= 7 && i + spec_header(m, v as nat).len() <= data.len() ==> data.subrange(
                i,
                i + spec_header(m, v as nat).len(),
            ) != spec_header(m, v as nat),
{
    let info = data[i] % 32;
    assert forall|m: u8, v: u64|
        m <= 7 && i + spec_header(m, v as nat).len() <= data.len() && data.subrange(
            i,
            i + spec_header(m, v as nat).len(),
        ) == spec_header(m, v as nat) implies false by {
        lemma_header_first_byte(m, v as nat);
        lemma_header_len(m, v as nat);
        assert(spec_header(m, v as nat)[0] == data[i]);
        let vi = v as nat;
        let w: nat = if info == 24 {
            1
        } else if info == 25 {
            2
        } else if info == 26 {
            4
        } else {
            8
        };
        assert(data.subrange(i + 1, i + 1 + w) =~= spec_be(vi, w)) by {
            assert(data.subrange(i, i + spec_header(m, vi).len()).skip(1) =~= data.subrange(
                i + 1,
                i + 1 + w,
            ));
            assert(spec_header(m, vi).skip(1) =~= spec_be(vi, w));
        }
        lemma_value_fits(m, vi, w);
        lemma_be_val_spec_be(vi, w);
    }
}

/// A header whose argument bytes run past the end of the input matches no
/// canonical header.
proof fn lemma_no_header_truncated(data: Seq<u8>, i: int)
    requires
        0 <= i < data.len(),
        ({
            let info = data[i] % 32;
            ||| (info == 24 && i + 2 > data.len())
            ||| (info == 25 && i + 3 > data.len())
            ||| (info == 26 && i + 5 > data.len())
            ||| (info == 27 && i + 9 > data.len())
        }),
    ensures
        forall|m: u8, v: u64|
            m <= 7 && i + spec_header(m, v as nat).len() <= data.len() ==> data.subrange(
                i,
                i + spec_header(m, v as nat).len(),
            ) != spec_header(m, v as nat),
{
    assert forall|m: u8, v: u64|
        m <= 7 && i + spec_header(m, v as nat).len() <= data.len() && data.subrange(
            i,
            i + spec_header(m, v as nat).len(),
        ) == spec_header(m, v as nat) implies false by {
        lemma_header_first_byte(m, v as nat);
        lemma_header_len(m, v as nat);
        assert(spec_header(m, v as nat)[0] == data[i]);
    }
}

/// An additional-information field above 27 matches no canonical header.
proof fn lemma_no_header_badinfo(data: Seq<u8>, i: int)
    requires
        0 <= i < data.len(),
        data[i] % 32 > 27,
    ensures
        forall|m: u8, v: u64|
            m <= 7 && i + spec_header(m, v as nat).len() <= data.len() ==> data.subrange(
                i,
                i + spec_header(m, v as nat).len(),
            ) != spec_header(m, v as nat),
{
    assert forall|m: u8, v: u64|
        m <= 7 && i + spec_header(m, v as nat).len() <= data.len() && data.subrange(
            i,
            i + spec_header(m, v as nat).len(),
        ) == spec_header(m, v as nat) implies false by {
        lemma_header_first_byte(m, v as nat);
        assert(spec_header(m, v as nat)[0] == data[i]);
    }
}

/// Append every byte of `b`.
pub fn push_slice(out: &mut Vec<u8>, b: &[u8])
    ensures
        final(out)@ == old(out)@ + b@,
{
    let mut k: usize = 0;
    while k < b.len()
        invariant
            k <= b@.len(),
            out@ == old(out)@ + b@.subrange(0, k as int),
        decreases b@.len() - k,
    {
        out.push(b[k]);
        assert(out@ =~= old(out)@ + b@.subrange(0, k + 1));
        k = k + 1;
    }
    assert(out@ =~= old(out)@ + b@) by {
        assert(b@.subrange(0, b@.len() as int) =~= b@);
    }
}

/// The encoding of an unsigned integer.
pub open spec fn spec_enc_uint(n: nat) -> Seq<u8> {
    spec_header(0, n)
}

/// The encoding of a signed integer: major type 0 when non-negative,
/// major type 1 (holding `-1 - n`) when negative.
pub open spec fn spec_enc_int(n: int) -> Seq<u8> {
    if n >= 0 {
        spec_header(0, n as nat)
    } else {
        spec_header(1, (-1 - n) as nat)
    }
}

/// The encoding of a byte string.
pub open spec fn spec_enc_bytes(b: Seq<u8>) -> Seq<u8> {
    spec_header(2, b.len()) + b
}

/// The bytes of an ASCII character sequence.
pub open spec fn ascii_bytes_of(s: Seq<char>) -> Seq<u8> {
    Seq::new(s.len(), |k: int| s[k] as u8)
}

/// The encoding of an ASCII text string.
pub open spec fn spec_enc_text(s: Seq<char>) -> Seq<u8> {
    spec_header(3, s.len()) + ascii_bytes_of(s)
}

/// The header opening an array of `n` items.
pub open spec fn spec_enc_array_header(n: nat) -> Seq<u8> {
    spec_header(4, n)
}

/// The header opening a map of `n` key-value pairs.
pub open spec fn spec_enc_map_header(n: nat) -> Seq<u8> {
    spec_header(5, n)
}

pub fn push_uint(out: &mut Vec<u8>, n: u64)
    ensures
        final(out)@ == old(out)@ + spec_enc_uint(n as nat),
{
    push_header(out, 0, n);
}

pub fn push_int(out: &mut Vec<u8>, n: i64)
    ensures
        final(out)@ == old(out)@ + spec_enc_int(n as int),
{
    if n >= 0 {
        push_header(out, 0, n as u64);
    } else {
        push_header(out, 1, (-(n + 1)) as u64);
    }
}

pub fn push_bytes(out: &mut Vec<u8>, b: &[u8])
    ensures
        final(out)@ == old(out)@ + spec_enc_bytes(b@),
{
    push_header(out, 2, b.len() as u64);
    push_slice(out, b);
    assert(out@ =~= old(out)@ + spec_enc_bytes(b@));
}

pub fn push_text(out: &mut Vec<u8>, s: &str)
    requires
        s.is_ascii(),
    ensures
        final(out)@ == old(out)@ + spec_enc_text(s@),
{
    proof {
        vstd::string::is_ascii_spec_bytes(s);
    }
    let b = s.as_bytes();
    push_header(out, 3, b.len() as u64);
    push_slice(out, b);
    assert(out@ =~= old(out)@ + spec_enc_text(s@)) by {
        assert(b@ =~= ascii_bytes_of(s@));
    }
}

pub fn push_array_header(out: &mut Vec<u8>, n: u64)
    ensures
        final(out)@ == old(out)@ + spec_enc_array_header(n as nat),
{
    push_header(out, 4, n);
}

pub fn push_map_header(out: &mut Vec<u8>, n: u64)
    ensures
        final(out)@ == old(out)@ + spec_enc_map_header(n as nat),
{
    push_header(out, 5, n);
}

/// Read an unsigned integer at `i`.
pub fn read_uint(data: &[u8], i: usize) -> (r: Option<(u64, usize)>)
    ensures
        match r {
            Some((v, j)) => i < j <= data@.len() && data@.subrange(i as int, j as int)
                == spec_enc_uint(v as nat),
            None => true,
        },
        forall|v: u64|
            i + spec_enc_uint(v as nat).len() <= data@.len() && data@.subrange(
                i as int,
                i + spec_enc_uint(v as nat).len(),
            ) == spec_enc_uint(v as nat) ==> r == Some(
                (v, (i + spec_enc_uint(v as nat).len()) as usize),
            ),
{
    match read_header(data, i) {
        Some((m, v, j)) => {
            if m == 0 {
                Some((v, j))
            } else {
                None
            }
        },
        None => None,
    }
}

/// Read a signed integer at `i`; fails when the value does not fit in `i64`.
pub fn read_int(data: &[u8], i: usize) -> (r: Option<(i64, usize)>)
    ensures
        match r {
            Some((v, j)) => i < j <= data@.len() && data@.subrange(i as int, j as int)
                == spec_enc_int(v as int),
            None => true,
        },
        forall|v: i64|
            i + spec_enc_int(v as int).len() <= data@.len() && data@.subrange(
                i as int,
                i + spec_enc_int(v as int).len(),
            ) == spec_enc_int(v as int) ==> r == Some(
                (v, (i + spec_enc_int(v as int).len()) as usize),
            ),
{
    match read_header(data, i) {
        Some((m, v, j)) => {
            if m == 0 {
                if v <= i64::MAX as u64 {
                    Some((v as i64, j))
                } else {
                    None
                }
            } else if m == 1 {
                if v <= i64::MAX as u64 {
                    Some((-1 - (v as i64), j))
                } else {
                    None
                }
            } else {
                None
            }
        },
        None => None,
    }
}

/// A byte-string encoding that matches a prefix of `data` at `i` puts its
/// header there too.
proof fn lemma_enc_bytes_header(data: Seq<u8>, i: int, b: Seq<u8>)
    requires
        0 <= i,
        i + spec_enc_bytes(b).len() <= data.len(),
        data.subrange(i, i + spec_enc_bytes(b).len()) == spec_enc_bytes(b),
    ensures
        i + spec_header(2, b.len()).len() <= data.len(),
        data.subrange(i, i + spec_header(2, b.len()).len()) == spec_header(2, b.len()),
{
    let e = spec_enc_bytes(b);
    let hl = spec_header(2, b.len()).len();
    lemma_header_len(2, b.len());
    assert(data.subrange(i, i + hl) =~= spec_header(2, b.len())) by {
        assert forall|t: int| 0 <= t < hl implies data.subrange(i, i + hl)[t] == spec_header(
            2,
            b.len(),
        )[t] by {
            assert(data.subrange(i, i + e.len())[t] == e[t]);
            assert(e[t] == spec_header(2, b.len())[t]);
        }
    }
}

/// An ASCII-text encoding that matches a prefix of `data` at `i` puts its
/// header there too.
proof fn lemma_enc_text_header(data: Seq<u8>, i: int, t: Seq<char>)
    requires
        0 <= i,
        i + spec_enc_text(t).len() <= data.len(),
        data.subrange(i, i + spec_enc_text(t).len()) == spec_enc_text(t),
    ensures
        i + spec_header(3, t.len()).len() <= data.len(),
        data.subrange(i, i + spec_header(3, t.len()).len()) == spec_header(3, t.len()),
{
    let e = spec_enc_text(t);
    let hl = spec_header(3, t.len()).len();
    lemma_header_len(3, t.len());
    assert(data.subrange(i, i + hl) =~= spec_header(3, t.len())) by {
        assert forall|k: int| 0 <= k < hl implies data.subrange(i, i + hl)[k] == spec_header(
            3,
            t.len(),
        )[k] by {
            assert(data.subrange(i, i + e.len())[k] == e[k]);
            assert(e[k] == spec_header(3, t.len())[k]);
        }
    }
}

/// Two canonical headers that both match a prefix of `data` at `i` are the
/// same header.
proof fn lemma_header_unique2(data: Seq<u8>, i: int, m0: u8, v0: nat, m1: u8, v1: nat)
    requires
        0 <= i,
        m0 <= 7,
        m1 <= 7,
        v0 < 0x1_0000_0000_0000_0000,
        v1 < 0x1_0000_0000_0000_0000,
        i + spec_header(m0, v0).len() <= data.len(),
        i + spec_header(m1, v1).len() <= data.len(),
        data.subrange(i, i + spec_header(m0, v0).len()) == spec_header(m0, v0),
        data.subrange(i, i + spec_header(m1, v1).len()) == spec_header(m1, v1),
    ensures
        m0 == m1,
        v0 == v1,
{
    lemma_header_first_byte(m0, v0);
    lemma_header_first_byte(m1, v1);
    lemma_header_len(m0, v0);
    lemma_header_len(m1, v1);
    assert(spec_header(m0, v0)[0] == data[i]);
    assert(spec_header(m1, v1)[0] == data[i]);
    let info = data[i] % 32;
    if info < 24 {
        assert(v0 == info as nat && v1 == info as nat);
    } else {
        let w: nat = if info == 24 {
            1
        } else if info == 25 {
            2
        } else if info == 26 {
            4
        } else {
            8
        };
        assert(data.subrange(i + 1, i + 1 + w) =~= spec_be(v0, w)) by {
            assert(data.subrange(i, i + spec_header(m0, v0).len()).skip(1) =~= data.subrange(
                i + 1,
                i + 1 + w,
            ));
            assert(spec_header(m0, v0).skip(1) =~= spec_be(v0, w));
        }
        assert(data.subrange(i + 1, i + 1 + w) =~= spec_be(v1, w)) by {
            assert(data.subrange(i, i + spec_header(m1, v1).len()).skip(1) =~= data.subrange(
                i + 1,
                i + 1 + w,
            ));
            assert(spec_header(m1, v1).skip(1) =~= spec_be(v1, w));
        }
        lemma_value_fits(m0, v0, w);
        lemma_value_fits(m1, v1, w);
        lemma_be_val_spec_be(v0, w);
        lemma_be_val_spec_be(v1, w);
    }
}

/// When the decoder has found header `(m, v)` at `i` and a byte-string
/// encoding of `b` also matches a prefix there, the header is the byte
/// string's and `b` sits right after it.
proof fn lemma_bytes_match(data: Seq<u8>, i: int, m: u8, v: u64, jh: int, b: Seq<u8>)
    requires
        0 <= i,
        data.len() < 0x1_0000_0000_0000_0000,
        m <= 7,
        jh == i + spec_header(m, v as nat).len(),
        jh <= data.len(),
        data.subrange(i, jh) == spec_header(m, v as nat),
        i + spec_enc_bytes(b).len() <= data.len(),
        data.subrange(i, i + spec_enc_bytes(b).len()) == spec_enc_bytes(b),
    ensures
        m == 2,
        v as nat == b.len(),
        jh + b.len() <= data.len(),
        b == data.subrange(jh, jh + b.len()),
{
    lemma_enc_bytes_header(data, i, b);
    lemma_header_len(2, b.len());
    lemma_header_unique2(data, i, m, v as nat, 2, b.len());
    let e = spec_enc_bytes(b);
    let hl = spec_header(2, b.len()).len();
    assert(b =~= data.subrange(jh, jh + b.len())) by {
        assert forall|t: int| 0 <= t < b.len() implies b[t] == data.subrange(
            jh,
            jh + b.len(),
        )[t] by {
            assert(data.subrange(i, i + e.len())[hl + t] == e[hl + t]);
        }
    }
}

/// The text analogue of `lemma_bytes_match`.
proof fn lemma_text_match(data: Seq<u8>, i: int, m: u8, v: u64, jh: int, t: Seq<char>)
    requires
        0 <= i,
        data.len() < 0x1_0000_0000_0000_0000,
        m <= 7,
        jh == i + spec_header(m, v as nat).len(),
        jh <= data.len(),
        data.subrange(i, jh) == spec_header(m, v as nat),
        i + spec_enc_text(t).len() <= data.len(),
        data.subrange(i, i + spec_enc_text(t).len()) == spec_enc_text(t),
    ensures
        m == 3,
        v as nat == t.len(),
        jh + t.len() <= data.len(),
        ascii_bytes_of(t) == data.subrange(jh, jh + t.len()),
{
    lemma_enc_text_header(data, i, t);
    lemma_header_len(3, t.len());
    lemma_header_unique2(data, i, m, v as nat, 3, t.len());
    let e = spec_enc_text(t);
    let hl = spec_header(3, t.len()).len();
    assert(ascii_bytes_of(t) =~= data.subrange(jh, jh + t.len())) by {
        assert forall|q: int| 0 <= q < t.len() implies ascii_bytes_of(t)[q] == data.subrange(
            jh,
            jh + t.len(),
        )[q] by {
            assert(data.subrange(i, i + e.len())[hl + q] == e[hl + q]);
        }
    }
}

/// No canonical header at all at `i` means no byte-string or text encoding
/// matches a prefix there either.
proof fn lemma_no_item_without_header(data: Seq<u8>, i: int, r: Option<(u8, u64, usize)>)
    requires
        0 <= i,
        data.len() < 0x1_0000_0000_0000_0000,
        r is None,
        forall|m: u8, v: u64|
            m <= 7 && i + spec_header(m, v as nat).len() <= data.len() && data.subrange(
                i,
                i + spec_header(m, v as nat).len(),
            ) == spec_header(m, v as nat) ==> r == Some(
                (m, v, (i + spec_header(m, v as nat).len()) as usize),
            ),
    ensures
        forall|b: Seq<u8>|
            #![trigger spec_enc_bytes(b)]
            !(i + spec_enc_bytes(b).len() <= data.len() && data.subrange(
                i,
                i + spec_enc_bytes(b).len(),
            ) == spec_enc_bytes(b)),
        forall|t: Seq<char>|
            #![trigger spec_enc_text(t)]
            !(i + spec_enc_text(t).len() <= data.len() && data.subrange(
                i,
                i + spec_enc_text(t).len(),
            ) == spec_enc_text(t)),
{
    assert forall|b: Seq<u8>|
        #![trigger spec_enc_bytes(b)]
        !(i + spec_enc_bytes(b).len() <= data.len() && data.subrange(
            i,
            i + spec_enc_bytes(b).len(),
        ) == spec_enc_bytes(b)) by {
        if i + spec_enc_bytes(b).len() <= data.len() && data.subrange(
            i,
            i + spec_enc_bytes(b).len(),
        ) == spec_enc_bytes(b) {
            lemma_enc_bytes_header(data, i, b);
            let vb: u64 = b.len() as u64;
            assert(spec_header(2, vb as nat) == spec_header(2, b.len()));
            assert(data.subrange(i, i + spec_header(2, vb as nat).len()) == spec_header(
                2,
                vb as nat,
            ));
        }
    }
    assert forall|t: Seq<char>|
        #![trigger spec_enc_text(t)]
        !(i + spec_enc_text(t).len() <= data.len() && data.subrange(
            i,
            i + spec_enc_text(t).len(),
        ) == spec_enc_text(t)) by {
        if i + spec_enc_text(t).len() <= data.len() && data.subrange(
            i,
            i + spec_enc_text(t).len(),
        ) == spec_enc_text(t) {
            lemma_enc_text_header(data, i, t);
            let vt: u64 = t.len() as u64;
            assert(spec_header(3, vt as nat) == spec_header(3, t.len()));
            assert(data.subrange(i, i + spec_header(3, vt as nat).len()) == spec_header(
                3,
                vt as nat,
            ));
        }
    }
}

/// Read a byte string at `i`.
pub fn read_bytes(data: &[u8], i: usize) -> (r: Option<(Vec<u8>, usize)>)
    ensures
        match r {
            Some((w, j)) => i < j <= data@.len() && data@.subrange(i as int, j as int)
                == spec_enc_bytes(w@),
            None => true,
        },
        forall|b: Seq<u8>|
            #![trigger spec_enc_bytes(b)]
            i + spec_enc_bytes(b).len() <= data@.len() && data@.subrange(
                i as int,
                i + spec_enc_bytes(b).len(),
            ) == spec_enc_bytes(b) ==> (match r {
                Some((w, j)) => w@ == b && j == i + spec_enc_bytes(b).len(),
                None => false,
            }),
{
    let _dl = data.len();
    assert(data@.len() < 0x1_0000_0000_0000_0000);
    let ghost gpre = |b: Seq<u8>|
        i + spec_enc_bytes(b).len() <= data@.len() && data@.subrange(
            i as int,
            i + spec_enc_bytes(b).len(),
        ) == spec_enc_bytes(b);
    let rh = read_header(data, i);
    match rh {
        Some((m, v, jh)) => {
            proof {
                lemma_header_len(m, v as nat);
            }
            if m != 2 || ((data.len() - jh) as u64) < v {
                proof {
                    assert forall|b: Seq<u8>| #[trigger] spec_enc_bytes(b).len() >= 0 && gpre(b)
                        implies false by {
                        lemma_bytes_match(data@, i as int, m, v, jh as int, b);
                    }
                }
                None
            } else {
                let n = v as usize;
                let end = jh + n;
                let mut w: Vec<u8> = Vec::new();
                let mut k: usize = 0;
                while k < n
                    invariant
                        k <= n,
                        end == jh + n,
                        end <= data@.len(),
                        w@ == data@.subrange(jh as int, (jh + k) as int),
                    decreases n - k,
                {
                    w.push(data[jh + k]);
                    assert(w@ =~= data@.subrange(jh as int, (jh + k + 1) as int));
                    k = k + 1;
                }
                assert(data@.subrange(i as int, end as int) =~= spec_enc_bytes(w@)) by {
                    assert(w@.len() == v);
                }
                proof {
                    assert forall|b: Seq<u8>| #[trigger] spec_enc_bytes(b).len() >= 0 && gpre(b)
                        implies w@ == b && (end as int) == i + spec_enc_bytes(b).len() by {
                        lemma_bytes_match(data@, i as int, m, v, jh as int, b);
                    }
                }
                Some((w, end))
            }
        },
        None => {
            proof {
                lemma_no_item_without_header(data@, i as int, rh);
            }
            None
        },
    }
}

/// Read an ASCII text string at `i`; fails on any non-ASCII byte.
#[verifier::loop_isolation(false)]
pub fn read_text(data: &[u8], i: usize) -> (r: Option<(String, usize)>)
    ensures
        match r {
            Some((s, j)) => i < j <= data@.len() && s.is_ascii() && data@.subrange(
                i as int,
                j as int,
            ) == spec_enc_text(s@),
            None => true,
        },
        forall|t: Seq<char>|
            #![trigger spec_enc_text(t)]
            vstd::utf8::is_ascii_chars(t) && i + spec_enc_text(t).len() <= data@.len()
                && data@.subrange(i as int, i + spec_enc_text(t).len()) == spec_enc_text(t) ==> (
            match r {
                Some((s, j)) => s@ == t && j == i + spec_enc_text(t).len(),
                None => false,
            }),
{
    let _dl = data.len();
    assert(data@.len() < 0x1_0000_0000_0000_0000);
    let ghost gpre = |t: Seq<char>|
        vstd::utf8::is_ascii_chars(t) && i + spec_enc_text(t).len() <= data@.len()
            && data@.subrange(i as int, i + spec_enc_text(t).len()) == spec_enc_text(t);
    let rh = read_header(data, i);
    match rh {
        Some((m, v, jh)) => {
            proof {
                lemma_header_len(m, v as nat);
            }
            if m != 3 || ((data.len() - jh) as u64) < v {
                proof {
                    assert forall|t: Seq<char>| #[trigger] spec_enc_text(t).len() >= 0 && gpre(t)
                        implies false by {
                        lemma_text_match(data@, i as int, m, v, jh as int, t);
                    }
                }
                None
            } else {
                let n = v as usize;
                let end = jh + n;
                let mut w: Vec<u8> = Vec::new();
                let mut k: usize = 0;
                while k < n
                    invariant
                        k <= n,
                        end == jh + n,
                        end <= data@.len(),
                        w@ == data@.subrange(jh as int, (jh + k) as int),
                        forall|q: int| 0 <= q < k ==> w@[q] < 128,
                    decreases n - k,
                {
                    let b = data[jh + k];
                    if b >= 128 {
                        proof {
                            assert forall|t: Seq<char>|
                                #[trigger] spec_enc_text(t).len() >= 0 && gpre(t)
                                implies false by {
                                lemma_text_match(data@, i as int, m, v, jh as int, t);
                                assert(ascii_bytes_of(t)[k as int] == data@[jh + k as int]);
                                assert((t[k as int] as u8) < 128);
                            }
                        }
                        return None;
                    }
                    w.push(b);
                    assert(w@ =~= data@.subrange(jh as int, (jh + k + 1) as int));
                    k = k + 1;
                }
                let ghost wsnap = w@;
                match crate::crypto::string_from_ascii(w) {
                    Some(s) => {
                        assert(data@.subrange(i as int, end as int) =~= spec_enc_text(s@)) by {
                            assert(s@.len() == v);
                            assert(ascii_bytes_of(s@) =~= wsnap);
                        }
                        proof {
                            assert forall|t: Seq<char>|
                                #[trigger] spec_enc_text(t).len() >= 0 && gpre(t)
                                implies s@ == t && (end as int) == i + spec_enc_text(t).len() by {
                                lemma_text_match(data@, i as int, m, v, jh as int, t);
                                assert(t =~= s@) by {
                                    assert forall|q: int| 0 <= q < t.len() implies t[q]
                                        == s@[q] by {
                                        assert(ascii_bytes_of(t)[q] == data@[jh + q]);
                                        assert(wsnap[q] == data@[jh + q]);
                                        assert(s@[q] == wsnap[q] as char);
                                        assert(t[q] as u8 == wsnap[q]);
                                        assert('\0' <= t[q] <= '\u{7f}');
                                    }
                                }
                            }
                        }
                        Some((s, end))
                    },
                    None => None,
                }
            }
        },
        None => {
            proof {
                lemma_no_item_without_header(data@, i as int, rh);
            }
            None
        },
    }
}

/// Read the header of an array at `i`, yielding its item count.
pub fn read_array_header(data: &[u8], i: usize) -> (r: Option<(u64, usize)>)
    ensures
        match r {
            Some((v, j)) => i < j <= data@.len() && data@.subrange(i as int, j as int)
                == spec_enc_array_header(v as nat),
            None => true,
        },
        forall|v: u64|
            i + spec_enc_array_header(v as nat).len() <= data@.len() && data@.subrange(
                i as int,
                i + spec_enc_array_header(v as nat).len(),
            ) == spec_enc_array_header(v as nat) ==> r == Some(
                (v, (i + spec_enc_array_header(v as nat).len()) as usize),
            ),
{
    match read_header(data, i) {
        Some((m, v, j)) => {
            if m == 4 {
                Some((v, j))
            } else {
                None
            }
        },
        None => None,
    }
}

/// Read the header of a map at `i`, yielding its pair count.
pub fn read_map_header(data: &[u8], i: usize) -> (r: Option<(u64, usize)>)
    ensures
        match r {
            Some((v, j)) => i < j <= data@.len() && data@.subrange(i as int, j as int)
                == spec_enc_map_header(v as nat),
            None => true,
        },
        forall|v: u64|
            i + spec_enc_map_header(v as nat).len() <= data@.len() && data@.subrange(
                i as int,
                i + spec_enc_map_header(v as nat).len(),
            ) == spec_enc_map_header(v as nat) ==> r == Some(
                (v, (i + spec_enc_map_header(v as nat).len()) as usize),
            ),
{
    match read_header(data, i) {
        Some((m, v, j)) => {
            if m == 5 {
                Some((v, j))
            } else {
                None
            }
        },
        None => None,
    }
}

} // verus!
