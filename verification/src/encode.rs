//! Encoders for the wire primitives, and the round-trip laws: reading an
//! encoded value gives the value back. The protocol's own traffic is decoded
//! only; the encoders exist to state and test these laws.

use vstd::prelude::*;

use crate::bytespec::{
    be_value, lemma_pow128_values, lemma_var_scan_agree, pow128, pow256, var_scan,
};
use crate::deserialize::{spec_read_prim, DecodeError};
use crate::schema::PrimKind;
use crate::value::ValueV;

verus! {

broadcast use vstd::std_specs::vec::group_vec_axioms;

/// Big-endian encoding of the low `w` bytes of `v`.
pub open spec fn spec_enc_be(v: nat, w: nat) -> Seq<u8>
    decreases w,
{
    if w == 0 {
        Seq::empty()
    } else {
        spec_enc_be(v / 256, (w - 1) as nat).push((v % 256) as u8)
    }
}

/// Variable-length encoding: seven payload bits per byte, least significant
/// group first, the top bit set on every byte but the last.
pub open spec fn spec_enc_var(v: nat) -> Seq<u8>
    decreases v,
{
    if v < 128 {
        seq![v as u8]
    } else {
        seq![(v % 128 + 128) as u8] + spec_enc_var(v / 128)
    }
}

/// A big-endian encoding of `w` bytes reads back as the encoded value.
pub proof fn lemma_enc_be_value(v: nat, w: nat, rest: Seq<u8>)
    requires
        v < pow256(w),
    ensures
        spec_enc_be(v, w).len() == w,
        be_value(spec_enc_be(v, w) + rest, 0, w) == v,
    decreases w,
{
    lemma_enc_be_len(v, w);
    if w > 0 {
        let enc = spec_enc_be(v, w);
        let s = enc + rest;
        let encp = spec_enc_be(v / 256, (w - 1) as nat);
        lemma_enc_be_len(v / 256, (w - 1) as nat);
        lemma_enc_be_value(v / 256, (w - 1) as nat, seq![(v % 256) as u8] + rest);
        let sp = encp + (seq![(v % 256) as u8] + rest);
        assert(s =~= sp);
        assert(s[w - 1] == (v % 256) as u8);
    }
}

pub proof fn lemma_enc_be_len(v: nat, w: nat)
    ensures
        spec_enc_be(v, w).len() == w,
    decreases w,
{
    if w > 0 {
        lemma_enc_be_len(v / 256, (w - 1) as nat);
    }
}

/// A variable-length encoding scans back as the encoded value and consumes
/// exactly the encoding, for any bytes that follow it.
pub proof fn lemma_enc_var_scan(v: nat, max: nat, rest: Seq<u8>)
    requires
        1 <= max,
        v < pow128(max),
    ensures
        spec_enc_var(v).len() >= 1,
        var_scan(spec_enc_var(v) + rest, 0, max) == Some((v, spec_enc_var(v).len())),
    decreases v,
{
    let enc = spec_enc_var(v);
    let s = enc + rest;
    if v < 128 {
        assert(s[0] == v as u8);
    } else {
        assert(pow128(max) == 128 * pow128((max - 1) as nat));
        assert(max >= 2) by {
            if max == 1 {
                assert(pow128(1) == 128) by {
                    lemma_pow128_values();
                }
            }
        }
        let encp = spec_enc_var(v / 128);
        lemma_enc_var_scan(v / 128, (max - 1) as nat, rest);
        assert(s[0] == (v % 128 + 128) as u8);
        let sp = encp + rest;
        assert(s.len() - 1 == sp.len());
        assert(forall|k: int| 1 <= k < s.len() ==> s[k] == #[trigger] sp[0 + (k - 1)]);
        lemma_var_scan_agree(s, sp, 1, 0, (max - 1) as nat);
    }
}

/// The length of a variable-length encoding: one byte per seven bits.
pub proof fn lemma_enc_var_len(v: nat)
    ensures
        v < 0x80 ==> spec_enc_var(v).len() == 1,
        0x80 <= v < 0x4000 ==> spec_enc_var(v).len() == 2,
        0x4000 <= v < 0x200000 ==> spec_enc_var(v).len() == 3,
        0x200000 <= v < 0x10000000 ==> spec_enc_var(v).len() == 4,
        0x10000000 <= v < 0x800000000 ==> spec_enc_var(v).len() == 5,
    decreases v,
{
    if v >= 128 {
        lemma_enc_var_len(v / 128);
    }
}

/// Reading back an encoded variable-length integer gives the value: the
/// 32-bit reader for every `u32`, with the stated encoding length.
pub proof fn lemma_var_int_roundtrip(v: u32, rest: Seq<u8>)
    ensures
        spec_read_prim(spec_enc_var(v as nat) + rest, PrimKind::VarInt) == Ok::<
            (ValueV, int),
            DecodeError,
        >((ValueV::U32(v), spec_enc_var(v as nat).len() as int)),
        spec_read_prim(spec_enc_var(v as nat) + rest, PrimKind::VarUhInt) == Ok::<
            (ValueV, int),
            DecodeError,
        >((ValueV::U32(v), spec_enc_var(v as nat).len() as int)),
        spec_enc_var(v as nat).len() == (if v < 0x80 {
            1int
        } else if v < 0x4000 {
            2int
        } else if v < 0x200000 {
            3int
        } else if v < 0x10000000 {
            4int
        } else {
            5int
        }),
{
    lemma_pow128_values();
    assert((v as nat) < pow128(5));
    lemma_enc_var_scan(v as nat, 5, rest);
    lemma_enc_var_len(v as nat);
}

/// Reading back an encoded 16-bit value with the short reader gives the
/// value reinterpreted as signed: `v` itself below 32768, `v - 65536` above.
pub proof fn lemma_var_short_roundtrip(v: u16, rest: Seq<u8>)
    ensures
        spec_read_prim(spec_enc_var(v as nat) + rest, PrimKind::VarUhShort) == Ok::<
            (ValueV, int),
            DecodeError,
        >((ValueV::U16(v), spec_enc_var(v as nat).len() as int)),
        spec_read_prim(spec_enc_var(v as nat) + rest, PrimKind::VarShort) matches Ok((val, c))
            && val == ValueV::I16(v as i16) && c == spec_enc_var(v as nat).len(),
        v < 32768 ==> (v as i16) as int == v as int,
        v >= 32768 ==> (v as i16) as int == v as int - 65536,
{
    lemma_pow128_values();
    assert((v as nat) < pow128(3));
    lemma_enc_var_scan(v as nat, 3, rest);
    assert(v < 32768 ==> (v as i16) as int == v as int) by (bit_vector);
    assert(v >= 32768 ==> (v as i16) as int == v as int - 65536) by (bit_vector);
}

/// Encoding any `i16` and reading it back with the short reader gives the
/// value itself.
pub proof fn lemma_var_short_signed_roundtrip(v: i16, rest: Seq<u8>)
    ensures
        spec_read_prim(spec_enc_var((v as u16) as nat) + rest, PrimKind::VarShort) matches Ok(
            (val, c),
        ) && val == ValueV::I16(v) && c == spec_enc_var((v as u16) as nat).len(),
{
    lemma_var_short_roundtrip(v as u16, rest);
    assert((v as u16) as i16 == v) by (bit_vector);
}

/// Reading back an encoded variable-length integer with the 64-bit reader
/// gives the value, for every `u64`.
pub proof fn lemma_var_long_roundtrip(v: u64, rest: Seq<u8>)
    ensures
        spec_read_prim(spec_enc_var(v as nat) + rest, PrimKind::VarLong) == Ok::<
            (ValueV, int),
            DecodeError,
        >((ValueV::U64(v), spec_enc_var(v as nat).len() as int)),
        spec_read_prim(spec_enc_var(v as nat) + rest, PrimKind::VarUhLong) == Ok::<
            (ValueV, int),
            DecodeError,
        >((ValueV::U64(v), spec_enc_var(v as nat).len() as int)),
{
    lemma_pow128_values();
    assert((v as nat) < pow128(10));
    lemma_enc_var_scan(v as nat, 10, rest);
}

/// Encodes a variable-length integer.
pub fn encode_var(v: u64) -> (r: Vec<u8>)
    ensures
        r@ == spec_enc_var(v as nat),
{
    let mut out: Vec<u8> = Vec::new();
    let mut x = v;
    while x >= 128
        invariant
            spec_enc_var(v as nat) == out@ + spec_enc_var(x as nat),
        decreases x,
    {
        let ghost out0 = out@;
        out.push((x % 128 + 128) as u8);
        proof {
            assert(spec_enc_var(x as nat) =~= seq![(x as nat % 128 + 128) as u8] + spec_enc_var(
                (x as nat) / 128,
            ));
            assert(out0 + spec_enc_var(x as nat) =~= out@ + spec_enc_var((x as nat) / 128));
        }
        x = x / 128;
    }
    let ghost out0 = out@;
    out.push(x as u8);
    proof {
        assert(spec_enc_var(x as nat) =~= seq![x as u8]);
        assert(out0 + spec_enc_var(x as nat) =~= out@);
    }
    out
}

/// Encodes a big-endian value of `w` bytes (`w` at most 8).
pub fn encode_be(v: u64, w: usize) -> (r: Vec<u8>)
    requires
        w <= 8,
        (v as nat) < pow256(w as nat),
    ensures
        r@ == spec_enc_be(v as nat, w as nat),
{
    let mut out: Vec<u8> = Vec::new();
    let mut k: usize = w;
    while k > 0
        invariant
            k <= w <= 8,
            out@ =~= spec_enc_be_high(v as nat, w as nat, k as nat),
        decreases k,
    {
        let shift = byte_weight(k - 1);
        let b = ((v / shift) % 256) as u8;
        let ghost out0 = out@;
        out.push(b);
        proof {
            lemma_enc_be_high_step(v as nat, w as nat, (k - 1) as nat);
        }
        k = k - 1;
    }
    proof {
        lemma_enc_be_high_zero(v as nat, w as nat);
    }
    out
}

/// 256^k as an exec value for the byte weights of a `u64`.
fn byte_weight(k: usize) -> (r: u64)
    requires
        k <= 7,
    ensures
        r as nat == pow256(k as nat),
        r >= 1,
{
    proof {
        crate::bytespec::lemma_pow256_values();
    }
    if k == 0 {
        1
    } else if k == 1 {
        0x100
    } else if k == 2 {
        0x10000
    } else if k == 3 {
        0x1000000
    } else if k == 4 {
        0x100000000
    } else if k == 5 {
        0x10000000000
    } else if k == 6 {
        0x1000000000000
    } else {
        0x100000000000000
    }
}

/// The first `w - k` bytes of the big-endian encoding: what the encoder has
/// emitted when `k` bytes are still to come.
pub open spec fn spec_enc_be_high(v: nat, w: nat, k: nat) -> Seq<u8>
    decreases w - k,
{
    if k >= w {
        Seq::empty()
    } else {
        spec_enc_be_high(v, w, (k + 1) as nat).push(((v / pow256(k)) % 256) as u8)
    }
}

proof fn lemma_enc_be_high_step(v: nat, w: nat, k: nat)
    requires
        k < w,
    ensures
        spec_enc_be_high(v, w, k) == spec_enc_be_high(v, w, (k + 1) as nat).push(
            ((v / pow256(k)) % 256) as u8,
        ),
{
}

/// Once every byte is emitted the encoder's output is the encoding.
proof fn lemma_enc_be_high_zero(v: nat, w: nat)
    ensures
        spec_enc_be_high(v, w, 0) =~= spec_enc_be(v, w),
{
    crate::bytespec::lemma_pow256_values();
    assert(pow256(0) == 1);
    assert(v / 1 == v) by (nonlinear_arith);
    lemma_enc_be_len(v, w);
    lemma_enc_be_high_len(v, w, 0);
    assert forall|i: int| 0 <= i < w implies spec_enc_be_high(v, w, 0)[i] == spec_enc_be(v, w)[i] by {
        lemma_enc_be_high_index(v, w, 0, i);
        lemma_enc_be_index(v, w, i);
    }
}

proof fn lemma_enc_be_high_len(v: nat, w: nat, k: nat)
    ensures
        spec_enc_be_high(v, w, k).len() == if k >= w {
            0int
        } else {
            w - k
        },
    decreases w - k,
{
    if k < w {
        lemma_enc_be_high_len(v, w, (k + 1) as nat);
    }
}

/// Byte `i` of the emitted prefix weighs `256^(w - 1 - i)`.
proof fn lemma_enc_be_high_index(v: nat, w: nat, k: nat, i: int)
    requires
        k <= w,
        0 <= i < w - k,
    ensures
        spec_enc_be_high(v, w, k).len() == w - k,
        spec_enc_be_high(v, w, k)[i] == ((v / pow256((w - 1 - i) as nat)) % 256) as u8,
    decreases w - k,
{
    lemma_enc_be_high_len(v, w, k);
    if k < w {
        lemma_enc_be_high_len(v, w, (k + 1) as nat);
        if i < w - k - 1 {
            lemma_enc_be_high_index(v, w, (k + 1) as nat, i);
        }
    }
}

/// Byte `i` of the encoding weighs `256^(w - 1 - i)`.
proof fn lemma_enc_be_index(v: nat, w: nat, i: int)
    requires
        0 <= i < w,
    ensures
        spec_enc_be(v, w).len() == w,
        spec_enc_be(v, w)[i] == ((v / pow256((w - 1 - i) as nat)) % 256) as u8,
    decreases w,
{
    lemma_enc_be_len(v, w);
    if i == w - 1 {
        assert(pow256(0) == 1);
        assert(v / 1 == v) by (nonlinear_arith);
    } else {
        lemma_enc_be_len(v / 256, (w - 1) as nat);
        lemma_enc_be_index(v / 256, (w - 1) as nat, i);
        assert((v / 256) / pow256((w - 2 - i) as nat) == v / pow256((w - 1 - i) as nat)) by {
            lemma_pow256_pos((w - 2 - i) as nat);
            lemma_div_div(v, 256, pow256((w - 2 - i) as nat));
            assert(256 * pow256((w - 2 - i) as nat) == pow256((w - 1 - i) as nat));
        }
    }
}

proof fn lemma_pow256_pos(k: nat)
    ensures
        pow256(k) >= 1,
    decreases k,
{
    if k > 0 {
        lemma_pow256_pos((k - 1) as nat);
    }
}

/// Dividing twice is dividing by the product.
proof fn lemma_div_div(v: nat, a: nat, b: nat)
    requires
        a > 0,
        b > 0,
    ensures
        (v / a) / b == v / (a * b),
{
    vstd::arithmetic::div_mod::lemma_div_denominator(v as int, a as int, b as int);
}

} // verus!
