//! The library's laws: round trips for the fixed-width primitives, header
//! parsing, polymorphic dispatch, queue order, trim recovery, and reassembly.
//! Each is proved against the mathematical interpreter and framer that the
//! executable code is proved to follow.

use vstd::prelude::*;

use crate::bytespec::{be_value, lemma_be_value_agree, lemma_pow256_values};
use crate::decoder::{spec_len_width, spec_record, spec_run, spec_step, DecoderV, StepV};
use crate::deserialize::{
    spec_de_field, spec_de_type, spec_de_vars, spec_read_bools, spec_read_prim, DecodeError,
};
use crate::encode::{lemma_enc_be_value, lemma_enc_var_scan, spec_enc_be, spec_enc_var};
use crate::schema::{spec_kind_of, CatalogV, PrimKind, TypeSpecV};
use crate::value::{spec_fields_merge, FieldsV, ValueV};
use vstd::utf8::{decode_utf8, encode_utf8, valid_utf8};

verus! {

/// Reading back an encoded boolean gives the value: zero is false, anything
/// else is true, and the encoder writes one.
pub proof fn lemma_boolean_roundtrip(b: bool, rest: Seq<u8>)
    ensures
        spec_read_prim(seq![(if b { 1u8 } else { 0u8 })] + rest, PrimKind::Boolean) == Ok::<
            (ValueV, int),
            DecodeError,
        >((ValueV::Bool(b), 1)),
{
    let s = seq![(if b { 1u8 } else { 0u8 })] + rest;
    assert(s[0] == if b { 1u8 } else { 0u8 });
}

/// Reading back a byte gives the byte, signed or unsigned.
pub proof fn lemma_byte_roundtrip(v: u8, rest: Seq<u8>)
    ensures
        spec_read_prim(seq![v] + rest, PrimKind::UnsignedByte) == Ok::<(ValueV, int), DecodeError>(
            (ValueV::U8(v), 1),
        ),
        spec_read_prim(seq![v] + rest, PrimKind::Byte) == Ok::<(ValueV, int), DecodeError>(
            (ValueV::I8(v as i8), 1),
        ),
{
    let s = seq![v] + rest;
    assert(s[0] == v);
}

/// Reading back a big-endian 16-bit value gives the value, signed or
/// unsigned.
pub proof fn lemma_short_roundtrip(v: u16, rest: Seq<u8>)
    ensures
        spec_read_prim(spec_enc_be(v as nat, 2) + rest, PrimKind::UnsignedShort) == Ok::<
            (ValueV, int),
            DecodeError,
        >((ValueV::U16(v), 2)),
        spec_read_prim(spec_enc_be(v as nat, 2) + rest, PrimKind::Short) == Ok::<
            (ValueV, int),
            DecodeError,
        >((ValueV::I16(v as i16), 2)),
{
    lemma_pow256_values();
    lemma_enc_be_value(v as nat, 2, rest);
}

/// Reading back a big-endian 32-bit value gives the value: the signed and
/// unsigned integer readers and the single-precision bit pattern.
pub proof fn lemma_int_roundtrip(v: u32, rest: Seq<u8>)
    ensures
        spec_read_prim(spec_enc_be(v as nat, 4) + rest, PrimKind::UnsignedInt) == Ok::<
            (ValueV, int),
            DecodeError,
        >((ValueV::U32(v), 4)),
        spec_read_prim(spec_enc_be(v as nat, 4) + rest, PrimKind::Int) == Ok::<
            (ValueV, int),
            DecodeError,
        >((ValueV::I32(v as i32), 4)),
        spec_read_prim(spec_enc_be(v as nat, 4) + rest, PrimKind::Float) == Ok::<
            (ValueV, int),
            DecodeError,
        >((ValueV::FloatBits(v), 4)),
{
    lemma_pow256_values();
    lemma_enc_be_value(v as nat, 4, rest);
}

/// Reading back a double gives its magnitude: the bit pattern with the sign
/// bit cleared, and the pattern itself when the sign bit is clear.
pub proof fn lemma_double_magnitude(bits: u64, rest: Seq<u8>)
    ensures
        spec_read_prim(spec_enc_be(bits as nat, 8) + rest, PrimKind::Double) == Ok::<
            (ValueV, int),
            DecodeError,
        >((ValueV::DoubleBits((bits % 0x8000000000000000) as u64), 8)),
        bits < 0x8000000000000000 ==> spec_read_prim(
            spec_enc_be(bits as nat, 8) + rest,
            PrimKind::Double,
        ) == Ok::<(ValueV, int), DecodeError>((ValueV::DoubleBits(bits), 8)),
{
    lemma_pow256_values();
    lemma_enc_be_value(bits as nat, 8, rest);
}

/// Reading back an encoded string gives the characters: a two-byte length
/// prefix, then the UTF-8 bytes.
pub proof fn lemma_utf_roundtrip(chars: Seq<char>, rest: Seq<u8>)
    requires
        encode_utf8(chars).len() <= 65535,
    ensures
        spec_read_prim(
            spec_enc_be(encode_utf8(chars).len(), 2) + (encode_utf8(chars) + rest),
            PrimKind::Utf,
        ) == Ok::<(ValueV, int), DecodeError>(
            (ValueV::Str(chars), 2 + encode_utf8(chars).len() as int),
        ),
{
    broadcast use vstd::utf8::encode_utf8_valid_utf8, vstd::utf8::encode_utf8_decode_utf8;

    let e = encode_utf8(chars);
    let n = e.len() as nat;
    lemma_pow256_values();
    lemma_enc_be_value(n, 2, e + rest);
    let s = spec_enc_be(n, 2) + (e + rest);
    assert(s.subrange(2, 2 + n as int) =~= e);
}

/// Reading back an encoded byte array gives the bytes: a variable-length
/// count, then the bytes themselves.
pub proof fn lemma_byte_array_roundtrip(b: Seq<u8>, rest: Seq<u8>)
    requires
        b.len() < 0x100000000,
    ensures
        spec_read_prim(spec_enc_var(b.len()) + (b + rest), PrimKind::ByteArray) matches Ok(
            (val, c),
        ) && val == ValueV::Bytes(b) && c == spec_enc_var(b.len()).len() + b.len(),
{
    crate::bytespec::lemma_pow128_values();
    lemma_enc_var_scan(b.len(), 5, b + rest);
    let enc = spec_enc_var(b.len());
    let s = enc + (b + rest);
    let c = enc.len() as int;
    assert(s.subrange(c, c + b.len() as int) =~= b);
}

/// The message header round-trips: packing an id of at most 14 bits with a
/// two-bit length type and splitting the packed value gives both back.
pub proof fn lemma_header_roundtrip(id: u16, lt: u16)
    requires
        id <= 0x3FFF,
        lt <= 3,
    ensures
        (id * 4 + lt) / 4 == id,
        (id * 4 + lt) % 4 == lt,
        id * 4 + lt <= 0xFFFF,
{
    assert((id * 4 + lt) / 4 == id && (id * 4 + lt) % 4 == lt) by (nonlinear_arith)
        requires
            id <= 0x3FFF,
            lt <= 3,
    ;
}

/// The polymorphic sentinel is not a primitive name.
pub proof fn lemma_id_not_primitive()
    ensures
        spec_kind_of("ID"@) == Option::<PrimKind>::None,
{
    reveal_strlit("ID");
    reveal_strlit("Boolean");
    reveal_strlit("Byte");
    reveal_strlit("ByteArray");
    reveal_strlit("Double");
    reveal_strlit("Float");
    reveal_strlit("Int");
    reveal_strlit("Short");
    reveal_strlit("UTF");
    reveal_strlit("UnsignedByte");
    reveal_strlit("UnsignedInt");
    reveal_strlit("UnsignedShort");
    reveal_strlit("VarInt");
    reveal_strlit("VarLong");
    reveal_strlit("VarShort");
    reveal_strlit("VarUhInt");
    reveal_strlit("VarUhLong");
    reveal_strlit("VarUhShort");
    assert("ID"@.len() == 2);
    assert("Boolean"@.len() == 7);
    assert("Byte"@.len() == 4);
    assert("ByteArray"@.len() == 9);
    assert("Double"@.len() == 6);
    assert("Float"@.len() == 5);
    assert("Int"@.len() == 3);
    assert("Short"@.len() == 5);
    assert("UTF"@.len() == 3);
    assert("UnsignedByte"@.len() == 12);
    assert("UnsignedInt"@.len() == 11);
    assert("UnsignedShort"@.len() == 13);
    assert("VarInt"@.len() == 6);
    assert("VarLong"@.len() == 7);
    assert("VarShort"@.len() == 8);
    assert("VarUhInt"@.len() == 8);
    assert("VarUhLong"@.len() == 9);
    assert("VarUhShort"@.len() == 10);
}

/// Keys that appear at most once.
pub open spec fn distinct_keys(f: FieldsV) -> bool {
    forall|i: int, j: int| 0 <= i < j < f.len() ==> (#[trigger] f[i]).0 != (#[trigger] f[j]).0
}

/// Merging entries whose keys are fresh appends them.
pub proof fn lemma_merge_fresh_appends(a: FieldsV, b: FieldsV)
    requires
        distinct_keys(b),
        forall|i: int, j: int|
            0 <= i < a.len() && 0 <= j < b.len() ==> (#[trigger] a[i]).0 != (#[trigger] b[j]).0,
    ensures
        spec_fields_merge(a, b) == a + b,
    decreases b.len(),
{
    if b.len() == 0 {
        assert(spec_fields_merge(a, b) =~= a + b);
    } else {
        let e = b[0];
        crate::value::lemma_fields_insert_absent(a, e.0, e.1);
        let a2 = a.push(e);
        let b2 = b.subrange(1, b.len() as int);
        assert(forall|i: int, j: int|
            0 <= i < a2.len() && 0 <= j < b2.len() ==> (#[trigger] a2[i]).0 != (
            #[trigger] b2[j]).0) by {
            assert(forall|j: int| 0 <= j < b2.len() ==> b2[j] == b[j + 1]);
        }
        lemma_merge_fresh_appends(a2, b2);
        assert(a2 + b2 =~= a + b);
    }
}

/// Merging fields with distinct keys into an empty object gives them back
/// unchanged.
pub proof fn lemma_merge_into_empty(f: FieldsV)
    requires
        distinct_keys(f),
    ensures
        spec_fields_merge(Seq::empty(), f) == f,
{
    lemma_merge_fresh_appends(Seq::empty(), f);
    assert(Seq::<(Seq<char>, ValueV)>::empty() + f =~= f);
}

/// Polymorphic dispatch: decoding a type whose single field has the wire
/// type `"ID"` reads a 16-bit wire id, resolves the named type, and merges
/// that type's fields directly into the record; no object wraps them.
pub proof fn lemma_polymorphic_dispatch(
    s: Seq<u8>,
    t: TypeSpecV,
    cat: CatalogV,
    fuel: nat,
    nm: Seq<char>,
)
    requires
        fuel >= 2,
        cat.type_of(t.name) == Some(t),
        t.parent is None,
        t.bool_vars.len() == 0,
        t.vars.len() == 1,
        t.vars[0].wire_type == "ID"@,
        t.vars[0].length is Single,
        !t.vars[0].optional,
        s.len() >= 2,
        cat.id_name(be_value(s, 0, 2) as u16) == Some(nm),
    ensures
        match spec_de_type(s.skip(2), nm, cat, (fuel - 1) as nat) {
            Ok((f, c)) => spec_de_type(s, t.name, cat, fuel) == Ok::<(FieldsV, int), DecodeError>(
                (spec_fields_merge(Seq::empty(), f), 2 + c),
            ),
            Err(e) => spec_de_type(s, t.name, cat, fuel) == Err::<(FieldsV, int), DecodeError>(e),
        },
{
    reveal_with_fuel(spec_de_type, 2);
    reveal_with_fuel(spec_de_vars, 3);
    reveal_with_fuel(spec_de_field, 2);
    lemma_id_not_primitive();
    assert(s.skip(0) =~= s);
    let empty = Seq::<(Seq<char>, ValueV)>::empty();
    assert(spec_read_bools(s, t.bool_vars, empty) == Ok::<(FieldsV, int), DecodeError>(
        (empty, 0),
    )) by {
        assert((t.bool_vars.len() + 7) as int / 8 == 0);
    }
    let s0 = s.skip(0);
    assert(s0 == s);
    assert(s0.skip(0) == s) by {
        assert(s0.skip(0) =~= s);
    }
    let dv = spec_de_vars(s0, t.vars, 0, empty, cat, fuel);
    assert(spec_de_type(s, t.name, cat, fuel) == (match dv {
        Err(e) => Err::<(FieldsV, int), DecodeError>(e),
        Ok((a, c2)) => Ok::<(FieldsV, int), DecodeError>((a, 0 + 0 + c2)),
    }));
    let df = spec_de_field(s0.skip(0), t.vars[0], empty, cat, fuel);
    assert(dv == (match df {
        Err(e) => Err::<(FieldsV, int), DecodeError>(e),
        Ok((a1, c1)) => (match spec_de_vars(s0.skip(0).skip(c1), t.vars, 1, a1, cat, fuel) {
            Err(e) => Err::<(FieldsV, int), DecodeError>(e),
            Ok((a2, c2)) => Ok::<(FieldsV, int), DecodeError>((a2, 0 + c1 + c2)),
        }),
    }));
    crate::deserialize::lemma_de_type_bounds(s.skip(2), nm, cat, (fuel - 1) as nat);
    match spec_de_type(s.skip(2), nm, cat, (fuel - 1) as nat) {
        Ok((f, c)) => {
            assert(s.skip(2 + c) == s.skip(2).skip(c)) by {
                crate::deserialize::lemma_skip_skip(s, 2, c);
            }
            assert(df == Ok::<(FieldsV, int), DecodeError>((spec_fields_merge(empty, f), 2 + c)));
            assert(spec_de_vars(s.skip(2 + c), t.vars, 1, spec_fields_merge(empty, f), cat, fuel)
                == Ok::<(FieldsV, int), DecodeError>((spec_fields_merge(empty, f), 0)));
            assert(s0.skip(0).skip(2 + c) == s.skip(2 + c)) by {
                crate::deserialize::lemma_skip_skip(s, 0, 2 + c);
                assert(s0.skip(0) =~= s);
            }
        },
        Err(e) => {},
    }
}

/// Order preservation: processing a segment only appends to the queue; the
/// records already queued stay at the front, in order, and new records are
/// queued in the order their messages complete in the byte stream.
pub proof fn lemma_order_preserved(st: DecoderV, seg: Seq<u8>, pos: int, port: u16, now: i64)
    ensures
        spec_run(st, seg, pos, port, now).queue.len() >= st.queue.len(),
        spec_run(st, seg, pos, port, now).queue.take(st.queue.len() as int) == st.queue,
    decreases
            seg.len() - pos,
            (if st.split {
                1int
            } else {
                0int
            }),
{
    if !(0 <= pos < seg.len()) {
        assert(st.queue.take(st.queue.len() as int) =~= st.queue);
    } else {
        crate::decoder::lemma_step_next_bounds(st, seg, pos, port, now);
        match spec_step(st, seg, pos, port, now) {
            StepV::Done(st2) => {
                assert(st2.queue.take(st.queue.len() as int) =~= st.queue);
            },
            StepV::Next(st2, p2) => {
                lemma_order_preserved(st2, seg, p2, port, now);
                let stf = spec_run(st2, seg, p2, port, now);
                assert(st2.queue.take(st.queue.len() as int) =~= st.queue);
                assert(stf.queue.take(st.queue.len() as int) =~= st.queue) by {
                    assert(forall|i: int|
                        0 <= i < st2.queue.len() ==> #[trigger] stf.queue.take(
                            st2.queue.len() as int,
                        )[i] == stf.queue[i]);
                }
            },
        }
    }
}

/// Trim recovery: when a message is decoded in place, the framer continues
/// at the declared end of the body, whatever the decoder consumed, and the
/// decoded record (if the body decoded) is appended to the queue.
pub proof fn lemma_trim_recovery(st: DecoderV, seg: Seq<u8>, pos: int, port: u16, now: i64)
    requires
        !st.split,
        0 <= pos,
        seg.len() - pos >= 2,
        port != 5555 ==> seg.len() - (pos + 2) >= 4,
        st.cat.msg_name((be_value(seg, pos, 2) as u16) / 4) is Some,
        (be_value(seg, pos, 2) as u16) / 4 != 0,
        ({
            let lt = (be_value(seg, pos, 2) as u16) % 4;
            let p2 = pos + 2 + (if port != 5555 {
                4int
            } else {
                0int
            });
            let w = spec_len_width(lt);
            &&& seg.len() - p2 >= w
            &&& (if lt == 0 {
                0int
            } else {
                be_value(seg, p2, w as nat) as int
            }) <= seg.len() - (p2 + w)
        }),
    ensures
        ({
            let hi = be_value(seg, pos, 2) as u16;
            let id = hi / 4;
            let lt = hi % 4;
            let p2 = pos + 2 + (if port != 5555 {
                4int
            } else {
                0int
            });
            let w = spec_len_width(lt);
            let length = if lt == 0 {
                0int
            } else {
                be_value(seg, p2, w as nat) as int
            };
            let p3 = p2 + w;
            let raw = seg.subrange(p3, p3 + length);
            spec_step(st, seg, pos, port, now) == StepV::Next(
                DecoderV {
                    queue: (match spec_record(seg, p3, raw, length, id, port, now, st.cat) {
                        Some(r) => st.queue.push(r),
                        None => st.queue,
                    }),
                    ..st
                },
                p3 + length,
            )
        }),
{
}

/// Reassembly idempotence: a complete message whose body is split at any
/// point and delivered as two segments yields the same state and records as
/// the whole message delivered at once. The split must fall inside the body:
/// the framer reassembles bodies, and a segment that ends inside a header is
/// dropped (a one-byte segment, for one, is discarded as an empty packet).
pub proof fn lemma_reassembly_split(st: DecoderV, seg: Seq<u8>, k: int, port: u16, now: i64)
    requires
        !st.split,
        st.pending.len() == 0,
        st.split_id == 0,
        st.split_len == 0,
        st.split_port == 0,
        seg.len() >= 2,
        port != 5555 ==> seg.len() - 2 >= 4,
        st.cat.msg_name((be_value(seg, 0, 2) as u16) / 4) is Some,
        (be_value(seg, 0, 2) as u16) / 4 != 0,
        ({
            let lt = (be_value(seg, 0, 2) as u16) % 4;
            let p2 = 2 + (if port != 5555 {
                4int
            } else {
                0int
            });
            let w = spec_len_width(lt);
            let p3 = p2 + w;
            let length = if lt == 0 {
                0int
            } else {
                be_value(seg, p2, w as nat) as int
            };
            &&& seg.len() - p2 >= w
            &&& seg.len() == p3 + length
            &&& p3 <= k < seg.len()
        }),
    ensures
        spec_run(spec_run(st, seg.take(k), 0, port, now), seg.skip(k), 0, port, now) == spec_run(
            st,
            seg,
            0,
            port,
            now,
        ),
{
    reveal_with_fuel(spec_run, 3);
    let hi = be_value(seg, 0, 2) as u16;
    let id = hi / 4;
    let lt = hi % 4;
    let p2 = 2 + (if port != 5555 {
        4int
    } else {
        0int
    });
    let w = spec_len_width(lt);
    let p3 = p2 + w;
    let length: int = if lt == 0 {
        0int
    } else {
        be_value(seg, p2, w as nat) as int
    };
    let seg1 = seg.take(k);
    let seg2 = seg.skip(k);
    assert(seg1.len() == k);
    assert(forall|i: int| 0 <= i < k ==> seg1[i] == seg[i]);
    lemma_be_value_agree(seg, seg1, 0, 0, 2);
    if lt != 0 {
        lemma_be_value_agree(seg, seg1, p2, p2, w as nat);
    }
    // The whole segment: one in-place message, then the end of the segment.
    let raw = seg.subrange(p3, p3 + length);
    let recw = spec_record(seg, p3, raw, length, id, port, now, st.cat);
    let qw = match recw {
        Some(r) => st.queue.push(r),
        None => st.queue,
    };
    let stw = DecoderV { queue: qw, ..st };
    assert(spec_step(st, seg, 0, port, now) == StepV::Next(stw, p3 + length));
    assert(spec_run(st, seg, 0, port, now) == stw);
    // The first part: the header parses, the body falls short, reassembly
    // starts with the body bytes received so far.
    let st_split = DecoderV {
        pending: seg1.skip(p3),
        split: true,
        split_id: id,
        split_len: length,
        split_port: port,
        ..st
    };
    assert(spec_step(st, seg1, 0, port, now) == StepV::Done(st_split));
    assert(spec_run(st, seg1, 0, port, now) == st_split);
    // The second part: the pending body completes with exactly the bytes of
    // the second segment, and the same record is decoded from it.
    let take = seg.len() - k;
    assert(st_split.pending.len() + (seg2.len() - 0) >= length);
    let body = st_split.pending + seg2.subrange(0, take);
    assert(body =~= seg.skip(p3));
    assert(raw =~= seg.skip(p3));
    assert(body.skip(0) =~= body);
    assert(seg.skip(p3).skip(0) =~= seg.skip(p3));
    let rec2 = spec_record(body, 0, body, length, id, port, now, st.cat);
    assert(rec2 == recw);
    let q2 = match rec2 {
        Some(r) => st_split.queue.push(r),
        None => st_split.queue,
    };
    let st_idle = DecoderV {
        pending: Seq::empty(),
        split: false,
        split_id: 0,
        split_len: 0,
        split_port: 0,
        queue: q2,
        ..st_split
    };
    assert(spec_step(st_split, seg2, 0, port, now) == StepV::Next(st_idle, take));
    assert(spec_run(st_split, seg2, 0, port, now) == st_idle);
    assert(st_idle.pending =~= stw.pending);
    assert(st_idle == stw);
}

} // verus!
