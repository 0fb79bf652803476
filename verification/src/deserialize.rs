//! Schema-driven deserialization: a recursive interpreter that turns the
//! bytes of one message body into an ordered key/value tree, following the
//! catalog. The mathematical interpreter here is the single meaning of the
//! format; the executable interpreter below is proved to follow it exactly.

use vstd::prelude::*;

use crate::bytespec::{be_value, lemma_be_value_agree, lemma_var_scan_agree, lemma_var_scan_bound, var_scan};
use crate::cursor::{ByteCursor, CursorError};
use crate::schema::{
    kind_of_name, spec_kind_of, CatalogV, FieldSpec, FieldSpecV, LengthSpec, LengthSpecV, PrimKind,
    SchemaCatalog,
};
use crate::value::{
    lemma_values_view_props, spec_fields_insert, spec_fields_merge, values_view, Fields, FieldsV,
    Value, ValueV,
};
use vstd::utf8::{decode_utf8, valid_utf8};

verus! {

/// Why a message body could not be decoded.
#[derive(Clone, Copy, Debug, PartialEq, Eq, Structural)]
pub enum DecodeError {
    /// A named type or the top-level message type is not in the catalog.
    UnknownType,
    /// A read would pass the end of the body.
    ShortBuffer,
    /// A string field holds bytes that are not valid UTF-8.
    BadUtf8,
    /// The parent or nesting chain is deeper than the interpreter follows;
    /// only a cyclic catalog reaches this.
    DepthLimit,
}

/// How deep parent chains and nested types may go. Real catalogs stay under
/// a handful of levels; the bound only rules out cyclic catalogs.
pub const MAX_TYPE_DEPTH: u32 = 64;

/// One primitive value read at the front of `s`: the decoded value and the
/// bytes consumed.
pub open spec fn spec_read_prim(s: Seq<u8>, kind: PrimKind) -> Result<
    (ValueV, int),
    DecodeError,
> {
    match kind {
        PrimKind::Boolean => if s.len() < 1 {
            Err(DecodeError::ShortBuffer)
        } else {
            Ok((ValueV::Bool(s[0] != 0), 1))
        },
        PrimKind::Byte => if s.len() < 1 {
            Err(DecodeError::ShortBuffer)
        } else {
            Ok((ValueV::I8(s[0] as i8), 1))
        },
        PrimKind::UnsignedByte => if s.len() < 1 {
            Err(DecodeError::ShortBuffer)
        } else {
            Ok((ValueV::U8(s[0]), 1))
        },
        PrimKind::Short => if s.len() < 2 {
            Err(DecodeError::ShortBuffer)
        } else {
            Ok((ValueV::I16(be_value(s, 0, 2) as u16 as i16), 2))
        },
        PrimKind::UnsignedShort => if s.len() < 2 {
            Err(DecodeError::ShortBuffer)
        } else {
            Ok((ValueV::U16(be_value(s, 0, 2) as u16), 2))
        },
        PrimKind::Int => if s.len() < 4 {
            Err(DecodeError::ShortBuffer)
        } else {
            Ok((ValueV::I32(be_value(s, 0, 4) as u32 as i32), 4))
        },
        PrimKind::UnsignedInt => if s.len() < 4 {
            Err(DecodeError::ShortBuffer)
        } else {
            Ok((ValueV::U32(be_value(s, 0, 4) as u32), 4))
        },
        PrimKind::Float => if s.len() < 4 {
            Err(DecodeError::ShortBuffer)
        } else {
            Ok((ValueV::FloatBits(be_value(s, 0, 4) as u32), 4))
        },
        PrimKind::Double => if s.len() < 8 {
            Err(DecodeError::ShortBuffer)
        } else {
            // The protocol takes the magnitude of every double, which in
            // bits is clearing the sign bit.
            Ok((ValueV::DoubleBits((be_value(s, 0, 8) as u64 % 0x8000000000000000) as u64), 8))
        },
        PrimKind::Utf => {
            if s.len() < 2 {
                Err(DecodeError::ShortBuffer)
            } else {
                let n = be_value(s, 0, 2) as int;
                if s.len() - 2 < n {
                    Err(DecodeError::ShortBuffer)
                } else {
                    let body = s.subrange(2, 2 + n);
                    if valid_utf8(body) {
                        Ok((ValueV::Str(decode_utf8(body)), 2 + n))
                    } else {
                        Err(DecodeError::BadUtf8)
                    }
                }
            }
        },
        PrimKind::VarInt | PrimKind::VarUhInt => match var_scan(s, 0, 5) {
            None => Err(DecodeError::ShortBuffer),
            Some((v, c)) => Ok((ValueV::U32((v % 0x100000000) as u32), c as int)),
        },
        PrimKind::VarShort => match var_scan(s, 0, 3) {
            None => Err(DecodeError::ShortBuffer),
            Some((v, c)) => Ok((ValueV::I16((v % 0x10000) as u16 as i16), c as int)),
        },
        PrimKind::VarUhShort => match var_scan(s, 0, 3) {
            None => Err(DecodeError::ShortBuffer),
            Some((v, c)) => Ok((ValueV::U16((v % 0x10000) as u16), c as int)),
        },
        PrimKind::VarLong | PrimKind::VarUhLong => match var_scan(s, 0, 10) {
            None => Err(DecodeError::ShortBuffer),
            Some((v, c)) => Ok((ValueV::U64((v % 18446744073709551616) as u64), c as int)),
        },
        PrimKind::ByteArray => match var_scan(s, 0, 5) {
            None => Err(DecodeError::ShortBuffer),
            Some((v, c)) => {
                let m = (v % 0x100000000) as int;
                if s.len() - c < m {
                    Err(DecodeError::ShortBuffer)
                } else {
                    Ok((ValueV::Bytes(s.subrange(c as int, c + m)), c + m))
                }
            },
        },
    }
}

/// An array count read from a decoded primitive: integer values from 0 to
/// 65535 count, anything else does not name a count.
pub open spec fn spec_prim_count(v: ValueV) -> Option<int> {
    match v {
        ValueV::U8(x) => Some(x as int),
        ValueV::I8(x) => if x >= 0 {
            Some(x as int)
        } else {
            None
        },
        ValueV::U16(x) => Some(x as int),
        ValueV::I16(x) => if x >= 0 {
            Some(x as int)
        } else {
            None
        },
        ValueV::U32(x) => if x <= 65535 {
            Some(x as int)
        } else {
            None
        },
        ValueV::I32(x) => if 0 <= x <= 65535 {
            Some(x as int)
        } else {
            None
        },
        ValueV::U64(x) => if x <= 65535 {
            Some(x as int)
        } else {
            None
        },
        _ => None,
    }
}

/// A length prefix named by a wire type: the count (if the name is a
/// primitive and the value is a count) and the bytes consumed reading it.
pub open spec fn spec_read_count(s: Seq<u8>, lname: Seq<char>) -> Result<
    (Option<int>, int),
    DecodeError,
> {
    match spec_kind_of(lname) {
        None => Ok((None, 0)),
        Some(k) => match spec_read_prim(s, k) {
            Err(e) => Err(e),
            Ok((v, c)) => Ok((spec_prim_count(v), c)),
        },
    }
}

/// `n` primitives of one kind, end to end at the front of `s`.
pub open spec fn spec_read_prim_array(s: Seq<u8>, kind: PrimKind, n: int) -> Result<
    (Seq<ValueV>, int),
    DecodeError,
>
    decreases n,
{
    if n <= 0 {
        Ok((Seq::empty(), 0))
    } else {
        match spec_read_prim(s, kind) {
            Err(e) => Err(e),
            Ok((v, c)) => match spec_read_prim_array(s.skip(c), kind, n - 1) {
                Err(e) => Err(e),
                Ok((arr, c2)) => Ok((seq![v] + arr, c + c2)),
            },
        }
    }
}

/// Bit `k` of a byte, least significant first.
pub open spec fn spec_bit_of(b: u8, k: int) -> bool {
    (b as int / pow2_small(k)) % 2 == 1
}

/// 2^k for the bit positions of one byte.
pub open spec fn pow2_small(k: int) -> int
    decreases (if k > 0 {
        k
    } else {
        0
    }),
{
    if k <= 0 {
        1
    } else {
        2 * pow2_small(k - 1)
    }
}

/// Folds the bit-packed boolean names into the accumulated fields: name `i`
/// takes bit `i % 8` of byte `i / 8`.
pub open spec fn spec_bools_fold(bytes: Seq<u8>, names: Seq<Seq<char>>, acc: FieldsV, i: int)
    -> FieldsV
    decreases names.len() - i,
{
    if i < 0 || i >= names.len() {
        acc
    } else {
        spec_bools_fold(
            bytes,
            names,
            spec_fields_insert(acc, names[i], ValueV::Bool(spec_bit_of(bytes[i / 8], i % 8))),
            i + 1,
        )
    }
}

/// The bit-packed booleans of one type: `ceil(B/8)` bytes for `B` names,
/// each name taking its bit in order, least significant bit first.
pub open spec fn spec_read_bools(s: Seq<u8>, names: Seq<Seq<char>>, acc: FieldsV) -> Result<
    (FieldsV, int),
    DecodeError,
> {
    let nb = (names.len() + 7) as int / 8;
    if s.len() < nb {
        Err(DecodeError::ShortBuffer)
    } else {
        Ok((spec_bools_fold(s, names, acc, 0), nb))
    }
}

/// One named type decoded at the front of `s`: parent fields first, then the
/// bit-packed booleans, then the regular fields.
pub open spec fn spec_de_type(s: Seq<u8>, name: Seq<char>, cat: CatalogV, fuel: nat) -> Result<
    (FieldsV, int),
    DecodeError,
>
    decreases fuel, 3int, 0int,
{
    if fuel == 0 {
        Err(DecodeError::DepthLimit)
    } else {
        match cat.type_of(name) {
            None => Err(DecodeError::UnknownType),
            Some(t) => {
                let parent_res = match t.parent {
                    Some(pname) => spec_de_type(s, pname, cat, (fuel - 1) as nat),
                    None => Ok((Seq::empty(), 0)),
                };
                match parent_res {
                    Err(e) => Err(e),
                    Ok((acc0, c0)) => match spec_read_bools(s.skip(c0), t.bool_vars, acc0) {
                        Err(e) => Err(e),
                        Ok((acc1, c1)) => match spec_de_vars(
                            s.skip(c0 + c1),
                            t.vars,
                            0,
                            acc1,
                            cat,
                            fuel,
                        ) {
                            Err(e) => Err(e),
                            Ok((acc2, c2)) => Ok((acc2, c0 + c1 + c2)),
                        },
                    },
                }
            },
        }
    }
}

/// The regular fields of a type from index `i` on, decoded at the front of
/// `s` into the accumulated fields. A nonzero guard byte before an optional
/// field ends the type early with what has accumulated.
pub open spec fn spec_de_vars(
    s: Seq<u8>,
    vars: Seq<FieldSpecV>,
    i: int,
    acc: FieldsV,
    cat: CatalogV,
    fuel: nat,
) -> Result<(FieldsV, int), DecodeError>
    decreases fuel, 2int, vars.len() - i,
{
    if fuel == 0 {
        Err(DecodeError::DepthLimit)
    } else if i < 0 || i >= vars.len() {
        Ok((acc, 0))
    } else {
        let v = vars[i];
        let g: int = if v.optional {
            1
        } else {
            0
        };
        if v.optional && s.len() < 1 {
            Err(DecodeError::ShortBuffer)
        } else if v.optional && s[0] != 0 {
            Ok((acc, 1))
        } else {
            let s1 = s.skip(g);
            match spec_de_field(s1, v, acc, cat, fuel) {
                Err(e) => Err(e),
                Ok((acc1, c1)) => match spec_de_vars(s1.skip(c1), vars, i + 1, acc1, cat, fuel) {
                    Err(e) => Err(e),
                    Ok((acc2, c2)) => Ok((acc2, g + c1 + c2)),
                },
            }
        }
    }
}

/// One regular field decoded at the front of `s` into the accumulated
/// fields. A primitive inserts a value or an array of values; a named type
/// or a polymorphic `"ID"` merges its fields upward when scalar and nests
/// one object per element when an array.
pub open spec fn spec_de_field(
    s: Seq<u8>,
    v: FieldSpecV,
    acc: FieldsV,
    cat: CatalogV,
    fuel: nat,
) -> Result<(FieldsV, int), DecodeError>
    decreases fuel, 1int, 1int,
{
    if fuel == 0 {
        Err(DecodeError::DepthLimit)
    } else {
        match spec_kind_of(v.wire_type) {
            Some(kind) => match v.length {
                LengthSpecV::Single => match spec_read_prim(s, kind) {
                    Err(e) => Err(e),
                    Ok((val, c)) => Ok((spec_fields_insert(acc, v.name, val), c)),
                },
                LengthSpecV::Fixed(n) => match spec_read_prim_array(s, kind, n as int) {
                    Err(e) => Err(e),
                    Ok((arr, c)) => Ok((spec_fields_insert(acc, v.name, ValueV::Array(arr)), c)),
                },
                LengthSpecV::Prefixed(lname) => match spec_read_count(s, lname) {
                    Err(e) => Err(e),
                    Ok((None, c)) => Ok((spec_fields_insert(acc, v.name, ValueV::Null), c)),
                    Ok((Some(n), c)) => match spec_read_prim_array(s.skip(c), kind, n) {
                        Err(e) => Err(e),
                        Ok((arr, c2)) => Ok(
                            (spec_fields_insert(acc, v.name, ValueV::Array(arr)), c + c2),
                        ),
                    },
                },
            },
            None => match v.length {
                LengthSpecV::Single => {
                    if v.wire_type == "ID"@ {
                        if s.len() < 2 {
                            Err(DecodeError::ShortBuffer)
                        } else {
                            let id = be_value(s, 0, 2) as u16;
                            match cat.id_name(id) {
                                // An unknown wire id merges nothing; the two
                                // header bytes stay consumed.
                                None => Ok((acc, 2)),
                                Some(nm) => match spec_de_type(
                                    s.skip(2),
                                    nm,
                                    cat,
                                    (fuel - 1) as nat,
                                ) {
                                    Err(e) => Err(e),
                                    Ok((f, c)) => Ok((spec_fields_merge(acc, f), 2 + c)),
                                },
                            }
                        }
                    } else {
                        match spec_de_type(s, v.wire_type, cat, (fuel - 1) as nat) {
                            Err(e) => Err(e),
                            Ok((f, c)) => Ok((spec_fields_merge(acc, f), c)),
                        }
                    }
                },
                LengthSpecV::Fixed(n) => match spec_de_obj_array(s, v.wire_type, n as int, cat, fuel) {
                    Err(e) => Err(e),
                    Ok((arr, c)) => Ok((spec_fields_insert(acc, v.name, ValueV::Array(arr)), c)),
                },
                LengthSpecV::Prefixed(lname) => match spec_read_count(s, lname) {
                    Err(e) => Err(e),
                    // A count that does not parse skips the field entirely.
                    Ok((None, c)) => Ok((acc, c)),
                    Ok((Some(n), c)) => match spec_de_obj_array(s.skip(c), v.wire_type, n, cat, fuel) {
                        Err(e) => Err(e),
                        Ok((arr, c2)) => Ok(
                            (spec_fields_insert(acc, v.name, ValueV::Array(arr)), c + c2),
                        ),
                    },
                },
            },
        }
    }
}

/// `n` objects of one element type, end to end at the front of `s`. Each
/// element of a polymorphic `"ID"` array names its own type; an element
/// whose wire id is unknown contributes nothing but its two id bytes.
pub open spec fn spec_de_obj_array(
    s: Seq<u8>,
    wire_type: Seq<char>,
    n: int,
    cat: CatalogV,
    fuel: nat,
) -> Result<(Seq<ValueV>, int), DecodeError>
    decreases fuel, 0int, n,
{
    if fuel == 0 {
        Err(DecodeError::DepthLimit)
    } else if n <= 0 {
        Ok((Seq::empty(), 0))
    } else if wire_type == "ID"@ {
        if s.len() < 2 {
            Err(DecodeError::ShortBuffer)
        } else {
            let id = be_value(s, 0, 2) as u16;
            match cat.id_name(id) {
                None => match spec_de_obj_array(s.skip(2), wire_type, n - 1, cat, fuel) {
                    Err(e) => Err(e),
                    Ok((arr, c2)) => Ok((arr, 2 + c2)),
                },
                Some(nm) => match spec_de_type(s.skip(2), nm, cat, (fuel - 1) as nat) {
                    Err(e) => Err(e),
                    Ok((f, c)) => match spec_de_obj_array(s.skip(2 + c), wire_type, n - 1, cat, fuel) {
                        Err(e) => Err(e),
                        Ok((arr, c2)) => Ok((seq![ValueV::Object(f)] + arr, 2 + c + c2)),
                    },
                },
            }
        }
    } else {
        match spec_de_type(s, wire_type, cat, (fuel - 1) as nat) {
            Err(e) => Err(e),
            Ok((f, c)) => match spec_de_obj_array(s.skip(c), wire_type, n - 1, cat, fuel) {
                Err(e) => Err(e),
                Ok((arr, c2)) => Ok((seq![ValueV::Object(f)] + arr, c + c2)),
            },
        }
    }
}

/// A primitive read consumes between one byte and the whole suffix.
pub proof fn lemma_read_prim_bounds(s: Seq<u8>, kind: PrimKind)
    ensures
        spec_read_prim(s, kind) matches Ok((v, c)) ==> 0 <= c <= s.len(),
{
    lemma_var_scan_bound(s, 0, 3);
    lemma_var_scan_bound(s, 0, 5);
    lemma_var_scan_bound(s, 0, 10);
}

/// A count read consumes between zero bytes and the whole suffix.
pub proof fn lemma_read_count_bounds(s: Seq<u8>, lname: Seq<char>)
    ensures
        spec_read_count(s, lname) matches Ok((cnt, c)) ==> 0 <= c <= s.len(),
{
    match spec_kind_of(lname) {
        None => {},
        Some(k) => {
            lemma_read_prim_bounds(s, k);
        },
    }
}

/// A primitive array read consumes at most the whole suffix and yields one
/// value per element.
pub proof fn lemma_read_prim_array_bounds(s: Seq<u8>, kind: PrimKind, n: int)
    ensures
        spec_read_prim_array(s, kind, n) matches Ok((arr, c)) ==> 0 <= c <= s.len() && arr.len()
            == (if n >= 0 {
            n
        } else {
            0
        }),
    decreases n,
{
    if n > 0 {
        lemma_read_prim_bounds(s, kind);
        match spec_read_prim(s, kind) {
            Err(_) => {},
            Ok((v, c)) => {
                lemma_read_prim_array_bounds(s.skip(c), kind, n - 1);
            },
        }
    }
}

/// A boolean block read consumes at most the whole suffix.
pub proof fn lemma_read_bools_bounds(s: Seq<u8>, names: Seq<Seq<char>>, acc: FieldsV)
    ensures
        spec_read_bools(s, names, acc) matches Ok((f, c)) ==> 0 <= c <= s.len(),
{
}

/// Decoding consumes between zero bytes and the whole suffix, whichever
/// interpreter entry is taken.
pub proof fn lemma_de_type_bounds(s: Seq<u8>, name: Seq<char>, cat: CatalogV, fuel: nat)
    ensures
        spec_de_type(s, name, cat, fuel) matches Ok((f, c)) ==> 0 <= c <= s.len(),
    decreases fuel, 3int, 0int,
{
    if fuel > 0 {
        match cat.type_of(name) {
            None => {},
            Some(t) => {
                let parent_res = match t.parent {
                    Some(pname) => spec_de_type(s, pname, cat, (fuel - 1) as nat),
                    None => Ok::<(FieldsV, int), DecodeError>((Seq::empty(), 0)),
                };
                match t.parent {
                    Some(pname) => {
                        lemma_de_type_bounds(s, pname, cat, (fuel - 1) as nat);
                    },
                    None => {},
                }
                match parent_res {
                    Err(_) => {},
                    Ok((acc0, c0)) => {
                        lemma_read_bools_bounds(s.skip(c0), t.bool_vars, acc0);
                        match spec_read_bools(s.skip(c0), t.bool_vars, acc0) {
                            Err(_) => {},
                            Ok((acc1, c1)) => {
                                lemma_de_vars_bounds(s.skip(c0 + c1), t.vars, 0, acc1, cat, fuel);
                            },
                        }
                    },
                }
            },
        }
    }
}

/// See `lemma_de_type_bounds`.
pub proof fn lemma_de_vars_bounds(
    s: Seq<u8>,
    vars: Seq<FieldSpecV>,
    i: int,
    acc: FieldsV,
    cat: CatalogV,
    fuel: nat,
)
    ensures
        spec_de_vars(s, vars, i, acc, cat, fuel) matches Ok((f, c)) ==> 0 <= c <= s.len(),
    decreases fuel, 2int, vars.len() - i,
{
    if fuel > 0 && 0 <= i < vars.len() {
        let v = vars[i];
        let g: int = if v.optional {
            1
        } else {
            0
        };
        if v.optional && s.len() < 1 {
        } else if v.optional && s[0] != 0 {
        } else {
            let s1 = s.skip(g);
            lemma_de_field_bounds(s1, v, acc, cat, fuel);
            match spec_de_field(s1, v, acc, cat, fuel) {
                Err(_) => {},
                Ok((acc1, c1)) => {
                    lemma_de_vars_bounds(s1.skip(c1), vars, i + 1, acc1, cat, fuel);
                },
            }
        }
    }
}

/// See `lemma_de_type_bounds`.
pub proof fn lemma_de_field_bounds(
    s: Seq<u8>,
    v: FieldSpecV,
    acc: FieldsV,
    cat: CatalogV,
    fuel: nat,
)
    ensures
        spec_de_field(s, v, acc, cat, fuel) matches Ok((f, c)) ==> 0 <= c <= s.len(),
    decreases fuel, 1int, 1int,
{
    if fuel > 0 {
        match spec_kind_of(v.wire_type) {
            Some(kind) => {
                lemma_read_prim_bounds(s, kind);
                match v.length {
                    LengthSpecV::Single => {},
                    LengthSpecV::Fixed(n) => {
                        lemma_read_prim_array_bounds(s, kind, n as int);
                    },
                    LengthSpecV::Prefixed(lname) => {
                        lemma_read_count_bounds(s, lname);
                        match spec_read_count(s, lname) {
                            Err(_) => {},
                            Ok((None, c)) => {},
                            Ok((Some(n), c)) => {
                                lemma_read_prim_array_bounds(s.skip(c), kind, n);
                            },
                        }
                    },
                }
            },
            None => match v.length {
                LengthSpecV::Single => {
                    if v.wire_type == "ID"@ {
                        if s.len() >= 2 {
                            let id = be_value(s, 0, 2) as u16;
                            match cat.id_name(id) {
                                None => {},
                                Some(nm) => {
                                    lemma_de_type_bounds(s.skip(2), nm, cat, (fuel - 1) as nat);
                                },
                            }
                        }
                    } else {
                        lemma_de_type_bounds(s, v.wire_type, cat, (fuel - 1) as nat);
                    }
                },
                LengthSpecV::Fixed(n) => {
                    lemma_de_obj_array_bounds(s, v.wire_type, n as int, cat, fuel);
                },
                LengthSpecV::Prefixed(lname) => {
                    lemma_read_count_bounds(s, lname);
                    match spec_read_count(s, lname) {
                        Err(_) => {},
                        Ok((None, c)) => {},
                        Ok((Some(n), c)) => {
                            lemma_de_obj_array_bounds(s.skip(c), v.wire_type, n, cat, fuel);
                        },
                    }
                },
            },
        }
    }
}

/// See `lemma_de_type_bounds`; an object array also yields at most one
/// object per element.
pub proof fn lemma_de_obj_array_bounds(
    s: Seq<u8>,
    wire_type: Seq<char>,
    n: int,
    cat: CatalogV,
    fuel: nat,
)
    ensures
        spec_de_obj_array(s, wire_type, n, cat, fuel) matches Ok((arr, c)) ==> 0 <= c <= s.len()
            && arr.len() <= (if n >= 0 {
            n
        } else {
            0
        }),
    decreases fuel, 0int, n,
{
    if fuel > 0 && n > 0 {
        if wire_type == "ID"@ {
            if s.len() >= 2 {
                let id = be_value(s, 0, 2) as u16;
                match cat.id_name(id) {
                    None => {
                        lemma_de_obj_array_bounds(s.skip(2), wire_type, n - 1, cat, fuel);
                    },
                    Some(nm) => {
                        lemma_de_type_bounds(s.skip(2), nm, cat, (fuel - 1) as nat);
                        match spec_de_type(s.skip(2), nm, cat, (fuel - 1) as nat) {
                            Err(_) => {},
                            Ok((f, c)) => {
                                lemma_de_obj_array_bounds(s.skip(2 + c), wire_type, n - 1, cat, fuel);
                            },
                        }
                    },
                }
            }
        } else {
            lemma_de_type_bounds(s, wire_type, cat, (fuel - 1) as nat);
            match spec_de_type(s, wire_type, cat, (fuel - 1) as nat) {
                Err(_) => {},
                Ok((f, c)) => {
                    lemma_de_obj_array_bounds(s.skip(c), wire_type, n - 1, cat, fuel);
                },
            }
        }
    }
}

/// The bytes a cursor has not consumed yet; the interpreter reads at the
/// front of this suffix.
pub open spec fn suffix_of(c: ByteCursor) -> Seq<u8> {
    c.bytes().skip(c.pos())
}

/// Views of a sequence of names, elementwise.
pub open spec fn names_view(s: Seq<String>) -> Seq<Seq<char>> {
    Seq::new(s.len(), |i: int| s[i]@)
}

/// Views of a sequence of field specs, elementwise.
pub open spec fn var_specs_view(s: Seq<FieldSpec>) -> Seq<FieldSpecV> {
    Seq::new(s.len(), |i: int| s[i].view())
}

/// Skipping twice is skipping once by the sum.
pub proof fn lemma_skip_skip(s: Seq<u8>, a: int, b: int)
    requires
        0 <= a,
        0 <= b,
        a + b <= s.len(),
    ensures
        s.skip(a).skip(b) == s.skip(a + b),
{
    assert(s.skip(a).skip(b) =~= s.skip(a + b));
}

/// A big-endian read does not care where the suffix begins.
pub proof fn lemma_suffix_be(s: Seq<u8>, pos: int, n: nat)
    requires
        0 <= pos,
        pos + n <= s.len(),
    ensures
        be_value(s, pos, n) == be_value(s.skip(pos), 0, n),
{
    lemma_be_value_agree(s, s.skip(pos), pos, 0, n);
}

/// A variable-length scan does not care where the suffix begins.
pub proof fn lemma_suffix_var(s: Seq<u8>, pos: int, max: nat)
    requires
        0 <= pos <= s.len(),
    ensures
        var_scan(s, pos, max) == var_scan(s.skip(pos), 0, max),
{
    lemma_var_scan_agree(s, s.skip(pos), pos, 0, max);
}

fn cursor_error(e: CursorError) -> (r: DecodeError)
    ensures
        e == CursorError::EndOfBuffer ==> r == DecodeError::ShortBuffer,
        e == CursorError::InvalidUtf8 ==> r == DecodeError::BadUtf8,
{
    match e {
        CursorError::EndOfBuffer => DecodeError::ShortBuffer,
        CursorError::InvalidUtf8 => DecodeError::BadUtf8,
    }
}

/// Reads one primitive value of `kind` from the cursor.
pub fn read_prim(cur: &mut ByteCursor, kind: PrimKind) -> (r: Result<Value, DecodeError>)
    requires
        old(cur).wf(),
    ensures
        final(cur).wf(),
        final(cur).bytes() == old(cur).bytes(),
        old(cur).pos() <= final(cur).pos() <= old(cur).bytes().len(),
        match spec_read_prim(suffix_of(*old(cur)), kind) {
            Ok((v, c)) => r matches Ok(val) && val.view() == v && final(cur).pos() == old(cur).pos()
                + c,
            Err(e) => r == Err::<Value, DecodeError>(e) && old(cur).pos() <= final(cur).pos()
                <= old(cur).bytes().len(),
        },
{
    match kind {
        PrimKind::Boolean | PrimKind::Byte | PrimKind::UnsignedByte | PrimKind::Short
            | PrimKind::UnsignedShort | PrimKind::Int | PrimKind::UnsignedInt | PrimKind::Float
            | PrimKind::Double | PrimKind::Utf => read_prim_fixed(cur, kind),
        PrimKind::VarInt | PrimKind::VarUhInt | PrimKind::VarShort | PrimKind::VarUhShort
            | PrimKind::VarLong | PrimKind::VarUhLong | PrimKind::ByteArray => read_prim_var(
            cur,
            kind,
        ),
    }
}

/// The fixed-width primitives and strings.
#[verifier::rlimit(100)]
#[verifier::spinoff_prover]
fn read_prim_fixed(cur: &mut ByteCursor, kind: PrimKind) -> (r: Result<Value, DecodeError>)
    requires
        old(cur).wf(),
        kind matches (PrimKind::Boolean | PrimKind::Byte | PrimKind::UnsignedByte | PrimKind::Short
            | PrimKind::UnsignedShort | PrimKind::Int | PrimKind::UnsignedInt | PrimKind::Float
            | PrimKind::Double | PrimKind::Utf),
    ensures
        final(cur).wf(),
        final(cur).bytes() == old(cur).bytes(),
        old(cur).pos() <= final(cur).pos() <= old(cur).bytes().len(),
        match spec_read_prim(suffix_of(*old(cur)), kind) {
            Ok((v, c)) => r matches Ok(val) && val.view() == v && final(cur).pos() == old(cur).pos()
                + c,
            Err(e) => r == Err::<Value, DecodeError>(e) && old(cur).pos() <= final(cur).pos()
                <= old(cur).bytes().len(),
        },
{
    let ghost s = suffix_of(*old(cur));
    proof {
        assert(s.len() == old(cur).remaining());
    }
    match kind {
        PrimKind::Boolean => match cur.read_u8() {
            Ok(b) => Ok(Value::Bool(b != 0)),
            Err(e) => Err(cursor_error(e)),
        },
        PrimKind::Byte => match cur.read_i8() {
            Ok(b) => Ok(Value::I8(b)),
            Err(e) => Err(cursor_error(e)),
        },
        PrimKind::UnsignedByte => match cur.read_u8() {
            Ok(b) => Ok(Value::U8(b)),
            Err(e) => Err(cursor_error(e)),
        },
        PrimKind::Short => {
            proof {
                if old(cur).remaining() >= 2 {
                    lemma_suffix_be(old(cur).bytes(), old(cur).pos(), 2);
                }
            }
            match cur.read_i16() {
                Ok(v) => Ok(Value::I16(v)),
                Err(e) => Err(cursor_error(e)),
            }
        },
        PrimKind::UnsignedShort => {
            proof {
                if old(cur).remaining() >= 2 {
                    lemma_suffix_be(old(cur).bytes(), old(cur).pos(), 2);
                }
            }
            match cur.read_u16() {
                Ok(v) => Ok(Value::U16(v)),
                Err(e) => Err(cursor_error(e)),
            }
        },
        PrimKind::Int => {
            proof {
                if old(cur).remaining() >= 4 {
                    lemma_suffix_be(old(cur).bytes(), old(cur).pos(), 4);
                }
            }
            match cur.read_i32() {
                Ok(v) => Ok(Value::I32(v)),
                Err(e) => Err(cursor_error(e)),
            }
        },
        PrimKind::UnsignedInt => {
            proof {
                if old(cur).remaining() >= 4 {
                    lemma_suffix_be(old(cur).bytes(), old(cur).pos(), 4);
                }
            }
            match cur.read_u32() {
                Ok(v) => Ok(Value::U32(v)),
                Err(e) => Err(cursor_error(e)),
            }
        },
        PrimKind::Float => {
            proof {
                if old(cur).remaining() >= 4 {
                    lemma_suffix_be(old(cur).bytes(), old(cur).pos(), 4);
                }
            }
            match cur.read_u32() {
                Ok(v) => Ok(Value::FloatBits(v)),
                Err(e) => Err(cursor_error(e)),
            }
        },
        PrimKind::Double => {
            proof {
                if old(cur).remaining() >= 8 {
                    lemma_suffix_be(old(cur).bytes(), old(cur).pos(), 8);
                }
            }
            match cur.read_u64() {
                Ok(v) => Ok(Value::DoubleBits(v % 0x8000000000000000)),
                Err(e) => Err(cursor_error(e)),
            }
        },
        PrimKind::Utf => {
            proof {
                if old(cur).remaining() >= 2 {
                    lemma_suffix_be(old(cur).bytes(), old(cur).pos(), 2);
                    let n = be_value(s, 0, 2) as int;
                    if old(cur).remaining() - 2 >= n {
                        assert(old(cur).bytes().subrange(
                            old(cur).pos() + 2,
                            old(cur).pos() + 2 + n,
                        ) =~= s.subrange(2, 2 + n));
                    }
                }
            }
            match cur.read_utf() {
                Ok(st) => Ok(Value::Str(st)),
                Err(e) => Err(cursor_error(e)),
            }
        },
        _ => Err(DecodeError::ShortBuffer),
    }
}

/// The variable-length primitives and length-prefixed byte arrays.
#[verifier::rlimit(100)]
#[verifier::spinoff_prover]
fn read_prim_var(cur: &mut ByteCursor, kind: PrimKind) -> (r: Result<Value, DecodeError>)
    requires
        old(cur).wf(),
        kind matches (PrimKind::VarInt | PrimKind::VarUhInt | PrimKind::VarShort
            | PrimKind::VarUhShort | PrimKind::VarLong | PrimKind::VarUhLong | PrimKind::ByteArray),
    ensures
        final(cur).wf(),
        final(cur).bytes() == old(cur).bytes(),
        old(cur).pos() <= final(cur).pos() <= old(cur).bytes().len(),
        match spec_read_prim(suffix_of(*old(cur)), kind) {
            Ok((v, c)) => r matches Ok(val) && val.view() == v && final(cur).pos() == old(cur).pos()
                + c,
            Err(e) => r == Err::<Value, DecodeError>(e) && old(cur).pos() <= final(cur).pos()
                <= old(cur).bytes().len(),
        },
{
    let ghost s = suffix_of(*old(cur));
    proof {
        assert(s.len() == old(cur).remaining());
    }
    match kind {
        PrimKind::VarInt | PrimKind::VarUhInt => {
            proof {
                lemma_suffix_var(old(cur).bytes(), old(cur).pos(), 5);
            }
            match cur.read_var_int() {
                Ok(v) => Ok(Value::U32(v)),
                Err(e) => Err(cursor_error(e)),
            }
        },
        PrimKind::VarShort => {
            proof {
                lemma_suffix_var(old(cur).bytes(), old(cur).pos(), 3);
            }
            match cur.read_var_short() {
                Ok(v) => Ok(Value::I16(v)),
                Err(e) => Err(cursor_error(e)),
            }
        },
        PrimKind::VarUhShort => {
            proof {
                lemma_suffix_var(old(cur).bytes(), old(cur).pos(), 3);
            }
            match cur.read_var_uh_short() {
                Ok(v) => Ok(Value::U16(v)),
                Err(e) => Err(cursor_error(e)),
            }
        },
        PrimKind::VarLong | PrimKind::VarUhLong => {
            proof {
                lemma_suffix_var(old(cur).bytes(), old(cur).pos(), 10);
            }
            match cur.read_var_long() {
                Ok(v) => Ok(Value::U64(v)),
                Err(e) => Err(cursor_error(e)),
            }
        },
        PrimKind::ByteArray => {
            proof {
                lemma_suffix_var(old(cur).bytes(), old(cur).pos(), 5);
            }
            let m = match cur.read_var_int() {
                Ok(v) => v,
                Err(e) => {
                    return Err(cursor_error(e));
                },
            };
            let ghost c = cur.pos() - old(cur).pos();
            proof {
                if cur.remaining() >= m as usize {
                    assert(old(cur).bytes().subrange(cur.pos(), cur.pos() + m as int)
                        =~= s.subrange(c, c + m as int));
                }
            }
            match cur.read_bytes(m as usize) {
                Ok(v) => Ok(Value::Bytes(v)),
                Err(_) => Err(DecodeError::ShortBuffer),
            }
        },
        _ => Err(DecodeError::ShortBuffer),
    }
}

/// The count a decoded primitive names, if it is an integer from 0 to 65535.
fn prim_count(v: &Value) -> (r: Option<u64>)
    ensures
        match spec_prim_count(v.view()) {
            Some(n) => r matches Some(m) && m == n,
            None => r is None,
        },
{
    match v {
        Value::U8(x) => Some(*x as u64),
        Value::I8(x) => if *x >= 0 {
            Some(*x as u64)
        } else {
            None
        },
        Value::U16(x) => Some(*x as u64),
        Value::I16(x) => if *x >= 0 {
            Some(*x as u64)
        } else {
            None
        },
        Value::U32(x) => if *x <= 65535 {
            Some(*x as u64)
        } else {
            None
        },
        Value::I32(x) => if 0 <= *x && *x <= 65535 {
            Some(*x as u64)
        } else {
            None
        },
        Value::U64(x) => if *x <= 65535 {
            Some(*x)
        } else {
            None
        },
        _ => None,
    }
}

/// Reads a length prefix of the named wire type; `None` when the name is no
/// primitive or the value is no count.
fn read_count(cur: &mut ByteCursor, lname: &String) -> (r: Result<Option<u64>, DecodeError>)
    requires
        old(cur).wf(),
    ensures
        final(cur).wf(),
        final(cur).bytes() == old(cur).bytes(),
        old(cur).pos() <= final(cur).pos() <= old(cur).bytes().len(),
        match spec_read_count(suffix_of(*old(cur)), lname@) {
            Ok((cnt, c)) => r matches Ok(rc) && final(cur).pos() == old(cur).pos() + c && (
            match cnt {
                Some(n) => rc matches Some(m) && m == n,
                None => rc is None,
            }),
            Err(e) => r == Err::<Option<u64>, DecodeError>(e) && old(cur).pos() <= final(cur).pos()
                <= old(cur).bytes().len(),
        },
{
    match kind_of_name(lname) {
        None => Ok(None),
        Some(k) => match read_prim(cur, k) {
            Err(e) => Err(e),
            Ok(v) => Ok(prim_count(&v)),
        },
    }
}

/// Reads `n` primitives of one kind, end to end.
pub fn read_prim_array(cur: &mut ByteCursor, kind: PrimKind, n: u64) -> (r: Result<
    Vec<Value>,
    DecodeError,
>)
    requires
        old(cur).wf(),
    ensures
        final(cur).wf(),
        final(cur).bytes() == old(cur).bytes(),
        old(cur).pos() <= final(cur).pos() <= old(cur).bytes().len(),
        match spec_read_prim_array(suffix_of(*old(cur)), kind, n as int) {
            Ok((arr, c)) => r matches Ok(vals) && values_view(vals@) == arr && final(cur).pos()
                == old(cur).pos() + c,
            Err(e) => r == Err::<Vec<Value>, DecodeError>(e) && old(cur).pos() <= final(cur).pos()
                <= old(cur).bytes().len(),
        },
{
    let mut vals: Vec<Value> = Vec::new();
    let mut i: u64 = 0;
    proof {
        lemma_values_view_props(vals@);
        assert(values_view(vals@) + Seq::<ValueV>::empty() =~= values_view(vals@));
    }
    while i < n
        invariant
            cur.wf(),
            cur.bytes() == old(cur).bytes(),
            old(cur).pos() <= cur.pos() <= cur.bytes().len(),
            i <= n,
            match spec_read_prim_array(suffix_of(*cur), kind, n - i) {
                Ok((arr, c)) => spec_read_prim_array(suffix_of(*old(cur)), kind, n as int) == Ok::<
                    (Seq<ValueV>, int),
                    DecodeError,
                >((values_view(vals@) + arr, (cur.pos() - old(cur).pos()) + c)),
                Err(e) => spec_read_prim_array(suffix_of(*old(cur)), kind, n as int) == Err::<
                    (Seq<ValueV>, int),
                    DecodeError,
                >(e),
            },
        decreases n - i,
    {
        let ghost pre = *cur;
        let v = match read_prim(cur, kind) {
            Ok(v) => v,
            Err(e) => {
                return Err(e);
            },
        };
        proof {
            let c = cur.pos() - pre.pos();
            lemma_skip_skip(cur.bytes(), pre.pos(), c);
        }
        let ghost vals0 = vals@;
        vals.push(v);
        i = i + 1;
        proof {
            lemma_values_view_props(vals0);
            lemma_values_view_props(vals@);
            assert(values_view(vals@) =~= values_view(vals0) + seq![v.view()]);
            match spec_read_prim_array(suffix_of(*cur), kind, n - i) {
                Ok((arr2, c2)) => {
                    assert(values_view(vals0) + (seq![v.view()] + arr2) =~= values_view(vals@)
                        + arr2);
                },
                Err(e) => {},
            }
        }
    }
    proof {
        assert(values_view(vals@) + Seq::<ValueV>::empty() =~= values_view(vals@));
    }
    Ok(vals)
}

/// Reads the bit-packed booleans of one type into the accumulated fields:
/// one byte per eight names, least significant bit first.
pub fn read_bools(cur: &mut ByteCursor, names: &Vec<String>, acc: &mut Fields) -> (r: Result<
    (),
    DecodeError,
>)
    requires
        old(cur).wf(),
    ensures
        final(cur).wf(),
        final(cur).bytes() == old(cur).bytes(),
        old(cur).pos() <= final(cur).pos() <= old(cur).bytes().len(),
        match spec_read_bools(suffix_of(*old(cur)), names_view(names@), old(acc).view()) {
            Ok((f, c)) => r is Ok && final(acc).view() == f && final(cur).pos() == old(cur).pos()
                + c,
            Err(e) => r == Err::<(), DecodeError>(e) && final(cur).pos() == old(cur).pos(),
        },
{
    let ghost s = suffix_of(*old(cur));
    let ghost nv = names_view(names@);
    if names.len() == 0 {
        return Ok(());
    }
    let nb = (names.len() - 1) / 8 + 1;
    proof {
        assert(nb == (nv.len() + 7) as int / 8);
        assert(s.len() == old(cur).remaining());
    }
    if cur.bytes_available() < nb {
        return Err(DecodeError::ShortBuffer);
    }
    let bs = match cur.read_bytes(nb) {
        Ok(v) => v,
        Err(_) => {
            proof {
                assert(false);
            }
            return Err(DecodeError::ShortBuffer);
        },
    };
    proof {
        assert(forall|k: int| 0 <= k < nb ==> bs@[k] == s[k]);
    }
    let n = names.len();
    let mut i: usize = 0;
    while i < n
        invariant
            n == names@.len(),
            i <= n,
            nv == names_view(names@),
            nb == (nv.len() + 7) as int / 8,
            bs@.len() == nb,
            forall|k: int| 0 <= k < nb ==> bs@[k] == s[k],
            spec_bools_fold(s, nv, old(acc).view(), 0) == spec_bools_fold(s, nv, acc.view(), i as int),
        decreases n - i,
    {
        let b = bs[i / 8];
        let k = i % 8;
        let p: u8 = if k == 0 {
            1
        } else if k == 1 {
            2
        } else if k == 2 {
            4
        } else if k == 3 {
            8
        } else if k == 4 {
            16
        } else if k == 5 {
            32
        } else if k == 6 {
            64
        } else {
            128
        };
        proof {
            reveal_with_fuel(pow2_small, 9);
            assert(p as int == pow2_small(k as int));
        }
        let bit = (b / p) % 2 == 1;
        proof {
            assert(bit == spec_bit_of(s[i as int / 8], i as int % 8));
            assert(nv[i as int] == names@[i as int]@);
        }
        let name = names[i].clone();
        acc.insert(name, Value::Bool(bit));
        i = i + 1;
    }
    Ok(())
}

/// Decodes one named type from the cursor: parent fields first, then the
/// bit-packed booleans, then the regular fields.
#[verifier::rlimit(100)]
pub fn deserialize_type(cur: &mut ByteCursor, name: &String, cat: &SchemaCatalog, fuel: u32) -> (r:
    Result<Fields, DecodeError>)
    requires
        old(cur).wf(),
    ensures
        final(cur).wf(),
        final(cur).bytes() == old(cur).bytes(),
        old(cur).pos() <= final(cur).pos() <= old(cur).bytes().len(),
        match spec_de_type(suffix_of(*old(cur)), name@, cat.view(), fuel as nat) {
            Ok((f, c)) => r matches Ok(fs) && fs.view() == f && final(cur).pos() == old(cur).pos()
                + c,
            Err(e) => r == Err::<Fields, DecodeError>(e),
        },
    decreases fuel, 3int, 0int,
{
    let ghost s = suffix_of(*old(cur));
    if fuel == 0 {
        return Err(DecodeError::DepthLimit);
    }
    let t = match cat.type_of(name) {
        None => {
            return Err(DecodeError::UnknownType);
        },
        Some(t) => t,
    };
    let mut acc = match &t.parent {
        Some(p) => {
            match deserialize_type(cur, p, cat, fuel - 1) {
                Ok(f) => f,
                Err(e) => {
                    return Err(e);
                },
            }
        },
        None => Fields::new(),
    };
    let ghost c0 = cur.pos() - old(cur).pos();
    proof {
        lemma_skip_skip(cur.bytes(), old(cur).pos(), c0);
        assert(names_view(t.bool_vars@) =~= t.view().bool_vars);
    }
    let ghost pre_bools = *cur;
    match read_bools(cur, &t.bool_vars, &mut acc) {
        Err(e) => {
            return Err(e);
        },
        Ok(u) => u,
    };
    let ghost c1 = cur.pos() - pre_bools.pos();
    proof {
        lemma_skip_skip(cur.bytes(), old(cur).pos(), c0 + c1);
        assert(s.skip(c0).skip(c1) == s.skip(c0 + c1)) by {
            lemma_skip_skip(s, c0, c1);
        }
        assert(var_specs_view(t.vars@) =~= t.view().vars);
    }
    match de_vars(cur, &t.vars, 0, &mut acc, cat, fuel) {
        Err(e) => {
            return Err(e);
        },
        Ok(u) => u,
    };
    Ok(acc)
}

/// Decodes the regular fields of a type from index `i` on into `acc`.
#[verifier::rlimit(100)]
fn de_vars(
    cur: &mut ByteCursor,
    vars: &Vec<FieldSpec>,
    i: usize,
    acc: &mut Fields,
    cat: &SchemaCatalog,
    fuel: u32,
) -> (r: Result<(), DecodeError>)
    requires
        old(cur).wf(),
        fuel >= 1,
        i <= vars@.len(),
    ensures
        final(cur).wf(),
        final(cur).bytes() == old(cur).bytes(),
        old(cur).pos() <= final(cur).pos() <= old(cur).bytes().len(),
        match spec_de_vars(
            suffix_of(*old(cur)),
            var_specs_view(vars@),
            i as int,
            old(acc).view(),
            cat.view(),
            fuel as nat,
        ) {
            Ok((f, c)) => r is Ok && final(acc).view() == f && final(cur).pos() == old(cur).pos()
                + c,
            Err(e) => r == Err::<(), DecodeError>(e),
        },
    decreases fuel, 2int, vars@.len() - i,
{
    let ghost s = suffix_of(*old(cur));
    if i == vars.len() {
        return Ok(());
    }
    let v = &vars[i];
    proof {
        assert(var_specs_view(vars@)[i as int] == v.view());
    }
    let ghost g: int = if v.optional {
        1
    } else {
        0
    };
    if v.optional {
        let gb = match cur.read_u8() {
            Ok(gb) => gb,
            Err(_) => {
                return Err(DecodeError::ShortBuffer);
            },
        };
        if gb != 0 {
            return Ok(());
        }
    }
    proof {
        lemma_skip_skip(cur.bytes(), old(cur).pos(), g);
        assert(s.skip(0) =~= s);
    }
    let ghost pre_field = *cur;
    match de_field(cur, v, acc, cat, fuel) {
        Err(e) => {
            return Err(e);
        },
        Ok(u) => u,
    };
    let ghost c1 = cur.pos() - pre_field.pos();
    proof {
        lemma_skip_skip(cur.bytes(), old(cur).pos(), g + c1);
        lemma_skip_skip(s, g, c1);
    }
    de_vars(cur, vars, i + 1, acc, cat, fuel)
}

/// Decodes one regular field into `acc`.
#[verifier::rlimit(100)]
fn de_field(
    cur: &mut ByteCursor,
    v: &FieldSpec,
    acc: &mut Fields,
    cat: &SchemaCatalog,
    fuel: u32,
) -> (r: Result<(), DecodeError>)
    requires
        old(cur).wf(),
        fuel >= 1,
    ensures
        final(cur).wf(),
        final(cur).bytes() == old(cur).bytes(),
        old(cur).pos() <= final(cur).pos() <= old(cur).bytes().len(),
        match spec_de_field(
            suffix_of(*old(cur)),
            v.view(),
            old(acc).view(),
            cat.view(),
            fuel as nat,
        ) {
            Ok((f, c)) => r is Ok && final(acc).view() == f && final(cur).pos() == old(cur).pos()
                + c,
            Err(e) => r == Err::<(), DecodeError>(e),
        },
    decreases fuel, 1int, 1int,
{
    let ghost s = suffix_of(*old(cur));
    match kind_of_name(&v.wire_type) {
        Some(kind) => match &v.length {
            LengthSpec::Single => {
                let val = match read_prim(cur, kind) {
                    Ok(val) => val,
                    Err(e) => {
                        return Err(e);
                    },
                };
                acc.insert(v.name.clone(), val);
                Ok(())
            },
            LengthSpec::Fixed(n) => {
                let arr = match read_prim_array(cur, kind, *n) {
                    Ok(arr) => arr,
                    Err(e) => {
                        return Err(e);
                    },
                };
                acc.insert(v.name.clone(), Value::Array(arr));
                Ok(())
            },
            LengthSpec::Prefixed(l) => {
                let cnt = match read_count(cur, l) {
                    Ok(cnt) => cnt,
                    Err(e) => {
                        return Err(e);
                    },
                };
                match cnt {
                    None => {
                        acc.insert(v.name.clone(), Value::Null);
                        Ok(())
                    },
                    Some(n) => {
                        let ghost c = cur.pos() - old(cur).pos();
                        proof {
                            lemma_skip_skip(cur.bytes(), old(cur).pos(), c);
                        }
                        let arr = match read_prim_array(cur, kind, n) {
                            Ok(arr) => arr,
                            Err(e) => {
                                return Err(e);
                            },
                        };
                        acc.insert(v.name.clone(), Value::Array(arr));
                        Ok(())
                    },
                }
            },
        },
        None => match &v.length {
            LengthSpec::Single => {
                if v.wire_type == "ID".to_owned() {
                    proof {
                        if old(cur).remaining() >= 2 {
                            lemma_suffix_be(old(cur).bytes(), old(cur).pos(), 2);
                        }
                    }
                    let id = match cur.read_u16() {
                        Ok(x) => x,
                        Err(_) => {
                            return Err(DecodeError::ShortBuffer);
                        },
                    };
                    proof {
                        lemma_skip_skip(cur.bytes(), old(cur).pos(), 2);
                    }
                    match cat.id_name(id) {
                        None => Ok(()),
                        Some(nm) => {
                            let f = match deserialize_type(cur, nm, cat, fuel - 1) {
                                Ok(f) => f,
                                Err(e) => {
                                    return Err(e);
                                },
                            };
                            acc.merge(f);
                            Ok(())
                        },
                    }
                } else {
                    let f = match deserialize_type(cur, &v.wire_type, cat, fuel - 1) {
                        Ok(f) => f,
                        Err(e) => {
                            return Err(e);
                        },
                    };
                    acc.merge(f);
                    Ok(())
                }
            },
            LengthSpec::Fixed(n) => {
                let arr = match de_obj_array(cur, &v.wire_type, *n, cat, fuel) {
                    Ok(arr) => arr,
                    Err(e) => {
                        return Err(e);
                    },
                };
                acc.insert(v.name.clone(), Value::Array(arr));
                Ok(())
            },
            LengthSpec::Prefixed(l) => {
                let cnt = match read_count(cur, l) {
                    Ok(cnt) => cnt,
                    Err(e) => {
                        return Err(e);
                    },
                };
                match cnt {
                    None => Ok(()),
                    Some(n) => {
                        let ghost c = cur.pos() - old(cur).pos();
                        proof {
                            lemma_skip_skip(cur.bytes(), old(cur).pos(), c);
                        }
                        let arr = match de_obj_array(cur, &v.wire_type, n, cat, fuel) {
                            Ok(arr) => arr,
                            Err(e) => {
                                return Err(e);
                            },
                        };
                        acc.insert(v.name.clone(), Value::Array(arr));
                        Ok(())
                    },
                }
            },
        },
    }
}

/// Decodes `n` objects of one element type, end to end. Each element of a
/// polymorphic `"ID"` array names its own type on the wire.
#[verifier::rlimit(100)]
fn de_obj_array(cur: &mut ByteCursor, wire_type: &String, n: u64, cat: &SchemaCatalog, fuel: u32)
    -> (r: Result<Vec<Value>, DecodeError>)
    requires
        old(cur).wf(),
        fuel >= 1,
    ensures
        final(cur).wf(),
        final(cur).bytes() == old(cur).bytes(),
        old(cur).pos() <= final(cur).pos() <= old(cur).bytes().len(),
        match spec_de_obj_array(
            suffix_of(*old(cur)),
            wire_type@,
            n as int,
            cat.view(),
            fuel as nat,
        ) {
            Ok((arr, c)) => r matches Ok(vals) && values_view(vals@) == arr && final(cur).pos()
                == old(cur).pos() + c,
            Err(e) => r == Err::<Vec<Value>, DecodeError>(e),
        },
    decreases fuel, 0int, 0int,
{
    let is_id = *wire_type == "ID".to_owned();
    let mut vals: Vec<Value> = Vec::new();
    let mut i: u64 = 0;
    proof {
        lemma_values_view_props(vals@);
        assert(values_view(vals@) + Seq::<ValueV>::empty() =~= values_view(vals@));
    }
    while i < n
        invariant
            cur.wf(),
            cur.bytes() == old(cur).bytes(),
            old(cur).pos() <= cur.pos() <= cur.bytes().len(),
            i <= n,
            fuel >= 1,
            is_id == (wire_type@ == "ID"@),
            match spec_de_obj_array(suffix_of(*cur), wire_type@, n - i, cat.view(), fuel as nat) {
                Ok((arr, c)) => spec_de_obj_array(
                    suffix_of(*old(cur)),
                    wire_type@,
                    n as int,
                    cat.view(),
                    fuel as nat,
                ) == Ok::<(Seq<ValueV>, int), DecodeError>(
                    (values_view(vals@) + arr, (cur.pos() - old(cur).pos()) + c),
                ),
                Err(e) => spec_de_obj_array(
                    suffix_of(*old(cur)),
                    wire_type@,
                    n as int,
                    cat.view(),
                    fuel as nat,
                ) == Err::<(Seq<ValueV>, int), DecodeError>(e),
            },
        decreases n - i,
    {
        let ghost pre = *cur;
        if is_id {
            proof {
                if pre.remaining() >= 2 {
                    lemma_suffix_be(pre.bytes(), pre.pos(), 2);
                }
            }
            let id = match cur.read_u16() {
                Ok(x) => x,
                Err(_) => {
                    return Err(DecodeError::ShortBuffer);
                },
            };
            proof {
                lemma_skip_skip(cur.bytes(), pre.pos(), 2);
            }
            match cat.id_name(id) {
                None => {
                    i = i + 1;
                },
                Some(nm) => {
                    let ghost mid = *cur;
                    let f = match deserialize_type(cur, nm, cat, fuel - 1) {
                        Ok(f) => f,
                        Err(e) => {
                            return Err(e);
                        },
                    };
                    proof {
                        lemma_skip_skip(cur.bytes(), pre.pos(), cur.pos() - pre.pos());
                        lemma_skip_skip(suffix_of(pre), 2, cur.pos() - mid.pos());
                    }
                    let ghost vals0 = vals@;
                    vals.push(Value::Object(f));
                    i = i + 1;
                    proof {
                        lemma_values_view_props(vals0);
                        lemma_values_view_props(vals@);
                        assert(values_view(vals@) =~= values_view(vals0) + seq![
                            ValueV::Object(f.view()),
                        ]);
                        match spec_de_obj_array(
                            suffix_of(*cur),
                            wire_type@,
                            n - i,
                            cat.view(),
                            fuel as nat,
                        ) {
                            Ok((arr2, c2)) => {
                                assert(values_view(vals0) + (seq![ValueV::Object(f.view())] + arr2)
                                    =~= values_view(vals@) + arr2);
                            },
                            Err(e) => {},
                        }
                    }
                },
            }
        } else {
            let f = match deserialize_type(cur, wire_type, cat, fuel - 1) {
                Ok(f) => f,
                Err(e) => {
                    return Err(e);
                },
            };
            proof {
                lemma_skip_skip(cur.bytes(), pre.pos(), cur.pos() - pre.pos());
            }
            let ghost vals0 = vals@;
            vals.push(Value::Object(f));
            i = i + 1;
            proof {
                lemma_values_view_props(vals0);
                lemma_values_view_props(vals@);
                assert(values_view(vals@) =~= values_view(vals0) + seq![ValueV::Object(f.view())]);
                match spec_de_obj_array(
                    suffix_of(*cur),
                    wire_type@,
                    n - i,
                    cat.view(),
                    fuel as nat,
                ) {
                    Ok((arr2, c2)) => {
                        assert(values_view(vals0) + (seq![ValueV::Object(f.view())] + arr2)
                            =~= values_view(vals@) + arr2);
                    },
                    Err(e) => {},
                }
            }
        }
    }
    proof {
        assert(values_view(vals@) + Seq::<ValueV>::empty() =~= values_view(vals@));
    }
    Ok(vals)
}

/// Decodes one named type from the cursor with the full depth budget.
pub fn deserialize(cur: &mut ByteCursor, name: &String, cat: &SchemaCatalog) -> (r: Result<
    Fields,
    DecodeError,
>)
    requires
        old(cur).wf(),
    ensures
        final(cur).wf(),
        final(cur).bytes() == old(cur).bytes(),
        old(cur).pos() <= final(cur).pos() <= old(cur).bytes().len(),
        match spec_de_type(suffix_of(*old(cur)), name@, cat.view(), MAX_TYPE_DEPTH as nat) {
            Ok((f, c)) => r matches Ok(fs) && fs.view() == f && final(cur).pos() == old(cur).pos()
                + c,
            Err(e) => r == Err::<Fields, DecodeError>(e),
        },
{
    deserialize_type(cur, name, cat, MAX_TYPE_DEPTH)
}

} // verus!
