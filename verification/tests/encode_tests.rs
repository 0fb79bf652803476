use dofus_decoder::deserialize::read_prim;
use dofus_decoder::encode::{encode_be, encode_var};
use dofus_decoder::schema::PrimKind;
use dofus_decoder::{ByteCursor, Value};

#[test]
fn encode_var_exact_bytes() {
    assert_eq!(encode_var(0), vec![0x00]);
    assert_eq!(encode_var(127), vec![0x7F]);
    assert_eq!(encode_var(128), vec![0x80, 0x01]);
    assert_eq!(encode_var(300), vec![0xAC, 0x02]);
    assert_eq!(encode_var(16383), vec![0xFF, 0x7F]);
    assert_eq!(encode_var(16384), vec![0x80, 0x80, 0x01]);
    assert_eq!(encode_var(u32::MAX as u64), vec![0xFF, 0xFF, 0xFF, 0xFF, 0x0F]);
}

#[test]
fn encode_be_exact_bytes() {
    assert_eq!(encode_be(0x1234, 2), vec![0x12, 0x34]);
    assert_eq!(encode_be(0xDEADBEEF, 4), vec![0xDE, 0xAD, 0xBE, 0xEF]);
    assert_eq!(
        encode_be(0x0102030405060708, 8),
        vec![0x01, 0x02, 0x03, 0x04, 0x05, 0x06, 0x07, 0x08]
    );
}

#[test]
fn var_int_roundtrip_samples() {
    for v in [0u32, 1, 127, 128, 300, 16383, 16384, 2097151, 2097152, u32::MAX] {
        let mut c = ByteCursor::from_vec(encode_var(v as u64));
        assert_eq!(c.read_var_int().unwrap(), v);
        assert_eq!(c.bytes_available(), 0);
    }
}

#[test]
fn var_short_roundtrip_samples() {
    for v in [0i16, 1, -1, 42, 32767, -32768, -12345] {
        let mut c = ByteCursor::from_vec(encode_var(v as u16 as u64));
        assert_eq!(c.read_var_short().unwrap(), v);
    }
}

#[test]
fn var_short_high_range_is_negative() {
    // A wire value of 40000 reads back as 40000 - 65536.
    let mut c = ByteCursor::from_vec(encode_var(40000));
    assert_eq!(c.read_var_short().unwrap() as i32, 40000 - 65536);
}

#[test]
fn var_long_roundtrip_samples() {
    for v in [0u64, 1, 127, 128, (1 << 32) - 1, 1 << 32, (1 << 35) + 7, u64::MAX] {
        let mut c = ByteCursor::from_vec(encode_var(v));
        assert_eq!(c.read_var_long().unwrap(), v);
        let mut c2 = ByteCursor::from_vec(encode_var(v));
        assert_eq!(c2.read_var_uh_long().unwrap(), v);
    }
}

#[test]
fn prim_roundtrip_unsigned_byte() {
    for v in [0u8, 1, 127, 255] {
        let mut c = ByteCursor::from_vec(vec![v]);
        match read_prim(&mut c, PrimKind::UnsignedByte).unwrap() {
            Value::U8(got) => assert_eq!(got, v),
            _ => panic!("wrong variant"),
        }
    }
}

#[test]
fn prim_roundtrip_byte() {
    for v in [0i8, 1, -1, 127, -128] {
        let mut c = ByteCursor::from_vec(vec![v as u8]);
        match read_prim(&mut c, PrimKind::Byte).unwrap() {
            Value::I8(got) => assert_eq!(got, v),
            _ => panic!("wrong variant"),
        }
    }
}

#[test]
fn prim_roundtrip_boolean() {
    let mut c = ByteCursor::from_vec(vec![0x01, 0x00, 0x7F]);
    assert!(matches!(read_prim(&mut c, PrimKind::Boolean).unwrap(), Value::Bool(true)));
    assert!(matches!(read_prim(&mut c, PrimKind::Boolean).unwrap(), Value::Bool(false)));
    // Any nonzero byte is true.
    assert!(matches!(read_prim(&mut c, PrimKind::Boolean).unwrap(), Value::Bool(true)));
}

#[test]
fn prim_roundtrip_shorts() {
    for v in [0u16, 1, 0x1234, 0xFFFF] {
        let mut c = ByteCursor::from_vec(encode_be(v as u64, 2));
        match read_prim(&mut c, PrimKind::UnsignedShort).unwrap() {
            Value::U16(got) => assert_eq!(got, v),
            _ => panic!("wrong variant"),
        }
        let mut c2 = ByteCursor::from_vec(encode_be(v as u64, 2));
        match read_prim(&mut c2, PrimKind::Short).unwrap() {
            Value::I16(got) => assert_eq!(got, v as i16),
            _ => panic!("wrong variant"),
        }
    }
}

#[test]
fn prim_roundtrip_ints() {
    for v in [0u32, 1, 0xDEADBEEF, u32::MAX] {
        let mut c = ByteCursor::from_vec(encode_be(v as u64, 4));
        match read_prim(&mut c, PrimKind::UnsignedInt).unwrap() {
            Value::U32(got) => assert_eq!(got, v),
            _ => panic!("wrong variant"),
        }
        let mut c2 = ByteCursor::from_vec(encode_be(v as u64, 4));
        match read_prim(&mut c2, PrimKind::Int).unwrap() {
            Value::I32(got) => assert_eq!(got, v as i32),
            _ => panic!("wrong variant"),
        }
    }
}

#[test]
fn prim_roundtrip_float_bits() {
    let v = 1.5f32;
    let mut c = ByteCursor::from_vec(encode_be(v.to_bits() as u64, 4));
    match read_prim(&mut c, PrimKind::Float).unwrap() {
        Value::FloatBits(bits) => assert_eq!(f32::from_bits(bits), 1.5),
        _ => panic!("wrong variant"),
    }
}

#[test]
fn prim_double_takes_magnitude() {
    let v = -2.5f64;
    let mut c = ByteCursor::from_vec(encode_be(v.to_bits(), 8));
    match read_prim(&mut c, PrimKind::Double).unwrap() {
        Value::DoubleBits(bits) => assert_eq!(f64::from_bits(bits), 2.5),
        _ => panic!("wrong variant"),
    }
    let w = 2.5f64;
    let mut c2 = ByteCursor::from_vec(encode_be(w.to_bits(), 8));
    match read_prim(&mut c2, PrimKind::Double).unwrap() {
        Value::DoubleBits(bits) => assert_eq!(f64::from_bits(bits), 2.5),
        _ => panic!("wrong variant"),
    }
}

#[test]
fn prim_roundtrip_utf() {
    let s = "caf\u{e9} \u{1F600}";
    let bytes = s.as_bytes();
    let mut wire = encode_be(bytes.len() as u64, 2);
    wire.extend_from_slice(bytes);
    let mut c = ByteCursor::from_vec(wire);
    match read_prim(&mut c, PrimKind::Utf).unwrap() {
        Value::Str(got) => assert_eq!(got.as_str(), s),
        _ => panic!("wrong variant"),
    }
}

#[test]
fn prim_roundtrip_byte_array() {
    let payload = vec![10u8, 1, 2, 3, 4, 5, 6, 7];
    let mut wire = encode_var(payload.len() as u64);
    wire.extend_from_slice(&payload);
    let mut c = ByteCursor::from_vec(wire);
    match read_prim(&mut c, PrimKind::ByteArray).unwrap() {
        Value::Bytes(got) => assert_eq!(got, payload),
        _ => panic!("wrong variant"),
    }
}

#[test]
fn prim_roundtrip_var_kinds() {
    let mut c = ByteCursor::from_vec(encode_var(300));
    assert!(matches!(read_prim(&mut c, PrimKind::VarInt).unwrap(), Value::U32(300)));
    let mut c = ByteCursor::from_vec(encode_var(300));
    assert!(matches!(read_prim(&mut c, PrimKind::VarUhInt).unwrap(), Value::U32(300)));
    let mut c = ByteCursor::from_vec(encode_var(42));
    assert!(matches!(read_prim(&mut c, PrimKind::VarShort).unwrap(), Value::I16(42)));
    let mut c = ByteCursor::from_vec(encode_var(65535));
    assert!(matches!(read_prim(&mut c, PrimKind::VarUhShort).unwrap(), Value::U16(65535)));
    let mut c = ByteCursor::from_vec(encode_var(1 << 40));
    match read_prim(&mut c, PrimKind::VarLong).unwrap() {
        Value::U64(got) => assert_eq!(got, 1 << 40),
        _ => panic!("wrong variant"),
    }
    let mut c = ByteCursor::from_vec(encode_var(7));
    assert!(matches!(read_prim(&mut c, PrimKind::VarUhLong).unwrap(), Value::U64(7)));
}

#[test]
fn header_roundtrip_samples() {
    for id in [0u16, 1, 10, 0x3FFF] {
        for lt in [0u16, 1, 2, 3] {
            let hi = id * 4 + lt;
            assert_eq!(hi / 4, id);
            assert_eq!(hi % 4, lt);
        }
    }
}
