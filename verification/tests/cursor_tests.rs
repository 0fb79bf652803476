use dofus_decoder::{ByteCursor, CursorError};

#[test]
fn read_fixed_width_big_endian() {
    let mut c = ByteCursor::from_slice(&[0x12, 0x34, 0x56, 0x78, 0x9A, 0xBC, 0xDE, 0xF0]);
    assert_eq!(c.read_u16().unwrap(), 0x1234);
    assert_eq!(c.read_u32().unwrap(), 0x56789ABC);
    assert_eq!(c.read_i16().unwrap(), 0xDEF0u16 as i16);
    assert_eq!(c.bytes_available(), 0);
}

#[test]
fn read_u64_big_endian() {
    let mut c = ByteCursor::from_slice(&[0x01, 0x02, 0x03, 0x04, 0x05, 0x06, 0x07, 0x08]);
    assert_eq!(c.read_u64().unwrap(), 0x0102030405060708);
}

#[test]
fn read_signed_bytes() {
    let mut c = ByteCursor::from_slice(&[0xFF, 0x7F]);
    assert_eq!(c.read_i8().unwrap(), -1);
    assert_eq!(c.read_u8().unwrap(), 0x7F);
}

#[test]
fn read_past_end_is_end_of_buffer() {
    let mut c = ByteCursor::from_slice(&[0x01]);
    assert_eq!(c.read_u16(), Err(CursorError::EndOfBuffer));
    // The failed read consumed nothing.
    assert_eq!(c.read_u8().unwrap(), 0x01);
    assert_eq!(c.read_u8(), Err(CursorError::EndOfBuffer));
}

#[test]
fn var_int_single_byte() {
    let mut c = ByteCursor::from_slice(&[0x7F]);
    assert_eq!(c.read_var_int().unwrap(), 127);
}

#[test]
fn var_int_two_bytes() {
    // 300 = 0b10_0101100: low group 0x2C with continuation, then 0x02.
    let mut c = ByteCursor::from_slice(&[0xAC, 0x02]);
    assert_eq!(c.read_var_int().unwrap(), 300);
}

#[test]
fn var_int_max_u32() {
    let mut c = ByteCursor::from_slice(&[0xFF, 0xFF, 0xFF, 0xFF, 0x0F]);
    assert_eq!(c.read_var_int().unwrap(), u32::MAX);
}

#[test]
fn var_int_boundaries() {
    for (bytes, want) in [
        (vec![0x80u8, 0x01], 128u32),
        (vec![0xFF, 0x7F], 16383),
        (vec![0x80, 0x80, 0x01], 16384),
        (vec![0xFF, 0xFF, 0x7F], 2097151),
        (vec![0x80, 0x80, 0x80, 0x01], 2097152),
    ] {
        let mut c = ByteCursor::from_slice(&bytes);
        assert_eq!(c.read_var_int().unwrap(), want);
        assert_eq!(c.bytes_available(), 0);
    }
}

#[test]
fn var_int_runs_out_mid_scan() {
    let mut c = ByteCursor::from_slice(&[0x80, 0x80]);
    assert_eq!(c.read_var_int(), Err(CursorError::EndOfBuffer));
}

#[test]
fn var_short_negative_one() {
    // -1 as u16 is 0xFFFF: groups 0x7F, 0x7F, 0x03.
    let mut c = ByteCursor::from_slice(&[0xFF, 0xFF, 0x03]);
    assert_eq!(c.read_var_short().unwrap(), -1);
}

#[test]
fn var_uh_short_high_range() {
    let mut c = ByteCursor::from_slice(&[0xFF, 0xFF, 0x03]);
    assert_eq!(c.read_var_uh_short().unwrap(), 65535);
}

#[test]
fn var_short_positive() {
    let mut c = ByteCursor::from_slice(&[0x2A]);
    assert_eq!(c.read_var_short().unwrap(), 42);
}

#[test]
fn var_long_splits_at_bit_32() {
    // 2^32: five bytes, the fifth carrying payload 0x10.
    let mut c = ByteCursor::from_slice(&[0x80, 0x80, 0x80, 0x80, 0x10]);
    assert_eq!(c.read_var_long().unwrap(), 1u64 << 32);
}

#[test]
fn var_long_max_u64() {
    let mut c = ByteCursor::from_slice(&[0xFF, 0xFF, 0xFF, 0xFF, 0xFF, 0xFF, 0xFF, 0xFF, 0xFF, 0x01]);
    assert_eq!(c.read_var_long().unwrap(), u64::MAX);
}

#[test]
fn read_utf_hello() {
    let mut c = ByteCursor::from_slice(&[0x00, 0x05, b'H', b'e', b'l', b'l', b'o']);
    assert_eq!(c.read_utf().unwrap().as_str(), "Hello");
}

#[test]
fn read_utf_rejects_invalid_bytes() {
    let mut c = ByteCursor::from_slice(&[0x00, 0x02, 0xC3, 0x28]);
    assert_eq!(c.read_utf(), Err(CursorError::InvalidUtf8));
}

#[test]
fn read_utf_short_body() {
    let mut c = ByteCursor::from_slice(&[0x00, 0x05, b'H', b'i']);
    assert_eq!(c.read_utf(), Err(CursorError::EndOfBuffer));
}

#[test]
fn swap_bytes_moves_exact_count() {
    let mut src = ByteCursor::from_slice(&[1, 2, 3, 4, 5]);
    let mut dst = ByteCursor::new();
    src.swap_bytes(&mut dst, 3);
    assert_eq!(src.bytes_available(), 2);
    assert_eq!(dst.len(), 3);
    assert_eq!(dst.read_bytes(3).unwrap(), vec![1, 2, 3]);
}

#[test]
fn swap_bytes_zero_means_all_remaining() {
    let mut src = ByteCursor::from_slice(&[1, 2, 3]);
    let mut dst = ByteCursor::new();
    src.read_u8().unwrap();
    src.swap_bytes(&mut dst, 0);
    assert_eq!(src.bytes_available(), 0);
    assert_eq!(dst.len(), 2);
}

#[test]
fn swap_bytes_past_end_moves_nothing() {
    let mut src = ByteCursor::from_slice(&[1, 2]);
    let mut dst = ByteCursor::new();
    src.swap_bytes(&mut dst, 5);
    assert_eq!(src.bytes_available(), 2);
    assert_eq!(dst.len(), 0);
}

#[test]
fn set_rpos_and_peek() {
    let mut c = ByteCursor::from_slice(&[9, 8, 7]);
    assert_eq!(c.peek_bytes(2), vec![9, 8]);
    assert_eq!(c.get_rpos(), 0);
    c.set_rpos(2);
    assert_eq!(c.read_u8().unwrap(), 7);
}
