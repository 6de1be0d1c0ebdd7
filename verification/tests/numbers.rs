use luac_parser::number::{lua_int, lua_number, lua_size_t, sized, to_signed, widen};
use luac_parser::read::{
    byte, bytes, fixed16, fixed32, fixed64, leb128_u32, leb128_u64, varint_wide,
};
use luac_parser::{Endianness, ErrorKind, LuaHeader, LuaNumber};

fn header(int_size: u8, size_t_size: u8, number_size: u8, integral: bool, big: bool) -> LuaHeader {
    LuaHeader {
        lua_version: 0x51,
        format_version: 0,
        big_endian: big,
        int_size,
        size_t_size,
        instruction_size: 4,
        number_size,
        number_integral: integral,
        stripped: false,
        has_ffi: false,
    }
}

#[test]
fn fixed_width_integers_in_both_byte_orders() {
    let input = [0x01u8, 0x02, 0x03, 0x04, 0x05, 0x06, 0x07, 0x08, 0x09];
    assert_eq!(fixed16(&input, 0, Endianness::Big).unwrap(), (0x0102, 2));
    assert_eq!(fixed16(&input, 0, Endianness::Little).unwrap(), (0x0201, 2));
    assert_eq!(fixed16(&input, 3, Endianness::Big).unwrap(), (0x0405, 5));
    assert_eq!(fixed32(&input, 0, Endianness::Big).unwrap(), (0x0102_0304, 4));
    assert_eq!(fixed32(&input, 0, Endianness::Little).unwrap(), (0x0403_0201, 4));
    assert_eq!(fixed32(&input, 5, Endianness::Little).unwrap(), (0x0908_0706, 9));
    assert_eq!(fixed64(&input, 0, Endianness::Big).unwrap(), (0x0102_0304_0506_0708, 8));
    assert_eq!(fixed64(&input, 1, Endianness::Little).unwrap(), (0x0908_0706_0504_0302, 9));
    assert_eq!(fixed64(&[0xFF; 8], 0, Endianness::Big).unwrap(), (u64::MAX, 8));
}

#[test]
fn fixed_width_integers_need_all_their_bytes() {
    let input = [1u8, 2, 3, 4, 5, 6, 7];
    let e = fixed64(&input, 0, Endianness::Little).unwrap_err();
    assert_eq!((e.kind, e.offset), (ErrorKind::Truncated, 0));
    let e = fixed32(&input, 4, Endianness::Little).unwrap_err();
    assert_eq!((e.kind, e.offset), (ErrorKind::Truncated, 4));
    let e = fixed16(&input, 6, Endianness::Little).unwrap_err();
    assert_eq!((e.kind, e.offset), (ErrorKind::Truncated, 6));
    let e = fixed16(&input, 9, Endianness::Little).unwrap_err();
    assert_eq!((e.kind, e.offset), (ErrorKind::Truncated, 9));
    assert!(e.context.is_empty());
    let e = byte(&input, 7).unwrap_err();
    assert_eq!((e.kind, e.offset), (ErrorKind::Truncated, 7));
    assert_eq!(byte(&input, 6).unwrap(), (7, 7));
}

#[test]
fn runs_of_bytes() {
    let input = [1u8, 2, 3, 4];
    assert_eq!(bytes(&input, 1, 2).unwrap(), (vec![2, 3], 3));
    assert_eq!(bytes(&input, 4, 0).unwrap(), (vec![], 4));
    assert_eq!(bytes(&input, 0, 4).unwrap(), (vec![1, 2, 3, 4], 4));
    let e = bytes(&input, 1, 4).unwrap_err();
    assert_eq!((e.kind, e.offset), (ErrorKind::Truncated, 1));
    let e = bytes(&input, 0, u64::MAX).unwrap_err();
    assert_eq!((e.kind, e.offset), (ErrorKind::Truncated, 0));
    let e = bytes(&input, 5, 0).unwrap_err();
    assert_eq!((e.kind, e.offset), (ErrorKind::Truncated, 5));
}

#[test]
fn leb128_of_32_bits() {
    assert_eq!(leb128_u32(&[0x00], 0).unwrap(), (0, 1));
    assert_eq!(leb128_u32(&[0x7F], 0).unwrap(), (127, 1));
    assert_eq!(leb128_u32(&[0xE5, 0x8E, 0x26], 0).unwrap(), (624485, 3));
    assert_eq!(leb128_u32(&[9, 0xE5, 0x8E, 0x26, 9], 1).unwrap(), (624485, 4));
    assert_eq!(leb128_u32(&[0xFF, 0xFF, 0xFF, 0xFF, 0x0F], 0).unwrap(), (u32::MAX, 5));
    assert_eq!(leb128_u32(&[0x80, 0x80, 0x80, 0x80, 0x7F], 0).unwrap(), (0xF000_0000, 5));
    let e = leb128_u32(&[0x80, 0x80, 0x80, 0x80, 0x80, 0x00], 0).unwrap_err();
    assert_eq!((e.kind, e.offset), (ErrorKind::IntegerOverflow, 0));
    let e = leb128_u32(&[1, 0x80, 0x80, 0x80, 0x80, 0x80], 1).unwrap_err();
    assert_eq!((e.kind, e.offset), (ErrorKind::IntegerOverflow, 1));
    let e = leb128_u32(&[0x80, 0x80], 0).unwrap_err();
    assert_eq!((e.kind, e.offset), (ErrorKind::Truncated, 2));
    let e = leb128_u32(&[], 0).unwrap_err();
    assert_eq!((e.kind, e.offset), (ErrorKind::Truncated, 0));
    let e = leb128_u32(&[1], 3).unwrap_err();
    assert_eq!((e.kind, e.offset), (ErrorKind::Truncated, 1));
}

#[test]
fn leb128_of_64_bits() {
    assert_eq!(leb128_u64(&[0xE5, 0x8E, 0x26], 0).unwrap(), (624485, 3));
    let max = [0xFF, 0xFF, 0xFF, 0xFF, 0xFF, 0xFF, 0xFF, 0xFF, 0xFF, 0x01];
    assert_eq!(leb128_u64(&max, 0).unwrap(), (u64::MAX, 10));
    let cut = [0x80, 0x80, 0x80, 0x80, 0x80, 0x80, 0x80, 0x80, 0x80, 0x7F];
    assert_eq!(leb128_u64(&cut, 0).unwrap(), (1 << 63, 10));
    let e = leb128_u64(&[0x80; 10], 0).unwrap_err();
    assert_eq!((e.kind, e.offset), (ErrorKind::IntegerOverflow, 0));
    let e = leb128_u64(&[0x80; 9], 0).unwrap_err();
    assert_eq!((e.kind, e.offset), (ErrorKind::Truncated, 9));
}

#[test]
fn varint_in_full_agrees_with_the_cut_readers() {
    let samples: [&[u8]; 6] = [
        &[0x00],
        &[0xE5, 0x8E, 0x26],
        &[0xFF, 0xFF, 0xFF, 0xFF, 0x0F],
        &[0x80, 0x80],
        &[0xFF, 0xFF, 0xFF, 0xFF, 0xFF, 0xFF, 0xFF, 0xFF, 0xFF, 0x01],
        &[0x80, 0x80, 0x80, 0x80, 0x80, 0x80, 0x80, 0x80, 0x80, 0x80],
    ];
    for s in samples {
        match (varint_wide(s, 0, 10, false), leb128_u64(s, 0)) {
            (Ok((wide, a)), Ok((cut, b))) => {
                assert_eq!(wide as u64, cut);
                assert_eq!(a, b);
            }
            (Err(x), Err(y)) => assert_eq!((x.kind, x.offset), (y.kind, y.offset)),
            _ => panic!(),
        }
    }
    assert_eq!(varint_wide(&[0xFF, 0xFF, 0xFF, 0x7F], 0, 4, false).unwrap(), ((1 << 28) - 1, 4));
    let e = varint_wide(&[0xFF, 0xFF, 0xFF, 0xFF, 0x00], 0, 4, false).unwrap_err();
    assert_eq!(e.kind, ErrorKind::IntegerOverflow);
    let full = [0xFF, 0xFF, 0xFF, 0xFF, 0xFF, 0xFF, 0xFF, 0xFF, 0xFF, 0x7F];
    assert_eq!(varint_wide(&full, 0, 10, false).unwrap(), ((1u128 << 70) - 1, 10));
}

#[test]
fn varint_with_the_last_byte_marked() {
    assert_eq!(varint_wide(&[0x80], 0, 10, true).unwrap(), (0, 1));
    assert_eq!(varint_wide(&[0x65, 0x0E, 0xA6], 0, 10, true).unwrap(), (624485, 3));
    assert_eq!(varint_wide(&[0x65, 0x0E, 0xA6], 0, 3, true).unwrap(), (624485, 3));
    let e = varint_wide(&[0x65, 0x0E, 0xA6], 0, 2, true).unwrap_err();
    assert_eq!((e.kind, e.offset), (ErrorKind::IntegerOverflow, 0));
    let e = varint_wide(&[0x65, 0x0E], 0, 10, true).unwrap_err();
    assert_eq!((e.kind, e.offset), (ErrorKind::Truncated, 2));
    assert_eq!(varint_wide(&[0x65, 0x0E, 0xA6], 0, 10, false).unwrap(), (0x65, 1));
    let e = varint_wide(&[0xE5, 0x8E, 0xA6], 0, 10, false).unwrap_err();
    assert_eq!((e.kind, e.offset), (ErrorKind::Truncated, 3));
}

#[test]
fn sized_integers() {
    let input = [0x12u8, 0x34, 0x56, 0x78, 0x9A, 0xBC, 0xDE, 0xF0];
    assert_eq!(sized(&input, 0, 1, Endianness::Big).unwrap(), (0x12, 1));
    assert_eq!(sized(&input, 0, 2, Endianness::Big).unwrap(), (0x1234, 2));
    assert_eq!(sized(&input, 0, 4, Endianness::Big).unwrap(), (0x1234_5678, 4));
    assert_eq!(sized(&input, 0, 8, Endianness::Big).unwrap(), (0x1234_5678_9ABC_DEF0, 8));
    assert_eq!(sized(&input, 0, 8, Endianness::Little).unwrap(), (0xF0DE_BC9A_7856_3412, 8));
    for w in [0u8, 3, 5, 6, 7, 9, 16, 255] {
        let e = sized(&input, 2, w, Endianness::Big).unwrap_err();
        assert_eq!((e.kind, e.offset), (ErrorKind::UnsupportedWidth, 2));
    }
}

#[test]
fn int_and_size_follow_the_header() {
    let input = [0x01u8, 0x02, 0x03, 0x04, 0x05];
    let h = header(2, 4, 8, false, false);
    assert_eq!(lua_int(&h, &input, 0).unwrap(), (0x0201, 2));
    assert_eq!(lua_size_t(&h, &input, 1).unwrap(), (0x0504_0302, 5));
    let e = lua_int(&h, &input, 4).unwrap_err();
    assert_eq!((e.kind, e.offset), (ErrorKind::Truncated, 4));
    assert_eq!(e.context.len(), 1);
    assert_eq!(e.context[0].label(), "integer");
    let e = lua_size_t(&h, &input, 2).unwrap_err();
    assert_eq!(e.context[0].label(), "size_t");
    let h = header(3, 4, 8, false, true);
    let e = lua_int(&h, &input, 0).unwrap_err();
    assert_eq!((e.kind, e.offset), (ErrorKind::UnsupportedWidth, 0));
}

#[test]
fn integral_numbers_have_the_declared_width() {
    let input = [0xFEu8, 0xFF, 0xFF, 0xFF, 0xFF, 0xFF, 0xFF, 0xFF];
    let cases = [(1u8, -2i64, 1usize), (2, -2, 2), (4, -2, 4), (8, -2, 8)];
    for (width, value, used) in cases {
        let h = header(4, 4, width, true, false);
        assert_eq!(lua_number(&h, &input, 0).unwrap(), (LuaNumber::Integer(value), used));
    }
    let h = header(4, 4, 2, true, true);
    assert_eq!(lua_number(&h, &[0x7F, 0xFF], 0).unwrap(), (LuaNumber::Integer(32767), 2));
    assert_eq!(lua_number(&h, &[0x80, 0x00], 0).unwrap(), (LuaNumber::Integer(-32768), 2));
    let h = header(4, 4, 3, true, false);
    let e = lua_number(&h, &input, 0).unwrap_err();
    assert_eq!((e.kind, e.offset), (ErrorKind::UnsupportedWidth, 0));
    assert_eq!(e.context[0].label(), "number");
}

#[test]
fn floating_numbers_are_doubles_or_singles() {
    let h = header(4, 4, 8, false, false);
    let d = (-1234.5f64).to_le_bytes();
    assert_eq!(
        lua_number(&h, &d, 0).unwrap(),
        (LuaNumber::Float((-1234.5f64).to_bits()), 8)
    );
    let h = header(4, 4, 4, false, true);
    let s = 0.15625f32.to_be_bytes();
    assert_eq!(lua_number(&h, &s, 0).unwrap(), (LuaNumber::Float(0.15625f64.to_bits()), 4));
    for w in [1u8, 2, 3, 16] {
        let h = header(4, 4, w, false, false);
        let e = lua_number(&h, &d, 0).unwrap_err();
        assert_eq!((e.kind, e.offset), (ErrorKind::UnsupportedWidth, 0));
    }
    let h = header(4, 4, 8, false, false);
    let e = lua_number(&h, &d[..7], 0).unwrap_err();
    assert_eq!((e.kind, e.offset), (ErrorKind::Truncated, 0));
}

#[test]
fn signed_values() {
    assert_eq!(to_signed(0x7F, 1), 127);
    assert_eq!(to_signed(0x80, 1), -128);
    assert_eq!(to_signed(0xFF, 1), -1);
    assert_eq!(to_signed(0x8000, 2), -32768);
    assert_eq!(to_signed(0xFFFF_FF6A, 4), -150);
    assert_eq!(to_signed(0x7FFF_FFFF, 4), i32::MAX as i64);
    assert_eq!(to_signed(u64::MAX, 8), -1);
    assert_eq!(to_signed(1 << 63, 8), i64::MIN);
    assert_eq!(to_signed((1 << 63) - 1, 8), i64::MAX);
}

#[test]
fn widening_keeps_the_value() {
    let values = [
        0.0f32,
        -0.0,
        1.0,
        -1.0,
        0.1,
        3.1415927,
        1337.0,
        f32::MAX,
        f32::MIN,
        f32::MIN_POSITIVE,
        f32::EPSILON,
        1.0e-40,
        -1.0e-45,
        f32::from_bits(1),
        f32::from_bits(0x007F_FFFF),
        f32::from_bits(0x0040_0000),
        f32::INFINITY,
        f32::NEG_INFINITY,
    ];
    for v in values {
        assert_eq!(widen(v.to_bits()), (v as f64).to_bits(), "{:e}", v);
    }
    let mut bits: u32 = 0x9E37_79B9;
    for _ in 0..20000 {
        bits ^= bits << 13;
        bits ^= bits >> 17;
        bits ^= bits << 5;
        let v = f32::from_bits(bits);
        if !v.is_nan() {
            assert_eq!(widen(bits), (v as f64).to_bits(), "{:#x}", bits);
        }
    }
    for frac in [1u32, 2, 3, 0x1234, 0x7F_FFFF, 0x40_0000, 0x3F_FFFF] {
        let v = f32::from_bits(frac);
        assert_eq!(widen(frac), (v as f64).to_bits());
        let v = f32::from_bits(frac | 0x8000_0000);
        assert_eq!(widen(frac | 0x8000_0000), (v as f64).to_bits());
    }
}

#[test]
fn widening_a_nan_gives_a_quiet_nan_with_its_payload() {
    assert_eq!(widen(0x7FC0_0000), 0x7FF8_0000_0000_0000);
    assert_eq!(widen(0xFFC0_0000), 0xFFF8_0000_0000_0000);
    assert_eq!(widen(0x7F80_0001), 0x7FF8_0000_2000_0000);
    assert_eq!(widen(0x7FFF_FFFF), 0x7FFF_FFFF_E000_0000);
    assert!(f64::from_bits(widen(0x7F80_0001)).is_nan());
    assert_eq!(widen(0x3F80_0000), 0x3FF0_0000_0000_0000);
    assert_eq!(widen(0x0000_0001), 0x36A0_0000_0000_0000);
}
