use luac_parser::header::lua_header;
use luac_parser::luajit::lj_header;
use luac_parser::{
    lua_bytecode, parse, sniff, Endianness, ErrorKind, LuaHeader, LUA51, LUA52, LUA53, LUA54,
    LUAJ1, LUAJ2,
};

fn header51() -> Vec<u8> {
    vec![0x1B, b'L', b'u', b'a', 0x51, 0, 1, 4, 8, 4, 8, 0]
}

fn header52() -> Vec<u8> {
    let mut out = vec![0x1B, b'L', b'u', b'a', 0x52, 0, 0, 4, 4, 4, 4, 1];
    out.extend_from_slice(&[0x19, 0x93, b'\r', b'\n', 0x1A, b'\n']);
    out
}

fn header53(integer: u8, number: u8) -> Vec<u8> {
    let mut out = vec![0x1B, b'L', b'u', b'a', 0x53, 0];
    out.extend_from_slice(&[0x19, 0x93, b'\r', b'\n', 0x1A, b'\n']);
    out.extend_from_slice(&[4, 8, 4, integer, number]);
    out.extend_from_slice(&0x5678u64.to_le_bytes()[..integer as usize]);
    out.extend_from_slice(&370.5f64.to_le_bytes()[..number as usize]);
    out
}

fn header54() -> Vec<u8> {
    let mut out = vec![0x1B, b'L', b'u', b'a', 0x54, 0];
    out.extend_from_slice(&[0x19, 0x93, b'\r', b'\n', 0x1A, b'\n']);
    out.extend_from_slice(&[4, 8, 8]);
    out.extend_from_slice(&0x5678i64.to_le_bytes());
    out.extend_from_slice(&370.5f64.to_le_bytes());
    out.push(1);
    out
}

fn supported(w: u8) -> bool {
    w == 1 || w == 2 || w == 4 || w == 8
}

#[test]
fn header_of_each_dialect() {
    let (h, next) = sniff(&header51(), 0).unwrap();
    assert_eq!(next, 12);
    assert_eq!(
        h,
        LuaHeader {
            lua_version: LUA51,
            format_version: 0,
            big_endian: false,
            int_size: 4,
            size_t_size: 8,
            instruction_size: 4,
            number_size: 8,
            number_integral: false,
            stripped: false,
            has_ffi: false,
        }
    );
    assert_eq!(h.endian(), Endianness::Little);

    let (h, next) = sniff(&header52(), 0).unwrap();
    assert_eq!(next, 18);
    assert_eq!(
        h,
        LuaHeader {
            lua_version: LUA52,
            format_version: 0,
            big_endian: true,
            int_size: 4,
            size_t_size: 4,
            instruction_size: 4,
            number_size: 4,
            number_integral: true,
            stripped: false,
            has_ffi: false,
        }
    );
    assert_eq!(h.endian(), Endianness::Big);

    let (h, next) = sniff(&header53(8, 8), 0).unwrap();
    assert_eq!(next, 33);
    assert_eq!(
        h,
        LuaHeader {
            lua_version: LUA53,
            format_version: 0,
            big_endian: false,
            int_size: 4,
            size_t_size: 8,
            instruction_size: 4,
            number_size: 8,
            number_integral: false,
            stripped: false,
            has_ffi: false,
        }
    );

    let (h, next) = sniff(&header54(), 0).unwrap();
    assert_eq!(next, 32);
    assert_eq!(
        h,
        LuaHeader {
            lua_version: LUA54,
            format_version: 0,
            big_endian: false,
            int_size: 4,
            size_t_size: 8,
            instruction_size: 4,
            number_size: 8,
            number_integral: false,
            stripped: false,
            has_ffi: false,
        }
    );

    let (h, next) = sniff(&[0x1B, b'L', b'J', 1, 0x01], 0).unwrap();
    assert_eq!(next, 5);
    assert_eq!(
        h,
        LuaHeader {
            lua_version: LUAJ1,
            format_version: 0,
            big_endian: true,
            int_size: 4,
            size_t_size: 4,
            instruction_size: 4,
            number_size: 4,
            number_integral: false,
            stripped: false,
            has_ffi: false,
        }
    );

    let (h, _) = sniff(&[0x1B, b'L', b'J', 2, 0x06], 0).unwrap();
    assert_eq!(h.lua_version, LUAJ2);
    assert!(!h.big_endian && h.stripped && h.has_ffi);
}

#[test]
fn header_53_samples_have_the_declared_widths() {
    let narrow = header53(4, 4);
    let (h, next) = sniff(&narrow, 0).unwrap();
    assert_eq!(next, 17 + 4 + 4);
    assert_eq!(h.number_size, 4);
    let (h, next) = lua_header(&header53(2, 8), 0).unwrap();
    assert_eq!(next, 17 + 2 + 8);
    assert_eq!(h.number_size, 8);
}

#[test]
fn header_widths_are_one_two_four_or_eight() {
    for w in 0..=255u8 {
        let mut input = header51();
        input[7] = w;
        match sniff(&input, 0) {
            Ok((h, _)) => {
                assert!(supported(w));
                assert!(supported(h.int_size));
                assert!(supported(h.size_t_size));
                assert!(supported(h.instruction_size));
                assert!(supported(h.number_size));
            }
            Err(e) => {
                assert!(!supported(w));
                assert_eq!(e.kind, ErrorKind::UnsupportedWidth);
                assert_eq!(e.offset, 7);
            }
        }
    }
    let mut input = header51();
    input[8] = 3;
    input[10] = 0;
    let e = sniff(&input, 0).unwrap_err();
    assert_eq!((e.kind, e.offset), (ErrorKind::UnsupportedWidth, 8));
    let mut input = header51();
    input[9] = 16;
    let e = sniff(&input, 0).unwrap_err();
    assert_eq!((e.kind, e.offset), (ErrorKind::UnsupportedWidth, 9));
    let mut input = header51();
    input[10] = 5;
    let e = sniff(&input, 0).unwrap_err();
    assert_eq!((e.kind, e.offset), (ErrorKind::UnsupportedWidth, 10));
    let mut input = header53(8, 8);
    input[15] = 3;
    let e = sniff(&input, 0).unwrap_err();
    assert_eq!((e.kind, e.offset), (ErrorKind::UnsupportedWidth, 15));
    let mut input = header54();
    input[13] = 0;
    let e = sniff(&input, 0).unwrap_err();
    assert_eq!((e.kind, e.offset), (ErrorKind::UnsupportedWidth, 13));
}

#[test]
fn header_unknown_signature_or_version() {
    let e = parse(b"hello world").unwrap_err();
    assert_eq!((e.kind, e.offset), (ErrorKind::UnrecognizedDialect, 0));
    let e = parse(&[0x1B, b'X']).unwrap_err();
    assert_eq!((e.kind, e.offset), (ErrorKind::UnrecognizedDialect, 1));
    let e = parse(&[0x1B, b'L', b'x', b'a']).unwrap_err();
    assert_eq!((e.kind, e.offset), (ErrorKind::UnrecognizedDialect, 2));
    let e = parse(&[0x1B, b'L', b'u', b'b', 0x51]).unwrap_err();
    assert_eq!((e.kind, e.offset), (ErrorKind::UnrecognizedDialect, 3));
    let e = parse(&[0x1B, b'L', b'u', b'a', 0x50, 0, 0]).unwrap_err();
    assert_eq!((e.kind, e.offset), (ErrorKind::UnrecognizedDialect, 4));
    let e = parse(&[0x1B, b'L', b'u', b'a', 0x55, 0, 0]).unwrap_err();
    assert_eq!((e.kind, e.offset), (ErrorKind::UnrecognizedDialect, 4));
    let e = parse(&[0x1B, b'L', b'J', 0, 0]).unwrap_err();
    assert_eq!((e.kind, e.offset), (ErrorKind::UnrecognizedDialect, 3));
    let e = lua_header(&[0x1B, b'L', b'J', 2, 0], 0).unwrap_err();
    assert_eq!((e.kind, e.offset), (ErrorKind::UnrecognizedDialect, 2));
    let e = lj_header(&header51(), 0).unwrap_err();
    assert_eq!((e.kind, e.offset), (ErrorKind::UnrecognizedDialect, 2));
}

#[test]
fn header_cut_short_is_truncated() {
    for sample in [header51(), header52(), header53(8, 8), header53(1, 4), header54()] {
        for k in 0..sample.len() {
            let e = sniff(&sample[..k], 0).unwrap_err();
            assert_eq!(e.kind, ErrorKind::Truncated, "cut at {}", k);
            assert!(e.offset <= k);
        }
        assert!(sniff(&sample, 0).is_ok());
    }
    assert_eq!(parse(&[]).unwrap_err().kind, ErrorKind::Truncated);
}

#[test]
fn header_at_an_offset() {
    let mut input = vec![0xAA, 0xBB];
    input.extend(header52());
    let (h, next) = sniff(&input, 2).unwrap();
    assert_eq!(h.lua_version, LUA52);
    assert_eq!(next, 20);
}

#[test]
fn dispatcher_has_no_decoder_for_other_versions() {
    let h = LuaHeader {
        lua_version: 0x99,
        format_version: 0,
        big_endian: false,
        int_size: 4,
        size_t_size: 4,
        instruction_size: 4,
        number_size: 8,
        number_integral: false,
        stripped: false,
        has_ffi: false,
    };
    let e = luac_parser::root(&h, &[1, 2, 3], 1, 5).unwrap_err();
    assert_eq!((e.kind, e.offset), (ErrorKind::UnsupportedDialect, 1));
    assert!(lua_bytecode(&[0x1B, b'L', b'J', 2, 2, 0], 5).is_err());
}

#[test]
fn default_header_is_all_zero() {
    let h = LuaHeader::default();
    assert_eq!(h.lua_version, 0);
    assert!(!h.big_endian && !h.number_integral && !h.stripped && !h.has_ffi);
    assert_eq!((h.int_size, h.size_t_size, h.instruction_size, h.number_size), (0, 0, 0, 0));
    let copy = h;
    assert_eq!(copy, h);
}
