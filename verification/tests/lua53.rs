use luac_parser::lua53::{load_string, lua_chunk, lua_local, lua_main_chunk};
use luac_parser::{parse, ErrorKind, LuaConstant, LuaHeader, LuaNumber};

fn header() -> Vec<u8> {
    let mut out = vec![0x1B, b'L', b'u', b'a', 0x53, 0];
    out.extend_from_slice(&[0x19, 0x93, b'\r', b'\n', 0x1A, b'\n']);
    out.extend_from_slice(&[4, 8, 4, 8, 8]);
    out.extend_from_slice(&0x5678i64.to_le_bytes());
    out.extend_from_slice(&370.5f64.to_le_bytes());
    out
}

fn word(v: u32) -> Vec<u8> {
    v.to_le_bytes().to_vec()
}

fn string(s: &[u8]) -> Vec<u8> {
    let mut out = Vec::new();
    if s.len() + 1 < 0xFF {
        out.push(s.len() as u8 + 1);
    } else {
        out.push(0xFF);
        out.extend_from_slice(&(s.len() as u64 + 1).to_le_bytes());
    }
    out.extend_from_slice(s);
    out
}

fn chunk(name: &[u8], constants: &[Vec<u8>], prototypes: &[Vec<u8>]) -> Vec<u8> {
    let mut out = string(name);
    out.extend(word(1));
    out.extend(word(9));
    out.extend_from_slice(&[0, 2, 4]);
    out.extend(word(1));
    out.extend(word(0x0080_0026));
    out.extend(word(constants.len() as u32));
    for c in constants {
        out.extend_from_slice(c);
    }
    out.extend(word(1));
    out.extend_from_slice(&[1, 0]);
    out.extend(word(prototypes.len() as u32));
    for p in prototypes {
        out.extend_from_slice(p);
    }
    out.extend(word(1));
    out.extend(word(3));
    out.extend(word(1));
    out.extend(string(b"v"));
    out.extend(word(2));
    out.extend(word(5));
    out.extend(word(1));
    out.extend(string(b"_ENV"));
    out
}

fn file(constants: &[Vec<u8>], prototypes: &[Vec<u8>]) -> Vec<u8> {
    let mut out = header();
    out.push(1);
    out.extend(chunk(b"@m.lua", constants, prototypes));
    out
}

#[test]
fn lua53_constants() {
    let long = vec![b'z'; 300];
    let mut long_constant = vec![0x14u8];
    long_constant.extend(string(&long));
    let mut short_constant = vec![4u8];
    short_constant.extend(string(b"short"));
    let mut float = vec![3u8];
    float.extend_from_slice(&(-0.5f64).to_le_bytes());
    let mut integer = vec![0x13u8];
    integer.extend_from_slice(&(-7i64).to_le_bytes());
    let input = file(
        &[
            vec![0],
            vec![1, 0],
            vec![1, 5],
            float,
            integer,
            short_constant,
            long_constant,
            vec![4, 0],
        ],
        &[],
    );
    let parsed = parse(&input).unwrap();
    let k = &parsed.main_chunk.constants;
    assert_eq!(k.len(), 8);
    assert!(matches!(k[0], LuaConstant::Null));
    assert!(matches!(k[1], LuaConstant::Bool(false)));
    assert!(matches!(k[2], LuaConstant::Bool(true)));
    match &k[3] {
        LuaConstant::Number(LuaNumber::Float(bits)) => assert_eq!(f64::from_bits(*bits), -0.5),
        _ => panic!(),
    }
    assert!(matches!(k[4], LuaConstant::Number(LuaNumber::Integer(-7))));
    match &k[5] {
        LuaConstant::String(s) => assert_eq!(s.as_slice(), b"short"),
        _ => panic!(),
    }
    match &k[6] {
        LuaConstant::String(s) => assert_eq!(s, &long),
        _ => panic!(),
    }
    match &k[7] {
        LuaConstant::String(s) => assert!(s.is_empty()),
        _ => panic!(),
    }
}

#[test]
fn lua53_chunk_fields() {
    let input = file(&[], &[chunk(b"", &[], &[])]);
    let parsed = parse(&input).unwrap();
    let main = &parsed.main_chunk;
    assert_eq!(main.name, b"@m.lua".to_vec());
    assert_eq!(main.line_defined, 1);
    assert_eq!(main.last_line_defined, 9);
    assert_eq!(main.num_params, 0);
    let vararg = main.is_vararg.unwrap();
    assert!(!vararg.has_arg);
    assert!(!vararg.needs_arg);
    assert_eq!(main.max_stack, 4);
    assert_eq!(main.instructions, vec![0x0080_0026]);
    assert_eq!(main.num_upvalues, 1);
    assert!(main.upvalue_infos[0].on_stack);
    assert_eq!(main.source_lines, vec![(3, 0)]);
    assert_eq!(main.locals[0].name, "v");
    assert_eq!(main.locals[0].start_pc, 2);
    assert_eq!(main.locals[0].end_pc, 5);
    assert_eq!(main.upvalue_names, vec![b"_ENV".to_vec()]);
    assert_eq!(main.prototypes.len(), 1);
    assert!(main.prototypes[0].name.is_empty());
}

#[test]
fn lua53_root_follows_one_byte() {
    let input = file(&[], &[]);
    let head = header().len();
    let h = parse(&input).unwrap().header;
    let (a, used_a) = lua_main_chunk(&h, &input, head, 4).unwrap();
    let (b, used_b) = lua_chunk(&h, &input, head + 1, 4).unwrap();
    assert_eq!(used_a, input.len());
    assert_eq!(used_b, input.len());
    assert_eq!(a.name, b.name);
    assert_eq!(a.instructions, b.instructions);
}

#[test]
fn lua53_string_forms() {
    let (s, next) = load_string(&[0], 0).unwrap();
    assert!(s.is_empty());
    assert_eq!(next, 1);
    let (s, next) = load_string(&[1], 0).unwrap();
    assert!(s.is_empty());
    assert_eq!(next, 1);
    let (s, next) = load_string(&[3, b'a', b'b', b'c'], 0).unwrap();
    assert_eq!(s, b"ab".to_vec());
    assert_eq!(next, 3);
    let mut long = vec![0xFF, 4, 0, 0, 0, 0, 0, 0, 0];
    long.extend_from_slice(b"xyz!");
    let (s, next) = load_string(&long, 0).unwrap();
    assert_eq!(s, b"xyz".to_vec());
    assert_eq!(next, 12);
    let (s, next) = load_string(&[0xFF, 0, 0, 0, 0, 0, 0, 0, 0, 9], 0).unwrap();
    assert!(s.is_empty());
    assert_eq!(next, 9);
    let e = load_string(&[0xFF, 4, 0, 0], 0).unwrap_err();
    assert_eq!(e.kind, ErrorKind::Truncated);
    assert_eq!(e.offset, 1);
    let e = load_string(&[5, b'a'], 0).unwrap_err();
    assert_eq!(e.kind, ErrorKind::Truncated);
    assert_eq!(e.offset, 1);
}

#[test]
fn lua53_local() {
    let h = LuaHeader {
        lua_version: 0x53,
        format_version: 0,
        big_endian: false,
        int_size: 1,
        size_t_size: 8,
        instruction_size: 4,
        number_size: 8,
        number_integral: false,
        stripped: false,
        has_ffi: false,
    };
    let (l, next) = lua_local(&h, &[3, 0xC3, 0x28, 4, 6], 0).unwrap();
    assert_eq!(l.name, "\u{FFFD}(");
    assert_eq!(l.start_pc, 4);
    assert_eq!(l.end_pc, 6);
    assert_eq!(next, 5);
}

#[test]
fn lua53_unknown_constant_tag() {
    let input = file(&[vec![2]], &[]);
    let e = parse(&input).unwrap_err();
    assert_eq!(e.kind, ErrorKind::UnknownConstantTag);
    let tag_at = header().len() + 1 + 7 + 4 + 4 + 3 + 4 + 4 + 4;
    assert_eq!(e.offset, tag_at);
}
