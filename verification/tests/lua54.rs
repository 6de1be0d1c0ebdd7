use luac_parser::lua54::{
    load_size, load_string, load_unsigned, load_upvalue, lua_chunk, lua_int, lua_local,
};
use luac_parser::{parse, ErrorKind, LuaConstant, LuaHeader, LuaNumber};

fn header() -> Vec<u8> {
    let mut out = vec![0x1B, b'L', b'u', b'a', 0x54, 0];
    out.extend_from_slice(&[0x19, 0x93, b'\r', b'\n', 0x1A, b'\n']);
    out.extend_from_slice(&[4, 8, 8]);
    out.extend_from_slice(&0x5678i64.to_le_bytes());
    out.extend_from_slice(&370.5f64.to_le_bytes());
    out.push(1);
    out
}

fn unsigned(mut v: u64) -> Vec<u8> {
    let mut out = Vec::new();
    loop {
        let b = (v & 0x7f) as u8;
        v >>= 7;
        if v == 0 {
            out.push(b);
            return out;
        }
        out.push(b | 0x80);
    }
}

fn string(s: &[u8]) -> Vec<u8> {
    let mut out = unsigned(s.len() as u64 + 1);
    out.extend_from_slice(s);
    out
}

fn chunk(name: &[u8], constants: &[Vec<u8>], prototypes: &[Vec<u8>]) -> Vec<u8> {
    let mut out = string(name);
    out.extend(unsigned(300));
    out.extend(unsigned(301));
    out.extend_from_slice(&[1, 2, 8]);
    out.extend(unsigned(2));
    out.extend_from_slice(&0x0000_0051u32.to_le_bytes());
    out.extend_from_slice(&0x0080_0046u32.to_le_bytes());
    out.extend(unsigned(constants.len() as u64));
    for c in constants {
        out.extend_from_slice(c);
    }
    out.extend(unsigned(1));
    out.extend_from_slice(&[1, 0, 2]);
    out.extend(unsigned(prototypes.len() as u64));
    for p in prototypes {
        out.extend_from_slice(p);
    }
    out.extend(unsigned(2));
    out.extend_from_slice(&[1, 0xFF]);
    out.extend(unsigned(1));
    out.extend(unsigned(0));
    out.extend(unsigned(300));
    out.extend(unsigned(1));
    out.extend(string(b"n"));
    out.extend(unsigned(1));
    out.extend(unsigned(200));
    out.extend(unsigned(1));
    out.extend(string(b"_ENV"));
    out
}

fn file(constants: &[Vec<u8>], prototypes: &[Vec<u8>]) -> Vec<u8> {
    let mut out = header();
    out.extend(chunk(b"=stdin", constants, prototypes));
    out
}

#[test]
fn lua54_unsigned_values() {
    assert_eq!(load_unsigned(&[0x00], 0, u64::MAX).unwrap(), (0, 1));
    assert_eq!(load_unsigned(&[0x7F], 0, u64::MAX).unwrap(), (127, 1));
    assert_eq!(load_unsigned(&[0x80, 0x01], 0, u64::MAX).unwrap(), (128, 2));
    assert_eq!(load_unsigned(&[0xAC, 0x02], 0, u64::MAX).unwrap(), (300, 2));
    assert_eq!(load_unsigned(&[9, 0xAC, 0x02, 9], 1, u64::MAX).unwrap(), (300, 3));
    assert_eq!(unsigned(300), vec![0xAC, 0x02]);
    let max = unsigned(u64::MAX);
    assert_eq!(max.len(), 10);
    assert_eq!(load_size(&max, 0).unwrap(), (u64::MAX, 10));
    let padded = [0x81, 0x80, 0x80, 0x00];
    assert_eq!(load_size(&padded, 0).unwrap(), (1, 4));
}

#[test]
fn lua54_unsigned_ceiling() {
    let limit = 0x7fff_ffffu64;
    let ok = unsigned(limit);
    assert_eq!(lua_int(&ok, 0).unwrap(), (limit, 5));
    let over = unsigned(limit + 1);
    let e = lua_int(&over, 0).unwrap_err();
    assert_eq!(e.kind, ErrorKind::IntegerOverflow);
    assert_eq!(e.offset, 0);
    assert_eq!(load_unsigned(&[0x80, 0x01], 0, 128).unwrap(), (128, 2));
    let e = load_unsigned(&[7, 0x80, 0x01], 1, 127).unwrap_err();
    assert_eq!(e.kind, ErrorKind::IntegerOverflow);
    assert_eq!(e.offset, 1);
    let beyond = [0xFF, 0xFF, 0xFF, 0xFF, 0xFF, 0xFF, 0xFF, 0xFF, 0xFF, 0x02];
    let e = load_size(&beyond, 0).unwrap_err();
    assert_eq!(e.kind, ErrorKind::IntegerOverflow);
    let endless = [0x80u8; 10];
    let e = load_size(&endless, 0).unwrap_err();
    assert_eq!(e.kind, ErrorKind::IntegerOverflow);
    assert_eq!(e.offset, 0);
    let e = load_unsigned(&[0x81, 0x82], 0, u64::MAX).unwrap_err();
    assert_eq!(e.kind, ErrorKind::Truncated);
    assert_eq!(e.offset, 2);
}

#[test]
fn lua54_string_and_upvalue() {
    assert_eq!(load_string(&[0x00], 0).unwrap(), (vec![], 1));
    assert_eq!(load_string(&[0x01], 0).unwrap(), (vec![], 1));
    assert_eq!(load_string(&[0x03, b'o', b'k'], 0).unwrap(), (b"ok".to_vec(), 3));
    let e = load_string(&[0x03, b'o'], 0).unwrap_err();
    assert_eq!(e.kind, ErrorKind::Truncated);
    assert_eq!(e.offset, 1);
    assert_eq!(e.context.len(), 1);
    assert_eq!(e.context[0].label(), "string");
    let (u, next) = load_upvalue(&[1, 4, 2], 0).unwrap();
    assert!(u.on_stack);
    assert_eq!(u.id, 4);
    assert_eq!(u.kind, 2);
    assert_eq!(next, 3);
    let h = LuaHeader::default();
    let (l, next) = lua_local(&h, &[0x02, b'k', 0x03, 0x80, 0x01], 0).unwrap();
    assert_eq!(l.name, "k");
    assert_eq!(l.start_pc, 3);
    assert_eq!(l.end_pc, 128);
    assert_eq!(next, 5);
}

#[test]
fn lua54_constants() {
    let mut float = vec![0x13u8];
    float.extend_from_slice(&6.25f64.to_le_bytes());
    let mut integer = vec![0x03u8];
    integer.extend_from_slice(&i64::MIN.to_le_bytes());
    let mut short = vec![0x04u8];
    short.extend(string(b"s"));
    let mut long = vec![0x14u8];
    long.extend(string(&[b'L'; 200]));
    let input = file(&[vec![0], vec![1], vec![0x11], float, integer, short, long], &[]);
    let parsed = parse(&input).unwrap();
    let k = &parsed.main_chunk.constants;
    assert!(matches!(k[0], LuaConstant::Null));
    assert!(matches!(k[1], LuaConstant::Bool(false)));
    assert!(matches!(k[2], LuaConstant::Bool(true)));
    match &k[3] {
        LuaConstant::Number(LuaNumber::Float(bits)) => assert_eq!(f64::from_bits(*bits), 6.25),
        _ => panic!(),
    }
    assert!(matches!(k[4], LuaConstant::Number(LuaNumber::Integer(i64::MIN))));
    match &k[5] {
        LuaConstant::String(s) => assert_eq!(s.as_slice(), b"s"),
        _ => panic!(),
    }
    match &k[6] {
        LuaConstant::String(s) => assert_eq!(s, &vec![b'L'; 200]),
        _ => panic!(),
    }
}

#[test]
fn lua54_chunk_fields() {
    let input = file(&[], &[chunk(b"", &[], &[])]);
    let parsed = parse(&input).unwrap();
    let main = &parsed.main_chunk;
    assert_eq!(main.name, b"=stdin".to_vec());
    assert_eq!(main.line_defined, 300);
    assert_eq!(main.last_line_defined, 301);
    assert_eq!(main.num_params, 1);
    let vararg = main.is_vararg.unwrap();
    assert!(!vararg.has_arg);
    assert!(!vararg.needs_arg);
    assert_eq!(main.max_stack, 8);
    assert_eq!(main.instructions, vec![0x51, 0x0080_0046]);
    assert_eq!(main.num_upvalues, 1);
    assert!(main.upvalue_infos[0].on_stack);
    assert_eq!(main.upvalue_infos[0].id, 0);
    assert_eq!(main.upvalue_infos[0].kind, 2);
    assert_eq!(main.source_lines, vec![(0, 300)]);
    assert_eq!(main.locals[0].name, "n");
    assert_eq!(main.locals[0].start_pc, 1);
    assert_eq!(main.locals[0].end_pc, 200);
    assert_eq!(main.upvalue_names, vec![b"_ENV".to_vec()]);
    assert_eq!(main.prototypes.len(), 1);
    let h = parsed.header;
    let (again, used) = lua_chunk(&h, &input, header().len(), 2).unwrap();
    assert_eq!(used, input.len());
    assert_eq!(again.instructions, main.instructions);
}

#[test]
fn lua54_error_in_chunk_header() {
    let mut input = header();
    input.extend_from_slice(&[0x03, b'a']);
    let e = parse(&input).unwrap_err();
    assert_eq!(e.kind, ErrorKind::Truncated);
    let labels: Vec<&str> = e.context.iter().map(|c| c.label()).collect();
    assert_eq!(labels, vec!["string", "chunk header"]);
}
