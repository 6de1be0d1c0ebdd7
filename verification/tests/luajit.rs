use luac_parser::luajit::{
    lj_chunk, lj_complex_constant, lj_header, lj_tab, lj_tabk, uleb128_33, ProtoFlags, HAS_CHILD,
    HAS_FFI, IS_VARIADIC, JIT_DISABLED,
};
use luac_parser::{parse, Endianness, ErrorKind, LuaChunk, LuaConstant, LuaNumber};

fn uleb(mut v: u64) -> Vec<u8> {
    let mut out = Vec::new();
    loop {
        let b = (v & 0x7f) as u8;
        v >>= 7;
        if v == 0 {
            out.push(b);
            return out;
        }
        out.push(b | 0x80);
    }
}

fn uleb_33(v: u32, is_num: bool) -> Vec<u8> {
    let low = ((v & 0x3f) << 1) as u8 | is_num as u8;
    let rest = v >> 6;
    if rest == 0 {
        vec![low]
    } else {
        let mut out = vec![low | 0x80];
        out.extend(uleb(rest as u64));
        out
    }
}

fn int_constant(v: i32) -> Vec<u8> {
    uleb_33(v as u32, false)
}

fn num_constant(v: f64) -> Vec<u8> {
    let bits = v.to_bits();
    let mut out = uleb_33(bits as u32, true);
    out.extend(uleb(bits >> 32));
    out
}

fn string_constant(s: &[u8]) -> Vec<u8> {
    let mut out = uleb(5 + s.len() as u64);
    out.extend_from_slice(s);
    out
}

fn proto(flags: u8, kgc: &[Vec<u8>], kn: &[Vec<u8>], debug: Option<(u64, u64)>) -> Vec<u8> {
    let mut body = vec![flags, 1, 3, 1];
    body.extend(uleb(kgc.len() as u64));
    body.extend(uleb(kn.len() as u64));
    body.extend(uleb(2));
    if let Some((first, lines)) = debug {
        body.extend(uleb(3));
        body.extend(uleb(first));
        body.extend(uleb(lines));
    }
    body.extend_from_slice(&[0x12, 0x00, 0x01, 0x00]);
    body.extend_from_slice(&[0x4B, 0x00, 0x01, 0x00]);
    body.extend_from_slice(&[0x05, 0x80]);
    for c in kgc {
        body.extend_from_slice(c);
    }
    for c in kn {
        body.extend_from_slice(c);
    }
    if debug.is_some() {
        body.extend_from_slice(&[1, 2, 3]);
    }
    let mut out = uleb(body.len() as u64);
    out.extend(body);
    out
}

fn stripped(protos: &[Vec<u8>]) -> Vec<u8> {
    let mut out = vec![0x1B, b'L', b'J', 2, 0x02];
    for p in protos {
        out.extend_from_slice(p);
    }
    out.push(0);
    out
}

fn float_file() -> Vec<u8> {
    stripped(&[proto(
        0,
        &[],
        &[
            int_constant(36100),
            int_constant(40000),
            num_constant(111122223333.0),
            num_constant(111122223333.4444),
            int_constant(-150),
            num_constant(0xFFFFFFFF123u64 as i64 as f64),
        ],
        None,
    )])
}

fn string_file() -> Vec<u8> {
    stripped(&[proto(
        0,
        &[string_constant(&[b'A'; 766]), string_constant(b"print")],
        &[],
        None,
    )])
}

#[test]
fn luajit_test() {
    let float_bc = parse(&float_file()).unwrap();

    assert_eq!(float_bc.main_chunk.num_constants[0], LuaNumber::Integer(36100));
    assert_eq!(float_bc.main_chunk.num_constants[1], LuaNumber::Integer(40000));
    assert_eq!(
        float_bc.main_chunk.num_constants[2],
        LuaNumber::Float(111122223333.0f64.to_bits())
    );
    assert_eq!(
        float_bc.main_chunk.num_constants[3],
        LuaNumber::Float(111122223333.4444f64.to_bits())
    );
    assert_eq!(float_bc.main_chunk.num_constants[4], LuaNumber::Integer(-150));
    assert_eq!(
        float_bc.main_chunk.num_constants[5],
        LuaNumber::Float((0xFFFFFFFF123u64 as i64 as f64).to_bits())
    );

    let string_bc = parse(&string_file()).unwrap();
    match &string_bc.main_chunk.constants[1] {
        LuaConstant::String(bytes) => {
            if let Ok(string) = String::from_utf8(bytes.to_vec()) {
                assert_eq!(string, "A".repeat(766));
            } else {
                panic!()
            }
        }
        _ => {
            panic!()
        }
    }
}

#[test]
fn luajit_long_string_tag_is_length_plus_five() {
    let file = string_file();
    assert_eq!(&file[24..26], &[0x83, 0x06]);
    let parsed = parse(&file).unwrap();
    let k = &parsed.main_chunk.constants;
    assert_eq!(k.len(), 2);
    match &k[0] {
        LuaConstant::String(s) => assert_eq!(s.as_slice(), b"print"),
        _ => panic!(),
    }
    match &k[1] {
        LuaConstant::String(s) => {
            assert_eq!(s.len(), 766);
            assert!(s.iter().all(|b| *b == b'A'));
        }
        _ => panic!(),
    }
}

#[test]
fn luajit_uleb128_33_values() {
    assert_eq!(uleb128_33(&[0x00], 0).unwrap(), (0, 1));
    assert_eq!(uleb128_33(&[0x7E], 0).unwrap(), (63, 1));
    assert_eq!(uleb128_33(&[0x7F], 0).unwrap(), (63, 1));
    assert_eq!(uleb128_33(&[0x80, 0x01], 0).unwrap(), (64, 2));
    assert_eq!(uleb128_33(&uleb_33(36100, false), 0).unwrap().0, 36100);
    assert_eq!(uleb_33(36100, false), vec![0x88, 0xB4, 0x04]);
    let all = uleb_33(u32::MAX, true);
    assert_eq!(all.len(), 5);
    assert_eq!(uleb128_33(&all, 0).unwrap(), (u32::MAX, 5));
    let e = uleb128_33(&[0x88, 0xB4], 0).unwrap_err();
    assert_eq!(e.kind, ErrorKind::Truncated);
    assert_eq!(e.offset, 2);
    let e = uleb128_33(&[0x81, 0x80, 0x80, 0x80, 0x80, 0x01], 0).unwrap_err();
    assert_eq!(e.kind, ErrorKind::IntegerOverflow);
    assert_eq!(e.offset, 0);
    assert_eq!(uleb128_33(&[0x81, 0x80, 0x80, 0x80, 0x7F], 0).unwrap(), (0xF800_0000, 5));
}

#[test]
fn luajit_header_flags() {
    let (h, next) = lj_header(&[0x1B, b'L', b'J', 1, 0x07, 9], 0).unwrap();
    assert_eq!(next, 5);
    assert_eq!(h.lua_version, luac_parser::LUAJ1);
    assert!(h.big_endian);
    assert!(h.stripped);
    assert!(h.has_ffi);
    assert_eq!((h.int_size, h.size_t_size, h.instruction_size, h.number_size), (4, 4, 4, 4));
    let (h, _) = lj_header(&[0x1B, b'L', b'J', 2, 0x04], 0).unwrap();
    assert_eq!(h.lua_version, luac_parser::LUAJ2);
    assert!(!h.big_endian);
    assert!(!h.stripped);
    assert!(h.has_ffi);
    let e = lj_header(&[0x1B, b'L', b'J', 3, 0], 0).unwrap_err();
    assert_eq!(e.kind, ErrorKind::UnrecognizedDialect);
    assert_eq!(e.offset, 3);
    let e = lj_header(&[0x1B, b'L', b'J', 2], 0).unwrap_err();
    assert_eq!(e.kind, ErrorKind::Truncated);
    assert_eq!(e.offset, 4);
    assert_eq!(e.context[0].label(), "luajit2");
}

#[test]
fn luajit_named_file_with_debug_info() {
    let mut input = vec![0x1B, b'L', b'J', 1, 0x00];
    input.extend(uleb(5));
    input.extend_from_slice(b"@a.lu");
    input.extend(proto(IS_VARIADIC, &[], &[int_constant(5)], Some((10, 4))));
    input.push(0);
    input.extend_from_slice(&[0xEE]);
    let (file, used) = luac_parser::lua_bytecode(&input, 1).unwrap();
    assert_eq!(used, input.len() - 1);
    let main = file.main_chunk;
    assert_eq!(main.name, b"@a.lu".to_vec());
    assert_eq!(main.flags, IS_VARIADIC);
    assert_eq!(main.num_params, 1);
    assert_eq!(main.max_stack, 3);
    assert_eq!(main.num_upvalues, 1);
    assert_eq!(main.line_defined, 10);
    assert_eq!(main.last_line_defined, 14);
    assert_eq!(main.instructions, vec![0x0001_0012, 0x0001_004B]);
    assert_eq!(main.upvalue_infos.len(), 1);
    assert!(main.upvalue_infos[0].on_stack);
    assert_eq!(main.upvalue_infos[0].id, 5);
    assert_eq!(main.num_constants, vec![LuaNumber::Integer(5)]);
    assert!(main.is_vararg.is_none());
    let flags = main.flags();
    assert!(flags.contains(IS_VARIADIC));
    assert!(!flags.contains(HAS_CHILD));
    assert_eq!(flags.bits(), 2);
}

#[test]
fn luajit_children_are_attached_in_order_named() {
    let leaf_a = proto(0, &[string_constant(b"a")], &[], None);
    let leaf_b = proto(0, &[string_constant(b"b")], &[], None);
    let parent = proto(HAS_CHILD, &[uleb(0), string_constant(b"mid"), uleb(0)], &[], None);
    let file = stripped(&[leaf_a, leaf_b, parent]);
    let parsed = parse(&file).unwrap();
    let main = &parsed.main_chunk;
    assert_eq!(main.prototypes.len(), 2);
    match &main.prototypes[0].constants[0] {
        LuaConstant::String(s) => assert_eq!(s.as_slice(), b"b"),
        _ => panic!(),
    }
    match &main.prototypes[1].constants[0] {
        LuaConstant::String(s) => assert_eq!(s.as_slice(), b"a"),
        _ => panic!(),
    }
    assert!(matches!(main.constants[0], LuaConstant::Proto(1)));
    match &main.constants[1] {
        LuaConstant::String(s) => assert_eq!(s.as_slice(), b"mid"),
        _ => panic!(),
    }
    assert!(matches!(main.constants[2], LuaConstant::Proto(0)));
}

#[test]
fn luajit_stack_must_end_with_one_prototype() {
    let leaf = proto(0, &[], &[], None);
    let parent = proto(HAS_CHILD, &[uleb(0)], &[], None);
    let good = stripped(&[leaf.clone(), parent.clone()]);
    assert!(parse(&good).is_ok());

    let two = stripped(&[leaf.clone(), leaf.clone()]);
    let e = parse(&two).unwrap_err();
    assert_eq!(e.kind, ErrorKind::UnbalancedPrototypeStack);
    assert_eq!(e.offset, two.len());

    let none = stripped(&[]);
    let e = parse(&none).unwrap_err();
    assert_eq!(e.kind, ErrorKind::UnbalancedPrototypeStack);
    assert_eq!(e.offset, none.len());

    let orphan = stripped(&[parent]);
    let e = parse(&orphan).unwrap_err();
    assert_eq!(e.kind, ErrorKind::UnbalancedPrototypeStack);
    let labels: Vec<&str> = e.context.iter().map(|c| c.label()).collect();
    assert_eq!(labels, vec!["count complex_constant"]);
}

#[test]
fn luajit_corrupt_child_tag_unbalances_the_stack() {
    let leaf = proto(0, &[], &[], None);
    let parent = proto(HAS_CHILD, &[uleb(0), string_constant(b"")], &[], None);
    let good = stripped(&[leaf, parent]);
    assert!(parse(&good).is_ok());
    let tag_at = good.len() - 1 - 2;
    assert_eq!(good[tag_at], 0);
    let mut bad = good.clone();
    bad[tag_at] = 5;
    let e = parse(&bad).unwrap_err();
    assert_eq!(e.kind, ErrorKind::UnbalancedPrototypeStack);
}

#[test]
fn luajit_table_constant() {
    let mut tab = uleb(3);
    tab.extend(uleb(1));
    tab.extend(uleb(2));
    tab.extend(uleb(3));
    tab.extend(uleb(7));
    tab.extend(uleb(5 + 2));
    tab.extend_from_slice(b"hi");
    tab.extend(uleb(4));
    tab.extend(uleb(0x8000_0000));
    tab.extend(uleb(0x3FF0_0000));
    tab.extend(uleb(1));
    let (c, next) = lj_tab(Endianness::Little, &tab, 0).unwrap();
    assert_eq!(next, tab.len());
    let t = match c {
        LuaConstant::Table(t) => t,
        _ => panic!(),
    };
    assert_eq!(t.array.len(), 2);
    assert!(matches!(t.array[0], LuaConstant::Number(LuaNumber::Integer(7))));
    match &t.array[1] {
        LuaConstant::String(s) => assert_eq!(s.as_slice(), b"hi"),
        _ => panic!(),
    }
    assert_eq!(t.hash.len(), 2);
    match &t.hash[0] {
        (LuaConstant::Number(LuaNumber::Float(bits)), LuaConstant::Bool(false)) => {
            assert_eq!(*bits, 0x3FF0_0000_8000_0000)
        }
        _ => panic!(),
    }
    assert!(matches!(
        t.hash[1],
        (LuaConstant::Number(LuaNumber::Integer(0)), LuaConstant::Bool(true))
    ));

    let mut nil_first = uleb(2);
    nil_first.extend(uleb(0));
    nil_first.extend(uleb(0));
    nil_first.extend(uleb(1));
    let (c, _) = lj_tab(Endianness::Little, &nil_first, 0).unwrap();
    match c {
        LuaConstant::Table(t) => {
            assert_eq!(t.array.len(), 1);
            assert!(matches!(t.array[0], LuaConstant::Bool(false)));
            assert!(t.hash.is_empty());
        }
        _ => panic!(),
    }

    let (c, next) = lj_tab(Endianness::Little, &[0, 0], 0).unwrap();
    assert_eq!(next, 2);
    match c {
        LuaConstant::Table(t) => assert!(t.array.is_empty() && t.hash.is_empty()),
        _ => panic!(),
    }
}

#[test]
fn luajit_table_items() {
    assert!(matches!(lj_tabk(Endianness::Little, &[0], 0).unwrap(), (LuaConstant::Null, 1)));
    assert!(matches!(lj_tabk(Endianness::Little, &[1], 0).unwrap(), (LuaConstant::Bool(false), 1)));
    assert!(matches!(lj_tabk(Endianness::Little, &[2], 0).unwrap(), (LuaConstant::Bool(true), 1)));
    let mut int = vec![3u8];
    int.extend(uleb(0xFFFF_FFFF));
    assert!(matches!(
        lj_tabk(Endianness::Little, &int, 0).unwrap(),
        (LuaConstant::Number(LuaNumber::Integer(0xFFFF_FFFF)), 6)
    ));
    let big = [4u8, 1, 2];
    assert!(matches!(
        lj_tabk(Endianness::Big, &big, 0).unwrap(),
        (LuaConstant::Number(LuaNumber::Float(0x0000_0001_0000_0002)), 3)
    ));
    assert!(matches!(
        lj_tabk(Endianness::Little, &big, 0).unwrap(),
        (LuaConstant::Number(LuaNumber::Float(0x0000_0002_0000_0001)), 3)
    ));
    let e = lj_tabk(Endianness::Little, &[7, b'a'], 0).unwrap_err();
    assert_eq!(e.kind, ErrorKind::Truncated);
    assert_eq!(e.offset, 1);
}

#[test]
fn luajit_complex_constants() {
    let mut stack: Vec<LuaChunk> = Vec::new();
    let mut protos: Vec<LuaChunk> = Vec::new();
    let mut i64c = vec![2u8];
    i64c.extend(uleb(0xFFFF_FFFE));
    i64c.extend(uleb(0xFFFF_FFFF));
    let (c, next) =
        lj_complex_constant(&mut stack, &mut protos, Endianness::Little, &i64c, 0).unwrap();
    assert_eq!(next, i64c.len());
    assert!(matches!(c, LuaConstant::Number(LuaNumber::Integer(-2))));
    let mut u64c = vec![3u8];
    u64c.extend(uleb(1));
    u64c.extend(uleb(2));
    let (c, _) =
        lj_complex_constant(&mut stack, &mut protos, Endianness::Little, &u64c, 0).unwrap();
    assert!(matches!(c, LuaConstant::Number(LuaNumber::Integer(0x0000_0002_0000_0001))));
    let e = lj_complex_constant(&mut stack, &mut protos, Endianness::Little, &[4], 0).unwrap_err();
    assert_eq!(e.kind, ErrorKind::UnknownConstantTag);
    assert_eq!(e.offset, 0);
    let e = lj_complex_constant(&mut stack, &mut protos, Endianness::Little, &[0], 0).unwrap_err();
    assert_eq!(e.kind, ErrorKind::UnbalancedPrototypeStack);
    let mut first = LuaChunk::default();
    first.max_stack = 1;
    let mut second = LuaChunk::default();
    second.max_stack = 2;
    stack.push(first);
    stack.push(second);
    let (c, _) = lj_complex_constant(&mut stack, &mut protos, Endianness::Little, &[0], 0).unwrap();
    assert!(matches!(c, LuaConstant::Proto(0)));
    assert_eq!(stack.len(), 1);
    assert_eq!(protos.len(), 1);
    assert_eq!(protos[0].max_stack, 2);
    let e = lj_complex_constant(&mut stack, &mut protos, Endianness::Little, &[1, 1], 0)
        .unwrap_err();
    assert_eq!(e.kind, ErrorKind::Truncated);
    let labels: Vec<&str> = e.context.iter().map(|c| c.label()).collect();
    assert_eq!(labels, vec!["read table"]);
}

#[test]
fn luajit_chunk_reads_the_end_mark() {
    let file = stripped(&[proto(0, &[], &[], None)]);
    let (h, at) = lj_header(&file, 0).unwrap();
    let (_, next) = lj_chunk(&h, &file, at).unwrap();
    assert_eq!(next, file.len());
    let e = lj_chunk(&h, &file[..file.len() - 1], at).unwrap_err();
    assert_eq!(e.kind, ErrorKind::Truncated);
}

#[test]
fn luajit_proto_flags() {
    assert!(ProtoFlags::from_bits(0).is_some());
    let all = ProtoFlags::from_bits(0x0F).unwrap();
    assert_eq!(all.bits(), 0x0F);
    assert!(all.contains(HAS_CHILD | IS_VARIADIC | HAS_FFI | JIT_DISABLED));
    assert!(ProtoFlags::from_bits(0x10).is_none());
    assert!(ProtoFlags::from_bits(0x80).is_none());
    let some = ProtoFlags::from_bits(HAS_FFI).unwrap();
    assert!(some.contains(HAS_FFI));
    assert!(!some.contains(HAS_FFI | HAS_CHILD));
    assert_eq!(some, ProtoFlags::from_bits(4).unwrap());
}
