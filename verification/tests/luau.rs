use luac_parser::luau::{bytecode, constants, string, table, varint};
use luac_parser::{ErrorKind, LuaConstant, LuaNumber};

fn var(mut v: u64) -> Vec<u8> {
    let mut out = Vec::new();
    loop {
        let b = (v & 0x7f) as u8;
        v >>= 7;
        if v == 0 {
            out.push(b | 0x80);
            return out;
        }
        out.push(b);
    }
}

fn strings(items: &[&[u8]]) -> Vec<u8> {
    let mut out = var(items.len() as u64);
    for s in items {
        out.extend(var(s.len() as u64));
        out.extend_from_slice(s);
    }
    out
}

fn proto(
    code: &[u32],
    k: &[Vec<u8>],
    children: &[u64],
    line: u64,
    name: u64,
    lines: Option<u8>,
    debug: Option<(Vec<(u64, u64, u64, u8)>, Vec<u64>)>,
) -> Vec<u8> {
    let mut out = vec![4u8, 1, 2, 0];
    out.extend(var(code.len() as u64));
    for w in code {
        out.extend_from_slice(&w.to_le_bytes());
    }
    out.extend(var(k.len() as u64));
    for c in k {
        out.extend_from_slice(c);
    }
    out.extend(var(children.len() as u64));
    for i in children {
        out.extend(var(*i));
    }
    out.extend(var(line));
    out.extend(var(name));
    match lines {
        Some(log2) => {
            out.push(1);
            out.push(log2);
            for _ in code {
                out.push(0);
            }
            let intervals = if code.is_empty() { 0 } else { ((code.len() - 1) >> log2) + 1 };
            for _ in 0..intervals {
                out.extend_from_slice(&[0, 0, 0, 1]);
            }
        }
        None => out.push(0),
    }
    match debug {
        Some((locals, names)) => {
            out.push(1);
            out.extend(var(locals.len() as u64));
            for (n, s, e, r) in locals {
                out.extend(var(n));
                out.extend(var(s));
                out.extend(var(e));
                out.push(r);
            }
            out.extend(var(names.len() as u64));
            for n in names {
                out.extend(var(n));
            }
        }
        None => out.push(0),
    }
    out
}

fn file(table: &[&[u8]], protos: &[Vec<u8>], main: u64) -> Vec<u8> {
    let mut out = vec![3u8];
    out.extend(strings(table));
    out.extend(var(protos.len() as u64));
    for p in protos {
        out.extend_from_slice(p);
    }
    out.extend(var(main));
    out
}

fn sample() -> Vec<u8> {
    let mut number = vec![2u8];
    number.extend_from_slice(&1.5f64.to_le_bytes());
    let child = proto(&[0x11], &[vec![3, 0x82]], &[], 7, 1, None, None);
    let main = proto(
        &[1, 2, 3],
        &[
            vec![0],
            vec![1, 1],
            number,
            vec![3, 0x81],
            vec![3, 0x80],
            vec![4, 0xDE, 0xAD, 0xBE, 0xEF],
            vec![5, 0x83, 0x82, 0x80, 0x81],
            vec![6, 0x80],
        ],
        &[0],
        1,
        0,
        Some(1),
        Some((vec![(2, 0, 3, 5), (0, 1, 2, 6)], vec![1, 0])),
    );
    file(&[b"print", b"x"], &[child, main], 1)
}

#[test]
fn luau_test() {
    let input = sample();
    let (main, used) = bytecode(&input, 0).unwrap();
    assert_eq!(used, input.len());
    assert!(!main.is_empty());
    assert_eq!(main.instructions, vec![1, 2, 3]);
    assert_eq!(main.max_stack, 4);
    assert_eq!(main.num_params, 1);
    assert_eq!(main.num_upvalues, 2);
    assert!(main.is_vararg.is_none());
    assert_eq!(main.line_defined, 1);
    assert_eq!(main.last_line_defined, 0);
    assert!(main.name.is_empty());
    let k = &main.constants;
    assert_eq!(k.len(), 8);
    assert!(matches!(k[0], LuaConstant::Null));
    assert!(matches!(k[1], LuaConstant::Bool(true)));
    match &k[2] {
        LuaConstant::Number(LuaNumber::Float(bits)) => assert_eq!(f64::from_bits(*bits), 1.5),
        _ => panic!(),
    }
    match &k[3] {
        LuaConstant::String(s) => assert_eq!(s.as_slice(), b"print"),
        _ => panic!(),
    }
    assert!(matches!(k[5], LuaConstant::Null));
    match &k[6] {
        LuaConstant::Table(t) => {
            assert!(t.array.is_empty());
            assert_eq!(t.hash.len(), 3);
            let keys: Vec<&[u8]> = t
                .hash
                .iter()
                .map(|(key, value)| {
                    assert!(matches!(value, LuaConstant::Number(LuaNumber::Integer(0))));
                    match key {
                        LuaConstant::String(s) => s.as_slice(),
                        _ => panic!(),
                    }
                })
                .collect();
            assert_eq!(keys, vec![&b"x"[..], &b""[..], &b"print"[..]]);
        }
        _ => panic!(),
    }
    assert!(matches!(k[7], LuaConstant::Proto(0)));
    assert_eq!(main.prototypes.len(), 1);
    let child = &main.prototypes[0];
    assert_eq!(child.instructions, vec![0x11]);
    assert_eq!(child.name, b"print".to_vec());
    assert_eq!(child.line_defined, 7);
    match &child.constants[0] {
        LuaConstant::String(s) => assert_eq!(s.as_slice(), b"x"),
        _ => panic!(),
    }
    assert_eq!(main.locals.len(), 2);
    assert_eq!(main.locals[0].name, "x");
    assert_eq!(main.locals[0].start_pc, 0);
    assert_eq!(main.locals[0].end_pc, 3);
    assert_eq!(main.locals[0].reg, 5);
    assert_eq!(main.locals[1].name, "");
    assert_eq!(main.locals[1].reg, 6);
    assert_eq!(main.upvalue_names, vec![b"print".to_vec(), vec![]]);
}

#[test]
fn luau_string_index_zero_is_the_empty_string() {
    let table = vec![b"first".to_vec(), b"second".to_vec()];
    let (s, next) = string(&table, &[0x80], 0).unwrap();
    assert!(s.is_empty());
    assert_eq!(next, 1);
    let (s, _) = string(&table, &[0x81], 0).unwrap();
    assert_eq!(s, b"first".to_vec());
    let (s, _) = string(&table, &[0x82], 0).unwrap();
    assert_eq!(s, b"second".to_vec());
    let e = string(&table, &[0x83], 0).unwrap_err();
    assert_eq!(e.kind, ErrorKind::IndexOutOfRange);
    assert_eq!(e.offset, 0);
    let none: Vec<Vec<u8>> = Vec::new();
    assert!(string(&none, &[0x80], 0).unwrap().0.is_empty());

    let input = sample();
    let (main, _) = bytecode(&input, 0).unwrap();
    match &main.constants[4] {
        LuaConstant::String(s) => assert!(s.is_empty()),
        _ => panic!(),
    }
    assert!(main.name.is_empty());
    assert_eq!(main.locals[1].name, "");
    assert!(main.upvalue_names[1].is_empty());
}

#[test]
fn luau_varint_values() {
    assert_eq!(varint(&[0x80], 0).unwrap(), (0, 1));
    assert_eq!(varint(&[0xFF], 0).unwrap(), (127, 1));
    assert_eq!(varint(&[0x00, 0x81], 0).unwrap(), (128, 2));
    assert_eq!(varint(&[0x2C, 0x82], 0).unwrap(), (300, 2));
    assert_eq!(varint(&[9, 0x2C, 0x82, 9], 1).unwrap(), (300, 3));
    assert_eq!(var(300), vec![0x2C, 0x82]);
    assert_eq!(varint(&var(u64::MAX), 0).unwrap(), (u64::MAX, 10));
    let e = varint(&[0x00, 0x00], 0).unwrap_err();
    assert_eq!(e.kind, ErrorKind::Truncated);
    assert_eq!(e.offset, 2);
    let e = varint(&[], 0).unwrap_err();
    assert_eq!(e.kind, ErrorKind::Truncated);
    assert_eq!(e.offset, 0);
    let e = varint(&[0x00; 11], 0).unwrap_err();
    assert_eq!(e.kind, ErrorKind::IntegerOverflow);
    assert_eq!(e.offset, 0);
    let cut = [0x7F, 0x7F, 0x7F, 0x7F, 0x7F, 0x7F, 0x7F, 0x7F, 0x7F, 0xFF];
    assert_eq!(varint(&cut, 0).unwrap(), (u64::MAX, 10));
}

#[test]
fn luau_table_keys_come_from_the_string_table() {
    let strings = vec![b"key".to_vec(), b"other".to_vec()];
    let (t, next) = table(&strings, &[0x82, 0x81, 0x82, 0xFF], 0).unwrap();
    assert_eq!(next, 3);
    assert!(t.array.is_empty());
    assert_eq!(t.hash.len(), 2);
    match &t.hash[0].0 {
        LuaConstant::String(s) => assert_eq!(s.as_slice(), b"key"),
        _ => panic!(),
    }
    assert!(matches!(t.hash[0].1, LuaConstant::Number(LuaNumber::Integer(0))));
    match &t.hash[1].0 {
        LuaConstant::String(s) => assert_eq!(s.as_slice(), b"other"),
        _ => panic!(),
    }
    let (t, _) = table(&strings, &[0x81, 0x80], 0).unwrap();
    match &t.hash[0].0 {
        LuaConstant::String(s) => assert!(s.is_empty()),
        _ => panic!(),
    }
    let e = table(&strings, &[0x81, 0x83], 0).unwrap_err();
    assert_eq!(e.kind, ErrorKind::IndexOutOfRange);
    assert_eq!(e.offset, 1);
    let (t, _) = table(&strings, &[0x80], 0).unwrap();
    assert!(t.hash.is_empty());
}

#[test]
fn luau_constants_errors() {
    let none: Vec<Vec<u8>> = Vec::new();
    let e = constants(&none, &[0x81, 7], 0).unwrap_err();
    assert_eq!(e.kind, ErrorKind::UnknownConstantTag);
    assert_eq!(e.offset, 1);
    let e = constants(&none, &[0x81, 3, 0x81], 0).unwrap_err();
    assert_eq!(e.kind, ErrorKind::IndexOutOfRange);
    assert_eq!(e.offset, 2);
    let e = constants(&none, &[0x82, 0, 5, 0x81, 0x81], 0).unwrap_err();
    assert_eq!(e.kind, ErrorKind::IndexOutOfRange);
    let (k, next) = constants(&none, &[0x82, 0, 5, 0x81, 0x80], 0).unwrap();
    assert_eq!(next, 5);
    match &k[1] {
        LuaConstant::Table(t) => match &t.hash[0].0 {
            LuaConstant::String(s) => assert!(s.is_empty()),
            _ => panic!(),
        },
        _ => panic!(),
    }
    let e = constants(&none, &[0x81, 2, 0, 0], 0).unwrap_err();
    assert_eq!(e.kind, ErrorKind::Truncated);
    assert_eq!(e.offset, 2);
}

#[test]
fn luau_bad_indices_are_errors() {
    let p = proto(&[1], &[], &[], 0, 0, None, None);
    let e = bytecode(&file(&[], &[p.clone()], 1), 0).unwrap_err();
    assert_eq!(e.kind, ErrorKind::IndexOutOfRange);

    let child_of_self = proto(&[1], &[], &[0], 0, 0, None, None);
    let e = bytecode(&file(&[], &[child_of_self], 0), 0).unwrap_err();
    assert_eq!(e.kind, ErrorKind::IndexOutOfRange);

    let parent = proto(&[2], &[], &[0], 0, 0, None, None);
    let taken_root = file(&[], &[p.clone(), parent.clone()], 0);
    let e = bytecode(&taken_root, 0).unwrap_err();
    assert_eq!(e.kind, ErrorKind::IndexOutOfRange);
    assert_eq!(e.offset, taken_root.len() - 1);

    let empty_root = proto(&[], &[], &[], 0, 0, None, None);
    let e = bytecode(&file(&[], &[empty_root], 0), 0).unwrap_err();
    assert_eq!(e.kind, ErrorKind::IndexOutOfRange);

    let twice = proto(&[2], &[], &[0, 0], 0, 0, None, None);
    let (main, _) = bytecode(&file(&[], &[p, twice], 1), 0).unwrap();
    assert_eq!(main.prototypes.len(), 2);
    assert_eq!(main.prototypes[0].instructions, vec![1]);
    assert!(main.prototypes[1].is_empty());

    let bad_name = proto(&[1], &[], &[], 0, 2, None, None);
    let e = bytecode(&file(&[b"only"], &[bad_name], 0), 0).unwrap_err();
    assert_eq!(e.kind, ErrorKind::IndexOutOfRange);
}

#[test]
fn luau_line_info_is_passed_over() {
    let with = proto(&[1, 2, 3, 4, 5], &[], &[], 0, 0, Some(2), None);
    let without = proto(&[1, 2, 3, 4, 5], &[], &[], 0, 0, None, None);
    assert_eq!(with.len(), without.len() + 1 + 5 + 2 * 4);
    let (a, used) = bytecode(&file(&[], &[with], 0), 0).unwrap();
    let (b, _) = bytecode(&file(&[], &[without], 0), 0).unwrap();
    assert_eq!(a.instructions, b.instructions);
    assert_eq!(used, 1 + 1 + 1 + 4 + 1 + 20 + 1 + 1 + 1 + 1 + 1 + 1 + 5 + 8 + 1 + 1);
    let mut no_code = vec![3u8, 0x80, 0x81];
    no_code.extend_from_slice(&[0, 0, 0, 0, 0x80, 0x80, 0x80, 0x80, 0x80, 1, 200, 0, 0x80]);
    let e = bytecode(&no_code, 0).unwrap_err();
    assert_eq!(e.kind, ErrorKind::IndexOutOfRange);
}

#[test]
fn luau_cut_file_is_truncated() {
    let input = sample();
    for k in 0..input.len() {
        let e = bytecode(&input[..k], 0).unwrap_err();
        assert_eq!(e.kind, ErrorKind::Truncated, "cut at {}", k);
    }
    let mut longer = input.clone();
    longer.push(0x55);
    let (_, used) = bytecode(&longer, 0).unwrap();
    assert_eq!(used, input.len());
}
