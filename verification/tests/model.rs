use luac_parser::error::Context;
use luac_parser::model::{copy_bytes, vararg};
use luac_parser::{ConstTable, DecodeError, ErrorKind, LuaChunk, LuaConstant, LuaNumber};

fn sample_table() -> LuaConstant {
    LuaConstant::Table(Box::new(ConstTable {
        array: vec![
            LuaConstant::Null,
            LuaConstant::String(b"a".to_vec()),
            LuaConstant::Table(Box::new(ConstTable {
                array: vec![LuaConstant::Proto(3)],
                hash: vec![],
            })),
        ],
        hash: vec![(
            LuaConstant::Bool(true),
            LuaConstant::Number(LuaNumber::Float(1.5f64.to_bits())),
        )],
    }))
}

fn same(a: &LuaConstant, b: &LuaConstant) -> bool {
    match (a, b) {
        (LuaConstant::Null, LuaConstant::Null) => true,
        (LuaConstant::Bool(x), LuaConstant::Bool(y)) => x == y,
        (LuaConstant::Number(x), LuaConstant::Number(y)) => x == y,
        (LuaConstant::String(x), LuaConstant::String(y)) => x == y,
        (LuaConstant::Proto(x), LuaConstant::Proto(y)) => x == y,
        (LuaConstant::Table(x), LuaConstant::Table(y)) => {
            x.array.len() == y.array.len()
                && x.hash.len() == y.hash.len()
                && x.array.iter().zip(y.array.iter()).all(|(p, q)| same(p, q))
                && x
                    .hash
                    .iter()
                    .zip(y.hash.iter())
                    .all(|(p, q)| same(&p.0, &q.0) && same(&p.1, &q.1))
        }
        _ => false,
    }
}

#[test]
fn clone_of_a_constant_is_the_same_constant() {
    let t = sample_table();
    assert!(same(&t, &t.clone()));
    assert!(same(&t, &t.duplicate()));
    assert!(!same(&t, &LuaConstant::Null));
    let s = LuaConstant::String(vec![0, 159, 146, 150]);
    assert!(same(&s, &s.clone()));
    match sample_table() {
        LuaConstant::Table(t) => {
            let copy = t.duplicate();
            assert_eq!(copy.array.len(), 3);
            assert_eq!(copy.hash.len(), 1);
            let copy = (*t).clone();
            assert_eq!(copy.array.len(), 3);
        }
        _ => panic!(),
    }
}

#[test]
fn defaults_are_empty() {
    assert!(matches!(LuaConstant::default(), LuaConstant::Null));
    let t = ConstTable::default();
    assert!(t.array.is_empty() && t.hash.is_empty());
    let c = LuaChunk::default();
    assert!(c.is_empty());
    assert!(c.name.is_empty());
    assert!(c.prototypes.is_empty());
    assert!(c.is_vararg.is_none());
    assert_eq!(c.name(), "");
}

#[test]
fn constant_from_bytes_is_a_string() {
    let c = LuaConstant::from(b"abc".to_vec());
    match c {
        LuaConstant::String(s) => assert_eq!(s, b"abc".to_vec()),
        _ => panic!(),
    }
    let v = vec![1u8, 2, 3];
    assert_eq!(copy_bytes(&v), v);
}

#[test]
fn chunk_name_as_text() {
    let mut c = LuaChunk::default();
    c.name = b"@main.lua".to_vec();
    assert_eq!(c.name(), "@main.lua");
    c.name = vec![b'a', 0xFF, b'b'];
    assert_eq!(c.name(), "a\u{FFFD}b");
}

#[test]
fn vararg_flags() {
    assert!(vararg(0).is_none());
    assert!(vararg(1).is_none());
    assert!(vararg(4).is_none());
    let v = vararg(2).unwrap();
    assert!(!v.has_arg && !v.needs_arg);
    let v = vararg(3).unwrap();
    assert!(v.has_arg && !v.needs_arg);
    let v = vararg(6).unwrap();
    assert!(!v.has_arg && v.needs_arg);
    let v = vararg(7).unwrap();
    assert!(v.has_arg && v.needs_arg);
}

#[test]
fn literal_text_of_a_constant() {
    assert_eq!(LuaConstant::String(b"hello".to_vec()).as_literal_str(), Some("hello"));
    assert_eq!(LuaConstant::String(vec![]).as_literal_str(), Some(""));
    let accented = LuaConstant::String("h\u{e9}".as_bytes().to_vec());
    assert_eq!(accented.as_literal_str(), Some("h\u{e9}"));
    assert_eq!(LuaConstant::String(vec![0xC3, 0x28]).as_literal_str(), None);
    assert_eq!(LuaConstant::String(vec![0xFF]).as_literal_str(), None);
    assert_eq!(LuaConstant::Null.as_literal_str(), None);
    assert_eq!(LuaConstant::Bool(true).as_literal_str(), None);
    assert_eq!(LuaConstant::Proto(1).as_literal_str(), None);
    assert_eq!(LuaConstant::Number(LuaNumber::Integer(1)).as_literal_str(), None);
}

#[test]
fn error_context_grows_outwards() {
    let e = DecodeError::new(7, ErrorKind::Truncated);
    assert_eq!(e.offset, 7);
    assert!(e.context.is_empty());
    let e = e.within(Context::Integer).within(Context::CountConstants).within(Context::Chunk);
    assert_eq!(e.offset, 7);
    assert_eq!(e.kind, ErrorKind::Truncated);
    let labels: Vec<&str> = e.context.iter().map(|c| c.label()).collect();
    assert_eq!(labels, vec!["integer", "count constants", "chunk"]);
}

#[test]
fn context_labels() {
    let all = [
        (Context::Integer, "integer"),
        (Context::SizeT, "size_t"),
        (Context::Number, "number"),
        (Context::String, "string"),
        (Context::Local, "local"),
        (Context::Chunk, "chunk"),
        (Context::ChunkHeader, "chunk header"),
        (Context::CountInstruction, "count instruction"),
        (Context::CountConstants, "count constants"),
        (Context::CountPrototypes, "count prototypes"),
        (Context::CountSourceLines, "count source lines"),
        (Context::CountLineInfo, "count line info"),
        (Context::CountLocals, "count locals"),
        (Context::CountUpvalues, "count upvalues"),
        (Context::CountUpvals, "count upvals"),
        (Context::CountUpvalNames, "count upval names"),
        (Context::CountTableArray, "count table array"),
        (Context::CountTableHash, "count table hash"),
        (Context::CountComplexConstant, "count complex_constant"),
        (Context::CountNumericConstants, "count numeric_constants"),
        (Context::ReadTable, "read table"),
        (Context::LuaJit1, "luajit1"),
        (Context::LuaJit2, "luajit2"),
    ];
    for (c, label) in all {
        assert_eq!(c.label(), label);
    }
}

#[test]
fn identifier_text_of_a_constant() {
    let ident = |s: &str| LuaConstant::String(s.as_bytes().to_vec());
    assert_eq!(ident("print").as_ident_str(), Some("print"));
    assert_eq!(ident("_").as_ident_str(), Some("_"));
    assert_eq!(ident("_G").as_ident_str(), Some("_G"));
    assert_eq!(ident("x1").as_ident_str(), Some("x1"));
    assert_eq!(ident("a_b_9").as_ident_str(), Some("a_b_9"));
    assert_eq!(ident("\u{e9}t\u{e9}").as_ident_str(), Some("\u{e9}t\u{e9}"));
    assert_eq!(ident("ands").as_ident_str(), Some("ands"));
    assert_eq!(ident("End").as_ident_str(), Some("End"));
    assert_eq!(ident("").as_ident_str(), None);
    assert_eq!(ident("1x").as_ident_str(), None);
    assert_eq!(ident("a b").as_ident_str(), None);
    assert_eq!(ident("a-b").as_ident_str(), None);
    assert_eq!(ident("x:").as_ident_str(), None);
    assert_eq!(ident("a.").as_ident_str(), None);
    for word in [
        "and", "break", "do", "else", "elseif", "end", "false", "for", "function", "if", "in",
        "local", "nil", "not", "or", "repeat", "return", "then", "true", "until", "while",
    ] {
        assert_eq!(ident(word).as_ident_str(), None, "{}", word);
        assert_eq!(ident(word).as_literal_str(), Some(word));
    }
    assert_eq!(LuaConstant::String(vec![b'a', 0xFF]).as_ident_str(), None);
    assert_eq!(LuaConstant::Null.as_ident_str(), None);
    assert_eq!(LuaConstant::Bool(false).as_ident_str(), None);
    assert!(luac_parser::utils::keyword("while"));
    assert!(!luac_parser::utils::keyword("whil"));
    assert!(luac_parser::utils::text_is("abc", "abc"));
    assert!(!luac_parser::utils::text_is("abc", "abd"));
    assert!(!luac_parser::utils::text_is("abc", "ab"));
}
