use luac_parser::{lua_bytecode, parse, ErrorKind};

fn word(v: u32) -> Vec<u8> {
    v.to_le_bytes().to_vec()
}

fn string51(s: &[u8]) -> Vec<u8> {
    let mut out = Vec::new();
    if s.is_empty() {
        out.extend(word(0));
    } else {
        out.extend(word(s.len() as u32 + 1));
        out.extend_from_slice(s);
        out.push(0);
    }
    out
}

fn chunk51(name: &[u8], prototypes: &[Vec<u8>]) -> Vec<u8> {
    let mut out = string51(name);
    out.extend(word(1));
    out.extend(word(2));
    out.extend_from_slice(&[0, 0, 2, 2]);
    out.extend(word(1));
    out.extend(word(0x0080_001E));
    out.extend(word(3));
    out.push(4);
    out.extend(string51(b"print"));
    out.push(3);
    out.extend_from_slice(&1337f64.to_le_bytes());
    out.extend_from_slice(&[1, 1]);
    out.extend(word(prototypes.len() as u32));
    for p in prototypes {
        out.extend_from_slice(p);
    }
    out.extend(word(1));
    out.extend(word(1));
    out.extend(word(1));
    out.extend(string51(b"a"));
    out.extend(word(0));
    out.extend(word(1));
    out.extend(word(1));
    out.extend(string51(b"u"));
    out
}

fn sample51() -> Vec<u8> {
    let mut out = vec![0x1B, b'L', b'u', b'a', 0x51, 0, 1, 4, 4, 4, 8, 0];
    out.extend(chunk51(b"@m", &[chunk51(b"", &[]), chunk51(b"", &[chunk51(b"", &[])])]));
    out
}

fn chunk52(prototypes: &[Vec<u8>]) -> Vec<u8> {
    let mut out = Vec::new();
    out.extend(word(1));
    out.extend(word(2));
    out.extend_from_slice(&[0, 1, 2]);
    out.extend(word(1));
    out.extend(word(0x0080_001F));
    out.extend(word(1));
    out.push(0);
    out.extend(word(prototypes.len() as u32));
    for p in prototypes {
        out.extend_from_slice(p);
    }
    out.extend(word(1));
    out.extend_from_slice(&[1, 0]);
    out.extend(string51(b"@m"));
    out.extend(word(1));
    out.extend(word(1));
    out.extend(word(0));
    out.extend(word(1));
    out.extend(string51(b"_ENV"));
    out
}

fn sample52() -> Vec<u8> {
    let mut out = vec![0x1B, b'L', b'u', b'a', 0x52, 0, 1, 4, 4, 4, 8, 0];
    out.extend_from_slice(&[0x19, 0x93, b'\r', b'\n', 0x1A, b'\n']);
    out.extend(chunk52(&[chunk52(&[])]));
    out
}

fn string53(s: &[u8]) -> Vec<u8> {
    let mut out = vec![s.len() as u8 + 1];
    out.extend_from_slice(s);
    out
}

fn chunk53(prototypes: &[Vec<u8>]) -> Vec<u8> {
    let mut out = string53(b"@m");
    out.extend(word(1));
    out.extend(word(2));
    out.extend_from_slice(&[0, 2, 2]);
    out.extend(word(1));
    out.extend(word(0x0080_0026));
    out.extend(word(3));
    out.push(0x13);
    out.extend_from_slice(&7i64.to_le_bytes());
    out.push(4);
    out.extend(string53(b"s"));
    out.push(3);
    out.extend_from_slice(&0.5f64.to_le_bytes());
    out.extend(word(1));
    out.extend_from_slice(&[1, 0]);
    out.extend(word(prototypes.len() as u32));
    for p in prototypes {
        out.extend_from_slice(p);
    }
    out.extend(word(1));
    out.extend(word(1));
    out.extend(word(1));
    out.extend(string53(b"v"));
    out.extend(word(0));
    out.extend(word(1));
    out.extend(word(1));
    out.extend(string53(b"_ENV"));
    out
}

fn sample53() -> Vec<u8> {
    let mut out = vec![0x1B, b'L', b'u', b'a', 0x53, 0];
    out.extend_from_slice(&[0x19, 0x93, b'\r', b'\n', 0x1A, b'\n']);
    out.extend_from_slice(&[4, 8, 4, 8, 8]);
    out.extend_from_slice(&0x5678i64.to_le_bytes());
    out.extend_from_slice(&370.5f64.to_le_bytes());
    out.push(1);
    out.extend(chunk53(&[chunk53(&[])]));
    out
}

fn unsigned(v: u64) -> Vec<u8> {
    uleb(v)
}

fn string54(s: &[u8]) -> Vec<u8> {
    let mut out = unsigned(s.len() as u64 + 1);
    out.extend_from_slice(s);
    out
}

fn chunk54(prototypes: &[Vec<u8>]) -> Vec<u8> {
    let mut out = string54(b"=stdin");
    out.extend(unsigned(1));
    out.extend(unsigned(400));
    out.extend_from_slice(&[0, 1, 2]);
    out.extend(unsigned(1));
    out.extend(word(0x51));
    out.extend(unsigned(2));
    out.push(0x14);
    out.extend(string54(b"long"));
    out.push(0x03);
    out.extend_from_slice(&9i64.to_le_bytes());
    out.extend(unsigned(1));
    out.extend_from_slice(&[1, 0, 0]);
    out.extend(unsigned(prototypes.len() as u64));
    for p in prototypes {
        out.extend_from_slice(p);
    }
    out.extend(unsigned(1));
    out.push(1);
    out.extend(unsigned(1));
    out.extend(unsigned(0));
    out.extend(unsigned(1));
    out.extend(unsigned(1));
    out.extend(string54(b"x"));
    out.extend(unsigned(0));
    out.extend(unsigned(1));
    out.extend(unsigned(1));
    out.extend(string54(b"_ENV"));
    out
}

fn sample54() -> Vec<u8> {
    let mut out = vec![0x1B, b'L', b'u', b'a', 0x54, 0];
    out.extend_from_slice(&[0x19, 0x93, b'\r', b'\n', 0x1A, b'\n']);
    out.extend_from_slice(&[4, 8, 8]);
    out.extend_from_slice(&0x5678i64.to_le_bytes());
    out.extend_from_slice(&370.5f64.to_le_bytes());
    out.push(1);
    out.extend(chunk54(&[chunk54(&[])]));
    out
}

fn uleb(mut v: u64) -> Vec<u8> {
    let mut out = Vec::new();
    loop {
        let b = (v & 0x7f) as u8;
        v >>= 7;
        if v == 0 {
            out.push(b);
            return out;
        }
        out.push(b | 0x80);
    }
}

fn proto_jit(kgc: &[Vec<u8>]) -> Vec<u8> {
    let mut body = vec![0u8, 0, 2, 1];
    body.extend(uleb(kgc.len() as u64));
    body.extend(uleb(2));
    body.extend(uleb(1));
    body.extend(uleb(2));
    body.extend(uleb(1));
    body.extend(uleb(3));
    body.extend(word(0x0001_004B));
    body.extend_from_slice(&[0, 0x80]);
    for c in kgc {
        body.extend_from_slice(c);
    }
    body.extend_from_slice(&[0x88, 0xB4, 0x04]);
    body.extend_from_slice(&[0x01, 0x00]);
    body.extend_from_slice(&[9, 9]);
    let mut out = uleb(body.len() as u64);
    out.extend(body);
    out
}

fn sample_jit() -> Vec<u8> {
    let mut out = vec![0x1B, b'L', b'J', 2, 0];
    out.extend(uleb(2));
    out.extend_from_slice(b"@m");
    out.extend(proto_jit(&[]));
    let child = vec![0u8];
    let table = vec![1u8, 1, 1, 2, 5 + 1, b'k', 3, 4];
    let string = vec![5 + 2, b'o', b'k'];
    let integer = vec![2u8, 1, 2];
    out.extend(proto_jit(&[child, table, string, integer]));
    out.push(0);
    out
}

fn every_cut_is_truncated(sample: &[u8]) {
    let (_, used) = lua_bytecode(sample, 8).unwrap();
    assert_eq!(used, sample.len());
    for k in 0..sample.len() {
        match parse(&sample[..k]) {
            Ok(_) => panic!("a file cut at {} was decoded", k),
            Err(e) => {
                assert_eq!(e.kind, ErrorKind::Truncated, "cut at {}", k);
                assert!(e.offset <= k, "cut at {}", k);
            }
        }
    }
}

fn trailing_bytes_change_nothing(sample: &[u8]) {
    let (a, used) = lua_bytecode(sample, 8).unwrap();
    let mut longer = sample.to_vec();
    longer.extend_from_slice(&[0x1B, b'L', b'u', b'a']);
    let (b, used_longer) = lua_bytecode(&longer, 8).unwrap();
    assert_eq!(used, used_longer);
    assert_eq!(a.header, b.header);
    assert_eq!(a.main_chunk.instructions, b.main_chunk.instructions);
    assert_eq!(a.main_chunk.prototypes.len(), b.main_chunk.prototypes.len());
}

#[test]
fn cut_lua51_file_is_truncated() {
    every_cut_is_truncated(&sample51());
    trailing_bytes_change_nothing(&sample51());
}

#[test]
fn cut_lua52_file_is_truncated() {
    every_cut_is_truncated(&sample52());
    trailing_bytes_change_nothing(&sample52());
}

#[test]
fn cut_lua53_file_is_truncated() {
    every_cut_is_truncated(&sample53());
    trailing_bytes_change_nothing(&sample53());
}

#[test]
fn cut_lua54_file_is_truncated() {
    every_cut_is_truncated(&sample54());
    trailing_bytes_change_nothing(&sample54());
}

#[test]
fn cut_luajit_file_is_truncated() {
    let sample = sample_jit();
    let parsed = parse(&sample).unwrap();
    assert_eq!(parsed.main_chunk.prototypes.len(), 1);
    assert_eq!(parsed.main_chunk.constants.len(), 4);
    every_cut_is_truncated(&sample);
    trailing_bytes_change_nothing(&sample);
}

#[test]
fn any_bytes_give_a_result() {
    let samples = [sample51(), sample52(), sample53(), sample54(), sample_jit()];
    for sample in samples.iter() {
        for i in 0..sample.len() {
            for flip in [0x01u8, 0x80, 0xFF] {
                let mut bad = sample.clone();
                bad[i] ^= flip;
                let _ = parse(&bad);
            }
        }
    }
}
