//! The header of the files that `luac` of Lua 5.1 to 5.4 writes.

use crate::error::{agrees, cut_law, fail, DecodeError, ErrorKind, Parsed};
use crate::model::{supported_width, LuaHeader, LUA51, LUA52, LUA53, LUA54};
use crate::read::{byte, bytes, lemma_byte_cut, lemma_bytes_cut, spec_byte, spec_bytes};
use vstd::prelude::*;

verus! {

/// The byte `want` at `pos`. Another byte there is an `UnrecognizedDialect`
/// at `pos`.
pub open spec fn spec_expect(s: Seq<u8>, pos: int, want: u8) -> Parsed<()> {
    match spec_byte(s, pos) {
        Err(e) => Err(e),
        Ok((b, next)) => if b == want {
            Ok(((), next))
        } else {
            fail(pos, ErrorKind::UnrecognizedDialect)
        },
    }
}

/// Reads the byte `want`.
pub fn expect(input: &[u8], pos: usize, want: u8) -> (r: Result<((), usize), DecodeError>)
    ensures
        agrees(r, spec_expect(input@, pos as int, want)),
{
    let (b, next) = byte(input, pos)?;
    if b == want {
        Ok(((), next))
    } else {
        Err(DecodeError::new(pos, ErrorKind::UnrecognizedDialect))
    }
}

/// `rest`, unless the width `w`, declared at offset `at`, is unsupported.
pub open spec fn spec_guard(w: u8, at: int, rest: Parsed<LuaHeader>) -> Parsed<LuaHeader> {
    if supported_width(w) {
        rest
    } else {
        fail(at, ErrorKind::UnsupportedWidth)
    }
}

/// The header fields of a Lua 5.1 file that follow the version byte, from
/// `pos` on: format version, byte order (1 for little-endian), the sizes of
/// "int", "size", instruction and number, and the flag for integral
/// numbers.
pub open spec fn spec_fields51(s: Seq<u8>, pos: int, version: u8, reserved: nat) -> Parsed<
    LuaHeader,
> {
    match spec_bytes(s, pos, 7 + reserved) {
        Err(e) => Err(e),
        Ok((f, next)) => spec_guard(
            f[2],
            pos + 2,
            spec_guard(
                f[3],
                pos + 3,
                spec_guard(
                    f[4],
                    pos + 4,
                    spec_guard(
                        f[5],
                        pos + 5,
                        Ok(
                            (
                                LuaHeader {
                                    lua_version: version,
                                    format_version: f[0],
                                    big_endian: f[1] != 1,
                                    int_size: f[2],
                                    size_t_size: f[3],
                                    instruction_size: f[4],
                                    number_size: f[5],
                                    number_integral: f[6] != 0,
                                    stripped: false,
                                    has_ffi: false,
                                },
                                next,
                            ),
                        ),
                    ),
                ),
            ),
        ),
    }
}

/// The header fields of a Lua 5.3 file that follow the version byte, from
/// `pos` on: format version, six reserved bytes, the sizes of "int",
/// "size", instruction, integer and number, then a sample integer and a
/// sample number of the declared sizes, which are passed over.
pub open spec fn spec_fields53(s: Seq<u8>, pos: int) -> Parsed<LuaHeader> {
    match spec_bytes(s, pos, 12) {
        Err(e) => Err(e),
        Ok((f, p1)) => spec_guard(
            f[7],
            pos + 7,
            spec_guard(
                f[8],
                pos + 8,
                spec_guard(
                    f[9],
                    pos + 9,
                    spec_guard(
                        f[10],
                        pos + 10,
                        spec_guard(
                            f[11],
                            pos + 11,
                            match spec_bytes(s, p1, f[10] as nat) {
                                Err(e) => Err(e),
                                Ok((sample_int, p2)) => match spec_bytes(s, p2, f[11] as nat) {
                                    Err(e) => Err(e),
                                    Ok((sample_number, p3)) => Ok(
                                        (
                                            LuaHeader {
                                                lua_version: LUA53,
                                                format_version: f[0],
                                                big_endian: false,
                                                int_size: f[7],
                                                size_t_size: f[8],
                                                instruction_size: f[9],
                                                number_size: f[11],
                                                number_integral: false,
                                                stripped: false,
                                                has_ffi: false,
                                            },
                                            p3,
                                        ),
                                    ),
                                },
                            },
                        ),
                    ),
                ),
            ),
        ),
    }
}

/// The header fields of a Lua 5.4 file that follow the version byte, from
/// `pos` on: format version, six reserved bytes, the sizes of instruction,
/// integer and number, a sample integer and a sample number of eight bytes
/// each, and one more byte. An "int" has four bytes and a "size" eight.
pub open spec fn spec_fields54(s: Seq<u8>, pos: int) -> Parsed<LuaHeader> {
    match spec_bytes(s, pos, 27) {
        Err(e) => Err(e),
        Ok((f, next)) => spec_guard(
            f[7],
            pos + 7,
            spec_guard(
                f[8],
                pos + 8,
                spec_guard(
                    f[9],
                    pos + 9,
                    Ok(
                        (
                            LuaHeader {
                                lua_version: LUA54,
                                format_version: f[0],
                                big_endian: false,
                                int_size: 4,
                                size_t_size: 8,
                                instruction_size: f[7],
                                number_size: f[9],
                                number_integral: false,
                                stripped: false,
                                has_ffi: false,
                            },
                            next,
                        ),
                    ),
                ),
            ),
        ),
    }
}

/// The header fields that follow the version byte `version`, from `pos`
/// on. A version byte other than 0x51 to 0x54 is an `UnrecognizedDialect`
/// at the byte itself.
pub open spec fn spec_fields(s: Seq<u8>, pos: int, version: u8) -> Parsed<LuaHeader> {
    if version == LUA51 {
        spec_fields51(s, pos, LUA51, 0)
    } else if version == LUA52 {
        spec_fields51(s, pos, LUA52, 6)
    } else if version == LUA53 {
        spec_fields53(s, pos)
    } else if version == LUA54 {
        spec_fields54(s, pos)
    } else {
        fail(pos - 1, ErrorKind::UnrecognizedDialect)
    }
}

/// The header at `pos`: the signature `ESC L u a`, the version byte, and
/// the fields of that version.
///
/// The header is decoded only if every width it declares is 1, 2, 4 or 8;
/// the first other width is an `UnsupportedWidth` at its own offset.
pub open spec fn spec_lua_header(s: Seq<u8>, pos: int) -> Parsed<LuaHeader> {
    match spec_expect(s, pos, 0x1B) {
        Err(e) => Err(e),
        Ok((_, p1)) => match spec_expect(s, p1, 0x4C) {
            Err(e) => Err(e),
            Ok((_, p2)) => match spec_expect(s, p2, 0x75) {
                Err(e) => Err(e),
                Ok((_, p3)) => match spec_expect(s, p3, 0x61) {
                    Err(e) => Err(e),
                    Ok((_, p4)) => match spec_byte(s, p4) {
                        Err(e) => Err(e),
                        Ok((version, p5)) => spec_fields(s, p5, version),
                    },
                },
            },
        },
    }
}

/// Accepts the width `w` that the header declares at offset `at`, if it is supported.
fn guard(w: u8, at: usize) -> (r: Result<(), DecodeError>)
    ensures
        supported_width(w) ==> r is Ok,
        !supported_width(w) ==> r is Err && r->Err_0.deep_view() == fail::<LuaHeader>(
            at as int,
            ErrorKind::UnsupportedWidth,
        )->Err_0,
{
    if w == 1 || w == 2 || w == 4 || w == 8 {
        Ok(())
    } else {
        Err(DecodeError::new(at, ErrorKind::UnsupportedWidth))
    }
}

/// Reads the fields of a Lua 5.1 or 5.2 header.
fn fields51(input: &[u8], pos: usize, version: u8, reserved: u64) -> (r: Result<
    (LuaHeader, usize),
    DecodeError,
>)
    requires
        reserved <= 6,
    ensures
        agrees(r, spec_fields51(input@, pos as int, version, reserved as nat)),
{
    let (f, next) = bytes(input, pos, 7 + reserved)?;
    assert(f.deep_view() =~= f@);
    guard(f[2], pos + 2)?;
    guard(f[3], pos + 3)?;
    guard(f[4], pos + 4)?;
    guard(f[5], pos + 5)?;
    Ok(
        (
            LuaHeader {
                lua_version: version,
                format_version: f[0],
                big_endian: f[1] != 1,
                int_size: f[2],
                size_t_size: f[3],
                instruction_size: f[4],
                number_size: f[5],
                number_integral: f[6] != 0,
                stripped: false,
                has_ffi: false,
            },
            next,
        ),
    )
}

/// Reads the fields of a Lua 5.3 header.
fn fields53(input: &[u8], pos: usize) -> (r: Result<(LuaHeader, usize), DecodeError>)
    ensures
        agrees(r, spec_fields53(input@, pos as int)),
{
    let (f, p1) = bytes(input, pos, 12)?;
    assert(f.deep_view() =~= f@);
    guard(f[7], pos + 7)?;
    guard(f[8], pos + 8)?;
    guard(f[9], pos + 9)?;
    guard(f[10], pos + 10)?;
    guard(f[11], pos + 11)?;
    let (_sample_int, p2) = bytes(input, p1, f[10] as u64)?;
    let (_sample_number, p3) = bytes(input, p2, f[11] as u64)?;
    Ok(
        (
            LuaHeader {
                lua_version: LUA53,
                format_version: f[0],
                big_endian: false,
                int_size: f[7],
                size_t_size: f[8],
                instruction_size: f[9],
                number_size: f[11],
                number_integral: false,
                stripped: false,
                has_ffi: false,
            },
            p3,
        ),
    )
}

/// Reads the fields of a Lua 5.4 header.
fn fields54(input: &[u8], pos: usize) -> (r: Result<(LuaHeader, usize), DecodeError>)
    ensures
        agrees(r, spec_fields54(input@, pos as int)),
{
    let (f, next) = bytes(input, pos, 27)?;
    assert(f.deep_view() =~= f@);
    guard(f[7], pos + 7)?;
    guard(f[8], pos + 8)?;
    guard(f[9], pos + 9)?;
    Ok(
        (
            LuaHeader {
                lua_version: LUA54,
                format_version: f[0],
                big_endian: false,
                int_size: 4,
                size_t_size: 8,
                instruction_size: f[7],
                number_size: f[9],
                number_integral: false,
                stripped: false,
                has_ffi: false,
            },
            next,
        ),
    )
}

/// Reads the header of a Lua 5.1 to 5.4 file.
pub fn lua_header(input: &[u8], pos: usize) -> (r: Result<(LuaHeader, usize), DecodeError>)
    ensures
        agrees(r, spec_lua_header(input@, pos as int)),
        r is Ok ==> r->Ok_0.0.wf(),
{
    let (_, p1) = expect(input, pos, 0x1B)?;
    let (_, p2) = expect(input, p1, 0x4C)?;
    let (_, p3) = expect(input, p2, 0x75)?;
    let (_, p4) = expect(input, p3, 0x61)?;
    let (version, p5) = byte(input, p4)?;
    if version == LUA51 {
        fields51(input, p5, LUA51, 0)
    } else if version == LUA52 {
        fields51(input, p5, LUA52, 6)
    } else if version == LUA53 {
        fields53(input, p5)
    } else if version == LUA54 {
        fields54(input, p5)
    } else {
        Err(DecodeError::new(p5 - 1, ErrorKind::UnrecognizedDialect))
    }
}

/// The fields of a header depend on their bytes alone.
pub proof fn lemma_fields_cut(s: Seq<u8>, pos: int, version: u8, k: int)
    requires
        0 <= pos <= k <= s.len(),
    ensures
        cut_law(
            spec_fields(s, pos, version),
            spec_fields(s.take(k), pos, version),
            pos,
            k,
            s.len() as int,
        ),
{
    let n = s.len() as int;
    lemma_bytes_cut(s, pos, 7, k);
    lemma_bytes_cut(s, pos, 13, k);
    lemma_bytes_cut(s, pos, 12, k);
    lemma_bytes_cut(s, pos, 27, k);
    if version == LUA53 {
        if let Ok((f, p1)) = spec_bytes(s, pos, 12) {
            lemma_bytes_cut(s, p1, f[10] as nat, if p1 <= k { k } else { n });
            if let Ok((sample_int, p2)) = spec_bytes(s, p1, f[10] as nat) {
                lemma_bytes_cut(s, p2, f[11] as nat, if p2 <= k { k } else { n });
            }
        }
    }
}

/// The header depends on its bytes alone.
pub proof fn lemma_lua_header_cut(s: Seq<u8>, pos: int, k: int)
    requires
        0 <= pos <= k <= s.len(),
    ensures
        cut_law(spec_lua_header(s, pos), spec_lua_header(s.take(k), pos), pos, k, s.len() as int),
{
    let n = s.len() as int;
    lemma_byte_cut(s, pos, k);
    if let Ok((_, p1)) = spec_expect(s, pos, 0x1B) {
        lemma_byte_cut(s, p1, if p1 <= k { k } else { n });
        if let Ok((_, p2)) = spec_expect(s, p1, 0x4C) {
            lemma_byte_cut(s, p2, if p2 <= k { k } else { n });
            if let Ok((_, p3)) = spec_expect(s, p2, 0x75) {
                lemma_byte_cut(s, p3, if p3 <= k { k } else { n });
                if let Ok((_, p4)) = spec_expect(s, p3, 0x61) {
                    lemma_byte_cut(s, p4, if p4 <= k { k } else { n });
                    if let Ok((version, p5)) = spec_byte(s, p4) {
                        lemma_fields_cut(s, p5, version, if p5 <= k { k } else { n });
                    }
                }
            }
        }
    }
}

} // verus!
