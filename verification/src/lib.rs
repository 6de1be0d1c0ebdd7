//! Decoder for precompiled Lua bytecode.
//!
//! [`parse`] takes the bytes of a file that `luac`, LuaJIT or a like
//! compiler wrote, and returns its header and the tree of its prototypes.
//! The dialects of Lua 5.1, 5.2, 5.3, 5.4 and LuaJIT are told apart by the
//! file's signature; a Luau file has none and is decoded by
//! [`luau::bytecode`].
//!
//! Each decoder is specified by a function from the bytes to the result,
//! value or error, and proved to compute it. No decoder panics.

pub mod chunk;
pub mod error;
pub mod header;
pub mod lua51;
pub mod lua52;
pub mod lua53;
pub mod lua54;
pub mod luajit;
pub mod luau;
pub mod model;
pub mod number;
pub mod outside;
pub mod read;
pub mod repeat;
pub mod utils;
pub mod wire;

pub use error::{Context, DecodeError, ErrorKind};
pub use model::{
    ConstTable, Endianness, LuaBytecode, LuaChunk, LuaConstant, LuaHeader, LuaLocal, LuaNumber,
    LuaVarArgInfo, UpVal, LUA51, LUA52, LUA53, LUA54, LUAJ1, LUAJ2,
};

use chunk::{lemma_chunk_cut, lemma_chunk_depth, nests_within, Dialect};
use error::{agrees, cut_law, fail, ErrorView, Parsed};
use header::{expect, lemma_lua_header_cut, lua_header, spec_expect, spec_lua_header};
use luajit::{
    lemma_lj_chunk_cut, lemma_lj_header_cut, lj_chunk, lj_header, spec_lj_chunk, spec_lj_header,
};
use model::{BytecodeView, ChunkView};
use read::{byte, lemma_byte_cut, spec_byte};
use vstd::prelude::*;

verus! {

/// How deep prototypes may nest in a file that [`parse`] decodes.
pub const MAX_DEPTH: usize = 200;

/// The header at `pos`.
///
/// The first three bytes tell the family: `ESC L u` starts a file of Lua
/// 5.1 to 5.4, `ESC L J` a LuaJIT file. Any other byte in their place is an
/// `UnrecognizedDialect` at that byte. The header of the family is then
/// decoded from `pos`.
pub open spec fn spec_sniff(s: Seq<u8>, pos: int) -> Parsed<LuaHeader> {
    match spec_expect(s, pos, 0x1B) {
        Err(e) => Err(e),
        Ok((_, p1)) => match spec_expect(s, p1, 0x4C) {
            Err(e) => Err(e),
            Ok((_, p2)) => match spec_byte(s, p2) {
                Err(e) => Err(e),
                Ok((family, _)) => if family == 0x75 {
                    spec_lua_header(s, pos)
                } else if family == 0x4A {
                    spec_lj_header(s, pos)
                } else {
                    fail(p2, ErrorKind::UnrecognizedDialect)
                },
            },
        },
    }
}

/// The root prototype of a file with the header `h`, from `pos` on.
///
/// The version that the header names selects the decoder. A version that
/// has none is an `UnsupportedDialect` at `pos`.
pub open spec fn spec_root(h: LuaHeader, s: Seq<u8>, pos: int, depth: nat) -> Parsed<ChunkView> {
    if h.lua_version == LUA51 {
        lua51::spec_lua_chunk(h, s, pos, depth)
    } else if h.lua_version == LUA52 {
        lua52::spec_lua_chunk(h, s, pos, depth)
    } else if h.lua_version == LUA53 {
        lua53::spec_lua_main_chunk(h, s, pos, depth)
    } else if h.lua_version == LUA54 {
        lua54::spec_lua_chunk(h, s, pos, depth)
    } else if h.lua_version == LUAJ1 || h.lua_version == LUAJ2 {
        spec_lj_chunk(h, s, pos)
    } else {
        fail(pos, ErrorKind::UnsupportedDialect)
    }
}

/// The file `s`, decoded with prototypes that nest at most `depth` levels
/// deep, and the count of the bytes that were read.
pub open spec fn spec_lua_bytecode(s: Seq<u8>, depth: nat) -> Parsed<BytecodeView> {
    match spec_sniff(s, 0) {
        Err(e) => Err(e),
        Ok((header, at)) => match spec_root(header, s, at, depth) {
            Err(e) => Err(e),
            Ok((main_chunk, next)) => Ok((BytecodeView { header, main_chunk }, next)),
        },
    }
}

/// Reads the header of a file of any dialect that has a signature.
pub fn sniff(input: &[u8], pos: usize) -> (r: Result<(LuaHeader, usize), DecodeError>)
    ensures
        agrees(r, spec_sniff(input@, pos as int)),
        r is Ok ==> r->Ok_0.0.wf(),
{
    let (_, p1) = expect(input, pos, 0x1B)?;
    let (_, p2) = expect(input, p1, 0x4C)?;
    let (family, _) = byte(input, p2)?;
    if family == 0x75 {
        lua_header(input, pos)
    } else if family == 0x4A {
        lj_header(input, pos)
    } else {
        Err(DecodeError::new(p2, ErrorKind::UnrecognizedDialect))
    }
}

/// Reads the root prototype with the decoder that the header selects.
pub fn root(header: &LuaHeader, input: &[u8], pos: usize, depth: usize) -> (r: Result<
    (LuaChunk, usize),
    DecodeError,
>)
    ensures
        agrees(r, spec_root(*header, input@, pos as int, depth as nat)),
{
    if header.lua_version == LUA51 {
        lua51::lua_chunk(header, input, pos, depth)
    } else if header.lua_version == LUA52 {
        lua52::lua_chunk(header, input, pos, depth)
    } else if header.lua_version == LUA53 {
        lua53::lua_main_chunk(header, input, pos, depth)
    } else if header.lua_version == LUA54 {
        lua54::lua_chunk(header, input, pos, depth)
    } else if header.lua_version == LUAJ1 || header.lua_version == LUAJ2 {
        lj_chunk(header, input, pos)
    } else {
        Err(DecodeError::new(pos, ErrorKind::UnsupportedDialect))
    }
}

/// Decodes a file whose prototypes nest at most `max_depth` levels deep.
/// Returns the file and the count of the bytes that were read; what
/// follows them is not looked at.
pub fn lua_bytecode(input: &[u8], max_depth: usize) -> (r: Result<
    (LuaBytecode, usize),
    DecodeError,
>)
    ensures
        agrees(r, spec_lua_bytecode(input@, max_depth as nat)),
        r is Ok ==> r->Ok_0.0.header.wf(),
        r is Ok ==> r->Ok_0.1 <= input@.len(),
{
    proof {
        lemma_lua_bytecode_cut(input@, max_depth as nat, input@.len() as int);
    }
    let (header, at) = sniff(input, 0)?;
    let (main_chunk, next) = root(&header, input, at, max_depth)?;
    Ok((LuaBytecode { header, main_chunk }, next))
}

/// Decodes a file.
pub fn parse(input: &[u8]) -> (r: Result<LuaBytecode, DecodeError>)
    ensures
        match r {
            Ok(file) => spec_lua_bytecode(input@, MAX_DEPTH as nat) is Ok && spec_lua_bytecode(
                input@,
                MAX_DEPTH as nat,
            )->Ok_0.0 == file.deep_view() && file.header.wf(),
            Err(e) => spec_lua_bytecode(input@, MAX_DEPTH as nat) == Err::<
                (BytecodeView, int),
                ErrorView,
            >(e.deep_view()),
        },
{
    match lua_bytecode(input, MAX_DEPTH) {
        Ok((file, _)) => Ok(file),
        Err(e) => Err(e),
    }
}

/// The header depends on its bytes alone.
pub proof fn lemma_sniff_cut(s: Seq<u8>, pos: int, k: int)
    requires
        0 <= pos <= k <= s.len(),
    ensures
        cut_law(spec_sniff(s, pos), spec_sniff(s.take(k), pos), pos, k, s.len() as int),
{
    let n = s.len() as int;
    lemma_lua_header_cut(s, pos, k);
    lemma_lj_header_cut(s, pos, k);
    lemma_byte_cut(s, pos, k);
    if let Ok((_, p1)) = spec_expect(s, pos, 0x1B) {
        lemma_byte_cut(s, p1, if p1 <= k { k } else { n });
        if let Ok((_, p2)) = spec_expect(s, p1, 0x4C) {
            lemma_byte_cut(s, p2, if p2 <= k { k } else { n });
        }
    }
}

/// The root prototype depends on the bytes it is read from and on no
/// others.
pub proof fn lemma_root_cut(h: LuaHeader, s: Seq<u8>, pos: int, depth: nat, k: int)
    requires
        0 <= pos <= k <= s.len(),
    ensures
        cut_law(
            spec_root(h, s, pos, depth),
            spec_root(h, s.take(k), pos, depth),
            pos,
            k,
            s.len() as int,
        ),
{
    if h.lua_version == LUA51 {
        lemma_chunk_cut(Dialect::Lua51, h, s, pos, depth, k);
    } else if h.lua_version == LUA52 {
        lemma_chunk_cut(Dialect::Lua52, h, s, pos, depth, k);
    } else if h.lua_version == LUA53 {
        lemma_byte_cut(s, pos, k);
        if let Ok((_, at)) = spec_byte(s, pos) {
            lemma_chunk_cut(Dialect::Lua53, h, s, at, depth, k);
        }
    } else if h.lua_version == LUA54 {
        lemma_chunk_cut(Dialect::Lua54, h, s, pos, depth, k);
    } else if h.lua_version == LUAJ1 || h.lua_version == LUAJ2 {
        lemma_lj_chunk_cut(h, s, pos, k);
    }
}

/// Decoding depends on the bytes that it reads and on no others: a file
/// that is decoded is decoded to the same value when it is cut behind the
/// bytes that were read, and is `Truncated` when it is cut inside them.
pub proof fn lemma_lua_bytecode_cut(s: Seq<u8>, depth: nat, k: int)
    requires
        0 <= k <= s.len(),
    ensures
        cut_law(
            spec_lua_bytecode(s, depth),
            spec_lua_bytecode(s.take(k), depth),
            0,
            k,
            s.len() as int,
        ),
{
    lemma_sniff_cut(s, 0, k);
    if let Ok((header, at)) = spec_sniff(s, 0) {
        lemma_root_cut(header, s, at, depth, if at <= k { k } else { s.len() as int });
    }
}

/// A file that is decoded up to its last byte is `Truncated` when it is
/// cut at any place before its end.
pub proof fn lemma_cut_file_is_truncated(s: Seq<u8>, depth: nat, k: int)
    requires
        spec_lua_bytecode(s, depth) is Ok,
        spec_lua_bytecode(s, depth)->Ok_0.1 == s.len(),
        0 <= k < s.len(),
    ensures
        spec_lua_bytecode(s.take(k), depth) is Err,
        spec_lua_bytecode(s.take(k), depth)->Err_0.kind == ErrorKind::Truncated,
{
    lemma_lua_bytecode_cut(s, depth, k);
}

/// A file of Lua 5.1 to 5.4 that is decoded with the ceiling `depth` holds
/// prototypes that nest at most `depth` levels deep.
pub proof fn lemma_depth_ceiling(s: Seq<u8>, depth: nat)
    requires
        spec_lua_bytecode(s, depth) is Ok,
        spec_lua_bytecode(s, depth)->Ok_0.0.header.lua_version != LUAJ1,
        spec_lua_bytecode(s, depth)->Ok_0.0.header.lua_version != LUAJ2,
    ensures
        nests_within(spec_lua_bytecode(s, depth)->Ok_0.0.main_chunk, depth),
{
    let (h, at) = spec_sniff(s, 0)->Ok_0;
    if h.lua_version == LUA51 {
        lemma_chunk_depth(Dialect::Lua51, h, s, at, depth);
    } else if h.lua_version == LUA52 {
        lemma_chunk_depth(Dialect::Lua52, h, s, at, depth);
    } else if h.lua_version == LUA53 {
        lemma_chunk_depth(Dialect::Lua53, h, s, spec_byte(s, at)->Ok_0.1, depth);
    } else if h.lua_version == LUA54 {
        lemma_chunk_depth(Dialect::Lua54, h, s, at, depth);
    }
}

} // verus!
