//! The Lua 5.2 prototype decoder.

use crate::chunk::{chunk, spec_chunk, Dialect};
use crate::error::{agrees, cut_law, Context, DecodeError, Parsed};
use crate::lua51::{
    counted, lemma_counted_cut, lemma_lua_string_cut, lua_string, spec_counted, spec_lua_string,
    Local, Name, SourceLine,
};
use crate::model::{spec_vararg, vararg, ChunkView, LuaChunk, LuaHeader, UpVal};
use crate::number::{lemma_lua_int_cut, lua_int, spec_lua_int};
use crate::read::{byte, lemma_byte_cut, spec_byte};
use crate::repeat::Reader;
use vstd::prelude::*;

verus! {

/// The upvalue descriptor at `pos`: a byte that is non-zero for an upvalue
/// on the enclosing stack, and an index.
pub open spec fn spec_load_upvalue(s: Seq<u8>, pos: int) -> Parsed<UpVal> {
    match spec_byte(s, pos) {
        Err(e) => Err(e),
        Ok((on_stack, p1)) => match spec_byte(s, p1) {
            Err(e) => Err(e),
            Ok((id, p2)) => Ok((UpVal { on_stack: on_stack != 0, id, kind: 0 }, p2)),
        },
    }
}

/// Reads an upvalue descriptor.
pub fn load_upvalue(input: &[u8], pos: usize) -> (r: Result<(UpVal, usize), DecodeError>)
    ensures
        agrees(r, spec_load_upvalue(input@, pos as int)),
{
    let (on_stack, p1) = byte(input, pos)?;
    let (id, p2) = byte(input, p1)?;
    Ok((UpVal { on_stack: on_stack != 0, id, kind: 0 }, p2))
}

/// The decoder of one upvalue descriptor.
pub struct Upvalue {}

impl Reader for Upvalue {
    type Out = UpVal;

    open spec fn spec_read(&self, s: Seq<u8>, pos: int) -> Parsed<UpVal> {
        spec_load_upvalue(s, pos)
    }

    fn read(&self, input: &[u8], pos: usize) -> (r: Result<(UpVal, usize), DecodeError>) {
        load_upvalue(input, pos)
    }

    proof fn lemma_cut(&self, s: Seq<u8>, pos: int, k: int) {
        lemma_byte_cut(s, pos, k);
        if let Ok((on_stack, p1)) = spec_byte(s, pos) {
            lemma_byte_cut(s, p1, if p1 <= k { k } else { s.len() as int });
        }
    }
}

/// The count of upvalues as the prototype records it: the low eight bits.
pub open spec fn upvalue_count(n: nat) -> u8 {
    (n % 0x100) as u8
}

/// The scalar fields of the prototype at `pos`, as a prototype that has
/// nothing else: the first and the last line as "int"s, and three bytes
/// (parameter count, vararg flags, stack size).
#[verifier::opaque]
pub open spec fn spec_chunk_head(h: LuaHeader, s: Seq<u8>, pos: int) -> Parsed<ChunkView> {
    match spec_lua_int(h, s, pos) {
        Err(e) => Err(e),
        Ok((line_defined, p2)) => match spec_lua_int(h, s, p2) {
            Err(e) => Err(e),
            Ok((last_line_defined, p3)) => match spec_byte(s, p3) {
                Err(e) => Err(e),
                Ok((num_params, p4)) => match spec_byte(s, p4) {
                    Err(e) => Err(e),
                    Ok((is_vararg, p5)) => match spec_byte(s, p5) {
                        Err(e) => Err(e),
                        Ok((max_stack, p6)) => Ok(
                            (
                                ChunkView {
                                    line_defined,
                                    last_line_defined,
                                    num_params,
                                    is_vararg: spec_vararg(is_vararg),
                                    max_stack,
                                    ..ChunkView::empty()
                                },
                                p6,
                            ),
                        ),
                    },
                },
            },
        },
    }
}

/// The prototype `base` with what follows the nested prototypes, read from
/// `pos` on: upvalue descriptors (whose count becomes the upvalue count),
/// the name, line table, locals and upvalue names.
#[verifier::opaque]
pub open spec fn spec_chunk_back(h: LuaHeader, s: Seq<u8>, pos: int, base: ChunkView) -> Parsed<
    ChunkView,
> {
    match spec_counted(h, Upvalue {  }, s, pos, Context::CountUpvalues) {
        Err(e) => Err(e),
        Ok((upvalue_infos, p1)) => match spec_lua_string(h, s, p1) {
            Err(e) => Err(e),
            Ok((name, p2)) => match spec_counted(
                h,
                SourceLine { header: h },
                s,
                p2,
                Context::CountSourceLines,
            ) {
                Err(e) => Err(e),
                Ok((source_lines, p3)) => match spec_counted(
                    h,
                    Local { header: h },
                    s,
                    p3,
                    Context::CountLocals,
                ) {
                    Err(e) => Err(e),
                    Ok((locals, p4)) => match spec_counted(
                        h,
                        Name { header: h },
                        s,
                        p4,
                        Context::CountUpvalNames,
                    ) {
                        Err(e) => Err(e),
                        Ok((upvalue_names, p5)) => Ok(
                            (
                                ChunkView {
                                    name,
                                    num_upvalues: upvalue_count(upvalue_infos.len()),
                                    upvalue_infos,
                                    source_lines,
                                    locals,
                                    upvalue_names,
                                    ..base
                                },
                                p5,
                            ),
                        ),
                    },
                },
            },
        },
    }
}

/// Reads the scalar fields of a prototype.
pub fn chunk_head(header: &LuaHeader, input: &[u8], pos: usize) -> (r: Result<
    (LuaChunk, usize),
    DecodeError,
>)
    ensures
        agrees(r, spec_chunk_head(*header, input@, pos as int)),
{
    proof {
        reveal(spec_chunk_head);
        reveal(LuaChunk::model);
    }
    let (line_defined, p2) = lua_int(header, input, pos)?;
    let (last_line_defined, p3) = lua_int(header, input, p2)?;
    let (num_params, p4) = byte(input, p3)?;
    let (is_vararg, p5) = byte(input, p4)?;
    let (max_stack, p6) = byte(input, p5)?;
    let mut chunk = LuaChunk::default();
    let ghost blank = chunk;
    chunk.line_defined = line_defined;
    chunk.last_line_defined = last_line_defined;
    chunk.num_params = num_params;
    chunk.is_vararg = vararg(is_vararg);
    chunk.max_stack = max_stack;
    assert(chunk.model().prototypes =~= blank.model().prototypes);
    Ok((chunk, p6))
}

/// Reads what follows the nested prototypes into `base`.
pub fn chunk_back(header: &LuaHeader, input: &[u8], pos: usize, base: LuaChunk) -> (r: Result<
    (LuaChunk, usize),
    DecodeError,
>)
    ensures
        agrees(r, spec_chunk_back(*header, input@, pos as int, base.deep_view())),
{
    proof {
        reveal(spec_chunk_back);
        reveal(LuaChunk::model);
    }
    let h = *header;
    let (upvalue_infos, p1) = counted(header, &Upvalue {  }, input, pos, Context::CountUpvalues)?;
    let (name, p2) = lua_string(header, input, p1)?;
    let (source_lines, p3) = counted(
        header,
        &SourceLine { header: h },
        input,
        p2,
        Context::CountSourceLines,
    )?;
    let (locals, p4) = counted(header, &Local { header: h }, input, p3, Context::CountLocals)?;
    let (upvalue_names, p5) = counted(
        header,
        &Name { header: h },
        input,
        p4,
        Context::CountUpvalNames,
    )?;
    let mut chunk = base;
    chunk.name = name;
    chunk.num_upvalues = (upvalue_infos.len() % 0x100) as u8;
    chunk.upvalue_infos = upvalue_infos;
    chunk.source_lines = source_lines;
    chunk.locals = locals;
    chunk.upvalue_names = upvalue_names;
    assert(chunk.model().prototypes =~= base.model().prototypes);
    Ok((chunk, p5))
}

/// The prototype at `pos`, nested at most `depth` levels deep.
///
/// The scalar fields come first, then instructions, constants, nested
/// prototypes, upvalue descriptors, the name, line table, locals and
/// upvalue names. With no level left the prototype is a `DepthExceeded` at
/// `pos`.
pub open spec fn spec_lua_chunk(h: LuaHeader, s: Seq<u8>, pos: int, depth: nat) -> Parsed<
    ChunkView,
> {
    spec_chunk(Dialect::Lua52, h, s, pos, depth)
}

/// Reads a prototype that may nest `depth` levels deep.
pub fn lua_chunk(header: &LuaHeader, input: &[u8], pos: usize, depth: usize) -> (r: Result<
    (LuaChunk, usize),
    DecodeError,
>)
    ensures
        agrees(r, spec_lua_chunk(*header, input@, pos as int, depth as nat)),
{
    chunk(Dialect::Lua52, header, input, pos, depth)
}

/// The scalar fields depend on the bytes they are read from and on no
/// others.
pub proof fn lemma_chunk_head_cut(h: LuaHeader, s: Seq<u8>, pos: int, k: int)
    requires
        0 <= pos <= k <= s.len(),
    ensures
        cut_law(
            spec_chunk_head(h, s, pos),
            spec_chunk_head(h, s.take(k), pos),
            pos,
            k,
            s.len() as int,
        ),
{
    reveal(spec_chunk_head);
    let n = s.len() as int;
    lemma_lua_int_cut(h, s, pos, k);
    if let Ok((line_defined, p2)) = spec_lua_int(h, s, pos) {
        lemma_lua_int_cut(h, s, p2, if p2 <= k { k } else { n });
        if let Ok((last_line_defined, p3)) = spec_lua_int(h, s, p2) {
            lemma_byte_cut(s, p3, if p3 <= k { k } else { n });
            if let Ok((num_params, p4)) = spec_byte(s, p3) {
                lemma_byte_cut(s, p4, if p4 <= k { k } else { n });
                if let Ok((is_vararg, p5)) = spec_byte(s, p4) {
                    lemma_byte_cut(s, p5, if p5 <= k { k } else { n });
                }
            }
        }
    }
}

/// What follows the nested prototypes depends on the bytes it is read from
/// and on no others.
pub proof fn lemma_chunk_back_cut(h: LuaHeader, s: Seq<u8>, pos: int, base: ChunkView, k: int)
    requires
        0 <= pos <= s.len(),
        0 <= k <= s.len(),
    ensures
        pos <= k ==> cut_law(
            spec_chunk_back(h, s, pos, base),
            spec_chunk_back(h, s.take(k), pos, base),
            pos,
            k,
            s.len() as int,
        ),
        spec_chunk_back(h, s, pos, base) is Ok ==> pos <= spec_chunk_back(
            h,
            s,
            pos,
            base,
        )->Ok_0.1 <= s.len(),
{
    reveal(spec_chunk_back);
    let n = s.len() as int;
    lemma_counted_cut(h, Upvalue {  }, s, pos, Context::CountUpvalues, k);
    if let Ok((upvalue_infos, p1)) = spec_counted(h, Upvalue {  }, s, pos, Context::CountUpvalues) {
        lemma_lua_string_cut(h, s, p1, if p1 <= k { k } else { n });
        if let Ok((name, p2)) = spec_lua_string(h, s, p1) {
            lemma_counted_cut(h, SourceLine { header: h }, s, p2, Context::CountSourceLines, k);
            if let Ok((source_lines, p3)) = spec_counted(
                h,
                SourceLine { header: h },
                s,
                p2,
                Context::CountSourceLines,
            ) {
                lemma_counted_cut(h, Local { header: h }, s, p3, Context::CountLocals, k);
                if let Ok((locals, p4)) = spec_counted(
                    h,
                    Local { header: h },
                    s,
                    p3,
                    Context::CountLocals,
                ) {
                    lemma_counted_cut(h, Name { header: h }, s, p4, Context::CountUpvalNames, k);
                }
            }
        }
    }
}

/// The parts of a prototype other than its nested prototypes leave those
/// as they are.
pub proof fn lemma_parts_keep_prototypes(h: LuaHeader, s: Seq<u8>, pos: int, base: ChunkView)
    ensures
        spec_chunk_head(h, s, pos) is Ok ==> spec_chunk_head(h, s, pos)->Ok_0.0.prototypes
            == Seq::<ChunkView>::empty(),
        spec_chunk_back(h, s, pos, base) is Ok ==> spec_chunk_back(
            h,
            s,
            pos,
            base,
        )->Ok_0.0.prototypes == base.prototypes,
{
    reveal(spec_chunk_head);
    reveal(spec_chunk_back);
}

} // verus!
