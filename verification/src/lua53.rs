//! The Lua 5.3 prototype decoder.

use crate::chunk::{chunk, spec_chunk, Dialect};
use crate::error::{agrees, cut_law, fail, in_context, Context, DecodeError, ErrorKind, Parsed};
use crate::lua51::{counted, lemma_counted_cut, spec_counted, Instruction, SourceLine};
use crate::lua52::{upvalue_count, Upvalue};
use crate::model::{
    spec_vararg, vararg, ChunkView, ConstantView, Endianness, LocalView, LuaChunk, LuaConstant,
    LuaHeader, LuaLocal, LuaNumber,
};
use crate::number::{as_signed, lemma_lua_int_cut, lua_int, spec_lua_int, to_signed};
use crate::outside::{lossy_text, utf8_lossy};
use crate::read::{
    byte, bytes, fixed64, lemma_byte_cut, lemma_bytes_cut, lemma_fixed_cut, spec_byte, spec_bytes,
    spec_u64,
};
use crate::repeat::Reader;
use vstd::prelude::*;

verus! {

/// The length field of the string at `pos`: one byte, or, where that byte
/// is 255, the eight bytes after it, least significant first.
pub open spec fn spec_string_size(s: Seq<u8>, pos: int) -> Parsed<u64> {
    match spec_byte(s, pos) {
        Err(e) => Err(e),
        Ok((b, p1)) => if b == 0xFF {
            spec_u64(s, p1, Endianness::Little)
        } else {
            Ok((b as u64, p1))
        },
    }
}

/// The string at `pos`: a length field `n`, then `n - 1` bytes; a length
/// field of zero stands for the empty string.
pub open spec fn spec_load_string(s: Seq<u8>, pos: int) -> Parsed<Seq<u8>> {
    match spec_string_size(s, pos) {
        Err(e) => Err(e),
        Ok((n, p2)) => if n == 0 {
            Ok((Seq::empty(), p2))
        } else {
            spec_bytes(s, p2, (n - 1) as nat)
        },
    }
}

/// Reads a string.
pub fn load_string(input: &[u8], pos: usize) -> (r: Result<(Vec<u8>, usize), DecodeError>)
    ensures
        agrees(r, spec_load_string(input@, pos as int)),
{
    let (b, p1) = byte(input, pos)?;
    let (n, p2) = if b == 0xFF {
        fixed64(input, p1, Endianness::Little)?
    } else {
        (b as u64, p1)
    };
    if n == 0 {
        let empty: Vec<u8> = Vec::new();
        assert(empty.deep_view() =~= Seq::empty());
        Ok((empty, p2))
    } else {
        bytes(input, p2, n - 1)
    }
}

/// A string depends on the bytes it reads and on no others.
pub proof fn lemma_load_string_cut(s: Seq<u8>, pos: int, k: int)
    requires
        0 <= pos <= k <= s.len(),
    ensures
        cut_law(spec_load_string(s, pos), spec_load_string(s.take(k), pos), pos, k, s.len() as int),
{
    let n = s.len() as int;
    lemma_byte_cut(s, pos, k);
    if let Ok((b, p1)) = spec_byte(s, pos) {
        lemma_fixed_cut(s, p1, 8, Endianness::Little, if p1 <= k { k } else { n });
        if let Ok((size, p2)) = spec_string_size(s, pos) {
            if size != 0 {
                lemma_bytes_cut(s, p2, (size - 1) as nat, if p2 <= k { k } else { n });
            }
        }
    }
}

/// The local variable at `pos`: its name, then the first and the last
/// instruction of its life as "int"s.
pub open spec fn spec_lua_local(h: LuaHeader, s: Seq<u8>, pos: int) -> Parsed<LocalView> {
    in_context(
        match spec_load_string(s, pos) {
            Err(e) => Err(e),
            Ok((name, p1)) => match spec_lua_int(h, s, p1) {
                Err(e) => Err(e),
                Ok((start_pc, p2)) => match spec_lua_int(h, s, p2) {
                    Err(e) => Err(e),
                    Ok((end_pc, p3)) => Ok(
                        (LocalView { name: lossy_text(name), start_pc, end_pc, reg: 0 }, p3),
                    ),
                },
            },
        },
        Context::Local,
    )
}

/// Reads a local variable.
pub fn lua_local(header: &LuaHeader, input: &[u8], pos: usize) -> (r: Result<
    (LuaLocal, usize),
    DecodeError,
>)
    ensures
        agrees(r, spec_lua_local(*header, input@, pos as int)),
{
    let (name, p1) = match load_string(input, pos) {
        Ok(v) => v,
        Err(e) => { return Err(e.within(Context::Local)); },
    };
    let (start_pc, p2) = match lua_int(header, input, p1) {
        Ok(v) => v,
        Err(e) => { return Err(e.within(Context::Local)); },
    };
    let (end_pc, p3) = match lua_int(header, input, p2) {
        Ok(v) => v,
        Err(e) => { return Err(e.within(Context::Local)); },
    };
    assert(name.deep_view() =~= name@);
    Ok((LuaLocal { name: utf8_lossy(name.as_slice()), start_pc, end_pc, reg: 0 }, p3))
}

/// A local variable depends on the bytes it reads and on no others.
pub proof fn lemma_lua_local_cut(h: LuaHeader, s: Seq<u8>, pos: int, k: int)
    requires
        0 <= pos <= k <= s.len(),
    ensures
        cut_law(
            spec_lua_local(h, s, pos),
            spec_lua_local(h, s.take(k), pos),
            pos,
            k,
            s.len() as int,
        ),
{
    let n = s.len() as int;
    lemma_load_string_cut(s, pos, k);
    if let Ok((name, p1)) = spec_load_string(s, pos) {
        lemma_lua_int_cut(h, s, p1, if p1 <= k { k } else { n });
        if let Ok((start_pc, p2)) = spec_lua_int(h, s, p1) {
            lemma_lua_int_cut(h, s, p2, if p2 <= k { k } else { n });
        }
    }
}

/// The decoder of one constant: a tag byte, then for tag 0 nothing (nil),
/// for 1 a byte (a boolean, true unless zero), for 3 the eight bytes of a
/// double, for 0x13 the eight bytes of an integer, both least significant
/// byte first, for 4 and 0x14 a string. Any other tag is an
/// `UnknownConstantTag` at the tag.
pub struct Constant {}

impl Reader for Constant {
    type Out = LuaConstant;

    open spec fn spec_read(&self, s: Seq<u8>, pos: int) -> Parsed<ConstantView> {
        match spec_byte(s, pos) {
            Err(e) => Err(e),
            Ok((tag, at)) => if tag == 0 {
                Ok((ConstantView::Null, at))
            } else if tag == 1 {
                match spec_byte(s, at) {
                    Err(e) => Err(e),
                    Ok((b, next)) => Ok((ConstantView::Bool(b != 0), next)),
                }
            } else if tag == 3 {
                match spec_u64(s, at, Endianness::Little) {
                    Err(e) => Err(e),
                    Ok((v, next)) => Ok((ConstantView::Number(LuaNumber::Float(v)), next)),
                }
            } else if tag == 0x13 {
                match spec_u64(s, at, Endianness::Little) {
                    Err(e) => Err(e),
                    Ok((v, next)) => Ok(
                        (ConstantView::Number(LuaNumber::Integer(as_signed(v, 8))), next),
                    ),
                }
            } else if tag == 4 || tag == 0x14 {
                match spec_load_string(s, at) {
                    Err(e) => Err(e),
                    Ok((v, next)) => Ok((ConstantView::String(v), next)),
                }
            } else {
                fail(pos, ErrorKind::UnknownConstantTag)
            },
        }
    }

    fn read(&self, input: &[u8], pos: usize) -> (r: Result<(LuaConstant, usize), DecodeError>) {
        let (tag, at) = byte(input, pos)?;
        if tag == 0 {
            Ok((LuaConstant::Null, at))
        } else if tag == 1 {
            let (b, next) = byte(input, at)?;
            Ok((LuaConstant::Bool(b != 0), next))
        } else if tag == 3 {
            let (v, next) = fixed64(input, at, Endianness::Little)?;
            Ok((LuaConstant::Number(LuaNumber::Float(v)), next))
        } else if tag == 0x13 {
            let (v, next) = fixed64(input, at, Endianness::Little)?;
            Ok((LuaConstant::Number(LuaNumber::Integer(to_signed(v, 8))), next))
        } else if tag == 4 || tag == 0x14 {
            let (v, next) = load_string(input, at)?;
            assert(v.deep_view() =~= v@);
            let c = LuaConstant::String(v);
            assert(c.deep_view() == ConstantView::String(v@));
            Ok((c, next))
        } else {
            Err(DecodeError::new(pos, ErrorKind::UnknownConstantTag))
        }
    }

    proof fn lemma_cut(&self, s: Seq<u8>, pos: int, k: int) {
        lemma_byte_cut(s, pos, k);
        if let Ok((tag, at)) = spec_byte(s, pos) {
            let k1 = if at <= k { k } else { s.len() as int };
            lemma_byte_cut(s, at, k1);
            lemma_fixed_cut(s, at, 8, Endianness::Little, k1);
            lemma_load_string_cut(s, at, k1);
        }
    }
}

/// The decoder of one local variable.
pub struct Local {
    pub header: LuaHeader,
}

impl Reader for Local {
    type Out = LuaLocal;

    open spec fn spec_read(&self, s: Seq<u8>, pos: int) -> Parsed<LocalView> {
        spec_lua_local(self.header, s, pos)
    }

    fn read(&self, input: &[u8], pos: usize) -> (r: Result<(LuaLocal, usize), DecodeError>) {
        lua_local(&self.header, input, pos)
    }

    proof fn lemma_cut(&self, s: Seq<u8>, pos: int, k: int) {
        lemma_lua_local_cut(self.header, s, pos, k);
    }
}

/// The decoder of one upvalue name.
pub struct Name {}

impl Reader for Name {
    type Out = Vec<u8>;

    open spec fn spec_read(&self, s: Seq<u8>, pos: int) -> Parsed<Seq<u8>> {
        spec_load_string(s, pos)
    }

    fn read(&self, input: &[u8], pos: usize) -> (r: Result<(Vec<u8>, usize), DecodeError>) {
        load_string(input, pos)
    }

    proof fn lemma_cut(&self, s: Seq<u8>, pos: int, k: int) {
        lemma_load_string_cut(s, pos, k);
    }
}

/// The scalar fields of the prototype at `pos`, as a prototype that has
/// nothing else: a name, the first and the last line as "int"s, and three
/// bytes (parameter count, vararg flags, stack size).
#[verifier::opaque]
pub open spec fn spec_chunk_head(h: LuaHeader, s: Seq<u8>, pos: int) -> Parsed<ChunkView> {
    match spec_load_string(s, pos) {
        Err(e) => Err(e),
        Ok((name, p1)) => match spec_lua_int(h, s, p1) {
            Err(e) => Err(e),
            Ok((line_defined, p2)) => match spec_lua_int(h, s, p2) {
                Err(e) => Err(e),
                Ok((last_line_defined, p3)) => match spec_byte(s, p3) {
                    Err(e) => Err(e),
                    Ok((num_params, p4)) => match spec_byte(s, p4) {
                        Err(e) => Err(e),
                        Ok((is_vararg, p5)) => match spec_byte(s, p5) {
                            Err(e) => Err(e),
                            Ok((max_stack, p6)) => Ok(
                                (
                                    ChunkView {
                                        name,
                                        line_defined,
                                        last_line_defined,
                                        num_params,
                                        is_vararg: spec_vararg(is_vararg),
                                        max_stack,
                                        ..ChunkView::empty()
                                    },
                                    p6,
                                ),
                            ),
                        },
                    },
                },
            },
        },
    }
}

/// The prototype `base` with the three sequences that precede the nested
/// prototypes, read from `pos` on: instructions, constants and upvalue
/// descriptors, whose count becomes the upvalue count.
#[verifier::opaque]
pub open spec fn spec_chunk_front(h: LuaHeader, s: Seq<u8>, pos: int, base: ChunkView) -> Parsed<
    ChunkView,
> {
    match spec_counted(h, Instruction { header: h }, s, pos, Context::CountInstruction) {
        Err(e) => Err(e),
        Ok((instructions, p1)) => match spec_counted(
            h,
            Constant {  },
            s,
            p1,
            Context::CountConstants,
        ) {
            Err(e) => Err(e),
            Ok((constants, p2)) => match spec_counted(
                h,
                Upvalue {  },
                s,
                p2,
                Context::CountUpvalues,
            ) {
                Err(e) => Err(e),
                Ok((upvalue_infos, p3)) => Ok(
                    (
                        ChunkView {
                            instructions,
                            constants,
                            num_upvalues: upvalue_count(upvalue_infos.len()),
                            upvalue_infos,
                            ..base
                        },
                        p3,
                    ),
                ),
            },
        },
    }
}

/// The prototype `base` with the three sequences that follow the nested
/// prototypes, read from `pos` on: line table, locals and upvalue names.
#[verifier::opaque]
pub open spec fn spec_chunk_back(h: LuaHeader, s: Seq<u8>, pos: int, base: ChunkView) -> Parsed<
    ChunkView,
> {
    match spec_counted(h, SourceLine { header: h }, s, pos, Context::CountSourceLines) {
        Err(e) => Err(e),
        Ok((source_lines, p1)) => match spec_counted(
            h,
            Local { header: h },
            s,
            p1,
            Context::CountLocals,
        ) {
            Err(e) => Err(e),
            Ok((locals, p2)) => match spec_counted(h, Name {  }, s, p2, Context::CountUpvalNames) {
                Err(e) => Err(e),
                Ok((upvalue_names, p3)) => Ok(
                    (ChunkView { source_lines, locals, upvalue_names, ..base }, p3),
                ),
            },
        },
    }
}

/// Reads the scalar fields of a prototype.
pub fn chunk_head(header: &LuaHeader, input: &[u8], pos: usize) -> (r: Result<
    (LuaChunk, usize),
    DecodeError,
>)
    ensures
        agrees(r, spec_chunk_head(*header, input@, pos as int)),
{
    proof {
        reveal(spec_chunk_head);
        reveal(LuaChunk::model);
    }
    let (name, p1) = load_string(input, pos)?;
    let (line_defined, p2) = lua_int(header, input, p1)?;
    let (last_line_defined, p3) = lua_int(header, input, p2)?;
    let (num_params, p4) = byte(input, p3)?;
    let (is_vararg, p5) = byte(input, p4)?;
    let (max_stack, p6) = byte(input, p5)?;
    let mut chunk = LuaChunk::default();
    let ghost blank = chunk;
    chunk.name = name;
    chunk.line_defined = line_defined;
    chunk.last_line_defined = last_line_defined;
    chunk.num_params = num_params;
    chunk.is_vararg = vararg(is_vararg);
    chunk.max_stack = max_stack;
    assert(chunk.model().prototypes =~= blank.model().prototypes);
    Ok((chunk, p6))
}

/// Reads the instructions, the constants and the upvalue descriptors into
/// `base`.
pub fn chunk_front(header: &LuaHeader, input: &[u8], pos: usize, base: LuaChunk) -> (r: Result<
    (LuaChunk, usize),
    DecodeError,
>)
    ensures
        agrees(r, spec_chunk_front(*header, input@, pos as int, base.deep_view())),
{
    proof {
        reveal(spec_chunk_front);
        reveal(LuaChunk::model);
    }
    let h = *header;
    let (instructions, p1) = counted(
        header,
        &Instruction { header: h },
        input,
        pos,
        Context::CountInstruction,
    )?;
    let (constants, p2) = counted(header, &Constant {  }, input, p1, Context::CountConstants)?;
    let (upvalue_infos, p3) = counted(header, &Upvalue {  }, input, p2, Context::CountUpvalues)?;
    let mut chunk = base;
    chunk.instructions = instructions;
    chunk.constants = constants;
    chunk.num_upvalues = (upvalue_infos.len() % 0x100) as u8;
    chunk.upvalue_infos = upvalue_infos;
    assert(chunk.model().prototypes =~= base.model().prototypes);
    Ok((chunk, p3))
}

/// Reads the line table, the locals and the upvalue names into `base`.
pub fn chunk_back(header: &LuaHeader, input: &[u8], pos: usize, base: LuaChunk) -> (r: Result<
    (LuaChunk, usize),
    DecodeError,
>)
    ensures
        agrees(r, spec_chunk_back(*header, input@, pos as int, base.deep_view())),
{
    proof {
        reveal(spec_chunk_back);
        reveal(LuaChunk::model);
    }
    let h = *header;
    let (source_lines, p1) = counted(
        header,
        &SourceLine { header: h },
        input,
        pos,
        Context::CountSourceLines,
    )?;
    let (locals, p2) = counted(header, &Local { header: h }, input, p1, Context::CountLocals)?;
    let (upvalue_names, p3) = counted(header, &Name {  }, input, p2, Context::CountUpvalNames)?;
    let mut chunk = base;
    chunk.source_lines = source_lines;
    chunk.locals = locals;
    chunk.upvalue_names = upvalue_names;
    assert(chunk.model().prototypes =~= base.model().prototypes);
    Ok((chunk, p3))
}

/// The prototype at `pos`, nested at most `depth` levels deep.
///
/// The scalar fields come first, then instructions, constants, upvalue
/// descriptors, nested prototypes, line table, locals and upvalue names.
/// With no level left the prototype is a `DepthExceeded` at `pos`.
pub open spec fn spec_lua_chunk(h: LuaHeader, s: Seq<u8>, pos: int, depth: nat) -> Parsed<
    ChunkView,
> {
    spec_chunk(Dialect::Lua53, h, s, pos, depth)
}

/// Reads a prototype that may nest `depth` levels deep.
pub fn lua_chunk(header: &LuaHeader, input: &[u8], pos: usize, depth: usize) -> (r: Result<
    (LuaChunk, usize),
    DecodeError,
>)
    ensures
        agrees(r, spec_lua_chunk(*header, input@, pos as int, depth as nat)),
{
    chunk(Dialect::Lua53, header, input, pos, depth)
}

/// The root prototype at `pos`: one byte, the upvalue count of the root
/// closure, which is passed over, and the prototype.
pub open spec fn spec_lua_main_chunk(h: LuaHeader, s: Seq<u8>, pos: int, depth: nat) -> Parsed<
    ChunkView,
> {
    match spec_byte(s, pos) {
        Err(e) => Err(e),
        Ok((_, at)) => spec_lua_chunk(h, s, at, depth),
    }
}

/// Reads the root prototype of a file.
pub fn lua_main_chunk(header: &LuaHeader, input: &[u8], pos: usize, depth: usize) -> (r: Result<
    (LuaChunk, usize),
    DecodeError,
>)
    ensures
        agrees(r, spec_lua_main_chunk(*header, input@, pos as int, depth as nat)),
{
    let (_, at) = byte(input, pos)?;
    lua_chunk(header, input, at, depth)
}

/// The scalar fields depend on the bytes they are read from and on no
/// others.
pub proof fn lemma_chunk_head_cut(h: LuaHeader, s: Seq<u8>, pos: int, k: int)
    requires
        0 <= pos <= k <= s.len(),
    ensures
        cut_law(
            spec_chunk_head(h, s, pos),
            spec_chunk_head(h, s.take(k), pos),
            pos,
            k,
            s.len() as int,
        ),
{
    reveal(spec_chunk_head);
    let n = s.len() as int;
    lemma_load_string_cut(s, pos, k);
    if let Ok((name, p1)) = spec_load_string(s, pos) {
        lemma_lua_int_cut(h, s, p1, if p1 <= k { k } else { n });
        if let Ok((line_defined, p2)) = spec_lua_int(h, s, p1) {
            lemma_lua_int_cut(h, s, p2, if p2 <= k { k } else { n });
            if let Ok((last_line_defined, p3)) = spec_lua_int(h, s, p2) {
                lemma_byte_cut(s, p3, if p3 <= k { k } else { n });
                if let Ok((num_params, p4)) = spec_byte(s, p3) {
                    lemma_byte_cut(s, p4, if p4 <= k { k } else { n });
                    if let Ok((is_vararg, p5)) = spec_byte(s, p4) {
                        lemma_byte_cut(s, p5, if p5 <= k { k } else { n });
                    }
                }
            }
        }
    }
}

/// The sequences before the nested prototypes depend on the bytes they are
/// read from and on no others.
pub proof fn lemma_chunk_front_cut(h: LuaHeader, s: Seq<u8>, pos: int, base: ChunkView, k: int)
    requires
        0 <= pos <= s.len(),
        0 <= k <= s.len(),
    ensures
        pos <= k ==> cut_law(
            spec_chunk_front(h, s, pos, base),
            spec_chunk_front(h, s.take(k), pos, base),
            pos,
            k,
            s.len() as int,
        ),
        spec_chunk_front(h, s, pos, base) is Ok ==> pos <= spec_chunk_front(
            h,
            s,
            pos,
            base,
        )->Ok_0.1 <= s.len(),
{
    reveal(spec_chunk_front);
    lemma_counted_cut(h, Instruction { header: h }, s, pos, Context::CountInstruction, k);
    if let Ok((instructions, p1)) = spec_counted(
        h,
        Instruction { header: h },
        s,
        pos,
        Context::CountInstruction,
    ) {
        lemma_counted_cut(h, Constant {  }, s, p1, Context::CountConstants, k);
        if let Ok((constants, p2)) = spec_counted(
            h,
            Constant {  },
            s,
            p1,
            Context::CountConstants,
        ) {
            lemma_counted_cut(h, Upvalue {  }, s, p2, Context::CountUpvalues, k);
        }
    }
}

/// The sequences after the nested prototypes depend on the bytes they are
/// read from and on no others.
pub proof fn lemma_chunk_back_cut(h: LuaHeader, s: Seq<u8>, pos: int, base: ChunkView, k: int)
    requires
        0 <= pos <= s.len(),
        0 <= k <= s.len(),
    ensures
        pos <= k ==> cut_law(
            spec_chunk_back(h, s, pos, base),
            spec_chunk_back(h, s.take(k), pos, base),
            pos,
            k,
            s.len() as int,
        ),
        spec_chunk_back(h, s, pos, base) is Ok ==> pos <= spec_chunk_back(
            h,
            s,
            pos,
            base,
        )->Ok_0.1 <= s.len(),
{
    reveal(spec_chunk_back);
    lemma_counted_cut(h, SourceLine { header: h }, s, pos, Context::CountSourceLines, k);
    if let Ok((source_lines, p1)) = spec_counted(
        h,
        SourceLine { header: h },
        s,
        pos,
        Context::CountSourceLines,
    ) {
        lemma_counted_cut(h, Local { header: h }, s, p1, Context::CountLocals, k);
        if let Ok((locals, p2)) = spec_counted(
            h,
            Local { header: h },
            s,
            p1,
            Context::CountLocals,
        ) {
            lemma_counted_cut(h, Name {  }, s, p2, Context::CountUpvalNames, k);
        }
    }
}

/// The parts of a prototype other than its nested prototypes leave those
/// as they are.
pub proof fn lemma_parts_keep_prototypes(h: LuaHeader, s: Seq<u8>, pos: int, base: ChunkView)
    ensures
        spec_chunk_head(h, s, pos) is Ok ==> spec_chunk_head(h, s, pos)->Ok_0.0.prototypes
            == Seq::<ChunkView>::empty(),
        spec_chunk_front(h, s, pos, base) is Ok ==> spec_chunk_front(
            h,
            s,
            pos,
            base,
        )->Ok_0.0.prototypes == base.prototypes,
        spec_chunk_back(h, s, pos, base) is Ok ==> spec_chunk_back(
            h,
            s,
            pos,
            base,
        )->Ok_0.0.prototypes == base.prototypes,
{
    reveal(spec_chunk_head);
    reveal(spec_chunk_front);
    reveal(spec_chunk_back);
}

} // verus!
