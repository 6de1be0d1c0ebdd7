//! The Lua 5.4 prototype decoder.

use crate::chunk::{chunk, spec_chunk, Dialect};
use crate::error::{
    agrees, cut_law, fail, in_context, with_context, Context, DecodeError, ErrorKind, Parsed,
};
use crate::lua52::upvalue_count;
use crate::model::{
    spec_vararg, vararg, ChunkView, ConstantView, Endianness, LocalView, LuaChunk, LuaConstant,
    LuaHeader, LuaLocal, LuaNumber, UpVal,
};
use crate::number::{as_signed, to_signed};
use crate::outside::{lossy_text, utf8_lossy};
use crate::read::{
    byte, bytes, fixed32, fixed64, lemma_byte_cut, lemma_bytes_cut, lemma_fixed_cut,
    lemma_varint_wide_cut, spec_byte, spec_bytes, spec_u32, spec_u64, spec_varint_wide,
    varint_wide,
};
use crate::repeat::{lemma_repeat_cut, repeat, spec_repeat, Reader};
use vstd::prelude::*;

verus! {

/// The ceiling of an "int": the largest 32-bit signed integer.
pub const INT_LIMIT: u64 = 0x7fff_ffff;

/// The ceiling of a "size": the largest 64-bit unsigned integer.
pub const SIZE_LIMIT: u64 = 0xffff_ffff_ffff_ffff;

/// The variable-length integer at `pos`, under the ceiling `limit`: a
/// LEB128 integer of at most ten bytes.
///
/// Each byte gives seven bits, the least significant group first; a byte
/// with its high bit set is followed by another. An integer above `limit`,
/// or one that goes on beyond ten bytes, is an `IntegerOverflow` at `pos`;
/// one that the input cuts short is `Truncated` at the end of the input.
pub open spec fn spec_load_unsigned(s: Seq<u8>, pos: int, limit: u64) -> Parsed<u64> {
    match spec_varint_wide(s, pos, 10, false) {
        Err(e) => Err(e),
        Ok((v, next)) => if v <= limit {
            Ok((v as u64, next))
        } else {
            fail(pos, ErrorKind::IntegerOverflow)
        },
    }
}

/// The "size" at `pos`.
pub open spec fn spec_load_size(s: Seq<u8>, pos: int) -> Parsed<u64> {
    spec_load_unsigned(s, pos, SIZE_LIMIT)
}

/// The "int" at `pos`.
pub open spec fn spec_lua_int(s: Seq<u8>, pos: int) -> Parsed<u64> {
    spec_load_unsigned(s, pos, INT_LIMIT)
}

/// Reads a variable-length integer under the ceiling `limit`.
pub fn load_unsigned(input: &[u8], pos: usize, limit: u64) -> (r: Result<
    (u64, usize),
    DecodeError,
>)
    ensures
        agrees(r, spec_load_unsigned(input@, pos as int, limit)),
{
    let (v, next) = varint_wide(input, pos, 10, false)?;
    if v <= limit as u128 {
        Ok((v as u64, next))
    } else {
        Err(DecodeError::new(pos, ErrorKind::IntegerOverflow))
    }
}

/// Reads a "size".
pub fn load_size(input: &[u8], pos: usize) -> (r: Result<(u64, usize), DecodeError>)
    ensures
        agrees(r, spec_load_size(input@, pos as int)),
{
    load_unsigned(input, pos, SIZE_LIMIT)
}

/// Reads an "int".
pub fn lua_int(input: &[u8], pos: usize) -> (r: Result<(u64, usize), DecodeError>)
    ensures
        agrees(r, spec_lua_int(input@, pos as int)),
{
    load_unsigned(input, pos, INT_LIMIT)
}

/// A "size" and an "int" depend on their bytes alone.
pub proof fn lemma_lua_int_cut(s: Seq<u8>, pos: int, k: int)
    requires
        0 <= pos <= k <= s.len(),
    ensures
        cut_law(spec_lua_int(s, pos), spec_lua_int(s.take(k), pos), pos, k, s.len() as int),
        cut_law(spec_load_size(s, pos), spec_load_size(s.take(k), pos), pos, k, s.len() as int),
{
    lemma_varint_wide_cut(s, pos, 10, false, k);
}

/// The string at `pos`: a "size" `n`, then `n - 1` bytes; a size of zero
/// stands for the empty string.
pub open spec fn spec_load_string(s: Seq<u8>, pos: int) -> Parsed<Seq<u8>> {
    match spec_load_size(s, pos) {
        Err(e) => Err(e),
        Ok((n, at)) => if n == 0 {
            Ok((Seq::empty(), at))
        } else {
            in_context(spec_bytes(s, at, (n - 1) as nat), Context::String)
        },
    }
}

/// Reads a string.
pub fn load_string(input: &[u8], pos: usize) -> (r: Result<(Vec<u8>, usize), DecodeError>)
    ensures
        agrees(r, spec_load_string(input@, pos as int)),
{
    let (n, at) = load_size(input, pos)?;
    if n == 0 {
        let empty: Vec<u8> = Vec::new();
        assert(empty.deep_view() =~= Seq::empty());
        Ok((empty, at))
    } else {
        with_context(bytes(input, at, n - 1), Context::String)
    }
}

/// A string depends on the bytes it reads and on no others.
pub proof fn lemma_load_string_cut(s: Seq<u8>, pos: int, k: int)
    requires
        0 <= pos <= k <= s.len(),
    ensures
        cut_law(spec_load_string(s, pos), spec_load_string(s.take(k), pos), pos, k, s.len() as int),
{
    lemma_lua_int_cut(s, pos, k);
    if let Ok((n, at)) = spec_load_size(s, pos) {
        if n != 0 {
            lemma_bytes_cut(s, at, (n - 1) as nat, if at <= k { k } else { s.len() as int });
        }
    }
}

/// The upvalue descriptor at `pos`: a byte that is non-zero for an upvalue
/// on the enclosing stack, an index, and a kind.
pub open spec fn spec_load_upvalue(s: Seq<u8>, pos: int) -> Parsed<UpVal> {
    match spec_byte(s, pos) {
        Err(e) => Err(e),
        Ok((on_stack, p1)) => match spec_byte(s, p1) {
            Err(e) => Err(e),
            Ok((id, p2)) => match spec_byte(s, p2) {
                Err(e) => Err(e),
                Ok((kind, p3)) => Ok((UpVal { on_stack: on_stack != 0, id, kind }, p3)),
            },
        },
    }
}

/// Reads an upvalue descriptor.
pub fn load_upvalue(input: &[u8], pos: usize) -> (r: Result<(UpVal, usize), DecodeError>)
    ensures
        agrees(r, spec_load_upvalue(input@, pos as int)),
{
    let (on_stack, p1) = byte(input, pos)?;
    let (id, p2) = byte(input, p1)?;
    let (kind, p3) = byte(input, p2)?;
    Ok((UpVal { on_stack: on_stack != 0, id, kind }, p3))
}

/// The local variable at `pos`: its name, then the first and the last
/// instruction of its life as "int"s.
pub open spec fn spec_lua_local(s: Seq<u8>, pos: int) -> Parsed<LocalView> {
    in_context(
        match spec_load_string(s, pos) {
            Err(e) => Err(e),
            Ok((name, p1)) => match spec_lua_int(s, p1) {
                Err(e) => Err(e),
                Ok((start_pc, p2)) => match spec_lua_int(s, p2) {
                    Err(e) => Err(e),
                    Ok((end_pc, p3)) => Ok(
                        (LocalView { name: lossy_text(name), start_pc, end_pc, reg: 0 }, p3),
                    ),
                },
            },
        },
        Context::Local,
    )
}

/// Reads a local variable. The header plays no part: the widths of this
/// dialect are fixed.
pub fn lua_local(_header: &LuaHeader, input: &[u8], pos: usize) -> (r: Result<
    (LuaLocal, usize),
    DecodeError,
>)
    ensures
        agrees(r, spec_lua_local(input@, pos as int)),
{
    let (name, p1) = match load_string(input, pos) {
        Ok(v) => v,
        Err(e) => { return Err(e.within(Context::Local)); },
    };
    let (start_pc, p2) = match lua_int(input, p1) {
        Ok(v) => v,
        Err(e) => { return Err(e.within(Context::Local)); },
    };
    let (end_pc, p3) = match lua_int(input, p2) {
        Ok(v) => v,
        Err(e) => { return Err(e.within(Context::Local)); },
    };
    assert(name.deep_view() =~= name@);
    Ok((LuaLocal { name: utf8_lossy(name.as_slice()), start_pc, end_pc, reg: 0 }, p3))
}

/// A local variable depends on the bytes it reads and on no others.
pub proof fn lemma_lua_local_cut(s: Seq<u8>, pos: int, k: int)
    requires
        0 <= pos <= k <= s.len(),
    ensures
        cut_law(spec_lua_local(s, pos), spec_lua_local(s.take(k), pos), pos, k, s.len() as int),
{
    let n = s.len() as int;
    lemma_load_string_cut(s, pos, k);
    if let Ok((name, p1)) = spec_load_string(s, pos) {
        lemma_lua_int_cut(s, p1, if p1 <= k { k } else { n });
        if let Ok((start_pc, p2)) = spec_lua_int(s, p1) {
            lemma_lua_int_cut(s, p2, if p2 <= k { k } else { n });
        }
    }
}

/// The decoder of one instruction word: four bytes in the file's byte
/// order.
pub struct Instruction {
    pub header: LuaHeader,
}

impl Reader for Instruction {
    type Out = u32;

    open spec fn spec_read(&self, s: Seq<u8>, pos: int) -> Parsed<u32> {
        spec_u32(s, pos, self.header.spec_endian())
    }

    fn read(&self, input: &[u8], pos: usize) -> (r: Result<(u32, usize), DecodeError>) {
        fixed32(input, pos, self.header.endian())
    }

    proof fn lemma_cut(&self, s: Seq<u8>, pos: int, k: int) {
        lemma_fixed_cut(s, pos, 4, self.header.spec_endian(), k);
    }
}

/// The decoder of one constant: a tag byte, then for tag 0 nothing (nil),
/// for 1 nothing (false), for 0x11 nothing (true), for 0x13 the eight bytes
/// of a double, for 3 the eight bytes of an integer, both least significant
/// byte first, for 4 and 0x14 a string. Any other tag is an
/// `UnknownConstantTag` at the tag.
pub struct Constant {}

impl Reader for Constant {
    type Out = LuaConstant;

    open spec fn spec_read(&self, s: Seq<u8>, pos: int) -> Parsed<ConstantView> {
        match spec_byte(s, pos) {
            Err(e) => Err(e),
            Ok((tag, at)) => if tag == 0 {
                Ok((ConstantView::Null, at))
            } else if tag == 1 {
                Ok((ConstantView::Bool(false), at))
            } else if tag == 0x11 {
                Ok((ConstantView::Bool(true), at))
            } else if tag == 0x13 {
                match spec_u64(s, at, Endianness::Little) {
                    Err(e) => Err(e),
                    Ok((v, next)) => Ok((ConstantView::Number(LuaNumber::Float(v)), next)),
                }
            } else if tag == 3 {
                match spec_u64(s, at, Endianness::Little) {
                    Err(e) => Err(e),
                    Ok((v, next)) => Ok(
                        (ConstantView::Number(LuaNumber::Integer(as_signed(v, 8))), next),
                    ),
                }
            } else if tag == 4 || tag == 0x14 {
                match spec_load_string(s, at) {
                    Err(e) => Err(e),
                    Ok((v, next)) => Ok((ConstantView::String(v), next)),
                }
            } else {
                fail(pos, ErrorKind::UnknownConstantTag)
            },
        }
    }

    fn read(&self, input: &[u8], pos: usize) -> (r: Result<(LuaConstant, usize), DecodeError>) {
        let (tag, at) = byte(input, pos)?;
        if tag == 0 {
            Ok((LuaConstant::Null, at))
        } else if tag == 1 {
            Ok((LuaConstant::Bool(false), at))
        } else if tag == 0x11 {
            Ok((LuaConstant::Bool(true), at))
        } else if tag == 0x13 {
            let (v, next) = fixed64(input, at, Endianness::Little)?;
            Ok((LuaConstant::Number(LuaNumber::Float(v)), next))
        } else if tag == 3 {
            let (v, next) = fixed64(input, at, Endianness::Little)?;
            Ok((LuaConstant::Number(LuaNumber::Integer(to_signed(v, 8))), next))
        } else if tag == 4 || tag == 0x14 {
            let (v, next) = load_string(input, at)?;
            assert(v.deep_view() =~= v@);
            let c = LuaConstant::String(v);
            assert(c.deep_view() == ConstantView::String(v@));
            Ok((c, next))
        } else {
            Err(DecodeError::new(pos, ErrorKind::UnknownConstantTag))
        }
    }

    proof fn lemma_cut(&self, s: Seq<u8>, pos: int, k: int) {
        lemma_byte_cut(s, pos, k);
        if let Ok((tag, at)) = spec_byte(s, pos) {
            let k1 = if at <= k { k } else { s.len() as int };
            lemma_fixed_cut(s, at, 8, Endianness::Little, k1);
            lemma_load_string_cut(s, at, k1);
        }
    }
}

/// The decoder of one upvalue descriptor.
pub struct Upvalue {}

impl Reader for Upvalue {
    type Out = UpVal;

    open spec fn spec_read(&self, s: Seq<u8>, pos: int) -> Parsed<UpVal> {
        spec_load_upvalue(s, pos)
    }

    fn read(&self, input: &[u8], pos: usize) -> (r: Result<(UpVal, usize), DecodeError>) {
        load_upvalue(input, pos)
    }

    proof fn lemma_cut(&self, s: Seq<u8>, pos: int, k: int) {
        let n = s.len() as int;
        lemma_byte_cut(s, pos, k);
        if let Ok((on_stack, p1)) = spec_byte(s, pos) {
            lemma_byte_cut(s, p1, if p1 <= k { k } else { n });
            if let Ok((id, p2)) = spec_byte(s, p1) {
                lemma_byte_cut(s, p2, if p2 <= k { k } else { n });
            }
        }
    }
}

/// The decoder of one byte of the per-instruction line information.
pub struct LineInfo {}

impl Reader for LineInfo {
    type Out = u8;

    open spec fn spec_read(&self, s: Seq<u8>, pos: int) -> Parsed<u8> {
        spec_byte(s, pos)
    }

    fn read(&self, input: &[u8], pos: usize) -> (r: Result<(u8, usize), DecodeError>) {
        byte(input, pos)
    }

    proof fn lemma_cut(&self, s: Seq<u8>, pos: int, k: int) {
        lemma_byte_cut(s, pos, k);
    }
}

/// The decoder of one entry of the line table: two "int"s, an instruction
/// and its line, each cut to 32 bits.
pub struct SourceLine {}

impl Reader for SourceLine {
    type Out = (u32, u32);

    open spec fn spec_read(&self, s: Seq<u8>, pos: int) -> Parsed<(u32, u32)> {
        match spec_lua_int(s, pos) {
            Err(e) => Err(e),
            Ok((a, p1)) => match spec_lua_int(s, p1) {
                Err(e) => Err(e),
                Ok((b, p2)) => Ok(
                    (((a % 0x1_0000_0000) as u32, (b % 0x1_0000_0000) as u32), p2),
                ),
            },
        }
    }

    fn read(&self, input: &[u8], pos: usize) -> (r: Result<((u32, u32), usize), DecodeError>) {
        let (a, p1) = lua_int(input, pos)?;
        let (b, p2) = lua_int(input, p1)?;
        Ok((((a % 0x1_0000_0000) as u32, (b % 0x1_0000_0000) as u32), p2))
    }

    proof fn lemma_cut(&self, s: Seq<u8>, pos: int, k: int) {
        lemma_lua_int_cut(s, pos, k);
        if let Ok((a, p1)) = spec_lua_int(s, pos) {
            lemma_lua_int_cut(s, p1, if p1 <= k { k } else { s.len() as int });
        }
    }
}

/// The decoder of one local variable.
pub struct Local {}

impl Reader for Local {
    type Out = LuaLocal;

    open spec fn spec_read(&self, s: Seq<u8>, pos: int) -> Parsed<LocalView> {
        spec_lua_local(s, pos)
    }

    fn read(&self, input: &[u8], pos: usize) -> (r: Result<(LuaLocal, usize), DecodeError>) {
        let header = LuaHeader::default();
        lua_local(&header, input, pos)
    }

    proof fn lemma_cut(&self, s: Seq<u8>, pos: int, k: int) {
        lemma_lua_local_cut(s, pos, k);
    }
}

/// The decoder of one upvalue name.
pub struct Name {}

impl Reader for Name {
    type Out = Vec<u8>;

    open spec fn spec_read(&self, s: Seq<u8>, pos: int) -> Parsed<Seq<u8>> {
        spec_load_string(s, pos)
    }

    fn read(&self, input: &[u8], pos: usize) -> (r: Result<(Vec<u8>, usize), DecodeError>) {
        load_string(input, pos)
    }

    proof fn lemma_cut(&self, s: Seq<u8>, pos: int, k: int) {
        lemma_load_string_cut(s, pos, k);
    }
}

/// A counted sequence at `pos`: an "int" that gives the count, then that
/// many elements, all within the construct `c`.
pub open spec fn spec_counted<R: Reader>(r: R, s: Seq<u8>, pos: int, c: Context) -> Parsed<
    Seq<<R::Out as DeepView>::V>,
> {
    in_context(
        match spec_lua_int(s, pos) {
            Err(e) => Err(e),
            Ok((n, at)) => spec_repeat(r, s, at, n as nat),
        },
        c,
    )
}

/// Reads a counted sequence.
pub fn counted<R: Reader>(r: &R, input: &[u8], pos: usize, c: Context) -> (out: Result<
    (Vec<R::Out>, usize),
    DecodeError,
>)
    ensures
        agrees(out, spec_counted(*r, input@, pos as int, c)),
{
    let (n, at) = match lua_int(input, pos) {
        Ok(v) => v,
        Err(e) => { return Err(e.within(c)); },
    };
    with_context(repeat(r, input, at, n), c)
}

/// A counted sequence depends on the bytes it reads and on no others.
pub proof fn lemma_counted_cut<R: Reader>(r: R, s: Seq<u8>, pos: int, c: Context, k: int)
    requires
        0 <= pos <= s.len(),
        0 <= k <= s.len(),
    ensures
        pos <= k ==> cut_law(
            spec_counted(r, s, pos, c),
            spec_counted(r, s.take(k), pos, c),
            pos,
            k,
            s.len() as int,
        ),
        spec_counted(r, s, pos, c) is Ok ==> pos <= spec_counted(r, s, pos, c)->Ok_0.1 <= s.len(),
{
    let k0 = if pos <= k { k } else { s.len() as int };
    lemma_lua_int_cut(s, pos, k0);
    if let Ok((n, at)) = spec_lua_int(s, pos) {
        lemma_repeat_cut(r, s, at, n as nat, if at <= k0 { k0 } else { s.len() as int });
    }
}

/// The scalar fields of the prototype at `pos`, as a prototype that has
/// nothing else: a name, the first and the last line as "int"s, and three
/// bytes (parameter count, vararg flags, stack size), all within the
/// construct `ChunkHeader`.
#[verifier::opaque]
pub open spec fn spec_chunk_head(s: Seq<u8>, pos: int) -> Parsed<ChunkView> {
    in_context(
        match spec_load_string(s, pos) {
            Err(e) => Err(e),
            Ok((name, p1)) => match spec_lua_int(s, p1) {
                Err(e) => Err(e),
                Ok((line_defined, p2)) => match spec_lua_int(s, p2) {
                    Err(e) => Err(e),
                    Ok((last_line_defined, p3)) => match spec_byte(s, p3) {
                        Err(e) => Err(e),
                        Ok((num_params, p4)) => match spec_byte(s, p4) {
                            Err(e) => Err(e),
                            Ok((is_vararg, p5)) => match spec_byte(s, p5) {
                                Err(e) => Err(e),
                                Ok((max_stack, p6)) => Ok(
                                    (
                                        ChunkView {
                                            name,
                                            line_defined,
                                            last_line_defined,
                                            num_params,
                                            is_vararg: spec_vararg(is_vararg),
                                            max_stack,
                                            ..ChunkView::empty()
                                        },
                                        p6,
                                    ),
                                ),
                            },
                        },
                    },
                },
            },
        },
        Context::ChunkHeader,
    )
}

/// The prototype `base` with the three sequences that precede the nested
/// prototypes, read from `pos` on: instructions, constants and upvalue
/// descriptors, whose count becomes the upvalue count.
#[verifier::opaque]
pub open spec fn spec_chunk_front(h: LuaHeader, s: Seq<u8>, pos: int, base: ChunkView) -> Parsed<
    ChunkView,
> {
    match spec_counted(Instruction { header: h }, s, pos, Context::CountInstruction) {
        Err(e) => Err(e),
        Ok((instructions, p1)) => match spec_counted(
            Constant {  },
            s,
            p1,
            Context::CountConstants,
        ) {
            Err(e) => Err(e),
            Ok((constants, p2)) => match spec_counted(
                Upvalue {  },
                s,
                p2,
                Context::CountUpvalues,
            ) {
                Err(e) => Err(e),
                Ok((upvalue_infos, p3)) => Ok(
                    (
                        ChunkView {
                            instructions,
                            constants,
                            num_upvalues: upvalue_count(upvalue_infos.len()),
                            upvalue_infos,
                            ..base
                        },
                        p3,
                    ),
                ),
            },
        },
    }
}

/// The prototype `base` with what follows the nested prototypes, read from
/// `pos` on: the per-instruction line information, which is read and not
/// kept, the line table, locals and upvalue names.
#[verifier::opaque]
pub open spec fn spec_chunk_back(s: Seq<u8>, pos: int, base: ChunkView) -> Parsed<ChunkView> {
    match spec_counted(LineInfo {  }, s, pos, Context::CountLineInfo) {
        Err(e) => Err(e),
        Ok((line_info, p1)) => match spec_counted(
            SourceLine {  },
            s,
            p1,
            Context::CountSourceLines,
        ) {
            Err(e) => Err(e),
            Ok((source_lines, p2)) => match spec_counted(
                Local {  },
                s,
                p2,
                Context::CountLocals,
            ) {
                Err(e) => Err(e),
                Ok((locals, p3)) => match spec_counted(
                    Name {  },
                    s,
                    p3,
                    Context::CountUpvalNames,
                ) {
                    Err(e) => Err(e),
                    Ok((upvalue_names, p4)) => Ok(
                        (ChunkView { source_lines, locals, upvalue_names, ..base }, p4),
                    ),
                },
            },
        },
    }
}

/// Reads the scalar fields of a prototype.
pub fn chunk_head(input: &[u8], pos: usize) -> (r: Result<(LuaChunk, usize), DecodeError>)
    ensures
        agrees(r, spec_chunk_head(input@, pos as int)),
{
    proof {
        reveal(spec_chunk_head);
        reveal(LuaChunk::model);
    }
    let (name, p1) = match load_string(input, pos) {
        Ok(v) => v,
        Err(e) => { return Err(e.within(Context::ChunkHeader)); },
    };
    let (line_defined, p2) = match lua_int(input, p1) {
        Ok(v) => v,
        Err(e) => { return Err(e.within(Context::ChunkHeader)); },
    };
    let (last_line_defined, p3) = match lua_int(input, p2) {
        Ok(v) => v,
        Err(e) => { return Err(e.within(Context::ChunkHeader)); },
    };
    let (num_params, p4) = match byte(input, p3) {
        Ok(v) => v,
        Err(e) => { return Err(e.within(Context::ChunkHeader)); },
    };
    let (is_vararg, p5) = match byte(input, p4) {
        Ok(v) => v,
        Err(e) => { return Err(e.within(Context::ChunkHeader)); },
    };
    let (max_stack, p6) = match byte(input, p5) {
        Ok(v) => v,
        Err(e) => { return Err(e.within(Context::ChunkHeader)); },
    };
    let mut chunk = LuaChunk::default();
    let ghost blank = chunk;
    chunk.name = name;
    chunk.line_defined = line_defined;
    chunk.last_line_defined = last_line_defined;
    chunk.num_params = num_params;
    chunk.is_vararg = vararg(is_vararg);
    chunk.max_stack = max_stack;
    assert(chunk.model().prototypes =~= blank.model().prototypes);
    Ok((chunk, p6))
}

/// Reads the instructions, the constants and the upvalue descriptors into
/// `base`.
pub fn chunk_front(header: &LuaHeader, input: &[u8], pos: usize, base: LuaChunk) -> (r: Result<
    (LuaChunk, usize),
    DecodeError,
>)
    ensures
        agrees(r, spec_chunk_front(*header, input@, pos as int, base.deep_view())),
{
    proof {
        reveal(spec_chunk_front);
        reveal(LuaChunk::model);
    }
    let (instructions, p1) = counted(
        &Instruction { header: *header },
        input,
        pos,
        Context::CountInstruction,
    )?;
    let (constants, p2) = counted(&Constant {  }, input, p1, Context::CountConstants)?;
    let (upvalue_infos, p3) = counted(&Upvalue {  }, input, p2, Context::CountUpvalues)?;
    let mut chunk = base;
    chunk.instructions = instructions;
    chunk.constants = constants;
    chunk.num_upvalues = (upvalue_infos.len() % 0x100) as u8;
    chunk.upvalue_infos = upvalue_infos;
    assert(chunk.model().prototypes =~= base.model().prototypes);
    Ok((chunk, p3))
}

/// Reads what follows the nested prototypes into `base`.
pub fn chunk_back(input: &[u8], pos: usize, base: LuaChunk) -> (r: Result<
    (LuaChunk, usize),
    DecodeError,
>)
    ensures
        agrees(r, spec_chunk_back(input@, pos as int, base.deep_view())),
{
    proof {
        reveal(spec_chunk_back);
        reveal(LuaChunk::model);
    }
    let (_line_info, p1) = counted(&LineInfo {  }, input, pos, Context::CountLineInfo)?;
    let (source_lines, p2) = counted(&SourceLine {  }, input, p1, Context::CountSourceLines)?;
    let (locals, p3) = counted(&Local {  }, input, p2, Context::CountLocals)?;
    let (upvalue_names, p4) = counted(&Name {  }, input, p3, Context::CountUpvalNames)?;
    let mut chunk = base;
    chunk.source_lines = source_lines;
    chunk.locals = locals;
    chunk.upvalue_names = upvalue_names;
    assert(chunk.model().prototypes =~= base.model().prototypes);
    Ok((chunk, p4))
}

/// The prototype at `pos`, nested at most `depth` levels deep.
///
/// The scalar fields come first, then instructions, constants, upvalue
/// descriptors, nested prototypes, per-instruction line information, line
/// table, locals and upvalue names. With no level left the prototype is a
/// `DepthExceeded` at `pos`.
pub open spec fn spec_lua_chunk(h: LuaHeader, s: Seq<u8>, pos: int, depth: nat) -> Parsed<
    ChunkView,
> {
    spec_chunk(Dialect::Lua54, h, s, pos, depth)
}

/// Reads a prototype that may nest `depth` levels deep.
pub fn lua_chunk(header: &LuaHeader, input: &[u8], pos: usize, depth: usize) -> (r: Result<
    (LuaChunk, usize),
    DecodeError,
>)
    ensures
        agrees(r, spec_lua_chunk(*header, input@, pos as int, depth as nat)),
{
    chunk(Dialect::Lua54, header, input, pos, depth)
}

/// The scalar fields depend on the bytes they are read from and on no
/// others.
pub proof fn lemma_chunk_head_cut(s: Seq<u8>, pos: int, k: int)
    requires
        0 <= pos <= k <= s.len(),
    ensures
        cut_law(spec_chunk_head(s, pos), spec_chunk_head(s.take(k), pos), pos, k, s.len() as int),
{
    reveal(spec_chunk_head);
    let n = s.len() as int;
    lemma_load_string_cut(s, pos, k);
    if let Ok((name, p1)) = spec_load_string(s, pos) {
        lemma_lua_int_cut(s, p1, if p1 <= k { k } else { n });
        if let Ok((line_defined, p2)) = spec_lua_int(s, p1) {
            lemma_lua_int_cut(s, p2, if p2 <= k { k } else { n });
            if let Ok((last_line_defined, p3)) = spec_lua_int(s, p2) {
                lemma_byte_cut(s, p3, if p3 <= k { k } else { n });
                if let Ok((num_params, p4)) = spec_byte(s, p3) {
                    lemma_byte_cut(s, p4, if p4 <= k { k } else { n });
                    if let Ok((is_vararg, p5)) = spec_byte(s, p4) {
                        lemma_byte_cut(s, p5, if p5 <= k { k } else { n });
                    }
                }
            }
        }
    }
}

/// The sequences before the nested prototypes depend on the bytes they are
/// read from and on no others.
pub proof fn lemma_chunk_front_cut(h: LuaHeader, s: Seq<u8>, pos: int, base: ChunkView, k: int)
    requires
        0 <= pos <= s.len(),
        0 <= k <= s.len(),
    ensures
        pos <= k ==> cut_law(
            spec_chunk_front(h, s, pos, base),
            spec_chunk_front(h, s.take(k), pos, base),
            pos,
            k,
            s.len() as int,
        ),
        spec_chunk_front(h, s, pos, base) is Ok ==> pos <= spec_chunk_front(
            h,
            s,
            pos,
            base,
        )->Ok_0.1 <= s.len(),
{
    reveal(spec_chunk_front);
    lemma_counted_cut(Instruction { header: h }, s, pos, Context::CountInstruction, k);
    if let Ok((instructions, p1)) = spec_counted(
        Instruction { header: h },
        s,
        pos,
        Context::CountInstruction,
    ) {
        lemma_counted_cut(Constant {  }, s, p1, Context::CountConstants, k);
        if let Ok((constants, p2)) = spec_counted(Constant {  }, s, p1, Context::CountConstants) {
            lemma_counted_cut(Upvalue {  }, s, p2, Context::CountUpvalues, k);
        }
    }
}

/// What follows the nested prototypes depends on the bytes it is read from
/// and on no others.
pub proof fn lemma_chunk_back_cut(s: Seq<u8>, pos: int, base: ChunkView, k: int)
    requires
        0 <= pos <= s.len(),
        0 <= k <= s.len(),
    ensures
        pos <= k ==> cut_law(
            spec_chunk_back(s, pos, base),
            spec_chunk_back(s.take(k), pos, base),
            pos,
            k,
            s.len() as int,
        ),
        spec_chunk_back(s, pos, base) is Ok ==> pos <= spec_chunk_back(s, pos, base)->Ok_0.1
            <= s.len(),
{
    reveal(spec_chunk_back);
    lemma_counted_cut(LineInfo {  }, s, pos, Context::CountLineInfo, k);
    if let Ok((line_info, p1)) = spec_counted(LineInfo {  }, s, pos, Context::CountLineInfo) {
        lemma_counted_cut(SourceLine {  }, s, p1, Context::CountSourceLines, k);
        if let Ok((source_lines, p2)) = spec_counted(
            SourceLine {  },
            s,
            p1,
            Context::CountSourceLines,
        ) {
            lemma_counted_cut(Local {  }, s, p2, Context::CountLocals, k);
            if let Ok((locals, p3)) = spec_counted(Local {  }, s, p2, Context::CountLocals) {
                lemma_counted_cut(Name {  }, s, p3, Context::CountUpvalNames, k);
            }
        }
    }
}

/// The parts of a prototype other than its nested prototypes leave those
/// as they are.
pub proof fn lemma_parts_keep_prototypes(h: LuaHeader, s: Seq<u8>, pos: int, base: ChunkView)
    ensures
        spec_chunk_head(s, pos) is Ok ==> spec_chunk_head(s, pos)->Ok_0.0.prototypes == Seq::<
            ChunkView,
        >::empty(),
        spec_chunk_front(h, s, pos, base) is Ok ==> spec_chunk_front(
            h,
            s,
            pos,
            base,
        )->Ok_0.0.prototypes == base.prototypes,
        spec_chunk_back(s, pos, base) is Ok ==> spec_chunk_back(s, pos, base)->Ok_0.0.prototypes
            == base.prototypes,
{
    reveal(spec_chunk_head);
    reveal(spec_chunk_front);
    reveal(spec_chunk_back);
}

} // verus!
