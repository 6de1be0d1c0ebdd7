//! The Lua 5.1 prototype decoder.

use crate::chunk::{chunk, spec_chunk, Dialect};
use crate::error::{
    agrees, cut_law, fail, in_context, with_context, Context, DecodeError, ErrorKind, Parsed,
};
use crate::model::{
    spec_vararg, vararg, ChunkView, ConstantView, LocalView, LuaChunk, LuaConstant, LuaHeader,
    LuaLocal,
};
use crate::number::{
    lemma_lua_int_cut, lemma_lua_number_cut, lua_int, lua_number, lua_size_t, spec_lua_int,
    spec_lua_number, spec_lua_size_t,
};
use crate::outside::{lossy_text, utf8_lossy};
use crate::read::{
    byte, bytes, fixed32, lemma_byte_cut, lemma_bytes_cut, lemma_fixed_cut, spec_byte, spec_bytes,
    spec_u32,
};
use crate::repeat::{lemma_repeat_cut, repeat, spec_repeat, Reader};
use vstd::prelude::*;

verus! {

/// The string at `pos`: a "size", then that many bytes, of which the last
/// (a terminating zero) is dropped.
pub open spec fn spec_lua_string(h: LuaHeader, s: Seq<u8>, pos: int) -> Parsed<Seq<u8>> {
    in_context(
        match spec_lua_size_t(h, s, pos) {
            Err(e) => Err(e),
            Ok((n, at)) => match spec_bytes(s, at, n as nat) {
                Err(e) => Err(e),
                Ok((data, next)) => Ok(
                    (
                        if data.len() == 0 {
                            data
                        } else {
                            data.drop_last()
                        },
                        next,
                    ),
                ),
            },
        },
        Context::String,
    )
}

/// Reads a string.
pub fn lua_string(header: &LuaHeader, input: &[u8], pos: usize) -> (r: Result<
    (Vec<u8>, usize),
    DecodeError,
>)
    ensures
        agrees(r, spec_lua_string(*header, input@, pos as int)),
{
    let (n, at) = match lua_size_t(header, input, pos) {
        Ok(v) => v,
        Err(e) => { return Err(e.within(Context::String)); },
    };
    let (mut data, next) = match bytes(input, at, n) {
        Ok(v) => v,
        Err(e) => { return Err(e.within(Context::String)); },
    };
    let ghost whole = data.deep_view();
    if data.len() > 0 {
        data.pop();
        assert(data.deep_view() =~= whole.drop_last());
    }
    Ok((data, next))
}

/// A string depends on the bytes it reads and on no others.
pub proof fn lemma_lua_string_cut(h: LuaHeader, s: Seq<u8>, pos: int, k: int)
    requires
        0 <= pos <= k <= s.len(),
    ensures
        cut_law(
            spec_lua_string(h, s, pos),
            spec_lua_string(h, s.take(k), pos),
            pos,
            k,
            s.len() as int,
        ),
{
    lemma_lua_int_cut(h, s, pos, k);
    match spec_lua_size_t(h, s, pos) {
        Err(e) => {},
        Ok((n, at)) => {
            if at <= k {
                lemma_bytes_cut(s, at, n as nat, k);
            } else {
                lemma_bytes_cut(s, at, n as nat, s.len() as int);
            }
        },
    }
}

/// The local variable at `pos`: its name, then the first and the last
/// instruction of its life as "int"s.
pub open spec fn spec_lua_local(h: LuaHeader, s: Seq<u8>, pos: int) -> Parsed<LocalView> {
    in_context(
        match spec_lua_string(h, s, pos) {
            Err(e) => Err(e),
            Ok((name, p1)) => match spec_lua_int(h, s, p1) {
                Err(e) => Err(e),
                Ok((start_pc, p2)) => match spec_lua_int(h, s, p2) {
                    Err(e) => Err(e),
                    Ok((end_pc, p3)) => Ok(
                        (LocalView { name: lossy_text(name), start_pc, end_pc, reg: 0 }, p3),
                    ),
                },
            },
        },
        Context::Local,
    )
}

/// Reads a local variable.
pub fn lua_local(header: &LuaHeader, input: &[u8], pos: usize) -> (r: Result<
    (LuaLocal, usize),
    DecodeError,
>)
    ensures
        agrees(r, spec_lua_local(*header, input@, pos as int)),
{
    let (name, p1) = match lua_string(header, input, pos) {
        Ok(v) => v,
        Err(e) => { return Err(e.within(Context::Local)); },
    };
    let (start_pc, p2) = match lua_int(header, input, p1) {
        Ok(v) => v,
        Err(e) => { return Err(e.within(Context::Local)); },
    };
    let (end_pc, p3) = match lua_int(header, input, p2) {
        Ok(v) => v,
        Err(e) => { return Err(e.within(Context::Local)); },
    };
    assert(name.deep_view() =~= name@);
    Ok((LuaLocal { name: utf8_lossy(name.as_slice()), start_pc, end_pc, reg: 0 }, p3))
}

/// A local variable depends on the bytes it reads and on no others.
pub proof fn lemma_lua_local_cut(h: LuaHeader, s: Seq<u8>, pos: int, k: int)
    requires
        0 <= pos <= k <= s.len(),
    ensures
        cut_law(
            spec_lua_local(h, s, pos),
            spec_lua_local(h, s.take(k), pos),
            pos,
            k,
            s.len() as int,
        ),
{
    lemma_lua_string_cut(h, s, pos, k);
    match spec_lua_string(h, s, pos) {
        Err(e) => {},
        Ok((name, p1)) => {
            let k1 = if p1 <= k { k } else { s.len() as int };
            lemma_lua_int_cut(h, s, p1, k1);
            match spec_lua_int(h, s, p1) {
                Err(e) => {},
                Ok((start_pc, p2)) => {
                    let k2 = if p2 <= k { k } else { s.len() as int };
                    lemma_lua_int_cut(h, s, p2, k2);
                },
            }
        },
    }
}

/// The decoder of one instruction word: four bytes in the file's byte
/// order. A header that declares another instruction size is not supported.
pub struct Instruction {
    pub header: LuaHeader,
}

impl Reader for Instruction {
    type Out = u32;

    open spec fn spec_read(&self, s: Seq<u8>, pos: int) -> Parsed<u32> {
        if self.header.instruction_size == 4 {
            spec_u32(s, pos, self.header.spec_endian())
        } else {
            fail(pos, ErrorKind::UnsupportedWidth)
        }
    }

    fn read(&self, input: &[u8], pos: usize) -> (r: Result<(u32, usize), DecodeError>) {
        if self.header.instruction_size == 4 {
            fixed32(input, pos, self.header.endian())
        } else {
            Err(DecodeError::new(pos, ErrorKind::UnsupportedWidth))
        }
    }

    proof fn lemma_cut(&self, s: Seq<u8>, pos: int, k: int) {
        lemma_fixed_cut(s, pos, 4, self.header.spec_endian(), k);
    }
}

/// The decoder of one constant: a tag byte, then for tag 0 nothing (nil),
/// for 1 a byte (a boolean, true unless zero), for 3 a number, for 4 a
/// string. Any other tag is an `UnknownConstantTag` at the tag.
pub struct Constant {
    pub header: LuaHeader,
}

impl Reader for Constant {
    type Out = LuaConstant;

    open spec fn spec_read(&self, s: Seq<u8>, pos: int) -> Parsed<ConstantView> {
        match spec_byte(s, pos) {
            Err(e) => Err(e),
            Ok((tag, at)) => if tag == 0 {
                Ok((ConstantView::Null, at))
            } else if tag == 1 {
                match spec_byte(s, at) {
                    Err(e) => Err(e),
                    Ok((b, next)) => Ok((ConstantView::Bool(b != 0), next)),
                }
            } else if tag == 3 {
                match spec_lua_number(self.header, s, at) {
                    Err(e) => Err(e),
                    Ok((v, next)) => Ok((ConstantView::Number(v), next)),
                }
            } else if tag == 4 {
                match spec_lua_string(self.header, s, at) {
                    Err(e) => Err(e),
                    Ok((v, next)) => Ok((ConstantView::String(v), next)),
                }
            } else {
                fail(pos, ErrorKind::UnknownConstantTag)
            },
        }
    }

    fn read(&self, input: &[u8], pos: usize) -> (r: Result<(LuaConstant, usize), DecodeError>) {
        let (tag, at) = byte(input, pos)?;
        if tag == 0 {
            Ok((LuaConstant::Null, at))
        } else if tag == 1 {
            let (b, next) = byte(input, at)?;
            Ok((LuaConstant::Bool(b != 0), next))
        } else if tag == 3 {
            let (v, next) = lua_number(&self.header, input, at)?;
            Ok((LuaConstant::Number(v), next))
        } else if tag == 4 {
            let (v, next) = lua_string(&self.header, input, at)?;
            assert(v.deep_view() =~= v@);
            let c = LuaConstant::String(v);
            assert(c.deep_view() == ConstantView::String(v@));
            Ok((c, next))
        } else {
            Err(DecodeError::new(pos, ErrorKind::UnknownConstantTag))
        }
    }

    proof fn lemma_cut(&self, s: Seq<u8>, pos: int, k: int) {
        lemma_byte_cut(s, pos, k);
        match spec_byte(s, pos) {
            Err(e) => {},
            Ok((tag, at)) => {
                let k1 = if at <= k { k } else { s.len() as int };
                lemma_byte_cut(s, at, k1);
                lemma_lua_number_cut(self.header, s, at, k1);
                lemma_lua_string_cut(self.header, s, at, k1);
            },
        }
    }
}

/// The decoder of one entry of the line table: an "int", of which the low
/// 32 bits are the line.
pub struct SourceLine {
    pub header: LuaHeader,
}

impl Reader for SourceLine {
    type Out = (u32, u32);

    open spec fn spec_read(&self, s: Seq<u8>, pos: int) -> Parsed<(u32, u32)> {
        match spec_lua_int(self.header, s, pos) {
            Err(e) => Err(e),
            Ok((n, next)) => Ok((((n % 0x1_0000_0000) as u32, 0u32), next)),
        }
    }

    fn read(&self, input: &[u8], pos: usize) -> (r: Result<((u32, u32), usize), DecodeError>) {
        let (n, next) = lua_int(&self.header, input, pos)?;
        Ok((((n % 0x1_0000_0000) as u32, 0u32), next))
    }

    proof fn lemma_cut(&self, s: Seq<u8>, pos: int, k: int) {
        lemma_lua_int_cut(self.header, s, pos, k);
    }
}

/// The decoder of one local variable.
pub struct Local {
    pub header: LuaHeader,
}

impl Reader for Local {
    type Out = LuaLocal;

    open spec fn spec_read(&self, s: Seq<u8>, pos: int) -> Parsed<LocalView> {
        spec_lua_local(self.header, s, pos)
    }

    fn read(&self, input: &[u8], pos: usize) -> (r: Result<(LuaLocal, usize), DecodeError>) {
        lua_local(&self.header, input, pos)
    }

    proof fn lemma_cut(&self, s: Seq<u8>, pos: int, k: int) {
        lemma_lua_local_cut(self.header, s, pos, k);
    }
}

/// The decoder of one upvalue name.
pub struct Name {
    pub header: LuaHeader,
}

impl Reader for Name {
    type Out = Vec<u8>;

    open spec fn spec_read(&self, s: Seq<u8>, pos: int) -> Parsed<Seq<u8>> {
        spec_lua_string(self.header, s, pos)
    }

    fn read(&self, input: &[u8], pos: usize) -> (r: Result<(Vec<u8>, usize), DecodeError>) {
        lua_string(&self.header, input, pos)
    }

    proof fn lemma_cut(&self, s: Seq<u8>, pos: int, k: int) {
        lemma_lua_string_cut(self.header, s, pos, k);
    }
}

/// A counted sequence at `pos`: an "int" that gives the count, then that
/// many elements, all within the construct `c`.
pub open spec fn spec_counted<R: Reader>(h: LuaHeader, r: R, s: Seq<u8>, pos: int, c: Context)
    -> Parsed<Seq<<R::Out as DeepView>::V>> {
    in_context(
        match spec_lua_int(h, s, pos) {
            Err(e) => Err(e),
            Ok((n, at)) => spec_repeat(r, s, at, n as nat),
        },
        c,
    )
}

/// Reads a counted sequence.
pub fn counted<R: Reader>(header: &LuaHeader, r: &R, input: &[u8], pos: usize, c: Context) -> (out:
    Result<(Vec<R::Out>, usize), DecodeError>)
    ensures
        agrees(out, spec_counted(*header, *r, input@, pos as int, c)),
{
    let (n, at) = match lua_int(header, input, pos) {
        Ok(v) => v,
        Err(e) => { return Err(e.within(c)); },
    };
    with_context(repeat(r, input, at, n), c)
}

/// A counted sequence depends on the bytes it reads and on no others.
pub proof fn lemma_counted_cut<R: Reader>(
    h: LuaHeader,
    r: R,
    s: Seq<u8>,
    pos: int,
    c: Context,
    k: int,
)
    requires
        0 <= pos <= s.len(),
        0 <= k <= s.len(),
    ensures
        pos <= k ==> cut_law(
            spec_counted(h, r, s, pos, c),
            spec_counted(h, r, s.take(k), pos, c),
            pos,
            k,
            s.len() as int,
        ),
        spec_counted(h, r, s, pos, c) is Ok ==> pos <= spec_counted(h, r, s, pos, c)->Ok_0.1
            <= s.len(),
{
    let k0 = if pos <= k { k } else { s.len() as int };
    lemma_lua_int_cut(h, s, pos, k0);
    match spec_lua_int(h, s, pos) {
        Err(e) => {},
        Ok((n, at)) => {
            let k1 = if at <= k0 { k0 } else { s.len() as int };
            lemma_repeat_cut(r, s, at, n as nat, k1);
        },
    }
}

/// The scalar fields of the prototype at `pos`, as a prototype that has
/// nothing else: a name, the first and the last line as "int"s, and four
/// bytes (upvalue count, parameter count, vararg flags, stack size).
#[verifier::opaque]
pub open spec fn spec_chunk_head(h: LuaHeader, s: Seq<u8>, pos: int) -> Parsed<ChunkView> {
    match spec_lua_string(h, s, pos) {
        Err(e) => Err(e),
        Ok((name, p1)) => match spec_lua_int(h, s, p1) {
            Err(e) => Err(e),
            Ok((line_defined, p2)) => match spec_lua_int(h, s, p2) {
                Err(e) => Err(e),
                Ok((last_line_defined, p3)) => match spec_byte(s, p3) {
                    Err(e) => Err(e),
                    Ok((num_upvalues, p4)) => match spec_byte(s, p4) {
                        Err(e) => Err(e),
                        Ok((num_params, p5)) => match spec_byte(s, p5) {
                            Err(e) => Err(e),
                            Ok((is_vararg, p6)) => match spec_byte(s, p6) {
                                Err(e) => Err(e),
                                Ok((max_stack, p7)) => Ok(
                                    (
                                        ChunkView {
                                            name,
                                            line_defined,
                                            last_line_defined,
                                            num_upvalues,
                                            num_params,
                                            is_vararg: spec_vararg(is_vararg),
                                            max_stack,
                                            ..ChunkView::empty()
                                        },
                                        p7,
                                    ),
                                ),
                            },
                        },
                    },
                },
            },
        },
    }
}

/// The prototype `base` with the two sequences that precede the nested
/// prototypes, read from `pos` on: instructions and constants.
#[verifier::opaque]
pub open spec fn spec_chunk_front(h: LuaHeader, s: Seq<u8>, pos: int, base: ChunkView) -> Parsed<
    ChunkView,
> {
    match spec_counted(h, Instruction { header: h }, s, pos, Context::CountInstruction) {
        Err(e) => Err(e),
        Ok((instructions, p1)) => match spec_counted(
            h,
            Constant { header: h },
            s,
            p1,
            Context::CountConstants,
        ) {
            Err(e) => Err(e),
            Ok((constants, p2)) => Ok((ChunkView { instructions, constants, ..base }, p2)),
        },
    }
}

/// The prototype `base` with the three sequences that follow the nested
/// prototypes, read from `pos` on: line table, locals and upvalue names.
#[verifier::opaque]
pub open spec fn spec_chunk_back(h: LuaHeader, s: Seq<u8>, pos: int, base: ChunkView) -> Parsed<
    ChunkView,
> {
    match spec_counted(h, SourceLine { header: h }, s, pos, Context::CountSourceLines) {
        Err(e) => Err(e),
        Ok((source_lines, p1)) => match spec_counted(
            h,
            Local { header: h },
            s,
            p1,
            Context::CountLocals,
        ) {
            Err(e) => Err(e),
            Ok((locals, p2)) => match spec_counted(
                h,
                Name { header: h },
                s,
                p2,
                Context::CountUpvalNames,
            ) {
                Err(e) => Err(e),
                Ok((upvalue_names, p3)) => Ok(
                    (ChunkView { source_lines, locals, upvalue_names, ..base }, p3),
                ),
            },
        },
    }
}

/// Reads the scalar fields of a prototype.
pub fn chunk_head(header: &LuaHeader, input: &[u8], pos: usize) -> (r: Result<
    (LuaChunk, usize),
    DecodeError,
>)
    ensures
        agrees(r, spec_chunk_head(*header, input@, pos as int)),
{
    proof {
        reveal(spec_chunk_head);
        reveal(LuaChunk::model);
    }
    let (name, p1) = lua_string(header, input, pos)?;
    let (line_defined, p2) = lua_int(header, input, p1)?;
    let (last_line_defined, p3) = lua_int(header, input, p2)?;
    let (num_upvalues, p4) = byte(input, p3)?;
    let (num_params, p5) = byte(input, p4)?;
    let (is_vararg, p6) = byte(input, p5)?;
    let (max_stack, p7) = byte(input, p6)?;
    let mut chunk = LuaChunk::default();
    let ghost blank = chunk;
    chunk.name = name;
    chunk.line_defined = line_defined;
    chunk.last_line_defined = last_line_defined;
    chunk.num_upvalues = num_upvalues;
    chunk.num_params = num_params;
    chunk.is_vararg = vararg(is_vararg);
    chunk.max_stack = max_stack;
    assert(chunk.model().prototypes =~= blank.model().prototypes);
    Ok((chunk, p7))
}

/// Reads the instructions and the constants into `base`.
pub fn chunk_front(header: &LuaHeader, input: &[u8], pos: usize, base: LuaChunk) -> (r: Result<
    (LuaChunk, usize),
    DecodeError,
>)
    ensures
        agrees(r, spec_chunk_front(*header, input@, pos as int, base.deep_view())),
{
    proof {
        reveal(spec_chunk_front);
        reveal(LuaChunk::model);
    }
    let h = *header;
    let (instructions, p1) = counted(
        header,
        &Instruction { header: h },
        input,
        pos,
        Context::CountInstruction,
    )?;
    let (constants, p2) = counted(
        header,
        &Constant { header: h },
        input,
        p1,
        Context::CountConstants,
    )?;
    let mut chunk = base;
    chunk.instructions = instructions;
    chunk.constants = constants;
    assert(chunk.model().prototypes =~= base.model().prototypes);
    Ok((chunk, p2))
}

/// Reads the line table, the locals and the upvalue names into `base`.
pub fn chunk_back(header: &LuaHeader, input: &[u8], pos: usize, base: LuaChunk) -> (r: Result<
    (LuaChunk, usize),
    DecodeError,
>)
    ensures
        agrees(r, spec_chunk_back(*header, input@, pos as int, base.deep_view())),
{
    proof {
        reveal(spec_chunk_back);
        reveal(LuaChunk::model);
    }
    let h = *header;
    let (source_lines, p1) = counted(
        header,
        &SourceLine { header: h },
        input,
        pos,
        Context::CountSourceLines,
    )?;
    let (locals, p2) = counted(header, &Local { header: h }, input, p1, Context::CountLocals)?;
    let (upvalue_names, p3) = counted(
        header,
        &Name { header: h },
        input,
        p2,
        Context::CountUpvalNames,
    )?;
    let mut chunk = base;
    chunk.source_lines = source_lines;
    chunk.locals = locals;
    chunk.upvalue_names = upvalue_names;
    assert(chunk.model().prototypes =~= base.model().prototypes);
    Ok((chunk, p3))
}

/// The prototype at `pos`, nested at most `depth` levels deep.
///
/// The scalar fields come first, then six counted sequences: instructions,
/// constants, nested prototypes, line table, locals, upvalue names. With no
/// level left the prototype is a `DepthExceeded` at `pos`.
pub open spec fn spec_lua_chunk(h: LuaHeader, s: Seq<u8>, pos: int, depth: nat) -> Parsed<
    ChunkView,
> {
    spec_chunk(Dialect::Lua51, h, s, pos, depth)
}

/// Reads a prototype that may nest `depth` levels deep.
pub fn lua_chunk(header: &LuaHeader, input: &[u8], pos: usize, depth: usize) -> (r: Result<
    (LuaChunk, usize),
    DecodeError,
>)
    ensures
        agrees(r, spec_lua_chunk(*header, input@, pos as int, depth as nat)),
{
    chunk(Dialect::Lua51, header, input, pos, depth)
}

/// The scalar fields depend on the bytes they are read from and on no
/// others.
pub proof fn lemma_chunk_head_cut(h: LuaHeader, s: Seq<u8>, pos: int, k: int)
    requires
        0 <= pos <= k <= s.len(),
    ensures
        cut_law(
            spec_chunk_head(h, s, pos),
            spec_chunk_head(h, s.take(k), pos),
            pos,
            k,
            s.len() as int,
        ),
{
    reveal(spec_chunk_head);
    let n = s.len() as int;
    lemma_lua_string_cut(h, s, pos, k);
    if let Ok((name, p1)) = spec_lua_string(h, s, pos) {
        lemma_lua_int_cut(h, s, p1, if p1 <= k { k } else { n });
        if let Ok((line_defined, p2)) = spec_lua_int(h, s, p1) {
            lemma_lua_int_cut(h, s, p2, if p2 <= k { k } else { n });
            if let Ok((last_line_defined, p3)) = spec_lua_int(h, s, p2) {
                lemma_byte_cut(s, p3, if p3 <= k { k } else { n });
                if let Ok((num_upvalues, p4)) = spec_byte(s, p3) {
                    lemma_byte_cut(s, p4, if p4 <= k { k } else { n });
                    if let Ok((num_params, p5)) = spec_byte(s, p4) {
                        lemma_byte_cut(s, p5, if p5 <= k { k } else { n });
                        if let Ok((is_vararg, p6)) = spec_byte(s, p5) {
                            lemma_byte_cut(s, p6, if p6 <= k { k } else { n });
                        }
                    }
                }
            }
        }
    }
}

/// The instructions and constants depend on the bytes they are read from
/// and on no others.
pub proof fn lemma_chunk_front_cut(h: LuaHeader, s: Seq<u8>, pos: int, base: ChunkView, k: int)
    requires
        0 <= pos <= s.len(),
        0 <= k <= s.len(),
    ensures
        pos <= k ==> cut_law(
            spec_chunk_front(h, s, pos, base),
            spec_chunk_front(h, s.take(k), pos, base),
            pos,
            k,
            s.len() as int,
        ),
        spec_chunk_front(h, s, pos, base) is Ok ==> pos <= spec_chunk_front(
            h,
            s,
            pos,
            base,
        )->Ok_0.1 <= s.len(),
{
    reveal(spec_chunk_front);
    lemma_counted_cut(h, Instruction { header: h }, s, pos, Context::CountInstruction, k);
    if let Ok((instructions, p1)) = spec_counted(
        h,
        Instruction { header: h },
        s,
        pos,
        Context::CountInstruction,
    ) {
        lemma_counted_cut(h, Constant { header: h }, s, p1, Context::CountConstants, k);
    }
}

/// The line table, locals and upvalue names depend on the bytes they are
/// read from and on no others.
pub proof fn lemma_chunk_back_cut(h: LuaHeader, s: Seq<u8>, pos: int, base: ChunkView, k: int)
    requires
        0 <= pos <= s.len(),
        0 <= k <= s.len(),
    ensures
        pos <= k ==> cut_law(
            spec_chunk_back(h, s, pos, base),
            spec_chunk_back(h, s.take(k), pos, base),
            pos,
            k,
            s.len() as int,
        ),
        spec_chunk_back(h, s, pos, base) is Ok ==> pos <= spec_chunk_back(
            h,
            s,
            pos,
            base,
        )->Ok_0.1 <= s.len(),
{
    reveal(spec_chunk_back);
    lemma_counted_cut(h, SourceLine { header: h }, s, pos, Context::CountSourceLines, k);
    if let Ok((source_lines, p1)) = spec_counted(
        h,
        SourceLine { header: h },
        s,
        pos,
        Context::CountSourceLines,
    ) {
        lemma_counted_cut(h, Local { header: h }, s, p1, Context::CountLocals, k);
        if let Ok((locals, p2)) = spec_counted(
            h,
            Local { header: h },
            s,
            p1,
            Context::CountLocals,
        ) {
            lemma_counted_cut(h, Name { header: h }, s, p2, Context::CountUpvalNames, k);
        }
    }
}

/// The parts of a prototype other than its nested prototypes leave those
/// as they are.
pub proof fn lemma_parts_keep_prototypes(h: LuaHeader, s: Seq<u8>, pos: int, base: ChunkView)
    ensures
        spec_chunk_head(h, s, pos) is Ok ==> spec_chunk_head(h, s, pos)->Ok_0.0.prototypes
            == Seq::<ChunkView>::empty(),
        spec_chunk_front(h, s, pos, base) is Ok ==> spec_chunk_front(
            h,
            s,
            pos,
            base,
        )->Ok_0.0.prototypes == base.prototypes,
        spec_chunk_back(h, s, pos, base) is Ok ==> spec_chunk_back(
            h,
            s,
            pos,
            base,
        )->Ok_0.0.prototypes == base.prototypes,
{
    reveal(spec_chunk_head);
    reveal(spec_chunk_front);
    reveal(spec_chunk_back);
}

} // verus!
