//! The Luau decoder.
//!
//! A Luau file holds a table of strings and a table of prototypes. What
//! refers to a string or to a prototype does so by an index into its table.

use crate::error::{
    agrees, cut_law, fail, in_context, with_context, Context, DecodeError, ErrorKind, ErrorView,
    Parsed,
};
use crate::model::{
    copy_bytes, ChunkView, ConstTable, ConstantView, Endianness, LocalView, LuaChunk, LuaConstant,
    LuaLocal, LuaNumber, LuaVarArgInfo, TableView,
};
use crate::outside::{lossy_text, utf8_lossy};
use crate::read::{
    byte, bytes, fixed32, fixed64, lemma_byte_cut, lemma_bytes_cut, lemma_fixed_cut,
    lemma_varint_wide_cut, spec_byte, spec_bytes, spec_u32, spec_u64, spec_varint_wide,
    varint_wide,
};
use crate::lua54::LineInfo;
use crate::repeat::{
    lemma_deep_empty, lemma_deep_push, lemma_repeat_cut, repeat, spec_repeat, Reader,
};
use vstd::prelude::*;

verus! {

/// Tag of the constant nil.
pub const LBC_CONSTANT_NIL: u8 = 0;

/// Tag of a boolean constant.
pub const LBC_CONSTANT_BOOLEAN: u8 = 1;

/// Tag of a number constant.
pub const LBC_CONSTANT_NUMBER: u8 = 2;

/// Tag of a string constant.
pub const LBC_CONSTANT_STRING: u8 = 3;

/// Tag of an import constant.
pub const LBC_CONSTANT_IMPORT: u8 = 4;

/// Tag of a table constant.
pub const LBC_CONSTANT_TABLE: u8 = 5;

/// Tag of a closure constant.
pub const LBC_CONSTANT_CLOSURE: u8 = 6;

/// The variable-length integer at `pos`, cut to 64 bits.
///
/// Each byte gives seven bits, the least significant group first. A byte
/// without its high bit is followed by another; the byte with its high bit
/// set is the last. An integer that the input cuts short is `Truncated` at
/// the end of the input; one that goes on beyond ten bytes is an
/// `IntegerOverflow` at `pos`.
pub open spec fn spec_varint(s: Seq<u8>, pos: int) -> Parsed<u64> {
    match spec_varint_wide(s, pos, 10, true) {
        Err(e) => Err(e),
        Ok((v, next)) => Ok(((v % 0x1_0000_0000_0000_0000) as u64, next)),
    }
}

/// Reads a variable-length integer.
pub fn varint(input: &[u8], pos: usize) -> (r: Result<(u64, usize), DecodeError>)
    ensures
        agrees(r, spec_varint(input@, pos as int)),
{
    let (v, next) = varint_wide(input, pos, 10, true)?;
    Ok(((v % 0x1_0000_0000_0000_0000) as u64, next))
}

/// A variable-length integer depends on its bytes alone.
pub proof fn lemma_varint_cut(s: Seq<u8>, pos: int, k: int)
    requires
        0 <= pos <= k <= s.len(),
    ensures
        cut_law(spec_varint(s, pos), spec_varint(s.take(k), pos), pos, k, s.len() as int),
{
    lemma_varint_wide_cut(s, pos, 10, true, k);
}

/// The decoder of an index below `limit`: a variable-length integer. An
/// index that is not below `limit` is an `IndexOutOfRange` at `pos`.
pub struct Index {
    pub limit: u64,
}

impl Reader for Index {
    type Out = u64;

    open spec fn spec_read(&self, s: Seq<u8>, pos: int) -> Parsed<u64> {
        match spec_varint(s, pos) {
            Err(e) => Err(e),
            Ok((i, next)) => if i < self.limit {
                Ok((i, next))
            } else {
                fail(pos, ErrorKind::IndexOutOfRange)
            },
        }
    }

    fn read(&self, input: &[u8], pos: usize) -> (r: Result<(u64, usize), DecodeError>) {
        let (i, next) = varint(input, pos)?;
        if i < self.limit {
            Ok((i, next))
        } else {
            Err(DecodeError::new(pos, ErrorKind::IndexOutOfRange))
        }
    }

    proof fn lemma_cut(&self, s: Seq<u8>, pos: int, k: int) {
        lemma_varint_cut(s, pos, k);
    }
}

/// The decoder of a reference to one of `count` strings: a
/// variable-length integer that is zero, for the empty string, or the
/// place of a string in the table, counted from one. A greater integer is
/// an `IndexOutOfRange` at `pos`.
pub struct StringIndex {
    pub count: u64,
}

impl Reader for StringIndex {
    type Out = u64;

    open spec fn spec_read(&self, s: Seq<u8>, pos: int) -> Parsed<u64> {
        match spec_varint(s, pos) {
            Err(e) => Err(e),
            Ok((i, next)) => if i <= self.count {
                Ok((i, next))
            } else {
                fail(pos, ErrorKind::IndexOutOfRange)
            },
        }
    }

    fn read(&self, input: &[u8], pos: usize) -> (r: Result<(u64, usize), DecodeError>) {
        let (i, next) = varint(input, pos)?;
        if i <= self.count {
            Ok((i, next))
        } else {
            Err(DecodeError::new(pos, ErrorKind::IndexOutOfRange))
        }
    }

    proof fn lemma_cut(&self, s: Seq<u8>, pos: int, k: int) {
        lemma_varint_cut(s, pos, k);
    }
}

/// The string that the reference `i` stands for: the empty string for
/// zero, else the string at place `i - 1` of the table.
pub open spec fn spec_string_at(stable: Seq<Seq<u8>>, i: u64) -> Seq<u8> {
    if i == 0 {
        Seq::empty()
    } else {
        stable[i - 1]
    }
}

/// The string that the reference at `pos` stands for.
pub open spec fn spec_string(stable: Seq<Seq<u8>>, s: Seq<u8>, pos: int) -> Parsed<Seq<u8>> {
    match (StringIndex { count: stable.len() as u64 }).spec_read(s, pos) {
        Err(e) => Err(e),
        Ok((i, next)) => Ok((spec_string_at(stable, i), next)),
    }
}

/// Looks up the reference `i` in the table of strings.
pub fn string_at(stable: &Vec<Vec<u8>>, i: u64) -> (r: Vec<u8>)
    requires
        i <= stable.len(),
    ensures
        r.deep_view() == spec_string_at(stable.deep_view(), i),
{
    if i == 0 {
        let empty: Vec<u8> = Vec::new();
        assert(empty.deep_view() =~= Seq::empty());
        empty
    } else {
        let r = copy_bytes(&stable[(i - 1) as usize]);
        assert(r.deep_view() =~= stable[i - 1].deep_view());
        r
    }
}

/// Reads a reference to a string and looks it up in the table.
pub fn string(stable: &Vec<Vec<u8>>, input: &[u8], pos: usize) -> (r: Result<
    (Vec<u8>, usize),
    DecodeError,
>)
    ensures
        agrees(r, spec_string(stable.deep_view(), input@, pos as int)),
{
    let (i, next) = (StringIndex { count: stable.len() as u64 }).read(input, pos)?;
    Ok((string_at(stable, i), next))
}

/// A reference of zero is the empty string, whatever the table holds.
pub proof fn lemma_string_zero(stable: Seq<Seq<u8>>, s: Seq<u8>, pos: int)
    requires
        spec_varint(s, pos) is Ok,
        spec_varint(s, pos)->Ok_0.0 == 0,
    ensures
        spec_string(stable, s, pos) == Ok::<(Seq<u8>, int), ErrorView>(
            (Seq::empty(), spec_varint(s, pos)->Ok_0.1),
        ),
{
}

/// A counted sequence at `pos`: a variable-length integer that gives the
/// count, then that many elements.
pub open spec fn spec_counted<R: Reader>(r: R, s: Seq<u8>, pos: int) -> Parsed<
    Seq<<R::Out as DeepView>::V>,
> {
    match spec_varint(s, pos) {
        Err(e) => Err(e),
        Ok((n, at)) => spec_repeat(r, s, at, n as nat),
    }
}

/// Reads a counted sequence.
pub fn counted<R: Reader>(r: &R, input: &[u8], pos: usize) -> (out: Result<
    (Vec<R::Out>, usize),
    DecodeError,
>)
    ensures
        agrees(out, spec_counted(*r, input@, pos as int)),
{
    let (n, at) = varint(input, pos)?;
    repeat(r, input, at, n)
}

/// A counted sequence depends on the bytes it reads and on no others.
pub proof fn lemma_counted_cut<R: Reader>(r: R, s: Seq<u8>, pos: int, k: int)
    requires
        0 <= pos <= s.len(),
        0 <= k <= s.len(),
    ensures
        pos <= k ==> cut_law(
            spec_counted(r, s, pos),
            spec_counted(r, s.take(k), pos),
            pos,
            k,
            s.len() as int,
        ),
        spec_counted(r, s, pos) is Ok ==> pos <= spec_counted(r, s, pos)->Ok_0.1 <= s.len(),
{
    let k0 = if pos <= k { k } else { s.len() as int };
    lemma_varint_cut(s, pos, k0);
    if let Ok((n, at)) = spec_varint(s, pos) {
        lemma_repeat_cut(r, s, at, n as nat, if at <= k0 { k0 } else { s.len() as int });
    }
}

/// Every index that was decoded is below the limit.
pub proof fn lemma_indices_bounded(limit: u64, s: Seq<u8>, pos: int, n: nat)
    requires
        spec_repeat(Index { limit }, s, pos, n) is Ok,
    ensures
        spec_repeat(Index { limit }, s, pos, n)->Ok_0.0.len() == n,
        forall|j: int|
            0 <= j < n ==> (#[trigger] spec_repeat(Index { limit }, s, pos, n)->Ok_0.0[j]) < limit,
    decreases n,
{
    if n > 0 {
        lemma_indices_bounded(limit, s, pos, (n - 1) as nat);
    }
}

/// Every reference to a string that was decoded is within the table.
pub proof fn lemma_references_bounded(count: u64, s: Seq<u8>, pos: int, n: nat)
    requires
        spec_repeat(StringIndex { count }, s, pos, n) is Ok,
    ensures
        spec_repeat(StringIndex { count }, s, pos, n)->Ok_0.0.len() == n,
        forall|j: int|
            0 <= j < n ==> (#[trigger] spec_repeat(StringIndex { count }, s, pos, n)->Ok_0.0[j])
                <= count,
    decreases n,
{
    if n > 0 {
        lemma_references_bounded(count, s, pos, (n - 1) as nat);
    }
}

/// The table whose keys are the strings that the references `indices`
/// stand for, each with the value 0; it has no array part.
pub open spec fn spec_table_of(stable: Seq<Seq<u8>>, indices: Seq<u64>) -> TableView {
    TableView {
        array: Seq::empty(),
        hash: Seq::new(
            indices.len(),
            |j: int|
                (
                    ConstantView::String(spec_string_at(stable, indices[j])),
                    ConstantView::Number(LuaNumber::Integer(0)),
                ),
        ),
    }
}

/// The table constant at `pos`: a counted sequence of references to
/// strings, its keys.
pub open spec fn spec_table(stable: Seq<Seq<u8>>, s: Seq<u8>, pos: int) -> Parsed<TableView> {
    match spec_counted(StringIndex { count: stable.len() as u64 }, s, pos) {
        Err(e) => Err(e),
        Ok((indices, next)) => Ok((spec_table_of(stable, indices), next)),
    }
}

/// Reads a table constant, whose keys are strings of the table `stable`.
pub fn table(stable: &Vec<Vec<u8>>, input: &[u8], pos: usize) -> (r: Result<
    (ConstTable, usize),
    DecodeError,
>)
    ensures
        agrees(r, spec_table(stable.deep_view(), input@, pos as int)),
{
    let (indices, next) = counted(&StringIndex { count: stable.len() as u64 }, input, pos)?;
    proof {
        let at = spec_varint(input@, pos as int)->Ok_0.1;
        let n = spec_varint(input@, pos as int)->Ok_0.0;
        lemma_references_bounded(stable.len() as u64, input@, at, n as nat);
        assert(indices.deep_view() =~= indices@);
    }
    let mut hash: Vec<(LuaConstant, LuaConstant)> = Vec::new();
    let mut j: usize = 0;
    while j < indices.len()
        invariant
            j <= indices.len(),
            hash.len() == j,
            forall|i: int| 0 <= i < indices.len() ==> (#[trigger] indices[i]) <= stable.len(),
            forall|i: int|
                0 <= i < j ==> (#[trigger] hash[i]).0.deep_view() == ConstantView::String(
                    spec_string_at(stable.deep_view(), indices[i]),
                ) && hash[i].1.deep_view() == ConstantView::Number(LuaNumber::Integer(0)),
        decreases indices.len() - j,
    {
        let key = string_at(stable, indices[j]);
        assert(key.deep_view() =~= key@);
        hash.push((LuaConstant::String(key), LuaConstant::Number(LuaNumber::Integer(0))));
        j += 1;
    }
    let t = ConstTable { array: Vec::new(), hash };
    assert(t.model().array =~= Seq::empty());
    assert(t.model().hash =~= spec_table_of(stable.deep_view(), indices@).hash);
    Ok((t, next))
}

/// A table constant depends on its bytes alone.
pub proof fn lemma_table_cut(stable: Seq<Seq<u8>>, s: Seq<u8>, pos: int, k: int)
    requires
        0 <= pos <= k <= s.len(),
    ensures
        cut_law(
            spec_table(stable, s, pos),
            spec_table(stable, s.take(k), pos),
            pos,
            k,
            s.len() as int,
        ),
{
    lemma_counted_cut(StringIndex { count: stable.len() as u64 }, s, pos, k);
}

/// The constant at `pos`.
///
/// A tag byte comes first: 0 for nil, 1 for a boolean (a byte, true unless
/// zero), 2 for a double (eight bytes, least significant first), 3 for a
/// string (a reference), 4 for an import (four bytes, which are passed
/// over: the constant is nil), 5 for a table (references to its keys), 6
/// for a closure (the index of
/// a prototype as a variable-length integer; one that no `usize` holds is
/// an `IndexOutOfRange` at the integer). Any other tag is an
/// `UnknownConstantTag` at the tag.
#[verifier::opaque]
pub open spec fn spec_constant(stable: Seq<Seq<u8>>, s: Seq<u8>, pos: int) -> Parsed<
    ConstantView,
> {
    match spec_byte(s, pos) {
        Err(e) => Err(e),
        Ok((ty, at)) => if ty == LBC_CONSTANT_NIL {
            Ok((ConstantView::Null, at))
        } else if ty == LBC_CONSTANT_BOOLEAN {
            match spec_byte(s, at) {
                Err(e) => Err(e),
                Ok((b, next)) => Ok((ConstantView::Bool(b != 0), next)),
            }
        } else if ty == LBC_CONSTANT_NUMBER {
            match spec_u64(s, at, Endianness::Little) {
                Err(e) => Err(e),
                Ok((v, next)) => Ok((ConstantView::Number(LuaNumber::Float(v)), next)),
            }
        } else if ty == LBC_CONSTANT_STRING {
            match spec_string(stable, s, at) {
                Err(e) => Err(e),
                Ok((v, next)) => Ok((ConstantView::String(v), next)),
            }
        } else if ty == LBC_CONSTANT_IMPORT {
            match spec_bytes(s, at, 4) {
                Err(e) => Err(e),
                Ok((_, next)) => Ok((ConstantView::Null, next)),
            }
        } else if ty == LBC_CONSTANT_TABLE {
            match spec_table(stable, s, at) {
                Err(e) => Err(e),
                Ok((t, next)) => Ok((ConstantView::Table(t), next)),
            }
        } else if ty == LBC_CONSTANT_CLOSURE {
            match spec_varint(s, at) {
                Err(e) => Err(e),
                Ok((i, next)) => if i <= usize::MAX {
                    Ok((ConstantView::Proto(i as int), next))
                } else {
                    fail(at, ErrorKind::IndexOutOfRange)
                },
            }
        } else {
            fail(pos, ErrorKind::UnknownConstantTag)
        },
    }
}

/// Reads a constant.
pub fn constant(stable: &Vec<Vec<u8>>, input: &[u8], pos: usize) -> (r: Result<
    (LuaConstant, usize),
    DecodeError,
>)
    ensures
        agrees(r, spec_constant(stable.deep_view(), input@, pos as int)),
{
    proof {
        reveal(spec_constant);
    }
    let (ty, at) = byte(input, pos)?;
    if ty == LBC_CONSTANT_NIL {
        Ok((LuaConstant::Null, at))
    } else if ty == LBC_CONSTANT_BOOLEAN {
        let (b, next) = byte(input, at)?;
        Ok((LuaConstant::Bool(b != 0), next))
    } else if ty == LBC_CONSTANT_NUMBER {
        let (v, next) = fixed64(input, at, Endianness::Little)?;
        Ok((LuaConstant::Number(LuaNumber::Float(v)), next))
    } else if ty == LBC_CONSTANT_STRING {
        let (v, next) = string(stable, input, at)?;
        assert(v.deep_view() =~= v@);
        let c = LuaConstant::String(v);
        assert(c.deep_view() == ConstantView::String(v@));
        Ok((c, next))
    } else if ty == LBC_CONSTANT_IMPORT {
        let (_, next) = bytes(input, at, 4)?;
        Ok((LuaConstant::Null, next))
    } else if ty == LBC_CONSTANT_TABLE {
        let (t, next) = table(stable, input, at)?;
        Ok((LuaConstant::Table(Box::new(t)), next))
    } else if ty == LBC_CONSTANT_CLOSURE {
        let (i, next) = varint(input, at)?;
        if i <= usize::MAX as u64 {
            Ok((LuaConstant::Proto(i as usize), next))
        } else {
            Err(DecodeError::new(at, ErrorKind::IndexOutOfRange))
        }
    } else {
        Err(DecodeError::new(pos, ErrorKind::UnknownConstantTag))
    }
}

/// A constant depends on its bytes alone.
pub proof fn lemma_constant_cut(stable: Seq<Seq<u8>>, s: Seq<u8>, pos: int, k: int)
    requires
        0 <= pos <= s.len(),
        0 <= k <= s.len(),
    ensures
        pos <= k ==> cut_law(
            spec_constant(stable, s, pos),
            spec_constant(stable, s.take(k), pos),
            pos,
            k,
            s.len() as int,
        ),
        spec_constant(stable, s, pos) is Ok ==> pos <= spec_constant(stable, s, pos)->Ok_0.1
            <= s.len(),
{
    reveal(spec_constant);
    let n = s.len() as int;
    let k0 = if pos <= k { k } else { n };
    lemma_byte_cut(s, pos, k0);
    if let Ok((ty, at)) = spec_byte(s, pos) {
        let k1 = if at <= k0 { k0 } else { n };
        lemma_byte_cut(s, at, k1);
        lemma_fixed_cut(s, at, 8, Endianness::Little, k1);
        lemma_varint_cut(s, at, k1);
        lemma_bytes_cut(s, at, 4, k1);
        lemma_table_cut(stable, s, at, k1);
    }
}

/// `n` constants in a row, from `pos` on.
pub open spec fn spec_constants_n(stable: Seq<Seq<u8>>, s: Seq<u8>, pos: int, n: nat) -> Parsed<
    Seq<ConstantView>,
>
    decreases n,
{
    if n == 0 {
        Ok((Seq::empty(), pos))
    } else {
        match spec_constants_n(stable, s, pos, (n - 1) as nat) {
            Err(e) => Err(e),
            Ok((done, at)) => match spec_constant(stable, s, at) {
                Err(e) => Err(e),
                Ok((c, next)) => Ok((done.push(c), next)),
            },
        }
    }
}

/// The constants of a prototype at `pos`: their count as a
/// variable-length integer, then the constants.
pub open spec fn spec_constants(stable: Seq<Seq<u8>>, s: Seq<u8>, pos: int) -> Parsed<
    Seq<ConstantView>,
> {
    match spec_varint(s, pos) {
        Err(e) => Err(e),
        Ok((n, at)) => spec_constants_n(stable, s, at, n as nat),
    }
}

/// Once a sequence of constants has failed, asking for more changes
/// nothing.
pub proof fn lemma_constants_failed(stable: Seq<Seq<u8>>, s: Seq<u8>, pos: int, i: nat, n: nat)
    requires
        i <= n,
        spec_constants_n(stable, s, pos, i) is Err,
    ensures
        spec_constants_n(stable, s, pos, n) == spec_constants_n(stable, s, pos, i),
    decreases n,
{
    if i < n {
        lemma_constants_failed(stable, s, pos, i, (n - 1) as nat);
    }
}

/// Reads the constants of a prototype.
pub fn constants(stable: &Vec<Vec<u8>>, input: &[u8], pos: usize) -> (r: Result<
    (Vec<LuaConstant>, usize),
    DecodeError,
>)
    ensures
        agrees(r, spec_constants(stable.deep_view(), input@, pos as int)),
{
    let (n, start) = varint(input, pos)?;
    let mut done: Vec<LuaConstant> = Vec::new();
    let mut at: usize = start;
    let mut i: u64 = 0;
    proof {
        lemma_deep_empty(done);
    }
    while i < n
        invariant
            i <= n,
            spec_varint(input@, pos as int) == Ok::<(u64, int), ErrorView>((n, start as int)),
            spec_constants_n(stable.deep_view(), input@, start as int, i as nat) == Ok::<
                (Seq<ConstantView>, int),
                ErrorView,
            >((done.deep_view(), at as int)),
        decreases n - i,
    {
        match constant(stable, input, at) {
            Err(e) => {
                proof {
                    lemma_constants_failed(
                        stable.deep_view(),
                        input@,
                        start as int,
                        (i + 1) as nat,
                        n as nat,
                    );
                }
                return Err(e);
            },
            Ok((c, next)) => {
                let ghost before = done;
                done.push(c);
                proof {
                    lemma_deep_push(before, done, c);
                }
                at = next;
                i += 1;
            },
        }
    }
    Ok((done, at))
}

/// The constants of a prototype depend on their bytes alone.
pub proof fn lemma_constants_n_cut(stable: Seq<Seq<u8>>, s: Seq<u8>, pos: int, n: nat, k: int)
    requires
        0 <= pos <= s.len(),
        0 <= k <= s.len(),
    ensures
        pos <= k ==> cut_law(
            spec_constants_n(stable, s, pos, n),
            spec_constants_n(stable, s.take(k), pos, n),
            pos,
            k,
            s.len() as int,
        ),
        spec_constants_n(stable, s, pos, n) is Ok ==> pos <= spec_constants_n(
            stable,
            s,
            pos,
            n,
        )->Ok_0.1 <= s.len(),
    decreases n,
{
    if n > 0 {
        lemma_constants_n_cut(stable, s, pos, (n - 1) as nat, k);
        if let Ok((done, at)) = spec_constants_n(stable, s, pos, (n - 1) as nat) {
            lemma_constant_cut(stable, s, at, k);
        }
    }
}

/// The constants of a prototype depend on their bytes alone.
pub proof fn lemma_constants_cut(stable: Seq<Seq<u8>>, s: Seq<u8>, pos: int, k: int)
    requires
        0 <= pos <= s.len(),
        0 <= k <= s.len(),
    ensures
        pos <= k ==> cut_law(
            spec_constants(stable, s, pos),
            spec_constants(stable, s.take(k), pos),
            pos,
            k,
            s.len() as int,
        ),
        spec_constants(stable, s, pos) is Ok ==> pos <= spec_constants(stable, s, pos)->Ok_0.1
            <= s.len(),
{
    let k0 = if pos <= k { k } else { s.len() as int };
    lemma_varint_cut(s, pos, k0);
    if let Ok((n, at)) = spec_varint(s, pos) {
        lemma_constants_n_cut(stable, s, at, n as nat, k0);
    }
}

/// The decoder of a word of four bytes.
pub struct Word {
    pub endian: Endianness,
}

impl Reader for Word {
    type Out = u32;

    open spec fn spec_read(&self, s: Seq<u8>, pos: int) -> Parsed<u32> {
        spec_u32(s, pos, self.endian)
    }

    fn read(&self, input: &[u8], pos: usize) -> (r: Result<(u32, usize), DecodeError>) {
        fixed32(input, pos, self.endian)
    }

    proof fn lemma_cut(&self, s: Seq<u8>, pos: int, k: int) {
        lemma_fixed_cut(s, pos, 4, self.endian, k);
    }
}

/// The decoder of one entry of the table of strings: a length as a
/// variable-length integer, then that many bytes.
pub struct Entry {}

impl Reader for Entry {
    type Out = Vec<u8>;

    open spec fn spec_read(&self, s: Seq<u8>, pos: int) -> Parsed<Seq<u8>> {
        match spec_varint(s, pos) {
            Err(e) => Err(e),
            Ok((n, at)) => in_context(spec_bytes(s, at, n as nat), Context::String),
        }
    }

    fn read(&self, input: &[u8], pos: usize) -> (r: Result<(Vec<u8>, usize), DecodeError>) {
        let (n, at) = varint(input, pos)?;
        with_context(bytes(input, at, n), Context::String)
    }

    proof fn lemma_cut(&self, s: Seq<u8>, pos: int, k: int) {
        lemma_varint_cut(s, pos, k);
        if let Ok((n, at)) = spec_varint(s, pos) {
            lemma_bytes_cut(s, at, n as nat, if at <= k { k } else { s.len() as int });
        }
    }
}

/// The decoder of one local variable as the file holds it: a reference to
/// its name, the first and the last instruction of its life as
/// variable-length integers, and its register.
pub struct LocalEntry {
    pub count: u64,
}

impl Reader for LocalEntry {
    type Out = (u64, u64, u64, u8);

    open spec fn spec_read(&self, s: Seq<u8>, pos: int) -> Parsed<(u64, u64, u64, u8)> {
        match (StringIndex { count: self.count }).spec_read(s, pos) {
            Err(e) => Err(e),
            Ok((name, p1)) => match spec_varint(s, p1) {
                Err(e) => Err(e),
                Ok((start_pc, p2)) => match spec_varint(s, p2) {
                    Err(e) => Err(e),
                    Ok((end_pc, p3)) => match spec_byte(s, p3) {
                        Err(e) => Err(e),
                        Ok((reg, p4)) => Ok(((name, start_pc, end_pc, reg), p4)),
                    },
                },
            },
        }
    }

    fn read(&self, input: &[u8], pos: usize) -> (r: Result<
        ((u64, u64, u64, u8), usize),
        DecodeError,
    >) {
        let (name, p1) = (StringIndex { count: self.count }).read(input, pos)?;
        let (start_pc, p2) = varint(input, p1)?;
        let (end_pc, p3) = varint(input, p2)?;
        let (reg, p4) = byte(input, p3)?;
        Ok(((name, start_pc, end_pc, reg), p4))
    }

    proof fn lemma_cut(&self, s: Seq<u8>, pos: int, k: int) {
        let n = s.len() as int;
        lemma_varint_cut(s, pos, k);
        if let Ok((name, p1)) = (StringIndex { count: self.count }).spec_read(s, pos) {
            lemma_varint_cut(s, p1, if p1 <= k { k } else { n });
            if let Ok((start_pc, p2)) = spec_varint(s, p1) {
                lemma_varint_cut(s, p2, if p2 <= k { k } else { n });
                if let Ok((end_pc, p3)) = spec_varint(s, p2) {
                    lemma_byte_cut(s, p3, if p3 <= k { k } else { n });
                }
            }
        }
    }
}

/// Every local variable that was decoded refers to a name within the
/// table.
pub proof fn lemma_locals_bounded(count: u64, s: Seq<u8>, pos: int, n: nat)
    requires
        spec_repeat(LocalEntry { count }, s, pos, n) is Ok,
    ensures
        spec_repeat(LocalEntry { count }, s, pos, n)->Ok_0.0.len() == n,
        forall|j: int|
            0 <= j < n ==> (#[trigger] spec_repeat(LocalEntry { count }, s, pos, n)->Ok_0.0[j]).0
                <= count,
    decreases n,
{
    if n > 0 {
        lemma_locals_bounded(count, s, pos, (n - 1) as nat);
    }
}

/// The local variables that the entries `raws` stand for.
pub open spec fn spec_locals_of(stable: Seq<Seq<u8>>, raws: Seq<(u64, u64, u64, u8)>) -> Seq<
    LocalView,
> {
    Seq::new(
        raws.len(),
        |j: int|
            LocalView {
                name: lossy_text(spec_string_at(stable, raws[j].0)),
                start_pc: raws[j].1,
                end_pc: raws[j].2,
                reg: raws[j].3,
            },
    )
}

/// The strings that the references `indices` stand for.
pub open spec fn spec_strings_of(stable: Seq<Seq<u8>>, indices: Seq<u64>) -> Seq<Seq<u8>> {
    Seq::new(indices.len(), |j: int| spec_string_at(stable, indices[j]))
}

/// Looks up the names of local variables.
fn locals_of(stable: &Vec<Vec<u8>>, raws: &Vec<(u64, u64, u64, u8)>) -> (r: Vec<LuaLocal>)
    requires
        forall|j: int| 0 <= j < raws.len() ==> (#[trigger] raws[j]).0 <= stable.len(),
    ensures
        r.deep_view() == spec_locals_of(stable.deep_view(), raws@),
{
    let mut r: Vec<LuaLocal> = Vec::new();
    let mut j: usize = 0;
    while j < raws.len()
        invariant
            j <= raws.len(),
            r.len() == j,
            forall|i: int| 0 <= i < raws.len() ==> (#[trigger] raws[i]).0 <= stable.len(),
            forall|i: int|
                0 <= i < j ==> (#[trigger] r[i]).deep_view() == spec_locals_of(
                    stable.deep_view(),
                    raws@,
                )[i],
        decreases raws.len() - j,
    {
        let raw = raws[j];
        let name = string_at(stable, raw.0);
        assert(name.deep_view() =~= name@);
        r.push(
            LuaLocal {
                name: utf8_lossy(name.as_slice()),
                start_pc: raw.1,
                end_pc: raw.2,
                reg: raw.3,
            },
        );
        j += 1;
    }
    assert(r.deep_view() =~= spec_locals_of(stable.deep_view(), raws@));
    r
}

/// Looks up references to strings.
fn strings_of(stable: &Vec<Vec<u8>>, indices: &Vec<u64>) -> (r: Vec<Vec<u8>>)
    requires
        forall|j: int| 0 <= j < indices.len() ==> (#[trigger] indices[j]) <= stable.len(),
    ensures
        r.deep_view() == spec_strings_of(stable.deep_view(), indices@),
{
    let mut r: Vec<Vec<u8>> = Vec::new();
    let mut j: usize = 0;
    while j < indices.len()
        invariant
            j <= indices.len(),
            r.len() == j,
            forall|i: int| 0 <= i < indices.len() ==> (#[trigger] indices[i]) <= stable.len(),
            forall|i: int|
                0 <= i < j ==> (#[trigger] r[i]).deep_view() == spec_string_at(
                    stable.deep_view(),
                    indices[i],
                ),
        decreases indices.len() - j,
    {
        r.push(string_at(stable, indices[j]));
        j += 1;
    }
    assert(r.deep_view() =~= spec_strings_of(stable.deep_view(), indices@));
    r
}

/// The prototypes at the places `indices[0..n]` of the table `slots`, and
/// the table without them.
///
/// A prototype that is taken leaves an empty prototype in its place, so an
/// index that occurs twice yields an empty prototype the second time.
pub open spec fn spec_take_all(slots: Seq<ChunkView>, indices: Seq<u64>, n: nat) -> (
    Seq<ChunkView>,
    Seq<ChunkView>,
)
    decreases n,
{
    if n == 0 {
        (Seq::empty(), slots)
    } else {
        let (taken, rest) = spec_take_all(slots, indices, (n - 1) as nat);
        let i = indices[n - 1] as int;
        (taken.push(rest[i]), rest.update(i, ChunkView::empty()))
    }
}

/// Takes the prototype at place `i` of the table and leaves an empty one.
fn take_slot(slots: &mut Vec<LuaChunk>, i: usize) -> (r: LuaChunk)
    requires
        i < old(slots).len(),
    ensures
        r.deep_view() == old(slots).deep_view()[i as int],
        final(slots).deep_view() == old(slots).deep_view().update(i as int, ChunkView::empty()),
        final(slots).len() == old(slots).len(),
{
    let ghost before = *slots;
    slots.push(LuaChunk::default());
    let r = slots.swap_remove(i);
    assert(slots.deep_view() =~= before.deep_view().update(i as int, ChunkView::empty()));
    r
}

/// Takes the prototypes at the places `indices` of the table.
fn take_all(slots: &mut Vec<LuaChunk>, indices: &Vec<u64>) -> (r: Vec<LuaChunk>)
    requires
        forall|j: int| 0 <= j < indices.len() ==> (#[trigger] indices[j]) < old(slots).len(),
    ensures
        (r.deep_view(), final(slots).deep_view()) == spec_take_all(
            old(slots).deep_view(),
            indices@,
            indices@.len(),
        ),
        final(slots).len() == old(slots).len(),
{
    let ghost slots0 = slots.deep_view();
    let mut r: Vec<LuaChunk> = Vec::new();
    let mut j: usize = 0;
    proof {
        lemma_deep_empty(r);
    }
    while j < indices.len()
        invariant
            j <= indices.len(),
            slots0 == old(slots).deep_view(),
            slots.len() == old(slots).len(),
            forall|i: int| 0 <= i < indices.len() ==> (#[trigger] indices[i]) < slots.len(),
            (r.deep_view(), slots.deep_view()) == spec_take_all(slots0, indices@, j as nat),
        decreases indices.len() - j,
    {
        let ghost before = r;
        let child = take_slot(slots, indices[j] as usize);
        r.push(child);
        proof {
            lemma_deep_push(before, r, child);
        }
        j += 1;
    }
    r
}

/// What the vararg byte `b` of a prototype says: any byte but zero marks a
/// variadic prototype.
pub open spec fn spec_vararg(b: u8) -> Option<LuaVarArgInfo> {
    if b > 0 {
        Some(LuaVarArgInfo { has_arg: true, needs_arg: true })
    } else {
        None
    }
}

/// The first part of the prototype at `pos`, as a prototype that has
/// nothing else: four bytes (stack size, parameter count, upvalue count,
/// vararg flag), the instructions as a counted sequence of words, least
/// significant byte first, and the constants.
#[verifier::opaque]
pub open spec fn spec_proto_code(stable: Seq<Seq<u8>>, s: Seq<u8>, pos: int) -> Parsed<ChunkView> {
    match spec_byte(s, pos) {
        Err(e) => Err(e),
        Ok((max_stack, p1)) => match spec_byte(s, p1) {
            Err(e) => Err(e),
            Ok((num_params, p2)) => match spec_byte(s, p2) {
                Err(e) => Err(e),
                Ok((num_upvalues, p3)) => match spec_byte(s, p3) {
                    Err(e) => Err(e),
                    Ok((is_vararg, p4)) => match spec_counted(
                        Word { endian: Endianness::Little },
                        s,
                        p4,
                    ) {
                        Err(e) => Err(e),
                        Ok((instructions, p5)) => match spec_constants(stable, s, p5) {
                            Err(e) => Err(e),
                            Ok((constants, p6)) => Ok(
                                (
                                    ChunkView {
                                        max_stack,
                                        num_params,
                                        num_upvalues,
                                        is_vararg: spec_vararg(is_vararg),
                                        instructions,
                                        constants,
                                        ..ChunkView::empty()
                                    },
                                    p6,
                                ),
                            ),
                        },
                    },
                },
            },
        },
    }
}

/// The prototype `base` with its children, its first line and its name,
/// read from `pos` on, and the table of prototypes without the children.
///
/// The children are a counted sequence of indices into the table `slots`
/// of the prototypes decoded before; the first line is a variable-length
/// integer; the name is a reference to a string.
#[verifier::opaque]
pub open spec fn spec_proto_links(
    stable: Seq<Seq<u8>>,
    slots: Seq<ChunkView>,
    s: Seq<u8>,
    pos: int,
    base: ChunkView,
) -> Parsed<(ChunkView, Seq<ChunkView>)> {
    match spec_counted(Index { limit: slots.len() as u64 }, s, pos) {
        Err(e) => Err(e),
        Ok((indices, p1)) => match spec_varint(s, p1) {
            Err(e) => Err(e),
            Ok((line_defined, p2)) => match spec_string(stable, s, p2) {
                Err(e) => Err(e),
                Ok((name, p3)) => Ok(
                    (
                        (
                            ChunkView {
                                prototypes: spec_take_all(slots, indices, indices.len()).0,
                                line_defined,
                                name,
                                ..base
                            },
                            spec_take_all(slots, indices, indices.len()).1,
                        ),
                        p3,
                    ),
                ),
            },
        },
    }
}

/// The number of absolute line entries for `n` instructions with one
/// entry every two to the power `log2` instructions.
pub open spec fn spec_intervals(n: u64, log2: u8) -> u64 {
    if n == 0 {
        0
    } else if log2 >= 64 {
        1
    } else {
        (((n - 1) as u64 >> (log2 as u64)) + 1) as u64
    }
}

/// Counts the absolute line entries.
pub fn intervals(n: u64, log2: u8) -> (r: u64)
    ensures
        r == spec_intervals(n, log2),
{
    if n == 0 {
        0
    } else if log2 >= 64 {
        1
    } else {
        let m: u64 = n - 1;
        let by: u64 = log2 as u64;
        assert(m >> by <= m) by (bit_vector)
            requires
                by < 64,
        ;
        (m >> by) + 1
    }
}

/// The line information of a prototype with `n` instructions at `pos`,
/// which is passed over: a flag byte and, unless it is zero, a byte that
/// gives the distance of the absolute entries, one byte for each
/// instruction, and four bytes for each absolute entry.
#[verifier::opaque]
pub open spec fn spec_proto_lines(s: Seq<u8>, pos: int, n: u64) -> Parsed<()> {
    match spec_byte(s, pos) {
        Err(e) => Err(e),
        Ok((has_lineinfo, p1)) => if has_lineinfo > 0 {
            match spec_byte(s, p1) {
                Err(e) => Err(e),
                Ok((log2, p2)) => match spec_repeat(LineInfo {  }, s, p2, n as nat) {
                    Err(e) => Err(e),
                    Ok((_, p3)) => match spec_repeat(
                        Word { endian: Endianness::Big },
                        s,
                        p3,
                        spec_intervals(n, log2) as nat,
                    ) {
                        Err(e) => Err(e),
                        Ok((_, p4)) => Ok(((), p4)),
                    },
                },
            }
        } else {
            Ok(((), p1))
        },
    }
}

/// The prototype `base` with its debug information, read from `pos` on: a
/// flag byte and, unless it is zero, the local variables and the names of
/// the upvalues, each a counted sequence.
#[verifier::opaque]
pub open spec fn spec_proto_debug(stable: Seq<Seq<u8>>, s: Seq<u8>, pos: int, base: ChunkView)
    -> Parsed<ChunkView> {
    match spec_byte(s, pos) {
        Err(e) => Err(e),
        Ok((has_debuginfo, p1)) => if has_debuginfo > 0 {
            match spec_counted(LocalEntry { count: stable.len() as u64 }, s, p1) {
                Err(e) => Err(e),
                Ok((raws, p2)) => match spec_counted(
                    StringIndex { count: stable.len() as u64 },
                    s,
                    p2,
                ) {
                    Err(e) => Err(e),
                    Ok((names, p3)) => Ok(
                        (
                            ChunkView {
                                locals: spec_locals_of(stable, raws),
                                upvalue_names: spec_strings_of(stable, names),
                                ..base
                            },
                            p3,
                        ),
                    ),
                },
            }
        } else {
            Ok((base, p1))
        },
    }
}

/// The prototype at `pos`, and the table `slots` of the prototypes before
/// it without its children.
pub open spec fn spec_proto(stable: Seq<Seq<u8>>, slots: Seq<ChunkView>, s: Seq<u8>, pos: int)
    -> Parsed<(ChunkView, Seq<ChunkView>)> {
    match spec_proto_code(stable, s, pos) {
        Err(e) => Err(e),
        Ok((code, p1)) => match spec_proto_links(stable, slots, s, p1, code) {
            Err(e) => Err(e),
            Ok(((linked, rest), p2)) => match spec_proto_lines(
                s,
                p2,
                code.instructions.len() as u64,
            ) {
                Err(e) => Err(e),
                Ok((_, p3)) => match spec_proto_debug(stable, s, p3, linked) {
                    Err(e) => Err(e),
                    Ok((chunk, p4)) => Ok(((chunk, rest), p4)),
                },
            },
        },
    }
}

/// Reads the first part of a prototype.
fn proto_code(stable: &Vec<Vec<u8>>, input: &[u8], pos: usize) -> (r: Result<
    (LuaChunk, usize),
    DecodeError,
>)
    ensures
        agrees(r, spec_proto_code(stable.deep_view(), input@, pos as int)),
        r is Ok ==> r->Ok_0.0.instructions@.len() == r->Ok_0.0.deep_view().instructions.len(),
{
    proof {
        reveal(spec_proto_code);
        reveal(LuaChunk::model);
    }
    let (max_stack, p1) = byte(input, pos)?;
    let (num_params, p2) = byte(input, p1)?;
    let (num_upvalues, p3) = byte(input, p2)?;
    let (is_vararg, p4) = byte(input, p3)?;
    let (instructions, p5) = counted(&Word { endian: Endianness::Little }, input, p4)?;
    let (constants, p6) = constants(stable, input, p5)?;
    let mut chunk = LuaChunk::default();
    let ghost blank = chunk;
    chunk.max_stack = max_stack;
    chunk.num_params = num_params;
    chunk.num_upvalues = num_upvalues;
    chunk.is_vararg = if is_vararg > 0 {
        Some(LuaVarArgInfo { has_arg: true, needs_arg: true })
    } else {
        None
    };
    chunk.instructions = instructions;
    chunk.constants = constants;
    assert(chunk.model().prototypes =~= blank.model().prototypes);
    Ok((chunk, p6))
}

/// Reads the children, the first line and the name of a prototype into
/// `base`. The children leave `slots`.
fn proto_links(
    stable: &Vec<Vec<u8>>,
    slots: &mut Vec<LuaChunk>,
    input: &[u8],
    pos: usize,
    base: LuaChunk,
) -> (r: Result<(LuaChunk, usize), DecodeError>)
    ensures
        final(slots).len() == old(slots).len(),
        match r {
            Ok((chunk, next)) => spec_proto_links(
                stable.deep_view(),
                old(slots).deep_view(),
                input@,
                pos as int,
                base.deep_view(),
            ) == Ok::<((ChunkView, Seq<ChunkView>), int), ErrorView>(
                ((chunk.deep_view(), final(slots).deep_view()), next as int),
            ),
            Err(e) => spec_proto_links(
                stable.deep_view(),
                old(slots).deep_view(),
                input@,
                pos as int,
                base.deep_view(),
            ) == Err::<((ChunkView, Seq<ChunkView>), int), ErrorView>(e.deep_view()),
        },
{
    proof {
        reveal(spec_proto_links);
        reveal(LuaChunk::model);
    }
    let (indices, p1) = counted(&Index { limit: slots.len() as u64 }, input, pos)?;
    let (line_defined, p2) = varint(input, p1)?;
    let (name, p3) = string(stable, input, p2)?;
    proof {
        let at = spec_varint(input@, pos as int)->Ok_0.1;
        let n = spec_varint(input@, pos as int)->Ok_0.0;
        lemma_indices_bounded(slots.len() as u64, input@, at, n as nat);
        assert(indices.deep_view() =~= indices@);
    }
    let children = take_all(slots, &indices);
    let mut chunk = base;
    chunk.prototypes = children;
    chunk.line_defined = line_defined;
    chunk.name = name;
    assert(chunk.model().prototypes =~= children.deep_view());
    Ok((chunk, p3))
}

/// Passes over the line information of a prototype with `n` instructions.
fn proto_lines(input: &[u8], pos: usize, n: u64) -> (r: Result<((), usize), DecodeError>)
    ensures
        agrees(r, spec_proto_lines(input@, pos as int, n)),
{
    proof {
        reveal(spec_proto_lines);
    }
    let (has_lineinfo, p1) = byte(input, pos)?;
    if has_lineinfo > 0 {
        let (log2, p2) = byte(input, p1)?;
        let (_, p3) = repeat(&LineInfo {  }, input, p2, n)?;
        let (_, p4) = repeat(&Word { endian: Endianness::Big }, input, p3, intervals(n, log2))?;
        Ok(((), p4))
    } else {
        Ok(((), p1))
    }
}

/// Reads the debug information of a prototype into `base`.
fn proto_debug(stable: &Vec<Vec<u8>>, input: &[u8], pos: usize, base: LuaChunk) -> (r: Result<
    (LuaChunk, usize),
    DecodeError,
>)
    ensures
        agrees(r, spec_proto_debug(stable.deep_view(), input@, pos as int, base.deep_view())),
{
    proof {
        reveal(spec_proto_debug);
        reveal(LuaChunk::model);
    }
    let (has_debuginfo, p1) = byte(input, pos)?;
    if has_debuginfo > 0 {
        let count = stable.len() as u64;
        let (raws, p2) = counted(&LocalEntry { count }, input, p1)?;
        let (names, p3) = counted(&StringIndex { count }, input, p2)?;
        proof {
            let a1 = spec_varint(input@, p1 as int)->Ok_0.1;
            let n1 = spec_varint(input@, p1 as int)->Ok_0.0;
            lemma_locals_bounded(count, input@, a1, n1 as nat);
            let a2 = spec_varint(input@, p2 as int)->Ok_0.1;
            let n2 = spec_varint(input@, p2 as int)->Ok_0.0;
            lemma_references_bounded(count, input@, a2, n2 as nat);
            assert(raws.deep_view() =~= raws@);
            assert(names.deep_view() =~= names@);
        }
        let mut chunk = base;
        chunk.locals = locals_of(stable, &raws);
        chunk.upvalue_names = strings_of(stable, &names);
        assert(chunk.model().prototypes =~= base.model().prototypes);
        Ok((chunk, p3))
    } else {
        Ok((base, p1))
    }
}

/// Reads a prototype. Its children leave `slots`.
fn proto(stable: &Vec<Vec<u8>>, slots: &mut Vec<LuaChunk>, input: &[u8], pos: usize) -> (r: Result<
    (LuaChunk, usize),
    DecodeError,
>)
    ensures
        final(slots).len() == old(slots).len() || r is Err,
        match r {
            Ok((chunk, next)) => spec_proto(
                stable.deep_view(),
                old(slots).deep_view(),
                input@,
                pos as int,
            ) == Ok::<((ChunkView, Seq<ChunkView>), int), ErrorView>(
                ((chunk.deep_view(), final(slots).deep_view()), next as int),
            ),
            Err(e) => spec_proto(stable.deep_view(), old(slots).deep_view(), input@, pos as int)
                == Err::<((ChunkView, Seq<ChunkView>), int), ErrorView>(e.deep_view()),
        },
{
    let (code, p1) = proto_code(stable, input, pos)?;
    let n = code.instructions.len() as u64;
    let (linked, p2) = proto_links(stable, slots, input, p1, code)?;
    let (_, p3) = proto_lines(input, p2, n)?;
    let (chunk, p4) = proto_debug(stable, input, p3, linked)?;
    Ok((chunk, p4))
}

/// The table of prototypes after `n` prototypes were decoded from `pos`
/// on. Each prototype joins the table when it is finished.
pub open spec fn spec_protos_n(stable: Seq<Seq<u8>>, s: Seq<u8>, pos: int, n: nat) -> Parsed<
    Seq<ChunkView>,
>
    decreases n,
{
    if n == 0 {
        Ok((Seq::empty(), pos))
    } else {
        match spec_protos_n(stable, s, pos, (n - 1) as nat) {
            Err(e) => Err(e),
            Ok((slots, at)) => match spec_proto(stable, slots, s, at) {
                Err(e) => Err(e),
                Ok(((chunk, rest), next)) => Ok((rest.push(chunk), next)),
            },
        }
    }
}

/// Once decoding the prototypes has failed, asking for more changes
/// nothing.
pub proof fn lemma_protos_failed(stable: Seq<Seq<u8>>, s: Seq<u8>, pos: int, i: nat, n: nat)
    requires
        i <= n,
        spec_protos_n(stable, s, pos, i) is Err,
    ensures
        spec_protos_n(stable, s, pos, n) == spec_protos_n(stable, s, pos, i),
    decreases n,
{
    if i < n {
        lemma_protos_failed(stable, s, pos, i, (n - 1) as nat);
    }
}

/// The root prototype of the file at `pos`.
///
/// A version byte comes first, then the table of strings as a counted
/// sequence, the count of prototypes as a variable-length integer, the
/// prototypes, and the index of the root among them. A root without
/// instructions (which a prototype that was taken as a child is) is an
/// `IndexOutOfRange` at its index.
pub open spec fn spec_bytecode(s: Seq<u8>, pos: int) -> Parsed<ChunkView> {
    match spec_byte(s, pos) {
        Err(e) => Err(e),
        Ok((version, p1)) => match spec_counted(Entry {  }, s, p1) {
            Err(e) => Err(e),
            Ok((stable, p2)) => match spec_varint(s, p2) {
                Err(e) => Err(e),
                Ok((n, p3)) => match spec_protos_n(stable, s, p3, n as nat) {
                    Err(e) => Err(e),
                    Ok((slots, p4)) => match (Index { limit: slots.len() as u64 }).spec_read(
                        s,
                        p4,
                    ) {
                        Err(e) => Err(e),
                        Ok((main, p5)) => if slots[main as int].instructions.len() == 0 {
                            fail(p4, ErrorKind::IndexOutOfRange)
                        } else {
                            Ok((slots[main as int], p5))
                        },
                    },
                },
            },
        },
    }
}

/// Reads the root prototype of a Luau file.
pub fn bytecode(input: &[u8], pos: usize) -> (r: Result<(LuaChunk, usize), DecodeError>)
    ensures
        agrees(r, spec_bytecode(input@, pos as int)),
        r is Ok ==> pos <= r->Ok_0.1 <= input@.len(),
{
    let (_version, p1) = byte(input, pos)?;
    let (stable, p2) = counted(&Entry {  }, input, p1)?;
    let (n, p3) = varint(input, p2)?;
    let mut slots: Vec<LuaChunk> = Vec::new();
    let mut at: usize = p3;
    let mut i: u64 = 0;
    proof {
        lemma_deep_empty(slots);
    }
    while i < n
        invariant
            i <= n,
            slots.len() == i,
            pos < input@.len(),
            spec_byte(input@, pos as int) is Ok,
            spec_byte(input@, pos as int)->Ok_0.1 == p1,
            spec_counted(Entry {  }, input@, p1 as int) == Ok::<(Seq<Seq<u8>>, int), ErrorView>(
                (stable.deep_view(), p2 as int),
            ),
            spec_varint(input@, p2 as int) == Ok::<(u64, int), ErrorView>((n, p3 as int)),
            spec_protos_n(stable.deep_view(), input@, p3 as int, i as nat) == Ok::<
                (Seq<ChunkView>, int),
                ErrorView,
            >((slots.deep_view(), at as int)),
        decreases n - i,
    {
        match proto(&stable, &mut slots, input, at) {
            Err(e) => {
                proof {
                    lemma_protos_failed(
                        stable.deep_view(),
                        input@,
                        p3 as int,
                        (i + 1) as nat,
                        n as nat,
                    );
                }
                return Err(e);
            },
            Ok((chunk, next)) => {
                let ghost before = slots;
                slots.push(chunk);
                proof {
                    lemma_deep_push(before, slots, chunk);
                }
                at = next;
                i += 1;
            },
        }
    }
    let (main, p5) = (Index { limit: slots.len() as u64 }).read(input, at)?;
    let root = take_slot(&mut slots, main as usize);
    proof {
        root.lemma_model();
        lemma_bytecode_cut(input@, pos as int, input@.len() as int);
    }
    if root.is_empty() {
        Err(DecodeError::new(at, ErrorKind::IndexOutOfRange))
    } else {
        Ok((root, p5))
    }
}

/// The first part of a prototype depends on its bytes alone.
pub proof fn lemma_proto_code_cut(stable: Seq<Seq<u8>>, s: Seq<u8>, pos: int, k: int)
    requires
        0 <= pos <= s.len(),
        0 <= k <= s.len(),
    ensures
        pos <= k ==> cut_law(
            spec_proto_code(stable, s, pos),
            spec_proto_code(stable, s.take(k), pos),
            pos,
            k,
            s.len() as int,
        ),
        spec_proto_code(stable, s, pos) is Ok ==> pos < spec_proto_code(stable, s, pos)->Ok_0.1
            <= s.len(),
{
    reveal(spec_proto_code);
    let n = s.len() as int;
    let k0 = if pos <= k { k } else { n };
    lemma_byte_cut(s, pos, k0);
    if let Ok((max_stack, p1)) = spec_byte(s, pos) {
        lemma_byte_cut(s, p1, if p1 <= k0 { k0 } else { n });
        if let Ok((num_params, p2)) = spec_byte(s, p1) {
            lemma_byte_cut(s, p2, if p2 <= k0 { k0 } else { n });
            if let Ok((num_upvalues, p3)) = spec_byte(s, p2) {
                lemma_byte_cut(s, p3, if p3 <= k0 { k0 } else { n });
                if let Ok((is_vararg, p4)) = spec_byte(s, p3) {
                    lemma_counted_cut(Word { endian: Endianness::Little }, s, p4, k0);
                    if let Ok((instructions, p5)) = spec_counted(
                        Word { endian: Endianness::Little },
                        s,
                        p4,
                    ) {
                        lemma_constants_cut(stable, s, p5, k0);
                    }
                }
            }
        }
    }
}

/// The children, the first line and the name of a prototype depend on
/// their bytes alone.
pub proof fn lemma_proto_links_cut(
    stable: Seq<Seq<u8>>,
    slots: Seq<ChunkView>,
    s: Seq<u8>,
    pos: int,
    base: ChunkView,
    k: int,
)
    requires
        0 <= pos <= s.len(),
        0 <= k <= s.len(),
    ensures
        pos <= k ==> cut_law(
            spec_proto_links(stable, slots, s, pos, base),
            spec_proto_links(stable, slots, s.take(k), pos, base),
            pos,
            k,
            s.len() as int,
        ),
        spec_proto_links(stable, slots, s, pos, base) is Ok ==> pos <= spec_proto_links(
            stable,
            slots,
            s,
            pos,
            base,
        )->Ok_0.1 <= s.len(),
{
    reveal(spec_proto_links);
    let n = s.len() as int;
    let k0 = if pos <= k { k } else { n };
    lemma_counted_cut(Index { limit: slots.len() as u64 }, s, pos, k0);
    if let Ok((indices, p1)) = spec_counted(Index { limit: slots.len() as u64 }, s, pos) {
        lemma_varint_cut(s, p1, if p1 <= k0 { k0 } else { n });
        if let Ok((line_defined, p2)) = spec_varint(s, p1) {
            lemma_varint_cut(s, p2, if p2 <= k0 { k0 } else { n });
        }
    }
}

/// The line information of a prototype depends on its bytes alone.
pub proof fn lemma_proto_lines_cut(s: Seq<u8>, pos: int, count: u64, k: int)
    requires
        0 <= pos <= s.len(),
        0 <= k <= s.len(),
    ensures
        pos <= k ==> cut_law(
            spec_proto_lines(s, pos, count),
            spec_proto_lines(s.take(k), pos, count),
            pos,
            k,
            s.len() as int,
        ),
        spec_proto_lines(s, pos, count) is Ok ==> pos <= spec_proto_lines(s, pos, count)->Ok_0.1
            <= s.len(),
{
    reveal(spec_proto_lines);
    let n = s.len() as int;
    let k0 = if pos <= k { k } else { n };
    lemma_byte_cut(s, pos, k0);
    if let Ok((has_lineinfo, p1)) = spec_byte(s, pos) {
        lemma_byte_cut(s, p1, if p1 <= k0 { k0 } else { n });
        if let Ok((log2, p2)) = spec_byte(s, p1) {
            lemma_repeat_cut(LineInfo {  }, s, p2, count as nat, if p2 <= k0 { k0 } else { n });
            if let Ok((_, p3)) = spec_repeat(LineInfo {  }, s, p2, count as nat) {
                lemma_repeat_cut(
                    Word { endian: Endianness::Big },
                    s,
                    p3,
                    spec_intervals(count, log2) as nat,
                    if p3 <= k0 { k0 } else { n },
                );
            }
        }
    }
}

/// The debug information of a prototype depends on its bytes alone.
pub proof fn lemma_proto_debug_cut(
    stable: Seq<Seq<u8>>,
    s: Seq<u8>,
    pos: int,
    base: ChunkView,
    k: int,
)
    requires
        0 <= pos <= s.len(),
        0 <= k <= s.len(),
    ensures
        pos <= k ==> cut_law(
            spec_proto_debug(stable, s, pos, base),
            spec_proto_debug(stable, s.take(k), pos, base),
            pos,
            k,
            s.len() as int,
        ),
        spec_proto_debug(stable, s, pos, base) is Ok ==> pos <= spec_proto_debug(
            stable,
            s,
            pos,
            base,
        )->Ok_0.1 <= s.len(),
{
    reveal(spec_proto_debug);
    let n = s.len() as int;
    let k0 = if pos <= k { k } else { n };
    lemma_byte_cut(s, pos, k0);
    if let Ok((has_debuginfo, p1)) = spec_byte(s, pos) {
        lemma_counted_cut(LocalEntry { count: stable.len() as u64 }, s, p1, k0);
        if let Ok((raws, p2)) = spec_counted(LocalEntry { count: stable.len() as u64 }, s, p1) {
            lemma_counted_cut(StringIndex { count: stable.len() as u64 }, s, p2, k0);
        }
    }
}

/// A prototype depends on its bytes alone.
pub proof fn lemma_proto_cut(
    stable: Seq<Seq<u8>>,
    slots: Seq<ChunkView>,
    s: Seq<u8>,
    pos: int,
    k: int,
)
    requires
        0 <= pos <= s.len(),
        0 <= k <= s.len(),
    ensures
        pos <= k ==> cut_law(
            spec_proto(stable, slots, s, pos),
            spec_proto(stable, slots, s.take(k), pos),
            pos,
            k,
            s.len() as int,
        ),
        spec_proto(stable, slots, s, pos) is Ok ==> pos <= spec_proto(stable, slots, s, pos)->Ok_0.1
            <= s.len(),
{
    lemma_proto_code_cut(stable, s, pos, k);
    if let Ok((code, p1)) = spec_proto_code(stable, s, pos) {
        lemma_proto_links_cut(stable, slots, s, p1, code, k);
        if let Ok(((linked, rest), p2)) = spec_proto_links(stable, slots, s, p1, code) {
            lemma_proto_lines_cut(s, p2, code.instructions.len() as u64, k);
            if let Ok((_, p3)) = spec_proto_lines(s, p2, code.instructions.len() as u64) {
                lemma_proto_debug_cut(stable, s, p3, linked, k);
            }
        }
    }
}

/// The table of prototypes depends on the bytes it is read from and on no
/// others.
pub proof fn lemma_protos_cut(stable: Seq<Seq<u8>>, s: Seq<u8>, pos: int, n: nat, k: int)
    requires
        0 <= pos <= s.len(),
        0 <= k <= s.len(),
    ensures
        pos <= k ==> cut_law(
            spec_protos_n(stable, s, pos, n),
            spec_protos_n(stable, s.take(k), pos, n),
            pos,
            k,
            s.len() as int,
        ),
        spec_protos_n(stable, s, pos, n) is Ok ==> pos <= spec_protos_n(stable, s, pos, n)->Ok_0.1
            <= s.len(),
    decreases n,
{
    if n > 0 {
        lemma_protos_cut(stable, s, pos, (n - 1) as nat, k);
        if let Ok((slots, at)) = spec_protos_n(stable, s, pos, (n - 1) as nat) {
            lemma_proto_cut(stable, slots, s, at, k);
        }
    }
}

/// Cutting the input of a file that is decoded, inside what was read of
/// it, leaves a file that is `Truncated`; cutting it behind that changes
/// nothing.
pub proof fn lemma_bytecode_cut(s: Seq<u8>, pos: int, k: int)
    requires
        0 <= pos <= k <= s.len(),
    ensures
        cut_law(spec_bytecode(s, pos), spec_bytecode(s.take(k), pos), pos, k, s.len() as int),
{
    let n = s.len() as int;
    lemma_byte_cut(s, pos, k);
    if let Ok((version, p1)) = spec_byte(s, pos) {
        lemma_counted_cut(Entry {  }, s, p1, k);
        if let Ok((stable, p2)) = spec_counted(Entry {  }, s, p1) {
            lemma_varint_cut(s, p2, if p2 <= k { k } else { n });
            if let Ok((count, p3)) = spec_varint(s, p2) {
                lemma_protos_cut(stable, s, p3, count as nat, k);
                if let Ok((slots, p4)) = spec_protos_n(stable, s, p3, count as nat) {
                    lemma_varint_cut(s, p4, if p4 <= k { k } else { n });
                }
            }
        }
    }
}

} // verus!
