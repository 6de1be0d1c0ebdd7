//! The LuaJIT decoder.
//!
//! A LuaJIT file lists its prototypes children first. The decoder keeps the
//! prototypes it has finished on a stack; a prototype that names a child
//! takes it from the top of that stack.

use crate::error::{
    agrees, cut_law, fail, in_context, with_context, Context, DecodeError, ErrorKind, ErrorView,
    Parsed,
};
use crate::header::{expect, spec_expect};
use crate::lua54::Instruction;
use crate::model::{
    ChunkView, ConstTable, ConstantView, Endianness, LuaChunk, LuaConstant, LuaHeader, LuaNumber,
    TableView, UpVal, LUAJ1, LUAJ2,
};
use crate::number::{as_signed, to_signed};
use crate::read::{
    byte, bytes, fixed16, leb128_u32, leb128_u64, varint_wide, lemma_byte_cut, lemma_bytes_cut,
    lemma_fixed_cut, lemma_leb128_typed_cut, lemma_scan_bounds, lemma_scan_cut, lemma_value_cut,
    lemma_value_step, pow128, spec_byte, spec_bytes, spec_leb128_u32, spec_leb128_u64, spec_u16,
};
use crate::repeat::{
    lemma_deep_empty, lemma_deep_pop, lemma_deep_push, lemma_repeat_cut, repeat, spec_repeat,
    Reader,
};
use crate::wire::{leb128_scan, leb128_value, Scan};
use vstd::prelude::*;

verus! {

/// Header flag: multi-byte fields are big-endian.
pub const FLAG_IS_BIG_ENDIAN: u8 = 0b0000_0001;

/// Header flag: the file carries no debug information.
pub const FLAG_IS_STRIPPED: u8 = 0b0000_0010;

/// Header flag: the file uses the FFI.
pub const FLAG_HAS_FFI: u8 = 0b0000_0100;

/// Tag of a constant that names a child prototype.
pub const BCDUMP_KGC_CHILD: u64 = 0;

/// Tag of a table constant.
pub const BCDUMP_KGC_TAB: u64 = 1;

/// Tag of a signed 64-bit constant.
pub const BCDUMP_KGC_I64: u64 = 2;

/// Tag of an unsigned 64-bit constant.
pub const BCDUMP_KGC_U64: u64 = 3;

/// Tag of a complex number constant, which is not supported.
pub const BCDUMP_KGC_COMPLEX: u64 = 4;

/// First tag of a string constant: the tag less this is the length.
pub const BCDUMP_KGC_STR: u64 = 5;

/// Tag of a nil table item.
pub const BCDUMP_KTAB_NIL: u64 = 0;

/// Tag of a false table item.
pub const BCDUMP_KTAB_FALSE: u64 = 1;

/// Tag of a true table item.
pub const BCDUMP_KTAB_TRUE: u64 = 2;

/// Tag of an integer table item.
pub const BCDUMP_KTAB_INT: u64 = 3;

/// Tag of a floating-point table item.
pub const BCDUMP_KTAB_NUM: u64 = 4;

/// First tag of a string table item: the tag less this is the length.
pub const BCDUMP_KTAB_STR: u64 = 5;

/// The 33-bit variable-length integer at `pos`, without its lowest bit.
///
/// The first byte holds a flag in bit 0, six bits of the number in bits 1
/// to 6, and a continuation bit. If that bit is set, a LEB128 integer of at
/// most four bytes follows and gives the bits from the seventh on. The
/// result is cut to 32 bits. A continuation that the input cuts short is
/// `Truncated` at the end of the input; one of more than four bytes is an
/// `IntegerOverflow` at `pos`.
pub open spec fn spec_uleb128_33(s: Seq<u8>, pos: int) -> Parsed<u32> {
    match spec_byte(s, pos) {
        Err(e) => Err(e),
        Ok((first, at)) => if first < 0x80 {
            Ok(((first / 2) as u32, at))
        } else {
            match leb128_scan(s, at, 0, 4) {
                Scan::Ends(n) => Ok(
                    (
                        ((first / 2 % 0x40 + 0x40 * leb128_value(s, at, n)) % 0x1_0000_0000) as u32,
                        at + n,
                    ),
                ),
                Scan::TooLong => fail(pos, ErrorKind::IntegerOverflow),
                Scan::Short => fail(s.len() as int, ErrorKind::Truncated),
            }
        },
    }
}

/// Reads a 33-bit variable-length integer, without its lowest bit.
pub fn uleb128_33(input: &[u8], pos: usize) -> (r: Result<(u32, usize), DecodeError>)
    ensures
        agrees(r, spec_uleb128_33(input@, pos as int)),
{
    let (first, at) = byte(input, pos)?;
    if first < 0x80 {
        Ok(((first / 2) as u32, at))
    } else {
        match varint_wide(input, at, 4, false) {
            Ok((high, next)) => {
                proof {
                    lemma_scan_bounds(input@, at as int, 0, 4, false);
                    let n = leb128_scan(input@, at as int, 0, 4)->Ends_0;
                    lemma_value_step(input@, at as int, n);
                    crate::read::lemma_pow128_grows(n, 4);
                    reveal_with_fuel(pow128, 5);
                }
                let low: u128 = (first / 2 % 0x40) as u128;
                Ok((((low + 0x40 * high) % 0x1_0000_0000) as u32, next))
            },
            Err(e) => match e.kind {
                ErrorKind::IntegerOverflow => Err(
                    DecodeError::new(pos, ErrorKind::IntegerOverflow),
                ),
                _ => Err(e),
            },
        }
    }
}

/// A 33-bit variable-length integer depends on its bytes alone.
pub proof fn lemma_uleb128_33_cut(s: Seq<u8>, pos: int, k: int)
    requires
        0 <= pos <= k <= s.len(),
    ensures
        cut_law(spec_uleb128_33(s, pos), spec_uleb128_33(s.take(k), pos), pos, k, s.len() as int),
{
    lemma_byte_cut(s, pos, k);
    if let Ok((first, at)) = spec_byte(s, pos) {
        if first >= 0x80 && leb128_scan(s, at, 0, 4) is Ends {
            let n = leb128_scan(s, at, 0, 4)->Ends_0;
            lemma_scan_bounds(s, at, 0, 4, false);
            if at <= k {
                lemma_scan_cut(s, at, 0, 4, false, k);
                if at + n <= k {
                    lemma_value_cut(s, at, n, k);
                }
            }
        }
    }
}

/// The header at `pos`: the signature `ESC L J`, a version byte (1 or 2)
/// and a byte of flags: bit 0 for big-endian fields, bit 1 for a file
/// without debug information, bit 2 for one that uses the FFI.
///
/// Every width of the header is four bytes. Another version byte is an
/// `UnrecognizedDialect` at the byte itself.
pub open spec fn spec_lj_header(s: Seq<u8>, pos: int) -> Parsed<LuaHeader> {
    match spec_expect(s, pos, 0x1B) {
        Err(e) => Err(e),
        Ok((_, p1)) => match spec_expect(s, p1, 0x4C) {
            Err(e) => Err(e),
            Ok((_, p2)) => match spec_expect(s, p2, 0x4A) {
                Err(e) => Err(e),
                Ok((_, p3)) => match spec_byte(s, p3) {
                    Err(e) => Err(e),
                    Ok((version, p4)) => if version == 1 || version == 2 {
                        in_context(
                            match spec_byte(s, p4) {
                                Err(e) => Err(e),
                                Ok((flags, p5)) => Ok(
                                    (
                                        LuaHeader {
                                            lua_version: if version == 1 {
                                                LUAJ1
                                            } else {
                                                LUAJ2
                                            },
                                            format_version: 0,
                                            big_endian: flags & FLAG_IS_BIG_ENDIAN != 0,
                                            int_size: 4,
                                            size_t_size: 4,
                                            instruction_size: 4,
                                            number_size: 4,
                                            number_integral: false,
                                            stripped: flags & FLAG_IS_STRIPPED != 0,
                                            has_ffi: flags & FLAG_HAS_FFI != 0,
                                        },
                                        p5,
                                    ),
                                ),
                            },
                            if version == 1 {
                                Context::LuaJit1
                            } else {
                                Context::LuaJit2
                            },
                        )
                    } else {
                        fail(p3, ErrorKind::UnrecognizedDialect)
                    },
                },
            },
        },
    }
}

/// Reads the header of a LuaJIT file.
pub fn lj_header(input: &[u8], pos: usize) -> (r: Result<(LuaHeader, usize), DecodeError>)
    ensures
        agrees(r, spec_lj_header(input@, pos as int)),
        r is Ok ==> r->Ok_0.0.wf(),
{
    let (_, p1) = expect(input, pos, 0x1B)?;
    let (_, p2) = expect(input, p1, 0x4C)?;
    let (_, p3) = expect(input, p2, 0x4A)?;
    let (version, p4) = byte(input, p3)?;
    if version == 1 || version == 2 {
        let label = if version == 1 {
            Context::LuaJit1
        } else {
            Context::LuaJit2
        };
        let (flags, p5) = match byte(input, p4) {
            Ok(v) => v,
            Err(e) => { return Err(e.within(label)); },
        };
        Ok(
            (
                LuaHeader {
                    lua_version: if version == 1 {
                        LUAJ1
                    } else {
                        LUAJ2
                    },
                    format_version: 0,
                    big_endian: flags & FLAG_IS_BIG_ENDIAN != 0,
                    int_size: 4,
                    size_t_size: 4,
                    instruction_size: 4,
                    number_size: 4,
                    number_integral: false,
                    stripped: flags & FLAG_IS_STRIPPED != 0,
                    has_ffi: flags & FLAG_HAS_FFI != 0,
                },
                p5,
            ),
        )
    } else {
        Err(DecodeError::new(p3, ErrorKind::UnrecognizedDialect))
    }
}

/// The bit pattern of the double whose halves are `lo` and `hi`, in the
/// file's byte order: in a big-endian file `lo` is the upper half.
pub open spec fn spec_combine(lo: u32, hi: u32, e: Endianness) -> u64 {
    match e {
        Endianness::Big => (lo * 0x1_0000_0000 + hi) as u64,
        Endianness::Little => (hi * 0x1_0000_0000 + lo) as u64,
    }
}

/// Joins the two halves of a double.
pub fn combine_number(lo: u32, hi: u32, e: Endianness) -> (r: u64)
    ensures
        r == spec_combine(lo, hi, e),
{
    match e {
        Endianness::Big => lo as u64 * 0x1_0000_0000 + hi as u64,
        Endianness::Little => hi as u64 * 0x1_0000_0000 + lo as u64,
    }
}

/// The item of a table constant at `pos`: a LEB128 tag, then for tag 0
/// nothing (nil), for 1 nothing (false), for 2 nothing (true), for 3 a
/// LEB128 integer of 32 bits, for 4 the two halves of a double as LEB128
/// integers, and for a tag from 5 on a string of the tag less 5 bytes.
pub open spec fn spec_lj_tabk(s: Seq<u8>, pos: int, e: Endianness) -> Parsed<ConstantView> {
    match spec_leb128_u64(s, pos) {
        Err(err) => Err(err),
        Ok((ty, at)) => if ty == BCDUMP_KTAB_NIL {
            Ok((ConstantView::Null, at))
        } else if ty == BCDUMP_KTAB_FALSE {
            Ok((ConstantView::Bool(false), at))
        } else if ty == BCDUMP_KTAB_TRUE {
            Ok((ConstantView::Bool(true), at))
        } else if ty == BCDUMP_KTAB_INT {
            match spec_leb128_u32(s, at) {
                Err(err) => Err(err),
                Ok((n, next)) => Ok(
                    (ConstantView::Number(LuaNumber::Integer(n as i64)), next),
                ),
            }
        } else if ty == BCDUMP_KTAB_NUM {
            match spec_leb128_u32(s, at) {
                Err(err) => Err(err),
                Ok((lo, p1)) => match spec_leb128_u32(s, p1) {
                    Err(err) => Err(err),
                    Ok((hi, p2)) => Ok(
                        (ConstantView::Number(LuaNumber::Float(spec_combine(lo, hi, e))), p2),
                    ),
                },
            }
        } else {
            match spec_bytes(s, at, (ty - BCDUMP_KTAB_STR) as nat) {
                Err(err) => Err(err),
                Ok((v, next)) => Ok((ConstantView::String(v), next)),
            }
        },
    }
}

/// Reads an item of a table constant.
pub fn lj_tabk(e: Endianness, input: &[u8], pos: usize) -> (r: Result<
    (LuaConstant, usize),
    DecodeError,
>)
    ensures
        agrees(r, spec_lj_tabk(input@, pos as int, e)),
{
    let (ty, at) = leb128_u64(input, pos)?;
    if ty == BCDUMP_KTAB_NIL {
        Ok((LuaConstant::Null, at))
    } else if ty == BCDUMP_KTAB_FALSE {
        Ok((LuaConstant::Bool(false), at))
    } else if ty == BCDUMP_KTAB_TRUE {
        Ok((LuaConstant::Bool(true), at))
    } else if ty == BCDUMP_KTAB_INT {
        let (n, next) = leb128_u32(input, at)?;
        Ok((LuaConstant::Number(LuaNumber::Integer(n as i64)), next))
    } else if ty == BCDUMP_KTAB_NUM {
        let (lo, p1) = leb128_u32(input, at)?;
        let (hi, p2) = leb128_u32(input, p1)?;
        Ok((LuaConstant::Number(LuaNumber::Float(combine_number(lo, hi, e))), p2))
    } else {
        let (v, next) = bytes(input, at, ty - BCDUMP_KTAB_STR)?;
        assert(v.deep_view() =~= v@);
        let c = LuaConstant::String(v);
        assert(c.deep_view() == ConstantView::String(v@));
        Ok((c, next))
    }
}

/// An item of a table constant depends on its bytes alone.
pub proof fn lemma_lj_tabk_cut(s: Seq<u8>, pos: int, e: Endianness, k: int)
    requires
        0 <= pos <= k <= s.len(),
    ensures
        cut_law(spec_lj_tabk(s, pos, e), spec_lj_tabk(s.take(k), pos, e), pos, k, s.len() as int),
{
    let n = s.len() as int;
    lemma_leb128_typed_cut(s, pos, k);
    if let Ok((ty, at)) = spec_leb128_u64(s, pos) {
        let k1 = if at <= k { k } else { n };
        lemma_leb128_typed_cut(s, at, k1);
        if let Ok((lo, p1)) = spec_leb128_u32(s, at) {
            lemma_leb128_typed_cut(s, p1, if p1 <= k { k } else { n });
        }
        if ty >= BCDUMP_KTAB_STR {
            lemma_bytes_cut(s, at, (ty - BCDUMP_KTAB_STR) as nat, k1);
        }
    }
}

/// The decoder of one item of the array part of a table constant.
pub struct TableItem {
    pub endian: Endianness,
}

impl Reader for TableItem {
    type Out = LuaConstant;

    open spec fn spec_read(&self, s: Seq<u8>, pos: int) -> Parsed<ConstantView> {
        in_context(spec_lj_tabk(s, pos, self.endian), Context::CountTableArray)
    }

    fn read(&self, input: &[u8], pos: usize) -> (r: Result<(LuaConstant, usize), DecodeError>) {
        with_context(lj_tabk(self.endian, input, pos), Context::CountTableArray)
    }

    proof fn lemma_cut(&self, s: Seq<u8>, pos: int, k: int) {
        lemma_lj_tabk_cut(s, pos, self.endian, k);
    }
}

/// The decoder of one entry of the hash part of a table constant: a key
/// and a value.
pub struct TablePair {
    pub endian: Endianness,
}

impl Reader for TablePair {
    type Out = (LuaConstant, LuaConstant);

    open spec fn spec_read(&self, s: Seq<u8>, pos: int) -> Parsed<(ConstantView, ConstantView)> {
        in_context(
            match spec_lj_tabk(s, pos, self.endian) {
                Err(e) => Err(e),
                Ok((key, p1)) => match spec_lj_tabk(s, p1, self.endian) {
                    Err(e) => Err(e),
                    Ok((value, p2)) => Ok(((key, value), p2)),
                },
            },
            Context::CountTableHash,
        )
    }

    fn read(&self, input: &[u8], pos: usize) -> (r: Result<
        ((LuaConstant, LuaConstant), usize),
        DecodeError,
    >) {
        let (key, p1) = match lj_tabk(self.endian, input, pos) {
            Ok(v) => v,
            Err(e) => { return Err(e.within(Context::CountTableHash)); },
        };
        let (value, p2) = match lj_tabk(self.endian, input, p1) {
            Ok(v) => v,
            Err(e) => { return Err(e.within(Context::CountTableHash)); },
        };
        Ok(((key, value), p2))
    }

    proof fn lemma_cut(&self, s: Seq<u8>, pos: int, k: int) {
        lemma_lj_tabk_cut(s, pos, self.endian, k);
        if let Ok((key, p1)) = spec_lj_tabk(s, pos, self.endian) {
            lemma_lj_tabk_cut(s, p1, self.endian, if p1 <= k { k } else { s.len() as int });
        }
    }
}

/// The table that the items `items` and the entries `hash` make.
///
/// The first item stands for index 0, which the array part of a table does
/// not hold: unless it is nil it becomes the last entry of the hash part,
/// under the key 0. The other items are the array part.
pub open spec fn spec_fold_table(
    items: Seq<ConstantView>,
    hash: Seq<(ConstantView, ConstantView)>,
) -> TableView {
    if items.len() == 0 {
        TableView { array: items, hash }
    } else if items[0] is Null {
        TableView { array: items.drop_first(), hash }
    } else {
        TableView {
            array: items.drop_first(),
            hash: hash.push((ConstantView::Number(LuaNumber::Integer(0)), items[0])),
        }
    }
}

/// The table constant at `pos`: the counts of items and of entries as
/// LEB128 integers, then the items, then the entries.
pub open spec fn spec_lj_tab(s: Seq<u8>, pos: int, e: Endianness) -> Parsed<ConstantView> {
    match spec_leb128_u32(s, pos) {
        Err(err) => Err(err),
        Ok((narray, p1)) => match spec_leb128_u32(s, p1) {
            Err(err) => Err(err),
            Ok((nhash, p2)) => match spec_repeat(TableItem { endian: e }, s, p2, narray as nat) {
                Err(err) => Err(err),
                Ok((items, p3)) => match spec_repeat(
                    TablePair { endian: e },
                    s,
                    p3,
                    nhash as nat,
                ) {
                    Err(err) => Err(err),
                    Ok((hash, p4)) => Ok((ConstantView::Table(spec_fold_table(items, hash)), p4)),
                },
            },
        },
    }
}

/// Makes a table of items and entries.
pub fn fold_table(items: Vec<LuaConstant>, hash: Vec<(LuaConstant, LuaConstant)>) -> (t:
    ConstTable)
    ensures
        t.deep_view() == spec_fold_table(items.deep_view(), hash.deep_view()),
{
    let mut array = items;
    let mut hash = hash;
    if array.len() > 0 {
        let ghost all = array;
        let ghost entries = hash;
        let first = array.remove(0);
        assert(array.deep_view() =~= all.deep_view().drop_first());
        match first {
            LuaConstant::Null => {},
            other => {
                let zero = LuaConstant::Number(LuaNumber::Integer(0));
                hash.push((zero, other));
                assert(hash.deep_view() =~= entries.deep_view().push(
                    (zero.deep_view(), other.deep_view()),
                ));
            },
        }
    }
    let t = ConstTable { array, hash };
    assert(t.model().array =~= array.deep_view());
    assert(t.model().hash =~= hash.deep_view());
    t
}

/// Reads a table constant.
pub fn lj_tab(e: Endianness, input: &[u8], pos: usize) -> (r: Result<
    (LuaConstant, usize),
    DecodeError,
>)
    ensures
        agrees(r, spec_lj_tab(input@, pos as int, e)),
{
    let (narray, p1) = leb128_u32(input, pos)?;
    let (nhash, p2) = leb128_u32(input, p1)?;
    let (items, p3) = repeat(&TableItem { endian: e }, input, p2, narray as u64)?;
    let (hash, p4) = repeat(&TablePair { endian: e }, input, p3, nhash as u64)?;
    Ok((LuaConstant::Table(Box::new(fold_table(items, hash))), p4))
}

/// A table constant depends on its bytes alone.
pub proof fn lemma_lj_tab_cut(s: Seq<u8>, pos: int, e: Endianness, k: int)
    requires
        0 <= pos <= k <= s.len(),
    ensures
        cut_law(spec_lj_tab(s, pos, e), spec_lj_tab(s.take(k), pos, e), pos, k, s.len() as int),
{
    let n = s.len() as int;
    lemma_leb128_typed_cut(s, pos, k);
    if let Ok((narray, p1)) = spec_leb128_u32(s, pos) {
        lemma_leb128_typed_cut(s, p1, if p1 <= k { k } else { n });
        if let Ok((nhash, p2)) = spec_leb128_u32(s, p1) {
            lemma_repeat_cut(
                TableItem { endian: e },
                s,
                p2,
                narray as nat,
                if p2 <= k { k } else { n },
            );
            if let Ok((items, p3)) = spec_repeat(TableItem { endian: e }, s, p2, narray as nat) {
                lemma_repeat_cut(
                    TablePair { endian: e },
                    s,
                    p3,
                    nhash as nat,
                    if p3 <= k { k } else { n },
                );
            }
        }
    }
}

/// The number constant at `pos`: a 33-bit variable-length integer whose
/// lowest bit tells a double from an integer. An integer is the other 32
/// bits, read as two's complement; a double has those as one half and a
/// LEB128 integer after them as the other.
pub open spec fn spec_lj_num_constant(s: Seq<u8>, pos: int, e: Endianness) -> Parsed<LuaNumber> {
    match spec_byte(s, pos) {
        Err(err) => Err(err),
        Ok((first, _)) => match spec_uleb128_33(s, pos) {
            Err(err) => Err(err),
            Ok((lo, at)) => if first & 1 != 0 {
                match spec_leb128_u32(s, at) {
                    Err(err) => Err(err),
                    Ok((hi, next)) => Ok((LuaNumber::Float(spec_combine(lo, hi, e)), next)),
                }
            } else {
                Ok((LuaNumber::Integer(as_signed(lo as u64, 4)), at))
            },
        },
    }
}

/// Reads a number constant.
pub fn lj_num_constant(e: Endianness, input: &[u8], pos: usize) -> (r: Result<
    (LuaNumber, usize),
    DecodeError,
>)
    ensures
        agrees(r, spec_lj_num_constant(input@, pos as int, e)),
{
    let (first, _) = byte(input, pos)?;
    let (lo, at) = uleb128_33(input, pos)?;
    if first & 1 != 0 {
        let (hi, next) = leb128_u32(input, at)?;
        Ok((LuaNumber::Float(combine_number(lo, hi, e)), next))
    } else {
        Ok((LuaNumber::Integer(to_signed(lo as u64, 4)), at))
    }
}

/// The decoder of one number constant.
pub struct NumConstant {
    pub endian: Endianness,
}

impl Reader for NumConstant {
    type Out = LuaNumber;

    open spec fn spec_read(&self, s: Seq<u8>, pos: int) -> Parsed<LuaNumber> {
        spec_lj_num_constant(s, pos, self.endian)
    }

    fn read(&self, input: &[u8], pos: usize) -> (r: Result<(LuaNumber, usize), DecodeError>) {
        lj_num_constant(self.endian, input, pos)
    }

    proof fn lemma_cut(&self, s: Seq<u8>, pos: int, k: int) {
        lemma_byte_cut(s, pos, k);
        lemma_uleb128_33_cut(s, pos, k);
        if let Ok((lo, at)) = spec_uleb128_33(s, pos) {
            lemma_leb128_typed_cut(s, at, if at <= k { k } else { s.len() as int });
        }
    }
}

/// The decoder of one upvalue descriptor: two bytes in the file's byte
/// order, of which the top bit marks an upvalue on the enclosing stack and
/// the low eight bits are the index.
pub struct Upvalue {
    pub endian: Endianness,
}

impl Reader for Upvalue {
    type Out = UpVal;

    open spec fn spec_read(&self, s: Seq<u8>, pos: int) -> Parsed<UpVal> {
        match spec_u16(s, pos, self.endian) {
            Err(e) => Err(e),
            Ok((v, next)) => Ok(
                (UpVal { on_stack: v >= 0x8000, id: (v % 0x100) as u8, kind: 0 }, next),
            ),
        }
    }

    fn read(&self, input: &[u8], pos: usize) -> (r: Result<(UpVal, usize), DecodeError>) {
        let (v, next) = fixed16(input, pos, self.endian)?;
        Ok((UpVal { on_stack: v >= 0x8000, id: (v % 0x100) as u8, kind: 0 }, next))
    }

    proof fn lemma_cut(&self, s: Seq<u8>, pos: int, k: int) {
        lemma_fixed_cut(s, pos, 2, self.endian, k);
    }
}

/// A constant, with the stack of finished prototypes and the list of
/// children as they are after it was decoded.
pub struct Taken {
    pub constant: ConstantView,
    pub stack: Seq<ChunkView>,
    pub protos: Seq<ChunkView>,
}

/// The 64-bit integer whose halves are `lo` and `hi`.
pub open spec fn spec_join(lo: u32, hi: u32) -> i64 {
    as_signed((hi * 0x1_0000_0000 + lo) as u64, 8)
}

/// The constant at `pos`, decoded with the finished prototypes `stack` and
/// the children `protos` taken so far.
///
/// A LEB128 tag comes first. Tag 0 names a child: the prototype on top of
/// the stack leaves it and joins the children, and the constant is its
/// index among them; with an empty stack this is an
/// `UnbalancedPrototypeStack` at `pos`. Tag 1 is a table. Tags 2 and 3 are
/// 64-bit integers in two LEB128 halves. Tag 4 is an `UnknownConstantTag`
/// at `pos`. A tag from 5 on is a string of the tag less 5 bytes.
#[verifier::opaque]
pub open spec fn spec_lj_complex_constant(
    s: Seq<u8>,
    pos: int,
    e: Endianness,
    stack: Seq<ChunkView>,
    protos: Seq<ChunkView>,
) -> Parsed<Taken> {
    match spec_leb128_u64(s, pos) {
        Err(err) => Err(err),
        Ok((ty, at)) => if ty == BCDUMP_KGC_CHILD {
            if stack.len() == 0 {
                fail(pos, ErrorKind::UnbalancedPrototypeStack)
            } else {
                Ok(
                    (
                        Taken {
                            constant: ConstantView::Proto(protos.len() as int),
                            stack: stack.drop_last(),
                            protos: protos.push(stack.last()),
                        },
                        at,
                    ),
                )
            }
        } else if ty == BCDUMP_KGC_TAB {
            match in_context(spec_lj_tab(s, at, e), Context::ReadTable) {
                Err(err) => Err(err),
                Ok((constant, next)) => Ok((Taken { constant, stack, protos }, next)),
            }
        } else if ty == BCDUMP_KGC_I64 || ty == BCDUMP_KGC_U64 {
            match spec_leb128_u32(s, at) {
                Err(err) => Err(err),
                Ok((lo, p1)) => match spec_leb128_u32(s, p1) {
                    Err(err) => Err(err),
                    Ok((hi, p2)) => Ok(
                        (
                            Taken {
                                constant: ConstantView::Number(
                                    LuaNumber::Integer(spec_join(lo, hi)),
                                ),
                                stack,
                                protos,
                            },
                            p2,
                        ),
                    ),
                },
            }
        } else if ty == BCDUMP_KGC_COMPLEX {
            fail(pos, ErrorKind::UnknownConstantTag)
        } else {
            match spec_bytes(s, at, (ty - BCDUMP_KGC_STR) as nat) {
                Err(err) => Err(err),
                Ok((v, next)) => Ok(
                    (Taken { constant: ConstantView::String(v), stack, protos }, next),
                ),
            }
        },
    }
}

/// Reads a constant. A constant that names a child moves the prototype on
/// top of `stack` to the end of `protos`.
pub fn lj_complex_constant(
    stack: &mut Vec<LuaChunk>,
    protos: &mut Vec<LuaChunk>,
    e: Endianness,
    input: &[u8],
    pos: usize,
) -> (r: Result<(LuaConstant, usize), DecodeError>)
    ensures
        match r {
            Ok((c, next)) => spec_lj_complex_constant(
                input@,
                pos as int,
                e,
                old(stack).deep_view(),
                old(protos).deep_view(),
            ) == Ok::<(Taken, int), ErrorView>(
                (
                    Taken {
                        constant: c.deep_view(),
                        stack: final(stack).deep_view(),
                        protos: final(protos).deep_view(),
                    },
                    next as int,
                ),
            ),
            Err(err) => spec_lj_complex_constant(
                input@,
                pos as int,
                e,
                old(stack).deep_view(),
                old(protos).deep_view(),
            ) == Err::<(Taken, int), ErrorView>(err.deep_view()),
        },
{
    proof {
        reveal(spec_lj_complex_constant);
    }
    let (ty, at) = leb128_u64(input, pos)?;
    if ty == BCDUMP_KGC_CHILD {
        let ghost before = *stack;
        let ghost children = *protos;
        match stack.pop() {
            Some(proto) => {
                let index = protos.len();
                protos.push(proto);
                proof {
                    lemma_deep_pop(before, *stack, proto);
                    lemma_deep_push(children, *protos, proto);
                }
                Ok((LuaConstant::Proto(index), at))
            },
            None => Err(DecodeError::new(pos, ErrorKind::UnbalancedPrototypeStack)),
        }
    } else if ty == BCDUMP_KGC_TAB {
        let (constant, next) = with_context(lj_tab(e, input, at), Context::ReadTable)?;
        Ok((constant, next))
    } else if ty == BCDUMP_KGC_I64 || ty == BCDUMP_KGC_U64 {
        let (lo, p1) = leb128_u32(input, at)?;
        let (hi, p2) = leb128_u32(input, p1)?;
        let joined = to_signed(hi as u64 * 0x1_0000_0000 + lo as u64, 8);
        Ok((LuaConstant::Number(LuaNumber::Integer(joined)), p2))
    } else if ty == BCDUMP_KGC_COMPLEX {
        Err(DecodeError::new(pos, ErrorKind::UnknownConstantTag))
    } else {
        let (v, next) = bytes(input, at, ty - BCDUMP_KGC_STR)?;
        assert(v.deep_view() =~= v@);
        let c = LuaConstant::String(v);
        assert(c.deep_view() == ConstantView::String(v@));
        Ok((c, next))
    }
}

/// The constants decoded so far, with the stack of finished prototypes and
/// the list of children as they are after them.
pub struct Work {
    pub constants: Seq<ConstantView>,
    pub stack: Seq<ChunkView>,
    pub protos: Seq<ChunkView>,
}

/// `n` constants in a row, from `pos` on, decoded with the finished
/// prototypes `stack` and the children `protos`.
pub open spec fn spec_lj_constants(
    s: Seq<u8>,
    pos: int,
    e: Endianness,
    n: nat,
    stack: Seq<ChunkView>,
    protos: Seq<ChunkView>,
) -> Parsed<Work>
    decreases n,
{
    if n == 0 {
        Ok((Work { constants: Seq::empty(), stack, protos }, pos))
    } else {
        match spec_lj_constants(s, pos, e, (n - 1) as nat, stack, protos) {
            Err(err) => Err(err),
            Ok((done, at)) => match spec_lj_complex_constant(s, at, e, done.stack, done.protos) {
                Err(err) => Err(err),
                Ok((taken, next)) => Ok(
                    (
                        Work {
                            constants: done.constants.push(taken.constant),
                            stack: taken.stack,
                            protos: taken.protos,
                        },
                        next,
                    ),
                ),
            },
        }
    }
}

/// Once a sequence of constants has failed, asking for more changes
/// nothing.
pub proof fn lemma_lj_constants_failed(
    s: Seq<u8>,
    pos: int,
    e: Endianness,
    i: nat,
    n: nat,
    stack: Seq<ChunkView>,
    protos: Seq<ChunkView>,
)
    requires
        i <= n,
        spec_lj_constants(s, pos, e, i, stack, protos) is Err,
    ensures
        spec_lj_constants(s, pos, e, n, stack, protos) == spec_lj_constants(
            s,
            pos,
            e,
            i,
            stack,
            protos,
        ),
    decreases n,
{
    if i < n {
        lemma_lj_constants_failed(s, pos, e, i, (n - 1) as nat, stack, protos);
    }
}

/// Reads `n` constants in a row. Returns them with the children they name,
/// which leave `stack`.
pub fn lj_constants(
    stack: &mut Vec<LuaChunk>,
    e: Endianness,
    input: &[u8],
    pos: usize,
    n: u32,
) -> (r: Result<(Vec<LuaConstant>, Vec<LuaChunk>, usize), DecodeError>)
    ensures
        match r {
            Ok((constants, protos, next)) => spec_lj_constants(
                input@,
                pos as int,
                e,
                n as nat,
                old(stack).deep_view(),
                Seq::empty(),
            ) == Ok::<(Work, int), ErrorView>(
                (
                    Work {
                        constants: constants.deep_view(),
                        stack: final(stack).deep_view(),
                        protos: protos.deep_view(),
                    },
                    next as int,
                ),
            ),
            Err(err) => spec_lj_constants(
                input@,
                pos as int,
                e,
                n as nat,
                old(stack).deep_view(),
                Seq::empty(),
            ) == Err::<(Work, int), ErrorView>(err.deep_view()),
        },
{
    let ghost stack0 = stack.deep_view();
    let mut constants: Vec<LuaConstant> = Vec::new();
    let mut protos: Vec<LuaChunk> = Vec::new();
    let mut at: usize = pos;
    let mut i: u32 = 0;
    proof {
        lemma_deep_empty(constants);
        lemma_deep_empty(protos);
    }
    while i < n
        invariant
            i <= n,
            stack0 == old(stack).deep_view(),
            spec_lj_constants(input@, pos as int, e, i as nat, stack0, Seq::empty()) == Ok::<
                (Work, int),
                ErrorView,
            >(
                (
                    Work {
                        constants: constants.deep_view(),
                        stack: stack.deep_view(),
                        protos: protos.deep_view(),
                    },
                    at as int,
                ),
            ),
        decreases n - i,
    {
        match lj_complex_constant(stack, &mut protos, e, input, at) {
            Err(err) => {
                proof {
                    lemma_lj_constants_failed(
                        input@,
                        pos as int,
                        e,
                        (i + 1) as nat,
                        n as nat,
                        stack0,
                        Seq::empty(),
                    );
                }
                return Err(err);
            },
            Ok((c, next)) => {
                let ghost before = constants;
                constants.push(c);
                proof {
                    lemma_deep_push(before, constants, c);
                }
                at = next;
                i += 1;
            },
        }
    }
    Ok((constants, protos, at))
}

/// The scalar fields of a prototype.
#[derive(Clone, Copy, Debug, PartialEq, Eq, Structural)]
pub struct ProtoHead {
    pub flags: u8,
    pub num_params: u8,
    pub framesize: u8,
    pub num_upvalues: u8,
    pub complex_count: u32,
    pub numeric_count: u32,
    pub instructions_count: u32,
    pub debuginfo_size: u64,
    pub line_defined: u64,
    pub numline: u64,
}

impl DeepView for ProtoHead {
    type V = ProtoHead;

    open spec fn deep_view(&self) -> ProtoHead {
        *self
    }
}

/// The scalar fields of the prototype at `pos`: four bytes (flags,
/// parameter count, frame size, upvalue count), three LEB128 counts
/// (constants, number constants, instructions) and, unless the file is
/// stripped, three LEB128 integers (size of the debug information, first
/// line, number of lines).
#[verifier::opaque]
pub open spec fn spec_lj_proto_head(h: LuaHeader, s: Seq<u8>, pos: int) -> Parsed<ProtoHead> {
    match spec_byte(s, pos) {
        Err(e) => Err(e),
        Ok((flags, p1)) => match spec_byte(s, p1) {
            Err(e) => Err(e),
            Ok((num_params, p2)) => match spec_byte(s, p2) {
                Err(e) => Err(e),
                Ok((framesize, p3)) => match spec_byte(s, p3) {
                    Err(e) => Err(e),
                    Ok((num_upvalues, p4)) => match spec_leb128_u32(s, p4) {
                        Err(e) => Err(e),
                        Ok((complex_count, p5)) => match spec_leb128_u32(s, p5) {
                            Err(e) => Err(e),
                            Ok((numeric_count, p6)) => match spec_leb128_u32(s, p6) {
                                Err(e) => Err(e),
                                Ok((instructions_count, p7)) => spec_lj_debug_head(
                                    h,
                                    s,
                                    p7,
                                    ProtoHead {
                                        flags,
                                        num_params,
                                        framesize,
                                        num_upvalues,
                                        complex_count,
                                        numeric_count,
                                        instructions_count,
                                        debuginfo_size: 0,
                                        line_defined: 0,
                                        numline: 0,
                                    },
                                ),
                            },
                        },
                    },
                },
            },
        },
    }
}

/// `base` with the three integers on the debug information at `pos`, which
/// a stripped file does not have.
pub open spec fn spec_lj_debug_head(h: LuaHeader, s: Seq<u8>, pos: int, base: ProtoHead) -> Parsed<
    ProtoHead,
> {
    if h.stripped {
        Ok((base, pos))
    } else {
        match spec_leb128_u64(s, pos) {
            Err(e) => Err(e),
            Ok((debuginfo_size, p1)) => match spec_leb128_u64(s, p1) {
                Err(e) => Err(e),
                Ok((line_defined, p2)) => match spec_leb128_u64(s, p2) {
                    Err(e) => Err(e),
                    Ok((numline, p3)) => Ok(
                        (ProtoHead { debuginfo_size, line_defined, numline, ..base }, p3),
                    ),
                },
            },
        }
    }
}

/// Reads the scalar fields of a prototype.
pub fn lj_proto_head(header: &LuaHeader, input: &[u8], pos: usize) -> (r: Result<
    (ProtoHead, usize),
    DecodeError,
>)
    ensures
        agrees(r, spec_lj_proto_head(*header, input@, pos as int)),
{
    proof {
        reveal(spec_lj_proto_head);
    }
    let (flags, p1) = byte(input, pos)?;
    let (num_params, p2) = byte(input, p1)?;
    let (framesize, p3) = byte(input, p2)?;
    let (num_upvalues, p4) = byte(input, p3)?;
    let (complex_count, p5) = leb128_u32(input, p4)?;
    let (numeric_count, p6) = leb128_u32(input, p5)?;
    let (instructions_count, p7) = leb128_u32(input, p6)?;
    let base = ProtoHead {
        flags,
        num_params,
        framesize,
        num_upvalues,
        complex_count,
        numeric_count,
        instructions_count,
        debuginfo_size: 0,
        line_defined: 0,
        numline: 0,
    };
    if header.stripped {
        Ok((base, p7))
    } else {
        let (debuginfo_size, q1) = leb128_u64(input, p7)?;
        let (line_defined, q2) = leb128_u64(input, q1)?;
        let (numline, q3) = leb128_u64(input, q2)?;
        Ok(
            (
                ProtoHead {
                    flags,
                    num_params,
                    framesize,
                    num_upvalues,
                    complex_count,
                    numeric_count,
                    instructions_count,
                    debuginfo_size,
                    line_defined,
                    numline,
                },
                q3,
            ),
        )
    }
}

/// The sum of `a` and `b`, cut to 64 bits.
pub open spec fn spec_wrapping_sum(a: u64, b: u64) -> u64 {
    ((a + b) % 0x1_0000_0000_0000_0000) as u64
}

/// Adds `a` and `b` and cuts the sum to 64 bits.
pub fn wrapping_sum(a: u64, b: u64) -> (r: u64)
    ensures
        r == spec_wrapping_sum(a, b),
{
    if b <= u64::MAX - a {
        a + b
    } else {
        b - (u64::MAX - a) - 1
    }
}

/// The debug information of `n` bytes at `pos`, which is passed over.
pub open spec fn spec_lj_debug(s: Seq<u8>, pos: int, n: u64) -> Parsed<Seq<u8>> {
    if n > 0 {
        spec_bytes(s, pos, n as nat)
    } else {
        Ok((Seq::empty(), pos))
    }
}

/// The prototype with the scalar fields `head` whose sequences start at
/// `pos`, decoded with the finished prototypes `stack`; and what is left of
/// that stack.
///
/// The sequences are the instructions, the upvalue descriptors, the
/// constants, the number constants, and the debug information, which is
/// passed over. The constants stand in the file last first, and are
/// returned first first. The children that they name are the prototypes of
/// the result, in the order in which they are named. The last line is the
/// first line plus the number of lines, cut to 64 bits.
#[verifier::opaque]
pub open spec fn spec_lj_proto_body(
    h: LuaHeader,
    head: ProtoHead,
    s: Seq<u8>,
    pos: int,
    stack: Seq<ChunkView>,
) -> Parsed<(ChunkView, Seq<ChunkView>)> {
    match in_context(
        spec_repeat(Instruction { header: h }, s, pos, head.instructions_count as nat),
        Context::CountInstruction,
    ) {
        Err(e) => Err(e),
        Ok((instructions, p1)) => match in_context(
            spec_repeat(Upvalue { endian: h.spec_endian() }, s, p1, head.num_upvalues as nat),
            Context::CountUpvals,
        ) {
            Err(e) => Err(e),
            Ok((upvalue_infos, p2)) => match in_context(
                spec_lj_constants(
                    s,
                    p2,
                    h.spec_endian(),
                    head.complex_count as nat,
                    stack,
                    Seq::empty(),
                ),
                Context::CountComplexConstant,
            ) {
                Err(e) => Err(e),
                Ok((work, p3)) => match in_context(
                    spec_repeat(
                        NumConstant { endian: h.spec_endian() },
                        s,
                        p3,
                        head.numeric_count as nat,
                    ),
                    Context::CountNumericConstants,
                ) {
                    Err(e) => Err(e),
                    Ok((num_constants, p4)) => match spec_lj_debug(s, p4, head.debuginfo_size) {
                        Err(e) => Err(e),
                        Ok((_, p5)) => Ok(
                            (
                                (
                                    ChunkView {
                                        num_upvalues: head.num_upvalues,
                                        num_params: head.num_params,
                                        line_defined: head.line_defined,
                                        last_line_defined: spec_wrapping_sum(
                                            head.line_defined,
                                            head.numline,
                                        ),
                                        flags: head.flags,
                                        max_stack: head.framesize,
                                        instructions,
                                        upvalue_infos,
                                        constants: work.constants.reverse(),
                                        num_constants,
                                        prototypes: work.protos,
                                        ..ChunkView::empty()
                                    },
                                    work.stack,
                                ),
                                p5,
                            ),
                        ),
                    },
                },
            },
        },
    }
}

/// The items of `v`, last first.
pub fn reversed(v: Vec<LuaConstant>) -> (r: Vec<LuaConstant>)
    ensures
        r.deep_view() == v.deep_view().reverse(),
{
    let ghost all = v.deep_view();
    let mut rest = v;
    let mut r: Vec<LuaConstant> = Vec::new();
    while rest.len() > 0
        invariant
            rest.deep_view().len() + r.deep_view().len() == all.len(),
            rest.deep_view() == all.take(rest@.len() as int),
            rest.deep_view().len() == rest@.len(),
            forall|j: int|
                0 <= j < r.deep_view().len() ==> r.deep_view()[j] == all[all.len() - 1 - j],
        decreases rest.len(),
    {
        let ghost before = rest;
        let ghost done = r;
        match rest.pop() {
            Some(item) => {
                r.push(item);
                proof {
                    lemma_deep_pop(before, rest, item);
                    lemma_deep_push(done, r, item);
                    assert(rest.deep_view() =~= all.take(rest@.len() as int));
                }
            },
            None => {},
        }
    }
    assert(r.deep_view() =~= all.reverse());
    r
}

/// Reads the sequences of the prototype with the scalar fields `head`. The
/// children that its constants name leave `stack`.
pub fn lj_proto_body(
    header: &LuaHeader,
    head: ProtoHead,
    stack: &mut Vec<LuaChunk>,
    input: &[u8],
    pos: usize,
) -> (r: Result<(LuaChunk, usize), DecodeError>)
    ensures
        match r {
            Ok((chunk, next)) => spec_lj_proto_body(
                *header,
                head,
                input@,
                pos as int,
                old(stack).deep_view(),
            ) == Ok::<((ChunkView, Seq<ChunkView>), int), ErrorView>(
                ((chunk.deep_view(), final(stack).deep_view()), next as int),
            ),
            Err(err) => spec_lj_proto_body(
                *header,
                head,
                input@,
                pos as int,
                old(stack).deep_view(),
            ) == Err::<((ChunkView, Seq<ChunkView>), int), ErrorView>(err.deep_view()),
        },
{
    proof {
        reveal(spec_lj_proto_body);
        reveal(LuaChunk::model);
    }
    let e = header.endian();
    let (instructions, p1) = with_context(
        repeat(&Instruction { header: *header }, input, pos, head.instructions_count as u64),
        Context::CountInstruction,
    )?;
    let (upvalue_infos, p2) = with_context(
        repeat(&Upvalue { endian: e }, input, p1, head.num_upvalues as u64),
        Context::CountUpvals,
    )?;
    let (wire_constants, protos, p3) = match lj_constants(
        stack,
        e,
        input,
        p2,
        head.complex_count,
    ) {
        Ok(v) => v,
        Err(err) => { return Err(err.within(Context::CountComplexConstant)); },
    };
    let (num_constants, p4) = with_context(
        repeat(&NumConstant { endian: e }, input, p3, head.numeric_count as u64),
        Context::CountNumericConstants,
    )?;
    let p5 = if head.debuginfo_size > 0 {
        let (_, next) = bytes(input, p4, head.debuginfo_size)?;
        next
    } else {
        p4
    };
    let mut chunk = LuaChunk::default();
    chunk.num_upvalues = head.num_upvalues;
    chunk.num_params = head.num_params;
    chunk.line_defined = head.line_defined;
    chunk.last_line_defined = wrapping_sum(head.line_defined, head.numline);
    chunk.flags = head.flags;
    chunk.max_stack = head.framesize;
    chunk.instructions = instructions;
    chunk.upvalue_infos = upvalue_infos;
    chunk.constants = reversed(wire_constants);
    chunk.num_constants = num_constants;
    chunk.prototypes = protos;
    assert(chunk.model().prototypes =~= protos.deep_view());
    Ok((chunk, p5))
}

/// The prototype at `pos`, decoded with the finished prototypes `stack`,
/// and what is left of that stack; or nothing, at the end of the stream.
///
/// A LEB128 size comes first. A size of zero ends the stream. Otherwise
/// the scalar fields and the sequences follow.
pub open spec fn spec_lj_proto(h: LuaHeader, s: Seq<u8>, pos: int, stack: Seq<ChunkView>)
    -> Parsed<Option<(ChunkView, Seq<ChunkView>)>> {
    match spec_leb128_u32(s, pos) {
        Err(e) => Err(e),
        Ok((size, p0)) => if size == 0 {
            Ok((None, p0))
        } else {
            match spec_lj_proto_head(h, s, p0) {
                Err(e) => Err(e),
                Ok((head, p1)) => match spec_lj_proto_body(h, head, s, p1, stack) {
                    Err(e) => Err(e),
                    Ok((made, next)) => Ok((Some(made), next)),
                },
            }
        },
    }
}

/// Reads a prototype, or the end of the stream. The children of the
/// prototype leave `stack`.
pub fn lj_proto(header: &LuaHeader, stack: &mut Vec<LuaChunk>, input: &[u8], pos: usize) -> (r:
    Result<(Option<LuaChunk>, usize), DecodeError>)
    ensures
        match r {
            Ok((Some(chunk), next)) => spec_lj_proto(
                *header,
                input@,
                pos as int,
                old(stack).deep_view(),
            ) == Ok::<(Option<(ChunkView, Seq<ChunkView>)>, int), ErrorView>(
                (Some((chunk.deep_view(), final(stack).deep_view())), next as int),
            ),
            Ok((None, next)) => spec_lj_proto(*header, input@, pos as int, old(stack).deep_view())
                == Ok::<(Option<(ChunkView, Seq<ChunkView>)>, int), ErrorView>((None, next as int))
                && final(stack).deep_view() == old(stack).deep_view(),
            Err(err) => spec_lj_proto(*header, input@, pos as int, old(stack).deep_view()) == Err::<
                (Option<(ChunkView, Seq<ChunkView>)>, int),
                ErrorView,
            >(err.deep_view()),
        },
{
    let (size, p0) = leb128_u32(input, pos)?;
    if size == 0 {
        return Ok((None, p0));
    }
    let (head, p1) = lj_proto_head(header, input, p0)?;
    let (chunk, next) = lj_proto_body(header, head, stack, input, p1)?;
    Ok((Some(chunk), next))
}

/// The name of the file at `pos`: a LEB128 length and that many bytes. A
/// stripped file has none.
pub open spec fn spec_lj_name(h: LuaHeader, s: Seq<u8>, pos: int) -> Parsed<Seq<u8>> {
    if h.stripped {
        Ok((Seq::empty(), pos))
    } else {
        match spec_leb128_u32(s, pos) {
            Err(e) => Err(e),
            Ok((n, at)) => spec_bytes(s, at, n as nat),
        }
    }
}

/// The stack of finished prototypes when the stream of prototypes from
/// `pos` on has ended, `stack` being what it was before.
///
/// The stream goes on behind each prototype until a size of zero ends it.
/// A prototype takes at least one byte, the one of its size
/// ([`lemma_lj_proto_cut`]), so the stream never stands still.
pub open spec fn spec_lj_stream(h: LuaHeader, s: Seq<u8>, pos: int, stack: Seq<ChunkView>)
    -> Parsed<Seq<ChunkView>>
    decreases s.len() - pos,
{
    match spec_lj_proto(h, s, pos, stack) {
        Err(e) => Err(e),
        Ok((None, next)) => Ok((stack, next)),
        Ok((Some((chunk, rest)), next)) => if pos < next <= s.len() {
            spec_lj_stream(h, s, next, rest.push(chunk))
        } else {
            fail(pos, ErrorKind::Truncated)
        },
    }
}

/// The root prototype of the file whose prototypes start at `pos`.
///
/// The name of the file comes first, then the stream of prototypes, each
/// of which is put on the stack when it is finished. When the stream has
/// ended, the stack must hold one prototype, the root, which gets the name;
/// if it holds more or none, the file is an `UnbalancedPrototypeStack` at
/// the end of the stream.
pub open spec fn spec_lj_chunk(h: LuaHeader, s: Seq<u8>, pos: int) -> Parsed<ChunkView> {
    match spec_lj_name(h, s, pos) {
        Err(e) => Err(e),
        Ok((name, p1)) => match spec_lj_stream(h, s, p1, Seq::empty()) {
            Err(e) => Err(e),
            Ok((stack, next)) => if stack.len() == 1 {
                Ok((ChunkView { name, ..stack[0] }, next))
            } else {
                fail(next, ErrorKind::UnbalancedPrototypeStack)
            },
        },
    }
}

/// Reads the root prototype of a LuaJIT file.
pub fn lj_chunk(header: &LuaHeader, input: &[u8], pos: usize) -> (r: Result<
    (LuaChunk, usize),
    DecodeError,
>)
    ensures
        agrees(r, spec_lj_chunk(*header, input@, pos as int)),
{
    let (name, start) = if header.stripped {
        let empty: Vec<u8> = Vec::new();
        assert(empty.deep_view() =~= Seq::empty());
        (empty, pos)
    } else {
        let (n, at) = leb128_u32(input, pos)?;
        bytes(input, at, n as u64)?
    };
    let mut stack: Vec<LuaChunk> = Vec::new();
    let mut at: usize = start;
    proof {
        lemma_deep_empty(stack);
    }
    let mut end: usize = start;
    let mut ended = false;
    while !ended
        invariant
            spec_lj_name(*header, input@, pos as int) == Ok::<(Seq<u8>, int), ErrorView>(
                (name.deep_view(), start as int),
            ),
            !ended ==> spec_lj_stream(*header, input@, start as int, Seq::empty())
                == spec_lj_stream(*header, input@, at as int, stack.deep_view()),
            ended ==> spec_lj_stream(*header, input@, start as int, Seq::empty()) == Ok::<
                (Seq<ChunkView>, int),
                ErrorView,
            >((stack.deep_view(), end as int)),
        decreases
                (if ended {
                    0
                } else {
                    input@.len() - at + 1
                }),
    {
        match lj_proto(header, &mut stack, input, at) {
            Err(e) => { return Err(e); },
            Ok((None, next)) => {
                end = next;
                ended = true;
            },
            Ok((Some(chunk), next)) => {
                if at < next && next <= input.len() {
                    let ghost before = stack;
                    stack.push(chunk);
                    proof {
                        lemma_deep_push(before, stack, chunk);
                    }
                    at = next;
                } else {
                    return Err(DecodeError::new(at, ErrorKind::Truncated));
                }
            },
        }
    }
    if stack.len() == 1 {
        let ghost whole = stack;
        match stack.pop() {
            Some(root) => {
                proof {
                    lemma_deep_pop(whole, stack, root);
                    reveal(LuaChunk::model);
                }
                let mut chunk = root;
                chunk.name = name;
                assert(chunk.model().prototypes =~= root.model().prototypes);
                Ok((chunk, end))
            },
            None => Err(DecodeError::new(end, ErrorKind::UnbalancedPrototypeStack)),
        }
    } else {
        Err(DecodeError::new(end, ErrorKind::UnbalancedPrototypeStack))
    }
}

/// The header depends on its bytes alone.
pub proof fn lemma_lj_header_cut(s: Seq<u8>, pos: int, k: int)
    requires
        0 <= pos <= k <= s.len(),
    ensures
        cut_law(spec_lj_header(s, pos), spec_lj_header(s.take(k), pos), pos, k, s.len() as int),
{
    let n = s.len() as int;
    lemma_byte_cut(s, pos, k);
    if let Ok((_, p1)) = spec_expect(s, pos, 0x1B) {
        lemma_byte_cut(s, p1, if p1 <= k { k } else { n });
        if let Ok((_, p2)) = spec_expect(s, p1, 0x4C) {
            lemma_byte_cut(s, p2, if p2 <= k { k } else { n });
            if let Ok((_, p3)) = spec_expect(s, p2, 0x4A) {
                lemma_byte_cut(s, p3, if p3 <= k { k } else { n });
                if let Ok((version, p4)) = spec_byte(s, p3) {
                    lemma_byte_cut(s, p4, if p4 <= k { k } else { n });
                }
            }
        }
    }
}

/// A constant depends on its bytes alone.
pub proof fn lemma_lj_complex_constant_cut(
    s: Seq<u8>,
    pos: int,
    e: Endianness,
    stack: Seq<ChunkView>,
    protos: Seq<ChunkView>,
    k: int,
)
    requires
        0 <= pos <= s.len(),
        0 <= k <= s.len(),
    ensures
        pos <= k ==> cut_law(
            spec_lj_complex_constant(s, pos, e, stack, protos),
            spec_lj_complex_constant(s.take(k), pos, e, stack, protos),
            pos,
            k,
            s.len() as int,
        ),
        spec_lj_complex_constant(s, pos, e, stack, protos) is Ok ==> pos
            <= spec_lj_complex_constant(s, pos, e, stack, protos)->Ok_0.1 <= s.len(),
{
    reveal(spec_lj_complex_constant);
    let n = s.len() as int;
    lemma_leb128_typed_cut(s, pos, if pos <= k { k } else { n });
    if let Ok((ty, at)) = spec_leb128_u64(s, pos) {
        let k1 = if at <= k && pos <= k { k } else { n };
        lemma_lj_tab_cut(s, at, e, k1);
        lemma_leb128_typed_cut(s, at, k1);
        if let Ok((lo, p1)) = spec_leb128_u32(s, at) {
            lemma_leb128_typed_cut(s, p1, if p1 <= k && pos <= k { k } else { n });
        }
        if ty >= BCDUMP_KGC_STR {
            lemma_bytes_cut(s, at, (ty - BCDUMP_KGC_STR) as nat, k1);
        }
    }
}

/// Constants in a row depend on their bytes alone.
pub proof fn lemma_lj_constants_cut(
    s: Seq<u8>,
    pos: int,
    e: Endianness,
    n: nat,
    stack: Seq<ChunkView>,
    protos: Seq<ChunkView>,
    k: int,
)
    requires
        0 <= pos <= s.len(),
        0 <= k <= s.len(),
    ensures
        pos <= k ==> cut_law(
            spec_lj_constants(s, pos, e, n, stack, protos),
            spec_lj_constants(s.take(k), pos, e, n, stack, protos),
            pos,
            k,
            s.len() as int,
        ),
        spec_lj_constants(s, pos, e, n, stack, protos) is Ok ==> pos <= spec_lj_constants(
            s,
            pos,
            e,
            n,
            stack,
            protos,
        )->Ok_0.1 <= s.len(),
    decreases n,
{
    if n > 0 {
        lemma_lj_constants_cut(s, pos, e, (n - 1) as nat, stack, protos, k);
        if let Ok((done, at)) = spec_lj_constants(s, pos, e, (n - 1) as nat, stack, protos) {
            lemma_lj_complex_constant_cut(s, at, e, done.stack, done.protos, k);
        }
    }
}

/// The scalar fields of a prototype depend on their bytes alone.
pub proof fn lemma_lj_proto_head_cut(h: LuaHeader, s: Seq<u8>, pos: int, k: int)
    requires
        0 <= pos <= s.len(),
        0 <= k <= s.len(),
    ensures
        pos <= k ==> cut_law(
            spec_lj_proto_head(h, s, pos),
            spec_lj_proto_head(h, s.take(k), pos),
            pos,
            k,
            s.len() as int,
        ),
        spec_lj_proto_head(h, s, pos) is Ok ==> pos <= spec_lj_proto_head(h, s, pos)->Ok_0.1
            <= s.len(),
{
    reveal(spec_lj_proto_head);
    let n = s.len() as int;
    let k0 = if pos <= k { k } else { n };
    lemma_byte_cut(s, pos, k0);
    if let Ok((flags, p1)) = spec_byte(s, pos) {
        lemma_byte_cut(s, p1, if p1 <= k0 { k0 } else { n });
        if let Ok((num_params, p2)) = spec_byte(s, p1) {
            lemma_byte_cut(s, p2, if p2 <= k0 { k0 } else { n });
            if let Ok((framesize, p3)) = spec_byte(s, p2) {
                lemma_byte_cut(s, p3, if p3 <= k0 { k0 } else { n });
                if let Ok((num_upvalues, p4)) = spec_byte(s, p3) {
                    lemma_leb128_typed_cut(s, p4, if p4 <= k0 { k0 } else { n });
                    if let Ok((complex_count, p5)) = spec_leb128_u32(s, p4) {
                        lemma_leb128_typed_cut(s, p5, if p5 <= k0 { k0 } else { n });
                        if let Ok((numeric_count, p6)) = spec_leb128_u32(s, p5) {
                            lemma_leb128_typed_cut(s, p6, if p6 <= k0 { k0 } else { n });
                            if let Ok((instructions_count, p7)) = spec_leb128_u32(s, p6) {
                                lemma_leb128_typed_cut(s, p7, if p7 <= k0 { k0 } else { n });
                                if let Ok((debuginfo_size, q1)) = spec_leb128_u64(s, p7) {
                                    lemma_leb128_typed_cut(s, q1, if q1 <= k0 { k0 } else { n });
                                    if let Ok((line_defined, q2)) = spec_leb128_u64(s, q1) {
                                        lemma_leb128_typed_cut(
                                            s,
                                            q2,
                                            if q2 <= k0 { k0 } else { n },
                                        );
                                    }
                                }
                            }
                        }
                    }
                }
            }
        }
    }
}

/// The sequences of a prototype depend on their bytes alone.
pub proof fn lemma_lj_proto_body_cut(
    h: LuaHeader,
    head: ProtoHead,
    s: Seq<u8>,
    pos: int,
    stack: Seq<ChunkView>,
    k: int,
)
    requires
        0 <= pos <= s.len(),
        0 <= k <= s.len(),
    ensures
        pos <= k ==> cut_law(
            spec_lj_proto_body(h, head, s, pos, stack),
            spec_lj_proto_body(h, head, s.take(k), pos, stack),
            pos,
            k,
            s.len() as int,
        ),
        spec_lj_proto_body(h, head, s, pos, stack) is Ok ==> pos <= spec_lj_proto_body(
            h,
            head,
            s,
            pos,
            stack,
        )->Ok_0.1 <= s.len(),
{
    reveal(spec_lj_proto_body);
    let n = s.len() as int;
    let e = h.spec_endian();
    let k0 = if pos <= k { k } else { n };
    lemma_repeat_cut(Instruction { header: h }, s, pos, head.instructions_count as nat, k0);
    if let Ok((instructions, p1)) = spec_repeat(
        Instruction { header: h },
        s,
        pos,
        head.instructions_count as nat,
    ) {
        lemma_repeat_cut(
            Upvalue { endian: e },
            s,
            p1,
            head.num_upvalues as nat,
            if p1 <= k0 { k0 } else { n },
        );
        if let Ok((upvalue_infos, p2)) = spec_repeat(
            Upvalue { endian: e },
            s,
            p1,
            head.num_upvalues as nat,
        ) {
            lemma_lj_constants_cut(s, p2, e, head.complex_count as nat, stack, Seq::empty(), k0);
            if let Ok((work, p3)) = spec_lj_constants(
                s,
                p2,
                e,
                head.complex_count as nat,
                stack,
                Seq::empty(),
            ) {
                lemma_repeat_cut(
                    NumConstant { endian: e },
                    s,
                    p3,
                    head.numeric_count as nat,
                    if p3 <= k0 { k0 } else { n },
                );
                if let Ok((num_constants, p4)) = spec_repeat(
                    NumConstant { endian: e },
                    s,
                    p3,
                    head.numeric_count as nat,
                ) {
                    lemma_bytes_cut(
                        s,
                        p4,
                        head.debuginfo_size as nat,
                        if p4 <= k0 { k0 } else { n },
                    );
                }
            }
        }
    }
}

/// A prototype depends on its bytes alone, and takes at least one.
pub proof fn lemma_lj_proto_cut(h: LuaHeader, s: Seq<u8>, pos: int, stack: Seq<ChunkView>, k: int)
    requires
        0 <= pos <= s.len(),
        0 <= k <= s.len(),
    ensures
        pos <= k ==> cut_law(
            spec_lj_proto(h, s, pos, stack),
            spec_lj_proto(h, s.take(k), pos, stack),
            pos,
            k,
            s.len() as int,
        ),
        spec_lj_proto(h, s, pos, stack) is Ok ==> pos < spec_lj_proto(h, s, pos, stack)->Ok_0.1
            <= s.len(),
{
    let n = s.len() as int;
    lemma_leb128_typed_cut(s, pos, if pos <= k { k } else { n });
    if leb128_scan(s, pos, 0, 5) is Ends {
        lemma_scan_bounds(s, pos, 0, 5, false);
    }
    if let Ok((size, p0)) = spec_leb128_u32(s, pos) {
        lemma_lj_proto_head_cut(h, s, p0, if pos <= k { k } else { n });
        if let Ok((head, p1)) = spec_lj_proto_head(h, s, p0) {
            lemma_lj_proto_body_cut(h, head, s, p1, stack, if pos <= k { k } else { n });
        }
    }
}

/// A stream of prototypes depends on its bytes alone.
pub proof fn lemma_lj_stream_cut(h: LuaHeader, s: Seq<u8>, pos: int, stack: Seq<ChunkView>, k: int)
    requires
        0 <= pos <= s.len(),
        0 <= k <= s.len(),
    ensures
        pos <= k ==> cut_law(
            spec_lj_stream(h, s, pos, stack),
            spec_lj_stream(h, s.take(k), pos, stack),
            pos,
            k,
            s.len() as int,
        ),
        spec_lj_stream(h, s, pos, stack) is Ok ==> pos < spec_lj_stream(h, s, pos, stack)->Ok_0.1
            <= s.len(),
    decreases s.len() - pos,
{
    lemma_lj_proto_cut(h, s, pos, stack, k);
    match spec_lj_proto(h, s, pos, stack) {
        Ok((Some((chunk, rest)), next)) => {
            lemma_lj_stream_cut(h, s, next, rest.push(chunk), k);
        },
        _ => {},
    }
}

/// The root prototype depends on the bytes it is read from and on no
/// others.
pub proof fn lemma_lj_chunk_cut(h: LuaHeader, s: Seq<u8>, pos: int, k: int)
    requires
        0 <= pos <= k <= s.len(),
    ensures
        cut_law(spec_lj_chunk(h, s, pos), spec_lj_chunk(h, s.take(k), pos), pos, k, s.len() as int),
{
    let n = s.len() as int;
    if !h.stripped {
        lemma_leb128_typed_cut(s, pos, k);
        if let Ok((len, at)) = spec_leb128_u32(s, pos) {
            lemma_bytes_cut(s, at, len as nat, if at <= k { k } else { n });
        }
    }
    if let Ok((name, p1)) = spec_lj_name(h, s, pos) {
        lemma_lj_stream_cut(h, s, p1, Seq::empty(), k);
    }
}

/// A file is decoded if and only if its stream of prototypes leaves
/// exactly one prototype on the stack; a stream that leaves more or none
/// is an `UnbalancedPrototypeStack`.
pub proof fn lemma_lj_chunk_balanced(h: LuaHeader, s: Seq<u8>, pos: int)
    requires
        spec_lj_name(h, s, pos) is Ok,
        spec_lj_stream(h, s, spec_lj_name(h, s, pos)->Ok_0.1, Seq::empty()) is Ok,
    ensures
        spec_lj_chunk(h, s, pos) is Ok <==> spec_lj_stream(
            h,
            s,
            spec_lj_name(h, s, pos)->Ok_0.1,
            Seq::empty(),
        )->Ok_0.0.len() == 1,
        spec_lj_chunk(h, s, pos) is Err ==> spec_lj_chunk(h, s, pos)->Err_0.kind
            == ErrorKind::UnbalancedPrototypeStack,
{
}

/// Prototype flag: the prototype has nested prototypes.
pub const HAS_CHILD: u8 = 0b0000_0001;

/// Prototype flag: the prototype takes extra arguments.
pub const IS_VARIADIC: u8 = 0b0000_0010;

/// Prototype flag: the prototype uses the FFI.
pub const HAS_FFI: u8 = 0b0000_0100;

/// Prototype flag: the prototype is never compiled.
pub const JIT_DISABLED: u8 = 0b0000_1000;

/// Prototype flag: the prototype holds a patched loop instruction.
pub const HAS_ILOOP: u8 = 0b000_1000;

/// Every bit that is the flag of a prototype.
pub const ALL_FLAGS: u8 = 0b0000_1111;

/// The flags of a prototype: a set of the bits above.
#[derive(Clone, Copy, Debug, PartialEq, Eq, Hash, Structural)]
pub struct ProtoFlags {
    bits: u8,
}

impl ProtoFlags {
    /// The bits of the set.
    pub closed spec fn spec_bits(self) -> u8 {
        self.bits
    }

    /// The set holds only bits that are flags.
    pub open spec fn wf(self) -> bool {
        self.spec_bits() & !ALL_FLAGS == 0
    }

    /// The set with the bits `bits`, if each of them is a flag.
    pub fn from_bits(bits: u8) -> (r: Option<ProtoFlags>)
        ensures
            bits & !ALL_FLAGS == 0 ==> r is Some && r->Some_0.spec_bits() == bits && r->Some_0.wf(),
            bits & !ALL_FLAGS != 0 ==> r is None,
    {
        if bits & !ALL_FLAGS == 0 {
            Some(ProtoFlags { bits })
        } else {
            None
        }
    }

    /// The bits of the set.
    pub fn bits(&self) -> (r: u8)
        ensures
            r == self.spec_bits(),
    {
        self.bits
    }

    /// The set holds every bit of `mask`.
    pub fn contains(&self, mask: u8) -> (r: bool)
        ensures
            r == (self.spec_bits() & mask == mask),
    {
        self.bits & mask == mask
    }
}

impl LuaChunk {
    /// The flags of a LuaJIT prototype whose flag byte holds only flags.
    pub fn flags(&self) -> (r: ProtoFlags)
        requires
            self.flags & !ALL_FLAGS == 0,
        ensures
            r.spec_bits() == self.flags,
            r.wf(),
    {
        ProtoFlags { bits: self.flags }
    }
}

} // verus!
