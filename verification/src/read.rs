//! Readers of the primitive fields: one byte, fixed-width integers, runs of
//! bytes and LEB128 integers.
//!
//! A reader takes the whole input and the position to read at, and returns
//! the value with the position after it.

use crate::error::{agrees, cut_law, fail, DecodeError, ErrorKind, Parsed};
use crate::model::Endianness;
use crate::outside::{nom_leb128_u32, nom_leb128_u64, nom_u16, nom_u32, nom_u64, LebRead};
use crate::wire::{fixed_value, is_last, leb128_scan, leb128_value, low7, varint_scan, Scan};
use vstd::prelude::*;
use vstd::slice::{slice_subrange, slice_to_vec};

verus! {

/// The byte at `pos`.
pub open spec fn spec_byte(s: Seq<u8>, pos: int) -> Parsed<u8> {
    if 0 <= pos < s.len() {
        Ok((s[pos], pos + 1))
    } else {
        fail(pos, ErrorKind::Truncated)
    }
}

/// The run of `n` bytes at `pos`.
pub open spec fn spec_bytes(s: Seq<u8>, pos: int, n: nat) -> Parsed<Seq<u8>> {
    if 0 <= pos && pos + n <= s.len() {
        Ok((s.subrange(pos, pos + n), pos + n))
    } else {
        fail(pos, ErrorKind::Truncated)
    }
}

/// The integer of `width` bytes at `pos`, in the byte order `e`.
pub open spec fn spec_fixed(s: Seq<u8>, pos: int, width: nat, e: Endianness) -> Parsed<nat> {
    if 0 <= pos && pos + width <= s.len() {
        Ok((fixed_value(s.subrange(pos, pos + width), e), pos + width))
    } else {
        fail(pos, ErrorKind::Truncated)
    }
}

/// The two-byte integer at `pos`.
pub open spec fn spec_u16(s: Seq<u8>, pos: int, e: Endianness) -> Parsed<u16> {
    match spec_fixed(s, pos, 2, e) {
        Ok((v, next)) => Ok((v as u16, next)),
        Err(err) => Err(err),
    }
}

/// The four-byte integer at `pos`.
pub open spec fn spec_u32(s: Seq<u8>, pos: int, e: Endianness) -> Parsed<u32> {
    match spec_fixed(s, pos, 4, e) {
        Ok((v, next)) => Ok((v as u32, next)),
        Err(err) => Err(err),
    }
}

/// The eight-byte integer at `pos`.
pub open spec fn spec_u64(s: Seq<u8>, pos: int, e: Endianness) -> Parsed<u64> {
    match spec_fixed(s, pos, 8, e) {
        Ok((v, next)) => Ok((v as u64, next)),
        Err(err) => Err(err),
    }
}

/// The LEB128 integer at `pos` that may take `max` bytes, reduced modulo
/// `modulus`.
///
/// An integer that the input cuts short is `Truncated` at the end of the
/// input; one with `max` continuation bytes is an `IntegerOverflow` at
/// `pos`.
pub open spec fn spec_leb128(s: Seq<u8>, pos: int, max: nat, modulus: nat) -> Parsed<nat> {
    match leb128_scan(s, pos, 0, max) {
        Scan::Ends(n) => Ok((leb128_value(s, pos, n) % modulus, pos + n)),
        Scan::TooLong => fail(pos, ErrorKind::IntegerOverflow),
        Scan::Short => fail(s.len() as int, ErrorKind::Truncated),
    }
}

/// The LEB128 integer of at most five bytes at `pos`, cut to 32 bits.
pub open spec fn spec_leb128_u32(s: Seq<u8>, pos: int) -> Parsed<u32> {
    match spec_leb128(s, pos, 5, 0x1_0000_0000) {
        Ok((v, next)) => Ok((v as u32, next)),
        Err(err) => Err(err),
    }
}

/// The LEB128 integer of at most ten bytes at `pos`, cut to 64 bits.
pub open spec fn spec_leb128_u64(s: Seq<u8>, pos: int) -> Parsed<u64> {
    match spec_leb128(s, pos, 10, 0x1_0000_0000_0000_0000) {
        Ok((v, next)) => Ok((v as u64, next)),
        Err(err) => Err(err),
    }
}

/// Scanning the tail of the input from its start is scanning the input
/// from `pos`.
pub proof fn lemma_scan_tail(s: Seq<u8>, pos: int, i: nat, max: nat, mark: bool)
    requires
        0 <= pos <= s.len(),
    ensures
        varint_scan(s.subrange(pos, s.len() as int), 0, i, max, mark) == varint_scan(
            s,
            pos,
            i,
            max,
            mark,
        ),
    decreases max - i,
{
    if pos + i >= s.len() {
    } else if is_last(s[pos + i], mark) {
    } else if i + 1 >= max {
    } else {
        lemma_scan_tail(s, pos, i + 1, max, mark);
    }
}

/// A scan that ends stays inside the input and within `max` bytes.
pub proof fn lemma_scan_bounds(s: Seq<u8>, pos: int, i: nat, max: nat, mark: bool)
    requires
        0 <= pos,
        varint_scan(s, pos, i, max, mark) is Ends,
    ensures
        i < varint_scan(s, pos, i, max, mark)->Ends_0,
        pos + varint_scan(s, pos, i, max, mark)->Ends_0 <= s.len(),
        varint_scan(s, pos, i, max, mark)->Ends_0 <= max || varint_scan(
            s,
            pos,
            i,
            max,
            mark,
        )->Ends_0 == i + 1,
    decreases max - i,
{
    if pos + i >= s.len() {
    } else if is_last(s[pos + i], mark) {
    } else if i + 1 >= max {
    } else {
        lemma_scan_bounds(s, pos, i + 1, max, mark);
    }
}

/// The value of the first `n` bytes of a subrange is the value of the `n`
/// bytes at its start in the whole input.
pub proof fn lemma_value_tail(s: Seq<u8>, pos: int, off: int, n: nat)
    requires
        0 <= pos,
        0 <= off,
        pos + off + n <= s.len(),
    ensures
        leb128_value(s.subrange(pos, s.len() as int), off, n) == leb128_value(s, pos + off, n),
    decreases n,
{
    if n > 0 {
        lemma_value_tail(s, pos, off + 1, (n - 1) as nat);
    }
}

/// Reads one byte.
pub fn byte(input: &[u8], pos: usize) -> (r: Result<(u8, usize), DecodeError>)
    ensures
        agrees(r, spec_byte(input@, pos as int)),
{
    if pos < input.len() {
        Ok((input[pos], pos + 1))
    } else {
        Err(DecodeError::new(pos, ErrorKind::Truncated))
    }
}

/// Reads a run of `n` bytes.
pub fn bytes(input: &[u8], pos: usize, n: u64) -> (r: Result<(Vec<u8>, usize), DecodeError>)
    ensures
        agrees(r, spec_bytes(input@, pos as int, n as nat)),
{
    if pos <= input.len() && n <= (input.len() - pos) as u64 {
        let end = pos + n as usize;
        let run = slice_to_vec(slice_subrange(input, pos, end));
        assert(run.deep_view() =~= run@);
        Ok((run, end))
    } else {
        Err(DecodeError::new(pos, ErrorKind::Truncated))
    }
}

/// Reads a two-byte integer.
pub fn fixed16(input: &[u8], pos: usize, e: Endianness) -> (r: Result<(u16, usize), DecodeError>)
    ensures
        agrees(r, spec_u16(input@, pos as int, e)),
{
    if pos > input.len() {
        return Err(DecodeError::new(pos, ErrorKind::Truncated));
    }
    let rest = slice_subrange(input, pos, input.len());
    match nom_u16(rest, e) {
        Some(v) => {
            assert(rest@.take(2) =~= input@.subrange(pos as int, pos + 2));
            Ok((v, pos + 2))
        },
        None => Err(DecodeError::new(pos, ErrorKind::Truncated)),
    }
}

/// Reads a four-byte integer.
pub fn fixed32(input: &[u8], pos: usize, e: Endianness) -> (r: Result<(u32, usize), DecodeError>)
    ensures
        agrees(r, spec_u32(input@, pos as int, e)),
{
    if pos > input.len() {
        return Err(DecodeError::new(pos, ErrorKind::Truncated));
    }
    let rest = slice_subrange(input, pos, input.len());
    match nom_u32(rest, e) {
        Some(v) => {
            assert(rest@.take(4) =~= input@.subrange(pos as int, pos + 4));
            Ok((v, pos + 4))
        },
        None => Err(DecodeError::new(pos, ErrorKind::Truncated)),
    }
}

/// Reads an eight-byte integer.
pub fn fixed64(input: &[u8], pos: usize, e: Endianness) -> (r: Result<(u64, usize), DecodeError>)
    ensures
        agrees(r, spec_u64(input@, pos as int, e)),
{
    if pos > input.len() {
        return Err(DecodeError::new(pos, ErrorKind::Truncated));
    }
    let rest = slice_subrange(input, pos, input.len());
    match nom_u64(rest, e) {
        Some(v) => {
            assert(rest@.take(8) =~= input@.subrange(pos as int, pos + 8));
            Ok((v, pos + 8))
        },
        None => Err(DecodeError::new(pos, ErrorKind::Truncated)),
    }
}

/// Reads a LEB128 integer of 32 bits.
pub fn leb128_u32(input: &[u8], pos: usize) -> (r: Result<(u32, usize), DecodeError>)
    ensures
        agrees(r, spec_leb128_u32(input@, pos as int)),
{
    if pos > input.len() {
        return Err(DecodeError::new(input.len(), ErrorKind::Truncated));
    }
    let rest = slice_subrange(input, pos, input.len());
    proof {
        lemma_scan_tail(input@, pos as int, 0, 5, false);
        if leb128_scan(input@, pos as int, 0, 5) is Ends {
            lemma_scan_bounds(input@, pos as int, 0, 5, false);
            lemma_value_tail(input@, pos as int, 0, leb128_scan(input@, pos as int, 0, 5)->Ends_0);
        }
    }
    match nom_leb128_u32(rest) {
        LebRead::Value(v, left) => Ok((v, input.len() - left)),
        LebRead::TooLarge => Err(DecodeError::new(pos, ErrorKind::IntegerOverflow)),
        LebRead::Incomplete => Err(DecodeError::new(input.len(), ErrorKind::Truncated)),
    }
}

/// Reads a LEB128 integer of 64 bits.
pub fn leb128_u64(input: &[u8], pos: usize) -> (r: Result<(u64, usize), DecodeError>)
    ensures
        agrees(r, spec_leb128_u64(input@, pos as int)),
{
    if pos > input.len() {
        return Err(DecodeError::new(input.len(), ErrorKind::Truncated));
    }
    let rest = slice_subrange(input, pos, input.len());
    proof {
        lemma_scan_tail(input@, pos as int, 0, 10, false);
        if leb128_scan(input@, pos as int, 0, 10) is Ends {
            lemma_scan_bounds(input@, pos as int, 0, 10, false);
            lemma_value_tail(input@, pos as int, 0, leb128_scan(input@, pos as int, 0, 10)->Ends_0);
        }
    }
    match nom_leb128_u64(rest) {
        LebRead::Value(v, left) => Ok((v, input.len() - left)),
        LebRead::TooLarge => Err(DecodeError::new(pos, ErrorKind::IntegerOverflow)),
        LebRead::Incomplete => Err(DecodeError::new(input.len(), ErrorKind::Truncated)),
    }
}


/// Reading one byte depends on that byte alone.
pub proof fn lemma_byte_cut(s: Seq<u8>, pos: int, k: int)
    requires
        0 <= pos <= k <= s.len(),
    ensures
        cut_law(spec_byte(s, pos), spec_byte(s.take(k), pos), pos, k, s.len() as int),
{
}

/// Reading a run of bytes depends on those bytes alone.
pub proof fn lemma_bytes_cut(s: Seq<u8>, pos: int, n: nat, k: int)
    requires
        0 <= pos <= k <= s.len(),
    ensures
        cut_law(spec_bytes(s, pos, n), spec_bytes(s.take(k), pos, n), pos, k, s.len() as int),
{
    if pos + n <= k {
        assert(s.take(k).subrange(pos, pos + n) =~= s.subrange(pos, pos + n));
    }
}

/// Reading a fixed-width integer depends on its bytes alone.
pub proof fn lemma_fixed_cut(s: Seq<u8>, pos: int, width: nat, e: Endianness, k: int)
    requires
        0 <= pos <= k <= s.len(),
    ensures
        cut_law(
            spec_fixed(s, pos, width, e),
            spec_fixed(s.take(k), pos, width, e),
            pos,
            k,
            s.len() as int,
        ),
        cut_law(spec_u16(s, pos, e), spec_u16(s.take(k), pos, e), pos, k, s.len() as int),
        cut_law(spec_u32(s, pos, e), spec_u32(s.take(k), pos, e), pos, k, s.len() as int),
        cut_law(spec_u64(s, pos, e), spec_u64(s.take(k), pos, e), pos, k, s.len() as int),
{
    if pos + width <= k {
        assert(s.take(k).subrange(pos, pos + width) =~= s.subrange(pos, pos + width));
    }
    if pos + 2 <= k {
        assert(s.take(k).subrange(pos, pos + 2) =~= s.subrange(pos, pos + 2));
    }
    if pos + 4 <= k {
        assert(s.take(k).subrange(pos, pos + 4) =~= s.subrange(pos, pos + 4));
    }
    if pos + 8 <= k {
        assert(s.take(k).subrange(pos, pos + 8) =~= s.subrange(pos, pos + 8));
    }
}

/// A scan that ends inside the first `k` bytes is the same on the cut
/// input; one that ends later runs short there.
pub proof fn lemma_scan_cut(s: Seq<u8>, pos: int, i: nat, max: nat, mark: bool, k: int)
    requires
        0 <= pos,
        pos + i <= k <= s.len(),
        varint_scan(s, pos, i, max, mark) is Ends,
    ensures
        pos + varint_scan(s, pos, i, max, mark)->Ends_0 <= k ==> varint_scan(
            s.take(k),
            pos,
            i,
            max,
            mark,
        ) == varint_scan(s, pos, i, max, mark),
        pos + varint_scan(s, pos, i, max, mark)->Ends_0 > k ==> varint_scan(
            s.take(k),
            pos,
            i,
            max,
            mark,
        ) == Scan::Short,
    decreases max - i,
{
    lemma_scan_bounds(s, pos, i, max, mark);
    if pos + i >= k {
    } else if is_last(s[pos + i], mark) {
    } else if i + 1 >= max {
    } else {
        lemma_scan_cut(s, pos, i + 1, max, mark, k);
    }
}

/// The value of bytes inside the first `k` is the same on the cut input.
pub proof fn lemma_value_cut(s: Seq<u8>, pos: int, n: nat, k: int)
    requires
        0 <= pos,
        pos + n <= k <= s.len(),
    ensures
        leb128_value(s.take(k), pos, n) == leb128_value(s, pos, n),
    decreases n,
{
    if n > 0 {
        lemma_value_cut(s, pos + 1, (n - 1) as nat, k);
    }
}

/// Reading a LEB128 integer depends on its bytes alone.
pub proof fn lemma_leb128_cut(s: Seq<u8>, pos: int, max: nat, modulus: nat, k: int)
    requires
        0 <= pos <= k <= s.len(),
    ensures
        cut_law(
            spec_leb128(s, pos, max, modulus),
            spec_leb128(s.take(k), pos, max, modulus),
            pos,
            k,
            s.len() as int,
        ),
{
    if leb128_scan(s, pos, 0, max) is Ends {
        let n = leb128_scan(s, pos, 0, max)->Ends_0;
        lemma_scan_bounds(s, pos, 0, max, false);
        lemma_scan_cut(s, pos, 0, max, false, k);
        if pos + n <= k {
            lemma_value_cut(s, pos, n, k);
        }
    }
}

/// Reading a LEB128 integer of 32 or of 64 bits depends on its bytes alone.
pub proof fn lemma_leb128_typed_cut(s: Seq<u8>, pos: int, k: int)
    requires
        0 <= pos <= k <= s.len(),
    ensures
        cut_law(spec_leb128_u32(s, pos), spec_leb128_u32(s.take(k), pos), pos, k, s.len() as int),
        cut_law(spec_leb128_u64(s, pos), spec_leb128_u64(s.take(k), pos), pos, k, s.len() as int),
{
    lemma_leb128_cut(s, pos, 5, 0x1_0000_0000, k);
    lemma_leb128_cut(s, pos, 10, 0x1_0000_0000_0000_0000, k);
}


/// 128 to the power `n`.
pub open spec fn pow128(n: nat) -> nat
    decreases n,
{
    if n == 0 {
        1
    } else {
        128 * pow128((n - 1) as nat)
    }
}

/// The variable-length integer at `pos` that may take `max` bytes and
/// ends with the byte whose high bit is `mark`, in full: seven bits a
/// byte, the least significant group first.
///
/// An integer that the input cuts short is `Truncated` at the end of the
/// input; one that goes on beyond `max` bytes is an `IntegerOverflow` at
/// `pos`.
pub open spec fn spec_varint_wide(s: Seq<u8>, pos: int, max: nat, mark: bool) -> Parsed<u128> {
    match varint_scan(s, pos, 0, max, mark) {
        Scan::Ends(n) => Ok((leb128_value(s, pos, n) as u128, pos + n)),
        Scan::TooLong => fail(pos, ErrorKind::IntegerOverflow),
        Scan::Short => fail(s.len() as int, ErrorKind::Truncated),
    }
}

/// The powers of 128 grow.
pub proof fn lemma_pow128_grows(i: nat, j: nat)
    requires
        i <= j,
    ensures
        0 < pow128(i) <= pow128(j),
    decreases j,
{
    if i < j {
        lemma_pow128_grows(i, (j - 1) as nat);
    } else if j > 0 {
        lemma_pow128_grows((i - 1) as nat, (j - 1) as nat);
    }
}

/// One more byte adds its seven bits above those of the bytes before it,
/// and `n` bytes spell a number below 128 to the power `n`.
pub proof fn lemma_value_step(s: Seq<u8>, pos: int, n: nat)
    ensures
        leb128_value(s, pos, n + 1) == leb128_value(s, pos, n) + low7(s[pos + n]) * pow128(n),
        leb128_value(s, pos, n) < pow128(n),
    decreases n,
{
    assert(forall|b: u8| #[trigger] (b & 0x7f) <= 0x7f) by {
        assert forall|b: u8| #[trigger] (b & 0x7f) <= 0x7f by {
            assert(b & 0x7f <= 0x7f) by (bit_vector);
        }
    }
    if n == 0 {
        reveal_with_fuel(leb128_value, 2);
        assert(pow128(0) == 1);
        assert(low7(s[pos]) * 1 == low7(s[pos]));
    } else {
        lemma_value_step(s, pos + 1, (n - 1) as nat);
        let a = leb128_value(s, pos + 1, (n - 1) as nat);
        let d = low7(s[pos + n]);
        let p = pow128((n - 1) as nat);
        assert(128 * (a + d * p) == 128 * a + d * (128 * p)) by (nonlinear_arith);
        assert(pow128(n) == 128 * p);
        assert(leb128_value(s, pos + 1, n) == a + d * p);
        assert(leb128_value(s, pos, n) == low7(s[pos]) + 128 * a);
        assert(leb128_value(s, pos, n + 1) == low7(s[pos]) + 128 * leb128_value(
            s,
            pos + 1,
            n,
        ));
    }
}

/// Reads a variable-length integer of at most `max` bytes, whose last byte
/// is the one with the high bit `mark`, in full.
pub fn varint_wide(input: &[u8], pos: usize, max: usize, mark: bool) -> (r: Result<
    (u128, usize),
    DecodeError,
>)
    requires
        0 < max <= 10,
    ensures
        agrees(r, spec_varint_wide(input@, pos as int, max as nat, mark)),
{
    let mut i: usize = 0;
    let mut v: u128 = 0;
    let mut scale: u128 = 1;
    loop
        invariant
            0 < max <= 10,
            i < max,
            scale == pow128(i as nat),
            v == leb128_value(input@, pos as int, i as nat),
            varint_scan(input@, pos as int, 0, max as nat, mark) == varint_scan(
                input@,
                pos as int,
                i as nat,
                max as nat,
                mark,
            ),
        decreases max - i,
    {
        if pos >= input.len() || i >= input.len() - pos {
            return Err(DecodeError::new(input.len(), ErrorKind::Truncated));
        }
        let b = input[pos + i];
        proof {
            lemma_value_step(input@, pos as int, i as nat);
            lemma_value_step(input@, pos as int, (i + 1) as nat);
            lemma_pow128_grows((i + 1) as nat, 10);
            reveal_with_fuel(pow128, 11);
            assert(b & 0x7f <= 0x7f) by (bit_vector);
            assert((b & 0x7f) as nat * pow128(i as nat) < 128 * pow128(i as nat))
                by (nonlinear_arith)
                requires
                    (b & 0x7f) <= 0x7f,
                    pow128(i as nat) > 0,
            ;
        }
        v = v + (b & 0x7f) as u128 * scale;
        if (b & 0x80 != 0) == mark {
            return Ok((v, pos + i + 1));
        }
        if i + 1 >= max {
            return Err(DecodeError::new(pos, ErrorKind::IntegerOverflow));
        }
        scale = scale * 128;
        i = i + 1;
    }
}

/// Reading a variable-length integer in full depends on its bytes alone.
pub proof fn lemma_varint_wide_cut(s: Seq<u8>, pos: int, max: nat, mark: bool, k: int)
    requires
        0 <= pos <= k <= s.len(),
    ensures
        cut_law(
            spec_varint_wide(s, pos, max, mark),
            spec_varint_wide(s.take(k), pos, max, mark),
            pos,
            k,
            s.len() as int,
        ),
{
    if varint_scan(s, pos, 0, max, mark) is Ends {
        let n = varint_scan(s, pos, 0, max, mark)->Ends_0;
        lemma_scan_bounds(s, pos, 0, max, mark);
        lemma_scan_cut(s, pos, 0, max, mark, k);
        if pos + n <= k {
            lemma_value_cut(s, pos, n, k);
        }
    }
}

} // verus!
