//! The encodings of integers on the wire, as mathematics.

use crate::model::Endianness;
use vstd::prelude::*;

verus! {

/// The number that `bytes` spell with the most significant byte first.
pub open spec fn be_value(bytes: Seq<u8>) -> nat
    decreases bytes.len(),
{
    if bytes.len() == 0 {
        0
    } else {
        be_value(bytes.drop_last()) * 256 + bytes.last() as nat
    }
}

/// The number that `bytes` spell with the least significant byte first.
pub open spec fn le_value(bytes: Seq<u8>) -> nat
    decreases bytes.len(),
{
    if bytes.len() == 0 {
        0
    } else {
        bytes.first() as nat + 256 * le_value(bytes.drop_first())
    }
}

/// The number that `bytes` spell in the byte order `e`.
pub open spec fn fixed_value(bytes: Seq<u8>, e: Endianness) -> nat {
    match e {
        Endianness::Big => be_value(bytes),
        Endianness::Little => le_value(bytes),
    }
}

/// The low seven bits of a byte.
pub open spec fn low7(b: u8) -> nat {
    (b & 0x7f) as nat
}

/// The byte's high bit is set.
pub open spec fn high_bit(b: u8) -> bool {
    b & 0x80 != 0
}

/// How a scan for the end of a variable-length integer ends.
pub enum Scan {
    /// The integer takes this many bytes.
    Ends(nat),
    /// The integer goes on beyond the bytes that it may take.
    TooLong,
    /// The input ends before the integer does.
    Short,
}

/// `b` is the last byte of a variable-length integer whose last byte is
/// the one with the high bit `mark`.
pub open spec fn is_last(b: u8, mark: bool) -> bool {
    high_bit(b) == mark
}

/// Scans the variable-length integer that starts at `pos`, of which the
/// first `i` bytes are not the last, and that may take `max` bytes.
///
/// The integer ends with the first byte whose high bit is `mark`.
pub open spec fn varint_scan(s: Seq<u8>, pos: int, i: nat, max: nat, mark: bool) -> Scan
    decreases max - i,
{
    if pos + i >= s.len() {
        Scan::Short
    } else if is_last(s[pos + i], mark) {
        Scan::Ends(i + 1)
    } else if i + 1 >= max {
        Scan::TooLong
    } else {
        varint_scan(s, pos, i + 1, max, mark)
    }
}

/// Scans the LEB128 integer that starts at `pos`, of which the first `i`
/// bytes carry a continuation bit, and that may take `max` bytes.
///
/// A byte with its high bit set is followed by another; the first byte
/// without it is the last.
pub open spec fn leb128_scan(s: Seq<u8>, pos: int, i: nat, max: nat) -> Scan {
    varint_scan(s, pos, i, max, false)
}

/// The number that the `n` bytes from `pos` on spell in LEB128: seven bits
/// a byte, the least significant group first.
pub open spec fn leb128_value(s: Seq<u8>, pos: int, n: nat) -> nat
    decreases n,
{
    if n == 0 {
        0
    } else {
        low7(s[pos]) + 128 * leb128_value(s, pos + 1, (n - 1) as nat)
    }
}

} // verus!
