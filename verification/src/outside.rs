//! The calls into `nom`, `nom_leb128` and the parts of `std` that have no
//! specification. Their contracts are taken on trust.

use crate::model::Endianness;
use crate::wire::{fixed_value, leb128_scan, leb128_value, Scan};
use vstd::prelude::*;
use vstd::string::StringSliceAdditionalSpecFns;

verus! {

/// What a LEB128 reader of `nom_leb128` returned.
pub enum LebRead<T> {
    /// The number, and how many bytes of the input follow it.
    Value(T, usize),
    /// The number takes more bytes than its type allows.
    TooLarge,
    /// The input ended inside the number.
    Incomplete,
}

/// Calls `nom::number::complete::u16`.
///
/// Claimed: with fewer than two bytes it fails; otherwise it returns the
/// number that the first two bytes spell in the byte order `e`.
#[verifier::external_body]
pub(crate) fn nom_u16(rest: &[u8], e: Endianness) -> (r: Option<u16>)
    ensures
        rest@.len() < 2 ==> r is None,
        rest@.len() >= 2 ==> r is Some && r->Some_0 as nat == fixed_value(rest@.take(2), e),
{
    let order = match e {
        Endianness::Big => nom::number::Endianness::Big,
        Endianness::Little => nom::number::Endianness::Little,
    };
    match nom::number::complete::u16::<&[u8], nom::error::Error<&[u8]>>(order)(rest) {
        Ok((_, v)) => Some(v),
        Err(_) => None,
    }
}

/// Calls `nom::number::complete::u32`.
///
/// Claimed: with fewer than four bytes it fails; otherwise it returns the
/// number that the first four bytes spell in the byte order `e`.
#[verifier::external_body]
pub(crate) fn nom_u32(rest: &[u8], e: Endianness) -> (r: Option<u32>)
    ensures
        rest@.len() < 4 ==> r is None,
        rest@.len() >= 4 ==> r is Some && r->Some_0 as nat == fixed_value(rest@.take(4), e),
{
    let order = match e {
        Endianness::Big => nom::number::Endianness::Big,
        Endianness::Little => nom::number::Endianness::Little,
    };
    match nom::number::complete::u32::<&[u8], nom::error::Error<&[u8]>>(order)(rest) {
        Ok((_, v)) => Some(v),
        Err(_) => None,
    }
}

/// Calls `nom::number::complete::u64`.
///
/// Claimed: with fewer than eight bytes it fails; otherwise it returns the
/// number that the first eight bytes spell in the byte order `e`.
#[verifier::external_body]
pub(crate) fn nom_u64(rest: &[u8], e: Endianness) -> (r: Option<u64>)
    ensures
        rest@.len() < 8 ==> r is None,
        rest@.len() >= 8 ==> r is Some && r->Some_0 as nat == fixed_value(rest@.take(8), e),
{
    let order = match e {
        Endianness::Big => nom::number::Endianness::Big,
        Endianness::Little => nom::number::Endianness::Little,
    };
    match nom::number::complete::u64::<&[u8], nom::error::Error<&[u8]>>(order)(rest) {
        Ok((_, v)) => Some(v),
        Err(_) => None,
    }
}

/// Calls `nom_leb128::leb128_u32`.
///
/// Claimed: it reads bytes up to the first one without the high bit. If the
/// input ends before that, the read is incomplete; if the first five bytes
/// all have the high bit, the number is too large; otherwise the result is
/// the LEB128 value of those bytes, cut to 32 bits, with the count of the
/// bytes that follow.
#[verifier::external_body]
pub(crate) fn nom_leb128_u32(rest: &[u8]) -> (r: LebRead<u32>)
    ensures
        match leb128_scan(rest@, 0, 0, 5) {
            Scan::Ends(n) => r == LebRead::Value(
                (leb128_value(rest@, 0, n) % 0x1_0000_0000) as u32,
                (rest@.len() - n) as usize,
            ),
            Scan::TooLong => r == LebRead::<u32>::TooLarge,
            Scan::Short => r == LebRead::<u32>::Incomplete,
        },
{
    match nom_leb128::leb128_u32::<&[u8], nom::error::Error<&[u8]>>(rest) {
        Ok((left, v)) => LebRead::Value(v, left.len()),
        Err(nom::Err::Incomplete(_)) => LebRead::Incomplete,
        Err(_) => LebRead::TooLarge,
    }
}

/// Calls `nom_leb128::leb128_u64`.
///
/// Claimed: as for [`nom_leb128_u32`], with ten bytes at most and the value
/// cut to 64 bits.
#[verifier::external_body]
pub(crate) fn nom_leb128_u64(rest: &[u8]) -> (r: LebRead<u64>)
    ensures
        match leb128_scan(rest@, 0, 0, 10) {
            Scan::Ends(n) => r == LebRead::Value(
                (leb128_value(rest@, 0, n) % 0x1_0000_0000_0000_0000) as u64,
                (rest@.len() - n) as usize,
            ),
            Scan::TooLong => r == LebRead::<u64>::TooLarge,
            Scan::Short => r == LebRead::<u64>::Incomplete,
        },
{
    match nom_leb128::leb128_u64::<&[u8], nom::error::Error<&[u8]>>(rest) {
        Ok((left, v)) => LebRead::Value(v, left.len()),
        Err(nom::Err::Incomplete(_)) => LebRead::Incomplete,
        Err(_) => LebRead::TooLarge,
    }
}

/// The text that `String::from_utf8_lossy` makes of `bytes`.
pub uninterp spec fn lossy_text(bytes: Seq<u8>) -> Seq<char>;

/// Calls `String::from_utf8_lossy`, which decodes UTF-8 and puts U+FFFD in
/// the place of each invalid sequence.
#[verifier::external_body]
pub(crate) fn utf8_lossy(bytes: &[u8]) -> (r: String)
    ensures
        r@ == lossy_text(bytes@),
{
    String::from_utf8_lossy(bytes).into_owned()
}

/// Calls `std::str::from_utf8`.
///
/// Claimed: bytes that are valid UTF-8 give the text with those bytes; any
/// other bytes give nothing.
#[verifier::external_body]
pub(crate) fn utf8_text(bytes: &[u8]) -> (r: Option<&str>)
    ensures
        vstd::utf8::valid_utf8(bytes@) ==> r is Some && r->Some_0.spec_bytes() == bytes@,
        !vstd::utf8::valid_utf8(bytes@) ==> r is None,
{
    std::str::from_utf8(bytes).ok()
}

/// What `char::is_alphabetic` says of `c`: it has the Unicode property
/// `Alphabetic`.
pub uninterp spec fn alphabetic(c: char) -> bool;

/// Calls `char::is_alphabetic`.
#[verifier::external_body]
pub(crate) fn is_alphabetic(c: char) -> (r: bool)
    ensures
        r == alphabetic(c),
{
    c.is_alphabetic()
}

/// What `char::is_alphanumeric` says of `c`: it is alphabetic or a number
/// of Unicode.
pub uninterp spec fn alphanumeric(c: char) -> bool;

/// Calls `char::is_alphanumeric`.
#[verifier::external_body]
pub(crate) fn is_alphanumeric(c: char) -> (r: bool)
    ensures
        r == alphanumeric(c),
{
    c.is_alphanumeric()
}

} // verus!
