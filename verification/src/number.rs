//! Readers whose width the header fixes: the dialect's "int", its "size",
//! and its numbers.

use crate::error::{
    agrees, cut_law, fail, in_context, with_context, Context, DecodeError, ErrorKind, Parsed,
};
use crate::model::{Endianness, LuaHeader, LuaNumber};
use crate::read::{
    byte, fixed16, fixed32, fixed64, lemma_byte_cut, lemma_fixed_cut, spec_byte, spec_u16,
    spec_u32, spec_u64,
};
use vstd::prelude::*;

verus! {

/// The unsigned integer of `width` bytes at `pos`.
///
/// A width other than 1, 2, 4 or 8 is an `UnsupportedWidth` at `pos`.
pub open spec fn spec_sized(s: Seq<u8>, pos: int, width: u8, e: Endianness) -> Parsed<u64> {
    if width == 8 {
        spec_u64(s, pos, e)
    } else if width == 4 {
        match spec_u32(s, pos, e) {
            Ok((v, next)) => Ok((v as u64, next)),
            Err(err) => Err(err),
        }
    } else if width == 2 {
        match spec_u16(s, pos, e) {
            Ok((v, next)) => Ok((v as u64, next)),
            Err(err) => Err(err),
        }
    } else if width == 1 {
        match spec_byte(s, pos) {
            Ok((v, next)) => Ok((v as u64, next)),
            Err(err) => Err(err),
        }
    } else {
        fail(pos, ErrorKind::UnsupportedWidth)
    }
}

/// The dialect's "int" at `pos`.
pub open spec fn spec_lua_int(h: LuaHeader, s: Seq<u8>, pos: int) -> Parsed<u64> {
    in_context(spec_sized(s, pos, h.int_size, h.spec_endian()), Context::Integer)
}

/// The dialect's "size" at `pos`.
pub open spec fn spec_lua_size_t(h: LuaHeader, s: Seq<u8>, pos: int) -> Parsed<u64> {
    in_context(spec_sized(s, pos, h.size_t_size, h.spec_endian()), Context::SizeT)
}

/// The value of the `width`-byte pattern `v` read as a two's complement
/// integer.
pub open spec fn as_signed(v: u64, width: u8) -> i64 {
    if width == 1 {
        (if v >= 0x80 {
            v - 0x100
        } else {
            v as int
        }) as i64
    } else if width == 2 {
        (if v >= 0x8000 {
            v - 0x1_0000
        } else {
            v as int
        }) as i64
    } else if width == 4 {
        (if v >= 0x8000_0000 {
            v - 0x1_0000_0000
        } else {
            v as int
        }) as i64
    } else {
        (if v >= 0x8000_0000_0000_0000 {
            v - 0x1_0000_0000_0000_0000
        } else {
            v as int
        }) as i64
    }
}

/// Doubles the significand `m` of a subnormal single until its leading bit
/// is in place, lowering the exponent field `e` by one each time.
pub open spec fn normalized(m: nat, e: int) -> (nat, int)
    decreases
            (if m < 0x80_0000 {
                0x80_0000 - m
            } else {
                0
            }),
{
    if m == 0 || m >= 0x80_0000 {
        (m, e)
    } else {
        normalized(2 * m, e - 1)
    }
}

/// The double-precision bit pattern of the single-precision value with the
/// bit pattern `bits`.
///
/// Sign and value are kept. A NaN keeps its payload and becomes quiet.
pub open spec fn spec_widen(bits: u32) -> u64 {
    let sign = (bits / 0x8000_0000) as nat;
    let exp = (bits / 0x80_0000 % 0x100) as nat;
    let frac = (bits % 0x80_0000) as nat;
    let magnitude: nat = if exp == 255 {
        if frac == 0 {
            0x7ff0_0000_0000_0000
        } else {
            0x7ff8_0000_0000_0000 + (frac % 0x40_0000) * 0x2000_0000
        }
    } else if exp != 0 {
        (exp + 896) * 0x10_0000_0000_0000 + frac * 0x2000_0000
    } else if frac == 0 {
        0
    } else {
        let (m, e) = normalized(frac, 897);
        (e * 0x10_0000_0000_0000 + (m - 0x80_0000) * 0x2000_0000) as nat
    };
    (sign * 0x8000_0000_0000_0000 + magnitude) as u64
}

/// The number at `pos`, as the header declares numbers.
///
/// Integral numbers are two's complement integers of the declared width.
/// Floating numbers are doubles when eight bytes wide and singles, widened,
/// when four bytes wide; no other width holds a float.
pub open spec fn spec_lua_number_raw(h: LuaHeader, s: Seq<u8>, pos: int) -> Parsed<LuaNumber> {
    if h.number_integral {
        match spec_sized(s, pos, h.number_size, h.spec_endian()) {
            Ok((v, next)) => Ok((LuaNumber::Integer(as_signed(v, h.number_size)), next)),
            Err(err) => Err(err),
        }
    } else if h.number_size == 8 {
        match spec_u64(s, pos, h.spec_endian()) {
            Ok((v, next)) => Ok((LuaNumber::Float(v), next)),
            Err(err) => Err(err),
        }
    } else if h.number_size == 4 {
        match spec_u32(s, pos, h.spec_endian()) {
            Ok((v, next)) => Ok((LuaNumber::Float(spec_widen(v)), next)),
            Err(err) => Err(err),
        }
    } else {
        fail(pos, ErrorKind::UnsupportedWidth)
    }
}

/// The number at `pos`.
pub open spec fn spec_lua_number(h: LuaHeader, s: Seq<u8>, pos: int) -> Parsed<LuaNumber> {
    in_context(spec_lua_number_raw(h, s, pos), Context::Number)
}

/// Reads an unsigned integer of `width` bytes.
pub fn sized(input: &[u8], pos: usize, width: u8, e: Endianness) -> (r: Result<
    (u64, usize),
    DecodeError,
>)
    ensures
        agrees(r, spec_sized(input@, pos as int, width, e)),
{
    if width == 8 {
        fixed64(input, pos, e)
    } else if width == 4 {
        match fixed32(input, pos, e) {
            Ok((v, next)) => Ok((v as u64, next)),
            Err(err) => Err(err),
        }
    } else if width == 2 {
        match fixed16(input, pos, e) {
            Ok((v, next)) => Ok((v as u64, next)),
            Err(err) => Err(err),
        }
    } else if width == 1 {
        match byte(input, pos) {
            Ok((v, next)) => Ok((v as u64, next)),
            Err(err) => Err(err),
        }
    } else {
        Err(DecodeError::new(pos, ErrorKind::UnsupportedWidth))
    }
}

/// Reads the dialect's "int".
pub fn lua_int(header: &LuaHeader, input: &[u8], pos: usize) -> (r: Result<
    (u64, usize),
    DecodeError,
>)
    ensures
        agrees(r, spec_lua_int(*header, input@, pos as int)),
{
    with_context(sized(input, pos, header.int_size, header.endian()), Context::Integer)
}

/// Reads the dialect's "size".
pub fn lua_size_t(header: &LuaHeader, input: &[u8], pos: usize) -> (r: Result<
    (u64, usize),
    DecodeError,
>)
    ensures
        agrees(r, spec_lua_size_t(*header, input@, pos as int)),
{
    with_context(sized(input, pos, header.size_t_size, header.endian()), Context::SizeT)
}

/// Reads a `width`-byte pattern as a two's complement integer.
pub fn to_signed(v: u64, width: u8) -> (r: i64)
    requires
        width == 1 ==> v < 0x100,
        width == 2 ==> v < 0x1_0000,
        width == 4 ==> v < 0x1_0000_0000,
    ensures
        r == as_signed(v, width),
{
    if width == 1 {
        if v >= 0x80 {
            v as i64 - 0x100
        } else {
            v as i64
        }
    } else if width == 2 {
        if v >= 0x8000 {
            v as i64 - 0x1_0000
        } else {
            v as i64
        }
    } else if width == 4 {
        if v >= 0x8000_0000 {
            v as i64 - 0x1_0000_0000
        } else {
            v as i64
        }
    } else {
        if v >= 0x8000_0000_0000_0000 {
            (v - 0x8000_0000_0000_0000) as i64 + i64::MIN
        } else {
            v as i64
        }
    }
}

/// Widens the bit pattern of a single-precision value to that of the equal
/// double-precision value.
pub fn widen(bits: u32) -> (r: u64)
    ensures
        r == spec_widen(bits),
{
    let sign: u64 = (bits / 0x8000_0000) as u64;
    let exp: u64 = (bits / 0x80_0000 % 0x100) as u64;
    let frac: u64 = (bits % 0x80_0000) as u64;
    let magnitude: u64 = if exp == 255 {
        if frac == 0 {
            0x7ff0_0000_0000_0000
        } else {
            0x7ff8_0000_0000_0000 + (frac % 0x40_0000) * 0x2000_0000
        }
    } else if exp != 0 {
        (exp + 896) * 0x10_0000_0000_0000 + frac * 0x2000_0000
    } else if frac == 0 {
        0
    } else {
        let mut m: u64 = frac;
        let mut e: u64 = 897;
        while m < 0x80_0000
            invariant
                0 < m < 0x100_0000,
                e <= 897,
                normalized(m as nat, e as int) == normalized(frac as nat, 897),
                m >= power_of_two((897 - e) as nat),
            decreases
                    (if m < 0x80_0000 {
                        0x80_0000 - m
                    } else {
                        0
                    }),
        {
            proof {
                if e <= 874 {
                    lemma_power_of_two_large((897 - e) as nat);
                }
            }
            m = 2 * m;
            e = e - 1;
        }
        e * 0x10_0000_0000_0000 + (m - 0x80_0000) * 0x2000_0000
    };
    sign * 0x8000_0000_0000_0000 + magnitude
}

/// From the 23rd on, the powers of two have at least 24 bits.
pub proof fn lemma_power_of_two_large(n: nat)
    requires
        n >= 23,
    ensures
        power_of_two(n) >= 0x80_0000,
    decreases n,
{
    if n > 23 {
        lemma_power_of_two_large((n - 1) as nat);
    } else {
        reveal_with_fuel(power_of_two, 24);
    }
}

/// Two to the power `n`.
pub open spec fn power_of_two(n: nat) -> nat
    decreases n,
{
    if n == 0 {
        1
    } else {
        2 * power_of_two((n - 1) as nat)
    }
}

/// Reads a number as the header declares numbers.
pub fn lua_number(header: &LuaHeader, input: &[u8], pos: usize) -> (r: Result<
    (LuaNumber, usize),
    DecodeError,
>)
    ensures
        agrees(r, spec_lua_number(*header, input@, pos as int)),
{
    let raw = if header.number_integral {
        match sized(input, pos, header.number_size, header.endian()) {
            Ok((v, next)) => Ok((LuaNumber::Integer(to_signed(v, header.number_size)), next)),
            Err(err) => Err(err),
        }
    } else if header.number_size == 8 {
        match fixed64(input, pos, header.endian()) {
            Ok((v, next)) => Ok((LuaNumber::Float(v), next)),
            Err(err) => Err(err),
        }
    } else if header.number_size == 4 {
        match fixed32(input, pos, header.endian()) {
            Ok((v, next)) => Ok((LuaNumber::Float(widen(v)), next)),
            Err(err) => Err(err),
        }
    } else {
        Err(DecodeError::new(pos, ErrorKind::UnsupportedWidth))
    };
    assert(agrees(raw, spec_lua_number_raw(*header, input@, pos as int)));
    with_context(raw, Context::Number)
}

/// Reading an integer of a given width depends on its bytes alone.
pub proof fn lemma_sized_cut(s: Seq<u8>, pos: int, width: u8, e: Endianness, k: int)
    requires
        0 <= pos <= k <= s.len(),
    ensures
        cut_law(
            spec_sized(s, pos, width, e),
            spec_sized(s.take(k), pos, width, e),
            pos,
            k,
            s.len() as int,
        ),
{
    lemma_fixed_cut(s, pos, 8, e, k);
    lemma_byte_cut(s, pos, k);
}

/// Reading an "int" or a "size" depends on its bytes alone.
pub proof fn lemma_lua_int_cut(h: LuaHeader, s: Seq<u8>, pos: int, k: int)
    requires
        0 <= pos <= k <= s.len(),
    ensures
        cut_law(spec_lua_int(h, s, pos), spec_lua_int(h, s.take(k), pos), pos, k, s.len() as int),
        cut_law(
            spec_lua_size_t(h, s, pos),
            spec_lua_size_t(h, s.take(k), pos),
            pos,
            k,
            s.len() as int,
        ),
{
    lemma_sized_cut(s, pos, h.int_size, h.spec_endian(), k);
    lemma_sized_cut(s, pos, h.size_t_size, h.spec_endian(), k);
}

/// Reading a number depends on its bytes alone.
pub proof fn lemma_lua_number_cut(h: LuaHeader, s: Seq<u8>, pos: int, k: int)
    requires
        0 <= pos <= k <= s.len(),
    ensures
        cut_law(
            spec_lua_number(h, s, pos),
            spec_lua_number(h, s.take(k), pos),
            pos,
            k,
            s.len() as int,
        ),
{
    lemma_sized_cut(s, pos, h.number_size, h.spec_endian(), k);
    lemma_fixed_cut(s, pos, 8, h.spec_endian(), k);
}

/// The sign bit of a single is set.
pub open spec fn single_sign(bits: u32) -> bool {
    bits >= 0x8000_0000
}

/// The exponent field of a single.
pub open spec fn single_exponent(bits: u32) -> nat {
    (bits / 0x80_0000 % 0x100) as nat
}

/// The fraction field of a single.
pub open spec fn single_fraction(bits: u32) -> nat {
    (bits % 0x80_0000) as nat
}

/// The magnitude of a finite single, in units of two to the power -149.
pub open spec fn single_magnitude(bits: u32) -> nat {
    if single_exponent(bits) == 0 {
        single_fraction(bits)
    } else {
        (0x80_0000 + single_fraction(bits)) * power_of_two((single_exponent(bits) - 1) as nat)
    }
}

/// The sign bit of a double is set.
pub open spec fn double_sign(bits: u64) -> bool {
    bits >= 0x8000_0000_0000_0000
}

/// The exponent field of a double.
pub open spec fn double_exponent(bits: u64) -> nat {
    (bits / 0x10_0000_0000_0000 % 0x800) as nat
}

/// The fraction field of a double.
pub open spec fn double_fraction(bits: u64) -> nat {
    (bits % 0x10_0000_0000_0000) as nat
}

/// The magnitude of a finite double, in units of two to the power -1074.
pub open spec fn double_magnitude(bits: u64) -> nat {
    if double_exponent(bits) == 0 {
        double_fraction(bits)
    } else {
        (0x10_0000_0000_0000 + double_fraction(bits)) * power_of_two(
            (double_exponent(bits) - 1) as nat,
        )
    }
}

/// The powers of two multiply as their exponents add.
pub proof fn lemma_power_of_two_adds(a: nat, b: nat)
    ensures
        power_of_two(a + b) == power_of_two(a) * power_of_two(b),
        power_of_two(a) > 0,
    decreases a,
{
    if a == 0 {
        assert(power_of_two(0) == 1);
        assert(1 * power_of_two(b) == power_of_two(b));
    } else {
        lemma_power_of_two_adds((a - 1) as nat, b);
        let x = power_of_two((a - 1) as nat);
        let y = power_of_two(b);
        assert(power_of_two(a) == 2 * x);
        assert(power_of_two(a + b) == 2 * power_of_two((a - 1 + b) as nat));
        assert(2 * (x * y) == (2 * x) * y) by (nonlinear_arith);
    }
}

/// What doubling a significand until its leading bit is in place gives: the
/// significand times a power of two, with 24 bits, and the exponent field
/// lowered by the exponent of that power.
pub proof fn lemma_normalized(m: nat, e: int)
    requires
        0 < m < 0x100_0000,
    ensures
        0x80_0000 <= normalized(m, e).0 < 0x100_0000,
        normalized(m, e).1 <= e,
        normalized(m, e).0 == m * power_of_two((e - normalized(m, e).1) as nat),
    decreases
            (if m < 0x80_0000 {
                0x80_0000 - m
            } else {
                0
            }),
{
    if m >= 0x80_0000 {
        assert(power_of_two(0) == 1);
        assert(m * 1 == m);
    } else {
        lemma_normalized(2 * m, e - 1);
        let t = ((e - 1) - normalized(m, e).1) as nat;
        let p = power_of_two(t);
        assert(power_of_two(t + 1) == 2 * p);
        assert((2 * m) * p == m * (2 * p)) by (nonlinear_arith);
    }
}

/// Widening keeps the sign and the value of a finite number.
pub proof fn lemma_widen_keeps_value(bits: u32)
    requires
        single_exponent(bits) != 255,
    ensures
        double_sign(spec_widen(bits)) == single_sign(bits),
        double_exponent(spec_widen(bits)) != 2047,
        double_magnitude(spec_widen(bits)) == single_magnitude(bits) * power_of_two(925),
{
    let sign = (bits / 0x8000_0000) as nat;
    let exp = single_exponent(bits);
    let frac = single_fraction(bits);
    let half = power_of_two(896);
    lemma_power_of_two_adds(29, 896);
    assert(power_of_two(29) == 0x2000_0000) by {
        reveal_with_fuel(power_of_two, 30);
    }
    assert(power_of_two(925) == 0x2000_0000 * half);
    if exp != 0 {
        let low = power_of_two((exp - 1) as nat);
        lemma_power_of_two_adds((exp - 1) as nat, 896);
        let e2 = exp + 896;
        let m2 = frac * 0x2000_0000;
        let w = spec_widen(bits);
        assert(w == sign * 0x8000_0000_0000_0000 + e2 * 0x10_0000_0000_0000 + m2);
        assert(double_exponent(w) == e2);
        assert(double_fraction(w) == m2);
        assert(power_of_two((e2 - 1) as nat) == low * half);
        assert((0x10_0000_0000_0000 + frac * 0x2000_0000) * (low * half) == ((0x80_0000 + frac)
            * low) * (0x2000_0000 * half)) by (nonlinear_arith);
    } else if frac == 0 {
        assert(spec_widen(bits) == sign * 0x8000_0000_0000_0000);
        assert(0 * power_of_two(925) == 0);
    } else {
        lemma_normalized(frac, 897);
        let (m, e) = normalized(frac, 897);
        let t = (897 - e) as nat;
        if t >= 24 {
            lemma_power_of_two_adds(23, (t - 23) as nat);
            lemma_power_of_two_adds((t - 24) as nat, 0);
            lemma_power_of_two_large(23);
            assert(power_of_two((t - 23) as nat) == 2 * power_of_two((t - 24) as nat));
            assert(frac * power_of_two(t) >= 0x100_0000) by (nonlinear_arith)
                requires
                    frac >= 1,
                    power_of_two(t) == power_of_two(23) * power_of_two((t - 23) as nat),
                    power_of_two(23) >= 0x80_0000,
                    power_of_two((t - 23) as nat) >= 2,
            ;
        }
        let m2 = ((m - 0x80_0000) * 0x2000_0000) as nat;
        let w = spec_widen(bits);
        assert(w == sign * 0x8000_0000_0000_0000 + e * 0x10_0000_0000_0000 + m2);
        assert(double_exponent(w) == e);
        assert(double_fraction(w) == m2);
        lemma_power_of_two_adds(t, (896 - t) as nat);
        let up = power_of_two(t);
        let down = power_of_two((896 - t) as nat);
        assert(half == up * down);
        assert((0x10_0000_0000_0000 + (frac * up - 0x80_0000) * 0x2000_0000) * down == frac
            * (0x2000_0000 * (up * down))) by (nonlinear_arith);
    }
}

/// Widening keeps an infinity an infinity with its sign, and makes a NaN a
/// NaN.
pub proof fn lemma_widen_keeps_class(bits: u32)
    requires
        single_exponent(bits) == 255,
    ensures
        double_sign(spec_widen(bits)) == single_sign(bits),
        double_exponent(spec_widen(bits)) == 2047,
        (double_fraction(spec_widen(bits)) == 0) == (single_fraction(bits) == 0),
{
    let sign = (bits / 0x8000_0000) as nat;
    let frac = single_fraction(bits);
    let w = spec_widen(bits);
    if frac == 0 {
        assert(w == sign * 0x8000_0000_0000_0000 + 0x7ff0_0000_0000_0000);
    } else {
        let m2 = 0x8_0000_0000_0000 + (frac % 0x40_0000) * 0x2000_0000;
        assert(w == sign * 0x8000_0000_0000_0000 + 2047 * 0x10_0000_0000_0000 + m2);
    }
}

} // verus!
