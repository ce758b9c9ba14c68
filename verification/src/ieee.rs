use vstd::prelude::*;
use rustc_apfloat::Float;
use rustc_apfloat::ieee::Double;

verus! {

/// Sign bit of an IEEE-754 double bit pattern.
pub const SIGN_BIT: u64 = 0x8000_0000_0000_0000;

/// Magnitude of a pattern: everything but the sign bit.
pub const ABS_MASK: u64 = 0x7fff_ffff_ffff_ffff;

/// Pattern of positive infinity; any larger magnitude encodes a NaN.
pub const INF_BITS: u64 = 0x7ff0_0000_0000_0000;

/// Pattern of the canonical quiet NaN.
pub const NAN_BITS: u64 = 0x7ff8_0000_0000_0000;

/// The pattern encodes a NaN: infinite exponent with a non-zero mantissa.
pub open spec fn double_is_nan(b: u64) -> bool {
    (b & ABS_MASK) > INF_BITS
}

/// IEEE-754 `<` on double bit patterns: false whenever either side is a NaN,
/// the two zeros are equal, and otherwise the order is sign-magnitude.
pub open spec fn double_lt(a: u64, b: u64) -> bool {
    if double_is_nan(a) || double_is_nan(b) {
        false
    } else {
        let am = a & ABS_MASK;
        let bm = b & ABS_MASK;
        let an = (a & SIGN_BIT) != 0;
        let bn = (b & SIGN_BIT) != 0;
        if an && bn {
            bm < am
        } else if !an && !bn {
            am < bm
        } else if an {
            !(am == 0 && bm == 0)
        } else {
            false
        }
    }
}

/// Decides IEEE-754 `<` on two double bit patterns.
pub fn double_lt_exec(a: u64, b: u64) -> (r: bool)
    ensures
        r == double_lt(a, b),
{
    let am = a & ABS_MASK;
    let bm = b & ABS_MASK;
    if am > INF_BITS || bm > INF_BITS {
        return false;
    }
    let an = (a & SIGN_BIT) != 0;
    let bn = (b & SIGN_BIT) != 0;
    if an && bn {
        bm < am
    } else if !an && !bn {
        am < bm
    } else if an {
        !(am == 0 && bm == 0)
    } else {
        false
    }
}

/// The double whose pattern is `r` is the IEEE-754 sum of the doubles whose
/// patterns are `a` and `b`, rounded to nearest, ties to even.
pub uninterp spec fn double_add(a: u64, b: u64) -> u64;

/// The IEEE-754 difference of the doubles behind `a` and `b`.
pub uninterp spec fn double_sub(a: u64, b: u64) -> u64;

/// The IEEE-754 product of the doubles behind `a` and `b`.
pub uninterp spec fn double_mul(a: u64, b: u64) -> u64;

/// The IEEE-754 quotient of the doubles behind `a` and `b`.
pub uninterp spec fn double_div(a: u64, b: u64) -> u64;

/// The double nearest to the signed integer `x` (ties to even).
pub uninterp spec fn double_of_i64(x: i64) -> u64;

/// The double nearest to the unsigned integer `x` (ties to even).
pub uninterp spec fn double_of_u64(x: u64) -> u64;

/// Relies on rustc_apfloat's `Add` for `ieee::Double`: software IEEE-754
/// double addition, round to nearest even, exchanged as raw bit patterns.
#[verifier::external_body]
pub(crate) fn double_add_exec(a: u64, b: u64) -> (r: u64)
    ensures
        r == double_add(a, b),
{
    let x = Double::from_bits(a as u128);
    let y = Double::from_bits(b as u128);
    (x + y).value.to_bits() as u64
}

/// Relies on rustc_apfloat's `Sub` for `ieee::Double`: software IEEE-754
/// double subtraction, round to nearest even, on raw bit patterns.
#[verifier::external_body]
pub(crate) fn double_sub_exec(a: u64, b: u64) -> (r: u64)
    ensures
        r == double_sub(a, b),
{
    let x = Double::from_bits(a as u128);
    let y = Double::from_bits(b as u128);
    (x - y).value.to_bits() as u64
}

/// Relies on rustc_apfloat's `Mul` for `ieee::Double`: software IEEE-754
/// double multiplication, round to nearest even, on raw bit patterns.
#[verifier::external_body]
pub(crate) fn double_mul_exec(a: u64, b: u64) -> (r: u64)
    ensures
        r == double_mul(a, b),
{
    let x = Double::from_bits(a as u128);
    let y = Double::from_bits(b as u128);
    (x * y).value.to_bits() as u64
}

/// Relies on rustc_apfloat's `Div` for `ieee::Double`: software IEEE-754
/// double division, round to nearest even, on raw bit patterns.
#[verifier::external_body]
pub(crate) fn double_div_exec(a: u64, b: u64) -> (r: u64)
    ensures
        r == double_div(a, b),
{
    let x = Double::from_bits(a as u128);
    let y = Double::from_bits(b as u128);
    (x / y).value.to_bits() as u64
}

/// Relies on rustc_apfloat's `Float::from_i128` for `ieee::Double`: the
/// conversion of a signed integer to the nearest double, ties to even.
#[verifier::external_body]
pub(crate) fn double_of_i64_exec(x: i64) -> (r: u64)
    ensures
        r == double_of_i64(x),
{
    Double::from_i128(x as i128).value.to_bits() as u64
}

/// Relies on rustc_apfloat's `Float::from_u128` for `ieee::Double`: the
/// conversion of an unsigned integer to the nearest double, ties to even.
#[verifier::external_body]
pub(crate) fn double_of_u64_exec(x: u64) -> (r: u64)
    ensures
        r == double_of_u64(x),
{
    Double::from_u128(x as u128).value.to_bits() as u64
}

/// The decimal text that the software-float library prints for the double
/// behind `bits`: enough digits to round-trip to the same value.
pub uninterp spec fn double_text_of(bits: u64) -> Seq<char>;

/// Relies on rustc_apfloat's `Display` for `ieee::Double`: a decimal text
/// with enough significant digits to read the same double back.
#[verifier::external_body]
pub(crate) fn double_text_exec(bits: u64) -> (r: String)
    ensures
        r@ == double_text_of(bits),
{
    format!("{}", Double::from_bits(bits as u128))
}

/// A decimal-shaped token names this double: the correctly rounded value
/// that rustc_apfloat's `FromStr` for `ieee::Double` reads from it.
pub uninterp spec fn double_of_decimal(t: Seq<char>) -> u64;

/// Relies on rustc_apfloat's `FromStr` for `ieee::Double`: correctly rounded
/// decimal-to-double conversion, round to nearest even, handed back as a raw
/// bit pattern. The caller keeps the text within the unsigned decimal
/// grammar, on which that parser succeeds.
#[verifier::external_body]
pub(crate) fn double_of_decimal_exec(v: &[char]) -> (r: u64)
    requires
        crate::token::is_number_body(v@),
    ensures
        r == double_of_decimal(v@),
{
    let s: String = v.iter().collect();
    match s.parse::<Double>() {
        Ok(d) => d.to_bits() as u64,
        Err(_) => 0,
    }
}

} // verus!
