use vstd::prelude::*;
use crate::cell::{Cell, CellView};
use crate::ieee::{double_of_decimal, double_of_decimal_exec, INF_BITS, NAN_BITS, SIGN_BIT};
use crate::text::chars_to_string;
use vstd::slice::slice_subrange;

verus! {

/// An ASCII decimal digit.
pub open spec fn is_digit(c: char) -> bool {
    0x30 <= c as u32 && c as u32 <= 0x39
}

/// Numeric value of a digit character.
pub open spec fn digit_val(c: char) -> int {
    c as u32 - 0x30
}

/// Decides `is_digit`.
fn digit_char(c: char) -> (r: bool)
    ensures
        r == is_digit(c),
{
    let u: u32 = c as u32;
    0x30 <= u && u <= 0x39
}

/// End of the run of digits that starts at `i`.
pub open spec fn digits_end(s: Seq<char>, i: int) -> int
    decreases s.len() - i,
{
    if 0 <= i < s.len() && is_digit(s[i]) {
        digits_end(s, i + 1)
    } else {
        i
    }
}

/// The digit run stays within the text, and everything in it is a digit.
proof fn lemma_digits_cover(s: Seq<char>, i: int)
    requires
        0 <= i <= s.len(),
    ensures
        i <= digits_end(s, i) <= s.len(),
        forall|j: int| i <= j < digits_end(s, i) ==> is_digit(s[j]),
    decreases s.len() - i,
{
    if i < s.len() && is_digit(s[i]) {
        lemma_digits_cover(s, i + 1);
    }
}

/// A scan that saw only digits before `k`, and a non-digit or the end at `k`,
/// has found the end of the digit run.
proof fn lemma_digits_end(s: Seq<char>, i: int, k: int)
    requires
        0 <= i <= k <= s.len(),
        forall|j: int| i <= j < k ==> is_digit(s[j]),
        k == s.len() || !is_digit(s[k]),
    ensures
        digits_end(s, i) == k,
    decreases k - i,
{
    if i < k {
        lemma_digits_end(s, i + 1, k);
    }
}

/// End of the run of digits starting at `from`.
fn digits_span(s: &[char], from: usize) -> (e: usize)
    requires
        from <= s@.len(),
    ensures
        e == digits_end(s@, from as int),
        from <= e <= s@.len(),
{
    let n: usize = s.len();
    let mut i: usize = from;
    while i < n && digit_char(s[i])
        invariant
            from <= i <= n == s@.len(),
            forall|j: int| from <= j < i ==> is_digit(s@[j]),
        decreases n - i,
    {
        i = i + 1;
    }
    proof {
        lemma_digits_end(s@, from as int, i as int);
    }
    i
}

/// The token begins with an explicit sign.
pub open spec fn has_sign(s: Seq<char>) -> bool {
    s.len() > 0 && (s[0] == '+' || s[0] == '-')
}

/// The token without its sign, if it carries one.
pub open spec fn unsigned_part(s: Seq<char>) -> Seq<char> {
    if has_sign(s) {
        s.subrange(1, s.len() as int)
    } else {
        s
    }
}

/// The shape a 64-bit signed integer is read from: an optional sign followed
/// by one or more decimal digits and nothing else.
pub open spec fn is_int_token(s: Seq<char>) -> bool {
    let b = unsigned_part(s);
    b.len() > 0 && digits_end(b, 0) == b.len()
}

/// Value of the digit run from `i` on, folded left onto `acc`.
pub open spec fn digits_val_from(s: Seq<char>, i: int, acc: int) -> int
    decreases s.len() - i,
{
    if 0 <= i < s.len() {
        digits_val_from(s, i + 1, acc * 10 + digit_val(s[i]))
    } else {
        acc
    }
}

/// Value of a run of digits.
pub open spec fn digits_val(s: Seq<char>) -> int {
    digits_val_from(s, 0, 0)
}

/// The signed value an integer token denotes.
pub open spec fn int_token_val(s: Seq<char>) -> int {
    if s.len() > 0 && s[0] == '-' {
        -digits_val(unsigned_part(s))
    } else {
        digits_val(unsigned_part(s))
    }
}

/// Folding digits onto a non-negative accumulator never shrinks it.
proof fn lemma_digits_val_lb(s: Seq<char>, i: int, acc: int)
    requires
        0 <= i <= s.len(),
        acc >= 0,
        forall|j: int| i <= j < s.len() ==> is_digit(s[j]),
    ensures
        digits_val_from(s, i, acc) >= acc,
    decreases s.len() - i,
{
    if i < s.len() {
        lemma_digits_val_lb(s, i + 1, acc * 10 + digit_val(s[i]));
    }
}

/// The unsigned decimal grammar of a floating-point number: digits with at
/// most one point, at least one digit in the mantissa, and an optional
/// exponent part with a sign and at least one digit of its own.
pub open spec fn is_number_body(s: Seq<char>) -> bool {
    let i = digits_end(s, 0);
    let dot = i < s.len() && s[i] == '.';
    let m = if dot {
        digits_end(s, i + 1)
    } else {
        i
    };
    let digits_ok = i > 0 || (dot && m > i + 1);
    if !digits_ok {
        false
    } else if m == s.len() {
        true
    } else if s[m] == 'e' || s[m] == 'E' {
        let e = if m + 1 < s.len() && (s[m + 1] == '+' || s[m + 1] == '-') {
            m + 2
        } else {
            m + 1
        };
        e < s.len() && digits_end(s, e) == s.len()
    } else {
        false
    }
}

/// Decides `is_number_body`.
fn check_number_body(b: &[char]) -> (r: bool)
    ensures
        r == is_number_body(b@),
{
    let n: usize = b.len();
    let i: usize = digits_span(b, 0);
    let dot: bool = i < n && b[i] == '.';
    let m: usize = if dot {
        digits_span(b, i + 1)
    } else {
        i
    };
    let digits_ok: bool = i > 0 || (dot && m > i + 1);
    if !digits_ok {
        false
    } else if m == n {
        true
    } else if b[m] == 'e' || b[m] == 'E' {
        let e: usize = if m + 1 < n && (b[m + 1] == '+' || b[m + 1] == '-') {
            m + 2
        } else {
            m + 1
        };
        e < n && digits_span(b, e) == n
    } else {
        false
    }
}

/// Letter case folded to lower case, as a code point.
pub open spec fn lower_u(c: char) -> u32 {
    if 0x41 <= c as u32 && c as u32 <= 0x5A {
        (c as u32 + 0x20) as u32
    } else {
        c as u32
    }
}

/// Computes `lower_u`.
fn lower_u32(c: char) -> (r: u32)
    ensures
        r == lower_u(c),
{
    let u: u32 = c as u32;
    if 0x41 <= u && u <= 0x5A {
        u + 0x20
    } else {
        u
    }
}

/// The word "inf" or "infinity", in any letter case.
pub open spec fn is_inf_body(s: Seq<char>) -> bool {
    ||| (s.len() == 3 && lower_u(s[0]) == 0x69 && lower_u(s[1]) == 0x6E && lower_u(s[2]) == 0x66)
    ||| (s.len() == 8 && lower_u(s[0]) == 0x69 && lower_u(s[1]) == 0x6E && lower_u(s[2]) == 0x66
        && lower_u(s[3]) == 0x69 && lower_u(s[4]) == 0x6E && lower_u(s[5]) == 0x69 && lower_u(
        s[6],
    ) == 0x74 && lower_u(s[7]) == 0x79)
}

/// The word "nan", in any letter case.
pub open spec fn is_nan_body(s: Seq<char>) -> bool {
    s.len() == 3 && lower_u(s[0]) == 0x6E && lower_u(s[1]) == 0x61 && lower_u(s[2]) == 0x6E
}

fn check_inf_body(b: &[char]) -> (r: bool)
    ensures
        r == is_inf_body(b@),
{
    if b.len() == 3 {
        lower_u32(b[0]) == 0x69 && lower_u32(b[1]) == 0x6E && lower_u32(b[2]) == 0x66
    } else if b.len() == 8 {
        lower_u32(b[0]) == 0x69 && lower_u32(b[1]) == 0x6E && lower_u32(b[2]) == 0x66 && lower_u32(
            b[3],
        ) == 0x69 && lower_u32(b[4]) == 0x6E && lower_u32(b[5]) == 0x69 && lower_u32(b[6]) == 0x74
            && lower_u32(b[7]) == 0x79
    } else {
        false
    }
}

fn check_nan_body(b: &[char]) -> (r: bool)
    ensures
        r == is_nan_body(b@),
{
    b.len() == 3 && lower_u32(b[0]) == 0x6E && lower_u32(b[1]) == 0x61 && lower_u32(b[2]) == 0x6E
}

/// The shape a double is read from: an optional sign, then a decimal
/// number, "inf", "infinity" or "nan".
pub open spec fn is_float_token(s: Seq<char>) -> bool {
    let b = unsigned_part(s);
    is_nan_body(b) || is_inf_body(b) || is_number_body(b)
}

/// The bit pattern a floating-point token denotes: the quiet NaN, infinity,
/// or the correctly rounded value of the decimal body, with the written
/// sign placed in the sign bit.
pub open spec fn float_token_bits(s: Seq<char>) -> u64 {
    let b = unsigned_part(s);
    let mag: u64 = if is_nan_body(b) {
        NAN_BITS
    } else if is_inf_body(b) {
        INF_BITS
    } else {
        double_of_decimal(b)
    };
    if s.len() > 0 && s[0] == '-' {
        mag | SIGN_BIT
    } else {
        mag
    }
}

/// What a trimmed token denotes, tried in fixed order: the boolean words,
/// then a 64-bit integer, then a double, then the empty text as the null
/// entry; anything else is kept as text.
pub open spec fn spec_parse_token(t: Seq<char>) -> CellView {
    if t == seq!['t', 'r', 'u', 'e'] {
        CellView::Bool(true)
    } else if t == seq!['f', 'a', 'l', 's', 'e'] {
        CellView::Bool(false)
    } else if is_int_token(t) && i64::MIN <= int_token_val(t) <= i64::MAX {
        CellView::Int(int_token_val(t) as i64)
    } else if is_float_token(t) {
        CellView::Float(float_token_bits(t))
    } else if t.len() == 0 {
        CellView::Null
    } else {
        CellView::Str(t)
    }
}

/// Value of an all-digit run, capped: the cap marks a value beyond the
/// magnitude of any 64-bit signed integer.
fn digits_value(b: &[char]) -> (r: Option<i128>)
    requires
        b@.len() > 0,
        digits_end(b@, 0) == b@.len(),
    ensures
        match r {
            Some(a) => a == digits_val(b@) && 0 <= a <= 0x8000_0000_0000_0000,
            None => digits_val(b@) > 0x8000_0000_0000_0000,
        },
{
    proof {
        lemma_digits_cover(b@, 0);
    }
    let m: usize = b.len();
    let mut i: usize = 0;
    let mut acc: i128 = 0;
    let mut over: bool = false;
    while i < m
        invariant
            0 <= i <= m == b@.len(),
            forall|j: int| 0 <= j < b@.len() ==> is_digit(b@[j]),
            !over ==> digits_val(b@) == digits_val_from(b@, i as int, acc as int),
            !over ==> 0 <= acc <= 0x8000_0000_0000_0000,
            over ==> digits_val(b@) > 0x8000_0000_0000_0000,
        decreases m - i,
    {
        let c: char = b[i];
        let d: u32 = (c as u32) - 0x30;
        if !over {
            let next: i128 = acc * 10 + (d as i128);
            proof {
                assert(digits_val_from(b@, i as int, acc as int) == digits_val_from(
                    b@,
                    i as int + 1,
                    acc as int * 10 + digit_val(b@[i as int]),
                ));
            }
            if next > 0x8000_0000_0000_0000i128 {
                over = true;
                proof {
                    lemma_digits_val_lb(b@, i as int + 1, next as int);
                }
            } else {
                acc = next;
            }
        }
        i = i + 1;
    }
    if over {
        None
    } else {
        Some(acc)
    }
}

/// Reads one trimmed token into a cell, by the fixed inference order of
/// `spec_parse_token`.
pub fn parse_token(v: &[char]) -> (c: Cell)
    ensures
        c@ == spec_parse_token(v@),
{
    let n: usize = v.len();
    if n == 4 && v[0] == 't' && v[1] == 'r' && v[2] == 'u' && v[3] == 'e' {
        proof {
            assert(v@ =~= seq!['t', 'r', 'u', 'e']);
        }
        return Cell::Bool(true);
    }
    if n == 5 && v[0] == 'f' && v[1] == 'a' && v[2] == 'l' && v[3] == 's' && v[4] == 'e' {
        proof {
            assert(v@ =~= seq!['f', 'a', 'l', 's', 'e']);
        }
        return Cell::Bool(false);
    }
    proof {
        assert(v@ != seq!['t', 'r', 'u', 'e']);
        assert(v@ != seq!['f', 'a', 'l', 's', 'e']);
    }
    let sgn: bool = n > 0 && (v[0] == '+' || v[0] == '-');
    let neg: bool = n > 0 && v[0] == '-';
    let b: &[char] = if sgn {
        slice_subrange(v, 1, n)
    } else {
        v
    };
    proof {
        assert(b@ =~= unsigned_part(v@));
    }
    let blen: usize = b.len();
    if blen > 0 && digits_span(b, 0) == blen {
        // an integer-shaped token; it still falls through to the
        // floating-point reading when its value does not fit
        match digits_value(b) {
            Some(a) => {
                if neg {
                    let x: i64 = if a == 0x8000_0000_0000_0000i128 {
                        i64::MIN
                    } else {
                        -(a as i64)
                    };
                    return Cell::Int(x);
                } else {
                    if a <= 0x7fff_ffff_ffff_ffffi128 {
                        return Cell::Int(a as i64);
                    }
                }
            },
            None => {},
        }
    }
    let nanb: bool = check_nan_body(b);
    let infb: bool = check_inf_body(b);
    let numb: bool = check_number_body(b);
    if nanb || infb || numb {
        let mag: u64 = if nanb {
            NAN_BITS
        } else if infb {
            INF_BITS
        } else {
            double_of_decimal_exec(b)
        };
        let bits: u64 = if neg {
            mag | SIGN_BIT
        } else {
            mag
        };
        return Cell::Float(bits);
    }
    if n == 0 {
        return Cell::Null;
    }
    Cell::String(chars_to_string(v))
}

} // verus!
