use vstd::prelude::*;

use crate::error::{Error, ParseErrorKind};
use crate::text::{
    all_digits, digit_value, digits_value, is_digit, lemma_digits_value_nonneg,
    lemma_digits_value_prepend,
};
use vstd::arithmetic::div_mod::{
    lemma_div_denominator, lemma_div_is_ordered_by_denominator, lemma_fundamental_div_mod,
    lemma_fundamental_div_mod_converse_div, lemma_fundamental_div_mod_converse_mod,
    lemma_add_mod_noop, lemma_hoist_over_denominator, lemma_mod_bound, lemma_mod_sub_multiples_vanish,
    lemma_mod_twice, lemma_small_mod, lemma_div_multiples_vanish,
};
use vstd::math::abs;
use vstd::arithmetic::power::{lemma_pow0, lemma_pow1, lemma_pow_adds, lemma_pow_positive, pow};

verus! {

/// A fixed-point number in the 16.16 format: the high 16 bits hold the
/// signed integer part, the low 16 bits the fraction.
#[derive(Debug, Clone, Copy, PartialEq, Eq, Structural, PartialOrd, Ord)]
pub struct Real {
    pub value: i32,
}

/// Reduces `x` to the `i32` that has the same low 32 bits.
pub open spec fn wrap_i32(x: int) -> i32 {
    let m = x % 0x1_0000_0000;
    if m > i32::MAX {
        (m - 0x1_0000_0000) as i32
    } else {
        m as i32
    }
}

/// `x / d` rounded toward zero, as integer division in Rust rounds.
pub open spec fn trunc_div(x: int, d: int) -> int {
    let q = (abs(x) / abs(d)) as int;
    if (x < 0) == (d < 0) {
        q
    } else {
        -q
    }
}

impl Real {
    /// The integer `n` as a real: `n` moved into the integer part, keeping
    /// the low 32 bits.
    pub open spec fn spec_from_int(n: int) -> Real {
        Real { value: wrap_i32(n * 65536) }
    }

    pub open spec fn spec_sum(self, rhs: Real) -> Real {
        Real { value: wrap_i32(self.value + rhs.value) }
    }

    pub open spec fn spec_difference(self, rhs: Real) -> Real {
        Real { value: wrap_i32(self.value - rhs.value) }
    }

    /// The exact product of the raw values is a 32.32 number; it is rounded
    /// down to 16.16 and keeps its low 32 bits.
    pub open spec fn spec_product(self, rhs: Real) -> Real {
        Real { value: wrap_i32((self.value * rhs.value) / 65536) }
    }

    /// The raw dividend is widened to 32.32 and divided by the raw divisor,
    /// rounding toward zero; a zero divisor is an error.
    pub open spec fn spec_quotient(self, rhs: Real) -> core::result::Result<Real, Error> {
        if rhs.value == 0 {
            Err(Error::DivisionByZero)
        } else {
            Ok(Real { value: wrap_i32(trunc_div(self.value * 65536, rhs.value as int)) })
        }
    }
}

proof fn lemma_mul_is_bounded(a: int, b: int)
    requires
        i32::MIN <= a <= i32::MAX,
        i32::MIN <= b <= i32::MAX,
    ensures
        -0x4000_0000_0000_0000 <= a * b <= 0x4000_0000_0000_0000,
{
    assert(-0x4000_0000_0000_0000 <= a * b <= 0x4000_0000_0000_0000) by (nonlinear_arith)
        requires
            -0x8000_0000 <= a <= 0x8000_0000,
            -0x8000_0000 <= b <= 0x8000_0000,
    ;
}

proof fn lemma_trunc_div_bound(a: int, b: int)
    requires
        b != 0,
    ensures
        abs(trunc_div(a, b)) <= abs(a),
{
    lemma_div_is_ordered_by_denominator(abs(a) as int, 1, abs(b) as int);
}

/// `x` rounded down to a multiple of 65536, divided by 65536.
fn floor_div_one(x: i64) -> (r: i64)
    ensures
        r == x / 65536,
{
    let q = x / 65536;
    let rem = x % 65536;
    proof {
        if x >= 0 {
            lemma_fundamental_div_mod(x as int, 65536);
        } else {
            lemma_fundamental_div_mod(-x, 65536);
            lemma_mod_bound(-x, 65536);
            if rem < 0 {
                lemma_fundamental_div_mod_converse_div(x as int, 65536, q - 1, rem + 65536);
            } else {
                lemma_fundamental_div_mod_converse_div(x as int, 65536, q as int, 0);
            }
        }
    }
    if rem < 0 {
        q - 1
    } else {
        q
    }
}

/// The `i32` with the same low 32 bits as `x`.
fn wrap_to_i32(x: i64) -> (r: i32)
    ensures
        r == wrap_i32(x as int),
{
    let t = x % 0x1_0000_0000;
    let m: i64 = if t < 0 {
        t + 0x1_0000_0000
    } else {
        t
    };
    proof {
        if x >= 0 {
            lemma_fundamental_div_mod(x as int, 0x1_0000_0000);
            lemma_mod_bound(x as int, 0x1_0000_0000);
        } else {
            lemma_fundamental_div_mod(-x, 0x1_0000_0000);
            lemma_mod_bound(-x, 0x1_0000_0000);
            let q = (-x) / 0x1_0000_0000;
            if t < 0 {
                lemma_fundamental_div_mod_converse_mod(x as int, 0x1_0000_0000, -q - 1, m as int);
            } else {
                lemma_fundamental_div_mod_converse_mod(x as int, 0x1_0000_0000, -q, 0);
            }
        }
    }
    if m > 2147483647 {
        (m - 0x1_0000_0000) as i32
    } else {
        m as i32
    }
}

impl core::ops::Add for Real {
    type Output = Real;

    /// Adds the raw values; a sum out of range wraps around.
    fn add(self, rhs: Real) -> (r: Real)
        ensures
            r == self.spec_sum(rhs),
    {
        Real { value: self.value.wrapping_add(rhs.value) }
    }
}

impl vstd::std_specs::ops::AddSpecImpl for Real {
    open spec fn obeys_add_spec() -> bool {
        true
    }

    open spec fn add_req(self, rhs: Real) -> bool {
        true
    }

    open spec fn add_spec(self, rhs: Real) -> Real {
        self.spec_sum(rhs)
    }
}

impl core::ops::Sub for Real {
    type Output = Real;

    /// Subtracts the raw values; a difference out of range wraps around.
    fn sub(self, rhs: Real) -> (r: Real)
        ensures
            r == self.spec_difference(rhs),
    {
        Real { value: self.value.wrapping_sub(rhs.value) }
    }
}

impl vstd::std_specs::ops::SubSpecImpl for Real {
    open spec fn obeys_sub_spec() -> bool {
        true
    }

    open spec fn sub_req(self, rhs: Real) -> bool {
        true
    }

    open spec fn sub_spec(self, rhs: Real) -> Real {
        self.spec_difference(rhs)
    }
}

impl core::ops::Mul for Real {
    type Output = Real;

    fn mul(self, rhs: Real) -> (r: Real)
        ensures
            r == self.spec_product(rhs),
    {
        let a = self.value as i64;
        let b = rhs.value as i64;
        proof {
            lemma_mul_is_bounded(a as int, b as int);
        }
        Real { value: wrap_to_i32(floor_div_one(a * b)) }
    }
}

impl vstd::std_specs::ops::MulSpecImpl for Real {
    open spec fn obeys_mul_spec() -> bool {
        true
    }

    open spec fn mul_req(self, rhs: Real) -> bool {
        true
    }

    open spec fn mul_spec(self, rhs: Real) -> Real {
        self.spec_product(rhs)
    }
}

impl core::ops::Div for Real {
    type Output = core::result::Result<Real, Error>;

    fn div(self, rhs: Real) -> (r: core::result::Result<Real, Error>)
        ensures
            r == self.spec_quotient(rhs),
    {
        if rhs.value == 0 {
            return Err(Error::DivisionByZero);
        }
        let a = (self.value as i64) * 65536;
        let b = rhs.value as i64;
        let ua: u64 = if a < 0 {
            (-a) as u64
        } else {
            a as u64
        };
        let ub: u64 = if b < 0 {
            (-b) as u64
        } else {
            b as u64
        };
        let uq = ua / ub;
        proof {
            lemma_trunc_div_bound(a as int, b as int);
        }
        let q: i64 = if (a < 0) == (b < 0) {
            uq as i64
        } else {
            -(uq as i64)
        };
        Ok(Real { value: wrap_to_i32(q) })
    }
}

impl vstd::std_specs::ops::DivSpecImpl for Real {
    open spec fn obeys_div_spec() -> bool {
        true
    }

    open spec fn div_req(self, rhs: Real) -> bool {
        true
    }

    open spec fn div_spec(self, rhs: Real) -> core::result::Result<Real, Error> {
        self.spec_quotient(rhs)
    }
}

impl From<i32> for Real {
    fn from(n: i32) -> (r: Real)
        ensures
            r == Real::spec_from_int(n as int),
    {
        Real { value: n.wrapping_mul(65536) }
    }
}

impl vstd::std_specs::convert::FromSpecImpl<i32> for Real {
    open spec fn obeys_from_spec() -> bool {
        true
    }

    open spec fn from_spec(n: i32) -> Real {
        Real::spec_from_int(n as int)
    }
}

impl Real {
    /// The raw value divided by the integer `n`, rounding toward zero and
    /// keeping the low 32 bits; a zero divisor is an error.
    pub open spec fn spec_quotient_int(self, n: int) -> core::result::Result<Real, Error> {
        if n == 0 {
            Err(Error::DivisionByZero)
        } else {
            Ok(Real { value: wrap_i32(trunc_div(self.value as int, n)) })
        }
    }
}

impl core::ops::Add<i32> for Real {
    type Output = Real;

    /// Adds the integer `rhs`, as `Real::from(rhs)` would be added.
    fn add(self, rhs: i32) -> (r: Real)
        ensures
            r == self.spec_sum(Real::spec_from_int(rhs as int)),
    {
        Real { value: self.value.wrapping_add(rhs.wrapping_mul(65536)) }
    }
}

impl vstd::std_specs::ops::AddSpecImpl<i32> for Real {
    open spec fn obeys_add_spec() -> bool {
        true
    }

    open spec fn add_req(self, rhs: i32) -> bool {
        true
    }

    open spec fn add_spec(self, rhs: i32) -> Real {
        self.spec_sum(Real::spec_from_int(rhs as int))
    }
}

impl core::ops::Sub<i32> for Real {
    type Output = Real;

    /// Subtracts the integer `rhs`, as `Real::from(rhs)` would be subtracted.
    fn sub(self, rhs: i32) -> (r: Real)
        ensures
            r == self.spec_difference(Real::spec_from_int(rhs as int)),
    {
        Real { value: self.value.wrapping_sub(rhs.wrapping_mul(65536)) }
    }
}

impl vstd::std_specs::ops::SubSpecImpl<i32> for Real {
    open spec fn obeys_sub_spec() -> bool {
        true
    }

    open spec fn sub_req(self, rhs: i32) -> bool {
        true
    }

    open spec fn sub_spec(self, rhs: i32) -> Real {
        self.spec_difference(Real::spec_from_int(rhs as int))
    }
}

impl core::ops::Mul<i32> for Real {
    type Output = Real;

    /// Multiplies the raw value by the integer `rhs`, keeping the low 32 bits.
    fn mul(self, rhs: i32) -> (r: Real)
        ensures
            r.value == wrap_i32(self.value * rhs),
    {
        Real { value: self.value.wrapping_mul(rhs) }
    }
}

impl vstd::std_specs::ops::MulSpecImpl<i32> for Real {
    open spec fn obeys_mul_spec() -> bool {
        true
    }

    open spec fn mul_req(self, rhs: i32) -> bool {
        true
    }

    open spec fn mul_spec(self, rhs: i32) -> Real {
        Real { value: wrap_i32(self.value * rhs) }
    }
}

impl core::ops::Div<i32> for Real {
    type Output = core::result::Result<Real, Error>;

    fn div(self, rhs: i32) -> (r: core::result::Result<Real, Error>)
        ensures
            r == self.spec_quotient_int(rhs as int),
    {
        if rhs == 0 {
            return Err(Error::DivisionByZero);
        }
        let a = self.value as i64;
        let b = rhs as i64;
        let ua: u64 = if a < 0 {
            (-a) as u64
        } else {
            a as u64
        };
        let ub: u64 = if b < 0 {
            (-b) as u64
        } else {
            b as u64
        };
        let uq = ua / ub;
        proof {
            lemma_trunc_div_bound(a as int, b as int);
        }
        let q: i64 = if (a < 0) == (b < 0) {
            uq as i64
        } else {
            -(uq as i64)
        };
        Ok(Real { value: wrap_to_i32(q) })
    }
}

impl vstd::std_specs::ops::DivSpecImpl<i32> for Real {
    open spec fn obeys_div_spec() -> bool {
        true
    }

    open spec fn div_req(self, rhs: i32) -> bool {
        true
    }

    open spec fn div_spec(self, rhs: i32) -> core::result::Result<Real, Error> {
        self.spec_quotient_int(rhs as int)
    }
}


/// Index of the first `.` in `s`, or `s.len()` when there is none.
pub open spec fn first_dot(s: Seq<char>) -> int
    decreases s.len(),
{
    if s.len() == 0 {
        0
    } else if s[0] == '.' {
        0
    } else {
        1 + first_dot(s.drop_first())
    }
}

/// An optional sign followed by at least one decimal digit.
pub open spec fn is_int_text(t: Seq<char>) -> bool {
    if t.len() > 0 && (t[0] == '-' || t[0] == '+') {
        t.len() > 1 && all_digits(t.drop_first())
    } else {
        t.len() > 0 && all_digits(t)
    }
}

/// The digits of an integer text, without its sign.
pub open spec fn int_magnitude(t: Seq<char>) -> int {
    if t.len() > 0 && (t[0] == '-' || t[0] == '+') {
        digits_value(t.drop_first())
    } else {
        digits_value(t)
    }
}

/// `0.d1 d2 ... dk`, as a count of 1/65536 steps, rounded down.
pub open spec fn frac_steps(t: Seq<char>) -> int {
    (65536 * digits_value(t)) / pow(10, t.len())
}

/// What `Real::parse` reads from `s`: the raw value when `s` is well formed,
/// whether or not it fits in 32 bits. The fraction is added to a non-negative
/// integer part and subtracted from a negative one; `-0` is zero, so
/// `-0.5` reads as 0.5.
pub open spec fn parsed_raw(s: Seq<char>) -> int {
    let dot = first_dot(s);
    let int_part = s.subrange(0, dot);
    let frac_part = if dot < s.len() { s.subrange(dot + 1, s.len() as int) } else { seq![] };
    let magnitude = int_magnitude(int_part) * 65536 + frac_steps(frac_part);
    if int_part[0] == '-' && int_magnitude(int_part) > 0 { -magnitude } else { magnitude }
}

/// `s` has digits before its first dot, at most a sign besides them,
/// and only digits after that dot.
pub open spec fn well_formed_real(s: Seq<char>) -> bool {
    let dot = first_dot(s);
    &&& is_int_text(s.subrange(0, dot))
    &&& dot < s.len() ==> all_digits(s.subrange(dot + 1, s.len() as int))
}

pub open spec fn parse_spec(s: Seq<char>) -> Result<Real, ParseErrorKind> {
    if !well_formed_real(s) {
        Err(ParseErrorKind::BadRealLiteral)
    } else if parsed_raw(s) < i32::MIN || parsed_raw(s) > i32::MAX {
        Err(ParseErrorKind::LargeInt)
    } else {
        Ok(Real { value: parsed_raw(s) as i32 })
    }
}


/// The fraction steps of a digit string, read from its last digit back:
/// each digit is shifted in from the left and the sum divided by ten.
proof fn lemma_frac_steps_prepend(t: Seq<char>)
    requires
        t.len() > 0,
        all_digits(t),
    ensures
        frac_steps(t) == (digit_value(t[0]) * 65536 + frac_steps(t.drop_first())) / 10,
{
    let n = (t.len() - 1) as nat;
    let p = pow(10, n);
    let d = digit_value(t[0]);
    let u = t.drop_first();
    let v = digits_value(u);
    assert(is_digit(t[0]));
    assert(all_digits(u));
    lemma_digits_value_prepend(t);
    lemma_digits_value_nonneg(u);
    lemma_pow_positive(10, n);
    lemma_pow_adds(10, n, 1);
    lemma_pow1(10);
    assert(pow(10, t.len()) == p * 10);
    let x = 65536 * digits_value(t);
    assert(x == (65536 * d) * p + 65536 * v) by (nonlinear_arith)
        requires
            digits_value(t) == d * p + v,
            x == 65536 * digits_value(t),
    ;
    assert(0 <= x) by (nonlinear_arith)
        requires
            x == (65536 * d) * p + 65536 * v,
            0 <= d,
            0 < p,
            0 <= v,
    ;
    lemma_div_denominator(x, p, 10);
    lemma_hoist_over_denominator(65536 * v, 65536 * d, p as nat);
}


proof fn lemma_first_dot(s: Seq<char>, k: int)
    requires
        0 <= k <= s.len(),
        forall|j: int| 0 <= j < k ==> s[j] != '.',
        k == s.len() || s[k] == '.',
    ensures
        first_dot(s) == k,
    decreases s.len(),
{
    if s.len() > 0 && k > 0 {
        assert(s[0] != '.');
        lemma_first_dot(s.drop_first(), k - 1);
    }
}

/// Reads `chars[lo..hi]` as a real literal.
#[verifier::loop_isolation(false)]
pub(crate) fn parse_chars(chars: &Vec<char>, lo: usize, hi: usize) -> (r: Result<
    Real,
    ParseErrorKind,
>)
    requires
        lo <= hi <= chars.len(),
    ensures
        r == parse_spec(chars@.subrange(lo as int, hi as int)),
{
    let ghost s = chars@.subrange(lo as int, hi as int);
    let mut dot = lo;
    while dot < hi && chars[dot] != '.'
        invariant
            lo <= dot <= hi <= chars.len(),
            forall|j: int| lo <= j < dot ==> chars@[j] != '.',
        decreases hi - dot,
    {
        dot = dot + 1;
    }
    proof {
        lemma_first_dot(s, dot - lo);
    }
    let ghost int_part = s.subrange(0, dot - lo);
    let ghost frac_part = if dot < hi {
        s.subrange(dot - lo + 1, s.len() as int)
    } else {
        seq![]
    };
    assert(dot < hi ==> frac_part =~= chars@.subrange(dot + 1, hi as int));
    if dot == lo {
        return Err(ParseErrorKind::BadRealLiteral);
    }
    // The sign, if any.

    let mut k = lo;
    if chars[lo] == '-' || chars[lo] == '+' {
        k = lo + 1;
    }
    assert(int_part[0] == chars@[lo as int]);
    let ghost digits = chars@.subrange(k as int, dot as int);
    assert(digits =~= if k > lo {
        int_part.drop_first()
    } else {
        int_part
    });
    if k == dot {
        return Err(ParseErrorKind::BadRealLiteral);
    }
    // The integer part, held exactly up to 32768 and above that only known to be larger.

    let mut m: u32 = 0;
    let mut i = k;
    while i < dot
        invariant
            lo <= k <= i <= dot <= hi <= chars.len(),
            digits == chars@.subrange(k as int, dot as int),
            all_digits(chars@.subrange(k as int, i as int)),
            m <= 327689,
            digits_value(chars@.subrange(k as int, i as int)) <= 32768 ==> m == digits_value(
                chars@.subrange(k as int, i as int),
            ),
            digits_value(chars@.subrange(k as int, i as int)) > 32768 ==> m > 32768,
        decreases dot - i,
    {
        let c = chars[i];
        if !('0' <= c && c <= '9') {
            assert(!is_digit(digits[i - k as int]));
            return Err(ParseErrorKind::BadRealLiteral);
        }
        let ghost prev = chars@.subrange(k as int, i as int);
        let d = (c as u32) - ('0' as u32);
        proof {
            lemma_digits_value_nonneg(prev);
        }
        if m <= 32768 {
            m = m * 10 + d;
        }
        i = i + 1;
        assert(chars@.subrange(k as int, i as int).drop_last() =~= prev);
        assert(all_digits(chars@.subrange(k as int, i as int)));
    }
    assert(digits =~= chars@.subrange(k as int, i as int));
    // The fraction, read from its last digit back.
    let mut y: u32 = 0;
    if dot < hi {
        let mut j = hi;
        assert(frac_steps(chars@.subrange(j as int, hi as int)) == 0) by {
            assert(chars@.subrange(j as int, hi as int) =~= seq![]);
            assert(digits_value(seq![]) == 0);
            lemma_pow0(10);
        }
        while j > dot + 1
            invariant
                dot + 1 <= j <= hi <= chars.len(),
                lo < dot,
                frac_part == chars@.subrange(dot + 1, hi as int),
                y < 65536,
                all_digits(chars@.subrange(j as int, hi as int)),
                y == frac_steps(chars@.subrange(j as int, hi as int)),
            decreases j,
        {
            let c = chars[j - 1];
            if !('0' <= c && c <= '9') {
                assert(!is_digit(frac_part[j - 1 - (dot + 1)]));
                return Err(ParseErrorKind::BadRealLiteral);
            }
            let ghost t = chars@.subrange(j - 1, hi as int);
            assert(t.drop_first() =~= chars@.subrange(j as int, hi as int));
            assert forall|x: int| 0 <= x < t.len() implies #[trigger] is_digit(t[x]) by {
                if x > 0 {
                    assert(t[x] == t.drop_first()[x - 1]);
                }
            }
            proof {
                lemma_frac_steps_prepend(t);
            }
            let d = (c as u32) - ('0' as u32);
            y = (d * 65536 + y) / 10;
            j = j - 1;
        }
        assert(frac_part =~= chars@.subrange(j as int, hi as int));
    } else {
        assert(frac_steps(frac_part) == 0) by {
            assert(digits_value(seq![]) == 0);
            lemma_pow0(10);
        }
    }
    assert(well_formed_real(s));
    if m > 32768 {
        return Err(ParseErrorKind::LargeInt);
    }
    let magnitude: i64 = (m as i64) * 65536 + (y as i64);
    let negative = chars[lo] == '-' && m > 0;
    let value: i64 = if negative {
        -magnitude
    } else {
        magnitude
    };
    if value < -2147483648 || value > 2147483647 {
        return Err(ParseErrorKind::LargeInt);
    }
    Ok(Real { value: value as i32 })
}

impl Real {
    /// Reads a decimal literal: an optional sign and digits, then
    /// optionally a dot and more digits. The fraction is rounded down to a
    /// step of 1/65536, then added to a non-negative integer part and subtracted
    /// from a negative one. Malformed text is
    /// `BadRealLiteral`; a value outside the 16.16 range is `LargeInt`.
    pub fn parse(input: &str) -> (r: Result<Real, ParseErrorKind>)
        ensures
            r == parse_spec(input@),
    {
        let chars = crate::text::chars_of(input);
        assert(chars@.subrange(0, chars.len() as int) =~= input@);
        parse_chars(&chars, 0, chars.len())
    }
}


impl Real {
    /// The real whose raw 16.16 representation is `bits`.
    pub fn from_bits(bits: i32) -> (r: Real)
        ensures
            r.value == bits,
    {
        Real { value: bits }
    }

    /// The raw 16.16 representation.
    pub fn to_bits(self) -> (r: i32)
        ensures
            r == self.value,
    {
        self.value
    }

    /// The integer part, rounded down: the high 16 bits.
    pub fn to_int(self) -> (r: i32)
        ensures
            r == self.value / 65536,
    {
        floor_div_one(self.value as i64) as i32
    }
}

/// `wrap_i32` depends on its argument modulo 2^32 only.
proof fn lemma_wrap_mod(x: int)
    ensures
        wrap_i32(x) as int % 0x1_0000_0000 == x % 0x1_0000_0000,
        x % 0x1_0000_0000 == (wrap_i32(x) as int) % 0x1_0000_0000,
        i32::MIN <= x <= i32::MAX ==> wrap_i32(x) == x,
{
    let m = x % 0x1_0000_0000;
    lemma_mod_bound(x, 0x1_0000_0000);
    if m > i32::MAX {
        lemma_mod_sub_multiples_vanish(m, 0x1_0000_0000);
        lemma_mod_twice(x, 0x1_0000_0000);
    } else {
        lemma_mod_twice(x, 0x1_0000_0000);
    }
    if i32::MIN <= x <= i32::MAX {
        if x >= 0 {
            lemma_small_mod(x as nat, 0x1_0000_0000);
        } else {
            lemma_fundamental_div_mod_converse_mod(x, 0x1_0000_0000, -1, x + 0x1_0000_0000);
        }
    }
}

proof fn lemma_wrap_same_mod(x: int, y: int)
    requires
        x % 0x1_0000_0000 == y % 0x1_0000_0000,
    ensures
        wrap_i32(x) == wrap_i32(y),
{
}

/// Adding two integers as reals gives their sum as a real, and when the
/// sum lies in [-32768, 32767] nothing is lost to wrapping.
pub proof fn lemma_from_int_add(a: i32, b: i32)
    ensures
        Real::spec_from_int(a as int).spec_sum(Real::spec_from_int(b as int))
            == Real::spec_from_int(a + b),
        -32768 <= a + b <= 32767 ==> Real::spec_from_int(a + b).value == (a + b) * 65536,
{
    let x = a * 65536;
    let y = b * 65536;
    lemma_wrap_mod(x);
    lemma_wrap_mod(y);
    lemma_add_mod_noop(wrap_i32(x) as int, wrap_i32(y) as int, 0x1_0000_0000);
    lemma_add_mod_noop(x, y, 0x1_0000_0000);
    assert((a + b) * 65536 == x + y) by (nonlinear_arith)
        requires
            x == a * 65536,
            y == b * 65536,
    ;
    lemma_wrap_same_mod(wrap_i32(x) + wrap_i32(y), x + y);
    lemma_wrap_mod((a + b) * 65536);
}


/// Text of the form `-?[0-9]+`.
pub open spec fn is_decimal_integer(s: Seq<char>) -> bool {
    if s.len() > 0 && s[0] == '-' {
        s.len() > 1 && all_digits(s.drop_first())
    } else {
        s.len() > 0 && all_digits(s)
    }
}

/// The signed value of a text of the form `-?[0-9]+`.
pub open spec fn decimal_integer_value(s: Seq<char>) -> int {
    if s.len() > 0 && s[0] == '-' {
        -digits_value(s.drop_first())
    } else {
        digits_value(s)
    }
}

/// An integer literal in the range of the integer part reads as a real
/// whose integer part is that integer, with no fraction.
pub proof fn lemma_parse_integer_text(s: Seq<char>)
    requires
        is_decimal_integer(s),
        -32768 <= decimal_integer_value(s) <= 32767,
    ensures
        parse_spec(s) == Ok::<Real, ParseErrorKind>(
            Real::spec_from_int(decimal_integer_value(s)),
        ),
        parse_spec(s)->Ok_0.value / 65536 == decimal_integer_value(s),
{
    let n = decimal_integer_value(s);
    assert forall|j: int| 0 <= j < s.len() implies s[j] != '.' by {
        if s[0] == '-' {
            if j > 0 {
                assert(is_digit(s.drop_first()[j - 1]));
            }
        } else {
            assert(is_digit(s[j]));
        }
    }
    lemma_first_dot(s, s.len() as int);
    assert(s.subrange(0, s.len() as int) =~= s);
    assert(frac_steps(seq![]) == 0) by {
        assert(digits_value(seq![]) == 0);
        lemma_pow0(10);
    }
    if s[0] != '-' {
        assert(is_digit(s[0]));
        lemma_digits_value_nonneg(s);
    } else {
        lemma_digits_value_nonneg(s.drop_first());
    }
    assert(int_magnitude(s) * 65536 + frac_steps(seq![]) == int_magnitude(s) * 65536);
    assert(parsed_raw(s) == n * 65536);
    lemma_wrap_mod(n * 65536);
    assert(n * 65536 / 65536 == n) by {
        lemma_div_multiples_vanish(n, 65536);
    }
}


/// When `|b| >= 1` and the product `a * b` fits, dividing the product by
/// `b` gives back `a` up to one step of 1/65536.
pub proof fn lemma_mul_div_round_trip(a: Real, b: Real)
    requires
        b.value <= -65536 || 65536 <= b.value,
        i32::MIN <= (a.value * b.value) / 65536 <= i32::MAX,
    ensures
        a.spec_product(b).spec_quotient(b) is Ok,
        -1 <= a.spec_product(b).spec_quotient(b)->Ok_0.value - a.value <= 1,
{
    let x = a.value as int;
    let y = b.value as int;
    let p = (x * y) / 65536;
    lemma_wrap_mod(p);
    assert(a.spec_product(b).value == p);
    lemma_fundamental_div_mod(x * y, 65536);
    lemma_mod_bound(x * y, 65536);
    let r = (x * y) % 65536;
    let n = p * 65536;
    assert(n == x * y - r);
    let q = trunc_div(n, y);
    if y > 0 {
        if n >= 0 {
            let q0 = n / y;
            lemma_fundamental_div_mod(n, y);
            lemma_mod_bound(n, y);
            let r0 = n % y;
            assert(x - 1 <= q0 <= x) by (nonlinear_arith)
                requires
                    n == y * q0 + r0,
                    0 <= r0 < y,
                    n == x * y - r,
                    0 <= r < 65536 <= y,
            ;
            assert(q == q0);
        } else {
            assert(-n == (-x) * y + r) by (nonlinear_arith)
                requires
                    n == x * y - r,
            ;
            lemma_fundamental_div_mod_converse_div(-n, y, -x, r);
            assert(q == x);
        }
    } else {
        let c = -y;
        if n < 0 {
            assert(-n == x * c + r) by (nonlinear_arith)
                requires
                    n == x * y - r,
                    c == -y,
            ;
            lemma_fundamental_div_mod_converse_div(-n, c, x, r);
            assert(q == x);
        } else {
            let q0 = n / c;
            lemma_fundamental_div_mod(n, c);
            lemma_mod_bound(n, c);
            let r0 = n % c;
            assert(n == -x * c - r) by (nonlinear_arith)
                requires
                    n == x * y - r,
                    c == -y,
            ;
            assert(-x - 1 <= q0 <= -x) by (nonlinear_arith)
                requires
                    n == c * q0 + r0,
                    0 <= r0 < c,
                    n == -x * c - r,
                    0 <= r < 65536 <= c,
            ;
            assert(q == -q0);
        }
    }
    assert(i32::MIN <= q <= i32::MAX) by {
        if q < i32::MIN || q > i32::MAX {
            assert(x * y < 0 ==> n < 0);
            assert(x * y > 0 ==> n >= 0) by {
                assert(x * y >= 65536 ==> n >= 0);
            }
        }
    }
    lemma_wrap_mod(q);
}

} // verus!
