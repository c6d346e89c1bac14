use vstd::prelude::*;
use vstd::arithmetic::div_mod::*;
use vstd::arithmetic::mul::*;

use crate::error::{ErrorKind, MediaError, Result};

verus! {

/// Greatest common divisor by Euclid's algorithm (`spec_gcd(0, 0) == 0`).
pub open spec fn spec_gcd(a: nat, b: nat) -> nat
    decreases b,
{
    if b == 0 {
        a
    } else {
        spec_gcd(b, a % b)
    }
}

/// The divisor used for normalisation: the gcd, but never below one.
pub open spec fn norm_gcd(a: nat, b: nat) -> nat {
    let g = spec_gcd(a, b);
    if g == 0 {
        1
    } else {
        g
    }
}

pub open spec fn abs_int(v: int) -> nat {
    if v < 0 {
        (-v) as nat
    } else {
        v as nat
    }
}

/// The sign-normalised, gcd-reduced form of `num / den` (for `den != 0`):
/// the denominator is positive and both parts are divided by their gcd.
pub open spec fn spec_normalize(num: int, den: int) -> (int, int) {
    let n = if den < 0 { -num } else { num };
    let d = abs_int(den);
    let g = norm_gcd(abs_int(n), d);
    let q = (abs_int(n) / g) as int;
    (if n < 0 { -q } else { q }, (d / g) as int)
}

pub open spec fn fits_i64(v: int) -> bool {
    i64::MIN <= v <= i64::MAX
}

pub open spec fn fits_i128(v: int) -> bool {
    i128::MIN <= v <= i128::MAX
}

/// A rational number `num / den` kept in normalised form.
#[derive(Debug, Clone, Copy, PartialEq, Eq, Hash)]
pub struct Rational {
    num: i64,
    den: i64,
}

impl View for Rational {
    type V = (int, int);

    closed spec fn view(&self) -> (int, int) {
        (self.num as int, self.den as int)
    }
}

impl Rational {
    /// Every value of the type has a positive denominator.
    #[verifier::type_invariant]
    closed spec fn positive_den(self) -> bool {
        self.den > 0
    }

    pub fn zero() -> (r: Self)
        ensures
            r@ == (0int, 1int),
    {
        Rational { num: 0, den: 1 }
    }

    pub fn one() -> (r: Self)
        ensures
            r@ == (1int, 1int),
    {
        Rational { num: 1, den: 1 }
    }

    pub fn millisecond() -> (r: Self)
        ensures
            r@ == (1int, 1000int),
    {
        Rational { num: 1, den: 1000 }
    }

    pub fn microsecond() -> (r: Self)
        ensures
            r@ == (1int, 1000000int),
    {
        Rational { num: 1, den: 1_000_000 }
    }

    /// Builds the normalised rational `num / den`.
    pub fn new(num: i64, den: i64) -> (r: Result<Self>)
        ensures
            match r {
                Ok(q) => den != 0 && q@ == spec_normalize(num as int, den as int),
                Err(e) => {
                    ||| den == 0 && e@ == ErrorKind::InvalidArgument
                    ||| den != 0 && e@ == ErrorKind::Overflow && !(fits_i64(
                        spec_normalize(num as int, den as int).0,
                    ) && fits_i64(spec_normalize(num as int, den as int).1))
                },
            },
    {
        if den == 0 {
            return Err(MediaError::invalid_argument("rational denominator must not be zero"));
        }
        let mut n = num as i128;
        let mut d = den as i128;
        if d < 0 {
            n = -n;
            d = -d;
        }
        let an = abs_i128(n);
        let ad = d as u128;
        let g = gcd_u128(an, ad);
        let qn = an / g;
        let qd = ad / g;
        assert(qn <= an) by {
            lemma_div_is_ordered_by_denominator(an as int, 1, g as int);
        }
        assert(qd <= ad) by {
            lemma_div_is_ordered_by_denominator(ad as int, 1, g as int);
        }
        let signed_n: i128 = if n < 0 {
            -(qn as i128)
        } else {
            qn as i128
        };
        let signed_d = qd as i128;
        if signed_n < i64::MIN as i128 || signed_n > i64::MAX as i128 {
            return Err(MediaError::overflow("normalized rational numerator exceeds i64"));
        }
        if signed_d > i64::MAX as i128 {
            return Err(MediaError::overflow("normalized rational denominator exceeds i64"));
        }
        assert(signed_d > 0) by {
            lemma_gcd_le_nonzero(an as nat, ad as nat);
            lemma_div_non_zero_when_le(ad as int, g as int);
        }
        Ok(Rational { num: signed_n as i64, den: signed_d as i64 })
    }

    pub fn numerator(self) -> (n: i64)
        ensures
            n == self@.0,
    {
        self.num
    }

    pub fn denominator(self) -> (d: i64)
        ensures
            d == self@.1,
            d > 0,
    {
        proof {
            use_type_invariant(&self);
        }
        self.den
    }

    /// `den / num`, normalised.
    pub fn reciprocal(self) -> (r: Result<Self>)
        ensures
            match r {
                Ok(q) => self@.0 != 0 && q@ == spec_normalize(self@.1, self@.0),
                Err(e) => {
                    ||| self@.0 == 0 && e@ == ErrorKind::InvalidArgument
                    ||| self@.0 != 0 && e@ == ErrorKind::Overflow && !(fits_i64(
                        spec_normalize(self@.1, self@.0).0,
                    ) && fits_i64(spec_normalize(self@.1, self@.0).1))
                },
            },
    {
        Self::new(self.den, self.num)
    }
}

/// Reduction by the gcd keeps the value: `q.0 * den == num * q.1`, and the
/// new denominator is positive.
pub proof fn lemma_normalize_preserves_value(num: int, den: int)
    requires
        den != 0,
    ensures
        spec_normalize(num, den).1 > 0,
        spec_normalize(num, den).0 * den == num * spec_normalize(num, den).1,
{
    let n = if den < 0 { -num } else { num };
    let d = abs_int(den);
    let an = abs_int(n);
    let g = norm_gcd(an, d);
    lemma_gcd_le_nonzero(an, d);
    lemma_gcd_divides(an, d);
    let qn = an / g;
    let qd = d / g;
    lemma_fundamental_div_mod(an as int, g as int);
    lemma_fundamental_div_mod(d as int, g as int);
    assert(an == g * qn);
    assert(d == g * qd);
    lemma_div_non_zero_when_le(d as int, g as int);
    // qn * d == g * qn * qd == an * qd
    assert(qn * d == an * qd) by {
        lemma_mul_is_associative(qn as int, g as int, qd as int);
        lemma_mul_is_associative(g as int, qn as int, qd as int);
        lemma_mul_is_commutative(qn as int, g as int);
    }
    let sn: int = if n < 0 { -(qn as int) } else { qn as int };
    assert(sn * (d as int) == n * (qd as int)) by {
        if n < 0 {
            lemma_mul_unary_negation(qn as int, d as int);
            lemma_mul_unary_negation(an as int, qd as int);
        }
    }
    if den < 0 {
        assert(sn * den == num * qd) by {
            lemma_mul_unary_negation(sn, d as int);
            lemma_mul_unary_negation(num, qd as int);
            lemma_mul_is_commutative(sn, -(d as int));
        }
    }
}

/// Normalising a non-negative numerator over a positive denominator keeps
/// both parts within `i64`, the denominator positive.
pub proof fn lemma_normalize_fits(num: int, den: int)
    requires
        0 <= num <= i64::MAX,
        0 < den <= i64::MAX,
    ensures
        fits_i64(spec_normalize(num, den).0),
        fits_i64(spec_normalize(num, den).1),
        spec_normalize(num, den).0 >= 0,
        spec_normalize(num, den).1 > 0,
{
    lemma_gcd_le_nonzero(num as nat, den as nat);
    let g = norm_gcd(num as nat, den as nat);
    lemma_div_is_ordered_by_denominator(num, 1, g as int);
    lemma_div_is_ordered_by_denominator(den, 1, g as int);
    lemma_div_non_zero_when_le(den, g as int);
}

proof fn lemma_div_non_zero_when_le(x: int, g: int)
    requires
        0 < g <= x,
    ensures
        x / g > 0,
{
    lemma_div_is_ordered(g, x, g);
    lemma_div_basics(g);
}

/// The gcd of two naturals, not both zero, is positive and at most the larger one.
proof fn lemma_gcd_le_nonzero(a: nat, b: nat)
    ensures
        (a != 0 || b != 0) ==> spec_gcd(a, b) > 0,
        a != 0 ==> spec_gcd(a, b) <= a || b > a,
        b != 0 ==> norm_gcd(a, b) <= b,
        a != 0 ==> norm_gcd(a, b) <= a,
        norm_gcd(a, b) >= 1,
    decreases b,
{
    if b != 0 {
        lemma_mod_in_range(a as int, b as int);
        lemma_gcd_le_nonzero(b, a % b);
        lemma_gcd_divides(a, b);
        if a != 0 {
            lemma_divisor_le(a, spec_gcd(a, b));
        }
        lemma_divisor_le(b, spec_gcd(a, b));
    }
}

proof fn lemma_mod_in_range(a: int, b: int)
    requires
        b > 0,
        a >= 0,
    ensures
        0 <= a % b < b,
{
    lemma_mod_pos_bound(a, b);
}

/// A positive divisor of a positive number is at most that number.
proof fn lemma_divisor_le(x: nat, g: nat)
    requires
        x > 0,
        g > 0,
        x % g == 0,
    ensures
        g <= x,
{
    lemma_fundamental_div_mod(x as int, g as int);
    if x / g == 0 {
        assert(x == g * 0);
        lemma_mul_basics(g as int);
    } else {
        lemma_div_pos_is_pos(x as int, g as int);
        lemma_mul_increases(x as int / g as int, g as int);
        lemma_mul_is_commutative(x as int / g as int, g as int);
    }
}

/// The Euclidean gcd divides both of its arguments.
proof fn lemma_gcd_divides(a: nat, b: nat)
    ensures
        a % norm_gcd(a, b) == 0,
        b % norm_gcd(a, b) == 0,
    decreases b,
{
    if b == 0 {
        if a == 0 {
            lemma_small_mod(0, 1);
        } else {
            lemma_mod_self_0(a as int);
        }
        lemma_small_mod(0, norm_gcd(a, b));
    } else {
        let r = a % b;
        lemma_mod_in_range(a as int, b as int);
        lemma_gcd_divides(b, r);
        let g = norm_gcd(a, b);
        assert(g == norm_gcd(b, r));
        // b == g * k1, r == g * k2, a == b * q + r
        lemma_fundamental_div_mod(b as int, g as int);
        lemma_fundamental_div_mod(r as int, g as int);
        lemma_fundamental_div_mod(a as int, b as int);
        let k1 = b as int / g as int;
        let k2 = r as int / g as int;
        let q = a as int / b as int;
        assert(a == g * (k1 * q + k2)) by {
            lemma_mul_is_associative(g as int, k1, q);
            lemma_mul_is_distributive_add(g as int, k1 * q, k2);
            lemma_mul_is_commutative(b as int, q);
        }
        lemma_mod_multiples_basic(k1 * q + k2, g as int);
        lemma_mul_is_commutative(k1 * q + k2, g as int);
    }
}

fn abs_i128(value: i128) -> (r: u128)
    ensures
        r == abs_int(value as int),
{
    if value < 0 {
        ((-(value + 1)) as u128) + 1
    } else {
        value as u128
    }
}

fn gcd_u128(lhs: u128, rhs: u128) -> (g: u128)
    ensures
        g == norm_gcd(lhs as nat, rhs as nat),
{
    let mut a = lhs;
    let mut b = rhs;
    while b != 0
        invariant
            spec_gcd(a as nat, b as nat) == spec_gcd(lhs as nat, rhs as nat),
        decreases b,
    {
        let r = a % b;
        a = b;
        b = r;
    }
    if a == 0 {
        1
    } else {
        a
    }
}

/// How a division that is not exact is rounded.
#[derive(Debug, Clone, Copy, PartialEq, Eq, Structural)]
pub enum Rounding {
    TowardZero,
    Down,
    Up,
    Nearest,
}

/// Integer division with the chosen rounding; `Nearest` rounds halves away
/// from zero.
pub open spec fn spec_div_round(n: int, d: int, rounding: Rounding) -> int {
    let mag = abs_int(n) / abs_int(d);
    let rem = abs_int(n) % abs_int(d);
    let same_sign = (n < 0) == (d < 0);
    let q: int = if same_sign { mag as int } else { -(mag as int) };
    if rem == 0 {
        q
    } else {
        match rounding {
            Rounding::TowardZero => q,
            Rounding::Down => if same_sign { q } else { q - 1 },
            Rounding::Up => if same_sign { q + 1 } else { q },
            Rounding::Nearest => if 2 * rem >= abs_int(d) {
                if same_sign { q + 1 } else { q - 1 }
            } else {
                q
            },
        }
    }
}

/// Every common divisor of two naturals divides their gcd.
proof fn lemma_common_divides_gcd(a: nat, b: nat, c: nat)
    requires
        c > 0,
        a % c == 0,
        b % c == 0,
    ensures
        spec_gcd(a, b) % c == 0,
    decreases b,
{
    if b > 0 {
        let r = a % b;
        lemma_mod_in_range(a as int, b as int);
        lemma_fundamental_div_mod(a as int, b as int);
        lemma_fundamental_div_mod(a as int, c as int);
        lemma_fundamental_div_mod(b as int, c as int);
        let q = a as int / b as int;
        let a1 = a as int / c as int;
        let b1 = b as int / c as int;
        assert(r == c * (a1 - b1 * q)) by (nonlinear_arith)
            requires
                a == b * q + r,
                a == c * a1,
                b == c * b1,
        ;
        vstd::arithmetic::div_mod::lemma_mod_multiples_basic(a1 - b1 * q, c as int);
        assert((a1 - b1 * q) * c == c * (a1 - b1 * q)) by (nonlinear_arith);
        lemma_common_divides_gcd(b, r, c);
    }
}

/// A normalised fraction is in lowest terms: no integer above one divides
/// both its numerator and its (positive) denominator.
pub proof fn lemma_normalize_reduced(num: int, den: int, k: int)
    requires
        den != 0,
        k > 1,
    ensures
        spec_normalize(num, den).1 > 0,
        !(spec_normalize(num, den).0 % k == 0 && spec_normalize(num, den).1 % k == 0),
{
    let n = if den < 0 { -num } else { num };
    let a = abs_int(n);
    let d = abs_int(den);
    let g = norm_gcd(a, d);
    lemma_gcd_le_nonzero(a, d);
    lemma_gcd_divides(a, d);
    assert(g == spec_gcd(a, d));
    lemma_fundamental_div_mod(a as int, g as int);
    lemma_fundamental_div_mod(d as int, g as int);
    let x = a as int / g as int;
    let y = d as int / g as int;
    assert(d == g * y);
    assert(y > 0) by (nonlinear_arith)
        requires d == g * y, d > 0, g > 0;
    let p = spec_normalize(num, den);
    assert(p.1 == y);
    if p.0 % k == 0 && p.1 % k == 0 {
        assert(abs_int(p.0) as int == x);
        lemma_fundamental_div_mod(p.0, k);
        lemma_fundamental_div_mod(y, k);
        let xk = p.0 / k;
        let yk = y / k;
        assert(x % k == 0) by {
            if p.0 < 0 {
                assert(x == k * (-xk)) by (nonlinear_arith)
                    requires x == -p.0, p.0 == k * xk;
                vstd::arithmetic::div_mod::lemma_mod_multiples_basic(-xk, k);
                assert((-xk) * k == k * (-xk)) by (nonlinear_arith);
            } else {
                assert(x == k * xk);
                vstd::arithmetic::div_mod::lemma_mod_multiples_basic(xk, k);
                assert(xk * k == k * xk) by (nonlinear_arith);
            }
        }
        lemma_fundamental_div_mod(x, k);
        let xk2 = x / k;
        let gk = (g * k) as nat;
        assert(a == gk * xk2 && d == gk * yk) by (nonlinear_arith)
            requires
                a == g * x,
                d == g * y,
                x == k * xk2,
                y == k * yk,
                gk == g * k,
        ;
        assert(gk > 0) by (nonlinear_arith) requires g > 0, k > 1, gk == g * k;
        vstd::arithmetic::div_mod::lemma_mod_multiples_basic(xk2, gk as int);
        vstd::arithmetic::div_mod::lemma_mod_multiples_basic(yk, gk as int);
        assert(xk2 * gk == gk * xk2 && yk * gk == gk * yk) by (nonlinear_arith);
        lemma_common_divides_gcd(a, d, gk);
        lemma_divisor_le(g, gk);
        assert(false) by (nonlinear_arith) requires gk <= g, gk == g * k, g > 0, k > 1;
    }
}

/// For a positive divisor, rounding down gives the floor of `n / d`,
/// rounding up the ceiling, toward zero the truncation, and to nearest a
/// quotient within half a unit, halves going away from zero.
pub proof fn lemma_div_round_modes(n: int, d: int)
    requires
        d > 0,
    ensures
        spec_div_round(n, d, Rounding::Down) * d <= n < spec_div_round(n, d, Rounding::Down) * d + d,
        spec_div_round(n, d, Rounding::Up) * d - d < n <= spec_div_round(n, d, Rounding::Up) * d,
        n >= 0 ==> spec_div_round(n, d, Rounding::TowardZero) == spec_div_round(n, d, Rounding::Down),
        n < 0 ==> spec_div_round(n, d, Rounding::TowardZero) == spec_div_round(n, d, Rounding::Up),
        ({
            let r = spec_div_round(n, d, Rounding::Nearest);
            &&& 2 * (r * d - n) <= d
            &&& 2 * (n - r * d) <= d
            &&& n >= 0 ==> 2 * (n - r * d) < d
            &&& n < 0 ==> 2 * (r * d - n) < d
        }),
{
    let a = abs_int(n) as int;
    let mag = a / d;
    let rem = a % d;
    vstd::arithmetic::div_mod::lemma_fundamental_div_mod(a, d);
    vstd::arithmetic::div_mod::lemma_mod_pos_bound(a, d);
    assert(abs_int(d) == d);
    assert(a == d * mag + rem);
    assert(mag * d == d * mag) by (nonlinear_arith);
    assert((mag + 1) * d == mag * d + d) by (nonlinear_arith);
    assert((-mag) * d == -(mag * d)) by (nonlinear_arith);
    assert((-mag - 1) * d == -(mag * d) - d) by (nonlinear_arith);
}

/// `value * src / dst` as integers, before rounding: numerator and denominator.
pub open spec fn rescale_num(value: int, source: (int, int), destination: (int, int)) -> int {
    value * source.0 * destination.1
}

pub open spec fn rescale_den(source: (int, int), destination: (int, int)) -> int {
    source.1 * destination.0
}

/// Converts `value` from time base `source` to time base `destination`.
pub fn rescale(value: i64, source: Rational, destination: Rational, rounding: Rounding) -> (r: Result<i64>)
    ensures
        match r {
            Ok(v) => {
                &&& destination@.0 != 0
                &&& fits_i128(value * source@.0)
                &&& fits_i128(rescale_num(value as int, source@, destination@))
                &&& fits_i128(rescale_den(source@, destination@))
                &&& v == spec_div_round(
                    rescale_num(value as int, source@, destination@),
                    rescale_den(source@, destination@),
                    rounding,
                )
            },
            Err(e) => {
                ||| destination@.0 == 0 && e@ == ErrorKind::InvalidArgument
                ||| destination@.0 != 0 && e@ == ErrorKind::Overflow && !(fits_i128(
                    value * source@.0,
                ) && fits_i128(rescale_num(value as int, source@, destination@)) && fits_i128(
                    rescale_den(source@, destination@),
                ) && fits_i64(
                    spec_div_round(
                        rescale_num(value as int, source@, destination@),
                        rescale_den(source@, destination@),
                        rounding,
                    ),
                ))
            },
        },
{
    proof {
        use_type_invariant(&source);
        use_type_invariant(&destination);
    }
    if destination.num == 0 {
        return Err(MediaError::invalid_argument("destination time base numerator must not be zero"));
    }
    let first = match (value as i128).checked_mul(source.num as i128) {
        Some(v) => v,
        None => return Err(MediaError::overflow("timestamp rescale numerator overflow")),
    };
    let numerator = match first.checked_mul(destination.den as i128) {
        Some(v) => v,
        None => return Err(MediaError::overflow("timestamp rescale numerator overflow")),
    };
    let denominator = match (source.den as i128).checked_mul(destination.num as i128) {
        Some(v) => v,
        None => return Err(MediaError::overflow("timestamp rescale denominator overflow")),
    };
    assert(denominator != 0) by (nonlinear_arith)
        requires
            denominator == source.den * destination.num,
            source.den > 0,
            destination.num != 0,
    ;
    if denominator == 0 {
        return Err(MediaError::invalid_argument("invalid zero rescale denominator"));
    }
    if numerator == i128::MIN && denominator == -1 {
        proof {
            assert(abs_int(denominator as int) == 1);
            lemma_div_basics(abs_int(numerator as int) as int);
            assert(abs_int(numerator as int) / abs_int(denominator as int) == abs_int(numerator as int));
            assert(abs_int(numerator as int) % abs_int(denominator as int) == 0) by {
                lemma_mod_self_0(1);
                lemma_mod_basics_one(abs_int(numerator as int) as int);
            }
        }
        return Err(MediaError::overflow("rescaled timestamp exceeds i64"));
    }
    let quotient = div_round(numerator, denominator, rounding);
    if quotient < i64::MIN as i128 || quotient > i64::MAX as i128 {
        return Err(MediaError::overflow("rescaled timestamp exceeds i64"));
    }
    Ok(quotient as i64)
}

fn div_round(numerator: i128, denominator: i128, rounding: Rounding) -> (q: i128)
    requires
        denominator != 0,
        !(numerator == i128::MIN && denominator == -1),
    ensures
        q == spec_div_round(numerator as int, denominator as int, rounding),
{
    let an = abs_i128(numerator);
    let ad = abs_i128(denominator);
    let mag = an / ad;
    let rem = an % ad;
    assert(mag <= an) by {
        lemma_div_is_ordered_by_denominator(an as int, 1, ad as int);
    }
    assert(rem < ad) by {
        lemma_mod_in_range(an as int, ad as int);
    }
    assert(an <= i128::MAX as u128 + 1);
    let same_sign = (numerator < 0) == (denominator < 0);
    // mag <= 2^127; when it equals 2^127 the signs differ (only -2^127 / 1 reaches it).
    assert(mag <= i128::MAX || !same_sign) by {
        if mag > i128::MAX {
            if ad >= 2 {
                lemma_div_is_ordered_by_denominator(an as int, 2, ad as int);
                lemma_div_by_two(an as int);
            }
            assert(ad == 1);
            lemma_div_basics(an as int);
            assert(an == i128::MAX as u128 + 1);
        }
    }
    let q: i128 = if same_sign {
        mag as i128
    } else if mag == i128::MAX as u128 + 1 {
        i128::MIN
    } else {
        -(mag as i128)
    };
    if rem == 0 {
        return q;
    }
    // with a non-zero remainder the magnitude is strictly below 2^126 + ...; no overflow
    assert(mag < i128::MAX) by {
        assert(ad >= 2);
        lemma_div_is_ordered_by_denominator(an as int, 2, ad as int);
        lemma_div_by_two(an as int);
    }
    match rounding {
        Rounding::TowardZero => q,
        Rounding::Down => if same_sign {
            q
        } else {
            q - 1
        },
        Rounding::Up => if same_sign {
            q + 1
        } else {
            q
        },
        Rounding::Nearest => {
            let twice = if rem > u128::MAX / 2 {
                u128::MAX
            } else {
                rem * 2
            };
            if twice >= ad {
                if same_sign {
                    q + 1
                } else {
                    q - 1
                }
            } else {
                q
            }
        },
    }
}

proof fn lemma_mod_basics_one(x: int)
    requires
        x >= 0,
    ensures
        x % 1 == 0,
{
    lemma_fundamental_div_mod(x, 1);
    lemma_div_basics(x);
}

proof fn lemma_div_by_two(x: int)
    requires
        x >= 0,
    ensures
        x / 2 <= x / 2,
        x / 2 * 2 <= x,
{
    lemma_fundamental_div_mod(x, 2);
}

/// A value in a time base.
#[derive(Debug, Clone, Copy, PartialEq, Eq)]
pub struct Timestamp {
    pub value: i64,
    pub time_base: Rational,
}

impl Timestamp {
    /// The same instant expressed in `time_base`.
    pub fn rescale(self, time_base: Rational, rounding: Rounding) -> (r: Result<Self>)
        ensures
            match r {
                Ok(t) => {
                    &&& t.time_base == time_base
                    &&& time_base@.0 != 0
                    &&& fits_i128(self.value * self.time_base@.0)
                    &&& fits_i128(rescale_num(self.value as int, self.time_base@, time_base@))
                    &&& fits_i128(rescale_den(self.time_base@, time_base@))
                    &&& t.value == spec_div_round(
                        rescale_num(self.value as int, self.time_base@, time_base@),
                        rescale_den(self.time_base@, time_base@),
                        rounding,
                    )
                },
                Err(e) => {
                    ||| time_base@.0 == 0 && e@ == ErrorKind::InvalidArgument
                    ||| time_base@.0 != 0 && e@ == ErrorKind::Overflow && !(fits_i128(self.value * self.time_base@.0)
                        && fits_i128(rescale_num(self.value as int, self.time_base@, time_base@)) && fits_i128(
                        rescale_den(self.time_base@, time_base@),
                    ) && fits_i64(
                        spec_div_round(
                            rescale_num(self.value as int, self.time_base@, time_base@),
                            rescale_den(self.time_base@, time_base@),
                            rounding,
                        ),
                    ))
                },
            },
    {
        let value = match rescale(self.value, self.time_base, time_base, rounding) {
            Ok(v) => v,
            Err(e) => return Err(e),
        };
        Ok(Timestamp { value, time_base })
    }
}

} // verus!
