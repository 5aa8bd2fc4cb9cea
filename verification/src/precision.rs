//! How exact the arithmetic on [`Double`] is.

use crate::double::{
    lemma_round_at_most_infinite, lemma_round_zero, lemma_units_ordered, lemma_zero_units,
    magnitude_exponent, magnitude_of, magnitude_significand, magnitude_units, nearest_integer,
    one_in_units, signed, single_is_infinite, single_is_nan, single_unit, single_units, Double,
    INFINITE, SIGN_BIT,
};
use crate::rounding::{
    lemma_nearest_even_bounds, lemma_nearest_even_error, lemma_nearest_even_exact,
    lemma_pow2_monotonic, lemma_round_magnitude_monotonic, lemma_round_magnitude_scale,
    lemma_step_exponent,
    lemma_step_exponent_is, nearest_even, round_magnitude, step_exponent,
};
use vstd::arithmetic::div_mod::{lemma_fundamental_div_mod, lemma_fundamental_div_mod_converse};
use vstd::arithmetic::mul::{
    lemma_mul_inequality, lemma_mul_is_associative, lemma_mul_is_commutative,
};
use vstd::arithmetic::power2::{
    lemma2_to64, lemma2_to64_rest, lemma_pow2_adds, lemma_pow2_pos, lemma_pow2_strictly_increases,
    lemma_pow2_unfold, pow2,
};
use vstd::prelude::*;

verus! {

/// The value of a magnitude made of an exponent and a significand, the
/// significand one bit too long included.
pub proof fn lemma_assembled_units(k: nat, n: nat, p: nat)
    requires
        n <= pow2(p + 1),
        k > 0 ==> n >= pow2(p),
    ensures
        magnitude_units(k * pow2(p) + n, p) == n * pow2(k),
{
    let w = pow2(p);
    lemma_pow2_pos(p);
    lemma_pow2_unfold(p + 1);
    let m = k * w + n;
    if n < w {
        assert(k * w == 0) by (nonlinear_arith)
            requires
                k == 0,
        ;
        lemma_fundamental_div_mod_converse(m as int, w as int, 0, n as int);
        assert(magnitude_exponent(m, p) == 0);
        assert(magnitude_significand(m, p) == n) by (nonlinear_arith)
            requires
                magnitude_significand(m, p) == m - 0 * w,
                m == n,
        ;
    } else if n < 2 * w {
        let r = (n - w) as nat;
        assert(m == (k + 1) * w + r) by (nonlinear_arith)
            requires
                m == k * w + n,
                r == n - w,
        ;
        lemma_fundamental_div_mod_converse(m as int, w as int, (k + 1) as int, r as int);
        assert(magnitude_exponent(m, p) == k);
    } else {
        assert(m == (k + 2) * w + 0) by (nonlinear_arith)
            requires
                m == k * w + n,
                n == 2 * w,
        ;
        lemma_fundamental_div_mod_converse(m as int, w as int, (k + 2) as int, 0);
        assert(magnitude_exponent(m, p) == k + 1);
        assert(m - (k + 1) * w == w) by (nonlinear_arith)
            requires
                m == (k + 2) * w,
        ;
        lemma_pow2_unfold(k + 1);
        assert(w * (2 * pow2(k)) == (2 * w) * pow2(k)) by (nonlinear_arith);
    }
}

/// What a quotient is rounded to, in units.
pub proof fn lemma_rounded_units(num: nat, den: nat, p: nat, emax: nat)
    requires
        den > 0,
        round_magnitude(num, den, p, emax) < emax * pow2(p),
    ensures
        magnitude_units(round_magnitude(num, den, p, emax), p) == nearest_even(
            num,
            den * pow2(step_exponent(num, den, p)),
        ) * pow2(step_exponent(num, den, p)),
{
    let k = step_exponent(num, den, p);
    lemma_step_exponent(num, den, p);
    lemma_nearest_even_bounds(num, den, p, k);
    lemma_assembled_units(k, nearest_even(num, den * pow2(k)), p);
}

/// A number of the format, as a quotient, is rounded to itself.
pub proof fn lemma_exact_is_kept(m: nat, den: nat, p: nat, emax: nat)
    requires
        den > 0,
        m < emax * pow2(p),
    ensures
        round_magnitude(magnitude_units(m, p) * den, den, p, emax) == m,
{
    let w = pow2(p);
    let e = magnitude_exponent(m, p);
    let s = magnitude_significand(m, p);
    let units = magnitude_units(m, p);
    lemma_pow2_pos(p);
    lemma_pow2_pos(e);
    lemma_pow2_unfold(p + 1);
    lemma_fundamental_div_mod(m as int, w as int);
    let field = m / w;
    let rest = m % w;
    assert(m == field * w + rest) by (nonlinear_arith)
        requires
            m == w * field + rest,
    ;
    if field == 0 {
        assert(s == m && m < w && e * w == 0) by (nonlinear_arith)
            requires
                m == field * w + rest,
                field == 0,
                rest < w,
                e == 0,
                s == m - e * w,
        ;
    } else {
        assert(m - e * w == w + rest) by (nonlinear_arith)
            requires
                m == field * w + rest,
                e == field - 1,
        ;
    }
    lemma_pow2_adds(p + 1, e);
    lemma_pow2_adds(p, e);
    let pe = pow2(e);
    assert(units == s * pe);
    assert(units < 1 * pow2(e + p + 1)) by (nonlinear_arith)
        requires
            units == s * pe,
            s < 2 * w,
            pow2(p + 1 + e) == (2 * w) * pe,
            p + 1 + e == e + p + 1,
            pe > 0,
    ;
    if e > 0 {
        assert(units >= 1 * pow2(e + p)) by (nonlinear_arith)
            requires
                units == s * pe,
                s >= w,
                pow2(p + e) == w * pe,
                p + e == e + p,
                pe > 0,
        ;
    }
    lemma_step_exponent_is(units, 1, p, e);
    lemma_nearest_even_exact(s, pe);
    assert(1 * pe == pe);
    assert(round_magnitude(units, 1, p, emax) == m);
    lemma_round_magnitude_scale(units, 1, den, p, emax);
    assert(1 * den == den);
}

/// How far rounding moves a quotient: by at most one part in `2^53`, or by half
/// a unit. Here `|value|` is `num / den` units.
pub proof fn lemma_rounding_error(num: nat, den: nat)
    requires
        den > 0,
        round_magnitude(num, den, 52, 2047) < INFINITE,
    ensures
        ({
            let error = magnitude_units(round_magnitude(num, den, 52, 2047), 52) * den - num;
            ||| pow2(53) * error <= num && pow2(53) * -error <= num
            ||| 2 * error <= den && 2 * -error <= den
        }),
        den == 1 ==> ({
            let error = magnitude_units(round_magnitude(num, den, 52, 2047), 52) - num;
            pow2(53) * error <= num && pow2(53) * -error <= num
        }),
{
    lemma2_to64_rest();
    let k = step_exponent(num, den, 52);
    let w = pow2(k);
    let n = nearest_even(num, den * w);
    lemma_pow2_pos(k);
    lemma_step_exponent(num, den, 52);
    lemma_rounded_units(num, den, 52, 2047);
    assert(den * w > 0) by (nonlinear_arith)
        requires
            den > 0,
            w > 0,
    ;
    lemma_nearest_even_error(num, den * w);
    let error = (n * w) * den - num;
    assert((n * w) * den == n * (den * w)) by (nonlinear_arith);
    if k > 0 {
        lemma_pow2_adds(k, 52);
        lemma_pow2_unfold(53);
        let h = pow2(52);
        assert(den * (w * h) <= num);
        assert((2 * h) * error <= num && (2 * h) * -error <= num) by (nonlinear_arith)
            requires
                2 * error <= den * w,
                2 * -error <= den * w,
                den * (w * h) <= num,
                h > 0,
        ;
    } else {
        lemma2_to64();
        assert(w == 1);
        assert(den * w == den) by (nonlinear_arith)
            requires
                w == 1,
        ;
        if den == 1 {
            assert((n * w) * den == n * w) by (nonlinear_arith)
                requires
                    den == 1,
            ;
            assert(error == 0);
            assert(pow2(53) * 0 == 0);
        }
    }
    if den == 1 {
        assert((n * w) * den == n * w) by (nonlinear_arith)
            requires
                den == 1,
        ;
    }
}

/// A quotient below `2^1023` is rounded to a finite number.
pub proof fn lemma_rounds_to_finite(num: nat, den: nat)
    requires
        den > 0,
        num < den * pow2(2097),
    ensures
        round_magnitude(num, den, 52, 2047) < INFINITE,
{
    lemma2_to64_rest();
    let k = step_exponent(num, den, 52);
    lemma_step_exponent(num, den, 52);
    lemma_nearest_even_bounds(num, den, 52, k);
    if k >= 2045 {
        lemma_pow2_monotonic(2097, k + 52);
        lemma_mul_inequality(pow2(2097) as int, pow2(k + 52) as int, den as int);
        lemma_mul_is_commutative(den as int, pow2(2097) as int);
        lemma_mul_is_commutative(den as int, pow2(k + 52) as int);
        assert(false);
    }
    lemma_mul_inequality(k as int, 2044, pow2(52) as int);
}

/// The parts of a number put together.
pub proof fn lemma_signed(negative: bool, m: nat)
    requires
        m < SIGN_BIT,
    ensures
        signed(negative, m).negative() == negative,
        signed(negative, m).magnitude() == m,
        m < INFINITE ==> signed(negative, m).units() == if negative {
            -(magnitude_units(m, 52) as int)
        } else {
            magnitude_units(m, 52) as int
        },
{
}

/// A number is its sign and its magnitude.
pub proof fn lemma_sign_and_magnitude(x: Double)
    ensures
        signed(x.negative(), x.magnitude()) == x,
        x.magnitude() < SIGN_BIT,
        x.finite() ==> magnitude_of(x.units()) == magnitude_units(x.magnitude(), 52),
        x.finite() ==> (x.units() == 0 <==> x.zero()),
        x.finite() && !x.zero() ==> (x.units() < 0 <==> x.negative()),
{
    if x.finite() {
        lemma_zero_units();
        if x.magnitude() > 0 {
            lemma_units_ordered(0, x.magnitude());
        }
    }
}

/// The number one.
pub open spec fn one() -> Double {
    Double { bits: 0x3ff0_0000_0000_0000 }
}

pub proof fn lemma_one()
    ensures
        one().units() == one_in_units(),
        one().finite(),
        !one().negative(),
{
    lemma2_to64_rest();
    let m: nat = 0x3ff0_0000_0000_0000;
    assert(m == 1022 * pow2(52) + pow2(52));
    lemma_pow2_unfold(53);
    lemma_assembled_units(1022, pow2(52), 52);
    lemma_pow2_adds(52, 1022);
}

/// Multiplying or dividing by one changes nothing, nor does adding zero, but
/// that it may drop the sign of a zero.
pub proof fn law_neutral_numbers(x: Double, zero: Double)
    requires
        x.finite(),
        zero.zero(),
    ensures
        x.product(one()) == x,
        x.quotient(one()) == x,
        !x.zero() ==> x.sum(zero) == x,
        !x.zero() ==> x.difference(zero) == x,
        x.zero() ==> x.sum(zero).zero() && x.difference(zero).zero(),
{
    lemma_one();
    lemma_sign_and_magnitude(x);
    lemma_sign_and_magnitude(zero);
    lemma_sign_and_magnitude(one());
    lemma_pow2_pos(1074);
    lemma2_to64_rest();
    lemma_exact_is_kept(x.magnitude(), one_in_units(), 52, 2047);
    lemma_exact_is_kept(x.magnitude(), 1, 52, 2047);
    assert(magnitude_units(x.magnitude(), 52) * 1 == magnitude_units(x.magnitude(), 52));
    assert(zero.opposite().zero()) by {
        lemma_signed(!zero.negative(), 0);
    }
    lemma_sign_and_magnitude(zero.opposite());
    lemma_signed(true, 0);
    lemma_signed(false, 0);
}

/// A significand of at most 53 bits, scaled by a power of two, is rounded to
/// itself.
pub proof fn lemma_short_is_kept(sig: nat, j: nat)
    requires
        sig < pow2(53),
        sig * pow2(j) < pow2(2097),
    ensures
        round_magnitude(sig * pow2(j), 1, 52, 2047) < INFINITE,
        magnitude_units(round_magnitude(sig * pow2(j), 1, 52, 2047), 52) == sig * pow2(j),
{
    let num = sig * pow2(j);
    let k = step_exponent(num, 1, 52);
    assert(1 * pow2(2097) == pow2(2097));
    lemma_rounds_to_finite(num, 1);
    lemma2_to64_rest();
    lemma_rounded_units(num, 1, 52, 2047);
    lemma_step_exponent(num, 1, 52);
    lemma_pow2_pos(j);
    if k > j {
        lemma_pow2_monotonic(53 + j, k + 52);
        lemma_pow2_adds(53, j);
        assert(1 * pow2(k + 52) == pow2(k + 52));
        assert(num < pow2(53) * pow2(j)) by (nonlinear_arith)
            requires
                num == sig * pow2(j),
                sig < pow2(53),
                pow2(j) > 0,
        ;
        assert(false);
    }
    let c = pow2((j - k) as nat);
    let w = pow2(k);
    lemma_pow2_adds((j - k) as nat, k);
    lemma_pow2_pos(k);
    lemma_mul_is_associative(sig as int, c as int, w as int);
    lemma_nearest_even_exact(sig * c, w);
    assert(1 * w == w);
}

/// The number nearest to an integer below `2^53` is that integer.
pub proof fn law_small_integers_are_exact(i: int)
    requires
        -pow2(53) < i < pow2(53),
    ensures
        Double::of_integer(i).finite(),
        Double::of_integer(i).units() == i * one_in_units(),
        Double::of_integer(i).negative() == (i < 0),
{
    let a = magnitude_of(i);
    let w = one_in_units();
    let num = a * w;
    lemma_pow2_pos(1074);
    assert(i * w == if i < 0 { -(num as int) } else { num as int } && (i * w < 0 <==> i < 0))
        by (nonlinear_arith)
        requires
            a == if i < 0 {
                -i
            } else {
                i
            },
            num == a * w,
            w > 0,
    ;
    lemma_pow2_adds(53, 1074);
    lemma_pow2_monotonic(1127, 2097);
    assert(num < pow2(53) * w) by (nonlinear_arith)
        requires
            num == a * w,
            a < pow2(53),
            w > 0,
    ;
    lemma_short_is_kept(a, 1074);
    lemma_round_at_most_infinite(num, 1);
    lemma_signed(i < 0, round_magnitude(num, 1, 52, 2047));
}

/// A finite single-precision number keeps its value when it is widened, and
/// its bit pattern when it is narrowed again.
pub proof fn law_single_widens_exactly(bits: u32)
    requires
        !single_is_nan(bits),
        !single_is_infinite(bits),
    ensures
        Double::of_single(bits).finite(),
        Double::of_single(bits).units() == single_units(bits) * single_unit(),
        Double::of_single(bits).single() == bits,
{
    lemma2_to64();
    lemma2_to64_rest();
    let negative = bits >= 0x8000_0000;
    let m = (bits % 0x8000_0000) as nat;
    let e = magnitude_exponent(m, 23);
    let sig = magnitude_significand(m, 23);
    let units = magnitude_units(m, 23);
    let w = single_unit();
    lemma_pow2_pos(925);
    lemma_pow2_adds(e, 925);
    lemma_pow2_pos(e);
    assert(sig < pow2(24));
    assert(e <= 253);
    assert(units * w == sig * pow2(e + 925)) by (nonlinear_arith)
        requires
            units == sig * pow2(e),
            pow2(e + 925) == pow2(e) * w,
    ;
    lemma_pow2_adds(24, e + 925);
    lemma_pow2_monotonic(24 + (e + 925), 2097);
    lemma_pow2_pos(e + 925);
    assert(sig * pow2(e + 925) < pow2(24) * pow2(e + 925)) by (nonlinear_arith)
        requires
            sig < pow2(24),
            pow2(e + 925) > 0,
    ;
    lemma_short_is_kept(sig, e + 925);
    assert(magnitude_of(single_units(bits)) == units);
    let wide = round_magnitude(units * w, 1, 52, 2047);
    lemma_signed(negative, wide);
    assert(single_units(bits) * w == if negative { -((units * w) as int) } else {
        (units * w) as int
    }) by (nonlinear_arith)
        requires
            single_units(bits) == if negative { -(units as int) } else { units as int },
    ;
    lemma_exact_is_kept(m, w, 23, 255);
}

/// How far a product with an integer below `2^53` is from the exact one.
proof fn lemma_product_error(i: int, s: Double)
    requires
        -pow2(53) < i < pow2(53),
        s.finite(),
        magnitude_of(i * s.units()) < pow2(2097),
    ensures
        ({
            let p = Double::of_integer(i).product(s);
            let exact = i * s.units();
            &&& p.finite()
            &&& pow2(53) * (p.units() - exact) <= magnitude_of(exact)
            &&& pow2(53) * (exact - p.units()) <= magnitude_of(exact)
        }),
{
    law_small_integers_are_exact(i);
    lemma_sign_and_magnitude(s);
    let r = Double::of_integer(i);
    let w = one_in_units();
    let a = magnitude_of(i);
    let b = magnitude_of(s.units());
    let exact = i * s.units();
    let num = a * b;
    lemma_pow2_pos(1074);
    lemma_sign_and_magnitude(r);
    assert(magnitude_of(r.units()) * b == num * w && magnitude_of(exact) == num && (exact < 0
        ==> (i < 0) != s.negative()) && (exact > 0 ==> (i < 0) == s.negative()) && (num == 0 <==> (i
        == 0 || s.units() == 0))) by (nonlinear_arith)
        requires
            r.units() == i * w,
            w > 0,
            a == if i < 0 {
                -i
            } else {
                i
            },
            b == if s.units() < 0 {
                -s.units()
            } else {
                s.units()
            },
            magnitude_of(r.units()) == if r.units() < 0 {
                -r.units()
            } else {
                r.units()
            },
            magnitude_of(exact) == if exact < 0 {
                -exact
            } else {
                exact
            },
            exact == i * s.units(),
            num == a * b,
            s.units() < 0 ==> s.negative(),
            s.units() > 0 ==> !s.negative(),
    ;
    lemma_round_magnitude_scale(num, 1, w, 52, 2047);
    assert(1 * w == w);
    assert(1 * pow2(2097) == pow2(2097));
    lemma_rounds_to_finite(num, 1);
    lemma_rounding_error(num, 1);
    lemma_round_at_most_infinite(num, 1);
    let negative = r.negative() != s.negative();
    lemma_signed(negative, round_magnitude(num, 1, 52, 2047));
    let p = r.product(s);
    let u = magnitude_units(round_magnitude(num, 1, 52, 2047), 52);
    assert(p == signed(negative, round_magnitude(num, 1, 52, 2047)));
    if num == 0 {
        lemma2_to64_rest();
        assert(u == 0) by (nonlinear_arith)
            requires
                pow2(53) * (u - 0) <= 0,
                pow2(53) > 0,
        ;
    }
    if exact < 0 {
        assert(p.units() == -(u as int));
    }
    assert(pow2(53) * -(u - num) == pow2(53) * (num - u));
}

/// How far a sum is from the exact one.
pub proof fn lemma_sum_error(a: Double, b: Double)
    requires
        a.finite(),
        b.finite(),
        magnitude_of(a.units() + b.units()) < pow2(2097),
    ensures
        ({
            let exact = a.units() + b.units();
            &&& a.sum(b).finite()
            &&& pow2(53) * (a.sum(b).units() - exact) <= magnitude_of(exact)
            &&& pow2(53) * (exact - a.sum(b).units()) <= magnitude_of(exact)
        }),
{
    let exact = a.units() + b.units();
    let num = magnitude_of(exact);
    if exact == 0 {
        lemma_signed(a.negative() && b.negative(), 0);
        lemma_zero_units();
        assert(pow2(53) * 0 == 0);
    } else {
        assert(1 * pow2(2097) == pow2(2097));
        lemma_rounds_to_finite(num, 1);
        lemma_rounding_error(num, 1);
        lemma_round_at_most_infinite(num, 1);
        lemma_signed(exact < 0, round_magnitude(num, 1, 52, 2047));
    }
}

/// How far a quotient is from the exact one, in terms of the divisor.
pub proof fn lemma_quotient_error(d: Double, s: Double)
    requires
        d.finite(),
        s.finite(),
        !s.zero(),
        magnitude_of(d.units()) * one_in_units() < magnitude_of(s.units()) * pow2(2097),
    ensures
        d.quotient(s).finite(),
        ({
            let error = d.quotient(s).units() * s.units() - d.units() * one_in_units();
            let num = magnitude_of(d.units()) * one_in_units();
            ||| pow2(53) * error <= num && pow2(53) * -error <= num
            ||| 2 * error <= magnitude_of(s.units()) && 2 * -error <= magnitude_of(s.units())
        }),
{
    lemma_sign_and_magnitude(d);
    lemma_sign_and_magnitude(s);
    let w = one_in_units();
    let a = magnitude_of(d.units());
    let b = magnitude_of(s.units());
    let num = a * w;
    lemma_rounds_to_finite(num, b);
    lemma_rounding_error(num, b);
    lemma_round_at_most_infinite(num, b);
    let m = round_magnitude(num, b, 52, 2047);
    let negative = d.negative() != s.negative();
    lemma_signed(negative, m);
    let q = d.quotient(s);
    let u = magnitude_units(m, 52);
    let error = q.units() * s.units() - d.units() * w;
    let size = u * b - num;
    let (x, y, z) = (q.units(), s.units(), d.units());
    assert(error == size || error == -size) by (nonlinear_arith)
        requires
            error == x * y - z * w,
            size == u * b - num,
            num == a * w,
            (x == u && y == b && z == a) || (x == -u && y == -b && z == a) || (x == -u && y == b
                && z == -a) || (x == u && y == -b && z == -a),
    ;
}

/// The error that a product, a sum, a difference and a quotient leave together.
proof fn lemma_errors_add_up(
    i: int,
    su: int,
    o: int,
    p: int,
    q: int,
    d: int,
    x: int,
    w: int,
    h: int,
)
    requires
        h == 0x20_0000_0000_0000,
        w >= 16,
        su != 0,
        16 * (magnitude_of(i * su) + magnitude_of(o)) <= magnitude_of(su) * h,
        h * (p - i * su) <= magnitude_of(i * su),
        h * (i * su - p) <= magnitude_of(i * su),
        h * (q - (p + o)) <= magnitude_of(p + o),
        h * ((p + o) - q) <= magnitude_of(p + o),
        h * (d - (q - o)) <= magnitude_of(q - o),
        h * ((q - o) - d) <= magnitude_of(q - o),
        ({
            let error = x * su - d * w;
            ||| h * error <= magnitude_of(d) * w && h * -error <= magnitude_of(d) * w
            ||| 2 * error <= magnitude_of(su) && 2 * -error <= magnitude_of(su)
        }),
    ensures
        2 * (x - i * w) < w,
        2 * (i * w - x) < w,
{
    let e = i * su;
    let t: int = (magnitude_of(e) + magnitude_of(o)) as int;
    let s: int = magnitude_of(su) as int;
    assert(magnitude_of(p + o) <= 2 * t);
    assert(h * (q - o - e) <= 3 * t && h * (e - (q - o)) <= 3 * t);
    assert(magnitude_of(q - o) <= 2 * t);
    assert(h * (d - e) <= 5 * t && h * (e - d) <= 5 * t);
    assert(magnitude_of(d) <= 2 * t);
    let error = x * su - d * w;
    let dm: int = magnitude_of(d) as int;
    assert(dm * w <= (2 * t) * w) by (nonlinear_arith)
        requires
            dm <= 2 * t,
            w >= 16,
    ;
    assert(2 * (h * error) <= 4 * (t * w) + h * s && 2 * (h * -error) <= 4 * (t * w) + h * s)
        by (nonlinear_arith)
        requires
            (h * error <= dm * w && h * -error <= dm * w) || (2 * error <= s && 2 * -error <= s),
            dm * w <= (2 * t) * w,
            h > 0,
            s > 0,
            t >= 0,
            w >= 16,
    ;
    let shift = d * w - e * w;
    assert(h * shift <= 5 * (t * w) && h * -shift <= 5 * (t * w)) by (nonlinear_arith)
        requires
            shift == d * w - e * w,
            h * (d - e) <= 5 * t,
            h * (e - d) <= 5 * t,
            w >= 16,
    ;
    let gap = x - i * w;
    assert(su * gap == error + shift) by (nonlinear_arith)
        requires
            gap == x - i * w,
            error == x * su - d * w,
            shift == d * w - e * w,
            e == i * su,
    ;
    let g: int = magnitude_of(gap) as int;
    assert(h * (s * g) == h * (error + shift) || h * (s * g) == h * -(error + shift))
        by (nonlinear_arith)
        requires
            su * gap == error + shift,
            s == if su < 0 {
                -su
            } else {
                su
            },
            g == if gap < 0 {
                -gap
            } else {
                gap
            },
    ;
    assert(2 * (h * (s * g)) <= 14 * (t * w) + h * s);
    assert(16 * (t * w) <= (s * h) * w) by (nonlinear_arith)
        requires
            16 * t <= s * h,
            w >= 16,
    ;
    assert(h * s == s * h) by (nonlinear_arith);
    assert(h * (s * g) == (s * h) * g) by (nonlinear_arith);
    let f = s * h;
    assert(16 * (f * g) <= 7 * (f * w) + 8 * f);
    assert(16 * g <= 7 * w + 8) by (nonlinear_arith)
        requires
            16 * (f * g) <= 7 * (f * w) + 8 * f,
            f == s * h,
            s > 0,
            h > 0,
    ;
}

/// Scaling an integer and adding an offset is undone by taking the offset away,
/// dividing and rounding, where neither the integer nor the offset is too large
/// for the scale.
pub proof fn law_scaling_is_undone(i: int, scale: Double, offset: Double)
    requires
        scale.finite(),
        !scale.zero(),
        offset.finite(),
        magnitude_of(i * scale.units()) + magnitude_of(offset.units()) <= magnitude_of(
            scale.units(),
        ) * pow2(49),
        magnitude_of(i * scale.units()) + magnitude_of(offset.units()) < pow2(2096),
    ensures
        ({
            let value = Double::of_integer(i).product(scale).sum(offset);
            let back = value.difference(offset).quotient(scale);
            &&& value.finite()
            &&& back.finite()
            &&& nearest_integer(back.units(), one_in_units()) == i
        }),
{
    lemma2_to64();
    lemma2_to64_rest();
    lemma_sign_and_magnitude(scale);
    lemma_sign_and_magnitude(offset);
    let su = scale.units();
    let o = offset.units();
    let s: int = magnitude_of(su) as int;
    let w = one_in_units() as int;
    let h: int = 0x20_0000_0000_0000;
    let e = i * su;
    let t: int = (magnitude_of(e) + magnitude_of(o)) as int;
    let a: int = magnitude_of(i) as int;
    assert(pow2(49) == 0x2_0000_0000_0000);
    assert(16 * t <= s * h) by (nonlinear_arith)
        requires
            t <= s * 0x2_0000_0000_0000,
            h == 0x20_0000_0000_0000,
    ;
    assert(a * s == magnitude_of(e)) by (nonlinear_arith)
        requires
            e == i * su,
            a == if i < 0 {
                -i
            } else {
                i
            },
            s == if su < 0 {
                -su
            } else {
                su
            },
            magnitude_of(e) == if e < 0 {
                -e
            } else {
                e
            },
    ;
    assert(a <= 0x2_0000_0000_0000) by (nonlinear_arith)
        requires
            a * s <= s * 0x2_0000_0000_0000,
            s > 0,
    ;
    lemma_pow2_unfold(2097);
    lemma_product_error(i, scale);
    let p = Double::of_integer(i).product(scale);
    lemma_sum_error(p, offset);
    let q = p.sum(offset);
    let minus = offset.opposite();
    lemma_signed(!offset.negative(), offset.magnitude());
    assert(minus.units() == -o);
    assert(magnitude_of(p.units() + o) <= 2 * t);
    assert(magnitude_of(q.units() - o) <= 2 * t);
    lemma_sum_error(q, minus);
    let d = q.difference(offset);
    assert(magnitude_of(d.units()) <= 4 * t);
    lemma_pow2_pos(1074);
    lemma_pow2_adds(53, 1074);
    lemma_pow2_strictly_increases(1127, 2097);
    let dm: int = magnitude_of(d.units()) as int;
    let big: int = pow2(2097) as int;
    assert(dm * w < s * big) by (nonlinear_arith)
        requires
            dm <= 4 * t,
            16 * t <= s * h,
            h * w < big,
            s > 0,
            w > 0,
            h > 0,
    ;
    lemma_quotient_error(d, scale);
    let back = d.quotient(scale);
    lemma_pow2_monotonic(4, 1074);
    lemma_errors_add_up(i, su, o, p.units(), q.units(), d.units(), back.units(), w, h);
    lemma_nearest_integer_is(back.units(), w as nat, i);
}

/// The integer that is less than half a unit away is the nearest.
pub proof fn lemma_nearest_integer_is(x: int, unit: nat, i: int)
    requires
        unit > 0,
        2 * (x - i * unit) < unit,
        2 * (i * unit - x) < unit,
    ensures
        nearest_integer(x, unit) == i,
{
    let a: int = magnitude_of(x) as int;
    let j = if x < 0 {
        -i
    } else {
        i
    };
    assert(j * unit == if x < 0 {
        -(i * unit)
    } else {
        i * unit
    }) by (nonlinear_arith)
        requires
            j == if x < 0 {
                -i
            } else {
                i
            },
    ;
    let r = 2 * a + unit - j * (2 * unit);
    assert(2 * (j * unit) == j * (2 * unit)) by (nonlinear_arith);
    assert(0 <= r < 2 * unit);
    lemma_fundamental_div_mod_converse(2 * a + unit, 2 * unit as int, j, r);
}

/// Whether a number, if it is one, is not below zero.
pub open spec fn not_below_zero(x: Double) -> bool {
    x.nan() || x.order_key() >= 0
}

/// The product of numbers that are not below zero is not either.
pub proof fn lemma_product_not_below_zero(a: Double, b: Double)
    requires
        not_below_zero(a),
        not_below_zero(b),
    ensures
        not_below_zero(a.product(b)),
{
    let num = magnitude_of(a.units()) * magnitude_of(b.units());
    lemma_pow2_pos(1074);
    lemma_round_at_most_infinite(num, one_in_units());
    if a.finite() && b.finite() {
        lemma_sign_and_magnitude(a);
        lemma_sign_and_magnitude(b);
        if a.negative() != b.negative() {
            assert(num == 0) by (nonlinear_arith)
                requires
                    num == magnitude_of(a.units()) * magnitude_of(b.units()),
                    magnitude_of(a.units()) == 0 || magnitude_of(b.units()) == 0,
            ;
            lemma_round_zero(one_in_units(), 52, 2047);
        }
        lemma_signed(
            a.negative() != b.negative(),
            round_magnitude(num, one_in_units(), 52, 2047),
        );
    } else {
        lemma_signed(a.negative() != b.negative(), INFINITE as nat);
    }
}

/// The sum of numbers that are not below zero is not either.
pub proof fn lemma_sum_not_below_zero(a: Double, b: Double)
    requires
        not_below_zero(a),
        not_below_zero(b),
    ensures
        not_below_zero(a.sum(b)),
{
    if a.finite() && b.finite() {
        lemma_sign_and_magnitude(a);
        lemma_sign_and_magnitude(b);
        let total = a.units() + b.units();
        lemma_round_at_most_infinite(magnitude_of(total), 1);
        lemma_signed(a.negative() && b.negative(), 0);
        lemma_signed(false, round_magnitude(magnitude_of(total), 1, 52, 2047));
    }
}

/// Taking away what is not below zero makes nothing larger.
pub proof fn lemma_difference_not_larger(a: Double, b: Double)
    requires
        a.finite(),
        a.order_key() >= 0,
        not_below_zero(b),
    ensures
        !a.less(a.difference(b)),
{
    lemma_sign_and_magnitude(a);
    lemma_sign_and_magnitude(b);
    lemma_signed(!b.negative(), b.magnitude());
    let c = b.opposite();
    if b.finite() {
        lemma_sign_and_magnitude(c);
        let total = a.units() + c.units();
        assert(total <= a.units());
        lemma_signed(a.negative() && c.negative(), 0);
        lemma_round_at_most_infinite(magnitude_of(total), 1);
        lemma_signed(total < 0, round_magnitude(magnitude_of(total), 1, 52, 2047));
        if total > 0 {
            lemma_round_magnitude_monotonic(total as nat, a.units() as nat, 1, 52, 2047);
            lemma2_to64_rest();
            lemma_exact_is_kept(a.magnitude(), 1, 52, 2047);
            assert(magnitude_units(a.magnitude(), 52) * 1 == a.units());
        }
    }
}

} // verus!
