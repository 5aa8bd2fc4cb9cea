//! What arithmetic means, on the number line.

use crate::decimal::{law_text_is_exact, number_text};
use crate::double::{
    law_order_is_value_order, lemma_round_at_most_infinite, lemma_round_zero, lemma_units_ordered,
    lemma_zero_units, magnitude_exponent,
    magnitude_of, magnitude_significand, magnitude_units, one_in_units, signed, single_is_infinite,
    single_is_nan, single_unit, single_units, Double, INFINITE,
};
use crate::precision::{
    lemma_exact_is_kept, lemma_rounded_units, lemma_sign_and_magnitude, lemma_signed,
};
use crate::rounding::{
    lemma_nearest_even_error, lemma_pow2_monotonic, lemma_round_magnitude_monotonic,
    lemma_step_exponent, nearest_even, round_magnitude, step_exponent,
};
use crate::text::decimal;
use vstd::arithmetic::div_mod::lemma_fundamental_div_mod;
use vstd::arithmetic::power::pow;
use vstd::arithmetic::power2::{
    lemma2_to64_rest, lemma_pow2_adds, lemma_pow2_pos, lemma_pow2_unfold, pow2,
};
use vstd::prelude::*;
use vstd::std_specs::cmp::PartialEqSpec;

verus! {

/// No number lies between a quotient and what it is rounded to.
proof fn lemma_faithful(num: int, den: nat, negative: bool, d: Double)
    requires
        den > 0,
        num < 0 ==> negative,
        num > 0 ==> !negative,
        d.finite(),
    ensures
        ({
            let s = signed(negative, round_magnitude(magnitude_of(num), den, 52, 2047));
            &&& !s.nan()
            &&& d.units() * den <= num ==> d.order_key() <= s.order_key()
            &&& d.units() * den >= num ==> d.order_key() >= s.order_key()
        }),
{
    let n = magnitude_of(num);
    let m = round_magnitude(n, den, 52, 2047);
    let size = magnitude_of(d.units());
    let exact = size * den;
    lemma2_to64_rest();
    lemma_round_at_most_infinite(n, den);
    lemma_signed(negative, m);
    lemma_sign_and_magnitude(d);
    lemma_exact_is_kept(d.magnitude(), den, 52, 2047);
    assert(round_magnitude(exact, den, 52, 2047) == d.magnitude());
    if n <= exact {
        lemma_round_magnitude_monotonic(n, exact, den, 52, 2047);
    }
    if exact <= n {
        lemma_round_magnitude_monotonic(exact, n, den, 52, 2047);
    }
    lemma_round_zero(den, 52, 2047);
    assert(d.units() * den == if d.units() < 0 {
        -(exact as int)
    } else {
        exact as int
    }) by (nonlinear_arith)
        requires
            size == if d.units() < 0 {
                -d.units()
            } else {
                d.units()
            },
            exact == size * den,
    ;
    assert(exact == 0 <==> size == 0) by (nonlinear_arith)
        requires
            exact == size * den,
            den > 0,
    ;
}

/// A sum of finite numbers is the exact one, or next to it: no number lies
/// between the two.
pub proof fn law_sums_are_faithful(a: Double, b: Double, d: Double)
    requires
        a.finite(),
        b.finite(),
        d.finite(),
    ensures
        !a.sum(b).nan(),
        d.units() <= a.units() + b.units() ==> !a.sum(b).less(d),
        d.units() >= a.units() + b.units() ==> !d.less(a.sum(b)),
{
    let exact = a.units() + b.units();
    let unit: nat = 1;
    assert(d.units() * unit == d.units());
    if exact == 0 {
        lemma_round_zero(1, 52, 2047);
        lemma_faithful(0, 1, a.negative() && b.negative(), d);
    } else {
        lemma_faithful(exact, 1, exact < 0, d);
    }
}

/// A difference is the sum with the opposite number, which is as far from zero
/// on the other side.
pub proof fn law_differences(a: Double, b: Double)
    ensures
        a.difference(b) == a.sum(b.opposite()),
        b.opposite().nan() == b.nan(),
        b.opposite().order_key() == -b.order_key(),
        b.opposite().negative() != b.negative(),
        b.absolute().nan() == b.nan(),
        b.absolute().order_key() == if b.order_key() < 0 {
            -b.order_key()
        } else {
            b.order_key()
        },
        b.finite() ==> b.opposite().units() == -b.units(),
        b.finite() ==> b.absolute().units() == magnitude_of(b.units()),
{
    lemma_sign_and_magnitude(b);
    lemma_signed(!b.negative(), b.magnitude());
    lemma_signed(false, b.magnitude());
}

/// A product of finite numbers is the exact one, or next to it.
pub proof fn law_products_are_faithful(a: Double, b: Double, d: Double)
    requires
        a.finite(),
        b.finite(),
        d.finite(),
    ensures
        !a.product(b).nan(),
        d.units() * one_in_units() <= a.units() * b.units() ==> !a.product(b).less(d),
        d.units() * one_in_units() >= a.units() * b.units() ==> !d.less(a.product(b)),
{
    let (x, y) = (a.units(), b.units());
    let negative = a.negative() != b.negative();
    lemma_sign_and_magnitude(a);
    lemma_sign_and_magnitude(b);
    lemma_pow2_pos(1074);
    assert(magnitude_of(x * y) == magnitude_of(x) * magnitude_of(y) && (x * y == 0 <==> x == 0 || y
        == 0) && (x != 0 && y != 0 ==> (x * y < 0 <==> (x < 0) != (y < 0)))) by (nonlinear_arith);
    lemma_faithful(x * y, one_in_units(), negative, d);
}

/// A quotient of finite numbers is the exact one, or next to it.
pub proof fn law_quotients_are_faithful(a: Double, b: Double, d: Double)
    requires
        a.finite(),
        b.finite(),
        b.units() > 0,
        d.finite(),
    ensures
        !a.quotient(b).nan(),
        d.units() * b.units() <= a.units() * one_in_units() ==> !a.quotient(b).less(d),
        d.units() * b.units() >= a.units() * one_in_units() ==> !d.less(a.quotient(b)),
        a.quotient(b.opposite()) == a.quotient(b).opposite(),
{
    let (x, y, w) = (a.units(), b.units(), one_in_units() as int);
    let negative = a.negative() != b.negative();
    lemma_sign_and_magnitude(a);
    lemma_sign_and_magnitude(b);
    lemma_pow2_pos(1074);
    assert(magnitude_of(x * w) == magnitude_of(x) * w && (x * w == 0 <==> x == 0) && (x != 0 ==> (x
        * w < 0 <==> x < 0))) by (nonlinear_arith)
        requires
            w > 0,
    ;
    lemma_faithful(x * w, y as nat, negative, d);
    lemma_signed(!b.negative(), b.magnitude());
    let c = b.opposite();
    lemma_sign_and_magnitude(c);
    let m = round_magnitude(magnitude_of(x) * one_in_units(), y as nat, 52, 2047);
    lemma_round_at_most_infinite(magnitude_of(x) * one_in_units(), y as nat);
    lemma_signed(negative, m);
}

/// An integer becomes the number that it is, or one next to it.
pub proof fn law_integers_are_faithful(i: int, d: Double)
    requires
        d.finite(),
    ensures
        !Double::of_integer(i).nan(),
        d.units() <= i * one_in_units() ==> !Double::of_integer(i).less(d),
        d.units() >= i * one_in_units() ==> !d.less(Double::of_integer(i)),
{
    let unit: nat = 1;
    assert(d.units() * unit == d.units());
    lemma_faithful(i * one_in_units(), 1, i * one_in_units() < 0, d);
}

/// What is left after whole divisors is less than a divisor, a whole number of
/// them from the number, and on its side of zero.
pub proof fn law_remainders_are_faithful(x: Double, divisor: Double, d: Double)
    requires
        x.finite(),
        divisor.finite(),
        !divisor.zero(),
        d.finite(),
    ensures
        ({
            let r = x.rest(divisor);
            let left = (magnitude_of(x.units()) % magnitude_of(divisor.units())) as int;
            let exact = if x.negative() {
                -left
            } else {
                left
            };
            &&& !r.nan()
            &&& 0 <= left < magnitude_of(divisor.units())
            &&& d.units() <= exact ==> !r.less(d)
            &&& d.units() >= exact ==> !d.less(r)
        }),
{
    lemma_sign_and_magnitude(x);
    lemma_sign_and_magnitude(divisor);
    let left = (magnitude_of(x.units()) % magnitude_of(divisor.units())) as int;
    let exact = if x.negative() {
        -left
    } else {
        left
    };
    let unit: nat = 1;
    assert(d.units() * unit == d.units());
    lemma_faithful(exact, 1, x.negative(), d);
}

/// Whether a number is one of the infinities, by its bits.
pub open spec fn is_infinity(x: Double) -> bool {
    x.bits == 0x7ff0_0000_0000_0000 || x.bits == 0xfff0_0000_0000_0000
}

/// What is not a number stays so, and so do sums of opposite infinities, products
/// of infinity and zero, and quotients of infinities and of zeros.
pub proof fn law_meaningless_results(a: Double, b: Double)
    ensures
        a.infinite() <==> is_infinity(a),
        a.sum(b).nan() <==> a.nan() || b.nan() || (is_infinity(a) && is_infinity(b) && a.bits
            != b.bits),
        a.product(b).nan() <==> a.nan() || b.nan() || (is_infinity(a) && b.zero()) || (a.zero()
            && is_infinity(b)),
        a.quotient(b).nan() <==> a.nan() || b.nan() || (is_infinity(a) && is_infinity(b)) || (
        a.zero() && b.zero()),
{
    lemma_sign_and_magnitude(a);
    lemma_sign_and_magnitude(b);
    let zero = Double { bits: 0 };
    if a.finite() && b.finite() {
        law_sums_are_faithful(a, b, zero);
        law_products_are_faithful(a, b, zero);
        let num = magnitude_of(a.units()) * one_in_units();
        lemma_round_at_most_infinite(num, magnitude_of(b.units()));
        lemma_signed(
            a.negative() != b.negative(),
            round_magnitude(num, magnitude_of(b.units()), 52, 2047),
        );
    }
    lemma_signed(a.negative() != b.negative(), 0x7ff0_0000_0000_0000);
    lemma_signed(a.negative() != b.negative(), 0);
}

/// Infinity absorbs what is finite; its sign is that of the rule of signs.
pub proof fn law_infinite_results(a: Double, b: Double)
    requires
        is_infinity(a),
        b.finite(),
    ensures
        a.sum(b) == a,
        b.sum(a) == a,
        a.quotient(b).order_key() == if a.negative() == b.negative() {
            0x7ff0_0000_0000_0000
        } else {
            -0x7ff0_0000_0000_0000int
        },
        b.quotient(a).zero(),
        !b.zero() ==> a.product(b).order_key() == if a.negative() == b.negative() {
            0x7ff0_0000_0000_0000
        } else {
            -0x7ff0_0000_0000_0000int
        },
        !b.zero() ==> b.product(a) == a.product(b),
{
    lemma_signed(a.negative() != b.negative(), 0x7ff0_0000_0000_0000);
    lemma_signed(a.negative() != b.negative(), 0);
}

/// Numbers compare by their place on the number line, with the infinities at its
/// ends; what is not a number compares with nothing.
pub proof fn law_comparisons(a: Double, b: Double)
    ensures
        a.nan() || b.nan() ==> !a.less(b) && !a.same(b),
        a.finite() && b.finite() ==> (a.less(b) <==> a.units() < b.units()),
        a.finite() && b.finite() ==> (a.same(b) <==> a.units() == b.units()),
        a.finite() && b.bits == 0x7ff0_0000_0000_0000 ==> a.less(b) && !b.less(a),
        a.finite() && b.bits == 0xfff0_0000_0000_0000 ==> b.less(a) && !a.less(b),
        is_infinity(a) && is_infinity(b) ==> (a.same(b) <==> a.bits == b.bits),
{
    if a.finite() && b.finite() {
        law_order_is_value_order(a, b);
    }
}

/// The smaller and the larger of two numbers, and a number held in bounds.
pub proof fn law_bounds(a: Double, b: Double, lo: Double, hi: Double)
    ensures
        a.nan() ==> a.smaller(b) == b && a.larger(b) == b,
        !a.nan() && b.nan() ==> a.smaller(b) == a && a.larger(b) == a,
        !a.nan() && !b.nan() ==> {
            let (least, most) = (a.smaller(b), a.larger(b));
            &&& least == a || least == b
            &&& most == a || most == b
            &&& !a.less(least) && !b.less(least)
            &&& !most.less(a) && !most.less(b)
        },
        a.less(lo) ==> a.clamped(lo, hi) == lo,
        !a.less(lo) && hi.less(a) ==> a.clamped(lo, hi) == hi,
        !a.less(lo) && !hi.less(a) ==> a.clamped(lo, hi) == a,
{
}

/// The text of a number spells it exactly: a minus sign where it has one, an
/// integer, and a power of ten to divide it by where the number is no integer.
pub proof fn law_number_texts(d: Double)
    ensures
        d.nan() ==> number_text(d) == "NaN"@,
        d.bits == 0x7ff0_0000_0000_0000 ==> number_text(d) == "inf"@,
        d.bits == 0xfff0_0000_0000_0000 ==> number_text(d) == "-inf"@,
        d.finite() ==> exists|n: nat, k: nat| #[trigger]
            is_text_of(number_text(d), d, n, k),
{
    reveal_strlit("");
    reveal_strlit("-");
    reveal_strlit("inf");
    reveal_strlit("-inf");
    if d.infinite() {
        assert(number_text(d) =~= if d.negative() {
            "-inf"@
        } else {
            "inf"@
        });
    } else if d.finite() {
        law_text_is_exact(d);
        let sig = magnitude_significand(d.magnitude(), 52);
        let exponent = magnitude_exponent(d.magnitude(), 52);
        if exponent >= 1074 {
            let n = sig * pow2((exponent - 1074) as nat);
            assert(number_text(d) =~= (if d.negative() {
                seq!['-']
            } else {
                Seq::empty()
            }) + decimal(n as int));
            assert(is_text_of(number_text(d), d, n, 0)) by {
                vstd::arithmetic::power::lemma_pow0(10);
            }
        } else {
            let k = (1074 - exponent) as nat;
            vstd::arithmetic::power::lemma_pow_positive(5, k);
            assert(sig * pow(5, k) >= 0) by (nonlinear_arith)
                requires
                    pow(5, k) > 0,
            ;
            let n = (sig * pow(5, k)) as nat;
            assert(number_text(d) =~= (if d.negative() {
                seq!['-']
            } else {
                Seq::empty()
            }) + (decimal(n as int) + "e-"@ + decimal(k as int)));
            assert(is_text_of(number_text(d), d, n, k));
        }
    }
}

/// Whether a text is a sign, if the number has one, and `n`, divided by `10^k`
/// where `k` is not zero, and that is the number.
pub open spec fn is_text_of(text: Seq<char>, d: Double, n: nat, k: nat) -> bool {
    &&& n * one_in_units() == magnitude_of(d.units()) * pow(10, k)
    &&& text == (if d.negative() {
        seq!['-']
    } else {
        Seq::empty()
    }) + if k == 0 {
        decimal(n as int)
    } else {
        decimal(n as int) + "e-"@ + decimal(k as int)
    }
}

/// What the 64 bits of a number mean: a sign, an exponent of eleven bits, and a
/// fraction of 52.
pub proof fn law_bits(x: Double)
    ensures
        ({
            let step = 0x10_0000_0000_0000int;
            let exponent = x.bits as int / step % 2048;
            let fraction = x.bits as int % step;
            let size = if exponent == 0 {
                fraction
            } else {
                (step + fraction) * pow2((exponent - 1) as nat)
            };
            &&& x.negative() <==> x.bits as int / step >= 2048
            &&& x.finite() <==> exponent < 2047
            &&& x.infinite() <==> exponent == 2047 && fraction == 0
            &&& x.nan() <==> exponent == 2047 && fraction > 0
            &&& x.zero() <==> exponent == 0 && fraction == 0
            &&& x.finite() ==> x.units() == if x.negative() {
                -size
            } else {
                size
            }
        }),
{
    lemma2_to64_rest();
    vstd::arithmetic::power2::lemma2_to64();
    let m = x.magnitude();
    let step = 0x10_0000_0000_0000int;
    let exponent = x.bits as int / step % 2048;
    let fraction = x.bits as int % step;
    assert(m == exponent * step + fraction);
    assert(m / pow2(52) == exponent);
    let k = magnitude_exponent(m, 52);
    if exponent == 0 {
        assert(k == 0);
        assert(magnitude_significand(m, 52) == fraction);
        assert(fraction * 1 == fraction);
    } else {
        assert(k == exponent - 1);
        assert(k * pow2(52) == (exponent - 1) * step);
        assert(magnitude_significand(m, 52) == step + fraction);
    }
}

/// What the 32 bits of a single-precision number mean: a sign, an exponent of
/// eight bits, and a fraction of 23.
pub proof fn law_single_bits(bits: u32)
    ensures
        ({
            let step = 0x80_0000int;
            let exponent = bits as int / step % 256;
            let fraction = bits as int % step;
            let size = if exponent == 0 {
                fraction
            } else {
                (step + fraction) * pow2((exponent - 1) as nat)
            };
            let negative = bits as int / step >= 256;
            &&& single_is_infinite(bits) <==> exponent == 255 && fraction == 0
            &&& single_is_nan(bits) <==> exponent == 255 && fraction > 0
            &&& single_units(bits) == if negative {
                -size
            } else {
                size
            }
            &&& single_is_nan(bits) ==> Double::of_single(bits).nan()
            &&& single_is_infinite(bits) ==> Double::of_single(bits).bits == if negative {
                0xfff0_0000_0000_0000u64
            } else {
                0x7ff0_0000_0000_0000u64
            }
        }),
{
    vstd::arithmetic::power2::lemma2_to64();
    let m = (bits % 0x8000_0000) as nat;
    let step = 0x80_0000int;
    let exponent = bits as int / step % 256;
    let fraction = bits as int % step;
    assert(m == exponent * step + fraction);
    assert(m / pow2(23) == exponent);
    let k = magnitude_exponent(m, 23);
    if exponent == 0 {
        assert(k == 0);
        assert(magnitude_significand(m, 23) == fraction);
        assert(fraction * 1 == fraction);
    } else {
        assert(k == exponent - 1);
        assert(k * pow2(23) == (exponent - 1) * step);
        assert(magnitude_significand(m, 23) == step + fraction);
    }
}

/// Place of a single-precision number on the number line; the zeros share one.
pub open spec fn single_key(bits: u32) -> int {
    if bits >= 0x8000_0000 {
        -(bits % 0x8000_0000)
    } else {
        bits as int
    }
}

/// A number becomes the single-precision number that it is, or one next to it: no
/// other lies between. Infinities stay, and so does what is not a number.
pub proof fn law_singles_are_faithful(x: Double, t: u32)
    requires
        !single_is_nan(t),
        !single_is_infinite(t),
    ensures
        x.nan() ==> single_is_nan(x.single()),
        x.bits == 0x7ff0_0000_0000_0000 ==> x.single() == 0x7f80_0000,
        x.bits == 0xfff0_0000_0000_0000 ==> x.single() == 0xff80_0000,
        x.finite() ==> !single_is_nan(x.single()),
        x.finite() && single_units(t) * single_unit() <= x.units() ==> single_key(t) <= single_key(
            x.single(),
        ),
        x.finite() && single_units(t) * single_unit() >= x.units() ==> single_key(t) >= single_key(
            x.single(),
        ),
{
    let den = single_unit();
    vstd::arithmetic::power2::lemma2_to64();
    lemma_pow2_pos(925);
    if x.finite() {
        let n = magnitude_of(x.units());
        let m = round_magnitude(n, den, 23, 255);
        let size = magnitude_of(single_units(t));
        let exact = size * den;
        let place = (t % 0x8000_0000) as nat;
        lemma_round_at_most_infinite(n, den);
        lemma_sign_and_magnitude(x);
        lemma_exact_is_kept(place, den, 23, 255);
        assert(size == magnitude_units(place, 23));
        assert(round_magnitude(exact, den, 23, 255) == place);
        if n <= exact {
            lemma_round_magnitude_monotonic(n, exact, den, 23, 255);
        }
        if exact <= n {
            lemma_round_magnitude_monotonic(exact, n, den, 23, 255);
        }
        lemma_round_zero(den, 23, 255);
        let u = single_units(t);
        assert(u * den == if u < 0 {
            -(exact as int)
        } else {
            exact as int
        }) by (nonlinear_arith)
            requires
                size == if u < 0 {
                    -u
                } else {
                    u
                },
                exact == size * den,
        ;
        assert(exact == 0 <==> size == 0) by (nonlinear_arith)
            requires
                exact == size * den,
                den > 0,
        ;
    }
}

/// The distance of two integers.
pub open spec fn distance(a: int, b: int) -> int {
    if a < b {
        b - a
    } else {
        a - b
    }
}

/// Half a step is where the nearest whole number is as near as another one; it is
/// even there.
proof fn lemma_ties_to_even(num: nat, step: nat, j: int)
    requires
        step > 0,
    ensures
        ({
            let n = nearest_even(num, step) as int;
            &&& distance(n * step, num as int) <= distance(j * step, num as int)
            &&& j != n && distance(n * step, num as int) == distance(j * step, num as int) ==> n % 2
                == 0
        }),
{
    let n = nearest_even(num, step) as int;
    let q = (num / step) as int;
    let r = (num % step) as int;
    lemma_fundamental_div_mod(num as int, step as int);
    lemma_nearest_even_error(num, step);
    assert(step * q == q * step && (q + 1) * step == q * step + step) by (nonlinear_arith);
    assert(j > n ==> j * step >= n * step + step) by (nonlinear_arith)
        requires
            step > 0,
    ;
    assert(j < n ==> j * step <= n * step - step) by (nonlinear_arith)
        requires
            step > 0,
    ;
}

/// No number is nearer to a quotient than what it is rounded to, and where one is
/// as near, the last bit is zero.
proof fn lemma_nearest(num: nat, den: nat, e: nat)
    requires
        den > 0,
        round_magnitude(num, den, 52, 2047) < INFINITE,
        e < INFINITE,
    ensures
        ({
            let m = round_magnitude(num, den, 52, 2047);
            let here = distance((magnitude_units(m, 52) * den) as int, num as int);
            let there = distance((magnitude_units(e, 52) * den) as int, num as int);
            &&& here <= there
            &&& here == there && e != m ==> m % 2 == 0
        }),
{
    lemma2_to64_rest();
    let k = step_exponent(num, den, 52);
    let w = pow2(k);
    let step = den * w;
    let n = nearest_even(num, step);
    let m = round_magnitude(num, den, 52, 2047);
    lemma_pow2_pos(k);
    lemma_step_exponent(num, den, 52);
    lemma_rounded_units(num, den, 52, 2047);
    assert(step > 0) by (nonlinear_arith)
        requires
            den > 0,
            w > 0,
            step == den * w,
    ;
    assert((n * w) * den == n * step) by (nonlinear_arith)
        requires
            step == den * w,
    ;
    assert(m == k * 0x10_0000_0000_0000 + n);
    assert(n % 2 == 0 ==> m % 2 == 0);
    let x = magnitude_exponent(e, 52);
    let sig = magnitude_significand(e, 52);
    let units = magnitude_units(e, 52);
    lemma_pow2_pos(x);
    if x >= k {
        let c = pow2((x - k) as nat);
        lemma_pow2_adds((x - k) as nat, k);
        let j = (sig * c) as int;
        assert(units * den == j * step) by (nonlinear_arith)
            requires
                units == sig * (c * w),
                j == sig * c,
                step == den * w,
        ;
        lemma_ties_to_even(num, step, j);
        if j == n {
            assert(units == n * w) by (nonlinear_arith)
                requires
                    units == sig * (c * w),
                    j == sig * c,
                    j == n,
            ;
            if e < m {
                lemma_units_ordered(e, m);
            } else if m < e {
                lemma_units_ordered(m, e);
            }
        }
    } else {
        let top = pow2(52);
        lemma_pow2_adds(k, 52);
        lemma_pow2_monotonic(x + 1, k);
        lemma_pow2_unfold(x + 1);
        lemma_pow2_unfold(53);
        assert(sig < 2 * top);
        assert(units < top * w) by (nonlinear_arith)
            requires
                units == sig * pow2(x),
                sig < 2 * top,
                2 * pow2(x) <= w,
                pow2(x) > 0,
        ;
        assert(units * den < top * step && top * step == den * (w * top)) by (nonlinear_arith)
            requires
                units < top * w,
                den > 0,
                step == den * w,
        ;
        lemma_ties_to_even(num, step, top as int);
    }
}

/// The same with signs.
proof fn lemma_nearest_signed(num: int, den: nat, negative: bool, d: Double)
    requires
        den > 0,
        num < 0 ==> negative,
        num > 0 ==> !negative,
        d.finite(),
        signed(negative, round_magnitude(magnitude_of(num), den, 52, 2047)).finite(),
    ensures
        ({
            let s = signed(negative, round_magnitude(magnitude_of(num), den, 52, 2047));
            let here = distance(s.units() * den, num);
            let there = distance(d.units() * den, num);
            &&& here <= there
            &&& here == there && d.units() != s.units() ==> s.bits % 2 == 0
        }),
{
    let n = magnitude_of(num);
    let m = round_magnitude(n, den, 52, 2047);
    lemma_round_at_most_infinite(n, den);
    lemma_signed(negative, m);
    lemma_sign_and_magnitude(d);
    let s = signed(negative, m);
    lemma_sign_and_magnitude(s);
    lemma_nearest(n, den, d.magnitude());
    let (a, b) = (magnitude_units(m, 52) as int, magnitude_units(d.magnitude(), 52) as int);
    let (su, du) = (s.units(), d.units());
    assert(su * den == (if su < 0 {
        -(a * den)
    } else {
        a * den
    }) && du * den == (if du < 0 {
        -(b * den)
    } else {
        b * den
    }) && a * den >= 0 && b * den >= 0 && (b * den == 0 ==> b == 0)) by (nonlinear_arith)
        requires
            su == a || su == -a,
            du == b || du == -b,
            a >= 0,
            b >= 0,
            den > 0,
            su < 0 ==> su == -a,
            su >= 0 ==> su == a,
            du < 0 ==> du == -b,
            du >= 0 ==> du == b,
    ;
    lemma_round_zero(den, 52, 2047);
    if n == 0 {
        lemma_zero_units();
        assert(0 * den == 0);
    } else {
        assert(su < 0 ==> num < 0);
        assert(su > 0 ==> num > 0);
        if a == 0 {
            assert(a * den == 0);
        }
    }
}

/// A sum is the number nearest to the exact one; of two that are as near, the one
/// whose last bit is zero.
pub proof fn law_sums_are_nearest(a: Double, b: Double, d: Double)
    requires
        a.finite(),
        b.finite(),
        d.finite(),
        a.sum(b).finite(),
    ensures
        ({
            let exact = a.units() + b.units();
            let here = distance(a.sum(b).units(), exact);
            let there = distance(d.units(), exact);
            &&& here <= there
            &&& here == there && d.units() != a.sum(b).units() ==> a.sum(b).bits % 2 == 0
        }),
{
    let exact = a.units() + b.units();
    let unit: nat = 1;
    assert(d.units() * unit == d.units());
    assert(a.sum(b).units() * unit == a.sum(b).units());
    if exact == 0 {
        lemma_round_zero(1, 52, 2047);
        lemma_nearest_signed(0, 1, a.negative() && b.negative(), d);
    } else {
        lemma_nearest_signed(exact, 1, exact < 0, d);
    }
}

/// A product is the number nearest to the exact one; of two that are as near, the
/// one whose last bit is zero.
pub proof fn law_products_are_nearest(a: Double, b: Double, d: Double)
    requires
        a.finite(),
        b.finite(),
        d.finite(),
        a.product(b).finite(),
    ensures
        ({
            let exact = a.units() * b.units();
            let here = distance(a.product(b).units() * one_in_units(), exact);
            let there = distance(d.units() * one_in_units(), exact);
            &&& here <= there
            &&& here == there && d.units() != a.product(b).units() ==> a.product(b).bits % 2 == 0
        }),
{
    let (x, y) = (a.units(), b.units());
    lemma_sign_and_magnitude(a);
    lemma_sign_and_magnitude(b);
    lemma_pow2_pos(1074);
    assert(magnitude_of(x * y) == magnitude_of(x) * magnitude_of(y) && (x * y == 0 <==> x == 0 || y
        == 0) && (x != 0 && y != 0 ==> (x * y < 0 <==> (x < 0) != (y < 0)))) by (nonlinear_arith);
    lemma_nearest_signed(x * y, one_in_units(), a.negative() != b.negative(), d);
}

/// A quotient is the number nearest to the exact one; of two that are as near, the
/// one whose last bit is zero.
pub proof fn law_quotients_are_nearest(a: Double, b: Double, d: Double)
    requires
        a.finite(),
        b.finite(),
        b.units() > 0,
        d.finite(),
        a.quotient(b).finite(),
    ensures
        ({
            let exact = a.units() * one_in_units();
            let here = distance(a.quotient(b).units() * b.units(), exact);
            let there = distance(d.units() * b.units(), exact);
            &&& here <= there
            &&& here == there && d.units() != a.quotient(b).units() ==> a.quotient(b).bits % 2 == 0
        }),
{
    let (x, y, w) = (a.units(), b.units(), one_in_units() as int);
    lemma_sign_and_magnitude(a);
    lemma_sign_and_magnitude(b);
    lemma_pow2_pos(1074);
    assert(magnitude_of(x * w) == magnitude_of(x) * w && (x * w == 0 <==> x == 0) && (x != 0 ==> (x
        * w < 0 <==> x < 0))) by (nonlinear_arith)
        requires
            w > 0,
    ;
    lemma_nearest_signed(x * w, y as nat, a.negative() != b.negative(), d);
}

/// An integer becomes the number nearest to it; of two that are as near, the one
/// whose last bit is zero.
pub proof fn law_integers_are_nearest(i: int, d: Double)
    requires
        d.finite(),
        Double::of_integer(i).finite(),
    ensures
        ({
            let exact = i * one_in_units();
            let x = Double::of_integer(i);
            let here = distance(x.units(), exact);
            let there = distance(d.units(), exact);
            &&& here <= there
            &&& here == there && d.units() != x.units() ==> x.bits % 2 == 0
        }),
{
    let exact = i * one_in_units();
    let unit: nat = 1;
    assert(d.units() * unit == d.units());
    assert(Double::of_integer(i).units() * unit == Double::of_integer(i).units());
    lemma_nearest_signed(exact, 1, exact < 0, d);
}

/// Numbers are equal where they stand at one place of the number line.
pub proof fn law_equality(a: Double, b: Double)
    ensures
        a.eq_spec(&b) <==> !a.nan() && !b.nan() && a.order_key() == b.order_key(),
{
}

} // verus!
