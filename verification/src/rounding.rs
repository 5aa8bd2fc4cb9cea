//! Rounding of exact quotients to binary floating-point magnitudes.
//!
//! A magnitude is the bit pattern of a non-negative IEEE 754 number without
//! its sign bit. Every finite magnitude stands for a whole number of units,
//! one unit being the smallest positive number of the format, so an exact
//! intermediate result is a quotient of two naturals counted in those units.

use vstd::arithmetic::div_mod::{
    lemma_fundamental_div_mod, lemma_fundamental_div_mod_converse, lemma_mod_bound,
};
use vstd::arithmetic::mul::{
    lemma_mul_inequality, lemma_mul_is_associative, lemma_mul_is_commutative,
    lemma_mul_is_distributive_add_other_way,
};
use vstd::arithmetic::power2::{
    lemma2_to64, lemma2_to64_rest, lemma_pow2_adds, lemma_pow2_pos, lemma_pow2_strictly_increases,
    lemma_pow2_unfold, pow2,
};
use vstd::prelude::*;

verus! {

/// The whole number nearest to `num / den`, the even one of two that are
/// equally near.
pub open spec fn nearest_even(num: nat, den: nat) -> nat {
    let quotient = num / den;
    let rest = num % den;
    if 2 * rest > den || (2 * rest == den && quotient % 2 == 1) {
        quotient + 1
    } else {
        quotient
    }
}

/// The least `k` with `num / den < 2^(k + p + 1)`: a significand of `p + 1`
/// bits counts the quotient in steps of `2^k` units.
pub open spec fn step_exponent(num: nat, den: nat, p: nat) -> nat
    decreases num - den,
{
    if den == 0 || num < den * pow2(p + 1) {
        0
    } else {
        proof {
            lemma_pow2_at_least_two(p + 1);
            lemma_mul_inequality(2, pow2(p + 1) as int, den as int);
            lemma_mul_is_commutative(den as int, pow2(p + 1) as int);
        }
        1 + step_exponent(num, 2 * den, p)
    }
}

/// The magnitude nearest to `num / den` units in a format with `p` fraction
/// bits, ties to the even significand, and the infinity of that format (whose
/// exponent field is `emax`) where the quotient is too large.
pub open spec fn round_magnitude(num: nat, den: nat, p: nat, emax: nat) -> nat {
    let k = step_exponent(num, den, p);
    let rounded = k * pow2(p) + nearest_even(num, den * pow2(k));
    if rounded < emax * pow2(p) {
        rounded
    } else {
        emax * pow2(p)
    }
}

/// `sig` is `num / den` counted in steps of `2^exp`, rounded down; `sticky`
/// says whether anything was cut off.
pub open spec fn brackets(num: nat, den: nat, sig: nat, exp: int, sticky: bool) -> bool {
    let n = scaled_num(num, exp);
    let d = scaled_den(den, exp);
    &&& sig * d <= n < (sig + 1) * d
    &&& sticky <==> n != sig * d
}

pub open spec fn scaled_num(num: nat, exp: int) -> nat {
    if exp < 0 {
        num * pow2((-exp) as nat)
    } else {
        num
    }
}

pub open spec fn scaled_den(den: nat, exp: int) -> nat {
    if exp < 0 {
        den
    } else {
        den * pow2(exp as nat)
    }
}

pub proof fn lemma_pow2_at_least_two(n: nat)
    requires
        n > 0,
    ensures
        pow2(n) >= 2,
{
    lemma_pow2_unfold(n);
    lemma_pow2_pos((n - 1) as nat);
}

pub proof fn lemma_pow2_monotonic(a: nat, b: nat)
    requires
        a <= b,
    ensures
        pow2(a) <= pow2(b),
{
    if a < b {
        lemma_pow2_strictly_increases(a, b);
    }
}

/// `step_exponent` is the only `k` that meets its description.
pub proof fn lemma_step_exponent_is(num: nat, den: nat, p: nat, k: nat)
    requires
        den > 0,
        num < den * pow2(k + p + 1),
        k > 0 ==> num >= den * pow2(k + p),
    ensures
        step_exponent(num, den, p) == k,
    decreases k,
{
    if k > 0 {
        lemma_pow2_monotonic(p + 1, k + p);
        lemma_mul_inequality(pow2(p + 1) as int, pow2(k + p) as int, den as int);
        lemma_mul_is_commutative(den as int, pow2(p + 1) as int);
        lemma_mul_is_commutative(den as int, pow2(k + p) as int);
        lemma_pow2_unfold(k + p + 1);
        lemma_pow2_unfold(k + p);
        let k1 = (k - 1) as nat;
        assert(k + p == k1 + p + 1);
        let a = pow2(k1 + p + 1);
        let b = pow2(k1 + p);
        assert(den * (2 * a) == (2 * den) * a) by (nonlinear_arith);
        assert(den * (2 * b) == (2 * den) * b) by (nonlinear_arith);
        lemma_step_exponent_is(num, 2 * den, p, k1);
    } else {
        assert(k + p + 1 == p + 1);
    }
}

/// What `step_exponent` gives meets its description.
pub proof fn lemma_step_exponent(num: nat, den: nat, p: nat)
    requires
        den > 0,
    ensures
        num < den * pow2(step_exponent(num, den, p) + p + 1),
        step_exponent(num, den, p) > 0 ==> num >= den * pow2(step_exponent(num, den, p) + p),
    decreases num - den,
{
    let k = step_exponent(num, den, p);
    if num < den * pow2(p + 1) {
        assert(k + p + 1 == p + 1);
    } else {
        lemma_pow2_at_least_two(p + 1);
        lemma_mul_inequality(2, pow2(p + 1) as int, den as int);
        lemma_mul_is_commutative(den as int, pow2(p + 1) as int);
        lemma_step_exponent(num, 2 * den, p);
        let k1 = step_exponent(num, 2 * den, p);
        assert(k == k1 + 1);
        lemma_pow2_unfold(k + p + 1);
        lemma_pow2_unfold(k + p);
        let a = pow2(k1 + p + 1);
        assert((2 * den) * a == den * (2 * a)) by (nonlinear_arith);
        assert(k + p == k1 + p + 1);
        assert(k + p + 1 == k1 + 1 + p + 1);
        assert(pow2(k + p + 1) == 2 * a);
        if k1 > 0 {
            let b = pow2(k1 + p);
            assert((2 * den) * b == den * (2 * b)) by (nonlinear_arith);
        }
    }
}

/// A common factor does not change what a quotient is rounded to.
pub proof fn lemma_round_magnitude_scale(num: nat, den: nat, c: nat, p: nat, emax: nat)
    requires
        den > 0,
        c > 0,
    ensures
        den * c > 0,
        round_magnitude(num * c, den * c, p, emax) == round_magnitude(num, den, p, emax),
{
    let k = step_exponent(num, den, p);
    lemma_step_exponent(num, den, p);
    let hi = pow2(k + p + 1);
    let lo = pow2(k + p);
    assert(den * c > 0) by (nonlinear_arith)
        requires
            den > 0,
            c > 0,
    ;
    assert(num * c < (den * c) * hi) by (nonlinear_arith)
        requires
            num < den * hi,
            c > 0,
    ;
    if k > 0 {
        assert(num * c >= (den * c) * lo) by (nonlinear_arith)
            requires
                num >= den * lo,
                c > 0,
        ;
    }
    lemma_step_exponent_is(num * c, den * c, p, k);
    lemma_pow2_pos(k);
    let w = pow2(k);
    assert(den * w > 0) by (nonlinear_arith)
        requires
            den > 0,
            w > 0,
    ;
    lemma_nearest_even_scale(num, den * w, c);
    assert((den * w) * c == (den * c) * w) by (nonlinear_arith);
}

/// The nearest whole number is at most half a step away.
pub proof fn lemma_nearest_even_error(num: nat, den: nat)
    requires
        den > 0,
    ensures
        2 * (nearest_even(num, den) * den - num) <= den,
        2 * (num - nearest_even(num, den) * den) <= den,
{
    let q = num / den;
    let r = num % den;
    lemma_fundamental_div_mod(num as int, den as int);
    lemma_mod_bound(num as int, den as int);
    assert(den * q == q * den && (q + 1) * den == q * den + den) by (nonlinear_arith);
}

/// A common factor does not change the nearest whole number.
pub proof fn lemma_nearest_even_scale(num: nat, den: nat, c: nat)
    requires
        den > 0,
        c > 0,
    ensures
        den * c > 0,
        nearest_even(num * c, den * c) == nearest_even(num, den),
{
    let q = num / den;
    let r = num % den;
    lemma_fundamental_div_mod(num as int, den as int);
    lemma_mod_bound(num as int, den as int);
    assert(num * c == q * (den * c) + r * c) by (nonlinear_arith)
        requires
            num == den * q + r,
    ;
    assert(0 <= r * c < den * c && den * c > 0) by (nonlinear_arith)
        requires
            0 <= r < den,
            c > 0,
    ;
    lemma_fundamental_div_mod_converse((num * c) as int, (den * c) as int, q as int, (r * c) as int);
    assert(2 * r > den <==> 2 * (r * c) > den * c) by (nonlinear_arith)
        requires
            c > 0,
    ;
    assert(2 * r == den <==> 2 * (r * c) == den * c) by (nonlinear_arith)
        requires
            c > 0,
    ;
}

/// Rounding a bracketed quotient `n / d` to a step `w` times as long needs
/// only the significand and the sticky bit.
pub proof fn lemma_nearest_even_bracketed(n: nat, d: nat, sig: nat, w: nat, sticky: bool)
    requires
        d > 0,
        w >= 2,
        w % 2 == 0,
        sig * d <= n < (sig + 1) * d,
        sticky <==> n != sig * d,
    ensures
        d * w > 0,
        nearest_even(n, d * w) == ({
            let q = sig / w;
            let rem = sig % w;
            if rem > w / 2 || (rem == w / 2 && (sticky || q % 2 == 1)) {
                q + 1
            } else {
                q
            }
        }),
{
    let q = sig / w;
    let rem = sig % w;
    let half = w / 2;
    lemma_fundamental_div_mod(sig as int, w as int);
    lemma_mod_bound(sig as int, w as int);
    let delta = n - sig * d;
    let r = rem * d + delta;
    assert(n == q * (d * w) + r) by (nonlinear_arith)
        requires
            sig == w * q + rem,
            delta == n - sig * d,
            r == rem * d + delta,
    ;
    assert(0 <= delta < d) by (nonlinear_arith)
        requires
            delta == n - sig * d,
            sig * d <= n < (sig + 1) * d,
    ;
    assert(0 <= r < d * w && d * w > 0) by (nonlinear_arith)
        requires
            0 <= delta < d,
            r == rem * d + delta,
            0 <= rem < w,
    ;
    lemma_fundamental_div_mod_converse(n as int, (d * w) as int, q as int, r);
    assert(d * w == 2 * (half * d)) by (nonlinear_arith)
        requires
            w == 2 * half,
    ;
    if rem > half {
        assert(r > half * d) by (nonlinear_arith)
            requires
                rem >= half + 1,
                r == rem * d + delta,
                0 <= delta,
                d > 0,
        ;
    } else if rem < half {
        assert(r < half * d) by (nonlinear_arith)
            requires
                rem + 1 <= half,
                r == rem * d + delta,
                delta < d,
        ;
    }
}

/// An exact multiple of the step is its own nearest whole number.
pub proof fn lemma_nearest_even_exact(n: nat, d: nat)
    requires
        d > 0,
    ensures
        nearest_even(n * d, d) == n,
{
    lemma_fundamental_div_mod_converse((n * d) as int, d as int, n as int, 0);
}

/// `pow2` of a machine number.
pub fn power_of_two(n: u32) -> (r: u128)
    requires
        n < 128,
    ensures
        r == pow2(n as nat),
        r > 0,
{
    proof {
        lemma2_to64();
        lemma_pow2_128();
    }
    let mut r: u128 = 1;
    let mut i: u32 = 0;
    while i < n
        invariant
            i <= n < 128,
            r == pow2(i as nat),
            r > 0,
            pow2(127) == 0x8000_0000_0000_0000_0000_0000_0000_0000,
        decreases n - i,
    {
        proof {
            lemma_pow2_unfold((i + 1) as nat);
            lemma_pow2_monotonic((i + 1) as nat, 127);
        }
        r = r * 2;
        i = i + 1;
    }
    r
}

pub proof fn lemma_pow2_128()
    ensures
        pow2(127) == 0x8000_0000_0000_0000_0000_0000_0000_0000,
        pow2(128) == 0x1_0000_0000_0000_0000_0000_0000_0000_0000,
{
    lemma2_to64();
    lemma_pow2_adds(64, 64);
    lemma_pow2_unfold(128);
}

/// The number of bits of `x`.
pub fn bit_length(x: u128) -> (n: u32)
    ensures
        n <= 128,
        x < pow2(n as nat),
        n > 0 ==> x >= pow2((n - 1) as nat),
        x > 0 ==> n > 0,
{
    proof {
        lemma2_to64();
        lemma_pow2_128();
    }
    let mut n: u32 = 0;
    let mut rest: u128 = x;
    while rest > 0
        invariant
            n <= 128,
            rest == x as nat / pow2(n as nat),
            x < 0x1_0000_0000_0000_0000_0000_0000_0000_0000,
            n > 0 ==> x >= pow2((n - 1) as nat),
            n == 0 ==> rest == x,
            pow2(128) == 0x1_0000_0000_0000_0000_0000_0000_0000_0000,
        decreases rest,
    {
        proof {
            lemma_pow2_pos(n as nat);
            lemma_pow2_unfold((n + 1) as nat);
            let w = pow2(n as nat) as int;
            lemma_fundamental_div_mod(x as int, w);
            lemma_mod_bound(x as int, w);
            assert(x >= w) by (nonlinear_arith)
                requires
                    x == w * (x as int / w) + x as int % w,
                    x as int / w >= 1,
                    w > 0,
                    x as int % w >= 0,
            ;
            vstd::arithmetic::div_mod::lemma_div_denominator(x as int, w, 2);
            lemma_mul_is_commutative(w, 2);
        }
        rest = rest / 2;
        n = n + 1;
    }
    proof {
        lemma_pow2_pos(n as nat);
        let w = pow2(n as nat) as int;
        lemma_fundamental_div_mod(x as int, w);
        lemma_mod_bound(x as int, w);
        assert(x < w) by (nonlinear_arith)
            requires
                x == w * (x as int / w) + x as int % w,
                x as int / w == 0,
                x as int % w < w,
        ;
    }
    n
}

/// The bounds that a significand of `bl` bits puts on the quotient it brackets.
proof fn lemma_bracket_bounds(num: nat, den: nat, sig: nat, exp: int, sticky: bool, bl: nat)
    requires
        den > 0,
        bl > 0,
        pow2((bl - 1) as nat) <= sig < pow2(bl),
        brackets(num, den, sig, exp, sticky),
    ensures
        bl + exp >= 0 ==> num < den * pow2((bl + exp) as nat),
        bl + exp < 0 ==> num < den,
        bl + exp > 0 ==> num >= den * pow2((bl + exp - 1) as nat),
{
    let n = scaled_num(num, exp);
    let d = scaled_den(den, exp);
    let hi = pow2(bl);
    let lo = pow2((bl - 1) as nat);
    assert(n < hi * d && n >= lo * d) by (nonlinear_arith)
        requires
            sig * d <= n < (sig + 1) * d,
            lo <= sig,
            sig + 1 <= hi,
            d >= 0,
    ;
    if exp >= 0 {
        let w = pow2(exp as nat);
        lemma_pow2_adds(bl, exp as nat);
        lemma_pow2_adds((bl - 1) as nat, exp as nat);
        assert(hi * (den * w) == den * (hi * w)) by (nonlinear_arith);
        assert(lo * (den * w) == den * (lo * w)) by (nonlinear_arith);
        assert((bl - 1) as nat + exp as nat == (bl + exp - 1) as nat);
        assert(bl + exp as nat == (bl + exp) as nat);
    } else {
        let c = pow2((-exp) as nat);
        lemma_pow2_pos((-exp) as nat);
        if bl + exp >= 0 {
            let t = pow2((bl + exp) as nat);
            lemma_pow2_adds((bl + exp) as nat, (-exp) as nat);
            assert((bl + exp) as nat + (-exp) as nat == bl);
            assert(num < den * t) by (nonlinear_arith)
                requires
                    num * c < (t * c) * den,
                    c > 0,
            ;
        } else {
            lemma_pow2_monotonic(bl, (-exp) as nat);
            assert(num < den) by (nonlinear_arith)
                requires
                    num * c < hi * den,
                    hi <= c,
                    c > 0,
            ;
        }
        if bl + exp > 0 {
            let t = pow2((bl + exp - 1) as nat);
            lemma_pow2_adds((bl + exp - 1) as nat, (-exp) as nat);
            assert((bl + exp - 1) as nat + (-exp) as nat == (bl - 1) as nat);
            assert(num >= den * t) by (nonlinear_arith)
                requires
                    num * c >= (t * c) * den,
                    c > 0,
            ;
        }
    }
}

/// Counting the quotient in steps of `2^k` is counting the scaled quotient in
/// steps of `2^(k - exp)`.
proof fn lemma_scaled_step(num: nat, den: nat, exp: int, k: nat)
    requires
        den > 0,
        k >= exp,
    ensures
        scaled_den(den, exp) > 0,
        nearest_even(num, den * pow2(k)) == nearest_even(
            scaled_num(num, exp),
            scaled_den(den, exp) * pow2((k - exp) as nat),
        ),
{
    let s = (k - exp) as nat;
    lemma_pow2_pos(k);
    lemma_pow2_pos(s);
    if exp >= 0 {
        lemma_pow2_pos(exp as nat);
        lemma_pow2_adds(exp as nat, s);
        assert(exp as nat + s == k);
        lemma_mul_is_associative(den as int, pow2(exp as nat) as int, pow2(s) as int);
        assert(den * pow2(exp as nat) > 0) by (nonlinear_arith)
            requires
                den > 0,
                pow2(exp as nat) > 0,
        ;
    } else {
        let c = pow2((-exp) as nat);
        lemma_pow2_pos((-exp) as nat);
        lemma_pow2_adds(k, (-exp) as nat);
        assert(k + (-exp) as nat == s);
        lemma_mul_is_associative(den as int, pow2(k) as int, c as int);
        assert(den * pow2(k) > 0) by (nonlinear_arith)
            requires
                den > 0,
                pow2(k) > 0,
        ;
        lemma_nearest_even_scale(num, den * pow2(k), c);
    }
}

/// How large the rounded significand can be.
pub proof fn lemma_nearest_even_bounds(num: nat, den: nat, p: nat, k: nat)
    requires
        den > 0,
        num < den * pow2(k + p + 1),
        k > 0 ==> num >= den * pow2(k + p),
    ensures
        nearest_even(num, den * pow2(k)) <= pow2(p + 1),
        k > 0 ==> nearest_even(num, den * pow2(k)) >= pow2(p),
{
    lemma_pow2_pos(k);
    let d = den * pow2(k);
    assert(d > 0) by (nonlinear_arith)
        requires
            d == den * pow2(k),
            den > 0,
            pow2(k) > 0,
    ;
    lemma_pow2_adds(k, p + 1);
    lemma_pow2_adds(k, p);
    lemma_mul_is_associative(den as int, pow2(k) as int, pow2(p + 1) as int);
    lemma_mul_is_associative(den as int, pow2(k) as int, pow2(p) as int);
    let q = num / d;
    let r = num % d;
    lemma_fundamental_div_mod(num as int, d as int);
    lemma_mod_bound(num as int, d as int);
    let hi = pow2(p + 1);
    let lo = pow2(p);
    assert(q < hi) by (nonlinear_arith)
        requires
            num == d * q + r,
            r >= 0,
            num < d * hi,
            d > 0,
    ;
    if k > 0 {
        assert(q >= lo) by (nonlinear_arith)
            requires
                num == d * q + r,
                r < d,
                num >= d * lo,
                d > 0,
        ;
    }
}

/// Rounds the quotient that `sig`, `exp` and `sticky` bracket. Anything cut
/// off the significand has to lie below the rounding position.
pub(crate) fn round_bracketed(
    sig: u128,
    exp: i32,
    sticky: bool,
    p: u32,
    emax: u32,
    Ghost(num): Ghost<nat>,
    Ghost(den): Ghost<nat>,
) -> (magnitude: u64)
    requires
        sig > 0,
        -10_000 <= exp <= 10_000,
        p == 52 && emax == 2047 || p == 23 && emax == 255,
        den > 0,
        brackets(num, den, sig as nat, exp as int, sticky),
        sticky ==> sig >= pow2((p + 1) as nat),
    ensures
        magnitude == round_magnitude(num, den, p as nat, emax as nat),
{
    let bl: u32 = bit_length(sig);
    let top: i32 = bl as i32 + exp;
    let k: i32 = if top > p as i32 + 1 {
        top - (p as i32 + 1)
    } else {
        0
    };
    let ghost gk = k as nat;
    let ghost gp = p as nat;
    proof {
        lemma2_to64();
        lemma2_to64_rest();
        lemma_bracket_bounds(num, den, sig as nat, exp as int, sticky, bl as nat);
        if top >= 0 {
            lemma_pow2_monotonic(top as nat, gk + gp + 1);
            lemma_mul_inequality(pow2(top as nat) as int, pow2(gk + gp + 1) as int, den as int);
            lemma_mul_is_commutative(den as int, pow2(top as nat) as int);
            lemma_mul_is_commutative(den as int, pow2(gk + gp + 1) as int);
        } else {
            lemma_pow2_pos(gk + gp + 1);
            lemma_mul_inequality(1, pow2(gk + gp + 1) as int, den as int);
            lemma_mul_is_commutative(den as int, pow2(gk + gp + 1) as int);
        }
        if gk > 0 {
            assert((top - 1) as nat == gk + gp);
        }
        lemma_step_exponent_is(num, den, gp, gk);
        lemma_nearest_even_bounds(num, den, gp, gk);
        lemma_pow2_unfold(gp + 1);
    }
    if k >= emax as i32 - 1 {
        let r: u64 = if p == 52 {
            2047 * 0x10_0000_0000_0000
        } else {
            255 * 0x80_0000
        };
        proof {
            lemma_mul_inequality(emax - 1, k as int, pow2(gp) as int);
            lemma_mul_is_distributive_add_other_way(pow2(gp) as int, emax - 1, 1);
        }
        return r;
    }
    let s: i32 = k - exp;
    let n: u128;
    if s <= 0 {
        proof {
            lemma_left_shift_fits(num, den, sig as nat, exp as int, gk, gp, bl as nat, sticky);
        }
        n = sig * power_of_two((-s) as u32);
    } else if s as u32 > bl {
        proof {
            lemma_scaled_step(num, den, exp as int, gk);
            let w = pow2(s as nat);
            lemma_pow2_unfold(s as nat);
            lemma_pow2_monotonic(bl as nat, (s - 1) as nat);
            lemma_pow2_pos((s - 1) as nat);
            lemma_nearest_even_bracketed(
                scaled_num(num, exp as int),
                scaled_den(den, exp as int),
                sig as nat,
                w,
                sticky,
            );
            lemma_fundamental_div_mod_converse(sig as int, w as int, 0, sig as int);
        }
        n = 0;
    } else {
        proof {
            lemma_scaled_step(num, den, exp as int, gk);
            lemma_pow2_unfold(s as nat);
            lemma_pow2_pos((s - 1) as nat);
        }
        let half: u128 = power_of_two(s as u32 - 1);
        proof {
            lemma_nearest_even_bracketed(
                scaled_num(num, exp as int),
                scaled_den(den, exp as int),
                sig as nat,
                pow2(s as nat),
                sticky,
            );
        }
        let (q, rem) = div_rem_double(sig, half);
        if rem > half || (rem == half && (sticky || q % 2 == 1)) {
            n = q + 1;
        } else {
            n = q;
        }
    }
    proof {
        assert(n == nearest_even(num, den * pow2(gk)));
        lemma_mul_inequality(k as int, emax - 2, pow2(gp) as int);
        lemma_mul_is_distributive_add_other_way(pow2(gp) as int, emax - 2, 2);
    }
    if p == 52 {
        (k as u64) * 0x10_0000_0000_0000 + n as u64
    } else {
        (k as u64) * 0x80_0000 + n as u64
    }
}

/// Quotient and rest of `x` by `2 * half`, which may be one bit too wide.
fn div_rem_double(x: u128, half: u128) -> (r: (u128, u128))
    requires
        half > 0,
    ensures
        r.0 == x as nat / (2 * half) as nat,
        r.1 == x as nat % (2 * half) as nat,
        r.0 < 0x8000_0000_0000_0000_0000_0000_0000_0000,
{
    let a: u128 = x / half;
    let b: u128 = x % half;
    let q: u128 = a / 2;
    proof {
        lemma_fundamental_div_mod(x as int, half as int);
        lemma_mod_bound(x as int, half as int);
        let odd = a as int % 2;
        assert(x == (2 * half) * q + (odd * half + b)) by (nonlinear_arith)
            requires
                x == half * a + b,
                a == 2 * q + odd,
        ;
        assert(0 <= odd * half + b < 2 * half) by (nonlinear_arith)
            requires
                odd == 0 || odd == 1,
                0 <= b < half,
        ;
        lemma_fundamental_div_mod_converse(x as int, 2 * half, q as int, odd * half + b);
        assert(odd * half == if odd == 1 { half as int } else { 0 }) by (nonlinear_arith)
            requires
                odd == 0 || odd == 1,
        ;
        assert((2 * half) * q >= 0) by (nonlinear_arith)
            requires
                half > 0,
                q >= 0,
        ;
        assert(x as int / half as int <= x) by (nonlinear_arith)
            requires
                half >= 1,
                x >= 0,
        ;
    }
    let rem: u128 = if a % 2 == 1 {
        half + b
    } else {
        b
    };
    (q, rem)
}

/// Where the significand is no longer than the step asks for, it is exact and
/// can be shifted into place.
proof fn lemma_left_shift_fits(
    num: nat,
    den: nat,
    sig: nat,
    exp: int,
    k: nat,
    p: nat,
    bl: nat,
    sticky: bool,
)
    requires
        den > 0,
        p <= 52,
        bl > 0,
        k <= exp,
        pow2((bl - 1) as nat) <= sig < pow2(bl),
        brackets(num, den, sig, exp, sticky),
        sticky ==> sig >= pow2(p + 1),
        bl + exp <= k + p + 1,
    ensures
        exp - k < 128,
        sig * pow2((exp - k) as nat) == nearest_even(num, den * pow2(k)),
        sig * pow2((exp - k) as nat) <= 0x20_0000_0000_0000,
{
    let z = (exp - k) as nat;
    assert(bl + z <= p + 1);
    if sticky {
        lemma_pow2_monotonic(bl, p + 1);
        assert(false);
    }
    lemma_pow2_adds(z, k);
    lemma_pow2_pos(k);
    assert(z + k == exp as nat);
    let d = den * pow2(k);
    assert(d > 0) by (nonlinear_arith)
        requires
            d == den * pow2(k),
            den > 0,
            pow2(k) > 0,
    ;
    assert(sig * (den * (pow2(z) * pow2(k))) == (sig * pow2(z)) * d) by (nonlinear_arith)
        requires
            d == den * pow2(k),
    ;
    lemma_nearest_even_exact(sig * pow2(z), d);
    lemma_pow2_adds(bl, z);
    lemma_pow2_monotonic(bl + z, 53);
    lemma2_to64_rest();
    lemma_pow2_pos(z);
    lemma_mul_inequality(sig as int, pow2(bl) as int, pow2(z) as int);
}

/// A larger number of steps rounds to no smaller whole number.
proof fn lemma_nearest_even_monotonic(a: nat, b: nat, den: nat)
    requires
        den > 0,
        a <= b,
    ensures
        nearest_even(a, den) <= nearest_even(b, den),
{
    let (q, r) = (a / den, a % den);
    let (s, t) = (b / den, b % den);
    lemma_fundamental_div_mod(a as int, den as int);
    lemma_fundamental_div_mod(b as int, den as int);
    lemma_mod_bound(a as int, den as int);
    lemma_mod_bound(b as int, den as int);
    assert(q <= s && (q == s ==> r <= t)) by (nonlinear_arith)
        requires
            a == den * q + r,
            b == den * s + t,
            a <= b,
            0 <= r < den,
            0 <= t < den,
    ;
}

/// A larger quotient rounds to no smaller magnitude.
pub proof fn lemma_round_magnitude_monotonic(a: nat, b: nat, den: nat, p: nat, emax: nat)
    requires
        den > 0,
        a <= b,
    ensures
        round_magnitude(a, den, p, emax) <= round_magnitude(b, den, p, emax),
{
    let j = step_exponent(a, den, p);
    let k = step_exponent(b, den, p);
    let w = pow2(p);
    lemma_step_exponent(a, den, p);
    lemma_step_exponent(b, den, p);
    lemma_nearest_even_bounds(a, den, p, j);
    lemma_nearest_even_bounds(b, den, p, k);
    lemma_pow2_unfold(p + 1);
    if j == k {
        lemma_pow2_pos(k);
        assert(den * pow2(k) > 0) by (nonlinear_arith)
            requires
                den > 0,
                pow2(k) > 0,
        ;
        lemma_nearest_even_monotonic(a, b, den * pow2(k));
    } else if j > k {
        lemma_pow2_monotonic(k + p + 1, j + p);
        lemma_mul_inequality(pow2(k + p + 1) as int, pow2(j + p) as int, den as int);
        lemma_mul_is_commutative(den as int, pow2(k + p + 1) as int);
        lemma_mul_is_commutative(den as int, pow2(j + p) as int);
        assert(false);
    } else {
        assert(j * w + 2 * w <= k * w + w) by (nonlinear_arith)
            requires
                j + 1 <= k,
        ;
    }
}

} // verus!
