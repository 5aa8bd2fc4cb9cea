//! IEEE 754 double-precision numbers, kept as their bit pattern.
//!
//! The arithmetic is carried out on integers and proved to be what the
//! standard asks for: the exact result, rounded to the nearest number, ties to
//! even. Every finite number is a whole multiple of `2^-1074`, so the model of
//! one is an integer, its value counted in those units.

use crate::rounding::{bit_length, power_of_two, round_bracketed};
use vstd::arithmetic::div_mod::{
    lemma_fundamental_div_mod, lemma_fundamental_div_mod_converse, lemma_mod_bound,
};
use vstd::arithmetic::mul::{lemma_mul_is_associative, lemma_mul_is_commutative};
use vstd::arithmetic::power2::{
    lemma2_to64, lemma2_to64_rest, lemma_pow2_adds, lemma_pow2_pos, lemma_pow2_unfold, pow2,
};
use vstd::prelude::*;

verus! {

/// Bit pattern of the sign bit, which is also negative zero.
pub const SIGN_BIT: u64 = 0x8000_0000_0000_0000;

/// Magnitude of the infinities; a larger one is not a number.
pub const INFINITE: u64 = 0x7ff0_0000_0000_0000;

/// Magnitude of the infinities in single precision.
pub const INFINITE_SINGLE: u32 = 0x7f80_0000;

/// One, counted in units of `2^-1074`.
pub open spec fn one_in_units() -> nat {
    pow2(1074)
}

/// The smallest positive single-precision number, `2^-149`, counted in units.
pub open spec fn single_unit() -> nat {
    pow2(925)
}

/// A double-precision number.
#[derive(Debug, Clone, Copy)]
pub struct Double {
    pub bits: u64,
}

/// Power of two by which a magnitude with `p` fraction bits scales its significand.
pub open spec fn magnitude_exponent(magnitude: nat, p: nat) -> nat {
    if magnitude / pow2(p) == 0 {
        0
    } else {
        (magnitude / pow2(p) - 1) as nat
    }
}

pub open spec fn magnitude_significand(magnitude: nat, p: nat) -> nat {
    (magnitude - magnitude_exponent(magnitude, p) * pow2(p)) as nat
}

/// Value of a finite magnitude in units of its format.
pub open spec fn magnitude_units(magnitude: nat, p: nat) -> nat {
    magnitude_significand(magnitude, p) * pow2(magnitude_exponent(magnitude, p))
}

/// The number with the given sign and magnitude.
pub open spec fn signed(negative: bool, magnitude: nat) -> Double {
    Double {
        bits: (magnitude + if negative {
            SIGN_BIT as nat
        } else {
            0
        }) as u64,
    }
}

/// The number nearest to `num / den` units, with the sign of `num`.
pub open spec fn nearest_double(num: int, den: nat) -> Double {
    signed(num < 0, crate::rounding::round_magnitude(magnitude_of(num), den, 52, 2047))
}

pub open spec fn magnitude_of(x: int) -> nat {
    if x < 0 {
        (-x) as nat
    } else {
        x as nat
    }
}

/// `x / unit`, rounded to the nearest integer, ties away from zero.
pub open spec fn nearest_integer(x: int, unit: nat) -> int {
    let whole = (2 * magnitude_of(x) + unit) / (2 * unit);
    if x < 0 {
        -(whole as int)
    } else {
        whole as int
    }
}

/// `x`, or the bound of the `i128` range that it exceeds.
pub open spec fn saturated_i128(x: int) -> i128 {
    if x > i128::MAX {
        i128::MAX
    } else if x < i128::MIN {
        i128::MIN
    } else {
        x as i128
    }
}

/// Units (`2^-149`) of a finite single-precision bit pattern, sign included.
pub open spec fn single_units(bits: u32) -> int {
    let units = magnitude_units((bits % 0x8000_0000) as nat, 23);
    if bits >= 0x8000_0000 {
        -(units as int)
    } else {
        units as int
    }
}

pub open spec fn single_is_nan(bits: u32) -> bool {
    bits % 0x8000_0000 > INFINITE_SINGLE
}

pub open spec fn single_is_infinite(bits: u32) -> bool {
    bits % 0x8000_0000 == INFINITE_SINGLE
}

impl Double {
    pub open spec fn negative(self) -> bool {
        self.bits >= SIGN_BIT
    }

    pub open spec fn magnitude(self) -> nat {
        (self.bits % SIGN_BIT) as nat
    }

    pub open spec fn nan(self) -> bool {
        self.magnitude() > INFINITE
    }

    pub open spec fn infinite(self) -> bool {
        self.magnitude() == INFINITE
    }

    pub open spec fn finite(self) -> bool {
        self.magnitude() < INFINITE
    }

    pub open spec fn zero(self) -> bool {
        self.magnitude() == 0
    }

    /// Value of a finite number, in units.
    pub open spec fn units(self) -> int {
        let units = magnitude_units(self.magnitude(), 52);
        if self.negative() {
            -(units as int)
        } else {
            units as int
        }
    }

    /// Position on the number line; the two zeros share one.
    pub open spec fn order_key(self) -> int {
        if self.negative() {
            -(self.magnitude() as int)
        } else {
            self.magnitude() as int
        }
    }

    /// The result of an operation that has no meaningful one.
    pub open spec fn not_a_number() -> Double {
        Double { bits: 0x7ff8_0000_0000_0000 }
    }

    /// IEEE equality: not a number equals nothing, the zeros equal each other.
    pub open spec fn same(self, other: Double) -> bool {
        !self.nan() && !other.nan() && self.order_key() == other.order_key()
    }

    pub open spec fn less(self, other: Double) -> bool {
        !self.nan() && !other.nan() && self.order_key() < other.order_key()
    }

    pub open spec fn opposite(self) -> Double {
        signed(!self.negative(), self.magnitude())
    }

    pub open spec fn absolute(self) -> Double {
        signed(false, self.magnitude())
    }

    pub open spec fn sum(self, other: Double) -> Double {
        if self.nan() || other.nan() || (self.infinite() && other.infinite() && self.negative()
            != other.negative()) {
            Double::not_a_number()
        } else if self.infinite() {
            self
        } else if other.infinite() {
            other
        } else if self.units() + other.units() == 0 {
            signed(self.negative() && other.negative(), 0)
        } else {
            nearest_double(self.units() + other.units(), 1)
        }
    }

    pub open spec fn difference(self, other: Double) -> Double {
        self.sum(other.opposite())
    }

    pub open spec fn product(self, other: Double) -> Double {
        let negative = self.negative() != other.negative();
        if self.nan() || other.nan() || (self.infinite() && other.zero()) || (self.zero()
            && other.infinite()) {
            Double::not_a_number()
        } else if self.infinite() || other.infinite() {
            signed(negative, INFINITE as nat)
        } else {
            signed(
                negative,
                crate::rounding::round_magnitude(
                    magnitude_of(self.units()) * magnitude_of(other.units()),
                    one_in_units(),
                    52,
                    2047,
                ),
            )
        }
    }

    pub open spec fn quotient(self, other: Double) -> Double {
        let negative = self.negative() != other.negative();
        if self.nan() || other.nan() || (self.infinite() && other.infinite()) || (self.zero()
            && other.zero()) {
            Double::not_a_number()
        } else if self.infinite() || other.zero() {
            signed(negative, INFINITE as nat)
        } else if other.infinite() {
            signed(negative, 0)
        } else {
            signed(
                negative,
                crate::rounding::round_magnitude(
                    magnitude_of(self.units()) * one_in_units(),
                    magnitude_of(other.units()),
                    52,
                    2047,
                ),
            )
        }
    }

    /// The number nearest to an integer.
    pub open spec fn of_integer(i: int) -> Double {
        nearest_double(i * one_in_units(), 1)
    }

    /// The number with the value of a single-precision bit pattern.
    pub open spec fn of_single(bits: u32) -> Double {
        if single_is_nan(bits) {
            Double::not_a_number()
        } else if single_is_infinite(bits) {
            signed(bits >= 0x8000_0000, INFINITE as nat)
        } else {
            signed(
                bits >= 0x8000_0000,
                crate::rounding::round_magnitude(
                    magnitude_of(single_units(bits)) * single_unit(),
                    1,
                    52,
                    2047,
                ),
            )
        }
    }

    /// The single-precision bit pattern nearest to a number.
    pub open spec fn single(self) -> u32 {
        let sign: nat = if self.negative() {
            0x8000_0000
        } else {
            0
        };
        if self.nan() {
            0x7fc0_0000
        } else if self.infinite() {
            (INFINITE_SINGLE + sign) as u32
        } else {
            (crate::rounding::round_magnitude(
                magnitude_of(self.units()),
                single_unit(),
                23,
                255,
            ) + sign) as u32
        }
    }
}

/// `sig * 2^i / 2^j` is bracketed by `sig` in steps of `2^(i - j)`, with
/// nothing cut off.
proof fn lemma_exact_brackets(sig: nat, i: nat, j: nat)
    ensures
        crate::rounding::brackets(sig * pow2(i), pow2(j), sig, i - j, false),
{
    let exp = i - j;
    if exp < 0 {
        let c = (-exp) as nat;
        lemma_pow2_adds(i, c);
        assert(i + c == j);
        lemma_mul_is_associative(sig as int, pow2(i) as int, pow2(c) as int);
    } else {
        lemma_pow2_adds(j, exp as nat);
        assert(j + exp as nat == i);
    }
    let d = crate::rounding::scaled_den(pow2(j), exp);
    lemma_pow2_pos(j);
    lemma_pow2_pos(if exp >= 0 { exp as nat } else { 0 });
    assert(d > 0) by {
        if exp >= 0 {
            vstd::arithmetic::mul::lemma_mul_strictly_positive(
                pow2(j) as int,
                pow2(exp as nat) as int,
            );
        }
    }
    assert(sig * d < (sig + 1) * d) by (nonlinear_arith)
        requires
            d > 0,
    ;
}

/// Nothing rounds to nothing.
pub proof fn lemma_round_zero(den: nat, p: nat, emax: nat)
    requires
        den > 0,
        emax > 0,
    ensures
        crate::rounding::round_magnitude(0, den, p, emax) == 0,
{
    lemma_pow2_pos(p + 1);
    lemma_pow2_pos(p);
    vstd::arithmetic::mul::lemma_mul_strictly_positive(den as int, pow2(p + 1) as int);
    vstd::arithmetic::mul::lemma_mul_strictly_positive(emax as int, pow2(p) as int);
    assert(crate::rounding::step_exponent(0, den, p) == 0);
    lemma2_to64();
    assert(den * pow2(0) == den) by (nonlinear_arith)
        requires
            pow2(0) == 1,
    ;
    lemma_fundamental_div_mod_converse(0, den as int, 0, 0);
}

/// A magnitude is its exponent and significand, put side by side.
fn unpack(magnitude: u64) -> (r: (u64, u32))
    requires
        magnitude < INFINITE,
    ensures
        r.0 == magnitude_significand(magnitude as nat, 52),
        r.1 == magnitude_exponent(magnitude as nat, 52),
        r.0 < 0x20_0000_0000_0000,
        r.1 <= 2045,
        r.1 > 0 ==> r.0 >= 0x10_0000_0000_0000,
        magnitude == r.1 * 0x10_0000_0000_0000 + r.0,
        magnitude_units(magnitude as nat, 52) == r.0 * pow2(r.1 as nat),
{
    proof {
        lemma2_to64_rest();
    }
    let field: u64 = magnitude / 0x10_0000_0000_0000;
    let exponent: u64 = if field == 0 {
        0
    } else {
        field - 1
    };
    let significand: u64 = magnitude - exponent * 0x10_0000_0000_0000;
    (significand, exponent as u32)
}

/// The same for a single-precision magnitude.
fn unpack_single(magnitude: u32) -> (r: (u32, u32))
    requires
        magnitude < INFINITE_SINGLE,
    ensures
        r.0 == magnitude_significand(magnitude as nat, 23),
        r.1 == magnitude_exponent(magnitude as nat, 23),
        r.0 < 0x100_0000,
        r.1 <= 253,
        r.0 == 0 ==> magnitude == 0,
        magnitude_units(magnitude as nat, 23) == r.0 * pow2(r.1 as nat),
{
    proof {
        lemma2_to64();
    }
    let field: u32 = magnitude / 0x80_0000;
    let exponent: u32 = if field == 0 {
        0
    } else {
        field - 1
    };
    let significand: u32 = magnitude - exponent * 0x80_0000;
    (significand, exponent)
}

/// Rounds `sig * 2^i / 2^j` units.
pub(crate) fn round_exact(sig: u128, i: u32, j: u32, p: u32, emax: u32) -> (magnitude: u64)
    requires
        i <= 9_000,
        j <= 9_000,
        p == 52 && emax == 2047 || p == 23 && emax == 255,
    ensures
        magnitude == crate::rounding::round_magnitude(
            sig as nat * pow2(i as nat),
            pow2(j as nat),
            p as nat,
            emax as nat,
        ),
{
    proof {
        lemma_pow2_pos(j as nat);
        lemma_pow2_pos(i as nat);
    }
    if sig == 0 {
        proof {
            lemma_round_zero(pow2(j as nat), p as nat, emax as nat);
            assert(sig as nat * pow2(i as nat) == 0) by (nonlinear_arith)
                requires
                    sig == 0,
            ;
        }
        return 0;
    }
    proof {
        lemma_exact_brackets(sig as nat, i as nat, j as nat);
    }
    round_bracketed(
        sig,
        i as i32 - j as i32,
        false,
        p,
        emax,
        Ghost(sig as nat * pow2(i as nat)),
        Ghost(pow2(j as nat)),
    )
}

/// A rounded magnitude is at most the infinite one.
pub proof fn lemma_round_at_most_infinite(num: nat, den: nat)
    ensures
        crate::rounding::round_magnitude(num, den, 52, 2047) <= INFINITE,
        crate::rounding::round_magnitude(num, den, 23, 255) <= INFINITE_SINGLE,
{
    lemma2_to64();
    lemma2_to64_rest();
}

/// Puts a sign before a magnitude.
pub(crate) fn with_sign(negative: bool, magnitude: u64) -> (r: Double)
    requires
        magnitude < SIGN_BIT,
    ensures
        r == signed(negative, magnitude as nat),
{
    if negative {
        Double { bits: magnitude + SIGN_BIT }
    } else {
        Double { bits: magnitude }
    }
}

impl Double {
    pub fn from_bits(bits: u64) -> (r: Double)
        ensures
            r.bits == bits,
    {
        Double { bits }
    }

    pub fn to_bits(self) -> (bits: u64)
        ensures
            bits == self.bits,
    {
        self.bits
    }

    pub fn is_negative(self) -> (r: bool)
        ensures
            r == self.negative(),
    {
        self.bits >= SIGN_BIT
    }

    fn magnitude_bits(self) -> (r: u64)
        ensures
            r == self.magnitude(),
            r < SIGN_BIT,
    {
        self.bits % SIGN_BIT
    }

    /// Significand and exponent of a finite number.
    pub fn parts(self) -> (r: (u64, u32))
        requires
            self.finite(),
        ensures
            r.0 == magnitude_significand(self.magnitude(), 52),
            r.1 == magnitude_exponent(self.magnitude(), 52),
            r.0 < 0x20_0000_0000_0000,
            r.1 <= 2045,
            magnitude_units(self.magnitude(), 52) == r.0 * pow2(r.1 as nat),
    {
        unpack(self.magnitude_bits())
    }

    pub fn is_nan(self) -> (r: bool)
        ensures
            r == self.nan(),
    {
        self.magnitude_bits() > INFINITE
    }

    pub fn is_finite(self) -> (r: bool)
        ensures
            r == self.finite(),
    {
        self.magnitude_bits() < INFINITE
    }

    pub fn is_zero(self) -> (r: bool)
        ensures
            r == self.zero(),
    {
        self.magnitude_bits() == 0
    }

    /// IEEE equality.
    pub fn equals(self, other: Double) -> (r: bool)
        ensures
            r == self.same(other),
    {
        !self.is_nan() && !other.is_nan() && (self.bits == other.bits || (self.is_zero()
            && other.is_zero()))
    }

    pub fn is_less_than(self, other: Double) -> (r: bool)
        ensures
            r == self.less(other),
    {
        if self.is_nan() || other.is_nan() {
            return false;
        }
        let a: u64 = self.magnitude_bits();
        let b: u64 = other.magnitude_bits();
        if self.is_negative() {
            if other.is_negative() {
                a > b
            } else {
                a > 0 || b > 0
            }
        } else if other.is_negative() {
            false
        } else {
            a < b
        }
    }

    pub fn negated(self) -> (r: Double)
        ensures
            r == self.opposite(),
    {
        with_sign(!self.is_negative(), self.magnitude_bits())
    }

    pub fn abs(self) -> (r: Double)
        ensures
            r == self.absolute(),
    {
        with_sign(false, self.magnitude_bits())
    }

    pub fn times(self, other: Double) -> (r: Double)
        ensures
            r == self.product(other),
    {
        let negative: bool = self.is_negative() != other.is_negative();
        let a: u64 = self.magnitude_bits();
        let b: u64 = other.magnitude_bits();
        if a > INFINITE || b > INFINITE || (a == INFINITE && b == 0) || (a == 0 && b == INFINITE) {
            return Double { bits: 0x7ff8_0000_0000_0000 };
        }
        if a == INFINITE || b == INFINITE {
            return with_sign(negative, INFINITE);
        }
        let (ma, xa) = unpack(a);
        let (mb, xb) = unpack(b);
        proof {
            lemma_round_at_most_infinite(
                magnitude_of(self.units()) * magnitude_of(other.units()),
                one_in_units(),
            );
            let (p, q) = (pow2(xa as nat), pow2(xb as nat));
            lemma_pow2_adds(xa as nat, xb as nat);
            assert((ma * p) * (mb * q) == (ma * mb) * (p * q)) by (nonlinear_arith);
            assert(0 <= ma * mb <= 0x20_0000_0000_0000 * 0x20_0000_0000_0000) by (nonlinear_arith)
                requires
                    0 <= ma <= 0x20_0000_0000_0000,
                    0 <= mb <= 0x20_0000_0000_0000,
            ;
        }
        with_sign(negative, round_exact(ma as u128 * mb as u128, xa + xb, 1074, 52, 2047))
    }

    /// The number nearest to an integer.
    pub fn from_integer(i: i128) -> (r: Double)
        ensures
            r == Double::of_integer(i as int),
    {
        let sig: u128 = if i < 0 {
            (-(i + 1)) as u128 + 1
        } else {
            i as u128
        };
        proof {
            let one = one_in_units();
            lemma_pow2_pos(1074);
            lemma2_to64();
            assert(magnitude_of(i * one) == sig * one && (i * one < 0 <==> i < 0))
                by (nonlinear_arith)
                requires
                    one > 0,
                    sig == if i < 0 {
                        -i
                    } else {
                        i as int
                    },
            ;
            lemma_round_at_most_infinite(sig as nat * one, 1);
        }
        with_sign(i < 0, round_exact(sig, 1074, 0, 52, 2047))
    }

    /// The number with the value of a single-precision bit pattern.
    pub fn from_single(bits: u32) -> (r: Double)
        ensures
            r == Double::of_single(bits),
    {
        let negative: bool = bits >= 0x8000_0000;
        let magnitude: u32 = bits % 0x8000_0000;
        if magnitude > INFINITE_SINGLE {
            return Double { bits: 0x7ff8_0000_0000_0000 };
        }
        if magnitude == INFINITE_SINGLE {
            return with_sign(negative, INFINITE);
        }
        let (m, x) = unpack_single(magnitude);
        proof {
            lemma2_to64();
            lemma_pow2_adds(x as nat, 925);
            lemma_mul_is_associative(m as int, pow2(x as nat) as int, pow2(925) as int);
            lemma_round_at_most_infinite(magnitude_of(single_units(bits)) * single_unit(), 1);
        }
        with_sign(negative, round_exact(m as u128, x + 925, 0, 52, 2047))
    }

    /// The single-precision bit pattern nearest to this number.
    pub fn to_single(self) -> (bits: u32)
        ensures
            bits == self.single(),
    {
        let sign: u32 = if self.is_negative() {
            0x8000_0000
        } else {
            0
        };
        let magnitude: u64 = self.magnitude_bits();
        if magnitude > INFINITE {
            return 0x7fc0_0000;
        }
        if magnitude == INFINITE {
            return INFINITE_SINGLE + sign;
        }
        let (m, x) = unpack(magnitude);
        proof {
            lemma_round_at_most_infinite(magnitude_of(self.units()), single_unit());
        }
        let rounded: u64 = round_exact(m as u128, x, 925, 23, 255);
        rounded as u32 + sign
    }
}

/// Two magnitudes more than 70 binary places apart: the smaller one only
/// decides which way the larger one, or its predecessor, is rounded.
proof fn lemma_far_brackets(m: nat, x: nat, rest: nat, subtract: bool)
    requires
        m > 0,
        x > 2,
        rest < pow2((x - 2) as nat),
        rest > 0,
    ensures
        subtract ==> crate::rounding::brackets(
            (m * pow2(x) - rest) as nat,
            1,
            (4 * m - 1) as nat,
            x - 2,
            true,
        ),
        !subtract ==> crate::rounding::brackets(m * pow2(x) + rest, 1, 4 * m, x - 2, true),
{
    let w = pow2((x - 2) as nat);
    lemma_pow2_adds((x - 2) as nat, 2);
    lemma2_to64();
    assert((x - 2) as nat + 2 == x);
    assert(m * pow2(x) == (4 * m) * w) by (nonlinear_arith)
        requires
            pow2(x) == w * 4,
    ;
    assert(1 * w == w);
    assert((4 * m + 1) * w == (4 * m) * w + w) by (nonlinear_arith);
    assert((4 * m - 1) * w == (4 * m) * w - w) by (nonlinear_arith);
    assert((4 * m) * w >= w) by (nonlinear_arith)
        requires
            m > 0,
            w >= 0,
    ;
}

/// `a - b` or `a + b`.
pub open spec fn combined(a: nat, b: nat, subtract: bool) -> nat {
    if subtract {
        (a - b) as nat
    } else {
        a + b
    }
}

/// Adds or subtracts magnitudes, the larger one first.
fn combine(large: u64, small: u64, subtract: bool) -> (magnitude: u64)
    requires
        small <= large < INFINITE,
    ensures
        ({
            let a = magnitude_units(large as nat, 52);
            let b = magnitude_units(small as nat, 52);
            &&& a >= b
            &&& magnitude == crate::rounding::round_magnitude(
                combined(a, b, subtract),
                1,
                52,
                2047,
            )
        }),
{
    let (m1, x1) = unpack(large);
    let (m2, x2) = unpack(small);
    proof {
        assert(x2 <= x1) by (nonlinear_arith)
            requires
                large == x1 * 0x10_0000_0000_0000 + m1,
                small == x2 * 0x10_0000_0000_0000 + m2,
                small <= large,
                m1 < 0x20_0000_0000_0000,
                x2 > 0 ==> m2 >= 0x10_0000_0000_0000,
        ;
    }
    let d: u32 = x1 - x2;
    let ghost a = magnitude_units(large as nat, 52);
    let ghost b = magnitude_units(small as nat, 52);
    let ghost w = pow2(x2 as nat);
    proof {
        lemma2_to64();
        lemma2_to64_rest();
        lemma_pow2_adds(d as nat, x2 as nat);
        lemma_mul_is_associative(m1 as int, pow2(d as nat) as int, w as int);
        lemma_pow2_pos(x2 as nat);
        lemma_pow2_pos(d as nat);
        if d > 0 {
            crate::rounding::lemma_pow2_at_least_two(d as nat);
        }
        assert(m1 * pow2(d as nat) >= m2) by (nonlinear_arith)
            requires
                d == 0 ==> m1 >= m2 && pow2(d as nat) == 1,
                d > 0 ==> pow2(d as nat) >= 2 && m1 >= 0x10_0000_0000_0000,
                m2 < 0x20_0000_0000_0000,
        ;
        assert(a >= b) by (nonlinear_arith)
            requires
                a == (m1 * pow2(d as nat)) * w,
                b == m2 * w,
                m1 * pow2(d as nat) >= m2,
        ;
    }
    if d <= 70 {
        proof {
            crate::rounding::lemma_pow2_monotonic(d as nat, 70);
            lemma_pow2_adds(60, 10);
            assert(m1 * pow2(d as nat) <= 0x20_0000_0000_0000 * pow2(70)) by (nonlinear_arith)
                requires
                    0 <= m1 <= 0x20_0000_0000_0000,
                    pow2(d as nat) <= pow2(70),
            ;
        }
        let shifted: u128 = m1 as u128 * power_of_two(d);
        let sig: u128 = if subtract {
            shifted - m2 as u128
        } else {
            shifted + m2 as u128
        };
        proof {
            assert(subtract ==> sig * w == a - b) by (nonlinear_arith)
                requires
                    a == shifted * w,
                    b == m2 * w,
                    subtract ==> sig == shifted - m2,
            ;
            assert(!subtract ==> sig * w == a + b) by (nonlinear_arith)
                requires
                    a == shifted * w,
                    b == m2 * w,
                    !subtract ==> sig == shifted + m2,
            ;
        }
        return round_exact(sig, x2, 0, 52, 2047);
    }
    if m2 == 0 {
        proof {
            assert(b == 0) by (nonlinear_arith)
                requires
                    b == m2 * w,
                    m2 == 0,
            ;
        }
        return round_exact(m1 as u128, x1, 0, 52, 2047);
    }
    proof {
        lemma_pow2_adds(53, x2 as nat);
        crate::rounding::lemma_pow2_monotonic((53 + x2) as nat, (x1 - 2) as nat);
        assert(0 < b < pow2((x1 - 2) as nat)) by (nonlinear_arith)
            requires
                b == m2 * w,
                0 < m2 < pow2(53),
                w > 0,
                pow2(53) * w <= pow2((x1 - 2) as nat),
        ;
        lemma_far_brackets(m1 as nat, x1 as nat, b, subtract);
    }
    let sig: u128 = if subtract {
        4 * m1 as u128 - 1
    } else {
        4 * m1 as u128
    };
    round_bracketed(
        sig,
        x1 as i32 - 2,
        true,
        52,
        2047,
        Ghost(combined(a, b, subtract)),
        Ghost(1nat),
    )
}

/// Larger magnitudes stand for larger numbers.
pub proof fn lemma_units_ordered(a: nat, b: nat)
    requires
        a < b < INFINITE,
    ensures
        magnitude_units(a, 52) < magnitude_units(b, 52),
{
    lemma2_to64_rest();
    let (xa, xb) = (magnitude_exponent(a, 52), magnitude_exponent(b, 52));
    let (ma, mb) = (magnitude_significand(a, 52), magnitude_significand(b, 52));
    lemma_pow2_pos(xa);
    if xa == xb {
        assert(ma * pow2(xa) < mb * pow2(xb)) by (nonlinear_arith)
            requires
                ma < mb,
                xa == xb,
                pow2(xa) > 0,
        ;
    } else {
        assert(xa < xb);
        crate::rounding::lemma_pow2_monotonic(xa + 1, xb);
        lemma_pow2_unfold(xa + 1);
        assert(ma * pow2(xa) < mb * pow2(xb)) by (nonlinear_arith)
            requires
                ma < 2 * pow2(52),
                mb >= pow2(52),
                pow2(xb) >= 2 * pow2(xa),
                pow2(xa) > 0,
                pow2(52) > 0,
        ;
    }
}

/// The order of the bit patterns is the order of the values.
pub proof fn law_order_is_value_order(a: Double, b: Double)
    requires
        a.finite(),
        b.finite(),
    ensures
        a.less(b) <==> a.units() < b.units(),
        a.same(b) <==> a.units() == b.units(),
{
    let (ma, mb) = (a.magnitude(), b.magnitude());
    if ma < mb {
        lemma_units_ordered(ma, mb);
    } else if mb < ma {
        lemma_units_ordered(mb, ma);
    }
    lemma_zero_units();
    if ma > 0 {
        lemma_units_ordered(0, ma);
    }
    if mb > 0 {
        lemma_units_ordered(0, mb);
    }
}

pub proof fn lemma_zero_units()
    ensures
        magnitude_units(0, 52) == 0,
{
    lemma2_to64_rest();
    assert(magnitude_significand(0, 52) == 0);
    assert(magnitude_units(0, 52) == 0) by (nonlinear_arith)
        requires
            magnitude_significand(0, 52) == 0,
            magnitude_units(0, 52) == magnitude_significand(0, 52) * pow2(
                magnitude_exponent(0, 52),
            ),
    ;
}

/// A quotient of two scaled significands, bracketed by a whole division.
proof fn lemma_division_brackets(m1: nat, i: nat, m2: nat, j: nat, w: nat, q: nat, r: nat)
    requires
        m2 > 0,
        m1 * pow2(w) == q * m2 + r,
        r < m2,
    ensures
        crate::rounding::brackets(m1 * pow2(i), m2 * pow2(j), q, i - j - w, r != 0),
{
    let exp = i - j - w;
    let n = crate::rounding::scaled_num(m1 * pow2(i), exp);
    let d = crate::rounding::scaled_den(m2 * pow2(j), exp);
    let t: nat = if exp < 0 {
        j
    } else {
        j + exp as nat
    };
    let c = pow2(t);
    lemma_pow2_pos(t);
    lemma_pow2_adds(w, t);
    if exp < 0 {
        let e = (-exp) as nat;
        lemma_pow2_adds(i, e);
        assert(i + e == w + t);
        lemma_mul_is_associative(m1 as int, pow2(i) as int, pow2(e) as int);
    } else {
        lemma_pow2_adds(j, exp as nat);
        assert(i == w + t);
        lemma_mul_is_associative(m2 as int, pow2(j) as int, pow2(exp as nat) as int);
    }
    lemma_mul_is_associative(m1 as int, pow2(w) as int, c as int);
    assert(n == (q * m2 + r) * c);
    assert(d == m2 * c);
    assert(n == q * d + r * c && r * c < d && (r != 0 <==> r * c != 0) && (q + 1) * d == q * d + d)
        by (nonlinear_arith)
        requires
            n == (q * m2 + r) * c,
            d == m2 * c,
            r < m2,
            c > 0,
            r >= 0,
    ;
}

/// Divides magnitudes.
fn divide_magnitudes(a: u64, b: u64) -> (magnitude: u64)
    requires
        a < INFINITE,
        0 < b < INFINITE,
    ensures
        magnitude == crate::rounding::round_magnitude(
            magnitude_units(a as nat, 52) * one_in_units(),
            magnitude_units(b as nat, 52),
            52,
            2047,
        ),
{
    let (m1, x1) = unpack(a);
    let (m2, x2) = unpack(b);
    let ghost num = magnitude_units(a as nat, 52) * one_in_units();
    let ghost den = magnitude_units(b as nat, 52);
    proof {
        lemma_zero_units();
        lemma_units_ordered(0, b as nat);
    }
    if m1 == 0 {
        proof {
            assert(num == 0) by (nonlinear_arith)
                requires
                    num == (m1 * pow2(x1 as nat)) * one_in_units(),
                    m1 == 0,
            ;
            lemma_round_zero(den, 52, 2047);
        }
        return 0;
    }
    let bl: u32 = bit_length(m1 as u128);
    proof {
        lemma2_to64();
        lemma2_to64_rest();
        if bl > 53 {
            crate::rounding::lemma_pow2_monotonic(53, (bl - 1) as nat);
        }
    }
    let w: u32 = 53 - bl + 64;
    proof {
        lemma_pow2_adds(bl as nat, w as nat);
        lemma_pow2_adds((bl - 1) as nat, w as nat);
        lemma_pow2_adds(53, 64);
        lemma_pow2_adds(52, 64);
        lemma_pow2_pos(w as nat);
        assert(pow2(116) <= m1 * pow2(w as nat) <= pow2(117)) by (nonlinear_arith)
            requires
                pow2((bl - 1) as nat) <= m1 <= pow2(bl as nat),
                pow2((bl - 1) as nat) * pow2(w as nat) == pow2(116),
                pow2(bl as nat) * pow2(w as nat) == pow2(117),
                pow2(w as nat) > 0,
        ;
        assert(m2 > 0) by (nonlinear_arith)
            requires
                den == m2 * pow2(x2 as nat),
                den > 0,
        ;
    }
    let scaled: u128 = m1 as u128 * power_of_two(w);
    let q: u128 = scaled / m2 as u128;
    let r: u128 = scaled % m2 as u128;
    proof {
        lemma_fundamental_div_mod(scaled as int, m2 as int);
        lemma_mod_bound(scaled as int, m2 as int);
        lemma_mul_is_commutative(m2 as int, q as int);
        lemma_pow2_adds(x1 as nat, 1074);
        lemma_mul_is_associative(m1 as int, pow2(x1 as nat) as int, pow2(1074) as int);
        lemma_division_brackets(
            m1 as nat,
            (x1 + 1074) as nat,
            m2 as nat,
            x2 as nat,
            w as nat,
            q as nat,
            r as nat,
        );
        assert(q >= pow2(53)) by (nonlinear_arith)
            requires
                scaled == m2 * q + r,
                r < m2,
                0 < m2 <= pow2(53),
                scaled >= pow2(53) * pow2(63),
                pow2(63) > pow2(53),
                pow2(53) > 1,
        ;
    }
    round_bracketed(
        q,
        x1 as i32 + 1074 - x2 as i32 - w as i32,
        r != 0,
        52,
        2047,
        Ghost(num),
        Ghost(den),
    )
}

impl Double {
    pub fn plus(self, other: Double) -> (r: Double)
        ensures
            r == self.sum(other),
    {
        let a: u64 = self.magnitude_bits();
        let b: u64 = other.magnitude_bits();
        let na: bool = self.is_negative();
        let nb: bool = other.is_negative();
        if a > INFINITE || b > INFINITE || (a == INFINITE && b == INFINITE && na != nb) {
            return Double { bits: 0x7ff8_0000_0000_0000 };
        }
        if a == INFINITE {
            return self;
        }
        if b == INFINITE {
            return other;
        }
        proof {
            lemma_zero_units();
            lemma_round_at_most_infinite(magnitude_of(self.units() + other.units()), 1);
            if a < b {
                lemma_units_ordered(a as nat, b as nat);
            } else if b < a {
                lemma_units_ordered(b as nat, a as nat);
            }
            if a > 0 {
                lemma_units_ordered(0, a as nat);
            }
            if b > 0 {
                lemma_units_ordered(0, b as nat);
            }
        }
        if na != nb && a == b {
            return Double { bits: 0 };
        }
        if a == 0 && b == 0 {
            return with_sign(na && nb, 0);
        }
        if a >= b {
            with_sign(na, combine(a, b, na != nb))
        } else {
            with_sign(nb, combine(b, a, na != nb))
        }
    }

    pub fn minus(self, other: Double) -> (r: Double)
        ensures
            r == self.difference(other),
    {
        self.plus(other.negated())
    }

    pub fn divided_by(self, other: Double) -> (r: Double)
        ensures
            r == self.quotient(other),
    {
        let negative: bool = self.is_negative() != other.is_negative();
        let a: u64 = self.magnitude_bits();
        let b: u64 = other.magnitude_bits();
        if a > INFINITE || b > INFINITE || (a == INFINITE && b == INFINITE) || (a == 0 && b == 0) {
            return Double { bits: 0x7ff8_0000_0000_0000 };
        }
        if a == INFINITE || b == 0 {
            return with_sign(negative, INFINITE);
        }
        if b == INFINITE {
            return with_sign(negative, 0);
        }
        proof {
            lemma_round_at_most_infinite(
                magnitude_of(self.units()) * one_in_units(),
                magnitude_of(other.units()),
            );
        }
        with_sign(negative, divide_magnitudes(a, b))
    }

    /// Rounds to the nearest integer, ties away from zero, and saturates.
    pub fn round_to_integer(self) -> (i: i128)
        requires
            self.finite(),
        ensures
            i == saturated_i128(nearest_integer(self.units(), one_in_units())),
    {
        let (m, x) = unpack(self.magnitude_bits());
        let negative: bool = self.is_negative();
        let ghost units = magnitude_units(self.magnitude(), 52);
        let ghost one = one_in_units();
        let ghost whole = (2 * units + one) / (2 * one);
        proof {
            lemma2_to64();
            lemma2_to64_rest();
            crate::rounding::lemma_pow2_128();
            lemma_pow2_pos(1074);
        }
        if x >= 1074 {
            let z: u32 = x - 1074;
            proof {
                lemma_pow2_adds(z as nat, 1074);
                lemma_pow2_pos(z as nat);
                let n = m * pow2(z as nat);
                lemma_mul_is_associative(m as int, pow2(z as nat) as int, one as int);
                assert(2 * units + one == n * (2 * one) + one) by (nonlinear_arith)
                    requires
                        units == n * one,
                ;
                assert(n >= 0);
                lemma_mul_is_commutative(n, 2 * one as int);
                lemma_fundamental_div_mod_converse(
                    2 * units + one as int,
                    2 * one as int,
                    n,
                    one as int,
                );
                assert(whole == n);
                assert(units > 0) by (nonlinear_arith)
                    requires
                        units == (m * pow2(z as nat)) * one,
                        m >= pow2(52),
                        pow2(52) > 0,
                        pow2(z as nat) > 0,
                        one > 0,
                ;
                assert(nearest_integer(self.units(), one) == if negative {
                    -(whole as int)
                } else {
                    whole as int
                });
                if z > 74 {
                    crate::rounding::lemma_pow2_monotonic(75, z as nat);
                    lemma_pow2_adds(52, 75);
                    assert(n >= pow2(127)) by (nonlinear_arith)
                        requires
                            n == m * pow2(z as nat),
                            m >= pow2(52),
                            pow2(z as nat) >= pow2(75),
                            pow2(52) * pow2(75) == pow2(127),
                            pow2(75) >= 0,
                    ;
                } else {
                    crate::rounding::lemma_pow2_monotonic(z as nat, 74);
                    lemma_pow2_adds(53, 74);
                    assert(n < pow2(127)) by (nonlinear_arith)
                        requires
                            n == m * pow2(z as nat),
                            m < pow2(53),
                            0 < pow2(z as nat) <= pow2(74),
                            pow2(53) * pow2(74) == pow2(127),
                    ;
                }
            }
            if z > 74 {
                return if negative {
                    i128::MIN
                } else {
                    i128::MAX
                };
            }
            let n: u128 = m as u128 * power_of_two(z);
            if negative {
                -(n as i128)
            } else {
                n as i128
            }
        } else {
            let t: u32 = 1074 - x;
            let ghost c = pow2(x as nat);
            let ghost b = pow2((t - 1) as nat);
            proof {
                lemma_pow2_pos(x as nat);
                lemma_pow2_pos((t - 1) as nat);
                lemma_pow2_unfold(t as nat);
                lemma_pow2_adds(x as nat, t as nat);
                // one == c * 2b, units == m * c, so the rounded value is (m + b) / 2b.
                let n = (m + b) as nat / (2 * b);
                let r = (m + b) as nat % (2 * b);
                lemma_fundamental_div_mod((m + b) as int, 2 * b as int);
                lemma_mod_bound((m + b) as int, 2 * b as int);
                assert(2 * units + one == (2 * one) * n + (2 * c) * r) by (nonlinear_arith)
                    requires
                        units == m * c,
                        one == c * (2 * b),
                        m + b == (2 * b) * n + r,
                ;
                assert(0 <= (2 * c) * r < 2 * one) by (nonlinear_arith)
                    requires
                        one == c * (2 * b),
                        0 <= r < 2 * b,
                        c > 0,
                ;
                lemma_fundamental_div_mod_converse(
                    2 * units + one as int,
                    2 * one as int,
                    n as int,
                    ((2 * c) * r) as int,
                );
                assert(whole == n);
                if t > 54 {
                    crate::rounding::lemma_pow2_monotonic(54, (t - 1) as nat);
                    lemma_fundamental_div_mod_converse((m + b) as int, 2 * b as int, 0, m + b);
                } else {
                    crate::rounding::lemma_pow2_monotonic((t - 1) as nat, 53);
                }
            }
            if t > 54 {
                return 0;
            }
            let half: u128 = power_of_two(t - 1);
            let n: u128 = (m as u128 + half) / (2 * half);
            proof {
                assert(n <= m + half) by (nonlinear_arith)
                    requires
                        n == (m + half) as int / (2 * half as int),
                        half > 0,
                ;
                if units == 0 {
                    assert(m == 0) by (nonlinear_arith)
                        requires
                            units == m * c,
                            units == 0,
                            c > 0,
                    ;
                    lemma_fundamental_div_mod_converse(b as int, 2 * b as int, 0, b as int);
                }
                assert(n == whole);
                assert(nearest_integer(self.units(), one) == if negative {
                    -(whole as int)
                } else {
                    whole as int
                });
            }
            if negative {
                -(n as i128)
            } else {
                n as i128
            }
        }
    }
}

impl PartialEq for Double {
    fn eq(&self, other: &Double) -> (r: bool) {
        self.equals(*other)
    }
}

impl vstd::std_specs::cmp::PartialEqSpecImpl for Double {
    open spec fn obeys_eq_spec() -> bool {
        true
    }

    open spec fn eq_spec(&self, other: &Double) -> bool {
        self.same(*other)
    }
}

} // verus!
