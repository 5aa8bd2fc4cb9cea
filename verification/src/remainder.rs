//! Remainders and bounds of double-precision numbers.

use crate::double::{magnitude_of, round_exact, signed, with_sign, Double};
use crate::precision::lemma_sign_and_magnitude;
use crate::rounding::{lemma_pow2_monotonic, power_of_two, round_magnitude};
use vstd::arithmetic::div_mod::{
    lemma_fundamental_div_mod, lemma_fundamental_div_mod_converse, lemma_mod_bound,
    lemma_small_mod,
};
use vstd::arithmetic::power2::{
    lemma2_to64, lemma_pow2_adds, lemma_pow2_pos, lemma_pow2_unfold, pow2,
};
use vstd::prelude::*;

verus! {

impl Double {
    /// What is left of a number after as many whole divisors as fit have been
    /// taken away; it has the sign of the number.
    pub open spec fn rest(self, divisor: Double) -> Double {
        if self.nan() || divisor.nan() || self.infinite() || divisor.zero() {
            Double::not_a_number()
        } else if divisor.infinite() {
            self
        } else {
            signed(
                self.negative(),
                round_magnitude(
                    magnitude_of(self.units()) % magnitude_of(divisor.units()),
                    1,
                    52,
                    2047,
                ),
            )
        }
    }

    /// The smaller of two numbers; the other where one is not a number.
    pub open spec fn smaller(self, other: Double) -> Double {
        if self.nan() || other.less(self) {
            other
        } else {
            self
        }
    }

    /// The larger of two numbers; the other where one is not a number.
    pub open spec fn larger(self, other: Double) -> Double {
        if self.nan() || self.less(other) {
            other
        } else {
            self
        }
    }

    pub open spec fn clamped(self, lo: Double, hi: Double) -> Double {
        if self.less(lo) {
            lo
        } else if hi.less(self) {
            hi
        } else {
            self
        }
    }

    /// The smaller of two numbers; the other where one is not a number.
    pub fn min(self, other: Double) -> (r: Double)
        ensures
            r == self.smaller(other),
    {
        if self.is_nan() || other.is_less_than(self) {
            other
        } else {
            self
        }
    }

    /// The larger of two numbers; the other where one is not a number.
    pub fn max(self, other: Double) -> (r: Double)
        ensures
            r == self.larger(other),
    {
        if self.is_nan() || self.is_less_than(other) {
            other
        } else {
            self
        }
    }

    pub fn clamp(self, lo: Double, hi: Double) -> (r: Double)
        ensures
            r == self.clamped(lo, hi),
    {
        if self.is_less_than(lo) {
            lo
        } else if hi.is_less_than(self) {
            hi
        } else {
            self
        }
    }

    /// What is left of a number after as many whole divisors as fit have been
    /// taken away.
    pub fn remainder(self, divisor: Double) -> (r: Double)
        ensures
            r == self.rest(divisor),
    {
        if self.is_nan() || divisor.is_nan() || !self.is_finite() || divisor.is_zero() {
            return Double::from_bits(0x7ff8_0000_0000_0000);
        }
        if !divisor.is_finite() {
            return self;
        }
        proof {
            lemma_sign_and_magnitude(self);
            lemma_sign_and_magnitude(divisor);
            lemma2_to64();
        }
        let (m1, e1) = self.parts();
        let (m2, e2) = divisor.parts();
        let ghost a = magnitude_of(self.units());
        let ghost b = magnitude_of(divisor.units());
        assert(m2 > 0) by {
            if m2 == 0 {
                assert(0 * pow2(e2 as nat) == 0);
            }
        }
        let (sig, e): (u64, u32) = if e1 >= e2 {
            (shifted_rest(m1, e1 - e2, m2), e2)
        } else {
            (short_rest(m1, m2, e2 - e1), e1)
        };
        proof {
            if e1 >= e2 {
                let d = (e1 - e2) as nat;
                lemma_pow2_adds(d, e2 as nat);
                lemma_pow2_pos(e2 as nat);
                let w = pow2(e2 as nat);
                assert(a == (m1 * pow2(d)) as nat * w) by (nonlinear_arith)
                    requires
                        a == m1 * pow2(e1 as nat),
                        pow2(e1 as nat) == pow2(d) * w,
                ;
                lemma_scaled_rest((m1 * pow2(d)) as nat, m2 as nat, w);
            } else {
                let d = (e2 - e1) as nat;
                lemma_pow2_adds(d, e1 as nat);
                lemma_pow2_pos(e1 as nat);
                lemma_pow2_pos(d);
                let w = pow2(e1 as nat);
                assert(b == (m2 * pow2(d)) as nat * w && m2 * pow2(d) > 0) by (nonlinear_arith)
                    requires
                        b == m2 * pow2(e2 as nat),
                        pow2(e2 as nat) == pow2(d) * w,
                        m2 > 0,
                        pow2(d) > 0,
                ;
                lemma_scaled_rest(m1 as nat, (m2 * pow2(d)) as nat, w);
            }
            assert(sig * pow2(e as nat) == a % b);
        }
        let magnitude: u64 = round_exact(sig as u128, e, 0, 52, 2047);
        proof {
            crate::double::lemma_round_at_most_infinite((a % b) as nat, 1);
        }
        with_sign(self.is_negative(), magnitude)
    }
}

proof fn lemma_scaled_rest(a: nat, b: nat, c: nat)
    requires
        b > 0,
        c > 0,
    ensures
        (a * c) % (b * c) == (a % b) * c,
        b * c > 0,
{
    let q = a / b;
    let r = a % b;
    lemma_fundamental_div_mod(a as int, b as int);
    lemma_mod_bound(a as int, b as int);
    assert(a * c == q * (b * c) + r * c && 0 <= r * c < b * c) by (nonlinear_arith)
        requires
            a == b * q + r,
            0 <= r < b,
            c > 0,
    ;
    lemma_fundamental_div_mod_converse((a * c) as int, (b * c) as int, q as int, (r * c) as int);
}

/// The rest of `m * 2^d` by `n`.
fn shifted_rest(m: u64, d: u32, n: u64) -> (r: u64)
    requires
        0 < n < 0x20_0000_0000_0000,
    ensures
        r == (m * pow2(d as nat)) as nat % n as nat,
        r < n,
{
    let mut r: u64 = m % n;
    let mut i: u32 = 0;
    proof {
        lemma2_to64();
        assert(m * pow2(0) == m);
    }
    while i < d
        invariant
            i <= d,
            0 < n < 0x20_0000_0000_0000,
            r < n,
            r == (m * pow2(i as nat)) as nat % n as nat,
        decreases d - i,
    {
        proof {
            lemma_pow2_unfold((i + 1) as nat);
            let x = (m * pow2(i as nat)) as int;
            assert(m * pow2((i + 1) as nat) == 2 * x) by (nonlinear_arith)
                requires
                    x == m * pow2(i as nat),
                    pow2((i + 1) as nat) == 2 * pow2(i as nat),
            ;
            vstd::arithmetic::div_mod::lemma_mul_mod_noop_right(2, x, n as int);
            assert(x >= 0) by (nonlinear_arith)
                requires
                    x == m * pow2(i as nat),
            ;
        }
        r = (2 * r) % n;
        i = i + 1;
    }
    r
}

/// The rest of `m` by `n * 2^d`.
fn short_rest(m: u64, n: u64, d: u32) -> (r: u64)
    requires
        0 < n < 0x20_0000_0000_0000,
    ensures
        r == m as nat % (n * pow2(d as nat)) as nat,
{
    proof {
        lemma2_to64();
        lemma_pow2_pos(d as nat);
    }
    if d >= 64 {
        proof {
            lemma_pow2_monotonic(64, d as nat);
            assert(n * pow2(d as nat) >= pow2(64)) by (nonlinear_arith)
                requires
                    n >= 1,
                    pow2(d as nat) >= pow2(64),
            ;
            lemma_small_mod(m as nat, (n * pow2(d as nat)) as nat);
        }
        return m;
    }
    proof {
        lemma_pow2_monotonic(d as nat, 64);
        assert(0 < n * pow2(d as nat) < 0x20_0000_0000_0000 * 0x1_0000_0000_0000_0000)
            by (nonlinear_arith)
            requires
                0 < n < 0x20_0000_0000_0000,
                0 < pow2(d as nat) <= 0x1_0000_0000_0000_0000,
        ;
    }
    let whole: u128 = n as u128 * power_of_two(d);
    let r: u128 = m as u128 % whole;
    proof {
        vstd::arithmetic::div_mod::lemma_mod_decreases(m as nat, whole as nat);
    }
    r as u64
}

} // verus!
