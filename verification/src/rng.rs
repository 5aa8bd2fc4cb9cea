//! Tiny seeded generator of pseudo-random numbers (xorshift64*), so runs are
//! reproducible.

use crate::double::{magnitude_of, one_in_units, Double};
use crate::precision::{
    law_small_integers_are_exact, lemma_assembled_units, lemma_short_is_kept,
    lemma_sign_and_magnitude, lemma_signed,
};
use crate::rounding::{lemma_pow2_monotonic, lemma_round_magnitude_scale, round_magnitude};
use vstd::arithmetic::power2::{
    lemma2_to64, lemma2_to64_rest, lemma_pow2_adds, lemma_pow2_pos, lemma_pow2_unfold, pow2,
};
use vstd::prelude::*;

verus! {

/// The state that a seed starts from: splitmix64 scrambles it, so that small
/// seeds still diverge. Never zero.
pub open spec fn seeded(seed: u64) -> u64 {
    let a = seed.wrapping_add(0x9E37_79B9_7F4A_7C15);
    let b = (a ^ (a >> 30)).wrapping_mul(0xBF58_476D_1CE4_E5B9);
    let c = (b ^ (b >> 27)).wrapping_mul(0x94D0_49BB_1331_11EB);
    let d = c ^ (c >> 31);
    if d == 0 {
        1
    } else {
        d
    }
}

/// The state after a state.
pub open spec fn stepped(state: u64) -> u64 {
    let a = state ^ (state >> 12);
    let b = a ^ (a << 25);
    b ^ (b >> 27)
}

/// The state after `n` more numbers.
pub open spec fn stepped_by(state: u64, n: nat) -> u64
    decreases n,
{
    if n == 0 {
        state
    } else {
        stepped(stepped_by(state, (n - 1) as nat))
    }
}

/// The number that a state gives.
pub open spec fn drawn(state: u64) -> u64 {
    stepped(state).wrapping_mul(0x2545_F491_4F6C_DD1D)
}

/// Two to the power of 53.
pub open spec fn two53() -> Double {
    Double { bits: 0x4340_0000_0000_0000 }
}

/// The number in `[0, 1)` that a state gives.
pub open spec fn drawn_fraction(state: u64) -> Double {
    Double::of_integer((drawn(state) >> 11) as int).quotient(two53())
}

/// The number in `[-amp, amp)` that a state gives.
pub open spec fn drawn_noise(state: u64, amp: Double) -> Double {
    drawn_fraction(state).product(Double { bits: 0x4000_0000_0000_0000 }).difference(
        Double { bits: 0x3ff0_0000_0000_0000 },
    ).product(amp)
}

/// The `n` bytes that a state gives.
pub open spec fn drawn_bytes(state: u64, n: nat) -> Seq<u8> {
    Seq::new(n, |i: int| (drawn(stepped_by(state, i as nat)) % 256) as u8)
}

/// A seeded generator. Its state is never zero.
#[derive(Debug)]
pub struct Rng(u64);

impl View for Rng {
    type V = u64;

    closed spec fn view(&self) -> u64 {
        self.0
    }
}

/// From a state that is not zero the generator never reaches zero, where it
/// would stay.
pub proof fn law_state_is_never_zero(state: u64)
    requires
        state != 0,
    ensures
        stepped(state) != 0,
{
    assert(state != 0 ==> (state ^ (state >> 12)) != 0) by (bit_vector);
    let a = state ^ (state >> 12);
    assert(a != 0 ==> (a ^ (a << 25)) != 0) by (bit_vector);
    let b = a ^ (a << 25);
    assert(b != 0 ==> (b ^ (b >> 27)) != 0) by (bit_vector);
}

/// A fraction is a whole number of steps of `2^-53` between zero and one.
pub proof fn law_fraction_is_below_one(state: u64)
    ensures
        drawn_fraction(state).finite(),
        !drawn_fraction(state).negative(),
        drawn_fraction(state).units() == (drawn(state) >> 11) * pow2(1021),
        0 <= drawn_fraction(state).units() < one_in_units(),
{
    let x = drawn(state);
    let n = x >> 11;
    assert(n < 0x20_0000_0000_0000) by (bit_vector)
        requires
            n == x >> 11,
    ;
    lemma2_to64();
    lemma2_to64_rest();
    law_small_integers_are_exact(n as int);
    let a = Double::of_integer(n as int);
    lemma_sign_and_magnitude(a);
    lemma_sign_and_magnitude(two53());
    let w = one_in_units();
    lemma_pow2_pos(1074);
    lemma_pow2_pos(1021);
    lemma_pow2_pos(53);
    lemma_pow2_unfold(53);
    assert(0x4340_0000_0000_0000 == 1075 * pow2(52) + pow2(52));
    lemma_assembled_units(1075, pow2(52), 52);
    lemma_pow2_adds(52, 1075);
    lemma_pow2_adds(53, 1074);
    lemma_pow2_adds(53, 1021);
    let b = magnitude_of(two53().units());
    assert(b == pow2(53) * w);
    let c = pow2(1021);
    let h = pow2(53);
    assert(w == h * c);
    let num = (n * c) as nat;
    assert(magnitude_of(a.units()) * w == num * (h * w) && b == 1 * (h * w) && h * w > 0)
        by (nonlinear_arith)
        requires
            magnitude_of(a.units()) == n * w,
            num == n * c,
            w == h * c,
            b == h * w,
            h > 0,
            w > 0,
    ;
    lemma_round_magnitude_scale(num, 1, h * w, 52, 2047);
    lemma_pow2_monotonic(1074, 2097);
    assert(num < w) by (nonlinear_arith)
        requires
            num == n * c,
            n < h,
            w == h * c,
            c > 0,
    ;
    lemma_short_is_kept(n as nat, 1021);
    lemma_signed(false, round_magnitude(num, 1, 52, 2047));
}

impl Rng {
    #[verifier::type_invariant]
    spec fn valid(self) -> bool {
        self.0 != 0
    }

    pub fn new(seed: u64) -> (r: Rng)
        ensures
            r@ == seeded(seed),
            r@ != 0,
    {
        let a: u64 = seed.wrapping_add(0x9E37_79B9_7F4A_7C15);
        let b: u64 = (a ^ (a >> 30)).wrapping_mul(0xBF58_476D_1CE4_E5B9);
        let c: u64 = (b ^ (b >> 27)).wrapping_mul(0x94D0_49BB_1331_11EB);
        let d: u64 = c ^ (c >> 31);
        Rng(
            if d == 0 {
                1
            } else {
                d
            },
        )
    }

    pub fn next_u64(&mut self) -> (r: u64)
        ensures
            r == drawn(old(self)@),
            final(self)@ == stepped(old(self)@),
    {
        proof {
            use_type_invariant(&*self);
            law_state_is_never_zero(self.0);
        }
        let mut x: u64 = self.0;
        x = x ^ (x >> 12);
        x = x ^ (x << 25);
        x = x ^ (x >> 27);
        self.0 = x;
        x.wrapping_mul(0x2545_F491_4F6C_DD1D)
    }

    /// Uniform in `[0, 1)`.
    pub fn fraction(&mut self) -> (r: Double)
        ensures
            r == drawn_fraction(old(self)@),
            final(self)@ == stepped(old(self)@),
    {
        let n: u64 = self.next_u64() >> 11;
        Double::from_integer(n as i128).divided_by(Double::from_bits(0x4340_0000_0000_0000))
    }

    pub fn chance(&mut self, p: Double) -> (r: bool)
        ensures
            r == drawn_fraction(old(self)@).less(p),
            final(self)@ == stepped(old(self)@),
    {
        self.fraction().is_less_than(p)
    }

    /// Uniform in `0..n`; `n` must be non-zero.
    pub fn below(&mut self, n: usize) -> (r: usize)
        requires
            n > 0,
        ensures
            r == drawn(old(self)@) % (n as u64),
            r < n,
            final(self)@ == stepped(old(self)@),
    {
        (self.next_u64() % (n as u64)) as usize
    }

    /// Uniform in `[-amp, amp)`.
    pub fn noise(&mut self, amp: Double) -> (r: Double)
        ensures
            r == drawn_noise(old(self)@, amp),
            final(self)@ == stepped(old(self)@),
    {
        self.fraction().times(Double::from_bits(0x4000_0000_0000_0000)).minus(
            Double::from_bits(0x3ff0_0000_0000_0000),
        ).times(amp)
    }

    pub fn bytes(&mut self, n: usize) -> (r: Vec<u8>)
        ensures
            r@ == drawn_bytes(old(self)@, n as nat),
            final(self)@ == stepped_by(old(self)@, n as nat),
    {
        let mut r: Vec<u8> = Vec::new();
        let mut i: usize = 0;
        while i < n
            invariant
                i <= n,
                self@ == stepped_by(old(self)@, i as nat),
                r@.len() == i,
                forall|j: int|
                    0 <= j < i ==> #[trigger] r@[j] == (drawn(stepped_by(old(self)@, j as nat))
                        % 256) as u8,
            decreases n - i,
        {
            let x: u64 = self.next_u64();
            r.push((x % 256) as u8);
            i = i + 1;
        }
        assert(r@ =~= drawn_bytes(old(self)@, n as nat));
        r
    }

    /// Between 1 and `max` random bytes; `max` must be non-zero.
    pub fn some_bytes(&mut self, max: usize) -> (r: Vec<u8>)
        requires
            max > 0,
        ensures
            r@ == drawn_some_bytes(old(self)@, max as nat),
            final(self)@ == after_some_bytes(old(self)@, max as nat),
    {
        let n: usize = 1 + self.below(max);
        self.bytes(n)
    }
}

/// Between 1 and `max` bytes that a state gives.
pub open spec fn drawn_some_bytes(state: u64, max: nat) -> Seq<u8> {
    drawn_bytes(stepped(state), 1 + (drawn(state) as nat % max))
}

pub open spec fn after_some_bytes(state: u64, max: nat) -> u64 {
    stepped_by(stepped(state), 1 + (drawn(state) as nat % max))
}

} // verus!
