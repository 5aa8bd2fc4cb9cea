//! The exact decimal text of a double-precision number.

use crate::double::{magnitude_exponent, magnitude_of, magnitude_significand, one_in_units, Double};
use crate::text::{decimal_text, digit_text, digits};
use vstd::arithmetic::power::{lemma_pow_adds, pow};
use vstd::arithmetic::power2::{lemma_pow2, lemma_pow2_adds, pow2};
use vstd::prelude::*;

verus! {

/// Text of `sig * 2^(exponent - 1074)`: an integer, or an integer and a
/// negative power of ten.
pub open spec fn magnitude_text(sig: nat, exponent: nat) -> Seq<char> {
    if exponent >= 1074 {
        digits(sig * pow2((exponent - 1074) as nat))
    } else {
        let k = (1074 - exponent) as nat;
        digits((sig * pow(5, k)) as nat) + "e-"@ + digits(k)
    }
}

/// The exact decimal text of a number.
pub open spec fn number_text(d: Double) -> Seq<char> {
    if d.nan() {
        "NaN"@
    } else {
        (if d.negative() {
            "-"@
        } else {
            ""@
        }) + if d.infinite() {
            "inf"@
        } else {
            magnitude_text(
                magnitude_significand(d.magnitude(), 52),
                magnitude_exponent(d.magnitude(), 52),
            )
        }
    }
}

/// Value of digits, least significant first, from position `i` on.
spec fn value_from(s: Seq<u8>, i: nat) -> nat
    decreases s.len() - i,
{
    if i >= s.len() {
        0
    } else {
        s[i as int] as nat + 10 * value_from(s, i + 1)
    }
}

/// Value of the first `n` digits, least significant first.
spec fn value_before(s: Seq<u8>, n: nat) -> int
    decreases n,
{
    if n == 0 {
        0
    } else {
        value_before(s, (n - 1) as nat) + s[n - 1] * pow(10, (n - 1) as nat)
    }
}

proof fn lemma_split(s: Seq<u8>, i: nat)
    requires
        i <= s.len(),
    ensures
        value_before(s, i) + pow(10, i) * value_from(s, i) == value_from(s, 0),
    decreases i,
{
    if i == 0 {
        vstd::arithmetic::power::lemma_pow0(10);
    } else {
        let j = (i - 1) as nat;
        lemma_split(s, j);
        vstd::arithmetic::power::lemma_pow_adds(10, 1, j);
        vstd::arithmetic::power::lemma_pow1(10);
        let p = pow(10, j);
        let v = value_from(s, i) as int;
        let d = s[j as int] as int;
        assert(p * (d + 10 * v) == d * p + (10 * p) * v) by (nonlinear_arith);
    }
}

proof fn lemma_value_before_same(a: Seq<u8>, b: Seq<u8>, n: nat)
    requires
        n <= a.len(),
        n <= b.len(),
        a.take(n as int) =~= b.take(n as int),
    ensures
        value_before(a, n) == value_before(b, n),
    decreases n,
{
    if n > 0 {
        assert(a[n - 1] == a.take(n as int)[n - 1]);
        assert(b[n - 1] == b.take(n as int)[n - 1]);
        assert(a.take(n - 1) =~= a.take(n as int).take(n - 1));
        assert(b.take(n - 1) =~= b.take(n as int).take(n - 1));
        lemma_value_before_same(a, b, (n - 1) as nat);
    }
}

/// Digits of a number, least significant first, without a leading zero but in
/// zero itself.
spec fn is_number(s: Seq<u8>) -> bool {
    &&& s.len() > 0
    &&& forall|i: int| 0 <= i < s.len() ==> #[trigger] s[i] < 10
    &&& s.len() > 1 ==> s[s.len() - 1] > 0
}

/// Multiplies digits by a single digit.
fn times(s: &Vec<u8>, c: u8) -> (r: Vec<u8>)
    requires
        is_number(s@),
        0 < c < 10,
    ensures
        is_number(r@),
        value_from(r@, 0) == c * value_from(s@, 0),
{
    let mut r: Vec<u8> = Vec::new();
    let mut carry: u8 = 0;
    let mut i: usize = 0;
    proof {
        vstd::arithmetic::power::lemma_pow0(10);
    }
    while i < s.len()
        invariant
            i <= s@.len(),
            is_number(s@),
            0 < c < 10,
            carry < 10,
            r@.len() == i,
            forall|j: int| 0 <= j < i ==> #[trigger] r@[j] < 10,
            value_before(r@, i as nat) + carry * pow(10, i as nat) == c * value_before(
                s@,
                i as nat,
            ),
            i == s@.len() && i > 1 ==> r@[i - 1] > 0 || carry > 0,
        decreases s@.len() - i,
    {
        let d: u8 = s[i];
        assert(d * c <= 81) by (nonlinear_arith)
            requires
                d < 10,
                c < 10,
        ;
        let t: u8 = d * c + carry;
        let ghost before = r@;
        r.push(t % 10);
        proof {
            lemma_value_before_same(before, r@, i as nat);
            lemma_pow_adds(10, 1, i as nat);
            vstd::arithmetic::power::lemma_pow1(10);
            let p = pow(10, i as nat);
            let low = (t % 10) as int;
            let high = (t / 10) as int;
            let a = value_before(before, i as nat);
            let b = value_before(s@, i as nat);
            assert(a + low * p + high * (10 * p) == c * (b + d * p)) by (nonlinear_arith)
                requires
                    low + 10 * high == d * c + carry,
                    a + carry * p == c * b,
            ;
            if i + 1 == s@.len() && i + 1 > 1 {
                assert(d * c > 0) by (nonlinear_arith)
                    requires
                        d > 0,
                        c > 0,
                ;
            }
        }
        carry = t / 10;
        i = i + 1;
    }
    proof {
        lemma_split(s@, i as nat);
        assert(value_from(s@, i as nat) == 0);
        assert(pow(10, i as nat) * 0 == 0);
    }
    if carry > 0 {
        let ghost before = r@;
        r.push(carry);
        proof {
            lemma_value_before_same(before, r@, i as nat);
        }
    }
    proof {
        lemma_split(r@, r@.len());
        assert(value_from(r@, r@.len()) == 0);
        assert(pow(10, r@.len()) * 0 == 0);
        assert(carry == 0 ==> carry * pow(10, i as nat) == 0) by (nonlinear_arith);
    }
    r
}

/// The digits of a number, multiplied by a digit again and again.
fn times_power(n: u64, c: u8, k: u32) -> (r: Vec<u8>)
    requires
        0 < c < 10,
    ensures
        is_number(r@),
        value_from(r@, 0) == n * pow(c as int, k as nat),
{
    let mut r: Vec<u8> = number_digits(n);
    let mut i: u32 = 0;
    proof {
        vstd::arithmetic::power::lemma_pow0(c as int);
    }
    while i < k
        invariant
            i <= k,
            0 < c < 10,
            is_number(r@),
            value_from(r@, 0) == n * pow(c as int, i as nat),
        decreases k - i,
    {
        proof {
            lemma_pow_adds(c as int, 1, i as nat);
            vstd::arithmetic::power::lemma_pow1(c as int);
            let p = pow(c as int, i as nat);
            assert(c * (n * p) == n * (c * p)) by (nonlinear_arith);
        }
        r = times(&r, c);
        i = i + 1;
    }
    r
}

fn number_digits(n: u64) -> (r: Vec<u8>)
    ensures
        is_number(r@),
        value_from(r@, 0) == n,
    decreases n,
{
    let mut r: Vec<u8> = Vec::new();
    r.push((n % 10) as u8);
    if n >= 10 {
        let mut higher: Vec<u8> = number_digits(n / 10);
        let ghost top = higher@;
        r.append(&mut higher);
        proof {
            assert(r@ =~= seq![(n % 10) as u8] + top);
            lemma_shifted(r@, top, 0);
            assert(top.len() == 1 ==> value_from(top, 1) == 0);
        }
    } else {
        assert(value_from(r@, 1) == 0);
    }
    r
}

proof fn lemma_shifted(s: Seq<u8>, top: Seq<u8>, i: nat)
    requires
        s.len() == top.len() + 1,
        forall|j: int| 0 <= j < top.len() ==> #[trigger] top[j] == s[j + 1],
    ensures
        value_from(s, i + 1) == value_from(top, i),
    decreases top.len() - i,
{
    if i < top.len() {
        lemma_shifted(s, top, i + 1);
    }
}

/// Appends the number that digits spell.
fn append_number(out: &mut String, s: &Vec<u8>)
    requires
        is_number(s@),
    ensures
        final(out)@ == old(out)@ + digits(value_from(s@, 0)),
{
    let mut n: usize = s.len() - 1;
    out.append(digit_text(s[n]));
    proof {
        assert(value_from(s@, s@.len()) == 0);
        assert(out@ =~= old(out)@ + digits(value_from(s@, n as nat)));
    }
    while n > 0
        invariant
            n < s@.len(),
            is_number(s@),
            out@ == old(out)@ + digits(value_from(s@, n as nat)),
            s@.len() > 1 ==> value_from(s@, n as nat) > 0,
        decreases n,
    {
        n = n - 1;
        out.append(digit_text(s[n]));
        proof {
            let v = value_from(s@, n as nat);
            assert(v / 10 == value_from(s@, n as nat + 1) && v % 10 == s@[n as int]);
            assert(out@ =~= old(out)@ + digits(v));
        }
    }
}

/// The exact decimal text of a number; "NaN", "inf" or "-inf" where it has none.
pub fn exact_text(d: Double) -> (r: String)
    ensures
        r@ == number_text(d),
{
    if d.is_nan() {
        return "NaN".to_owned();
    }
    let mut r: String = String::new();
    if d.is_negative() {
        r.append("-");
    } else {
        r.append("");
    }
    assert(r@ =~= if d.negative() {
        "-"@
    } else {
        ""@
    });
    if !d.is_finite() {
        r.append("inf");
        return r;
    }
    let (sig, exponent) = d.parts();
    if exponent >= 1074 {
        proof {
            lemma_pow2((exponent - 1074) as nat);
        }
        append_number(&mut r, &times_power(sig, 2, exponent - 1074));
    } else {
        let k: u32 = 1074 - exponent;
        append_number(&mut r, &times_power(sig, 5, k));
        r.append("e-");
        r.append(decimal_text(k as i128).as_str());
    }
    assert(r@ =~= number_text(d));
    r
}

/// The text of a finite number has exactly its value: the digits and the power
/// of ten give back the number of units.
pub proof fn law_text_is_exact(d: Double)
    requires
        d.finite(),
    ensures
        ({
            let sig = magnitude_significand(d.magnitude(), 52);
            let exponent = magnitude_exponent(d.magnitude(), 52);
            if exponent >= 1074 {
                sig * pow2((exponent - 1074) as nat) * one_in_units() == magnitude_of(d.units())
            } else {
                let k = (1074 - exponent) as nat;
                sig * pow(5, k) * one_in_units() == magnitude_of(d.units()) * pow(10, k)
            }
        }),
{
    crate::precision::lemma_sign_and_magnitude(d);
    let sig = magnitude_significand(d.magnitude(), 52);
    let x = magnitude_exponent(d.magnitude(), 52);
    if x >= 1074 {
        let e = (x - 1074) as nat;
        lemma_pow2_adds(e, 1074);
        let (a, b) = (pow2(e), pow2(1074));
        assert(sig * a * b == sig * (a * b)) by (nonlinear_arith);
    } else {
        let k = (1074 - x) as nat;
        lemma_pow2_adds(x, k);
        lemma_pow2(k);
        vstd::arithmetic::power::lemma_pow_distributes(2, 5, k);
        let (a, b, c) = (pow2(x) as int, pow2(k) as int, pow(5, k));
        assert(sig * c * (a * b) == sig * a * (b * c)) by (nonlinear_arith);
    }
}

} // verus!
