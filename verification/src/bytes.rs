//! Unsigned numbers as bytes, and a bounds-checked cursor over bytes.

use crate::catalog::Endian;
use crate::rounding::lemma_pow2_monotonic;

use vstd::arithmetic::power2::{lemma2_to64, lemma_pow2_adds, pow2};
use vstd::prelude::*;
use vstd::slice::slice_subrange;

verus! {

/// The low `width` bytes of a number, most significant first.
pub open spec fn big_endian(n: nat, width: nat) -> Seq<u8>
    decreases width,
{
    if width == 0 {
        Seq::empty()
    } else {
        big_endian(n / 256, (width - 1) as nat).push((n % 256) as u8)
    }
}

/// The number that bytes spell, most significant first.
pub open spec fn big_endian_value(b: Seq<u8>) -> nat
    decreases b.len(),
{
    if b.len() == 0 {
        0
    } else {
        big_endian_value(b.drop_last()) * 256 + b.last() as nat
    }
}

/// The bytes in the given order, where they were most significant first (or
/// the other way round).
pub open spec fn in_order(endian: Endian, b: Seq<u8>) -> Seq<u8> {
    match endian {
        Endian::Big => b,
        Endian::Little => b.reverse(),
    }
}

/// Bytes written in an order are read back in it.
pub proof fn lemma_in_order_twice(endian: Endian, b: Seq<u8>)
    ensures
        in_order(endian, in_order(endian, b)) == b,
        in_order(endian, b).len() == b.len(),
{
    assert(b.reverse().reverse() =~= b);
}

proof fn lemma_pow2_next_byte(width: nat)
    ensures
        pow2(8 * (width + 1)) == 256 * pow2(8 * width),
{
    lemma2_to64();
    lemma_pow2_adds(8, 8 * width);
    assert(8 + 8 * width == 8 * (width + 1));
}

/// A number that fits is read back from its bytes.
pub proof fn law_number_is_read_back(n: nat, width: nat)
    requires
        n < pow2(8 * width),
    ensures
        big_endian(n, width).len() == width,
        big_endian_value(big_endian(n, width)) == n,
    decreases width,
{
    lemma2_to64();
    if width > 0 {
        let w1 = (width - 1) as nat;
        lemma_pow2_next_byte(w1);
        assert(n / 256 < pow2(8 * w1));
        law_number_is_read_back(n / 256, w1);
        assert(big_endian(n, width).drop_last() =~= big_endian(n / 256, w1));
    }
}

/// Bytes are written back from the number that they spell.
pub proof fn law_bytes_are_written_back(b: Seq<u8>)
    ensures
        big_endian_value(b) < pow2(8 * b.len()),
        big_endian(big_endian_value(b), b.len()) == b,
    decreases b.len(),
{
    lemma2_to64();
    if b.len() > 0 {
        law_bytes_are_written_back(b.drop_last());
        lemma_pow2_next_byte((b.len() - 1) as nat);
        let v = big_endian_value(b.drop_last());
        assert((v * 256 + b.last()) / 256 == v);
        assert(big_endian(big_endian_value(b), b.len()) =~= b);
    }
}

pub proof fn lemma_big_endian_len(n: nat, width: nat)
    ensures
        big_endian(n, width).len() == width,
    decreases width,
{
    if width > 0 {
        lemma_big_endian_len(n / 256, (width - 1) as nat);
    }
}

/// The number that at most eight bytes spell, most significant first.
pub fn number(b: &[u8]) -> (n: u64)
    requires
        b@.len() <= 8,
    ensures
        n == big_endian_value(b@),
        n < pow2(8 * b@.len()),
{
    proof {
        lemma2_to64();
        law_bytes_are_written_back(b@);
    }
    let mut n: u64 = 0;
    let mut i: usize = 0;
    while i < b.len()
        invariant
            i <= b@.len() <= 8,
            n == big_endian_value(b@.take(i as int)),
        decreases b@.len() - i,
    {
        proof {
            let more = b@.take(i + 1);
            assert(more.drop_last() =~= b@.take(i as int));
            law_bytes_are_written_back(more);
            lemma2_to64();
            vstd::arithmetic::power2::lemma2_to64_rest();
            lemma_pow2_monotonic(8 * more.len(), 64);
        }
        n = n * 256 + b[i] as u64;
        i = i + 1;
    }
    assert(b@.take(i as int) =~= b@);
    n
}

/// Appends the low `width` bytes of a number, most significant first.
pub fn push_big_endian(out: &mut Vec<u8>, n: u64, width: usize)
    ensures
        final(out)@ == old(out)@ + big_endian(n as nat, width as nat),
    decreases width,
{
    if width > 0 {
        push_big_endian(out, n / 256, width - 1);
        out.push((n % 256) as u8);
        assert(out@ =~= old(out)@ + big_endian(n as nat, width as nat));
    } else {
        assert(out@ =~= old(out)@ + big_endian(n as nat, 0));
    }
}

/// The bytes in the given order, where they were most significant first (or
/// the other way round).
pub fn ordered(endian: Endian, b: &[u8]) -> (r: Vec<u8>)
    ensures
        r@ == in_order(endian, b@),
{
    let mut r: Vec<u8> = Vec::new();
    let n: usize = b.len();
    let mut i: usize = 0;
    while i < n
        invariant
            i <= n == b@.len(),
            r@ == in_order(endian, b@).take(i as int),
            in_order(endian, b@).len() == n,
        decreases n - i,
    {
        let byte: u8 = match endian {
            Endian::Big => b[i],
            Endian::Little => b[n - 1 - i],
        };
        r.push(byte);
        assert(in_order(endian, b@).take(i + 1) =~= in_order(endian, b@).take(i as int).push(
            in_order(endian, b@)[i as int],
        ));
        i = i + 1;
    }
    assert(in_order(endian, b@).take(n as int) =~= in_order(endian, b@));
    r
}

/// Bounds-checked cursor over a byte slice.
pub struct Reader<'a> {
    buf: &'a [u8],
    pos: usize,
}

impl<'a> Reader<'a> {
    #[verifier::type_invariant]
    spec fn inside(self) -> bool {
        self.pos <= self.buf@.len()
    }

    /// The bytes not yet taken.
    pub closed spec fn rest(self) -> Seq<u8> {
        self.buf@.skip(self.pos as int)
    }

    pub fn new(buf: &'a [u8]) -> (r: Reader<'a>)
        ensures
            r.rest() == buf@,
    {
        let r = Reader { buf, pos: 0 };
        assert(r.rest() =~= buf@);
        r
    }

    /// Takes the next `n` bytes, or nothing where fewer are left.
    pub fn take(&mut self, n: usize) -> (r: Option<&'a [u8]>)
        ensures
            r is Some <==> n <= old(self).rest().len(),
            match r {
                Some(bytes) => bytes@ == old(self).rest().take(n as int) && final(self).rest()
                    == old(self).rest().skip(n as int),
                None => final(self).rest() == old(self).rest(),
            },
    {
        proof {
            use_type_invariant(&*self);
        }
        if n > self.buf.len() - self.pos {
            return None;
        }
        let start: usize = self.pos;
        let bytes: &'a [u8] = slice_subrange(self.buf, start, start + n);
        self.pos = start + n;
        assert(bytes@ =~= old(self).rest().take(n as int));
        assert(self.rest() =~= old(self).rest().skip(n as int));
        Some(bytes)
    }

    /// Takes a big-endian number of `width` bytes.
    fn unsigned(&mut self, width: usize) -> (r: Option<u64>)
        requires
            width <= 8,
        ensures
            r is Some <==> width <= old(self).rest().len(),
            match r {
                Some(n) => n == big_endian_value(old(self).rest().take(width as int)) && n < pow2(
                    8 * width as nat,
                ) && final(self).rest() == old(self).rest().skip(width as int),
                None => final(self).rest() == old(self).rest(),
            },
    {
        match self.take(width) {
            Some(bytes) => Some(number(bytes)),
            None => None,
        }
    }

    pub fn u8(&mut self) -> (r: Option<u8>)
        ensures
            r is Some <==> 1 <= old(self).rest().len(),
            match r {
                Some(n) => n == old(self).rest()[0] && final(self).rest() == old(self).rest().skip(
                    1,
                ),
                None => final(self).rest() == old(self).rest(),
            },
    {
        match self.take(1) {
            Some(bytes) => Some(bytes[0]),
            None => None,
        }
    }

    pub fn u16_be(&mut self) -> (r: Option<u16>)
        ensures
            r is Some <==> 2 <= old(self).rest().len(),
            match r {
                Some(n) => n == big_endian_value(old(self).rest().take(2)) && final(self).rest()
                    == old(self).rest().skip(2),
                None => final(self).rest() == old(self).rest(),
            },
    {
        proof {
            lemma2_to64();
        }
        match self.unsigned(2) {
            Some(n) => Some(n as u16),
            None => None,
        }
    }

    pub fn u64_be(&mut self) -> (r: Option<u64>)
        ensures
            r is Some <==> 8 <= old(self).rest().len(),
            match r {
                Some(n) => n == big_endian_value(old(self).rest().take(8)) && final(self).rest()
                    == old(self).rest().skip(8),
                None => final(self).rest() == old(self).rest(),
            },
    {
        self.unsigned(8)
    }

    /// How many bytes are left.
    pub fn remaining(&self) -> (n: usize)
        ensures
            n == self.rest().len(),
    {
        proof {
            use_type_invariant(self);
        }
        self.buf.len() - self.pos
    }
}

} // verus!
