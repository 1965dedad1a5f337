//! The binary reflected Gray code and its inverse.
//!
//! Successive terms of the code differ in exactly one bit, and the term at a
//! given position does not depend on the width in which the code is read, so
//! the sequence can be generated without knowing how many bits will be used.
use crate::bits::lemma_below_pow2_is_shift;
use vstd::arithmetic::power2::{lemma2_to64, pow2};
use vstd::prelude::*;

verus! {

/// The Gray code at position `i` of the sequence.
pub open spec fn gray_code(i: u32) -> u32 {
    i ^ (i >> 1)
}

/// The position at which the Gray code `g` occurs: the exclusive-or of `g`
/// with all of its right shifts.
pub open spec fn gray_inverse(g: u32) -> u32
    decreases g,
{
    if g == 0 {
        0
    } else {
        g ^ gray_inverse(g / 2)
    }
}

/// The term of the Gray sequence at position `i`.
pub fn gray_code_at(i: u32) -> (g: u32)
    ensures
        g == gray_code(i),
{
    i ^ (i >> 1)
}

/// A restartable generator of the Gray sequence; `index` is the position of
/// the term that comes next.
#[derive(Debug)]
pub struct Brgc {
    pub index: u32,
}

impl Brgc {
    /// Hands out the term at the current position and moves one position on.
    pub fn next(&mut self) -> (term: Option<u32>)
        requires
            old(self).index < u32::MAX,
        ensures
            term == Some(gray_code(old(self).index)),
            final(self).index == old(self).index + 1,
    {
        let gray = gray_code_at(self.index);
        self.index = self.index + 1;
        Some(gray)
    }

    /// The next `count` terms, in order, starting at the current position.
    pub fn take(self, count: u64) -> (terms: Vec<u32>)
        requires
            self.index + count <= 0x1_0000_0000,
        ensures
            terms@.len() == count,
            forall|k: int| 0 <= k < count ==> #[trigger] terms@[k] == gray_code((self.index + k) as u32),
    {
        let mut terms: Vec<u32> = Vec::new();
        let mut done: u64 = 0;
        while done < count
            invariant
                done <= count,
                self.index + count <= 0x1_0000_0000,
                terms@.len() == done,
                forall|k: int| 0 <= k < done ==> #[trigger] terms@[k] == gray_code((self.index + k) as u32),
            decreases count - done,
        {
            let position: u32 = (self.index as u64 + done) as u32;
            terms.push(gray_code_at(position));
            done = done + 1;
        }
        terms
    }

    /// Recovers the position of a Gray code by folding its right shifts into
    /// it, one after another, until nothing is left to shift.
    pub fn binary_from_gray(gray_code: u32) -> (binary: u32)
        ensures
            binary == gray_inverse(gray_code),
            self::gray_code(binary) == gray_code,
    {
        let mut mask: u32 = gray_code;
        let mut out: u32 = gray_code;
        proof {
            lemma_xor_zero(gray_code);
        }
        while mask != 0
            invariant
                gray_inverse(gray_code) == out ^ gray_inverse(mask / 2),
            decreases mask,
        {
            let ghost before = mask;
            let ghost acc = out;
            mask = mask >> 1;
            out = out ^ mask;
            proof {
                let rest = gray_inverse(mask / 2);
                assert(mask == before / 2 && mask < before) by (bit_vector)
                    requires
                        mask == before >> 1,
                        before != 0,
                ;
                lemma_xor_zero(mask);
                assert(acc ^ (mask ^ rest) == (acc ^ mask) ^ rest) by (bit_vector);
            }
        }
        proof {
            lemma_xor_zero(out);
            lemma_gray_of_inverse(gray_code);
        }
        out
    }
}

proof fn lemma_xor_zero(x: u32)
    ensures
        x ^ 0 == x,
        0 ^ x == x,
{
    assert(x ^ 0 == x && 0 ^ x == x) by (bit_vector);
}

/// Successive Gray codes differ in exactly one bit: their exclusive-or is a
/// single set bit.
pub proof fn lemma_gray_successors_differ_in_one_bit(i: u32)
    requires
        i < u32::MAX,
    ensures
        exists|k: u32| k < 32 && gray_code(i) ^ gray_code((i + 1) as u32) == 1u32 << k,
{
    let j: u32 = (i + 1) as u32;
    let d: u32 = gray_code(i) ^ gray_code(j);
    let k: u32 = single_bit_position(d);
    assert(k < 32 && d == 1u32 << k) by (bit_vector)
        requires
            i < 0xffff_ffffu32,
            j == i + 1,
            d == (i ^ (i >> 1)) ^ (j ^ (j >> 1)),
            k == single_bit_position(d),
    ;
}

/// The position of the set bit of a word that has exactly one.
pub open spec fn single_bit_position(d: u32) -> u32 {
    let a: u32 = if d & 0xffff_0000 != 0 { 16 } else { 0 };
    let b: u32 = if d & 0xff00_ff00 != 0 { 8 } else { 0 };
    let c: u32 = if d & 0xf0f0_f0f0 != 0 { 4 } else { 0 };
    let e: u32 = if d & 0xcccc_cccc != 0 { 2 } else { 0 };
    let f: u32 = if d & 0xaaaa_aaaa != 0 { 1 } else { 0 };
    (a + b + c + e + f) as u32
}

/// Decoding the Gray code at position `i` gives back `i`.
pub proof fn lemma_inverse_of_gray(i: u32)
    ensures
        gray_inverse(gray_code(i)) == i,
    decreases i,
{
    let g = gray_code(i);
    if i == 0 {
        assert(0u32 ^ (0u32 >> 1) == 0) by (bit_vector);
    } else {
        let half: u32 = i / 2;
        assert(g != 0 && g / 2 == half ^ (half >> 1) && g ^ half == i) by (bit_vector)
            requires
                i != 0,
                half == i / 2,
                g == i ^ (i >> 1),
        ;
        lemma_inverse_of_gray(half);
    }
}

/// Encoding the position found for a Gray code gives back that code.
pub proof fn lemma_gray_of_inverse(g: u32)
    ensures
        gray_code(gray_inverse(g)) == g,
    decreases g,
{
    if g == 0 {
        assert(0u32 ^ (0u32 >> 1) == 0) by (bit_vector);
    } else {
        let half: u32 = g / 2;
        let rest = gray_inverse(half);
        lemma_gray_of_inverse(half);
        let b = g ^ rest;
        assert(b ^ (b >> 1) == g) by (bit_vector)
            requires
                g != 0,
                half == g / 2,
                rest ^ (rest >> 1) == half,
                b == g ^ rest,
        ;
    }
}

/// The Gray code of a position of at most `k` bits has at most `k` bits.
pub proof fn lemma_gray_code_bound(i: u32, k: nat)
    requires
        k <= 32,
        i < pow2(k),
    ensures
        gray_code(i) < pow2(k),
{
    if k < 32 {
        let shift = k as u32;
        lemma_below_pow2_is_shift(i, shift);
        lemma_below_pow2_is_shift(gray_code(i), shift);
        assert((i ^ (i >> 1)) >> shift == 0) by (bit_vector)
            requires
                shift < 32,
                i >> shift == 0,
        ;
    } else {
        lemma2_to64();
    }
}

/// The position of a Gray code of at most `k` bits has at most `k` bits.
pub proof fn lemma_gray_inverse_bound(g: u32, k: nat)
    requires
        k <= 32,
        g < pow2(k),
    ensures
        gray_inverse(g) < pow2(k),
    decreases g,
{
    if k == 32 {
        lemma2_to64();
    } else if g != 0 {
        let shift = k as u32;
        let half: u32 = g / 2;
        let rest = gray_inverse(half);
        lemma_gray_inverse_bound(half, k);
        lemma_below_pow2_is_shift(g, shift);
        lemma_below_pow2_is_shift(rest, shift);
        lemma_below_pow2_is_shift(g ^ rest, shift);
        assert((g ^ rest) >> shift == 0) by (bit_vector)
            requires
                shift < 32,
                g >> shift == 0,
                rest >> shift == 0,
        ;
    }
}

} // verus!
