//! Bit sequences, most significant bit first, and the numbers they spell.
use vstd::arithmetic::div_mod::{lemma_basic_div, lemma_div_denominator, lemma_div_non_zero};
use vstd::arithmetic::power2::{lemma2_to64, lemma_pow2_pos, lemma_pow2_unfold, pow2};
use vstd::bits::lemma_u32_shr_is_div;
use vstd::prelude::*;

verus! {

/// The number spelled by `bits`, read most significant bit first.
pub open spec fn bits_value(bits: Seq<bool>) -> nat
    decreases bits.len(),
{
    if bits.len() == 0 {
        0
    } else {
        2 * bits_value(bits.drop_last()) + if bits.last() { 1nat } else { 0nat }
    }
}

/// The low `len` bits of `v`, most significant first: `v` written in binary
/// and padded with zeros on the left to `len` digits.
pub open spec fn bits_of(v: nat, len: nat) -> Seq<bool>
    decreases len,
{
    if len == 0 {
        Seq::empty()
    } else {
        bits_of(v / 2, (len - 1) as nat).push(v % 2 == 1)
    }
}

/// The number of binary digits of `v` without leading zeros; zero has none.
pub open spec fn bit_length(v: nat) -> nat
    decreases v,
{
    if v == 0 {
        0
    } else {
        1 + bit_length(v / 2)
    }
}

/// Bit `j` of a word, counted from the least significant; a word has no
/// bits beyond the 32nd.
pub open spec fn word_bit(word: u32, j: int) -> bool {
    0 <= j < 32 && (word >> (j as u32)) & 1 == 1
}

pub proof fn lemma_bits_of_len(v: nat, len: nat)
    ensures
        bits_of(v, len).len() == len,
    decreases len,
{
    if len > 0 {
        lemma_bits_of_len(v / 2, (len - 1) as nat);
    }
}

/// A sequence of `len` bits spells a number below `2^len`.
pub proof fn lemma_bits_value_bound(bits: Seq<bool>)
    ensures
        bits_value(bits) < pow2(bits.len()),
    decreases bits.len(),
{
    if bits.len() == 0 {
        lemma2_to64();
    } else {
        lemma_bits_value_bound(bits.drop_last());
        lemma_pow2_unfold(bits.len());
    }
}

/// Writing a number in enough bits and reading it back changes nothing.
pub proof fn lemma_value_of_bits_of(v: nat, len: nat)
    requires
        v < pow2(len),
    ensures
        bits_value(bits_of(v, len)) == v,
    decreases len,
{
    if len == 0 {
        lemma2_to64();
    } else {
        lemma_pow2_unfold(len);
        lemma_value_of_bits_of(v / 2, (len - 1) as nat);
        assert(bits_of(v, len).drop_last() =~= bits_of(v / 2, (len - 1) as nat));
    }
}

/// Reading a bit sequence and writing the number in as many bits gives the
/// sequence back.
pub proof fn lemma_bits_of_value(bits: Seq<bool>)
    ensures
        bits_of(bits_value(bits), bits.len()) == bits,
    decreases bits.len(),
{
    if bits.len() > 0 {
        lemma_bits_of_value(bits.drop_last());
    }
}

/// The value of a concatenation: the left part is shifted past the right.
pub proof fn lemma_bits_value_concat(high: Seq<bool>, low: Seq<bool>)
    ensures
        bits_value(high + low) == bits_value(high) * pow2(low.len()) + bits_value(low),
    decreases low.len(),
{
    if low.len() == 0 {
        lemma2_to64();
        assert(high + low =~= high);
    } else {
        lemma_bits_value_concat(high, low.drop_last());
        lemma_pow2_unfold(low.len());
        assert((high + low).drop_last() =~= high + low.drop_last());
        let h = bits_value(high) as int;
        let q = pow2((low.len() - 1) as nat) as int;
        assert(2 * (h * q) == h * (2 * q)) by (nonlinear_arith);
    }
}

/// The bits of a number split into the bits of its quotient and the low
/// bits of the number itself.
pub proof fn lemma_bits_of_split(v: nat, high: nat, low: nat)
    ensures
        bits_of(v, high + low) == bits_of(v / pow2(low), high) + bits_of(v, low),
    decreases low,
{
    if low == 0 {
        lemma2_to64();
    } else {
        let below = (low - 1) as nat;
        lemma_bits_of_split(v / 2, high, below);
        lemma_pow2_unfold(low);
        lemma_pow2_pos(below);
        lemma_div_denominator(v as int, 2, pow2(below) as int);
    }
}

/// Only the residue modulo `2^len` matters for the low `len` bits.
pub proof fn lemma_bits_of_low(v: nat, len: nat)
    ensures
        bits_of(v, len) == bits_of(v % pow2(len), len),
    decreases len,
{
    lemma_pow2_pos(len);
    if len > 0 {
        let below = (len - 1) as nat;
        lemma_pow2_unfold(len);
        lemma_bits_of_low(v / 2, below);
        lemma_halve_residue(v as int, pow2(below) as int);
    }
}

proof fn lemma_halve_residue(v: int, m: int)
    requires
        v >= 0,
        m > 0,
    ensures
        (v % (2 * m)) / 2 == (v / 2) % m,
        (v % (2 * m)) % 2 == v % 2,
{
    let q = v / (2 * m);
    let r = v % (2 * m);
    let h = r / 2;
    assert(v / 2 == m * q + h && v % 2 == r % 2) by (nonlinear_arith)
        requires
            v == (2 * m) * q + r,
            h == r / 2,
            0 <= r,
    ;
    assert((m * q + h) % m == h) by (nonlinear_arith)
        requires
            0 <= h < m,
            m > 0,
    ;
}

/// A prefix of a bit sequence spells no more than the whole sequence.
pub proof fn lemma_prefix_value(bits: Seq<bool>, k: int)
    requires
        0 <= k <= bits.len(),
    ensures
        bits_value(bits.take(k)) <= bits_value(bits),
    decreases bits.len() - k,
{
    if k == bits.len() {
        assert(bits.take(k) =~= bits);
    } else {
        lemma_prefix_value(bits, k + 1);
        assert(bits.take(k + 1).drop_last() =~= bits.take(k));
    }
}

/// A number is below two to the power of its bit length, and that length is
/// the least such exponent.
pub proof fn lemma_bit_length(v: nat, k: nat)
    ensures
        v < pow2(bit_length(v)),
        v < pow2(k) ==> bit_length(v) <= k,
    decreases v,
{
    lemma2_to64();
    if v > 0 {
        lemma_pow2_unfold(bit_length(v));
        if k > 0 {
            lemma_pow2_unfold(k);
            lemma_bit_length(v / 2, (k - 1) as nat);
        } else {
            lemma_bit_length(v / 2, 0);
        }
    }
}

/// The bit at position `k` of a word written in `len` bits is bit
/// `len - 1 - k` of the word.
pub proof fn lemma_bits_of_word(word: u32, len: nat, k: int)
    requires
        0 <= k < len,
    ensures
        bits_of(word as nat, len)[k] == word_bit(word, len - 1 - k),
    decreases len,
{
    let half: u32 = word / 2;
    let shorter = (len - 1) as nat;
    lemma_bits_of_len(half as nat, shorter);
    if k == len - 1 {
        assert(((word >> 0u32) & 1 == 1) <==> word % 2 == 1) by (bit_vector);
    } else {
        lemma_bits_of_word(half, shorter, k);
        let j = len - 1 - k;
        if j < 32 {
            let shift = j as u32;
            let less = (j - 1) as u32;
            assert(((half >> less) & 1 == 1) <==> ((word >> shift) & 1 == 1)) by (bit_vector)
                requires
                    half == word / 2,
                    1 <= shift < 32,
                    less == shift - 1,
            ;
        } else if j == 32 {
            assert((half >> 31u32) & 1 == 0) by (bit_vector)
                requires
                    half == word / 2,
            ;
        }
    }
}

/// A word is below `2^k` exactly when nothing is left of it after a right
/// shift by `k`.
pub proof fn lemma_below_pow2_is_shift(x: u32, k: u32)
    requires
        k < 32,
    ensures
        x < pow2(k as nat) <==> x >> k == 0,
{
    lemma_u32_shr_is_div(x, k);
    lemma_pow2_pos(k as nat);
    if x < pow2(k as nat) {
        lemma_basic_div(x as int, pow2(k as nat) as int);
    } else {
        lemma_div_non_zero(x as int, pow2(k as nat) as int);
    }
}

/// The bits of `word`, most significant first, padded on the left with zeros
/// to `length` bits.
pub fn into_bit_vec(word: u32, length: usize) -> (bitvec: Vec<bool>)
    requires
        word < pow2(length as nat),
    ensures
        bitvec@ == bits_of(word as nat, length as nat),
{
    let mut bitvec: Vec<bool> = Vec::new();
    let mut filled: usize = 0;
    while filled < length
        invariant
            filled <= length,
            bitvec@.len() == filled,
        decreases length - filled,
    {
        bitvec.push(false);
        filled = filled + 1;
    }
    let mut rest: u32 = word;
    let mut at: usize = length;
    while at > 0
        invariant
            at <= length,
            bitvec@.len() == length,
            bits_of(word as nat, length as nat) == bits_of(rest as nat, at as nat) + bitvec@.subrange(
                at as int,
                length as int,
            ),
        decreases at,
    {
        at = at - 1;
        bitvec.set(at, rest % 2 == 1);
        rest = rest / 2;
    }
    bitvec
}

/// The number spelled by `bitvec`, read most significant bit first.
pub fn into_u32(bitvec: Vec<bool>) -> (value: u32)
    requires
        bits_value(bitvec@) <= u32::MAX,
    ensures
        value == bits_value(bitvec@),
{
    let mut value: u32 = 0;
    let mut k: usize = 0;
    while k < bitvec.len()
        invariant
            k <= bitvec@.len(),
            value == bits_value(bitvec@.take(k as int)),
            bits_value(bitvec@) <= u32::MAX,
        decreases bitvec@.len() - k,
    {
        proof {
            lemma_prefix_value(bitvec@, k + 1);
            assert(bitvec@.take(k + 1).drop_last() =~= bitvec@.take(k as int));
        }
        let digit: u32 = if bitvec[k] { 1 } else { 0 };
        value = 2 * value + digit;
        k = k + 1;
    }
    assert(bitvec@.take(k as int) =~= bitvec@);
    value
}

/// The number of binary digits of `v` without leading zeros.
pub fn bit_length_of(v: u32) -> (length: usize)
    ensures
        length == bit_length(v as nat),
        length <= 32,
{
    let mut rest: u32 = v;
    let mut length: usize = 0;
    proof {
        lemma2_to64();
        lemma_bit_length(v as nat, 32);
    }
    while rest != 0
        invariant
            length + bit_length(rest as nat) == bit_length(v as nat),
            bit_length(v as nat) <= 32,
        decreases rest,
    {
        rest = rest / 2;
        length = length + 1;
    }
    length
}

} // verus!
