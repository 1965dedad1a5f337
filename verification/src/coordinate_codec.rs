//! The coordinate codec: between a Hilbert index and one integer per axis.
//!
//! A Hilbert index is read as a string of bits, most significant first, in
//! which the bit at position `k` belongs to axis `k mod n`. Decoding gathers
//! the bits of each axis; encoding interleaves them again.
use crate::bits::{
    bit_length, bit_length_of, bits_of, bits_value, lemma_bit_length, lemma_bits_of_len,
    lemma_bits_of_value, lemma_bits_of_word, lemma_bits_value_bound, lemma_prefix_value,
    lemma_value_of_bits_of,
};
use crate::skilling_transform::valid_layout;
use vstd::arithmetic::power2::{
    lemma2_to64, lemma_pow2_strictly_increases, lemma_pow2_unfold, pow2,
};
use vstd::prelude::*;

verus! {

/// How many positions `offset`, `offset + stride`, `offset + 2 * stride`, ...
/// lie in a sequence of `len` bits.
pub open spec fn lane_len(len: int, stride: int, offset: int) -> nat {
    if offset < len {
        ((len - offset - 1) / stride + 1) as nat
    } else {
        0
    }
}

/// The bits of one axis: every `stride`-th bit of `bits`, starting at
/// position `offset`.
pub open spec fn lane(bits: Seq<bool>, stride: int, offset: int) -> Seq<bool> {
    Seq::new(lane_len(bits.len() as int, stride, offset), |j: int| bits[offset + j * stride])
}

/// The number of bits in which an index is decoded for a layout of `n * p`
/// bits: `n * p`, or the bit length of the index where that is more.
pub open spec fn padded_width(index: u32, n: u32, p: u32) -> nat {
    if bit_length(index as nat) > n * p {
        bit_length(index as nat)
    } else {
        (n * p) as nat
    }
}

/// The index written in binary, padded with zeros on the left to `n * p`
/// digits.
pub open spec fn padded_bits(index: u32, n: u32, p: u32) -> Seq<bool> {
    bits_of(index as nat, padded_width(index, n, p))
}

/// The coordinates of a two-dimensional Hilbert index.
pub open spec fn decode_2d(index: u32, n: u32, p: u32) -> (nat, nat) {
    let bits = padded_bits(index, n, p);
    (bits_value(lane(bits, 2, 0)), bits_value(lane(bits, 2, 1)))
}

/// The coordinates of a three-dimensional Hilbert index.
pub open spec fn decode_3d(index: u32, n: u32, p: u32) -> (nat, nat, nat) {
    let bits = padded_bits(index, n, p);
    (bits_value(lane(bits, 3, 0)), bits_value(lane(bits, 3, 1)), bits_value(lane(bits, 3, 2)))
}

/// Two lanes of equal length, interleaved bit by bit.
pub open spec fn interleave_2(x: Seq<bool>, y: Seq<bool>) -> Seq<bool> {
    Seq::new(
        2 * x.len(),
        |k: int|
            if k % 2 == 0 {
                x[k / 2]
            } else {
                y[k / 2]
            },
    )
}

/// Three lanes of equal length, interleaved bit by bit.
pub open spec fn interleave_3(x: Seq<bool>, y: Seq<bool>, z: Seq<bool>) -> Seq<bool> {
    Seq::new(
        3 * x.len(),
        |k: int|
            if k % 3 == 0 {
                x[k / 3]
            } else if k % 3 == 1 {
                y[k / 3]
            } else {
                z[k / 3]
            },
    )
}

/// The Hilbert index of a two-dimensional cell with `p` bits per axis.
pub open spec fn encode_2d(x: nat, y: nat, p: nat) -> nat {
    bits_value(interleave_2(bits_of(x, p), bits_of(y, p)))
}

/// The Hilbert index of a three-dimensional cell with `p` bits per axis.
pub open spec fn encode_3d(x: nat, y: nat, z: nat, p: nat) -> nat {
    bits_value(interleave_3(bits_of(x, p), bits_of(y, p), bits_of(z, p)))
}

/// The decimal number whose digits are the binary digits of `v`.
pub open spec fn binary_digits_as_decimal(v: nat) -> nat
    decreases v,
{
    if v == 0 {
        0
    } else {
        10 * binary_digits_as_decimal(v / 2) + v % 2
    }
}

/// The decimal number written with `k` ones.
pub open spec fn repunit(k: nat) -> nat
    decreases k,
{
    if k == 0 {
        0
    } else {
        10 * repunit((k - 1) as nat) + 1
    }
}

/// A number of at most `k` bits is rendered in at most `k` digits.
pub proof fn lemma_binary_digits_bound(v: nat, k: nat)
    requires
        v < pow2(k),
    ensures
        binary_digits_as_decimal(v) <= repunit(k),
    decreases k,
{
    lemma2_to64();
    if k > 0 {
        lemma_pow2_unfold(k);
        if v > 0 {
            lemma_binary_digits_bound(v / 2, (k - 1) as nat);
        }
    }
}

/// An index fits in its padded width, which is the width of the layout
/// where the index fits in that.
pub proof fn lemma_padded_width(index: u32, n: u32, p: u32)
    ensures
        padded_width(index, n, p) <= 32 || padded_width(index, n, p) == n * p,
        index < pow2(padded_width(index, n, p)),
        padded_bits(index, n, p).len() == padded_width(index, n, p),
        index < pow2((n * p) as nat) ==> padded_width(index, n, p) == n * p,
{
    lemma2_to64();
    lemma_bit_length(index as nat, 32);
    lemma_bit_length(index as nat, (n * p) as nat);
    let width = padded_width(index, n, p);
    if bit_length(index as nat) < width {
        lemma_pow2_strictly_increases(bit_length(index as nat), width);
    }
    lemma_bits_of_len(index as nat, width);
}

/// Each coordinate of a two-dimensional index of at most `2 * k` digits,
/// padding included, has at most `k` bits.
pub proof fn lemma_decode_2d_bound(index: u32, n: u32, p: u32, k: nat)
    requires
        n * p <= 2 * k,
        index < pow2(2 * k),
    ensures
        decode_2d(index, n, p).0 < pow2(k),
        decode_2d(index, n, p).1 < pow2(k),
{
    lemma_padded_width(index, n, p);
    lemma_bit_length(index as nat, 2 * k);
    let bits = padded_bits(index, n, p);
    lemma_bits_value_bound(lane(bits, 2, 0));
    lemma_bits_value_bound(lane(bits, 2, 1));
    if lane(bits, 2, 0).len() < k {
        lemma_pow2_strictly_increases(lane(bits, 2, 0).len(), k);
    }
    if lane(bits, 2, 1).len() < k {
        lemma_pow2_strictly_increases(lane(bits, 2, 1).len(), k);
    }
}

/// Each coordinate of a three-dimensional index of at most `3 * k` digits,
/// padding included, has at most `k` bits.
pub proof fn lemma_decode_3d_bound(index: u32, n: u32, p: u32, k: nat)
    requires
        n * p <= 3 * k,
        index < pow2(3 * k),
    ensures
        decode_3d(index, n, p).0 < pow2(k),
        decode_3d(index, n, p).1 < pow2(k),
        decode_3d(index, n, p).2 < pow2(k),
{
    lemma_padded_width(index, n, p);
    lemma_bit_length(index as nat, 3 * k);
    let bits = padded_bits(index, n, p);
    lemma_bits_value_bound(lane(bits, 3, 0));
    lemma_bits_value_bound(lane(bits, 3, 1));
    lemma_bits_value_bound(lane(bits, 3, 2));
    if lane(bits, 3, 0).len() < k {
        lemma_pow2_strictly_increases(lane(bits, 3, 0).len(), k);
    }
    if lane(bits, 3, 1).len() < k {
        lemma_pow2_strictly_increases(lane(bits, 3, 1).len(), k);
    }
    if lane(bits, 3, 2).len() < k {
        lemma_pow2_strictly_increases(lane(bits, 3, 2).len(), k);
    }
}

/// The value of one lane of a word that is read in `width` bits; the lane
/// has at most 32 bits.
fn lane_value(word: u32, width: usize, stride: usize, offset: usize) -> (value: u32)
    requires
        stride == 2 || stride == 3,
        offset < stride,
        width <= 32 * stride,
    ensures
        value == bits_value(lane(bits_of(word as nat, width as nat), stride as int, offset as int)),
{
    let ghost bits = bits_of(word as nat, width as nat);
    let ghost whole = lane(bits, stride as int, offset as int);
    let ghost mut taken: int = 0;
    let mut value: u32 = 0;
    let mut at: usize = offset;
    proof {
        lemma_bits_of_len(word as nat, width as nat);
        lemma_bits_value_bound(whole);
        lemma2_to64();
        if whole.len() < 32 {
            lemma_pow2_strictly_increases(whole.len(), 32);
        }
    }
    while at < width
        invariant
            stride == 2 || stride == 3,
            offset < stride,
            width <= 32 * stride,
            bits == bits_of(word as nat, width as nat),
            bits.len() == width,
            whole == lane(bits, stride as int, offset as int),
            0 <= taken <= whole.len(),
            at == offset + taken * stride,
            at >= width ==> taken == whole.len(),
            value == bits_value(whole.take(taken)),
            bits_value(whole) <= u32::MAX,
        decreases width + stride - at,
    {
        proof {
            lemma_prefix_value(whole, taken + 1);
            assert(whole.take(taken + 1).drop_last() =~= whole.take(taken));
            lemma_bits_of_word(word, width as nat, at as int);
        }
        let j = width - 1 - at;
        let digit: u32 = if j < 32 && (word >> (j as u32)) & 1 == 1 { 1 } else { 0 };
        value = 2 * value + digit;
        at = at + stride;
        proof {
            taken = taken + 1;
        }
    }
    assert(whole.take(taken) =~= whole);
    value
}

/// The number of bits in which an index is decoded for a layout of `n * p`
/// bits.
fn padded_width_of(index: u32, n: u32, p: u32) -> (width: usize)
    requires
        n * p <= 96,
    ensures
        width == padded_width(index, n, p),
        width <= 32 || width == n * p,
{
    let layout = (n as u64 * p as u64) as usize;
    let length = bit_length_of(index);
    if length > layout {
        length
    } else {
        layout
    }
}

/// Decodes a two-dimensional Hilbert index into its `x` and `y`
/// coordinates. The index is read in `n * p` digits, or in its own length
/// where that is more; 64 digits are the most that leave each axis 32.
pub fn into_xyz_decimal_2d(hilbert_coordinates: u32, n: u32, p: u32) -> (xy: (u32, u32))
    requires
        n * p <= 64,
    ensures
        (xy.0 as nat, xy.1 as nat) == decode_2d(hilbert_coordinates, n, p),
{
    let width = padded_width_of(hilbert_coordinates, n, p);
    let x = lane_value(hilbert_coordinates, width, 2, 0);
    let y = lane_value(hilbert_coordinates, width, 2, 1);
    (x, y)
}

/// Decodes a three-dimensional Hilbert index into its `x`, `y` and `z`
/// coordinates. The index is read in `n * p` digits, or in its own length
/// where that is more; 96 digits are the most that leave each axis 32.
pub fn into_xyz_decimal_3d(hilbert_coordinates: u32, n: u32, p: u32) -> (xyz: (u32, u32, u32))
    requires
        n * p <= 96,
    ensures
        (xyz.0 as nat, xyz.1 as nat, xyz.2 as nat) == decode_3d(hilbert_coordinates, n, p),
{
    let width = padded_width_of(hilbert_coordinates, n, p);
    let x = lane_value(hilbert_coordinates, width, 3, 0);
    let y = lane_value(hilbert_coordinates, width, 3, 1);
    let z = lane_value(hilbert_coordinates, width, 3, 2);
    (x, y, z)
}

/// The decimal number whose digits are the binary digits of `v`; ten digits
/// is the most that fits.
fn binary_rendering(v: u32) -> (digits: u32)
    requires
        v < 1024,
    ensures
        digits == binary_digits_as_decimal(v as nat),
    decreases v,
{
    if v == 0 {
        0
    } else {
        proof {
            lemma2_to64();
            lemma_binary_digits_bound((v / 2) as nat, 9);
            reveal_with_fuel(repunit, 10);
        }
        10 * binary_rendering(v / 2) + v % 2
    }
}

/// Decodes a two-dimensional Hilbert index and renders each coordinate as
/// the decimal number that has the coordinate's binary digits. Ten digits
/// are the most that a rendering can have, so each coordinate must be below
/// `2^10`.
pub fn into_xyz_binary_2d(hilbert_coordinates: u32, n: u32, p: u32) -> (xy: (u32, u32))
    requires
        n * p <= 64,
        decode_2d(hilbert_coordinates, n, p).0 < 1024,
        decode_2d(hilbert_coordinates, n, p).1 < 1024,
    ensures
        xy.0 == binary_digits_as_decimal(decode_2d(hilbert_coordinates, n, p).0),
        xy.1 == binary_digits_as_decimal(decode_2d(hilbert_coordinates, n, p).1),
{
    let (x, y) = into_xyz_decimal_2d(hilbert_coordinates, n, p);
    (binary_rendering(x), binary_rendering(y))
}

/// Decodes a three-dimensional Hilbert index and renders each coordinate as
/// the decimal number that has the coordinate's binary digits. Ten digits
/// are the most that a rendering can have, so each coordinate must be below
/// `2^10`.
pub fn into_xyz_binary_3d(hilbert_coordinates: u32, n: u32, p: u32) -> (xyz: (u32, u32, u32))
    requires
        n * p <= 96,
        decode_3d(hilbert_coordinates, n, p).0 < 1024,
        decode_3d(hilbert_coordinates, n, p).1 < 1024,
        decode_3d(hilbert_coordinates, n, p).2 < 1024,
    ensures
        xyz.0 == binary_digits_as_decimal(decode_3d(hilbert_coordinates, n, p).0),
        xyz.1 == binary_digits_as_decimal(decode_3d(hilbert_coordinates, n, p).1),
        xyz.2 == binary_digits_as_decimal(decode_3d(hilbert_coordinates, n, p).2),
{
    let (x, y, z) = into_xyz_decimal_3d(hilbert_coordinates, n, p);
    (binary_rendering(x), binary_rendering(y), binary_rendering(z))
}

/// Encodes a two-dimensional cell as its Hilbert index: bit `j` of the
/// coordinate of axis `a` goes to position `2 * j + a`.
pub fn from_xyz_decimal_2d(coordinates: (u32, u32), n: u32, p: u32) -> (index: u32)
    requires
        n == 2,
        valid_layout(n, p),
        coordinates.0 < pow2(p as nat),
        coordinates.1 < pow2(p as nat),
    ensures
        index == encode_2d(coordinates.0 as nat, coordinates.1 as nat, p as nat),
        index < pow2((n * p) as nat),
        decode_2d(index, n, p) == (coordinates.0 as nat, coordinates.1 as nat),
{
    let ghost xs = bits_of(coordinates.0 as nat, p as nat);
    let ghost ys = bits_of(coordinates.1 as nat, p as nat);
    let ghost woven = interleave_2(xs, ys);
    let mut index: u32 = 0;
    let mut level: u32 = 0;
    proof {
        lemma_bits_of_len(coordinates.0 as nat, p as nat);
        lemma_bits_of_len(coordinates.1 as nat, p as nat);
        lemma_decode_encode_2d(coordinates.0 as nat, coordinates.1 as nat, p as nat);
    }
    while level < p
        invariant
            level <= p <= 16,
            xs == bits_of(coordinates.0 as nat, p as nat),
            ys == bits_of(coordinates.1 as nat, p as nat),
            woven == interleave_2(xs, ys),
            woven.len() == 2 * p,
            bits_value(woven) <= u32::MAX,
            index == bits_value(woven.take(2 * level)),
        decreases p - level,
    {
        let shift = p - 1 - level;
        let x_bit: u32 = if (coordinates.0 >> shift) & 1 == 1 { 1 } else { 0 };
        let y_bit: u32 = if (coordinates.1 >> shift) & 1 == 1 { 1 } else { 0 };
        proof {
            lemma_bits_of_word(coordinates.0, p as nat, level as int);
            lemma_bits_of_word(coordinates.1, p as nat, level as int);
            lemma_prefix_value(woven, 2 * level + 1);
            lemma_prefix_value(woven, 2 * level + 2);
            assert(woven.take(2 * level + 1).drop_last() =~= woven.take(2 * level));
            assert(woven.take(2 * level + 2).drop_last() =~= woven.take(2 * level + 1));
        }
        index = 2 * index + x_bit;
        index = 2 * index + y_bit;
        level = level + 1;
    }
    assert(woven.take(2 * level) =~= woven);
    index
}

/// Encodes a three-dimensional cell as its Hilbert index: bit `j` of the
/// coordinate of axis `a` goes to position `3 * j + a`.
pub fn from_xyz_decimal_3d(coordinates: (u32, u32, u32), n: u32, p: u32) -> (index: u32)
    requires
        n == 3,
        valid_layout(n, p),
        coordinates.0 < pow2(p as nat),
        coordinates.1 < pow2(p as nat),
        coordinates.2 < pow2(p as nat),
    ensures
        index == encode_3d(coordinates.0 as nat, coordinates.1 as nat, coordinates.2 as nat, p as nat),
        index < pow2((n * p) as nat),
        decode_3d(index, n, p) == (coordinates.0 as nat, coordinates.1 as nat, coordinates.2 as nat),
{
    let ghost xs = bits_of(coordinates.0 as nat, p as nat);
    let ghost ys = bits_of(coordinates.1 as nat, p as nat);
    let ghost zs = bits_of(coordinates.2 as nat, p as nat);
    let ghost woven = interleave_3(xs, ys, zs);
    let mut index: u32 = 0;
    let mut level: u32 = 0;
    proof {
        lemma_bits_of_len(coordinates.0 as nat, p as nat);
        lemma_bits_of_len(coordinates.1 as nat, p as nat);
        lemma_bits_of_len(coordinates.2 as nat, p as nat);
        lemma_decode_encode_3d(
            coordinates.0 as nat,
            coordinates.1 as nat,
            coordinates.2 as nat,
            p as nat,
        );
    }
    while level < p
        invariant
            level <= p <= 10,
            xs == bits_of(coordinates.0 as nat, p as nat),
            ys == bits_of(coordinates.1 as nat, p as nat),
            zs == bits_of(coordinates.2 as nat, p as nat),
            woven == interleave_3(xs, ys, zs),
            woven.len() == 3 * p,
            bits_value(woven) <= u32::MAX,
            index == bits_value(woven.take(3 * level)),
        decreases p - level,
    {
        let shift = p - 1 - level;
        let x_bit: u32 = if (coordinates.0 >> shift) & 1 == 1 { 1 } else { 0 };
        let y_bit: u32 = if (coordinates.1 >> shift) & 1 == 1 { 1 } else { 0 };
        let z_bit: u32 = if (coordinates.2 >> shift) & 1 == 1 { 1 } else { 0 };
        proof {
            lemma_bits_of_word(coordinates.0, p as nat, level as int);
            lemma_bits_of_word(coordinates.1, p as nat, level as int);
            lemma_bits_of_word(coordinates.2, p as nat, level as int);
            lemma_prefix_value(woven, 3 * level + 1);
            lemma_prefix_value(woven, 3 * level + 2);
            lemma_prefix_value(woven, 3 * level + 3);
            assert(woven.take(3 * level + 1).drop_last() =~= woven.take(3 * level));
            assert(woven.take(3 * level + 2).drop_last() =~= woven.take(3 * level + 1));
            assert(woven.take(3 * level + 3).drop_last() =~= woven.take(3 * level + 2));
        }
        index = 2 * index + x_bit;
        index = 2 * index + y_bit;
        index = 2 * index + z_bit;
        level = level + 1;
    }
    assert(woven.take(3 * level) =~= woven);
    index
}

/// Decoding what was encoded gives the cell back, in two dimensions.
pub proof fn lemma_decode_encode_2d(x: nat, y: nat, p: nat)
    requires
        2 * p <= 32,
        x < pow2(p),
        y < pow2(p),
    ensures
        encode_2d(x, y, p) < pow2(2 * p),
        encode_2d(x, y, p) <= u32::MAX,
        decode_2d(encode_2d(x, y, p) as u32, 2, p as u32) == (x, y),
{
    let xs = bits_of(x, p);
    let ys = bits_of(y, p);
    let woven = interleave_2(xs, ys);
    let index = encode_2d(x, y, p);
    lemma_bits_of_len(x, p);
    lemma_bits_of_len(y, p);
    lemma_bits_value_bound(woven);
    lemma2_to64();
    if 2 * p < 32 {
        lemma_pow2_strictly_increases(2 * p, 32);
    }
    lemma_padded_width(index as u32, 2, p as u32);
    lemma_bits_of_value(woven);
    assert(lane(woven, 2, 0) =~= xs);
    assert(lane(woven, 2, 1) =~= ys);
    lemma_value_of_bits_of(x, p);
    lemma_value_of_bits_of(y, p);
}

/// Encoding what was decoded gives the index back, in two dimensions.
pub proof fn lemma_encode_decode_2d(index: u32, p: nat)
    requires
        2 * p <= 32,
        index < pow2(2 * p),
    ensures
        decode_2d(index, 2, p as u32).0 < pow2(p),
        decode_2d(index, 2, p as u32).1 < pow2(p),
        encode_2d(decode_2d(index, 2, p as u32).0, decode_2d(index, 2, p as u32).1, p) == index,
{
    lemma_padded_width(index, 2, p as u32);
    let bits = padded_bits(index, 2, p as u32);
    let xs = lane(bits, 2, 0);
    let ys = lane(bits, 2, 1);
    lemma_bits_value_bound(xs);
    lemma_bits_value_bound(ys);
    lemma_bits_of_value(xs);
    lemma_bits_of_value(ys);
    assert(interleave_2(xs, ys) =~= bits);
    lemma_value_of_bits_of(index as nat, 2 * p);
}

/// Decoding what was encoded gives the cell back, in three dimensions.
pub proof fn lemma_decode_encode_3d(x: nat, y: nat, z: nat, p: nat)
    requires
        3 * p <= 32,
        x < pow2(p),
        y < pow2(p),
        z < pow2(p),
    ensures
        encode_3d(x, y, z, p) < pow2(3 * p),
        encode_3d(x, y, z, p) <= u32::MAX,
        decode_3d(encode_3d(x, y, z, p) as u32, 3, p as u32) == (x, y, z),
{
    let xs = bits_of(x, p);
    let ys = bits_of(y, p);
    let zs = bits_of(z, p);
    let woven = interleave_3(xs, ys, zs);
    let index = encode_3d(x, y, z, p);
    lemma_bits_of_len(x, p);
    lemma_bits_of_len(y, p);
    lemma_bits_of_len(z, p);
    lemma_bits_value_bound(woven);
    lemma2_to64();
    if 3 * p < 32 {
        lemma_pow2_strictly_increases(3 * p, 32);
    }
    lemma_padded_width(index as u32, 3, p as u32);
    lemma_bits_of_value(woven);
    assert(lane(woven, 3, 0) =~= xs);
    assert(lane(woven, 3, 1) =~= ys);
    assert(lane(woven, 3, 2) =~= zs);
    lemma_value_of_bits_of(x, p);
    lemma_value_of_bits_of(y, p);
    lemma_value_of_bits_of(z, p);
}

/// Encoding what was decoded gives the index back, in three dimensions.
pub proof fn lemma_encode_decode_3d(index: u32, p: nat)
    requires
        3 * p <= 32,
        index < pow2(3 * p),
    ensures
        decode_3d(index, 3, p as u32).0 < pow2(p),
        decode_3d(index, 3, p as u32).1 < pow2(p),
        decode_3d(index, 3, p as u32).2 < pow2(p),
        encode_3d(
            decode_3d(index, 3, p as u32).0,
            decode_3d(index, 3, p as u32).1,
            decode_3d(index, 3, p as u32).2,
            p,
        ) == index,
{
    lemma_padded_width(index, 3, p as u32);
    let bits = padded_bits(index, 3, p as u32);
    let xs = lane(bits, 3, 0);
    let ys = lane(bits, 3, 1);
    let zs = lane(bits, 3, 2);
    lemma_bits_value_bound(xs);
    lemma_bits_value_bound(ys);
    lemma_bits_value_bound(zs);
    lemma_bits_of_value(xs);
    lemma_bits_of_value(ys);
    lemma_bits_of_value(zs);
    assert(interleave_3(xs, ys, zs) =~= bits);
    lemma_value_of_bits_of(index as nat, 3 * p);
}

} // verus!
