//! Why the pipeline of Gray code, Skilling transform and coordinate codec
//! draws a Hilbert curve.
use crate::bits::{
    bits_of, bits_value, lemma_bits_of_len, lemma_bits_of_low, lemma_bits_of_split,
    lemma_bits_of_value, lemma_bits_value_concat,
};
use crate::brgc::{
    gray_code, gray_inverse, lemma_gray_code_bound, lemma_gray_inverse_bound, lemma_gray_of_inverse,
    lemma_inverse_of_gray,
};
use crate::coordinate_codec::{
    encode_2d, encode_3d, lane, lemma_decode_encode_2d, lemma_decode_encode_3d,
    lemma_encode_decode_2d, lemma_encode_decode_3d, lemma_padded_width,
};
use crate::hilbert_curve::{curve_index, curve_point};
use crate::planar_curve::{
    lemma_planar_step, lemma_quadrant_range, lemma_quadrants, planar_cell, planar_distance,
};
use crate::skilling_inverse::{
    lemma_skilling_transform_bijective, lemma_transform_bits_bijective, skilling_inverse,
};
use crate::skilling_levels::{lemma_transform_by_levels, visit_top_level};
use crate::skilling_transform::{apply_position, transform_bits, valid_layout};
use vstd::arithmetic::power2::{lemma2_to64, lemma_pow2_strictly_increases, lemma_pow2_unfold, pow2};
use vstd::prelude::*;

verus! {

/// The Gray code on bit sequences: every bit is set where it differs from
/// the bit to its left; the first bit is compared with `carry`.
pub open spec fn gray_bits(bits: Seq<bool>, carry: bool) -> Seq<bool> {
    Seq::new(
        bits.len(),
        |k: int|
            bits[k] != (if k == 0 {
                carry
            } else {
                bits[k - 1]
            }),
    )
}

/// Every bit of a sequence inverted.
pub open spec fn negate(bits: Seq<bool>) -> Seq<bool> {
    Seq::new(bits.len(), |k: int| !bits[k])
}

/// The cell that the two lanes of a bit sequence spell.
pub open spec fn cell_of_bits(bits: Seq<bool>) -> (int, int) {
    (bits_value(lane(bits, 2, 0)) as int, bits_value(lane(bits, 2, 1)) as int)
}

/// The bits of the Gray code of `i` are the Gray code of the bits of `i`.
pub proof fn lemma_gray_code_bits(i: u32, len: nat)
    requires
        len <= 32,
        i < pow2(len),
    ensures
        bits_of(gray_code(i) as nat, len) == gray_bits(bits_of(i as nat, len), false),
    decreases len,
{
    lemma_bits_of_len(i as nat, len);
    lemma_bits_of_len(gray_code(i) as nat, len);
    if len > 0 {
        let half: u32 = i / 2;
        let g = gray_code(i);
        let shorter = (len - 1) as nat;
        lemma_pow2_unfold(len);
        lemma2_to64();
        assert(g / 2 == half ^ (half >> 1) && ((g % 2 == 1) <==> ((i % 2 == 1) != (half % 2 == 1))))
            by (bit_vector)
            requires
                half == i / 2,
                g == i ^ (i >> 1),
        ;
        lemma_gray_code_bits(half, shorter);
        lemma_bits_of_len(half as nat, shorter);
    }
}

/// A sequence and its negation spell numbers that add up to all ones.
pub proof fn lemma_negate_value(bits: Seq<bool>)
    ensures
        bits_value(negate(bits)) + bits_value(bits) + 1 == pow2(bits.len()),
    decreases bits.len(),
{
    if bits.len() == 0 {
        lemma2_to64();
    } else {
        lemma_negate_value(bits.drop_last());
        lemma_pow2_unfold(bits.len());
        assert(negate(bits).drop_last() =~= negate(bits.drop_last()));
    }
}

/// The value of a sequence with one more bit in front.
pub proof fn lemma_leading_bit_value(first: bool, rest: Seq<bool>)
    ensures
        bits_value(seq![first] + rest) == (if first {
            pow2(rest.len())
        } else {
            0
        }) + bits_value(rest),
{
    lemma_bits_value_concat(seq![first], rest);
    assert(bits_value(seq![first]) == if first { 1nat } else { 0nat }) by {
        reveal_with_fuel(bits_value, 2);
    }
    if first {
        assert(1 * pow2(rest.len()) == pow2(rest.len())) by (nonlinear_arith);
    } else {
        assert(0 * pow2(rest.len()) == 0) by (nonlinear_arith);
    }
}

/// The cell of a planar sequence after the visits of its top level, from
/// the cell of what lies below the top level.
pub proof fn lemma_top_level_cell(a: bool, b: bool, inner: Seq<bool>)
    requires
        inner.len() % 2 == 0,
    ensures
        ({
            let cell = cell_of_bits(visit_top_level(seq![a, b] + inner, 2));
            let below = cell_of_bits(inner);
            let side = pow2(inner.len() / 2) as int;
            cell == if a {
                if b {
                    (side + below.0, side + below.1)
                } else {
                    (side + side - 1 - below.1, below.0)
                }
            } else {
                if b {
                    (side - 1 - below.0, side + below.1)
                } else {
                    (below.1, below.0)
                }
            }
        }),
{
    let start = seq![a, b] + inner;
    let first = apply_position(start, 2, 1);
    let second = apply_position(first, 2, 0);
    let x = lane(inner, 2, 0);
    let y = lane(inner, 2, 1);
    lemma_negate_value(x);
    lemma_negate_value(y);
    if a {
        if b {
            assert(lane(second, 2, 0) =~= seq![a] + x);
            assert(lane(second, 2, 1) =~= seq![b] + y);
            lemma_leading_bit_value(a, x);
            lemma_leading_bit_value(b, y);
        } else {
            assert(lane(second, 2, 0) =~= seq![a] + negate(y));
            assert(lane(second, 2, 1) =~= seq![b] + x);
            lemma_leading_bit_value(a, negate(y));
            lemma_leading_bit_value(b, x);
        }
    } else {
        if b {
            assert(lane(second, 2, 0) =~= seq![a] + negate(x));
            assert(lane(second, 2, 1) =~= seq![b] + y);
            lemma_leading_bit_value(a, negate(x));
            lemma_leading_bit_value(b, y);
        } else {
            assert(lane(second, 2, 0) =~= seq![a] + y);
            assert(lane(second, 2, 1) =~= seq![b] + x);
            lemma_leading_bit_value(a, y);
            lemma_leading_bit_value(b, x);
        }
    }
}

/// The pipeline on bit sequences follows the recurrence of the planar
/// curve: the cell spelled by the transform of the Gray code of position
/// `i` is cell `i` of the planar curve.
pub proof fn lemma_pipeline_is_planar_curve(p: nat, i: nat, mirrored: bool)
    requires
        i < pow2(2 * p),
    ensures
        cell_of_bits(transform_bits(gray_bits(bits_of(i, 2 * p), mirrored), 2)) == planar_cell(
            p,
            i,
            mirrored,
        ),
    decreases p,
{
    let index_bits = bits_of(i, 2 * p);
    let gray = gray_bits(index_bits, mirrored);
    lemma_bits_of_len(i, 2 * p);
    if p > 0 {
        let below = (p - 1) as nat;
        let quarter = pow2(2 * below);
        let quadrant = i / quarter;
        let rest = i % quarter;
        let high = (quadrant / 2) % 2 == 1;
        let low = quadrant % 2 == 1;
        lemma_quadrants(p);
        lemma_quadrant_range(i, quarter);
        lemma_bits_of_split(i, 2, 2 * below);
        lemma_bits_of_low(i, 2 * below);
        lemma_bits_of_len(rest, 2 * below);
        assert(bits_of(quadrant, 2) =~= seq![high, low]) by {
            reveal_with_fuel(bits_of, 3);
        }
        let rest_bits = bits_of(rest, 2 * below);
        let a = high != mirrored;
        let b = low != high;
        let gray_rest = gray_bits(rest_bits, low);
        assert(gray.subrange(0, 2) =~= seq![a, b]);
        assert(gray.subrange(2, gray.len() as int) =~= gray_rest);
        lemma_transform_by_levels(gray, 2);
        lemma_pipeline_is_planar_curve(below, rest, low);
        lemma_transform_bits_bijective(gray_rest, 2);
        lemma_top_level_cell(a, b, transform_bits(gray_rest, 2));
    }
}

/// The distance between two cells, counted in steps along the axes.
pub open spec fn manhattan_distance(a: (nat, nat, nat), b: (nat, nat, nat)) -> int {
    (if a.0 >= b.0 {
        a.0 - b.0
    } else {
        b.0 - a.0
    }) + (if a.1 >= b.1 {
        a.1 - b.1
    } else {
        b.1 - a.1
    }) + (if a.2 >= b.2 {
        a.2 - b.2
    } else {
        b.2 - a.2
    })
}

/// Whether a cell lies in the grid of `n` axes of `2^p` cells each. In two
/// dimensions the third coordinate is zero.
pub open spec fn in_grid(n: u32, p: u32, c: (nat, nat, nat)) -> bool {
    &&& c.0 < pow2(p as nat)
    &&& c.1 < pow2(p as nat)
    &&& if n == 2 {
        c.2 == 0
    } else {
        c.2 < pow2(p as nat)
    }
}

/// The position at which the curve visits the cell `c`.
pub open spec fn curve_position(n: u32, p: u32, c: (nat, nat, nat)) -> nat {
    let index = if n == 2 {
        encode_2d(c.0, c.1, p as nat)
    } else {
        encode_3d(c.0, c.1, c.2, p as nat)
    };
    gray_inverse(skilling_inverse(index as u32, n, p) as u32) as nat
}

proof fn lemma_layout_width(n: u32, p: u32)
    requires
        valid_layout(n, p),
    ensures
        pow2((n * p) as nat) <= 0x1_0000_0000,
        n == 2 ==> (n * p) as nat == 2 * (p as nat),
        n == 3 ==> (n * p) as nat == 3 * (p as nat),
{
    lemma2_to64();
    if n * p < 32 {
        lemma_pow2_strictly_increases((n * p) as nat, 32);
    }
}

/// Every cell of the curve lies in the grid, and the curve visits it at no
/// other position: `curve_position` leads back from the cell to the
/// position.
pub proof fn lemma_curve_point_position(n: u32, p: u32, i: nat)
    requires
        valid_layout(n, p),
        i < pow2((n * p) as nat),
    ensures
        in_grid(n, p, curve_point(n, p, i)),
        curve_position(n, p, curve_point(n, p, i)) == i,
{
    lemma_layout_width(n, p);
    let gray = gray_code(i as u32);
    lemma_gray_code_bound(i as u32, (n * p) as nat);
    lemma_skilling_transform_bijective(gray, n, p);
    let index = curve_index(n, p, i) as u32;
    lemma_inverse_of_gray(i as u32);
    if n == 2 {
        lemma_encode_decode_2d(index, p as nat);
    } else {
        lemma_encode_decode_3d(index, p as nat);
    }
}

/// Every cell of the grid is visited: at the position that
/// `curve_position` gives for it.
pub proof fn lemma_curve_position_point(n: u32, p: u32, c: (nat, nat, nat))
    requires
        valid_layout(n, p),
        in_grid(n, p, c),
    ensures
        curve_position(n, p, c) < pow2((n * p) as nat),
        curve_point(n, p, curve_position(n, p, c)) == c,
{
    lemma_layout_width(n, p);
    let index = if n == 2 {
        encode_2d(c.0, c.1, p as nat)
    } else {
        encode_3d(c.0, c.1, c.2, p as nat)
    };
    if n == 2 {
        lemma_decode_encode_2d(c.0, c.1, p as nat);
    } else {
        lemma_decode_encode_3d(c.0, c.1, c.2, p as nat);
    }
    lemma_skilling_transform_bijective(index as u32, n, p);
    let gray = skilling_inverse(index as u32, n, p) as u32;
    lemma_gray_inverse_bound(gray, (n * p) as nat);
    lemma_gray_of_inverse(gray);
}

/// No two positions of the curve hold the same cell.
pub proof fn lemma_curve_never_repeats(n: u32, p: u32, i: nat, j: nat)
    requires
        valid_layout(n, p),
        i < pow2((n * p) as nat),
        j < pow2((n * p) as nat),
        curve_point(n, p, i) == curve_point(n, p, j),
    ensures
        i == j,
{
    lemma_curve_point_position(n, p, i);
    lemma_curve_point_position(n, p, j);
}

/// In two dimensions the cells of the curve are those of the planar curve.
pub proof fn lemma_curve_point_is_planar(p: u32, i: nat)
    requires
        valid_layout(2, p),
        i < pow2((2 * p) as nat),
    ensures
        curve_point(2, p, i).0 == planar_cell(p as nat, i, false).0,
        curve_point(2, p, i).1 == planar_cell(p as nat, i, false).1,
        curve_point(2, p, i).2 == 0,
{
    let width = (2 * p) as nat;
    lemma_layout_width(2, p);
    lemma_gray_code_bits(i as u32, width);
    let gray = gray_bits(bits_of(i, width), false);
    let moved = transform_bits(gray, 2);
    lemma_bits_of_len(i, width);
    lemma_transform_bits_bijective(gray, 2);
    lemma_gray_code_bound(i as u32, width);
    lemma_skilling_transform_bijective(gray_code(i as u32), 2, p);
    let index = curve_index(2, p, i) as u32;
    lemma_padded_width(index, 2, p);
    lemma_bits_of_value(moved);
    lemma_pipeline_is_planar_curve(p as nat, i, false);
}

/// Successive cells of the curve are neighbours: they differ along exactly
/// one axis, and by one. This holds in two dimensions, and in three for
/// curves of at most one level; the rotation of lanes in three dimensions
/// does not keep it beyond that.
pub proof fn lemma_curve_step(n: u32, p: u32, i: nat)
    requires
        valid_layout(n, p),
        n == 2 || p <= 1,
        i + 1 < pow2((n * p) as nat),
    ensures
        manhattan_distance(curve_point(n, p, i), curve_point(n, p, i + 1)) == 1,
{
    lemma_layout_width(n, p);
    lemma2_to64();
    if n == 2 {
        lemma_curve_point_is_planar(p, i);
        lemma_curve_point_is_planar(p, i + 1);
        lemma_planar_step(p as nat, i, false);
        lemma_planar_distance(
            curve_point(n, p, i),
            curve_point(n, p, i + 1),
            planar_cell(p as nat, i, false),
            planar_cell(p as nat, i + 1, false),
        );
    } else {
        assert(p == 1) by {
            if p == 0 {
                assert((n * p) as nat == 0);
            }
        }
        assert((n * p) as nat == 3);
        lemma_cube_corner(i);
        lemma_cube_corner(i + 1);
        lemma_cube_corners_step(i);
    }
}

/// The distance of two cells of the plane `z = 0` is their distance in the
/// plane.
proof fn lemma_planar_distance(a: (nat, nat, nat), b: (nat, nat, nat), c: (int, int), d: (int, int))
    requires
        a.0 == c.0 && a.1 == c.1 && a.2 == 0,
        b.0 == d.0 && b.1 == d.1 && b.2 == 0,
    ensures
        manhattan_distance(a, b) == planar_distance(c, d),
{
}

/// The corner of the unit cube that the Gray code of three bits visits at
/// position `i`.
pub open spec fn cube_corner(i: nat) -> (nat, nat, nat) {
    (
        (i / 4) as nat,
        (if (i / 2) % 2 != i / 4 {
            1nat
        } else {
            0nat
        }),
        (if i % 2 != (i / 2) % 2 {
            1nat
        } else {
            0nat
        }),
    )
}

/// Successive corners of the unit cube are one step apart.
proof fn lemma_cube_corners_step(i: nat)
    requires
        i + 1 < 8,
    ensures
        manhattan_distance(cube_corner(i), cube_corner(i + 1)) == 1,
{
    assert(i == 0 || i == 1 || i == 2 || i == 3 || i == 4 || i == 5 || i == 6);
}

/// The cells of the three-dimensional curve of one level are the corners of
/// the unit cube, in the order of the Gray code.
proof fn lemma_cube_corner(i: nat)
    requires
        i < 8,
    ensures
        curve_point(3, 1, i) == cube_corner(i),
{
    lemma2_to64();
    lemma_gray_code_bits(i as u32, 3);
    let index_bits = bits_of(i, 3);
    assert(index_bits =~= seq![(i / 4) % 2 == 1, (i / 2) % 2 == 1, i % 2 == 1]) by {
        reveal_with_fuel(bits_of, 4);
    }
    let gray = gray_bits(index_bits, false);
    lemma_gray_code_bound(i as u32, 3);
    lemma_skilling_transform_bijective(gray_code(i as u32), 3, 1);
    let index = curve_index(3, 1, i) as u32;
    lemma_padded_width(index, 3, 1);
    lemma_bits_of_value(gray);
    lemma_single_bit_lane(gray, 0);
    lemma_single_bit_lane(gray, 1);
    lemma_single_bit_lane(gray, 2);
}

/// A lane of a single level spells its one bit.
proof fn lemma_single_bit_lane(bits: Seq<bool>, offset: int)
    requires
        bits.len() == 3,
        0 <= offset < 3,
    ensures
        bits_value(lane(bits, 3, offset)) == if bits[offset] { 1nat } else { 0nat },
{
    lemma2_to64();
    assert(lane(bits, 3, offset) =~= seq![bits[offset]] + Seq::<bool>::empty());
    lemma_leading_bit_value(bits[offset], Seq::<bool>::empty());
}

} // verus!
