//! The builder of Hilbert curves.
use crate::brgc::{gray_code, lemma_gray_code_bound, Brgc};
use crate::coordinate_codec::{decode_2d, decode_3d, into_xyz_decimal_2d, into_xyz_decimal_3d};
use crate::curve_laws::{
    curve_position, in_grid, lemma_curve_never_repeats, lemma_curve_point_position,
    lemma_curve_position_point, lemma_curve_step, manhattan_distance,
};
use crate::skilling_transform::{skilling_index, skilling_transform, valid_layout};
use vstd::arithmetic::power2::{lemma2_to64, lemma_pow2_strictly_increases, pow2};
use vstd::bits::lemma_u64_shl_is_mul;
use vstd::prelude::*;

verus! {

/// Why a curve cannot be built.
#[derive(Debug, Clone, Copy, PartialEq, Eq, Structural)]
pub enum BuildError {
    /// The number of axes is neither 2 nor 3.
    InvalidDimension,
    /// The bits of all axes together do not fit a 32-bit word.
    InvalidPrecision,
}

/// The cells of a grid with `2^p` cells along each of `n` axes, in the order
/// in which the Hilbert curve visits them. A two-dimensional cell has `z = 0`.
#[derive(Debug)]
pub struct HilbertCurve {
    pub coordinates: Vec<(u32, u32, u32)>,
}

/// The Hilbert index of the cell that the curve visits at position `i`.
pub open spec fn curve_index(n: u32, p: u32, i: nat) -> nat {
    skilling_index(gray_code(i as u32), n, p)
}

/// The cell that the curve visits at position `i`.
pub open spec fn curve_point(n: u32, p: u32, i: nat) -> (nat, nat, nat) {
    let index = curve_index(n, p, i) as u32;
    if n == 2 {
        (decode_2d(index, n, p).0, decode_2d(index, n, p).1, 0)
    } else {
        decode_3d(index, n, p)
    }
}

/// A cell with its coordinates as natural numbers.
pub open spec fn cell(c: (u32, u32, u32)) -> (nat, nat, nat) {
    (c.0 as nat, c.1 as nat, c.2 as nat)
}

impl HilbertCurve {
    /// Builds the curve for `n` axes of `p` bits each. The number of axes
    /// is checked first, then the precision; nothing is generated unless
    /// both are in order.
    ///
    /// The curve holds the cell of every position, in order. It visits every
    /// cell of the grid, and none twice. In two dimensions, and in three
    /// with at most one level, each cell is a neighbour of the cell before.
    pub fn new(n: u32, p: u32) -> (built: Result<Self, BuildError>)
        ensures
            !(n == 2 || n == 3) <==> built == Err::<Self, BuildError>(BuildError::InvalidDimension),
            (n == 2 || n == 3) && n * p > 32 <==> built == Err::<Self, BuildError>(
                BuildError::InvalidPrecision,
            ),
            valid_layout(n, p) <==> built is Ok,
            built is Ok ==> {
                let cells = built->Ok_0.coordinates@;
                &&& cells.len() == pow2((n * p) as nat)
                &&& forall|i: int|
                    0 <= i < cells.len() ==> cell(#[trigger] cells[i]) == curve_point(n, p, i as nat)
                &&& forall|i: int| 0 <= i < cells.len() ==> in_grid(n, p, cell(#[trigger] cells[i]))
                &&& forall|i: int, j: int|
                    0 <= i < j < cells.len() ==> #[trigger] cells[i] != #[trigger] cells[j]
                &&& forall|c: (nat, nat, nat)| #[trigger]
                    in_grid(n, p, c) ==> curve_position(n, p, c) < cells.len() && cell(
                        cells[curve_position(n, p, c) as int],
                    ) == c
                &&& (n == 2 || p <= 1) ==> forall|i: int|
                    0 <= i && i + 1 < cells.len() ==> manhattan_distance(
                        cell(#[trigger] cells[i]),
                        cell(cells[i + 1]),
                    ) == 1
            },
    {
        if !(n == 2 || n == 3) {
            return Err(BuildError::InvalidDimension);
        }
        assert(n * p <= 3 * 0xffff_ffff) by (nonlinear_arith)
            requires
                n <= 3,
                p <= 0xffff_ffff,
        ;
        if n as u64 * p as u64 > 32 {
            return Err(BuildError::InvalidPrecision);
        }
        let width: u32 = n * p;
        let count: u64 = 1u64 << width as u64;
        proof {
            lemma2_to64();
            if width < 32 {
                lemma_pow2_strictly_increases(width as nat, 32);
            }
            lemma_u64_shl_is_mul(1, width as u64);
        }
        let brgc = Brgc { index: 0 };
        let brgc_vec = brgc.take(count);
        proof {
            assert forall|k: int| 0 <= k < brgc_vec@.len() implies #[trigger] brgc_vec@[k] < pow2(
                width as nat,
            ) by {
                lemma_gray_code_bound(k as u32, width as nat);
            }
        }
        let hilbert_indices = skilling_transform(brgc_vec, n, p);
        let mut coordinates: Vec<(u32, u32, u32)> = Vec::new();
        let mut at: usize = 0;
        while at < hilbert_indices.len()
            invariant
                valid_layout(n, p),
                at <= hilbert_indices@.len(),
                coordinates@.len() == at,
                forall|k: int|
                    0 <= k < hilbert_indices@.len() ==> #[trigger] hilbert_indices@[k] == curve_index(
                        n,
                        p,
                        k as nat,
                    ),
                forall|k: int|
                    0 <= k < at ==> cell(#[trigger] coordinates@[k]) == curve_point(n, p, k as nat),
            decreases hilbert_indices@.len() - at,
        {
            let index = hilbert_indices[at];
            if n == 2 {
                let (x, y) = into_xyz_decimal_2d(index, n, p);
                coordinates.push((x, y, 0));
            } else {
                coordinates.push(into_xyz_decimal_3d(index, n, p));
            }
            at = at + 1;
        }
        proof {
            let cells = coordinates@;
            assert forall|i: int| 0 <= i < cells.len() implies in_grid(
                n,
                p,
                cell(#[trigger] cells[i]),
            ) by {
                lemma_curve_point_position(n, p, i as nat);
            }
            assert forall|i: int, j: int| 0 <= i < j < cells.len() implies #[trigger] cells[i]
                != #[trigger] cells[j] by {
                if cells[i] == cells[j] {
                    lemma_curve_never_repeats(n, p, i as nat, j as nat);
                }
            }
            assert forall|c: (nat, nat, nat)| #[trigger] in_grid(n, p, c) implies curve_position(
                n,
                p,
                c,
            ) < cells.len() && cell(cells[curve_position(n, p, c) as int]) == c by {
                lemma_curve_position_point(n, p, c);
            }
            if n == 2 || p <= 1 {
                assert forall|i: int| 0 <= i && i + 1 < cells.len() implies manhattan_distance(
                    cell(#[trigger] cells[i]),
                    cell(cells[i + 1]),
                ) == 1 by {
                    lemma_curve_step(n, p, i as nat);
                }
            }
        }
        Ok(HilbertCurve { coordinates })
    }
}

} // verus!
