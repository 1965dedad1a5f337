//! The planar Hilbert curve as a recurrence over quadrants.
//!
//! A square of side `2^p` is cut into four quadrants. The curve runs
//! through the quadrants one after another, and through each quadrant as a
//! curve of the next smaller order, turned so that where it leaves one
//! quadrant lies next to where it enters the following one.
use vstd::arithmetic::div_mod::{lemma_fundamental_div_mod, lemma_fundamental_div_mod_converse};
use vstd::arithmetic::power2::{lemma2_to64, lemma_pow2_pos, lemma_pow2_unfold, pow2};
use vstd::prelude::*;

verus! {

/// The cell at position `i` of the curve of order `p`. The curve starts in
/// the corner `(0, 0)` and ends in the corner `(2^p - 1, 0)`; the mirrored
/// curve runs the other way along the first axis.
pub open spec fn planar_cell(p: nat, i: nat, mirrored: bool) -> (int, int)
    decreases p,
{
    if p == 0 {
        (0, 0)
    } else {
        let below = (p - 1) as nat;
        let quarter = pow2(2 * below);
        let side = pow2(below) as int;
        let quadrant = i / quarter;
        let high = (quadrant / 2) % 2 == 1;
        let low = quadrant % 2 == 1;
        let inner = planar_cell(below, i % quarter, low);
        if high != mirrored {
            if low != high {
                (side + inner.0, side + inner.1)
            } else {
                (side + side - 1 - inner.1, inner.0)
            }
        } else {
            if low != high {
                (side - 1 - inner.0, side + inner.1)
            } else {
                (inner.1, inner.0)
            }
        }
    }
}

/// The distance between two cells of the plane, counted in steps along the
/// axes.
pub open spec fn planar_distance(a: (int, int), b: (int, int)) -> int {
    (if a.0 >= b.0 {
        a.0 - b.0
    } else {
        b.0 - a.0
    }) + (if a.1 >= b.1 {
        a.1 - b.1
    } else {
        b.1 - a.1
    })
}

/// A square of order `p` has four quadrants of order `p - 1`.
pub proof fn lemma_quadrants(p: nat)
    requires
        p > 0,
    ensures
        pow2(2 * p) == 4 * pow2((2 * (p - 1)) as nat),
        pow2(p) == 2 * pow2((p - 1) as nat),
        pow2((2 * (p - 1)) as nat) > 0,
        pow2((p - 1) as nat) > 0,
{
    lemma_pow2_unfold(2 * p);
    lemma_pow2_unfold((2 * p - 1) as nat);
    lemma_pow2_unfold(p);
    lemma_pow2_pos((2 * (p - 1)) as nat);
    lemma_pow2_pos((p - 1) as nat);
}

/// Quotient and remainder of a number of the form `m * q + r`.
proof fn lemma_quotient_remainder(q: int, r: int, m: int)
    requires
        0 <= r < m,
    ensures
        (m * q + r) / m == q,
        (m * q + r) % m == r,
{
    assert(m * q == q * m) by (nonlinear_arith);
    lemma_fundamental_div_mod_converse(m * q + r, m, q, r);
}

/// Quotient and remainder of the successor.
proof fn lemma_successor_quotient(i: nat, m: nat)
    requires
        m > 0,
    ensures
        (i % m) + 1 < m ==> (i + 1) / m == i / m && (i + 1) % m == (i % m) + 1,
        (i % m) + 1 >= m ==> (i + 1) / m == i / m + 1 && (i + 1) % m == 0 && i % m == m - 1,
{
    let q = (i / m) as int;
    let r = (i % m) as int;
    lemma_fundamental_div_mod(i as int, m as int);
    if r + 1 < m {
        lemma_quotient_remainder(q, r + 1, m as int);
    } else {
        lemma_quotient_remainder(q + 1, 0, m as int);
        assert(m * (q + 1) == m * q + m) by (nonlinear_arith);
    }
}

/// The quadrant of a position is one of four.
pub proof fn lemma_quadrant_range(i: nat, m: nat)
    requires
        m > 0,
        i < 4 * m,
    ensures
        0 <= i / m < 4,
        0 <= i % m < m,
{
    let q = (i / m) as int;
    lemma_fundamental_div_mod(i as int, m as int);
    assert(q < 4) by (nonlinear_arith)
        requires
            m * q <= i,
            i < 4 * m,
            m > 0,
    ;
}

/// Where the curve starts and where it ends.
pub proof fn lemma_planar_ends(p: nat, mirrored: bool)
    ensures
        planar_cell(p, 0, mirrored) == (if mirrored { pow2(p) - 1 } else { 0 }, 0int),
        planar_cell(p, (pow2(2 * p) - 1) as nat, mirrored) == (if mirrored { 0 } else { pow2(p) - 1 }, 0int),
        pow2(2 * p) > 0,
    decreases p,
{
    if p == 0 {
        lemma2_to64();
    } else {
        let below = (p - 1) as nat;
        let quarter = pow2(2 * below);
        lemma_quadrants(p);
        lemma_quotient_remainder(3, quarter - 1, quarter as int);
        lemma_planar_ends(below, false);
        lemma_planar_ends(below, true);
    }
}

/// Successive cells of the curve are one step apart.
pub proof fn lemma_planar_step(p: nat, i: nat, mirrored: bool)
    requires
        i + 1 < pow2(2 * p),
    ensures
        planar_distance(planar_cell(p, i, mirrored), planar_cell(p, i + 1, mirrored)) == 1,
    decreases p,
{
    if p == 0 {
        lemma2_to64();
    } else {
        let below = (p - 1) as nat;
        let quarter = pow2(2 * below);
        lemma_quadrants(p);
        lemma_quadrant_range(i + 1, quarter);
        lemma_successor_quotient(i, quarter);
        let quadrant = i / quarter;
        let low = quadrant % 2 == 1;
        if (i % quarter) + 1 < quarter {
            lemma_planar_step(below, i % quarter, low);
        } else {
            lemma_planar_ends(below, false);
            lemma_planar_ends(below, true);
        }
    }
}

} // verus!
