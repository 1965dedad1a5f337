//! The Skilling transform is a bijection: every visit can be undone, and
//! undoing the visits in the opposite order undoes the transform.
use crate::bits::{
    bits_of, bits_value, lemma_bits_of_len, lemma_bits_of_value, lemma_bits_value_bound,
    lemma_value_of_bits_of,
};
use crate::skilling_transform::{
    after_positions, apply_position, exchange_source, invert_below,
    lemma_after_positions_len, levels_below, skilling_index, transform_bits, valid_layout,
};
use vstd::arithmetic::power2::{lemma2_to64, lemma_pow2_strictly_increases, pow2};
use vstd::prelude::*;

verus! {

/// The position to which the bit at position `k` moves when the cleared bit
/// at position `r` exchanges the lanes of the level of `k`.
pub open spec fn exchange_target(k: int, n: int, r: int) -> int {
    if n == 2 {
        exchange_source(k, n, r)
    } else {
        if k % 3 == 2 {
            k - 2
        } else {
            k + 1
        }
    }
}

/// The exchange of lanes below position `r`, undone.
pub open spec fn restore_below(bits: Seq<bool>, n: int, r: int) -> Seq<bool> {
    Seq::new(
        bits.len(),
        |k: int|
            if k >= levels_below(r, n) {
                bits[exchange_target(k, n, r)]
            } else {
                bits[k]
            },
    )
}

/// The visit of position `r`, undone.
pub open spec fn undo_position(bits: Seq<bool>, n: int, r: int) -> Seq<bool> {
    if bits[r] {
        invert_below(bits, n, r)
    } else {
        restore_below(bits, n, r)
    }
}

/// The visits of the positions `r`, `r + 1`, ... up to the last position
/// above the lowest level, undone in that order.
pub open spec fn undo_from(bits: Seq<bool>, n: int, r: int) -> Seq<bool>
    decreases bits.len() - n - r,
{
    if r >= bits.len() - n || r < 0 {
        bits
    } else {
        undo_from(undo_position(bits, n, r), n, r + 1)
    }
}

/// The inverse of the transform on bit sequences.
pub open spec fn inverse_transform_bits(bits: Seq<bool>, n: int) -> Seq<bool> {
    if bits.len() > n {
        undo_from(bits, n, 0)
    } else {
        bits
    }
}

/// The Gray code of which the transform makes the Hilbert index `index`.
pub open spec fn skilling_inverse(index: u32, n: u32, p: u32) -> nat {
    bits_value(inverse_transform_bits(bits_of(index as nat, (n * p) as nat), n as int))
}

/// Whether `bits` is made of whole levels of `n` bits, for 2 or 3 axes.
pub open spec fn whole_levels(bits: Seq<bool>, n: int) -> bool {
    (n == 2 || n == 3) && bits.len() % (n as nat) == 0
}

/// Undoing a visit after the visit, or visiting after undoing, changes
/// nothing.
pub proof fn lemma_undo_position(bits: Seq<bool>, n: int, r: int)
    requires
        whole_levels(bits, n),
        0 <= r < bits.len(),
    ensures
        undo_position(apply_position(bits, n, r), n, r) == bits,
        apply_position(undo_position(bits, n, r), n, r) == bits,
        apply_position(bits, n, r).len() == bits.len(),
        undo_position(bits, n, r).len() == bits.len(),
{
    let below = levels_below(r, n);
    let len = bits.len() as int;
    assert forall|k: int| below <= k < len implies below <= #[trigger] exchange_target(k, n, r) < len
        && below <= #[trigger] exchange_source(k, n, r) < len && exchange_source(
        exchange_target(k, n, r),
        n,
        r,
    ) == k && exchange_target(exchange_source(k, n, r), n, r) == k by {
        if n == 2 {
            assert(len % 2 == 0 && below % 2 == 0);
        } else {
            assert(len % 3 == 0 && below % 3 == 0);
        }
    }
}

pub proof fn lemma_undo_from_len(bits: Seq<bool>, n: int, r: int)
    ensures
        undo_from(bits, n, r).len() == bits.len(),
    decreases bits.len() - n - r,
{
    if !(r >= bits.len() - n || r < 0) {
        lemma_undo_from_len(undo_position(bits, n, r), n, r + 1);
    }
}

/// Undoing the last `count` visits of a run gives the bits it started from.
proof fn lemma_undo_after(bits: Seq<bool>, n: int, count: nat)
    requires
        whole_levels(bits, n),
        count <= bits.len() - n,
    ensures
        undo_from(after_positions(bits, n, count), n, bits.len() - n - count) == bits,
    decreases count,
{
    lemma_after_positions_len(bits, n, count);
    if count > 0 {
        let before = after_positions(bits, n, (count - 1) as nat);
        lemma_undo_position(before, n, bits.len() - n - count);
        lemma_undo_after(bits, n, (count - 1) as nat);
    }
}

/// Running the last `count` visits on what undoing them gave restores the
/// bits.
proof fn lemma_after_undo(bits: Seq<bool>, n: int, count: nat)
    requires
        whole_levels(bits, n),
        count <= bits.len() - n,
    ensures
        after_positions(undo_from(bits, n, bits.len() - n - count), n, count) == bits,
    decreases count,
{
    if count > 0 {
        let r = bits.len() - n - count;
        let undone = undo_position(bits, n, r);
        lemma_undo_position(bits, n, r);
        lemma_after_undo(undone, n, (count - 1) as nat);
        lemma_undo_from_len(undone, n, r + 1);
    }
}

/// The transform and its inverse undo each other on whole levels.
pub proof fn lemma_transform_bits_bijective(bits: Seq<bool>, n: int)
    requires
        whole_levels(bits, n),
    ensures
        inverse_transform_bits(transform_bits(bits, n), n) == bits,
        transform_bits(inverse_transform_bits(bits, n), n) == bits,
        transform_bits(bits, n).len() == bits.len(),
        inverse_transform_bits(bits, n).len() == bits.len(),
{
    if bits.len() > n {
        let count = (bits.len() - n) as nat;
        lemma_undo_after(bits, n, count);
        lemma_after_undo(bits, n, count);
        lemma_after_positions_len(bits, n, count);
        lemma_undo_from_len(bits, n, 0);
    }
}

/// For a fixed layout the transform is a bijection on the indices below
/// `2^(n * p)`: it keeps them in range, and `skilling_inverse` inverts it on
/// both sides.
pub proof fn lemma_skilling_transform_bijective(v: u32, n: u32, p: u32)
    requires
        valid_layout(n, p),
        v < pow2((n * p) as nat),
    ensures
        skilling_index(v, n, p) < pow2((n * p) as nat),
        skilling_inverse(v, n, p) < pow2((n * p) as nat),
        skilling_index(v, n, p) <= u32::MAX,
        skilling_inverse(v, n, p) <= u32::MAX,
        skilling_inverse(skilling_index(v, n, p) as u32, n, p) == v,
        skilling_index(skilling_inverse(v, n, p) as u32, n, p) == v,
{
    let width = (n * p) as nat;
    let bits = bits_of(v as nat, width);
    lemma_bits_of_len(v as nat, width);
    assert(width % (n as nat) == 0) by (nonlinear_arith)
        requires
            width == n * p,
            n > 0,
    ;
    lemma_transform_bits_bijective(bits, n as int);
    let forth = transform_bits(bits, n as int);
    let back = inverse_transform_bits(bits, n as int);
    lemma_bits_value_bound(forth);
    lemma_bits_value_bound(back);
    lemma2_to64();
    if width < 32 {
        lemma_pow2_strictly_increases(width, 32);
    }
    lemma_bits_of_value(forth);
    lemma_bits_of_value(back);
    lemma_value_of_bits_of(v as nat, width);
}

} // verus!
