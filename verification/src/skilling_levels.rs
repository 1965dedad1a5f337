//! The Skilling transform, level by level.
//!
//! The visits of the transform start at the bottom, so the positions of the
//! top level are visited last, and each of them acts on everything below the
//! top level. The transform of a bit sequence is therefore the transform of
//! the sequence without its top level, put back under the top level and
//! visited from there.
use crate::skilling_inverse::whole_levels;
use crate::skilling_transform::{
    after_positions, apply_position, exchange_source, lemma_after_positions_len, levels_below,
    transform_bits,
};
use vstd::prelude::*;

verus! {

/// The effect of the visits of the top level, the last of the transform.
pub open spec fn visit_top_level(bits: Seq<bool>, n: int) -> Seq<bool> {
    if n == 2 {
        apply_position(apply_position(bits, n, 1), n, 0)
    } else {
        apply_position(apply_position(apply_position(bits, n, 2), n, 1), n, 0)
    }
}

/// A visit below the top level leaves the top level alone and is a visit of
/// the sequence without its top level.
proof fn lemma_visit_below_top(bits: Seq<bool>, n: int, r: int)
    requires
        whole_levels(bits, n),
        n <= r < bits.len(),
    ensures
        apply_position(bits, n, r) == bits.subrange(0, n) + apply_position(
            bits.subrange(n, bits.len() as int),
            n,
            r - n,
        ),
{
    let len = bits.len() as int;
    let rest = bits.subrange(n, len);
    let below = levels_below(r, n);
    assert forall|k: int| below <= k < len implies #[trigger] exchange_source(k - n, n, r - n)
        == exchange_source(k, n, r) - n && below <= exchange_source(k, n, r) < len by {
        if n == 2 {
            assert(len % 2 == 0 && below % 2 == 0);
        } else {
            assert(len % 3 == 0 && below % 3 == 0);
        }
    }
    assert(rest[r - n] == bits[r]);
}

/// The visits below the top level are the visits of the sequence without
/// its top level.
proof fn lemma_visits_below_top(bits: Seq<bool>, n: int, count: nat)
    requires
        whole_levels(bits, n),
        bits.len() >= 2 * n,
        count <= bits.len() - 2 * n,
    ensures
        after_positions(bits, n, count) == bits.subrange(0, n) + after_positions(
            bits.subrange(n, bits.len() as int),
            n,
            count,
        ),
    decreases count,
{
    let len = bits.len() as int;
    let rest = bits.subrange(n, len);
    if count > 0 {
        let before = (count - 1) as nat;
        lemma_visits_below_top(bits, n, before);
        lemma_after_positions_len(bits, n, before);
        let state = after_positions(bits, n, before);
        lemma_visit_below_top(state, n, len - n - count);
        assert(state.subrange(n, len) =~= after_positions(rest, n, before));
    }
}

/// The transform of a sequence of at least one level: the transform of what
/// lies below the top level, visited from the top level.
pub proof fn lemma_transform_by_levels(bits: Seq<bool>, n: int)
    requires
        whole_levels(bits, n),
        bits.len() >= n,
    ensures
        transform_bits(bits, n) == visit_top_level(
            bits.subrange(0, n) + transform_bits(bits.subrange(n, bits.len() as int), n),
            n,
        ),
{
    let len = bits.len() as int;
    if len > n {
        assert(len >= 2 * n) by {
            if n == 2 {
                assert(len % 2 == 0);
            } else {
                assert(len % 3 == 0);
            }
        }
        let lower = (len - 2 * n) as nat;
        lemma_visits_below_top(bits, n, lower);
        assert(transform_bits(bits, n) == visit_top_level(after_positions(bits, n, lower), n)) by {
            reveal_with_fuel(after_positions, 4);
        }
    }
}

} // verus!
