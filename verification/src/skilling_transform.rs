//! The Skilling transform: from a Gray code to the Hilbert index of a cell.
//!
//! The transform works on the `n * p` bits of its argument, most significant
//! first. The bits form `p` levels of `n` bits; within a level, the bit at
//! offset `a` is the lane of axis `a`. Every bit above the lowest level is
//! visited once, from the least significant upwards, and acts on all the
//! levels strictly below its own: a set bit inverts lane 0 there; a cleared
//! bit exchanges lanes there. In two dimensions a cleared bit exchanges lane
//! 0 with the lane it stands in (so a cleared bit of lane 0 changes nothing);
//! in three dimensions every cleared bit rotates the lanes by one place.
use crate::bits::{
    bits_of, bits_value, lemma_below_pow2_is_shift, lemma_bits_of_len, lemma_bits_of_word,
    lemma_value_of_bits_of,
};
use vstd::arithmetic::power2::{lemma2_to64, pow2};
use vstd::prelude::*;

verus! {

/// The first position of the levels strictly below the level of position `r`.
pub open spec fn levels_below(r: int, n: int) -> int {
    (r / n + 1) * n
}

/// The position whose bit moves to position `k` when the cleared bit at
/// position `r` exchanges the lanes of the level of `k`.
pub open spec fn exchange_source(k: int, n: int, r: int) -> int {
    if n == 2 {
        if r % 2 == 0 {
            k
        } else if k % 2 == 0 {
            k + 1
        } else {
            k - 1
        }
    } else {
        if k % 3 == 0 {
            k + 2
        } else {
            k - 1
        }
    }
}

/// The effect of a cleared bit at position `r`: the lanes are exchanged in
/// every level strictly below.
pub open spec fn exchange_below(bits: Seq<bool>, n: int, r: int) -> Seq<bool> {
    Seq::new(
        bits.len(),
        |k: int|
            if k >= levels_below(r, n) {
                bits[exchange_source(k, n, r)]
            } else {
                bits[k]
            },
    )
}

/// The effect of a set bit at position `r`: the bit of lane 0 is inverted in
/// every level strictly below.
pub open spec fn invert_below(bits: Seq<bool>, n: int, r: int) -> Seq<bool> {
    Seq::new(
        bits.len(),
        |k: int|
            if k >= levels_below(r, n) && k % n == 0 {
                !bits[k]
            } else {
                bits[k]
            },
    )
}

/// The effect of visiting position `r`.
pub open spec fn apply_position(bits: Seq<bool>, n: int, r: int) -> Seq<bool> {
    if bits[r] {
        invert_below(bits, n, r)
    } else {
        exchange_below(bits, n, r)
    }
}

/// The bits after the first `count` visits. The visits start at the least
/// significant position above the lowest level and move upwards.
pub open spec fn after_positions(bits: Seq<bool>, n: int, count: nat) -> Seq<bool>
    decreases count,
{
    if count == 0 {
        bits
    } else {
        apply_position(after_positions(bits, n, (count - 1) as nat), n, bits.len() - n - count)
    }
}

/// The transform on bit sequences: every position above the lowest level is
/// visited.
pub open spec fn transform_bits(bits: Seq<bool>, n: int) -> Seq<bool> {
    if bits.len() > n {
        after_positions(bits, n, (bits.len() - n) as nat)
    } else {
        bits
    }
}

/// The Hilbert index that the transform makes of the Gray code `gray`, for
/// `n` axes of `p` bits each.
pub open spec fn skilling_index(gray: u32, n: u32, p: u32) -> nat {
    bits_value(transform_bits(bits_of(gray as nat, (n * p) as nat), n as int))
}

/// Whether `n` axes of `p` bits each make a layout that fits a 32-bit word.
pub open spec fn valid_layout(n: u32, p: u32) -> bool {
    (n == 2 || n == 3) && n * p <= 32
}

pub proof fn lemma_after_positions_len(bits: Seq<bool>, n: int, count: nat)
    ensures
        after_positions(bits, n, count).len() == bits.len(),
    decreases count,
{
    if count > 0 {
        lemma_after_positions_len(bits, n, (count - 1) as nat);
    }
}

/// The bits of lane 0 in a word of two-bit levels.
const PLANE_LANE_0: u32 = 0xaaaa_aaaa;

/// The bits of lane 1 in a word of two-bit levels.
const PLANE_LANE_1: u32 = 0x5555_5555;

/// The bits of lane 0 in a word of three-bit levels.
const SPACE_LANE_0: u32 = 0x2492_4924;

/// The bits of lanes 0 and 1 in a word of three-bit levels.
const SPACE_LANES_0_1: u32 = 0x36db_6db6;

/// The bits of lane 2 in a word of three-bit levels.
const SPACE_LANE_2: u32 = 0x0924_9249;

/// Inverting lane 0 in the `lower` low bits of a word of two-bit levels,
/// bit by bit.
proof fn lemma_invert_plane_word(word: u32, lower: u32, width: u32, j: u32, out: u32)
    by (bit_vector)
    requires
        lower < 32,
        j < 32,
        out == word ^ (PLANE_LANE_0 & (((1u32 << lower) - 1) as u32)),
    ensures
        ((out >> j) & 1 == 1) == (((word >> j) & 1 == 1) != (j < lower && j % 2 == 1)),
        lower <= width && width < 32 && word >> width == 0 ==> out >> width == 0,
{
}

/// Inverting lane 0 in the `lower` low bits of a word of three-bit levels,
/// bit by bit.
proof fn lemma_invert_space_word(word: u32, lower: u32, width: u32, j: u32, out: u32)
    by (bit_vector)
    requires
        lower < 32,
        j < 32,
        out == word ^ (SPACE_LANE_0 & (((1u32 << lower) - 1) as u32)),
    ensures
        ((out >> j) & 1 == 1) == (((word >> j) & 1 == 1) != (j < lower && j % 3 == 2)),
        lower <= width && width < 32 && word >> width == 0 ==> out >> width == 0,
{
}

/// Exchanging the two lanes in the `lower` low bits of a word, bit by bit.
proof fn lemma_exchange_plane_word(word: u32, lower: u32, width: u32, j: u32, out: u32)
    by (bit_vector)
    requires
        lower < 32,
        lower % 2 == 0,
        j < 32,
        out == (word & !(((1u32 << lower) - 1) as u32)) | (((word & (((1u32 << lower) - 1) as u32))
            & PLANE_LANE_1) << 1u32) | (((word & (((1u32 << lower) - 1) as u32))
            & PLANE_LANE_0) >> 1u32),
    ensures
        ((out >> j) & 1 == 1) == (if j < lower {
            if j % 2 == 1 {
                (word >> ((j - 1) as u32)) & 1 == 1
            } else {
                (word >> ((j + 1) as u32)) & 1 == 1
            }
        } else {
            (word >> j) & 1 == 1
        }),
        lower <= width && width < 32 && word >> width == 0 ==> out >> width == 0,
{
}

/// Rotating the three lanes in the `lower` low bits of a word, bit by bit.
proof fn lemma_rotate_space_word(word: u32, lower: u32, width: u32, j: u32, out: u32)
    by (bit_vector)
    requires
        lower < 30,
        lower % 3 == 0,
        j < 32,
        out == (word & !(((1u32 << lower) - 1) as u32)) | (((word & (((1u32 << lower) - 1) as u32))
            & SPACE_LANE_2) << 2u32) | (((word & (((1u32 << lower) - 1) as u32))
            & SPACE_LANES_0_1) >> 1u32),
    ensures
        ((out >> j) & 1 == 1) == (if j < lower {
            if j % 3 == 2 {
                (word >> ((j - 2) as u32)) & 1 == 1
            } else {
                (word >> ((j + 1) as u32)) & 1 == 1
            }
        } else {
            (word >> j) & 1 == 1
        }),
        lower <= width && width < 32 && word >> width == 0 ==> out >> width == 0,
{
}

/// A word with its `count` low bits set.
fn low_bits(count: u32) -> (mask: u32)
    requires
        count < 32,
    ensures
        mask == ((1u32 << count) - 1) as u32,
{
    assert((1u32 << count) >= 1) by (bit_vector)
        requires
            count < 32,
    ;
    (1u32 << count) - 1
}

/// The number of bits in the levels strictly below the level of position
/// `r`, in a layout of `width` bits.
fn bits_below(n: u32, width: u32, r: u32) -> (lower: u32)
    requires
        n == 2 || n == 3,
        width % n == 0,
        r < width <= 32,
    ensures
        lower == width - levels_below(r as int, n as int),
        lower % n == 0,
        lower + n <= width,
{
    width - (r / n + 1) * n
}

/// What is known of a word of `width` bits whose levels hold `n` bits.
spec fn word_in_layout(word: u32, n: u32, width: u32) -> bool {
    &&& n == 2 || n == 3
    &&& width % n == 0
    &&& width <= 32
    &&& word < pow2(width as nat)
}

/// The word stays within its layout when only bits below `width` change.
proof fn lemma_word_stays_in_layout(word: u32, out: u32, width: u32)
    requires
        width <= 32,
        word < pow2(width as nat),
        width < 32 && word >> width == 0 ==> out >> width == 0,
    ensures
        out < pow2(width as nat),
{
    if width < 32 {
        lemma_below_pow2_is_shift(word, width);
        lemma_below_pow2_is_shift(out, width);
    } else {
        lemma2_to64();
    }
}

/// Inverts the bit of lane 0 in every level strictly below the level of
/// position `r`.
fn invert_levels_below(word: u32, n: u32, width: u32, r: u32) -> (out: u32)
    requires
        word_in_layout(word, n, width),
        r < width,
    ensures
        out < pow2(width as nat),
        bits_of(out as nat, width as nat) == invert_below(
            bits_of(word as nat, width as nat),
            n as int,
            r as int,
        ),
{
    let lower = bits_below(n, width, r);
    let lane = if n == 2 { PLANE_LANE_0 } else { SPACE_LANE_0 };
    let out = word ^ (lane & low_bits(lower));
    proof {
        let before = bits_of(word as nat, width as nat);
        let after = bits_of(out as nat, width as nat);
        lemma_bits_of_len(word as nat, width as nat);
        lemma_bits_of_len(out as nat, width as nat);
        assert forall|k: int| 0 <= k < width implies after[k] == invert_below(
            before,
            n as int,
            r as int,
        )[k] by {
            let j = (width - 1 - k) as u32;
            lemma_bits_of_word(word, width as nat, k);
            lemma_bits_of_word(out, width as nat, k);
            if n == 2 {
                lemma_invert_plane_word(word, lower, width, j, out);
            } else {
                lemma_invert_space_word(word, lower, width, j, out);
            }
        }
        if n == 2 {
            lemma_invert_plane_word(word, lower, width, 0, out);
        } else {
            lemma_invert_space_word(word, lower, width, 0, out);
        }
        lemma_word_stays_in_layout(word, out, width);
    }
    out
}

/// Exchanges the lanes of every level strictly below the level of position
/// `r`.
fn exchange_levels_below(word: u32, n: u32, width: u32, r: u32) -> (out: u32)
    requires
        word_in_layout(word, n, width),
        r < width,
    ensures
        out < pow2(width as nat),
        bits_of(out as nat, width as nat) == exchange_below(
            bits_of(word as nat, width as nat),
            n as int,
            r as int,
        ),
{
    let lower = bits_below(n, width, r);
    let mask = low_bits(lower);
    let low = word & mask;
    let out = if n == 2 {
        if r % 2 == 0 {
            word
        } else {
            (word & !mask) | ((low & PLANE_LANE_1) << 1) | ((low & PLANE_LANE_0) >> 1)
        }
    } else {
        (word & !mask) | ((low & SPACE_LANE_2) << 2) | ((low & SPACE_LANES_0_1) >> 1)
    };
    proof {
        let before = bits_of(word as nat, width as nat);
        let after = bits_of(out as nat, width as nat);
        let below = levels_below(r as int, n as int);
        lemma_bits_of_len(word as nat, width as nat);
        lemma_bits_of_len(out as nat, width as nat);
        assert forall|k: int| 0 <= k < width implies after[k] == exchange_below(
            before,
            n as int,
            r as int,
        )[k] by {
            let j = (width - 1 - k) as u32;
            let source = exchange_source(k, n as int, r as int);
            lemma_bits_of_word(word, width as nat, k);
            lemma_bits_of_word(out, width as nat, k);
            if k >= below {
                lemma_bits_of_word(word, width as nat, source);
            }
            if n == 3 {
                lemma_rotate_space_word(word, lower, width, j, out);
            } else if r % 2 == 1 {
                lemma_exchange_plane_word(word, lower, width, j, out);
            }
        }
        if n == 3 {
            lemma_rotate_space_word(word, lower, width, 0, out);
        } else if r % 2 == 1 {
            lemma_exchange_plane_word(word, lower, width, 0, out);
        }
        lemma_word_stays_in_layout(word, out, width);
    }
    out
}

/// Turns one Gray code into the Hilbert index of the same cell, for `n`
/// axes of `p` bits each. The word is worked on in place, with shifts and
/// masks.
pub fn hilbert_index_to_hilbert_coordinates(hilbert_index: &u32, n: u32, p: u32) -> (out: u32)
    requires
        valid_layout(n, p),
        *hilbert_index < pow2((n * p) as nat),
    ensures
        out == skilling_index(*hilbert_index, n, p),
        out < pow2((n * p) as nat),
{
    let width = n * p;
    let mut word = *hilbert_index;
    let ghost start = bits_of(*hilbert_index as nat, width as nat);
    proof {
        lemma_bits_of_len(*hilbert_index as nat, width as nat);
        assert(width % n == 0) by (nonlinear_arith)
            requires
                width == n * p,
                n > 0,
        ;
    }
    if width > n {
        let mut r = width - n;
        while r > 0
            invariant
                word_in_layout(word, n, width),
                r <= width - n,
                start.len() == width,
                bits_of(word as nat, width as nat) == after_positions(
                    start,
                    n as int,
                    (width - n - r) as nat,
                ),
            decreases r,
        {
            r = r - 1;
            proof {
                lemma_bits_of_word(word, width as nat, r as int);
            }
            if (word >> (width - 1 - r)) & 1 == 1 {
                word = invert_levels_below(word, n, width, r);
            } else {
                word = exchange_levels_below(word, n, width, r);
            }
        }
    }
    proof {
        lemma_value_of_bits_of(word as nat, width as nat);
    }
    word
}

/// Turns each Gray code of a batch into the Hilbert index of the same cell;
/// the order of the batch is kept.
pub fn skilling_transform(brgc: Vec<u32>, n: u32, p: u32) -> (indices: Vec<u32>)
    requires
        valid_layout(n, p),
        forall|k: int| 0 <= k < brgc@.len() ==> #[trigger] brgc@[k] < pow2((n * p) as nat),
    ensures
        indices@.len() == brgc@.len(),
        forall|k: int|
            0 <= k < brgc@.len() ==> #[trigger] indices@[k] == skilling_index(brgc@[k], n, p),
        forall|k: int| 0 <= k < brgc@.len() ==> #[trigger] indices@[k] < pow2((n * p) as nat),
{
    let mut indices: Vec<u32> = Vec::new();
    let mut at: usize = 0;
    while at < brgc.len()
        invariant
            valid_layout(n, p),
            at <= brgc@.len(),
            indices@.len() == at,
            forall|k: int| 0 <= k < brgc@.len() ==> #[trigger] brgc@[k] < pow2((n * p) as nat),
            forall|k: int| 0 <= k < at ==> #[trigger] indices@[k] == skilling_index(brgc@[k], n, p),
            forall|k: int| 0 <= k < at ==> #[trigger] indices@[k] < pow2((n * p) as nat),
        decreases brgc@.len() - at,
    {
        indices.push(hilbert_index_to_hilbert_coordinates(&brgc[at], n, p));
        at = at + 1;
    }
    indices
}

} // verus!
