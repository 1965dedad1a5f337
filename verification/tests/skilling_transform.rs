use hilbert_in_cartesian::bits::{bit_length_of, into_bit_vec, into_u32};
use hilbert_in_cartesian::brgc::Brgc;
use hilbert_in_cartesian::skilling_transform::{
    hilbert_index_to_hilbert_coordinates, skilling_transform,
};

#[test]
fn example_4_bit() {
    let input = 0b1101 as u32;
    let expected = 0b1101 as u32;
    assert_eq!(hilbert_index_to_hilbert_coordinates(&input, 2, 2), expected);
}

#[test]
fn example_8_bit() {
    let input = 0b11001101 as u32;
    let expected = 0b11001110 as u32;
    assert_eq!(hilbert_index_to_hilbert_coordinates(&input, 2, 4), expected);
}

/*
 * binary numbers that have leading 0's when represented with (n*p) bits
 * are a potential failure case
 */
#[test]
fn example_leading_zeros() {
    let input = 0b01100000 as u32;
    let expected = 0b01000000 as u32;
    assert_eq!(hilbert_index_to_hilbert_coordinates(&input, 2, 4), expected);
}

// regression test for case that caused failures for unknown reasons
#[test]
pub fn test_unknown() {
    let input = 0b000101000 as u32;
    let expected = 0b000101110 as u32;
    assert_eq!(hilbert_index_to_hilbert_coordinates(&input, 3, 3), expected);
}

#[test]
fn batch_matches_the_literal_vectors() {
    assert_eq!(skilling_transform(vec![0b1101], 2, 2), vec![0b1101]);
    assert_eq!(skilling_transform(vec![0b11001101], 2, 4), vec![0b11001110]);
}

#[test]
fn batch_keeps_length_and_order() {
    let input = vec![0b11001101u32, 0b01100000, 0b11001101, 0];
    let out = skilling_transform(input.clone(), 2, 4);
    assert_eq!(out.len(), input.len());
    for (k, g) in input.iter().enumerate() {
        assert_eq!(out[k], hilbert_index_to_hilbert_coordinates(g, 2, 4));
    }
    assert_eq!(out, vec![0b11001110, 0b01000000, 0b11001110, 0]);
    assert_eq!(skilling_transform(Vec::new(), 3, 2), Vec::<u32>::new());
}

#[test]
fn transform_of_two_levels_in_two_dimensions() {
    let out = skilling_transform(Brgc { index: 0 }.take(16), 2, 2);
    assert_eq!(out, vec![0, 2, 3, 1, 4, 5, 7, 6, 12, 13, 15, 14, 11, 9, 8, 10]);
}

#[test]
fn transform_of_two_levels_in_three_dimensions() {
    let out = skilling_transform(Brgc { index: 0 }.take(64), 3, 2);
    let expected: Vec<u32> = vec![
        0, 1, 3, 2, 6, 7, 5, 4, 8, 10, 14, 12, 13, 15, 11, 9, 24, 28, 29, 25, 27, 31, 30, 26, 19,
        17, 21, 23, 22, 20, 16, 18, 48, 52, 53, 49, 51, 55, 54, 50, 56, 57, 59, 58, 62, 63, 61, 60,
        46, 42, 43, 47, 45, 41, 40, 44, 37, 39, 35, 33, 32, 34, 38, 36,
    ];
    assert_eq!(out, expected);
    assert_eq!(hilbert_index_to_hilbert_coordinates(&0b100000, 3, 2), 0b100100);
}

#[test]
fn transform_leaves_a_single_level_alone() {
    for g in 0..4u32 {
        assert_eq!(hilbert_index_to_hilbert_coordinates(&g, 2, 1), g);
    }
    for g in 0..8u32 {
        assert_eq!(hilbert_index_to_hilbert_coordinates(&g, 3, 1), g);
    }
    assert_eq!(hilbert_index_to_hilbert_coordinates(&0, 2, 0), 0);
    assert_eq!(hilbert_index_to_hilbert_coordinates(&0, 3, 0), 0);
}

#[test]
fn transform_is_a_permutation_for_small_layouts() {
    for (n, p) in [(2u32, 2u32), (2, 3), (3, 2), (2, 5), (3, 3)] {
        let count = 1u32 << (n * p);
        let mut seen = vec![false; count as usize];
        for g in 0..count {
            let h = hilbert_index_to_hilbert_coordinates(&g, n, p);
            assert!(h < count);
            assert!(!seen[h as usize]);
            seen[h as usize] = true;
        }
        assert!(seen.iter().all(|s| *s));
    }
}

#[test]
fn transform_uses_the_full_word() {
    assert_eq!(hilbert_index_to_hilbert_coordinates(&u32::MAX, 2, 16), 0xffff_ffff);
    assert_eq!(hilbert_index_to_hilbert_coordinates(&0x8000_0000, 2, 16), 0xaaaa_aaaa);
    assert_eq!(hilbert_index_to_hilbert_coordinates(&0x1234_5678, 2, 16), 0x27c9_ed05);
    assert_eq!(hilbert_index_to_hilbert_coordinates(&0x2bcd_ef01, 3, 10), 0x2b75_b3b4);
    assert_eq!(hilbert_index_to_hilbert_coordinates(&0, 3, 10), 0);
}

#[test]
fn bit_vectors_are_most_significant_first() {
    assert_eq!(into_bit_vec(0b1101, 4), vec![true, true, false, true]);
    assert_eq!(into_bit_vec(0b101, 6), vec![false, false, false, true, false, true]);
    assert_eq!(into_bit_vec(0, 0), Vec::<bool>::new());
    assert_eq!(into_bit_vec(u32::MAX, 32), vec![true; 32]);
    assert_eq!(into_u32(vec![true, true, false, true]), 13);
    assert_eq!(into_u32(vec![false, false, true]), 1);
    assert_eq!(into_u32(Vec::new()), 0);
    assert_eq!(into_u32(vec![true; 32]), u32::MAX);
    for v in 0..300u32 {
        assert_eq!(into_u32(into_bit_vec(v, 9)), v);
    }
}

#[test]
fn bit_length_counts_significant_digits() {
    assert_eq!(bit_length_of(0), 0);
    assert_eq!(bit_length_of(1), 1);
    assert_eq!(bit_length_of(0b11000101), 8);
    assert_eq!(bit_length_of(u32::MAX), 32);
}
