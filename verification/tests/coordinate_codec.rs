use hilbert_in_cartesian::coordinate_codec::{
    from_xyz_decimal_2d, from_xyz_decimal_3d, into_xyz_binary_2d, into_xyz_binary_3d,
    into_xyz_decimal_2d, into_xyz_decimal_3d,
};

#[test]
fn decode_hilbert_coordinate_to_xyz_binary_2d() {
    let n = 2;
    let p = 4;
    let hilbert_coordinate = 0b11000101 as u32;
    let expected = (1000, 1011);
    assert_eq!(into_xyz_binary_2d(hilbert_coordinate, n, p), expected);
}

#[test]
fn decode_hilbert_coordinate_to_xyz_binary_3d() {
    let n = 3;
    let p = 3;
    let hilbert_coordinate = 0b101110100 as u32;
    let expected = (111, 010, 100);
    assert_eq!(into_xyz_binary_3d(hilbert_coordinate, n, p), expected);
}

#[test]
fn decode_hilbert_coordinate_to_xyz_decimal_2d() {
    let n = 2;
    let p = 3;
    let hilbert_coordinate = 0b11000101 as u32;
    let expected = (8, 11);
    assert_eq!(into_xyz_decimal_2d(hilbert_coordinate, n, p), expected);
}

#[test]
fn decode_hilbert_coordinate_to_xyz_decimal_3d() {
    let n = 3;
    let p = 3;
    let hilbert_coordinate = 0b101110100 as u32;
    let expected = (7, 2, 4);
    assert_eq!(into_xyz_decimal_3d(hilbert_coordinate, n, p), expected);
}

#[test]
fn decode_pads_short_indices_on_the_left() {
    assert_eq!(into_xyz_decimal_2d(0b0110, 2, 4), (0b0001, 0b0010));
    assert_eq!(into_xyz_decimal_2d(1, 2, 16), (0, 1));
    assert_eq!(into_xyz_decimal_2d(2, 2, 16), (1, 0));
    assert_eq!(into_xyz_decimal_3d(0b100, 3, 10), (1, 0, 0));
    assert_eq!(into_xyz_decimal_3d(0b001, 3, 10), (0, 0, 1));
    assert_eq!(into_xyz_binary_2d(0b0110, 2, 4), (1, 10));
    assert_eq!(into_xyz_binary_3d(0b110001, 3, 4), (10, 10, 1));
}

#[test]
fn decode_of_an_empty_layout_is_the_origin() {
    assert_eq!(into_xyz_decimal_2d(0, 2, 0), (0, 0));
    assert_eq!(into_xyz_decimal_3d(0, 3, 0), (0, 0, 0));
    assert_eq!(into_xyz_binary_2d(0, 2, 0), (0, 0));
    assert_eq!(into_xyz_binary_3d(0, 3, 0), (0, 0, 0));
}

#[test]
fn decode_reads_an_over_long_index_from_its_own_first_digit() {
    // five digits against a layout of four: the lanes start at the first digit
    assert_eq!(into_xyz_decimal_2d(0b10110, 2, 2), (0b110, 0b01));
    assert_eq!(into_xyz_decimal_3d(0b1011011, 3, 2), (0b111, 0b00, 0b11));
    assert_eq!(into_xyz_binary_2d(0b10110, 2, 2), (110, 1));
}

#[test]
fn decode_of_the_widest_layouts() {
    assert_eq!(into_xyz_decimal_2d(u32::MAX, 2, 16), (0xffff, 0xffff));
    assert_eq!(into_xyz_decimal_2d(0xaaaa_aaaa, 2, 16), (0xffff, 0));
    assert_eq!(into_xyz_decimal_2d(0x27c9_ed05, 2, 16), (23264, 14771));
    assert_eq!(into_xyz_decimal_3d(0x2b75_b3b4, 3, 10), (583, 438, 1016));
    assert_eq!(into_xyz_binary_2d(0x000f_ffff, 2, 10), (1111111111, 1111111111));
}

#[test]
fn encode_places_each_bit_in_its_lane() {
    assert_eq!(from_xyz_decimal_2d((8, 11), 2, 4), 0b11000101);
    assert_eq!(from_xyz_decimal_3d((7, 2, 4), 3, 3), 0b101110100);
    assert_eq!(from_xyz_decimal_2d((1, 0), 2, 1), 0b10);
    assert_eq!(from_xyz_decimal_2d((0, 1), 2, 1), 0b01);
    assert_eq!(from_xyz_decimal_3d((0, 1, 0), 3, 1), 0b010);
    assert_eq!(from_xyz_decimal_2d((0, 0), 2, 0), 0);
    assert_eq!(from_xyz_decimal_3d((0, 0, 0), 3, 0), 0);
    assert_eq!(from_xyz_decimal_2d((0xffff, 0), 2, 16), 0xaaaa_aaaa);
    assert_eq!(from_xyz_decimal_3d((583, 438, 1016), 3, 10), 0x2b75_b3b4);
}

#[test]
fn decode_inverts_encode() {
    for p in 0..5u32 {
        for x in 0..(1u32 << p) {
            for y in 0..(1u32 << p) {
                assert_eq!(into_xyz_decimal_2d(from_xyz_decimal_2d((x, y), 2, p), 2, p), (x, y));
            }
        }
    }
    for p in 0..4u32 {
        for x in 0..(1u32 << p) {
            for y in 0..(1u32 << p) {
                for z in 0..(1u32 << p) {
                    let index = from_xyz_decimal_3d((x, y, z), 3, p);
                    assert_eq!(into_xyz_decimal_3d(index, 3, p), (x, y, z));
                }
            }
        }
    }
}

#[test]
fn encode_inverts_decode() {
    for index in 0..(1u32 << 8) {
        assert_eq!(from_xyz_decimal_2d(into_xyz_decimal_2d(index, 2, 4), 2, 4), index);
    }
    for index in 0..(1u32 << 9) {
        assert_eq!(from_xyz_decimal_3d(into_xyz_decimal_3d(index, 3, 3), 3, 3), index);
    }
}
