use hilbert_in_cartesian::brgc::{gray_code_at, Brgc};

#[test]
fn take_16_gray_codes() {
    let brgc = Brgc { index: 0 };
    let result: Vec<u32> = brgc.take(16);
    let first_16_brgc_expected = [
        0b0000u32, 0b0001u32, 0b0011u32, 0b0010u32, 0b0110u32, 0b0111u32, 0b0101u32, 0b0100u32,
        0b1100u32, 0b1101u32, 0b1111u32, 0b1110u32, 0b1010u32, 0b1011u32, 0b1001u32, 0b1000u32,
    ];
    assert_eq!(result, Vec::from(first_16_brgc_expected));
}

#[test]
fn convert_first_16_graycodes_to_binary() {
    let brgc = Brgc { index: 0 };
    let result: Vec<u32> = brgc
        .take(16)
        .into_iter()
        .map(|gray| Brgc::binary_from_gray(gray))
        .collect();
    let first_16_standard_binary = [
        0b0000u32, 0b0001u32, 0b0010u32, 0b0011u32, 0b0100u32, 0b0101u32, 0b0110u32, 0b0111u32,
        0b1000u32, 0b1001u32, 0b1010u32, 0b1011u32, 0b1100u32, 0b1101u32, 0b1110u32, 0b1111u32,
    ];
    assert_eq!(result, first_16_standard_binary);
}

#[test]
fn next_hands_out_the_term_and_advances() {
    let mut brgc = Brgc { index: 5 };
    assert_eq!(brgc.next(), Some(0b0111));
    assert_eq!(brgc.index, 6);
    assert_eq!(brgc.next(), Some(0b0101));
    assert_eq!(brgc.index, 7);
}

#[test]
fn generator_restarts_from_zero() {
    let mut brgc = Brgc { index: 0 };
    let first = brgc.next();
    brgc.next();
    brgc.index = 0;
    assert_eq!(brgc.next(), first);
    assert_eq!(first, Some(0));
}

#[test]
fn take_starts_at_the_current_position() {
    let brgc = Brgc { index: 14 };
    assert_eq!(brgc.take(3), vec![0b1001, 0b1000, 0b11000]);
    let empty = Brgc { index: 3 };
    assert_eq!(empty.take(0), Vec::<u32>::new());
}

#[test]
fn take_reaches_the_last_position() {
    let brgc = Brgc { index: u32::MAX - 1 };
    assert_eq!(brgc.take(2), vec![0x8000_0001, 0x8000_0000]);
}

#[test]
fn gray_code_at_exact_values() {
    assert_eq!(gray_code_at(0), 0);
    assert_eq!(gray_code_at(1), 1);
    assert_eq!(gray_code_at(2), 3);
    assert_eq!(gray_code_at(255), 128);
    assert_eq!(gray_code_at(256), 384);
    assert_eq!(gray_code_at(u32::MAX), 0x8000_0000);
}

#[test]
fn successive_gray_codes_differ_in_one_bit() {
    for i in 0..4096u32 {
        let d = gray_code_at(i) ^ gray_code_at(i + 1);
        assert_eq!(d.count_ones(), 1);
    }
    let d = gray_code_at(u32::MAX - 1) ^ gray_code_at(u32::MAX);
    assert_eq!(d.count_ones(), 1);
}

#[test]
fn binary_from_gray_inverts_gray_code_at() {
    for i in 0..4096u32 {
        assert_eq!(Brgc::binary_from_gray(gray_code_at(i)), i);
        assert_eq!(gray_code_at(Brgc::binary_from_gray(i)), i);
    }
    assert_eq!(Brgc::binary_from_gray(gray_code_at(u32::MAX)), u32::MAX);
    assert_eq!(Brgc::binary_from_gray(0x8000_0000), u32::MAX);
    assert_eq!(Brgc::binary_from_gray(0), 0);
}

#[test]
fn gray_code_is_stable_across_widths() {
    let narrow = Brgc { index: 0 }.take(4);
    let wide = Brgc { index: 0 }.take(64);
    assert_eq!(narrow[..], wide[..4]);
}
