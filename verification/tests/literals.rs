use arithmetic_decoder::SimpleArithmeticDecoder;

const SAMPLE: [u8; 8] = [0xB5, 0x3C, 0x9A, 0x41, 0x07, 0xEE, 0x52, 0x6D];

fn seeded(bytes: &[u8]) -> SimpleArithmeticDecoder {
    let mut decoder = SimpleArithmeticDecoder::new();
    assert_eq!(decoder.init(bytes.to_vec()), Ok(()));
    decoder
}

fn state(decoder: &SimpleArithmeticDecoder) -> (u32, u32, u8, usize) {
    (decoder.range(), decoder.value(), decoder.bit_count(), decoder.cursor())
}

#[test]
fn a_literal_of_no_bits_is_zero_and_reads_nothing() {
    for stream in [&[0x00u8, 0x00][..], &[0xFF, 0xFF, 0xFF][..], &SAMPLE[..]] {
        let mut decoder = seeded(stream);
        let before = state(&decoder);
        assert_eq!(decoder.read_literal(0), 0);
        assert_eq!(state(&decoder), before);
        decoder.read_bool(77);
        let before = state(&decoder);
        assert_eq!(decoder.read_literal(0), 0);
        assert_eq!(state(&decoder), before);
    }
}

#[test]
fn literals_of_each_width_of_a_sample_stream() {
    let mut decoder = seeded(&SAMPLE);
    let expected = [0u8, 1, 1, 5, 6, 19, 61, 33, 83];
    for (width, value) in expected.iter().enumerate() {
        assert_eq!(decoder.read_literal(width as u8), *value);
    }
    assert_eq!(state(&decoder), (254, 9440, 4, 6));
}

#[test]
fn whole_bytes_as_literals_of_a_sample_stream() {
    let mut decoder = seeded(&SAMPLE);
    for value in [181u8, 167, 234, 21, 50, 82] {
        assert_eq!(decoder.read_literal(8), value);
    }
    assert_eq!(state(&decoder), (254, 63085, 0, 8));
}

#[test]
fn a_literal_spells_its_booleans_most_significant_first() {
    for width in 0..=8u8 {
        let mut by_literal = seeded(&SAMPLE);
        let mut by_bool = seeded(&SAMPLE);
        by_literal.read_bool(200);
        by_bool.read_bool(200);
        let literal = by_literal.read_literal(width);
        let mut spelled: u32 = 0;
        for _ in 0..width {
            spelled = spelled * 2 + u32::from(by_bool.read_bool(128));
        }
        assert_eq!(u32::from(literal), spelled);
        assert_eq!(state(&by_literal), state(&by_bool));
    }
}

#[test]
fn a_literal_wider_than_a_byte_keeps_its_low_eight_bits() {
    let mut decoder = seeded(&SAMPLE);
    // the first twelve booleans spell 0xB5A
    assert_eq!(decoder.read_literal(12), 0x5A);
    assert_eq!(state(&decoder), (254, 32160, 4, 3));
}

#[test]
fn a_literal_of_all_ones_and_of_all_zeros() {
    let mut ones = seeded(&[0xFF; 6]);
    assert_eq!(ones.read_literal(8), 255);
    assert_eq!(ones.read_literal(3), 7);
    let mut zeros = seeded(&[0x00; 6]);
    assert_eq!(zeros.read_literal(8), 0);
    assert_eq!(zeros.read_literal(3), 0);
}

#[test]
fn a_flag_is_a_literal_of_one_bit() {
    let mut by_flag = seeded(&SAMPLE);
    let mut by_literal = seeded(&SAMPLE);
    let mut by_bool = seeded(&SAMPLE);
    let expected = [1, 0, 1, 1, 0, 1, 0, 1, 1, 0];
    for bit in expected {
        let flag = by_flag.read_flag();
        assert_eq!(flag, bit == 1);
        assert_eq!(flag, by_literal.read_literal(1) != 0);
        assert_eq!(flag, by_bool.read_bool(128));
        assert_eq!(state(&by_flag), state(&by_literal));
        assert_eq!(state(&by_flag), state(&by_bool));
    }
    assert_eq!(state(&by_flag), (254, 40552, 2, 3));
}

#[test]
fn magnitudes_and_signs_of_a_sample_stream() {
    let mut decoder = seeded(&SAMPLE);
    let widths = [4u8, 4, 3, 8, 0, 1, 7];
    let expected = [11, 11, -4, -250, 0, 0, 42];
    for (width, number) in widths.iter().zip(expected) {
        assert_eq!(decoder.read_magnitude_and_sign(*width), number);
    }
    assert_eq!(state(&decoder), (254, 51128, 2, 6));
}

#[test]
fn a_clear_sign_bit_gives_the_literal_itself() {
    // A stream of zero bytes reads `false` at even odds throughout, so the
    // sign is never set; the sample stream has a zero behind each of these
    // magnitudes.
    let mut zeros = seeded(&[0x00; 6]);
    for width in [8u8, 3, 0, 1] {
        assert_eq!(zeros.read_magnitude_and_sign(width), 0);
    }
    assert_eq!(state(&zeros), (128, 0, 7, 3));

    let mut signed = seeded(&SAMPLE);
    let mut plain = seeded(&SAMPLE);
    let number = signed.read_magnitude_and_sign(4);
    let literal = plain.read_literal(4);
    assert_eq!(number, 11);
    assert_eq!(number, i32::from(literal));
    assert!(!plain.read_flag());
    assert_eq!(state(&signed), state(&plain));
}

#[test]
fn a_set_sign_bit_gives_the_literal_negated() {
    // A stream of 0xFF bytes reads `true` at even odds throughout, so the
    // sign is always set.
    let mut ones = seeded(&[0xFF; 6]);
    let expected = [-255, -7, 0, -1];
    for (width, number) in [8u8, 3, 0, 1].iter().zip(expected) {
        assert_eq!(ones.read_magnitude_and_sign(*width), number);
    }
    assert_eq!(state(&ones), (254, 16842239, 0, 4));

    let mut signed = seeded(&[0xFF; 6]);
    let mut plain = seeded(&[0xFF; 6]);
    for width in [8u8, 3, 0, 1] {
        let number = signed.read_magnitude_and_sign(width);
        let literal = plain.read_literal(width);
        assert_eq!(number.abs(), i32::from(literal));
        assert!(number <= 0);
        assert!(plain.read_flag());
        assert_eq!(state(&signed), state(&plain));
    }
}

#[test]
fn the_magnitude_of_a_signed_number_is_the_literal_of_its_width() {
    for width in 0..=8u8 {
        for skip in 0..20 {
            let mut signed = seeded(&SAMPLE);
            let mut plain = seeded(&SAMPLE);
            for _ in 0..skip {
                signed.read_bool(128);
                plain.read_bool(128);
            }
            let number = signed.read_magnitude_and_sign(width);
            let literal = plain.read_literal(width);
            let sign = plain.read_flag();
            assert_eq!(number.abs(), i32::from(literal));
            assert_eq!(number, if sign { -i32::from(literal) } else { i32::from(literal) });
            assert_eq!(state(&signed), state(&plain));
        }
    }
}

#[test]
fn a_zero_magnitude_with_its_sign_set_is_zero() {
    // The first boolean of the sample stream at even odds is `true`.
    let mut decoder = seeded(&SAMPLE);
    assert_eq!(decoder.read_magnitude_and_sign(0), 0);
    assert_eq!(state(&decoder), (254, 27256, 1, 2));
}
