use arithmetic_decoder::SimpleArithmeticDecoder;

fn seeded(bytes: &[u8]) -> SimpleArithmeticDecoder {
    let mut decoder = SimpleArithmeticDecoder::new();
    assert_eq!(decoder.init(bytes.to_vec()), Ok(()));
    decoder
}

fn state(decoder: &SimpleArithmeticDecoder) -> (u32, u32, u8, usize) {
    (decoder.range(), decoder.value(), decoder.bit_count(), decoder.cursor())
}

#[test]
fn two_bytes_read_on_as_if_zeros_followed() {
    let probabilities = [128u8, 30, 220, 255, 1];
    let mut short = seeded(&[0x12, 0x34]);
    let mut padded_bytes = vec![0x12u8, 0x34];
    padded_bytes.extend([0u8; 64]);
    let mut padded = seeded(&padded_bytes);
    let mut trues = 0;
    for i in 0..200 {
        let probability = probabilities[i % probabilities.len()];
        let bit = short.read_bool(probability);
        assert_eq!(bit, padded.read_bool(probability));
        assert_eq!(short.range(), padded.range());
        assert_eq!(short.value(), padded.value());
        assert_eq!(short.bit_count(), padded.bit_count());
        assert_eq!(short.cursor(), 2);
        if bit {
            trues += 1;
        }
    }
    assert_eq!(trues, 73);
    assert_eq!(state(&short), (128, 0, 7, 2));
    assert_eq!(state(&padded), (128, 0, 7, 26));
}

#[test]
fn the_first_booleans_past_the_end_of_two_bytes() {
    let probabilities = [128u8, 30, 220, 255, 1];
    let expected = [
        0, 1, 0, 0, 1, 0, 0, 0, 0, 1, 1, 0, 0, 0, 1, 1, 1, 0, 0, 1, 1, 1, 1, 0, 1, 1, 1, 0, 0, 1,
        1, 0, 0, 0, 1, 0, 1, 0, 0, 1,
    ];
    let mut decoder = seeded(&[0x12, 0x34]);
    for (i, bit) in expected.iter().enumerate() {
        assert_eq!(decoder.read_bool(probabilities[i % probabilities.len()]), *bit == 1);
    }
    assert_eq!(state(&decoder), (173, 8448, 6, 2));
}

#[test]
fn reading_past_the_end_is_the_same_every_time() {
    let mut first = seeded(&[0xA7, 0x19]);
    let mut second = seeded(&[0xA7, 0x19]);
    for i in 0..1000u32 {
        let probability = (i * 13 % 256) as u8;
        assert_eq!(first.read_bool(probability), second.read_bool(probability));
        assert_eq!(state(&first), state(&second));
        assert!(first.is_ready());
        assert_eq!(first.cursor(), 2);
    }
}

#[test]
fn a_stream_of_ones_reads_true_at_even_odds_past_its_end() {
    let mut decoder = seeded(&[0xFF, 0xFF]);
    for _ in 0..40 {
        assert!(decoder.read_bool(128));
        assert!(decoder.is_ready());
    }
    assert_eq!(state(&decoder), (254, 65024, 0, 2));
}

#[test]
fn every_kind_of_read_goes_on_past_the_end() {
    let mut decoder = seeded(&[0x5A, 0xC3]);
    let tree = [-1i8, 2, -2, 4, -3, 6, -4, -5];
    let probabilities = [128u8, 100, 200, 50];
    for _ in 0..50 {
        decoder.read_literal(8);
        decoder.read_flag();
        let number = decoder.read_magnitude_and_sign(8);
        assert!(-255 <= number && number <= 255);
        let symbol = decoder.read_with_tree(&tree, &probabilities, 0);
        assert!(1 <= symbol && symbol <= 5);
        assert_eq!(decoder.cursor(), 2);
        assert!(decoder.is_ready());
    }
}
