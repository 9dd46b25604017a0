use arithmetic_decoder::{ArithmeticDecoder, DecodingError, SimpleArithmeticDecoder};

const SAMPLE: [u8; 8] = [0xB5, 0x3C, 0x9A, 0x41, 0x07, 0xEE, 0x52, 0x6D];

fn decode_header<D: ArithmeticDecoder>(decoder: &mut D, bytes: &[u8]) -> Result<(bool, u8, i32, i8), DecodingError> {
    decoder.init(bytes.to_vec())?;
    let tree = [-1i8, 2, -2, 4, -3, 6, -4, -5];
    let probabilities = [128u8, 100, 200, 50];
    let bit = decoder.read_bool(200);
    let literal = decoder.read_literal(5);
    let number = decoder.read_magnitude_and_sign(6);
    let flag = decoder.read_flag();
    let symbol = decoder.read_with_tree(&tree, &probabilities, 0);
    Ok((bit != flag, literal, number, symbol))
}

#[test]
fn a_decoder_behind_the_trait_reads_what_it_reads_directly() {
    let mut behind = SimpleArithmeticDecoder::new();
    let through_trait = decode_header(&mut behind, &SAMPLE);

    let mut direct = SimpleArithmeticDecoder::new();
    assert_eq!(direct.init(SAMPLE.to_vec()), Ok(()));
    let tree = [-1i8, 2, -2, 4, -3, 6, -4, -5];
    let probabilities = [128u8, 100, 200, 50];
    let bit = direct.read_bool(200);
    let literal = direct.read_literal(5);
    let number = direct.read_magnitude_and_sign(6);
    let flag = direct.read_flag();
    let symbol = direct.read_with_tree(&tree, &probabilities, 0);

    assert_eq!(through_trait, Ok((bit != flag, literal, number, symbol)));
    assert_eq!(behind.range(), direct.range());
    assert_eq!(behind.value(), direct.value());
    assert_eq!(behind.bit_count(), direct.bit_count());
    assert_eq!(behind.cursor(), direct.cursor());
}

#[test]
fn a_decoder_behind_the_trait_refuses_a_short_buffer() {
    let mut decoder = SimpleArithmeticDecoder::new();
    assert_eq!(decode_header(&mut decoder, &[0x01]), Err(DecodingError::NotEnoughInitData));
    assert!(!decoder.is_ready());
}
