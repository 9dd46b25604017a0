use arithmetic_decoder::{DecodingError, SimpleArithmeticDecoder};

#[test]
fn new_decoder_is_not_ready() {
    let decoder = SimpleArithmeticDecoder::new();
    assert!(!decoder.is_ready());
    assert_eq!(decoder.range(), 0);
    assert_eq!(decoder.value(), 0);
    assert_eq!(decoder.bit_count(), 0);
    assert_eq!(decoder.cursor(), 0);
    assert_eq!(decoder.buffer_len(), 0);
}

#[test]
fn init_refuses_an_empty_buffer() {
    let mut decoder = SimpleArithmeticDecoder::new();
    assert_eq!(decoder.init(Vec::new()), Err(DecodingError::NotEnoughInitData));
    assert!(!decoder.is_ready());
    assert_eq!(decoder.buffer_len(), 0);
}

#[test]
fn init_refuses_a_single_byte() {
    let mut decoder = SimpleArithmeticDecoder::new();
    assert_eq!(decoder.init(vec![0xAB]), Err(DecodingError::NotEnoughInitData));
    assert!(!decoder.is_ready());
    assert_eq!(decoder.range(), 0);
    assert_eq!(decoder.value(), 0);
    assert_eq!(decoder.cursor(), 0);
    assert_eq!(decoder.buffer_len(), 0);
}

#[test]
fn init_seeds_the_value_with_the_first_two_bytes() {
    let mut decoder = SimpleArithmeticDecoder::new();
    assert_eq!(decoder.init(vec![0x12, 0x34]), Ok(()));
    assert!(decoder.is_ready());
    assert_eq!(decoder.range(), 255);
    assert_eq!(decoder.value(), 0x1234);
    assert_eq!(decoder.bit_count(), 0);
    assert_eq!(decoder.cursor(), 2);
    assert_eq!(decoder.buffer_len(), 2);
}

#[test]
fn init_leaves_the_rest_of_the_buffer_unread() {
    let mut decoder = SimpleArithmeticDecoder::new();
    assert_eq!(decoder.init(vec![0xB5, 0x3C, 0x9A, 0x41, 0x07]), Ok(()));
    assert_eq!(decoder.value(), 0xB53C);
    assert_eq!(decoder.cursor(), 2);
    assert_eq!(decoder.buffer_len(), 5);
}

#[test]
fn a_refused_init_leaves_a_seeded_decoder_as_it_was() {
    let mut decoder = SimpleArithmeticDecoder::new();
    assert_eq!(decoder.init(vec![0xB5, 0x3C, 0x9A]), Ok(()));
    assert!(decoder.read_bool(128));
    let range = decoder.range();
    let value = decoder.value();
    assert_eq!(decoder.init(vec![0x01]), Err(DecodingError::NotEnoughInitData));
    assert!(decoder.is_ready());
    assert_eq!(decoder.range(), range);
    assert_eq!(decoder.value(), value);
    assert_eq!(decoder.buffer_len(), 3);
}

#[test]
fn the_two_errors_are_told_apart() {
    assert_ne!(DecodingError::BitStreamError, DecodingError::NotEnoughInitData);
    assert_eq!(format!("{:?}", DecodingError::NotEnoughInitData), "NotEnoughInitData");
    assert_eq!(format!("{:?}", DecodingError::BitStreamError), "BitStreamError");
}
