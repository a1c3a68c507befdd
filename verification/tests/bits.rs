use winny::png::bits::BitReader;
use winny::png::reader::{ByteReader, Error};

fn bits_of(bytes: Vec<u8>) -> BitReader {
    BitReader::new(ByteReader::new(bytes))
}

#[test]
fn le_hands_out_bits_from_the_top() {
    let mut r = bits_of(vec![0b1010_0000]);
    assert_eq!(r.read_bit_le(), Ok(true));
    assert_eq!(r.read_bit_le(), Ok(false));
    assert_eq!(r.read_bit_le(), Ok(true));
    assert_eq!(r.read_bits_le(5), Ok(vec![false; 5]));
    assert_eq!(r.read_bit_le(), Err(Error::EndOfBuf));
}

#[test]
fn be_hands_out_bits_from_the_bottom() {
    let mut r = bits_of(vec![0x0f]);
    assert_eq!(r.read_bits_to_u8_be(1), Ok(1));
    assert_eq!(r.read_bits_to_u8_be(5), Ok(0b00111));
    assert_eq!(r.read_bits_be(2), Ok(vec![false, false]));
}

#[test]
fn whole_bytes_come_back_in_either_order() {
    let mut r = bits_of(vec![0xa5, 0x3c]);
    assert_eq!(r.read_bits_to_u8_le(8), Ok(0xa5));
    assert_eq!(r.read_bits_to_u8_be(8), Ok(0x3c));
    assert_eq!(r.read_bits_to_u8_be(8), Err(Error::EndOfBuf));
}

#[test]
fn mixing_orders_within_a_byte_is_an_error() {
    let mut r = bits_of(vec![0xff, 0x01]);
    assert_eq!(r.read_bit_be(), Ok(true));
    assert_eq!(r.read_bit_le(), Err(Error::Decoding));
    r.flush_byte();
    assert_eq!(r.read_bit_le(), Ok(false));
}

#[test]
fn read_bits_be_returns_the_last_bit_first() {
    let mut r = bits_of(vec![0b0000_0110]);
    assert_eq!(r.read_bits_be(3), Ok(vec![true, true, false]));
}

#[test]
fn u16_be_puts_the_second_nibble_high() {
    let mut r = bits_of(vec![0x2a]);
    assert_eq!(r.read_u16_be(), Ok(0x020a));
    let mut r = bits_of(vec![]);
    assert_eq!(r.read_u16_be(), Err(Error::EndOfBuf));
}

#[test]
fn more_than_eight_bits_keep_the_last_eight() {
    let mut r = bits_of(vec![0xff, 0x00]);
    assert_eq!(r.read_bits_to_u8_le(12), Ok(0xf0));
}

#[test]
fn png_bits() {
    let num = 0x0f;
    let mut bit_reader = BitReader::new(ByteReader::new(vec![num]));
    let res = bit_reader.read_bits_to_u8_be(1).unwrap();
    println!("{0:#b}", res);
    assert_eq!(res, 0b1);
    let res = bit_reader.read_bits_to_u8_be(5).unwrap();
    println!("{0:#b}", res);
    assert_eq!(res, 0b111);
}

#[test]
fn image_decoder_bits() {
    let num = 0x0f;
    let mut bit_reader = BitReader::new(ByteReader::new(vec![num]));
    let res = bit_reader.read_bits_to_u8_be(1).unwrap();
    println!("{0:#b}", res);
    assert_eq!(res, 0b1);
    let res = bit_reader.read_bits_to_u8_be(5).unwrap();
    println!("{0:#b}", res);
    assert_eq!(res, 0b111);
}
