use std::io::Write;

use winny::png::chunk::{chunk_type_from_name, Chunk, ChunkType};
use winny::png::decoder::to_bytes;
use winny::png::filter::{paeth_predictor, unfilter_image_into};
use winny::png::reader::{ByteReader, Error};

const SIGNATURE: [u8; 8] = [0x89, 0x50, 0x4e, 0x47, 0x0d, 0x0a, 0x1a, 0x0a];

fn chunk(name: &[u8; 4], body: &[u8]) -> Vec<u8> {
    let mut out = (body.len() as u32).to_be_bytes().to_vec();
    out.extend_from_slice(name);
    out.extend_from_slice(body);
    out.extend_from_slice(&[0, 0, 0, 0]);
    out
}

fn ihdr(width: u32, height: u32, bit_depth: u8, color_type: u8) -> Vec<u8> {
    let mut body = width.to_be_bytes().to_vec();
    body.extend_from_slice(&height.to_be_bytes());
    body.extend_from_slice(&[bit_depth, color_type, 0, 0, 0]);
    chunk(b"IHDR", &body)
}

fn zlib(data: &[u8]) -> Vec<u8> {
    let mut encoder = libflate::zlib::Encoder::new(Vec::new()).unwrap();
    encoder.write_all(data).unwrap();
    encoder.finish().into_result().unwrap()
}

fn png(width: u32, height: u32, color_type: u8, scanlines: &[u8]) -> Vec<u8> {
    let mut file = SIGNATURE.to_vec();
    file.extend(ihdr(width, height, 8, color_type));
    file.extend(chunk(b"IDAT", &zlib(scanlines)));
    file.extend(chunk(b"IEND", &[]));
    file
}

fn decode(file: Vec<u8>) -> Option<Result<(Vec<u8>, (u32, u32)), Error>> {
    to_bytes(ByteReader::new(file))
}

#[test]
fn rgba_rows_without_filter_come_back_as_they_are() {
    let file = png(2, 1, 6, &[0, 1, 2, 3, 4, 5, 6, 7, 8]);
    let (bytes, dims) = decode(file).unwrap().unwrap();
    assert_eq!(dims, (2, 1));
    assert_eq!(bytes, vec![1, 2, 3, 4, 5, 6, 7, 8]);
}

#[test]
fn rgb_pixels_get_an_opaque_alpha() {
    let file = png(1, 2, 2, &[0, 10, 20, 30, 0, 40, 50, 60]);
    let (bytes, dims) = decode(file).unwrap().unwrap();
    assert_eq!(dims, (1, 2));
    assert_eq!(bytes, vec![10, 20, 30, 255, 40, 50, 60, 255]);
}

#[test]
fn sub_filter_adds_the_pixel_to_the_left() {
    let file = png(2, 1, 6, &[1, 1, 2, 3, 4, 1, 1, 1, 255]);
    let (bytes, _) = decode(file).unwrap().unwrap();
    assert_eq!(bytes, vec![1, 2, 3, 4, 2, 3, 4, 3]);
}

#[test]
fn up_filter_adds_the_pixel_above() {
    let file = png(1, 2, 6, &[0, 10, 20, 30, 40, 2, 1, 2, 3, 4]);
    let (bytes, _) = decode(file).unwrap().unwrap();
    assert_eq!(bytes, vec![10, 20, 30, 40, 11, 22, 33, 44]);
}

#[test]
fn paeth_filter_uses_the_predictor() {
    let file = png(2, 2, 6, &[
        0, 10, 20, 30, 40, 50, 60, 70, 80,
        4, 1, 1, 1, 1, 1, 1, 1, 1,
    ]);
    let (bytes, _) = decode(file).unwrap().unwrap();
    // First pixel: left and up-left are missing, so the prediction is up.
    // Second pixel: left 11, up 50, up-left 10 give 51, closest to up.
    assert_eq!(bytes[8..], [11, 21, 31, 41, 51, 61, 71, 81]);
}

#[test]
fn file_shorter_than_a_signature_is_a_reader_error() {
    assert_eq!(decode(vec![0x89, 0x50]), Some(Err(Error::Reader)));
}

#[test]
fn wrong_signature_is_an_invalid_file() {
    let mut file = png(1, 1, 6, &[0, 1, 2, 3, 4]);
    file[1] = b'Q';
    assert_eq!(decode(file), Some(Err(Error::InvalidFile)));
}

#[test]
fn unknown_chunk_is_reported() {
    let mut file = SIGNATURE.to_vec();
    file.extend(ihdr(1, 1, 8, 6));
    file.extend(chunk(b"abcd", &[1, 2]));
    file.extend(chunk(b"IEND", &[]));
    assert_eq!(decode(file), Some(Err(Error::UnknownChunkType)));
}

#[test]
fn missing_end_chunk_is_a_reader_error() {
    let mut file = SIGNATURE.to_vec();
    file.extend(ihdr(1, 1, 8, 6));
    file.extend(chunk(b"IDAT", &zlib(&[0, 1, 2, 3, 4])));
    assert_eq!(decode(file), Some(Err(Error::Reader)));
}

#[test]
fn short_header_is_a_reader_error() {
    let mut file = SIGNATURE.to_vec();
    file.extend(chunk(b"IHDR", &[0, 0, 0, 1, 0, 0]));
    file.extend(chunk(b"IEND", &[]));
    assert_eq!(decode(file), Some(Err(Error::Reader)));
}

#[test]
fn corrupt_pixel_data_is_a_decoding_error() {
    let mut file = SIGNATURE.to_vec();
    file.extend(ihdr(1, 1, 8, 6));
    file.extend(chunk(b"IDAT", &[0xff, 0xff, 0xff]));
    file.extend(chunk(b"IEND", &[]));
    assert_eq!(decode(file), Some(Err(Error::Decoding)));
}

#[test]
fn decoding_stops_where_the_format_is_not_handled() {
    // The first chunk is not a header.
    let mut file = SIGNATURE.to_vec();
    file.extend(chunk(b"IEND", &[]));
    assert_eq!(decode(file), None);
    // Greyscale images.
    assert_eq!(decode(png(1, 1, 0, &[0, 7])), None);
    // The average filter.
    assert_eq!(decode(png(1, 1, 6, &[3, 1, 2, 3, 4])), None);
    // An RGBA byte count that overflows 32 bits.
    let mut file = SIGNATURE.to_vec();
    file.extend(ihdr(0x1_0000, 0x1_0000, 8, 6));
    file.extend(chunk(b"IEND", &[]));
    assert_eq!(decode(file), None);
}

#[test]
fn image_without_pixel_chunks_has_no_bytes() {
    let mut file = SIGNATURE.to_vec();
    file.extend(ihdr(3, 4, 8, 6));
    file.extend(chunk(b"tIME", &[0, 0, 0, 0, 0, 0, 0]));
    file.extend(chunk(b"IEND", &[]));
    assert_eq!(decode(file), Some(Ok((vec![], (3, 4)))));
}

#[test]
fn chunk_reads_length_type_and_body() {
    let mut data = chunk(b"tEXt", b"key\0value");
    data.extend(chunk(b"IEND", &[]));
    let mut reader = ByteReader::new(data);
    let mut c = Chunk::new(&mut reader).unwrap();
    assert_eq!(c.chunk_type, ChunkType::tEXt);
    assert_eq!(c.length, 9);
    assert_eq!(c.reader.read_null_terminated_string().unwrap(), "key");
    assert_eq!(c.reader.read_remaining_bytes(0).unwrap(), b"value".to_vec());
    let end = Chunk::new(&mut reader).unwrap();
    assert_eq!(end.chunk_type, ChunkType::IEND);
    assert_eq!(Chunk::new(&mut reader).err(), Some(Error::Reader));
}

#[test]
fn chunk_errors() {
    let mut data = chunk(b"IDAX", &[7, 7]);
    data.extend(chunk(b"IEND", &[]));
    let mut reader = ByteReader::new(data);
    assert_eq!(Chunk::new(&mut reader).err(), Some(Error::UnknownChunkType));
    assert_eq!(Chunk::new(&mut reader).unwrap().chunk_type, ChunkType::IEND);
    let mut truncated = chunk(b"IDAT", &[1, 2, 3]);
    truncated.truncate(10);
    let mut reader = ByteReader::new(truncated);
    assert_eq!(Chunk::new(&mut reader).err(), Some(Error::Reader));
}

#[test]
fn chunk_names() {
    assert_eq!(chunk_type_from_name(&b"IHDR".to_vec()), Some(ChunkType::IHDR));
    assert_eq!(chunk_type_from_name(&b"zTXt".to_vec()), Some(ChunkType::zTXt));
    assert_eq!(chunk_type_from_name(&b"ihdr".to_vec()), None);
}

#[test]
fn byte_reader_reads_big_endian_numbers() {
    let mut r = ByteReader::new(vec![0x01, 0x02, 0x03, 0x04, 0xab, 0xcd, 0xef]);
    assert_eq!(r.read_u32(), Ok(0x0102_0304));
    assert_eq!(r.read_u16(), Ok(0xabcd));
    assert_eq!(r.read_u8(), Ok(0xef));
    assert_eq!(r.read_u8(), Err(Error::EndOfBuf));
    assert_eq!(r.read_bytes(0), Ok(vec![]));
}

#[test]
fn byte_reader_fails_past_the_end_and_stays_there() {
    let mut r = ByteReader::new(vec![1, 2, 3]);
    assert_eq!(r.read_bytes(2), Ok(vec![1, 2]));
    assert_eq!(r.read_bytes(2), Err(Error::EndOfBuf));
    assert_eq!(r.read_remaining_bytes(8), Ok(vec![]));
}

#[test]
fn byte_reader_strings() {
    let mut r = ByteReader::new(vec![b'a', b'b', 0, b'c', 0xe9, b'x']);
    assert_eq!(r.read_null_terminated_string().unwrap(), "ab");
    assert_eq!(r.read_string(2).unwrap(), "c\u{e9}");
    assert_eq!(r.read_null_terminated_string(), Err(Error::EndOfBuf));
}

#[test]
fn paeth_predictor_values() {
    assert_eq!(paeth_predictor(1, 2, 3), 1);
    assert_eq!(paeth_predictor(10, 20, 15), 15);
    assert_eq!(paeth_predictor(0, 10, 0), 10);
    assert_eq!(paeth_predictor(11, 50, 10), 50);
    assert_eq!(paeth_predictor(200, 100, 100), 200);
}

#[test]
fn unfilter_image_appends_rgba_rows() {
    let mut out = vec![9];
    assert!(unfilter_image_into(&vec![0, 1, 2, 3, 1, 1, 1, 1], 1, 2, 3, &mut out));
    assert_eq!(out, vec![9, 1, 2, 3, 255, 1, 1, 1, 255]);
    let mut out = Vec::new();
    assert!(!unfilter_image_into(&vec![5, 1, 2, 3], 1, 1, 3, &mut out));
}

#[test]
fn error_messages() {
    assert_eq!(Error::InvalidFile.message(), "The given file is not a PNG");
    assert_eq!(Error::Decoding.message(), "Failed to decode data, this is a bug");
}

#[test]
fn decodable_filters_give_opaque_rgba_of_full_size() {
    let rows = [
        0, 1, 2, 3, 4, 5, 6,
        1, 1, 1, 1, 2, 2, 2,
        2, 10, 10, 10, 20, 20, 20,
        4, 0, 0, 0, 0, 0, 0,
    ];
    let (bytes, dims) = decode(png(2, 4, 2, &rows)).unwrap().unwrap();
    assert_eq!(dims, (2, 4));
    assert_eq!(bytes.len(), 2 * 4 * 4);
    for k in 0..8 {
        assert_eq!(bytes[4 * k + 3], 255);
    }
    assert_eq!(bytes[..8], [1, 2, 3, 255, 4, 5, 6, 255]);
    assert_eq!(bytes[8..16], [1, 1, 1, 255, 3, 3, 3, 255]);
    assert_eq!(bytes[16..24], [11, 11, 11, 255, 23, 23, 23, 255]);
}

#[test]
fn bytes_after_the_end_chunk_are_never_read() {
    let mut file = png(1, 1, 6, &[0, 9, 8, 7, 6]);
    file.extend_from_slice(&[0xde, 0xad, 0xbe]);
    assert_eq!(decode(file), Some(Ok((vec![9, 8, 7, 6], (1, 1)))));
}
