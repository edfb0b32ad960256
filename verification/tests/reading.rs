use bitcoin_parser::basic_reading::{
    read_le_u16, read_le_u16_hash, read_le_u32, read_le_u32_hash, read_le_u64, read_le_u64_hash,
    read_le_u8, read_le_u8_hash, read_varint, read_varint_hash, read_varint_with_prefix,
    read_varint_with_prefix_hash, ByteReader, ReadError,
};
use bitcoin_parser::hashing::Sha256Hasher;
use sha2::{Digest, Sha256};

fn reader(bytes: &[u8]) -> ByteReader {
    ByteReader::new(bytes.to_vec())
}

fn sha256(bytes: &[u8]) -> [u8; 32] {
    Sha256::digest(bytes).into()
}

#[test]
fn fixed_width_reads_are_little_endian() {
    let mut r = reader(&[0x01, 0x02, 0x03, 0x04, 0x05, 0x06, 0x07, 0x08, 0x09, 0x0a, 0x0b, 0x0c, 0x0d, 0x0e, 0x0f]);
    assert_eq!(read_le_u8(&mut r), Ok(0x01));
    assert_eq!(read_le_u16(&mut r), Ok(0x0302));
    assert_eq!(read_le_u32(&mut r), Ok(0x07060504));
    assert_eq!(read_le_u64(&mut r), Ok(0x0f0e0d0c0b0a0908));
    assert_eq!(r.remaining_len(), 0);
}

#[test]
fn fixed_width_reads_fail_at_end_reading_nothing() {
    let mut r = reader(&[0xaa, 0xbb, 0xcc]);
    assert_eq!(read_le_u32(&mut r), Err(ReadError::UnexpectedEof));
    assert_eq!(r.remaining_len(), 3);
    assert_eq!(read_le_u64(&mut r), Err(ReadError::UnexpectedEof));
    assert_eq!(read_le_u16(&mut r), Ok(0xbbaa));
    assert_eq!(read_le_u16(&mut r), Err(ReadError::UnexpectedEof));
    assert_eq!(read_le_u8(&mut r), Ok(0xcc));
    assert_eq!(read_le_u8(&mut r), Err(ReadError::UnexpectedEof));
}

#[test]
fn largest_values() {
    let mut r = reader(&[0xff; 15]);
    assert_eq!(read_le_u64(&mut r), Ok(u64::MAX));
    assert_eq!(read_le_u32(&mut r), Ok(u32::MAX));
    assert_eq!(read_le_u16(&mut r), Ok(u16::MAX));
    assert_eq!(read_le_u8(&mut r), Ok(u8::MAX));
}

#[test]
fn varint_single_byte() {
    let mut r = reader(&[0x00, 0xfc, 0x01]);
    assert_eq!(read_varint(&mut r), Ok(0));
    assert_eq!(read_varint(&mut r), Ok(0xfc));
    assert_eq!(r.remaining_len(), 1);
}

#[test]
fn varint_with_payloads() {
    let mut r = reader(&[
        0xfd, 0x34, 0x12, 0xfe, 0x78, 0x56, 0x34, 0x12, 0xff, 0x01, 0x02, 0x03, 0x04, 0x05, 0x06,
        0x07, 0x08,
    ]);
    assert_eq!(read_varint(&mut r), Ok(0x1234));
    assert_eq!(read_varint(&mut r), Ok(0x12345678));
    assert_eq!(read_varint(&mut r), Ok(0x0807060504030201));
    assert_eq!(r.remaining_len(), 0);
}

#[test]
fn varint_non_minimal_encoding_is_accepted() {
    let mut r = reader(&[0xfd, 0x05, 0x00, 0xff, 0, 0, 0, 0, 0, 0, 0, 0]);
    assert_eq!(read_varint(&mut r), Ok(5));
    assert_eq!(read_varint(&mut r), Ok(0));
}

#[test]
fn varint_errors() {
    let mut empty = reader(&[]);
    assert_eq!(read_varint(&mut empty), Err(ReadError::UnexpectedEof));
    let mut short = reader(&[0xfe, 0x01, 0x02]);
    assert_eq!(read_varint(&mut short), Err(ReadError::UnexpectedEof));
    // the prefix was read; the two bytes after it are left
    assert_eq!(short.remaining_len(), 2);
}

#[test]
fn varint_with_prefix_reads_only_the_payload() {
    let mut r = reader(&[0x10, 0x00, 0x99]);
    assert_eq!(read_varint_with_prefix(0xfd, &mut r), Ok(0x0010));
    assert_eq!(r.remaining_len(), 1);
    assert_eq!(read_varint_with_prefix(0x42, &mut r), Ok(0x42));
    assert_eq!(r.remaining_len(), 1);
    assert_eq!(read_varint_with_prefix(0xfe, &mut r), Err(ReadError::UnexpectedEof));
    assert_eq!(r.remaining_len(), 1);
}

#[test]
fn sha256_of_abc() {
    let mut h = Sha256Hasher::new();
    h.update(b"ab");
    h.update(b"c");
    let expected: [u8; 32] = [
        0xba, 0x78, 0x16, 0xbf, 0x8f, 0x01, 0xcf, 0xea, 0x41, 0x41, 0x40, 0xde, 0x5d, 0xae, 0x22,
        0x23, 0xb0, 0x03, 0x61, 0xa3, 0x96, 0x17, 0x7a, 0x9c, 0xb4, 0x10, 0xff, 0x61, 0xf2, 0x00,
        0x15, 0xad,
    ];
    assert_eq!(h.finalize(), expected);
}

#[test]
fn sha256_of_nothing() {
    let h = Sha256Hasher::new();
    assert_eq!(h.finalize(), sha256(&[]));
}

#[test]
fn hashing_reads_return_what_plain_reads_return_and_feed_what_they_read() {
    let bytes = [
        0x07, 0x22, 0x11, 0x44, 0x33, 0x22, 0x11, 1, 2, 3, 4, 5, 6, 7, 8, 0xfd, 0x00, 0x01, 0xfe,
        0x01, 0x00, 0x00, 0x00, 0x09,
    ];
    let mut plain = reader(&bytes);
    let mut hashed = reader(&bytes);
    let mut h = Sha256Hasher::new();
    assert_eq!(read_le_u8_hash(&mut hashed, &mut h), read_le_u8(&mut plain));
    assert_eq!(read_le_u16_hash(&mut hashed, &mut h), read_le_u16(&mut plain));
    assert_eq!(read_le_u32_hash(&mut hashed, &mut h), read_le_u32(&mut plain));
    assert_eq!(read_le_u64_hash(&mut hashed, &mut h), read_le_u64(&mut plain));
    assert_eq!(read_varint_hash(&mut hashed, &mut h), read_varint(&mut plain));
    assert_eq!(read_le_u8_hash(&mut hashed, &mut h), read_le_u8(&mut plain));
    assert_eq!(
        read_varint_with_prefix_hash(0xfe, &mut hashed, &mut h),
        read_varint_with_prefix(0xfe, &mut plain)
    );
    assert_eq!(read_varint_hash(&mut hashed, &mut h), Ok(9));
    // every byte but nothing else went to the hasher
    assert_eq!(h.finalize(), sha256(&bytes));
    // a failed read feeds nothing
    let mut h2 = Sha256Hasher::new();
    let mut r = reader(&[0x01]);
    assert_eq!(read_le_u32_hash(&mut r, &mut h2), Err(ReadError::UnexpectedEof));
    assert_eq!(h2.finalize(), sha256(&[]));
}
