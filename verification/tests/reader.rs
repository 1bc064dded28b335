use cdf_header::error::Error;
use cdf_header::helpers::{unpack_int, unpack_string};
use cdf_header::reader::ByteReader;

#[test]
fn reads_big_endian_integers() {
    let bytes = [0x00u8, 0x00, 0x01, 0x0b, 0xff, 0xff, 0x7a, 0x33, 0x12];
    let mut fp = ByteReader::new(&bytes);
    assert_eq!(fp.read_u32(), Ok(267));
    assert_eq!(fp.position(), 4);
    assert_eq!(fp.read_i32(), Ok(-34253));
    assert_eq!(fp.position(), 8);
    assert_eq!(fp.read_u8(), Ok(0x12));
    assert_eq!(fp.remaining(), 0);
    assert_eq!(fp.read_u8(), Err(Error::TruncatedInput));
    let mut fp = ByteReader::new(&bytes);
    assert_eq!(fp.read_u64(), Ok(0x0000_010b_ffff_7a33));
    let mut fp = ByteReader::new(&bytes);
    assert_eq!(fp.read_i64(), Ok(0x0000_010b_ffff_7a33));
    let negative = [0xffu8, 0xff, 0xff, 0xff, 0xff, 0xff, 0xff, 0xfe];
    let mut fp = ByteReader::new(&negative);
    assert_eq!(fp.read_i64(), Ok(-2));
    let mut fp = ByteReader::new(&negative);
    assert_eq!(fp.read_u64(), Ok(u64::MAX - 1));
    let mut fp = ByteReader::new(&negative);
    assert_eq!(fp.read_u32(), Ok(u32::MAX));
    assert_eq!(fp.read_i32(), Ok(-2));
    let least = [0x80u8, 0, 0, 0, 0x7f, 0xff, 0xff, 0xff];
    let mut fp = ByteReader::new(&least);
    assert_eq!(fp.read_i32(), Ok(i32::MIN));
    assert_eq!(fp.read_i32(), Ok(i32::MAX));
    let mut fp = ByteReader::new(&least);
    assert_eq!(fp.read_i64(), Ok(i64::MIN + 0x7fff_ffff));
}

#[test]
fn a_failed_read_leaves_the_cursor() {
    let bytes = [1u8, 2, 3, 4, 5, 6, 7];
    let mut fp = ByteReader::new(&bytes);
    assert_eq!(fp.read_u64(), Err(Error::TruncatedInput));
    assert_eq!(fp.read_i64(), Err(Error::TruncatedInput));
    assert_eq!(fp.position(), 0);
    assert_eq!(fp.read_u32(), Ok(0x0102_0304));
    assert_eq!(fp.read_u32(), Err(Error::TruncatedInput));
    assert_eq!(fp.read_i32(), Err(Error::TruncatedInput));
    assert_eq!(fp.position(), 4);
    assert_eq!(fp.read_bytes(4), Err(Error::TruncatedInput));
    assert_eq!(fp.skip(4), Err(Error::TruncatedInput));
    assert_eq!(fp.read_bytes(u64::MAX), Err(Error::TruncatedInput));
    assert_eq!(fp.skip(u64::MAX), Err(Error::TruncatedInput));
    assert_eq!(fp.position(), 4);
    assert_eq!(fp.read_bytes(2), Ok(vec![5, 6]));
    assert_eq!(fp.skip(1), Ok(()));
    assert_eq!(fp.remaining(), 0);
    assert_eq!(fp.read_bytes(0), Ok(vec![]));
    assert_eq!(fp.skip(0), Ok(()));
}

#[test]
fn unpack_int_reads_a_signed_integer() {
    let bytes = [0xffu8, 0xff, 0xff, 0xfc, 0, 0, 0, 12, 9];
    let mut fp = ByteReader::new(&bytes);
    assert_eq!(unpack_int(&mut fp), Ok(-4));
    assert_eq!(unpack_int(&mut fp), Ok(12));
    assert_eq!(unpack_int(&mut fp), Err(Error::TruncatedInput));
    assert_eq!(fp.position(), 8);
}

#[test]
fn unpack_string_reads_utf8_text() {
    let bytes = "CDF\u{e9}rest".as_bytes();
    let mut fp = ByteReader::new(bytes);
    assert_eq!(unpack_string(&mut fp, 3), Ok(String::from("CDF")));
    assert_eq!(unpack_string(&mut fp, 2), Ok(String::from("\u{e9}")));
    assert_eq!(unpack_string(&mut fp, 0), Ok(String::new()));
    assert_eq!(unpack_string(&mut fp, 5), Err(Error::TruncatedInput));
    assert_eq!(unpack_string(&mut fp, 4), Ok(String::from("rest")));
    let mut fp = ByteReader::new(bytes);
    assert_eq!(unpack_string(&mut fp, 4), Err(Error::InvalidUtf8));
    let latin = [0xe9u8, b'a'];
    let mut fp = ByteReader::new(&latin);
    assert_eq!(unpack_string(&mut fp, 2), Err(Error::InvalidUtf8));
}
