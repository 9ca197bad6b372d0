use aurora::error::Error;
use aurora::stream::buffer::MemoryStream;
use aurora::stream::Bitstream;

#[test]
fn buffer_test_read_u8() {
    let mut s = MemoryStream::new(vec![0x00u8, 0x01]);

    assert_eq!(s.read_u8(), Ok(0));
    assert_eq!(s.read_u8(), Ok(1));
}

#[test]
fn buffer_test_read_u16() {
    let mut s = MemoryStream::new(vec![0x00u8, 0x01, 0x02, 0x03]);

    assert_eq!(s.read_le_u16(), Ok(0x0100));
    assert_eq!(s.read_be_u16(), Ok(0x0203));
}

#[test]
fn buffer_test_read_u32() {
    let mut s = MemoryStream::new(vec![0x00u8, 0x01, 0x02, 0x03, 0x04, 0x05, 0x06, 0x07]);

    assert_eq!(s.read_le_u32(), Ok(0x03020100));
    assert_eq!(s.read_be_u32(), Ok(0x04050607));
}

#[test]
fn buffer_test_read_u64() {
    let mut s = MemoryStream::new(vec![
        0x00u8, 0x01, 0x02, 0x03, 0x04, 0x05, 0x06, 0x07, 0x08, 0x09, 0x0A, 0x0B, 0x0C, 0x0D, 0x0E,
        0x0F,
    ]);

    assert_eq!(s.read_le_u64(), Ok(0x0706050403020100));
    assert_eq!(s.read_be_u64(), Ok(0x08090A0B0C0D0E0F));
}

#[test]
fn buffer_test_read_i8() {
    let mut s = MemoryStream::new(vec![0xFFu8]);

    assert_eq!(s.read_i8(), Ok(-1));
}

#[test]
fn buffer_test_read_i16() {
    let mut s = MemoryStream::new(vec![0x00u8, 0xFF, 0xFF, 0x00]);

    assert_eq!(s.read_le_i16(), Ok(-0x100));
    assert_eq!(s.read_be_i16(), Ok(-0x100));
}

#[test]
fn buffer_test_read_i32() {
    let mut s = MemoryStream::new(vec![0x00u8, 0xFF, 0xFF, 0xFF, 0xFF, 0xFF, 0xFF, 0x00]);

    assert_eq!(s.read_le_i32(), Ok(-0x100));
    assert_eq!(s.read_be_i32(), Ok(-0x100));
}

#[test]
fn buffer_test_read_i64() {
    let mut s = MemoryStream::new(vec![
        0x00u8, 0xFF, 0xFF, 0xFF, 0xFF, 0xFF, 0xFF, 0xFF, 0xFF, 0xFF, 0xFF, 0xFF, 0xFF, 0xFF, 0xFF,
        0x00,
    ]);

    assert_eq!(s.read_le_i64(), Ok(-0x100));
    assert_eq!(s.read_be_i64(), Ok(-0x100));
}

#[test]
fn buffer_test_read_n() {
    let mut s = MemoryStream::new(vec![0x00u8, 0x01, 0x02, 0x03]);

    assert_eq!(s.read_le_usize_n(2), Ok(0x0100));
    assert_eq!(s.read_be_usize_n(2), Ok(0x0203));

    let mut s = MemoryStream::new(vec![0x00u8, 0x01, 0x02, 0x03, 0x04, 0x05]);

    assert_eq!(s.read_le_usize_n(1), Ok(0x00));
    assert_eq!(s.read_le_usize_n(2), Ok(0x0201));
    assert_eq!(s.read_le_usize_n(3), Ok(0x050403));

    let mut s = MemoryStream::new(vec![0x00u8, 0x01, 0x02, 0x03, 0x04, 0x05]);

    assert_eq!(s.read_be_usize_n(1), Ok(0x00));
    assert_eq!(s.read_be_usize_n(2), Ok(0x0102));
    assert_eq!(s.read_be_usize_n(3), Ok(0x030405));
}

#[test]
fn buffer_test_skip() {
    let mut s = MemoryStream::new(vec![0x00u8, 0x01, 0x02, 0x03]);

    s.skip(1).unwrap();
    assert_eq!(s.read_le_usize_n(3), Ok(0x030201));

    let mut s = MemoryStream::new(vec![0x00u8, 0x01, 0x02, 0x03, 0x04, 0x05]);

    s.skip(3).unwrap();
    assert_eq!(s.read_le_usize_n(3), Ok(0x050403));

    let mut s = MemoryStream::new(vec![0x00u8, 0x01, 0x02, 0x03, 0x04, 0x05]);

    s.skip(3).unwrap();
    assert_eq!(s.read_be_usize_n(3), Ok(0x030405));
}

#[test]
fn buffer_test_short_reads() {
    let s = MemoryStream::new(vec![0xFFu8, 0xAA, 0x44]);
    let mut r = Bitstream::new(s);

    assert_eq!(r.read_n(8), Ok(0xFF));
    assert_eq!(r.read_n(4), Ok(0x0A));
    assert_eq!(r.read_n(2), Ok(0x02));
    assert_eq!(r.read_n(1), Ok(0x01));
    assert_eq!(r.read_n(1), Ok(0x00));
    assert_eq!(r.read_n(3), Ok(0x02));
    assert_eq!(r.read_n(3), Ok(0x01));
    assert_eq!(r.read_n(2), Ok(0x00));
}

#[test]
fn buffer_test_medium_reads() {
    let s = MemoryStream::new(vec![0xFFu8, 0xAA, 0x44, 0xA3]);
    let mut r = Bitstream::new(s);

    assert_eq!(r.read_n(16), Ok(0xFFAA));
    assert_eq!(r.read_n(12), Ok(0x44A));
    assert_eq!(r.read_n(4), Ok(0x3));
}

#[test]
fn buffer_test_large_reads() {
    let s = MemoryStream::new(vec![0xFFu8, 0xAA, 0x44, 0xA3, 0x34, 0x99, 0x44]);
    let mut r = Bitstream::new(s);

    assert_eq!(r.read_n(24), Ok(0xFFAA44));
    assert_eq!(r.read_n(32), Ok(0xA3349944));
}

#[test]
fn buffer_test_signed() {
    let s = MemoryStream::new(vec![0xFFu8, 0xAA, 0x44, 0xA3, 0x34]);
    let mut r = Bitstream::new(s);

    assert_eq!(r.read_n_signed(1), Ok(-1));
    assert_eq!(r.read_n_signed(2), Ok(-1));
    assert_eq!(r.read_n_signed(3), Ok(-1));
    assert_eq!(r.read_n_signed(4), Ok(-2));
    assert_eq!(r.read_n_signed(6), Ok(-22));
    assert_eq!(r.read_n_signed(8), Ok(68));
    assert_eq!(r.read_n_signed(16), Ok(-23756));
}

#[test]
fn buffer_test_stream() {
    let s = MemoryStream::new(vec![0xEAu8, 0xBD, 0x21]);
    let mut r = Bitstream::new(s);

    assert_eq!(r.read_n(4), Ok(0xE));
    assert_eq!(r.read_n(4), Ok(0xA));
    assert_eq!(r.read_n(4), Ok(0xB));
    assert_eq!(r.read_n(4), Ok(0xD));
    assert_eq!(r.read_n(4), Ok(0x2));
    assert_eq!(r.read_n(4), Ok(0x1));
}

#[test]
fn buffer_test_stream2() {
    let s = MemoryStream::new(vec![0x30u8, 0xC8, 0x61]);
    let mut r = Bitstream::new(s);

    assert_eq!(r.read_n(6), Ok(12));
    assert_eq!(r.read_n(6), Ok(12));
    assert_eq!(r.read_n(6), Ok(33));
    assert_eq!(r.read_n(6), Ok(33));
}

#[test]
fn an_empty_memory_stream_is_at_its_end() {
    let mut s = MemoryStream::new(vec![]);
    let mut out = [0u8; 2];

    assert_eq!(s.try_read(&mut out), Ok(None));
    assert_eq!(s.try_skip(1), Ok(None));
    assert_eq!(s.read_u8(), Err(Error::UnexpectedEof));
}

#[test]
fn a_memory_stream_hands_out_all_that_is_asked_for() {
    let mut s = MemoryStream::new(vec![1u8, 2, 3, 4, 5]);
    let mut out = [0u8; 3];

    assert_eq!(s.try_read(&mut out), Ok(Some(3)));
    assert_eq!(out, [1, 2, 3]);
    assert_eq!(s.try_read(&mut out), Ok(Some(2)));
    assert_eq!(out, [4, 5, 3]);
    assert_eq!(s.try_read(&mut out), Ok(None));
}
