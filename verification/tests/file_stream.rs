use aurora::error::Error;
use aurora::stream::{Feed, Stream};

/// A source like the device of zeros: every chunk is a page of zero bytes, and there is
/// always another one.
struct Zeros {}

impl Feed for Zeros {
    fn feed(&mut self, buffer: &mut Vec<u8>) -> Result<bool, Error> {
        buffer.clear();
        buffer.resize(4096, 0);
        Ok(false)
    }
}

#[test]
fn file_test_read_zero() {
    let mut s = Stream::new(Zeros {});

    assert_eq!(s.read_u8(), Ok(0));
    assert_eq!(s.read_be_u16(), Ok(0));
    assert_eq!(s.read_be_u32(), Ok(0));
    assert_eq!(s.read_be_u64(), Ok(0));
}

#[test]
fn test_skip_zero() {
    let mut s = Stream::new(Zeros {});

    s.skip(10).unwrap();

    assert_eq!(s.read_u8(), Ok(0));
}

#[test]
fn a_stream_over_a_source_of_its_own_goes_across_pages() {
    let mut s = Stream::new(Zeros {});

    assert_eq!(s.skip(4095), Ok(()));
    assert_eq!(s.read_be_u64(), Ok(0));
    assert_eq!(s.try_skip(5000), Ok(Some(4089)));
    let mut out = [1u8; 8];
    assert_eq!(s.read_at_least(3, &mut out), Ok(8));
    assert_eq!(out, [0u8; 8]);
}
