use pm64::rw::{align, IoError, ReadExt, Reader, WriteExt, Writer};

#[test]
fn test_align() {
    assert_eq!(align(0, 5), 5);
    assert_eq!(align(5, 5), 5);
    assert_eq!(align(6, 5), 10);

    // 0 and 1 values for `n` should be a no-op
    assert_eq!(align(36, 0), 36);
    assert_eq!(align(36, 1), 36);
}

#[test]
fn reads_big_endian_values() {
    let data = [0x12, 0x34, 0xFF, 0xFE, 0x00, 0x00, 0x01, 0x02, 0x80];
    let mut r = Reader::new(&data);
    assert_eq!(r.read_u16_be(), Ok(0x1234));
    assert_eq!(r.read_i16_be(), Ok(-2));
    assert_eq!(r.read_u32_be(), Ok(0x0102));
    assert_eq!(r.read_i8(), Ok(-128));
    assert_eq!(r.read_u8(), Err(IoError::UnexpectedEof));
}

#[test]
fn padding_must_be_zero() {
    let data = [0, 0, 1];
    let mut r = Reader::new(&data);
    assert_eq!(r.read_padding(2), Ok(()));
    assert_eq!(r.read_padding(1), Err(IoError::InvalidData));
    let mut r = Reader::new(&data[..2]);
    assert_eq!(r.read_padding(3), Err(IoError::UnexpectedEof));
}

#[test]
fn cstring_stops_at_nul() {
    let data = *b"ab\0cdef";
    let mut r = Reader::new(&data);
    assert_eq!(r.read_cstring(4).unwrap(), "ab");
    assert_eq!(r.position(), 4);
    let bad = [0xFF, 0x00];
    let mut r = Reader::new(&bad);
    assert_eq!(r.read_cstring(2), Err(IoError::InvalidData));
}

#[test]
fn writer_pads_gaps_and_overwrites() {
    let mut w = Writer::new();
    w.write_u16_be(0xABCD).unwrap();
    w.seek(4);
    w.write_u8(7).unwrap();
    w.write_u16_be_at(0x0102, 1).unwrap();
    assert_eq!(w.position(), 5);
    w.align(4).unwrap();
    assert_eq!(w.into_inner(), vec![0xAB, 0x01, 0x02, 0, 7, 0, 0, 0]);
}

#[test]
fn cstring_field_drops_wide_characters() {
    let mut w = Writer::new();
    w.write_cstring_lossy("aé\u{1F600}bcdef", 5).unwrap();
    assert_eq!(w.into_inner(), vec![b'a', b'b', b'c', b'd', 0]);
    let mut w = Writer::new();
    assert_eq!(w.write_cstring_lossy("x", 0), Err(IoError::InvalidData));
}

#[test]
fn align_zero_is_refused() {
    let mut w = Writer::new();
    assert_eq!(w.align(0), Err(IoError::InvalidData));
}
