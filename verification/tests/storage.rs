use arcadia::storage::{LoadError, Reader, Writer};

#[test]
fn writer_writes_little_endian() {
    let mut w = Writer::new();
    w.u8(0xab);
    w.u16(0x0102);
    w.u32(0x0304_0506);
    w.u64(0x0708_090a_0b0c_0d0e);
    w.float_bits(f32::to_bits(1.0));
    w.count(3);
    assert_eq!(
        w.into_bytes(),
        vec![
            0xab, 0x02, 0x01, 0x06, 0x05, 0x04, 0x03, 0x0e, 0x0d, 0x0c, 0x0b, 0x0a, 0x09, 0x08,
            0x07, 0x00, 0x00, 0x80, 0x3f, 3, 0, 0, 0
        ]
    );
}

#[test]
fn reader_reads_what_writer_wrote() {
    let mut w = Writer::new();
    w.u16(513);
    w.u32(70000);
    w.u64(5_000_000_000);
    w.u8(9);
    let mut r = Reader::new(w.bytes().clone());
    assert_eq!(r.u16(), Ok(513));
    assert_eq!(r.u32(), Ok(70000));
    assert_eq!(r.position(), 6);
    assert_eq!(r.u64(), Ok(5_000_000_000));
    assert!(!r.at_end());
    assert_eq!(r.u8(), Ok(9));
    assert!(r.at_end());
}

#[test]
fn reader_reads_little_endian_bytes() {
    let mut r = Reader::new(vec![0x04, 0x03, 0x02, 0x01, 0x00, 0x00, 0x80, 0x3f]);
    assert_eq!(r.u32(), Ok(0x0102_0304));
    assert_eq!(r.float_bits(), Ok(f32::to_bits(1.0)));
}

#[test]
fn reader_stops_at_the_end() {
    let mut r = Reader::new(vec![1, 2, 3]);
    assert_eq!(r.u32(), Err(LoadError::UnexpectedEof));
    assert_eq!(r.u16(), Ok(0x0201));
    assert_eq!(r.u16(), Err(LoadError::UnexpectedEof));
    assert_eq!(r.u64(), Err(LoadError::UnexpectedEof));
    assert_eq!(r.u8(), Ok(3));
    assert_eq!(r.u8(), Err(LoadError::UnexpectedEof));
    assert_eq!(r.count(), Err(LoadError::UnexpectedEof));
}
