use alaybey::endian::{read_i32, write_u32, EndianError};

#[test]
fn read_i32_short_slice_is_an_error() {
    assert_eq!(read_i32(&[1, 2, 3]), Err(EndianError::ShortSlice));
    assert_eq!(read_i32(&[]), Err(EndianError::ShortSlice));
}

#[test]
fn read_i32_is_little_endian() {
    assert_eq!(read_i32(&[1, 0, 0, 0]), Ok(1));
    assert_eq!(read_i32(&[0x78, 0x56, 0x34, 0x12]), Ok(0x12345678));
    assert_eq!(read_i32(&[0xff, 0xff, 0xff, 0xff]), Ok(-1));
    assert_eq!(read_i32(&[0x01, 0x00, 0x00, 0xA0, 0x99]), Ok(0xA0000001u32 as i32));
}

#[test]
fn write_u32_writes_least_significant_byte_first() {
    let mut buf = [0u8; 6];
    buf[4] = 7;
    buf[5] = 9;
    write_u32(&mut buf, 0x40000009);
    assert_eq!(buf, [0x09, 0x00, 0x00, 0x40, 7, 9]);
}

#[test]
fn write_then_read_gives_the_word_back() {
    for w in [0u32, 1, 536870910, 0x40000000, 0x60000003, 0xA0000001, 0xFFFFFFFF, 0x80000000] {
        let mut buf = [0u8; 4];
        write_u32(&mut buf, w);
        assert_eq!(read_i32(&buf), Ok(w as i32));
    }
}

#[test]
fn endian_error_message() {
    assert_eq!(EndianError::ShortSlice.message(), "The slice length is too short.");
}
