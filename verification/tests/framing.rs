use sp_ipld::{
    read_bytes, read_f32, read_f64, read_len, read_str, read_u16, read_u32, read_u64, read_u8,
    write_null, write_tag, write_u16, write_u32, write_u64, write_u8, ByteCursor, Error,
};

fn written(f: impl Fn(&mut ByteCursor) -> Result<(), Error>) -> Vec<u8> {
    let mut w = ByteCursor::new(Vec::new());
    f(&mut w).unwrap();
    assert_eq!(w.position() as usize, w.get_ref().len());
    w.into_inner()
}

#[test]
fn fixed_width_reads_are_big_endian() {
    let mut r = ByteCursor::new(vec![0x01, 0x02, 0x03, 0x04, 0x05, 0x06, 0x07, 0x08, 0x09]);
    assert_eq!(read_u8(&mut r), Ok(0x01));
    assert_eq!(read_u16(&mut r), Ok(0x0203));
    assert_eq!(r.position(), 3);
    r.set_position(0);
    assert_eq!(read_u32(&mut r), Ok(0x0102_0304));
    r.set_position(1);
    assert_eq!(read_u64(&mut r), Ok(0x0203_0405_0607_0809));
    assert_eq!(r.position(), 9);
}

#[test]
fn fixed_width_reads_fail_short() {
    let mut r = ByteCursor::new(vec![0x01, 0x02, 0x03]);
    assert_eq!(read_u32(&mut r), Err(Error::ShortRead));
    assert_eq!(read_u64(&mut r), Err(Error::ShortRead));
    assert_eq!(r.position(), 0);
    r.set_position(2);
    assert_eq!(read_u16(&mut r), Err(Error::ShortRead));
    r.set_position(3);
    assert_eq!(read_u8(&mut r), Err(Error::ShortRead));
    assert_eq!(r.position(), 3);
}

#[test]
fn float_reads_give_bits() {
    let mut r = ByteCursor::new(vec![0x3f, 0xc0, 0x00, 0x00]);
    assert_eq!(read_f32(&mut r).map(f32::from_bits), Ok(1.5f32));
    let mut r = ByteCursor::new(vec![0x3f, 0xb9, 0x99, 0x99, 0x99, 0x99, 0x99, 0x9a]);
    assert_eq!(read_f64(&mut r).map(f64::from_bits), Ok(0.1f64));
    assert_eq!(read_f64(&mut r), Err(Error::ShortRead));
}

#[test]
fn read_bytes_and_text() {
    let mut r = ByteCursor::new(vec![b'I', b'E', b'T', b'F', 0xff]);
    assert_eq!(read_bytes(&mut r, 2), Ok(vec![b'I', b'E']));
    assert_eq!(r.position(), 2);
    assert_eq!(read_bytes(&mut r, 4), Err(Error::ShortRead));
    assert_eq!(r.position(), 2);
    assert_eq!(read_bytes(&mut r, 0), Ok(vec![]));
    r.set_position(0);
    assert_eq!(read_str(&mut r, 4), Ok("IETF".to_string()));
    assert_eq!(r.position(), 4);
    assert_eq!(read_str(&mut r, 1), Err(Error::InvalidUtf8));
    r.set_position(4);
    assert_eq!(read_str(&mut r, 2), Err(Error::ShortRead));
}

#[test]
fn read_text_of_more_than_one_byte_per_char() {
    let text = "h\u{e9}\u{20ac}\u{1f600}";
    let mut r = ByteCursor::new(text.as_bytes().to_vec());
    assert_eq!(read_str(&mut r, text.len()), Ok(text.to_string()));
    let mut r = ByteCursor::new(vec![0xe2, 0x82]);
    assert_eq!(read_str(&mut r, 2), Err(Error::InvalidUtf8));
}

#[test]
fn read_len_of_every_width() {
    let mut r = ByteCursor::new(vec![0x01, 0x02, 0x03, 0x04, 0x00, 0x00, 0x00, 0x09]);
    assert_eq!(read_len(&mut r, 0x00), Ok(0));
    assert_eq!(read_len(&mut r, 0x17), Ok(23));
    assert_eq!(r.position(), 0);
    assert_eq!(read_len(&mut r, 0x18), Ok(1));
    assert_eq!(r.position(), 1);
    assert_eq!(read_len(&mut r, 0x19), Ok(0x0203));
    r.set_position(0);
    assert_eq!(read_len(&mut r, 0x1a), Ok(0x0102_0304));
    r.set_position(0);
    assert_eq!(read_len(&mut r, 0x1b), Ok(0x0102_0304_0000_0009));
    assert_eq!(r.position(), 8);
    assert_eq!(read_len(&mut r, 0x18), Err(Error::ShortRead));
    assert_eq!(read_len(&mut r, 0x1c), Err(Error::UnexpectedCode(0x1c)));
    assert_eq!(read_len(&mut r, 0xff), Err(Error::UnexpectedCode(0xff)));
}

#[test]
fn null_is_f6() {
    assert_eq!(written(|w| write_null(w)), vec![0xf6]);
}

#[test]
fn magnitudes_take_the_least_width() {
    assert_eq!(written(|w| write_u8(w, 0, 0)), vec![0x00]);
    assert_eq!(written(|w| write_u8(w, 0, 23)), vec![0x17]);
    assert_eq!(written(|w| write_u8(w, 0, 24)), vec![0x18, 0x18]);
    assert_eq!(written(|w| write_u8(w, 0, 255)), vec![0x18, 0xff]);
    assert_eq!(written(|w| write_u16(w, 0, 255)), vec![0x18, 0xff]);
    assert_eq!(written(|w| write_u16(w, 0, 256)), vec![0x19, 0x01, 0x00]);
    assert_eq!(written(|w| write_u16(w, 0, 0xffff)), vec![0x19, 0xff, 0xff]);
    assert_eq!(written(|w| write_u32(w, 0, 0xffff)), vec![0x19, 0xff, 0xff]);
    assert_eq!(written(|w| write_u32(w, 0, 0x1_0000)), vec![0x1a, 0x00, 0x01, 0x00, 0x00]);
    assert_eq!(written(|w| write_u32(w, 0, u32::MAX)), vec![0x1a, 0xff, 0xff, 0xff, 0xff]);
    assert_eq!(written(|w| write_u64(w, 0, 0xffff_ffff)), vec![0x1a, 0xff, 0xff, 0xff, 0xff]);
    assert_eq!(
        written(|w| write_u64(w, 0, 0x1_0000_0000)),
        vec![0x1b, 0x00, 0x00, 0x00, 0x01, 0x00, 0x00, 0x00, 0x00]
    );
    assert_eq!(
        written(|w| write_u64(w, 0, 0x0102_0304_0506_0708)),
        vec![0x1b, 0x01, 0x02, 0x03, 0x04, 0x05, 0x06, 0x07, 0x08]
    );
    assert_eq!(written(|w| write_u64(w, 0, 7)), vec![0x07]);
    assert_eq!(written(|w| write_u32(w, 0, 300)), vec![0x19, 0x01, 0x2c]);
}

#[test]
fn major_type_goes_in_the_top_bits() {
    assert_eq!(written(|w| write_u8(w, 1, 0)), vec![0x20]);
    assert_eq!(written(|w| write_u8(w, 2, 5)), vec![0x45]);
    assert_eq!(written(|w| write_u8(w, 3, 24)), vec![0x78, 0x18]);
    assert_eq!(written(|w| write_u16(w, 4, 1000)), vec![0x99, 0x03, 0xe8]);
    assert_eq!(written(|w| write_u32(w, 5, 70000)), vec![0xba, 0x00, 0x01, 0x11, 0x70]);
    assert_eq!(written(|w| write_u64(w, 6, 42)), vec![0xd8, 0x2a]);
    assert_eq!(written(|w| write_tag(w, 42)), vec![0xd8, 0x2a]);
    assert_eq!(written(|w| write_tag(w, 1)), vec![0xc1]);
    assert_eq!(written(|w| write_u8(w, 7, 22)), vec![0xf6]);
    assert_eq!(written(|w| write_u8(w, 8, 1)), vec![0x01]);
}

#[test]
fn writes_fail_beyond_the_host_limit() {
    let mut w = ByteCursor::new(Vec::new());
    w.set_position(u64::MAX - 1);
    assert_eq!(write_u8(&mut w, 0, 24), Err(Error::ShortWrite));
    assert_eq!(write_u16(&mut w, 0, 256), Err(Error::ShortWrite));
    assert_eq!(write_u32(&mut w, 0, 0x1_0000), Err(Error::ShortWrite));
    assert_eq!(write_u64(&mut w, 0, u64::MAX), Err(Error::ShortWrite));
    assert_eq!(write_tag(&mut w, 42), Err(Error::ShortWrite));
    w.set_position(u64::MAX);
    assert_eq!(write_null(&mut w), Err(Error::ShortWrite));
    assert_eq!(w.get_ref(), &Vec::<u8>::new());
}
