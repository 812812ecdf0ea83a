use sp_ipld::{ByteCursor, Error, SeekFrom};

#[test]
fn new_cursor_starts_at_zero() {
    let c = ByteCursor::new(vec![1, 2, 3]);
    assert_eq!(c.position(), 0);
    assert_eq!(c.get_ref(), &vec![1, 2, 3]);
    assert_eq!(c.into_inner(), vec![1, 2, 3]);
}

#[test]
fn read_copies_what_is_there() {
    let mut c = ByteCursor::new(vec![1, 2, 3]);
    let mut buf = [0u8; 2];
    assert_eq!(c.read(&mut buf), 2);
    assert_eq!(buf, [1, 2]);
    assert_eq!(c.position(), 2);
    let mut buf = [9u8; 4];
    assert_eq!(c.read(&mut buf), 1);
    assert_eq!(buf, [3, 9, 9, 9]);
    assert_eq!(c.position(), 3);
    assert_eq!(c.read(&mut buf), 0);
    assert_eq!(c.position(), 3);
}

#[test]
fn read_beyond_the_end_reads_nothing() {
    let mut c = ByteCursor::new(vec![1, 2, 3]);
    c.set_position(10);
    let mut buf = [7u8; 2];
    assert_eq!(c.read(&mut buf), 0);
    assert_eq!(buf, [7, 7]);
    assert_eq!(c.position(), 10);
}

#[test]
fn read_exact_fills_or_fails() {
    let mut c = ByteCursor::new(vec![1, 2, 3]);
    let mut buf = [0u8; 2];
    assert_eq!(c.read_exact(&mut buf), Ok(()));
    assert_eq!(buf, [1, 2]);
    assert_eq!(c.position(), 2);
    let mut buf = [5u8; 2];
    assert_eq!(c.read_exact(&mut buf), Err(Error::ShortRead));
    assert_eq!(buf, [5, 5]);
    assert_eq!(c.position(), 2);
    let mut one = [0u8; 1];
    assert_eq!(c.read_exact(&mut one), Ok(()));
    assert_eq!(one, [3]);
    let mut none: [u8; 0] = [];
    assert_eq!(c.read_exact(&mut none), Ok(()));
    assert_eq!(c.position(), 3);
}

#[test]
fn fill_buf_gives_the_rest() {
    let mut c = ByteCursor::new(vec![1, 2, 3]);
    c.set_position(1);
    assert_eq!(c.fill_buf(), &[2, 3]);
    c.set_position(7);
    assert_eq!(c.fill_buf(), &[] as &[u8]);
    assert_eq!(c.position(), 7);
}

#[test]
fn seek_from_start() {
    let mut c = ByteCursor::new(vec![1, 2, 3]);
    assert_eq!(c.seek(&SeekFrom::Start(2)), Ok(2));
    assert_eq!(c.position(), 2);
    assert_eq!(c.seek(&SeekFrom::Start(u64::MAX)), Ok(u64::MAX));
    assert_eq!(c.position(), u64::MAX);
}

#[test]
fn seek_from_end() {
    let mut c = ByteCursor::new(vec![1, 2, 3]);
    assert_eq!(c.seek(&SeekFrom::End(0)), Ok(3));
    assert_eq!(c.seek(&SeekFrom::End(-1)), Ok(2));
    assert_eq!(c.seek(&SeekFrom::End(-3)), Ok(0));
    assert_eq!(c.seek(&SeekFrom::End(5)), Ok(8));
    assert_eq!(c.position(), 8);
    assert_eq!(c.seek(&SeekFrom::End(-4)), Err(Error::InvalidSeek));
    assert_eq!(c.position(), 8);
    assert_eq!(c.seek(&SeekFrom::End(i64::MIN)), Err(Error::InvalidSeek));
}

#[test]
fn seek_from_current() {
    let mut c = ByteCursor::new(vec![1, 2, 3]);
    assert_eq!(c.seek(&SeekFrom::Current(2)), Ok(2));
    assert_eq!(c.seek(&SeekFrom::Current(-1)), Ok(1));
    assert_eq!(c.seek(&SeekFrom::Current(0)), Ok(1));
    assert_eq!(c.seek(&SeekFrom::Current(-2)), Err(Error::InvalidSeek));
    assert_eq!(c.position(), 1);
    c.set_position(u64::MAX);
    assert_eq!(c.seek(&SeekFrom::Current(1)), Err(Error::InvalidSeek));
    assert_eq!(c.position(), u64::MAX);
    assert_eq!(c.seek(&SeekFrom::Current(i64::MIN)), Ok(u64::MAX - (1u64 << 63)));
}

#[test]
fn write_extends_the_buffer() {
    let mut c = ByteCursor::new(Vec::new());
    assert_eq!(c.write(&[1, 2, 3]), Ok(3));
    assert_eq!(c.position(), 3);
    assert_eq!(c.get_ref(), &vec![1, 2, 3]);
}

#[test]
fn write_replaces_and_extends() {
    let mut c = ByteCursor::new(vec![1, 2, 3, 4]);
    c.set_position(1);
    assert_eq!(c.write(&[9, 8]), Ok(2));
    assert_eq!(c.get_ref(), &vec![1, 9, 8, 4]);
    assert_eq!(c.position(), 3);
    assert_eq!(c.write(&[7, 6, 5]), Ok(3));
    assert_eq!(c.get_ref(), &vec![1, 9, 8, 7, 6, 5]);
    assert_eq!(c.position(), 6);
}

#[test]
fn write_fills_the_gap_with_zeros() {
    let mut c = ByteCursor::new(vec![1]);
    c.set_position(3);
    assert_eq!(c.write(&[5]), Ok(1));
    assert_eq!(c.get_ref(), &vec![1, 0, 0, 5]);
    assert_eq!(c.position(), 4);
    let mut c = ByteCursor::new(vec![1]);
    c.set_position(2);
    assert_eq!(c.write(&[]), Ok(0));
    assert_eq!(c.get_ref(), &vec![1, 0]);
}

#[test]
fn write_beyond_the_host_limit_fails() {
    let mut c = ByteCursor::new(vec![1]);
    c.set_position(u64::MAX);
    assert_eq!(c.write(&[5]), Err(Error::ShortWrite));
    assert_eq!(c.get_ref(), &vec![1]);
    assert_eq!(c.position(), u64::MAX);
    assert_eq!(c.write_all(&[5]), Err(Error::ShortWrite));
    assert_eq!(c.get_ref(), &vec![1]);
}

#[test]
fn write_all_of_nothing_changes_nothing() {
    let mut c = ByteCursor::new(vec![1]);
    c.set_position(4);
    assert_eq!(c.write_all(&[]), Ok(()));
    assert_eq!(c.get_ref(), &vec![1]);
    assert_eq!(c.position(), 4);
    assert_eq!(c.write_all(&[2, 3]), Ok(()));
    assert_eq!(c.get_ref(), &vec![1, 0, 0, 0, 2, 3]);
}

#[test]
fn get_mut_changes_the_buffer() {
    let mut c = ByteCursor::new(vec![1, 2]);
    c.set_position(1);
    c.get_mut().push(3);
    assert_eq!(c.get_ref(), &vec![1, 2, 3]);
    assert_eq!(c.position(), 1);
}

#[test]
fn error_messages() {
    assert_eq!(Error::ShortRead.message(), "failed to fill whole buffer");
    assert_eq!(Error::ShortWrite.message(), "failed to write whole buffer");
    assert_eq!(
        Error::InvalidSeek.message(),
        "invalid seek to a negative or overflowing position"
    );
    assert_eq!(Error::InvalidUtf8.message(), "invalid UTF-8 in text string");
    assert_eq!(Error::UnexpectedCode(0x1c).message(), "unexpected cbor code");
    assert_eq!(Error::UnexpectedTag(7).message(), "unknown cbor tag");
    assert_eq!(Error::InvalidLink.message(), "invalid link");
    assert_eq!(Error::LengthOverflow.message(), "length out of range");
    assert_eq!(Error::IntegerOutOfRange.message(), "integer out of range");
    assert_eq!(Error::UnsupportedCodec(5).message(), "unsupported codec");
}
