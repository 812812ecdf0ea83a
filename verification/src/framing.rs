//! Framing: fixed-width reads, lengths, and integers written in the least
//! width behind an initial byte.

use vstd::prelude::*;
use vstd::slice::{slice_subrange, slice_to_vec};
use vstd::utf8::{decode_utf8, valid_utf8};
use crate::bytes::{
    be_bytes, be_read_u16, be_read_u32, be_read_u64, be_value, be_write_u16, be_write_u32,
    be_write_u64, lemma_be_bytes_len, lemma_be_value_bound, lemma_spans,
};
use crate::cursor::{wrote, ByteCursor, CursorView};
use crate::error::Error;

verus! {

/// The number that the next `width` bytes hold in big-endian order, and the
/// cursor behind them.
pub open spec fn uint(c: CursorView, width: nat) -> Result<(nat, CursorView), Error> {
    match c.take(width) {
        Ok((bytes, after)) => Ok((be_value(bytes), after)),
        Err(e) => Err(e),
    }
}

/// The length that the additional information `info` of an initial byte
/// stands for: `info` itself up to 23, else the number in the 1, 2, 4 or 8
/// bytes that follow, which must be one that the host can address.
pub open spec fn length(c: CursorView, info: u8) -> Result<(nat, CursorView), Error> {
    if info <= 0x17 {
        Ok((info as nat, c))
    } else if info == 0x18 {
        uint(c, 1)
    } else if info == 0x19 {
        uint(c, 2)
    } else if info == 0x1a {
        uint(c, 4)
    } else if info == 0x1b {
        match uint(c, 8) {
            Ok((n, after)) => if n > usize::MAX {
                Err(Error::LengthOverflow)
            } else {
                Ok((n, after))
            },
            Err(e) => Err(e),
        }
    } else {
        Err(Error::UnexpectedCode(info))
    }
}

/// The text that the next `n` bytes hold in UTF-8, and the cursor behind them.
pub open spec fn text(c: CursorView, n: nat) -> Result<(Seq<char>, CursorView), Error> {
    match c.take(n) {
        Ok((bytes, after)) => if valid_utf8(bytes) {
            Ok((decode_utf8(bytes), after))
        } else {
            Err(Error::InvalidUtf8)
        },
        Err(e) => Err(e),
    }
}

/// What is read as a number of `width` bytes fits that many bytes, and the
/// cursor behind it has come no nearer to the start.
pub proof fn lemma_uint(c: CursorView, width: nat)
    ensures
        uint(c, width) matches Ok((v, after)) ==> {
            &&& (width == 1 ==> v <= 0xff)
            &&& (width == 2 ==> v <= 0xffff)
            &&& (width == 4 ==> v <= 0xffff_ffff)
            &&& (width == 8 ==> v <= 0xffff_ffff_ffff_ffff)
            &&& after.bytes == c.bytes
            &&& after.remaining() + width == c.remaining()
        },
{
    lemma_spans();
    if width <= c.remaining() {
        lemma_be_value_bound(c.peek(width));
    }
}

/// A length is read without going back.
pub proof fn lemma_length(c: CursorView, info: u8)
    ensures
        length(c, info) matches Ok((n, after)) ==> {
            &&& n <= usize::MAX
            &&& after.bytes == c.bytes
            &&& after.remaining() <= c.remaining()
        },
{
    lemma_uint(c, 1);
    lemma_uint(c, 2);
    lemma_uint(c, 4);
    lemma_uint(c, 8);
}

/// The initial byte for a major type and its additional information.
pub open spec fn initial(major: u8, info: u8) -> u8 {
    major << 5 | info
}

/// The number of bytes that follow the initial byte when `value` is written
/// in the least width: none up to 23, then 1, 2, 4 or 8.
pub open spec fn width(value: nat) -> nat {
    if value <= 0x17 {
        0
    } else if value <= 0xff {
        1
    } else if value <= 0xffff {
        2
    } else if value <= 0xffff_ffff {
        4
    } else {
        8
    }
}

/// The additional information that goes with a width.
pub open spec fn info(value: nat) -> u8 {
    if value <= 0x17 {
        value as u8
    } else if value <= 0xff {
        24
    } else if value <= 0xffff {
        25
    } else if value <= 0xffff_ffff {
        26
    } else {
        27
    }
}

/// A major type and a magnitude in the least width: the initial byte, then
/// the magnitude in big-endian order where it does not fit the initial byte.
pub open spec fn head(major: u8, value: nat) -> Seq<u8> {
    seq![initial(major, info(value))] + be_bytes(value, width(value))
}

/// Reads one byte.
pub fn read_u8(r: &mut ByteCursor) -> (res: Result<u8, Error>)
    ensures
        match uint(old(r)@, 1) {
            Ok((v, after)) => res == Ok::<u8, Error>(v as u8) && final(r)@ == after,
            Err(e) => res == Err::<u8, Error>(e) && final(r)@ == old(r)@,
        },
{
    let mut buf: [u8; 1] = [0];
    r.read_exact(&mut buf)?;
    proof {
        reveal_with_fuel(be_value, 2);
        assert(buf@.drop_last().len() == 0);
    }
    Ok(buf[0])
}

/// Reads two bytes as a number in big-endian order.
pub fn read_u16(r: &mut ByteCursor) -> (res: Result<u16, Error>)
    ensures
        match uint(old(r)@, 2) {
            Ok((v, after)) => res == Ok::<u16, Error>(v as u16) && final(r)@ == after,
            Err(e) => res == Err::<u16, Error>(e) && final(r)@ == old(r)@,
        },
{
    let mut buf: [u8; 2] = [0, 0];
    r.read_exact(&mut buf)?;
    assert(buf@.subrange(0, 2) =~= buf@);
    Ok(be_read_u16(&buf))
}

/// Reads four bytes as a number in big-endian order.
pub fn read_u32(r: &mut ByteCursor) -> (res: Result<u32, Error>)
    ensures
        match uint(old(r)@, 4) {
            Ok((v, after)) => res == Ok::<u32, Error>(v as u32) && final(r)@ == after,
            Err(e) => res == Err::<u32, Error>(e) && final(r)@ == old(r)@,
        },
{
    let mut buf: [u8; 4] = [0, 0, 0, 0];
    r.read_exact(&mut buf)?;
    assert(buf@.subrange(0, 4) =~= buf@);
    Ok(be_read_u32(&buf))
}

/// Reads eight bytes as a number in big-endian order.
pub fn read_u64(r: &mut ByteCursor) -> (res: Result<u64, Error>)
    ensures
        match uint(old(r)@, 8) {
            Ok((v, after)) => res == Ok::<u64, Error>(v as u64) && final(r)@ == after,
            Err(e) => res == Err::<u64, Error>(e) && final(r)@ == old(r)@,
        },
{
    let mut buf: [u8; 8] = [0, 0, 0, 0, 0, 0, 0, 0];
    r.read_exact(&mut buf)?;
    assert(buf@.subrange(0, 8) =~= buf@);
    Ok(be_read_u64(&buf))
}

/// Reads the four bytes of a single-precision float and returns its bits.
pub fn read_f32(r: &mut ByteCursor) -> (res: Result<u32, Error>)
    ensures
        match uint(old(r)@, 4) {
            Ok((v, after)) => res == Ok::<u32, Error>(v as u32) && final(r)@ == after,
            Err(e) => res == Err::<u32, Error>(e) && final(r)@ == old(r)@,
        },
{
    read_u32(r)
}

/// Reads the eight bytes of a double-precision float and returns its bits.
pub fn read_f64(r: &mut ByteCursor) -> (res: Result<u64, Error>)
    ensures
        match uint(old(r)@, 8) {
            Ok((v, after)) => res == Ok::<u64, Error>(v as u64) && final(r)@ == after,
            Err(e) => res == Err::<u64, Error>(e) && final(r)@ == old(r)@,
        },
{
    read_u64(r)
}

/// Reads `len` bytes.
pub fn read_bytes(r: &mut ByteCursor, len: usize) -> (res: Result<Vec<u8>, Error>)
    ensures
        match old(r)@.take(len as nat) {
            Ok((bytes, after)) => res is Ok && res.unwrap()@ == bytes && final(r)@ == after,
            Err(e) => res == Err::<Vec<u8>, Error>(e) && final(r)@ == old(r)@,
        },
{
    proof {
        r.lemma_bounds();
    }
    let pos = r.position();
    let rest = r.fill_buf();
    if len > rest.len() {
        return Err(Error::ShortRead);
    }
    let bytes = slice_to_vec(slice_subrange(rest, 0, len));
    if len > 0 {
        r.set_position(pos + len as u64);
    }
    Ok(bytes)
}

/// Calls `String::from_utf8`, which returns the string that the bytes hold in
/// UTF-8, and an error where they are not UTF-8.
#[verifier::external_body]
fn string_from_utf8(bytes: Vec<u8>) -> (res: Option<String>)
    ensures
        res is Some <==> valid_utf8(bytes@),
        res matches Some(s) ==> s@ == decode_utf8(bytes@),
{
    String::from_utf8(bytes).ok()
}

/// Reads `len` bytes as text in UTF-8.
pub fn read_str(r: &mut ByteCursor, len: usize) -> (res: Result<String, Error>)
    ensures
        final(r)@.bytes == old(r)@.bytes,
        match text(old(r)@, len as nat) {
            Ok((s, after)) => res is Ok && res.unwrap()@ == s && final(r)@ == after,
            Err(e) => res == Err::<String, Error>(e),
        },
{
    let bytes = read_bytes(r, len)?;
    match string_from_utf8(bytes) {
        Some(s) => Ok(s),
        None => Err(Error::InvalidUtf8),
    }
}

/// Reads the length that goes with the additional information `major`.
pub fn read_len(r: &mut ByteCursor, major: u8) -> (res: Result<usize, Error>)
    ensures
        final(r)@.bytes == old(r)@.bytes,
        match length(old(r)@, major) {
            Ok((n, after)) => res == Ok::<usize, Error>(n as usize) && final(r)@ == after,
            Err(e) => res == Err::<usize, Error>(e),
        },
{
    proof {
        lemma_spans();
        if old(r)@.remaining() >= 8 {
            lemma_be_value_bound(old(r)@.peek(8));
        }
        if old(r)@.remaining() >= 4 {
            lemma_be_value_bound(old(r)@.peek(4));
        }
        if old(r)@.remaining() >= 2 {
            lemma_be_value_bound(old(r)@.peek(2));
        }
        if old(r)@.remaining() >= 1 {
            lemma_be_value_bound(old(r)@.peek(1));
        }
    }
    if major <= 0x17 {
        Ok(major as usize)
    } else if major == 0x18 {
        Ok(read_u8(r)? as usize)
    } else if major == 0x19 {
        Ok(read_u16(r)? as usize)
    } else if major == 0x1a {
        Ok(read_u32(r)? as usize)
    } else if major == 0x1b {
        let len = read_u64(r)?;
        if len > usize::MAX as u64 {
            return Err(Error::LengthOverflow);
        }
        Ok(len as usize)
    } else {
        Err(Error::UnexpectedCode(major))
    }
}

/// Writes the null value.
pub fn write_null(w: &mut ByteCursor) -> (r: Result<(), Error>)
    ensures
        wrote(old(w)@, seq![0xf6u8], r, final(w)@),
{
    let buf: [u8; 1] = [0xf6];
    assert(buf@ =~= seq![0xf6u8]);
    w.write_all(&buf)
}

/// Writes a major type and a magnitude of up to 8 bits in the least width.
pub fn write_u8(w: &mut ByteCursor, major: u8, value: u8) -> (r: Result<(), Error>)
    ensures
        wrote(old(w)@, head(major, value as nat), r, final(w)@),
{
    proof {
        reveal_with_fuel(be_bytes, 2);
    }
    if value <= 0x17 {
        let buf: [u8; 1] = [major << 5 | value];
        assert(buf@ =~= head(major, value as nat));
        w.write_all(&buf)
    } else {
        let buf: [u8; 2] = [major << 5 | 24, value];
        assert(buf@ =~= head(major, value as nat));
        w.write_all(&buf)
    }
}

/// Writes a major type and a magnitude of up to 16 bits in the least width.
pub fn write_u16(w: &mut ByteCursor, major: u8, value: u16) -> (r: Result<(), Error>)
    ensures
        wrote(old(w)@, head(major, value as nat), r, final(w)@),
{
    if value <= 0xff {
        write_u8(w, major, value as u8)
    } else {
        let mut tail: [u8; 2] = [0, 0];
        be_write_u16(&mut tail, value);
        let buf: [u8; 3] = [major << 5 | 25, tail[0], tail[1]];
        proof {
            lemma_be_bytes_len(value as nat, 2);
            assert(buf@ =~= head(major, value as nat));
        }
        w.write_all(&buf)
    }
}

/// Writes a major type and a magnitude of up to 32 bits in the least width.
pub fn write_u32(w: &mut ByteCursor, major: u8, value: u32) -> (r: Result<(), Error>)
    ensures
        wrote(old(w)@, head(major, value as nat), r, final(w)@),
{
    if value <= 0xffff {
        write_u16(w, major, value as u16)
    } else {
        let mut tail: [u8; 4] = [0, 0, 0, 0];
        be_write_u32(&mut tail, value);
        let buf: [u8; 5] = [major << 5 | 26, tail[0], tail[1], tail[2], tail[3]];
        proof {
            lemma_be_bytes_len(value as nat, 4);
            assert(buf@ =~= head(major, value as nat));
        }
        w.write_all(&buf)
    }
}

/// Writes a major type and a magnitude of up to 64 bits in the least width.
pub fn write_u64(w: &mut ByteCursor, major: u8, value: u64) -> (r: Result<(), Error>)
    ensures
        wrote(old(w)@, head(major, value as nat), r, final(w)@),
{
    if value <= 0xffff_ffff {
        write_u32(w, major, value as u32)
    } else {
        let mut tail: [u8; 8] = [0, 0, 0, 0, 0, 0, 0, 0];
        be_write_u64(&mut tail, value);
        let buf: [u8; 9] = [
            major << 5 | 27,
            tail[0],
            tail[1],
            tail[2],
            tail[3],
            tail[4],
            tail[5],
            tail[6],
            tail[7],
        ];
        proof {
            lemma_be_bytes_len(value as nat, 8);
            assert(buf@ =~= head(major, value as nat));
        }
        w.write_all(&buf)
    }
}

/// Writes a tag: major type 6 and the number of the tag.
pub fn write_tag(w: &mut ByteCursor, tag: u64) -> (r: Result<(), Error>)
    ensures
        wrote(old(w)@, head(6, tag as nat), r, final(w)@),
{
    write_u64(w, 6, tag)
}

} // verus!
