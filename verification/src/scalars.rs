//! Typed scalars: integers of a fixed width, booleans, floats by their bits,
//! byte strings and content identifiers, written and read without the data
//! model between.

use vstd::prelude::*;
use crate::codec::{DagCborCodec, Decode, Encode};
use crate::cursor::{ByteCursor, CursorView};
use crate::decode::read_link;
use crate::encode::{single_encoding, write_double, write_single};
use crate::error::Error;
use crate::float::{widen, widen_bits};
use crate::framing::{
    head, lemma_length, lemma_uint, length, read_bytes, read_f32, read_f64, read_len, read_u16,
    read_u32, read_u64, read_u8, uint, write_u16, write_u32, write_u64, write_u8,
};
use crate::link::Cid;
use crate::wire::{float_encoding, link, Emitted};

verus! {

/// What is read as an unsigned integer of at most `widest` trailing bytes:
/// the additional information up to 23, or the number in the 1, 2, 4 or 8
/// bytes that follow. An initial byte that announces more bytes than
/// `widest` is not accepted.
pub open spec fn parse_uint(c: CursorView, widest: nat) -> Result<(nat, CursorView), Error> {
    match uint(c, 1) {
        Err(e) => Err(e),
        Ok((b, c1)) => if b <= 0x17 {
            Ok((b, c1))
        } else if b == 0x18 && 1 <= widest {
            uint(c1, 1)
        } else if b == 0x19 && 2 <= widest {
            uint(c1, 2)
        } else if b == 0x1a && 4 <= widest {
            uint(c1, 4)
        } else if b == 0x1b && 8 <= widest {
            uint(c1, 8)
        } else {
            Err(Error::UnexpectedCode(b as u8))
        },
    }
}

/// What is read as the magnitude of a negative integer of at most `widest`
/// trailing bytes.
pub open spec fn parse_magnitude(c: CursorView, widest: nat) -> Result<(nat, CursorView), Error> {
    match uint(c, 1) {
        Err(e) => Err(e),
        Ok((b, c1)) => if 0x20 <= b <= 0x37 {
            Ok(((b - 0x20) as nat, c1))
        } else if b == 0x38 && 1 <= widest {
            uint(c1, 1)
        } else if b == 0x39 && 2 <= widest {
            uint(c1, 2)
        } else if b == 0x3a && 4 <= widest {
            uint(c1, 4)
        } else if b == 0x3b && 8 <= widest {
            uint(c1, 8)
        } else {
            Err(Error::UnexpectedCode(b as u8))
        },
    }
}

impl Encode<DagCborCodec> for u8 {
    open spec fn emitted(&self) -> Emitted {
        Emitted::done(head(0, *self as nat))
    }

    /// Writes the integer in the least width.
    fn encode(&self, _c: DagCborCodec, w: &mut ByteCursor) -> (r: Result<(), Error>) {
        write_u8(w, 0, *self)
    }
}

impl Encode<DagCborCodec> for u16 {
    open spec fn emitted(&self) -> Emitted {
        Emitted::done(head(0, *self as nat))
    }

    /// Writes the integer in the least width.
    fn encode(&self, _c: DagCborCodec, w: &mut ByteCursor) -> (r: Result<(), Error>) {
        write_u16(w, 0, *self)
    }
}

impl Encode<DagCborCodec> for u32 {
    open spec fn emitted(&self) -> Emitted {
        Emitted::done(head(0, *self as nat))
    }

    /// Writes the integer in the least width.
    fn encode(&self, _c: DagCborCodec, w: &mut ByteCursor) -> (r: Result<(), Error>) {
        write_u32(w, 0, *self)
    }
}

impl Encode<DagCborCodec> for u64 {
    open spec fn emitted(&self) -> Emitted {
        Emitted::done(head(0, *self as nat))
    }

    /// Writes the integer in the least width.
    fn encode(&self, _c: DagCborCodec, w: &mut ByteCursor) -> (r: Result<(), Error>) {
        write_u64(w, 0, *self)
    }
}

impl Encode<DagCborCodec> for i8 {
    open spec fn emitted(&self) -> Emitted {
        Emitted::done(head(1, ((-(*self + 1)) as u8) as nat))
    }

    /// Writes the integer as a negative one: major type 1 and the magnitude
    /// `-(n + 1)`, which wraps around the width where `n` is not negative.
    fn encode(&self, _c: DagCborCodec, w: &mut ByteCursor) -> (r: Result<(), Error>) {
        let magnitude: u8 = #[verifier::truncate]
        ((-(*self as i16 + 1)) as u8);
        write_u8(w, 1, magnitude)
    }
}

impl Encode<DagCborCodec> for i16 {
    open spec fn emitted(&self) -> Emitted {
        Emitted::done(head(1, ((-(*self + 1)) as u16) as nat))
    }

    /// Writes the integer as a negative one: major type 1 and the magnitude
    /// `-(n + 1)`, which wraps around the width where `n` is not negative.
    fn encode(&self, _c: DagCborCodec, w: &mut ByteCursor) -> (r: Result<(), Error>) {
        let magnitude: u16 = #[verifier::truncate]
        ((-(*self as i32 + 1)) as u16);
        write_u16(w, 1, magnitude)
    }
}

impl Encode<DagCborCodec> for i32 {
    open spec fn emitted(&self) -> Emitted {
        Emitted::done(head(1, ((-(*self + 1)) as u32) as nat))
    }

    /// Writes the integer as a negative one: major type 1 and the magnitude
    /// `-(n + 1)`, which wraps around the width where `n` is not negative.
    fn encode(&self, _c: DagCborCodec, w: &mut ByteCursor) -> (r: Result<(), Error>) {
        let magnitude: u32 = #[verifier::truncate]
        ((-(*self as i64 + 1)) as u32);
        write_u32(w, 1, magnitude)
    }
}

impl Encode<DagCborCodec> for i64 {
    open spec fn emitted(&self) -> Emitted {
        Emitted::done(head(1, ((-(*self + 1)) as u64) as nat))
    }

    /// Writes the integer as a negative one: major type 1 and the magnitude
    /// `-(n + 1)`, which wraps around the width where `n` is not negative.
    fn encode(&self, _c: DagCborCodec, w: &mut ByteCursor) -> (r: Result<(), Error>) {
        let magnitude: u64 = #[verifier::truncate]
        ((-(*self as i128 + 1)) as u64);
        write_u64(w, 1, magnitude)
    }
}

impl Decode<DagCborCodec> for bool {
    open spec fn parsed(c: CursorView) -> Result<(bool, CursorView), Error> {
        match uint(c, 1) {
            Err(e) => Err(e),
            Ok((b, c1)) => if b == 0xf4 {
                Ok((false, c1))
            } else if b == 0xf5 {
                Ok((true, c1))
            } else {
                Err(Error::UnexpectedCode(b as u8))
            },
        }
    }

    /// Reads `f4` as false and `f5` as true.
    fn decode(_c: DagCborCodec, r: &mut ByteCursor) -> (res: Result<Self, Error>) {
        proof {
            lemma_uint(r@, 1);
        }
        let major = read_u8(r)?;
        match major {
            0xf4 => Ok(false),
            0xf5 => Ok(true),
            _ => Err(Error::UnexpectedCode(major)),
        }
    }
}

impl Decode<DagCborCodec> for u8 {
    open spec fn parsed(c: CursorView) -> Result<(u8, CursorView), Error> {
        match parse_uint(c, 1) {
            Ok((n, after)) => Ok((n as u8, after)),
            Err(e) => Err(e),
        }
    }

    /// Reads an integer of at most one trailing byte.
    fn decode(_c: DagCborCodec, r: &mut ByteCursor) -> (res: Result<Self, Error>) {
        proof {
            lemma_uint(r@, 1);
        }
        let major = read_u8(r)?;
        proof {
            lemma_uint(r@, 1);
        }
        match major {
            0x00..=0x17 => Ok(major),
            0x18 => read_u8(r),
            _ => Err(Error::UnexpectedCode(major)),
        }
    }
}

impl Decode<DagCborCodec> for u16 {
    open spec fn parsed(c: CursorView) -> Result<(u16, CursorView), Error> {
        match parse_uint(c, 2) {
            Ok((n, after)) => Ok((n as u16, after)),
            Err(e) => Err(e),
        }
    }

    /// Reads an integer of at most two trailing bytes.
    fn decode(_c: DagCborCodec, r: &mut ByteCursor) -> (res: Result<Self, Error>) {
        proof {
            lemma_uint(r@, 1);
        }
        let major = read_u8(r)?;
        proof {
            lemma_uint(r@, 1);
            lemma_uint(r@, 2);
        }
        match major {
            0x00..=0x17 => Ok(major as u16),
            0x18 => Ok(read_u8(r)? as u16),
            0x19 => read_u16(r),
            _ => Err(Error::UnexpectedCode(major)),
        }
    }
}

impl Decode<DagCborCodec> for u32 {
    open spec fn parsed(c: CursorView) -> Result<(u32, CursorView), Error> {
        match parse_uint(c, 4) {
            Ok((n, after)) => Ok((n as u32, after)),
            Err(e) => Err(e),
        }
    }

    /// Reads an integer of at most four trailing bytes.
    fn decode(_c: DagCborCodec, r: &mut ByteCursor) -> (res: Result<Self, Error>) {
        proof {
            lemma_uint(r@, 1);
        }
        let major = read_u8(r)?;
        proof {
            lemma_uint(r@, 1);
            lemma_uint(r@, 2);
            lemma_uint(r@, 4);
        }
        match major {
            0x00..=0x17 => Ok(major as u32),
            0x18 => Ok(read_u8(r)? as u32),
            0x19 => Ok(read_u16(r)? as u32),
            0x1a => read_u32(r),
            _ => Err(Error::UnexpectedCode(major)),
        }
    }
}

impl Decode<DagCborCodec> for u64 {
    open spec fn parsed(c: CursorView) -> Result<(u64, CursorView), Error> {
        match parse_uint(c, 8) {
            Ok((n, after)) => Ok((n as u64, after)),
            Err(e) => Err(e),
        }
    }

    /// Reads an integer of at most eight trailing bytes.
    fn decode(_c: DagCborCodec, r: &mut ByteCursor) -> (res: Result<Self, Error>) {
        proof {
            lemma_uint(r@, 1);
        }
        let major = read_u8(r)?;
        proof {
            lemma_uint(r@, 1);
            lemma_uint(r@, 2);
            lemma_uint(r@, 4);
            lemma_uint(r@, 8);
        }
        match major {
            0x00..=0x17 => Ok(major as u64),
            0x18 => Ok(read_u8(r)? as u64),
            0x19 => Ok(read_u16(r)? as u64),
            0x1a => Ok(read_u32(r)? as u64),
            0x1b => read_u64(r),
            _ => Err(Error::UnexpectedCode(major)),
        }
    }
}

impl Decode<DagCborCodec> for i8 {
    open spec fn parsed(c: CursorView) -> Result<(i8, CursorView), Error> {
        match parse_magnitude(c, 1) {
            Ok((n, after)) => Ok(((-1 - ((n as u8) as i8)) as i8, after)),
            Err(e) => Err(e),
        }
    }

    /// Reads a negative integer of at most one trailing byte: `-1 - n` for
    /// the magnitude `n`, taken in the width of the type.
    fn decode(_c: DagCborCodec, r: &mut ByteCursor) -> (res: Result<Self, Error>) {
        proof {
            lemma_uint(r@, 1);
        }
        let major = read_u8(r)?;
        proof {
            lemma_uint(r@, 1);
        }
        let magnitude: u8 = match major {
            0x20..=0x37 => major - 0x20,
            0x38 => read_u8(r)?,
            _ => {
                return Err(Error::UnexpectedCode(major));
            },
        };
        let low: i8 = #[verifier::truncate]
        (magnitude as i8);
        Ok(-1 - low)
    }
}

impl Decode<DagCborCodec> for i16 {
    open spec fn parsed(c: CursorView) -> Result<(i16, CursorView), Error> {
        match parse_magnitude(c, 2) {
            Ok((n, after)) => Ok(((-1 - ((n as u16) as i16)) as i16, after)),
            Err(e) => Err(e),
        }
    }

    /// Reads a negative integer of at most two trailing bytes: `-1 - n` for
    /// the magnitude `n`, taken in the width of the type.
    fn decode(_c: DagCborCodec, r: &mut ByteCursor) -> (res: Result<Self, Error>) {
        proof {
            lemma_uint(r@, 1);
        }
        let major = read_u8(r)?;
        proof {
            lemma_uint(r@, 1);
            lemma_uint(r@, 2);
        }
        let magnitude: u16 = match major {
            0x20..=0x37 => (major - 0x20) as u16,
            0x38 => read_u8(r)? as u16,
            0x39 => read_u16(r)?,
            _ => {
                return Err(Error::UnexpectedCode(major));
            },
        };
        let low: i16 = #[verifier::truncate]
        (magnitude as i16);
        Ok(-1 - low)
    }
}

impl Decode<DagCborCodec> for i32 {
    open spec fn parsed(c: CursorView) -> Result<(i32, CursorView), Error> {
        match parse_magnitude(c, 4) {
            Ok((n, after)) => Ok(((-1 - ((n as u32) as i32)) as i32, after)),
            Err(e) => Err(e),
        }
    }

    /// Reads a negative integer of at most four trailing bytes: `-1 - n` for
    /// the magnitude `n`, taken in the width of the type.
    fn decode(_c: DagCborCodec, r: &mut ByteCursor) -> (res: Result<Self, Error>) {
        proof {
            lemma_uint(r@, 1);
        }
        let major = read_u8(r)?;
        proof {
            lemma_uint(r@, 1);
            lemma_uint(r@, 2);
            lemma_uint(r@, 4);
        }
        let magnitude: u32 = match major {
            0x20..=0x37 => (major - 0x20) as u32,
            0x38 => read_u8(r)? as u32,
            0x39 => read_u16(r)? as u32,
            0x3a => read_u32(r)?,
            _ => {
                return Err(Error::UnexpectedCode(major));
            },
        };
        let low: i32 = #[verifier::truncate]
        (magnitude as i32);
        Ok(-1 - low)
    }
}

impl Decode<DagCborCodec> for i64 {
    open spec fn parsed(c: CursorView) -> Result<(i64, CursorView), Error> {
        match parse_magnitude(c, 8) {
            Ok((n, after)) => Ok(((-1 - ((n as u64) as i64)) as i64, after)),
            Err(e) => Err(e),
        }
    }

    /// Reads a negative integer of at most eight trailing bytes: `-1 - n`
    /// for the magnitude `n`, taken in the width of the type.
    fn decode(_c: DagCborCodec, r: &mut ByteCursor) -> (res: Result<Self, Error>) {
        proof {
            lemma_uint(r@, 1);
        }
        let major = read_u8(r)?;
        proof {
            lemma_uint(r@, 1);
            lemma_uint(r@, 2);
            lemma_uint(r@, 4);
            lemma_uint(r@, 8);
        }
        let magnitude: u64 = match major {
            0x20..=0x37 => (major - 0x20) as u64,
            0x38 => read_u8(r)? as u64,
            0x39 => read_u16(r)? as u64,
            0x3a => read_u32(r)? as u64,
            0x3b => read_u64(r)?,
            _ => {
                return Err(Error::UnexpectedCode(major));
            },
        };
        let low: i64 = #[verifier::truncate]
        (magnitude as i64);
        Ok(-1 - low)
    }
}

/// A single-precision float, held by its bits.
#[derive(Clone, Copy, Debug, PartialEq, Eq, Structural)]
pub struct F32(pub u32);

/// A double-precision float, held by its bits.
#[derive(Clone, Copy, Debug, PartialEq, Eq, Structural)]
pub struct F64(pub u64);

impl DeepView for F32 {
    type V = u32;

    open spec fn deep_view(&self) -> u32 {
        self.0
    }
}

impl DeepView for F64 {
    type V = u64;

    open spec fn deep_view(&self) -> u64 {
        self.0
    }
}

impl Encode<DagCborCodec> for F32 {
    open spec fn emitted(&self) -> Emitted {
        Emitted::done(single_encoding(self.0))
    }

    /// Writes the float in five bytes.
    fn encode(&self, _c: DagCborCodec, w: &mut ByteCursor) -> (r: Result<(), Error>) {
        write_single(w, self.0)
    }
}

impl Encode<DagCborCodec> for F64 {
    open spec fn emitted(&self) -> Emitted {
        Emitted::done(float_encoding(self.0))
    }

    /// Writes the float in five bytes where a single has its value, else in
    /// nine.
    fn encode(&self, _c: DagCborCodec, w: &mut ByteCursor) -> (r: Result<(), Error>) {
        write_double(w, self.0)
    }
}

impl Decode<DagCborCodec> for F32 {
    open spec fn parsed(c: CursorView) -> Result<(u32, CursorView), Error> {
        match uint(c, 1) {
            Err(e) => Err(e),
            Ok((b, c1)) => if b == 0xfa {
                match uint(c1, 4) {
                    Ok((n, after)) => Ok((n as u32, after)),
                    Err(e) => Err(e),
                }
            } else {
                Err(Error::UnexpectedCode(b as u8))
            },
        }
    }

    /// Reads a float of four bytes.
    fn decode(_c: DagCborCodec, r: &mut ByteCursor) -> (res: Result<Self, Error>) {
        proof {
            lemma_uint(r@, 1);
        }
        let major = read_u8(r)?;
        proof {
            lemma_uint(r@, 4);
        }
        match major {
            0xfa => Ok(F32(read_f32(r)?)),
            _ => Err(Error::UnexpectedCode(major)),
        }
    }
}

impl Decode<DagCborCodec> for F64 {
    open spec fn parsed(c: CursorView) -> Result<(u64, CursorView), Error> {
        match uint(c, 1) {
            Err(e) => Err(e),
            Ok((b, c1)) => if b == 0xfa {
                match uint(c1, 4) {
                    Ok((n, after)) => Ok((widen(n as u32), after)),
                    Err(e) => Err(e),
                }
            } else if b == 0xfb {
                match uint(c1, 8) {
                    Ok((n, after)) => Ok((n as u64, after)),
                    Err(e) => Err(e),
                }
            } else {
                Err(Error::UnexpectedCode(b as u8))
            },
        }
    }

    /// Reads a float of four or eight bytes.
    fn decode(_c: DagCborCodec, r: &mut ByteCursor) -> (res: Result<Self, Error>) {
        proof {
            lemma_uint(r@, 1);
        }
        let major = read_u8(r)?;
        proof {
            lemma_uint(r@, 4);
            lemma_uint(r@, 8);
        }
        match major {
            0xfa => Ok(F64(widen_bits(read_f32(r)?))),
            0xfb => Ok(F64(read_f64(r)?)),
            _ => Err(Error::UnexpectedCode(major)),
        }
    }
}

/// Calls `Vec::into_boxed_slice`, which hands the items of the vector over
/// as a boxed slice.
#[verifier::external_body]
fn into_boxed(bytes: Vec<u8>) -> (boxed: Box<[u8]>)
    ensures
        boxed@ == bytes@,
{
    bytes.into_boxed_slice()
}

impl Encode<DagCborCodec> for Box<[u8]> {
    open spec fn emitted(&self) -> Emitted {
        Emitted::done(crate::wire::bytes_encoding(self@))
    }

    /// Writes a byte string.
    fn encode(&self, c: DagCborCodec, w: &mut ByteCursor) -> (r: Result<(), Error>) {
        let bytes: &[u8] = &**self;
        bytes.encode(c, w)
    }
}

impl Decode<DagCborCodec> for Box<[u8]> {
    open spec fn parsed(c: CursorView) -> Result<(Seq<u8>, CursorView), Error> {
        match uint(c, 1) {
            Err(e) => Err(e),
            Ok((b, c1)) => if 0x40 <= b <= 0x5b {
                match length(c1, (b - 0x40) as u8) {
                    Err(e) => Err(e),
                    Ok((n, c2)) => c2.take(n),
                }
            } else {
                Err(Error::UnexpectedCode(b as u8))
            },
        }
    }

    /// Reads a byte string.
    fn decode(_c: DagCborCodec, r: &mut ByteCursor) -> (res: Result<Self, Error>) {
        proof {
            lemma_uint(r@, 1);
        }
        let major = read_u8(r)?;
        match major {
            0x40..=0x5b => {
                proof {
                    lemma_length(r@, (major - 0x40) as u8);
                }
                let len = read_len(r, major - 0x40)?;
                let bytes = read_bytes(r, len)?;
                let boxed = into_boxed(bytes);
                assert(boxed.deep_view() =~= boxed@);
                Ok(boxed)
            },
            _ => Err(Error::UnexpectedCode(major)),
        }
    }
}

impl Decode<DagCborCodec> for Cid {
    open spec fn parsed(c: CursorView) -> Result<(Seq<u8>, CursorView), Error> {
        match uint(c, 1) {
            Err(e) => Err(e),
            Ok((b, c1)) => if b == 0xd8 && uint(c1, 1) is Ok && uint(c1, 1).unwrap().0 == 42 {
                link(uint(c1, 1).unwrap().1)
            } else {
                Err(Error::UnexpectedCode(b as u8))
            },
        }
    }

    /// Reads a link: tag 42 and what `read_link` reads behind it.
    fn decode(_c: DagCborCodec, r: &mut ByteCursor) -> (res: Result<Self, Error>) {
        proof {
            lemma_uint(r@, 1);
        }
        let major = read_u8(r)?;
        if major == 0xd8 {
            proof {
                lemma_uint(r@, 1);
            }
            if let Ok(tag) = read_u8(r) {
                if tag == 42 {
                    return read_link(r);
                }
            }
        }
        Err(Error::UnexpectedCode(major))
    }
}

} // verus!
