//! Codecs, and the traits by which a type takes part in one.

use vstd::prelude::*;
use crate::cursor::{ByteCursor, CursorView};
use crate::error::{Error, UnsupportedCodec};
use crate::link::Cid;
use crate::wire::Emitted;

verus! {

/// Whether `part` is the beginning of `bytes`.
pub open spec fn begins(bytes: Seq<u8>, part: Seq<u8>) -> bool {
    part.len() <= bytes.len() && bytes.subrange(0, part.len() as int) == part
}

/// What a write that failed has left: the cursor as it was, or with a
/// beginning of `bytes` written at the old position and the cursor behind it.
pub open spec fn partly_written(before: CursorView, bytes: Seq<u8>, after: CursorView) -> bool {
    after == before || exists|part: Seq<u8>|
        #[trigger] begins(bytes, part) && before.put(part) == Ok::<CursorView, Error>(after)
}

/// What an encoding of `e` does to a cursor. Where the host can hold the
/// bytes of `e`, they are written at the old position and the cursor stands
/// behind them; the result is the failure of `e`, or success where it has
/// none. Where the host cannot hold them, the write fails and a beginning of
/// the bytes has been written.
pub open spec fn encoded(before: CursorView, e: Emitted, r: Result<(), Error>, after: CursorView) -> bool {
    match before.put(e.bytes) {
        Err(err) => r == Err::<(), Error>(err) && partly_written(before, e.bytes, after),
        Ok(c) => after == c && match e.failure {
            Some(err) => r == Err::<(), Error>(err),
            None => r is Ok,
        },
    }
}

/// What was partly written of `bytes` is partly written of `bytes` with more
/// behind them.
pub proof fn lemma_partly_more(before: CursorView, bytes: Seq<u8>, more: Seq<u8>, after: CursorView)
    requires
        partly_written(before, bytes, after),
    ensures
        partly_written(before, bytes + more, after),
{
    if after != before {
        let part = choose|part: Seq<u8>|
            #[trigger] begins(bytes, part) && before.put(part) == Ok::<CursorView, Error>(after);
        assert((bytes + more).subrange(0, part.len() as int) =~= part);
        assert(begins(bytes + more, part));
    }
}

/// What was partly written of `bytes` behind `done`, which was written in
/// full, is partly written of `done + bytes`.
pub proof fn lemma_partly_behind(
    start: CursorView,
    done: Seq<u8>,
    before: CursorView,
    bytes: Seq<u8>,
    after: CursorView,
)
    requires
        start.put(done) == Ok::<CursorView, Error>(before),
        partly_written(before, bytes, after),
    ensures
        partly_written(start, done + bytes, after),
{
    if after == before {
        assert((done + bytes).subrange(0, done.len() as int) =~= done);
        assert(begins(done + bytes, done));
    } else {
        let part = choose|part: Seq<u8>|
            #[trigger] begins(bytes, part) && before.put(part) == Ok::<CursorView, Error>(after);
        crate::cursor::lemma_put_put(start, done, part);
        assert((done + bytes).subrange(0, (done + part).len() as int) =~= done + part);
        assert(begins(done + bytes, done + part));
    }
}

/// A type that can be written in the codec `C`.
pub trait Encode<C> {
    /// What encoding the value writes.
    spec fn emitted(&self) -> Emitted;

    /// Writes the value at the position of `w`.
    fn encode(&self, c: C, w: &mut ByteCursor) -> (r: Result<(), Error>)
        ensures
            encoded(old(w)@, self.emitted(), r, final(w)@),
    ;
}

/// A type that can be read in the codec `C`.
pub trait Decode<C>: Sized + DeepView {
    /// What is read as a value of the type at the cursor, and the cursor
    /// behind it.
    spec fn parsed(c: CursorView) -> Result<(Self::V, CursorView), Error>;

    /// Reads a value at the position of `r`. A value takes at least one byte.
    fn decode(c: C, r: &mut ByteCursor) -> (res: Result<Self, Error>)
        ensures
            final(r)@.bytes == old(r)@.bytes,
            match Self::parsed(old(r)@) {
                Ok((v, after)) => res is Ok && res.unwrap().deep_view() == v && final(r)@ == after,
                Err(e) => res == Err::<Self, Error>(e),
            },
            res is Ok ==> final(r)@.remaining() < old(r)@.remaining(),
    ;
}

/// A type whose links can be listed from its encoding in the codec `C`.
pub trait References<C>: Sized {
    /// The links `found` and, behind them, the links of the value at the
    /// cursor in the order in which they are met; and the cursor behind the
    /// value.
    spec fn links(c: CursorView, found: Seq<Seq<u8>>) -> Result<(Seq<Seq<u8>>, CursorView), Error>;

    /// Appends the links of the value at the position of `r` to `set`.
    fn references(c: C, r: &mut ByteCursor, set: &mut Vec<Cid>) -> (res: Result<(), Error>)
        ensures
            final(r)@.bytes == old(r)@.bytes,
            match Self::links(old(r)@, old(set).deep_view()) {
                Ok((all, after)) => res is Ok && final(set).deep_view() == all && final(r)@
                    == after,
                Err(e) => res == Err::<(), Error>(e),
            },
    ;
}

/// A codec: a token that carries a multicodec tag.
pub trait Codec: Copy + Sized {
    /// Encodes `obj` into a fresh buffer.
    fn encode<T: Encode<Self> + ?Sized>(&self, obj: &T) -> (r: Result<ByteCursor, Error>)
        ensures
            match r {
                Ok(w) => obj.emitted().failure is None && w@.bytes == obj.emitted().bytes
                    && w@.pos == obj.emitted().bytes.len(),
                Err(e) => obj.emitted().failure == Some(e) || (e == Error::ShortWrite
                    && obj.emitted().bytes.len() > usize::MAX),
            },
    {
        let mut buf = ByteCursor::new(Vec::with_capacity(u16::MAX as usize));
        obj.encode(*self, &mut buf)?;
        Ok(buf)
    }

    /// Decodes the value at the position of `bytes`.
    fn decode<T: Decode<Self>>(&self, bytes: ByteCursor) -> (res: Result<T, Error>)
        ensures
            match T::parsed(bytes@) {
                Ok((v, _)) => res is Ok && res.unwrap().deep_view() == v,
                Err(e) => res == Err::<T, Error>(e),
            },
    {
        let mut bytes = bytes;
        T::decode(*self, &mut bytes)
    }

    /// Appends the links of the value at the position of `bytes` to `set`.
    fn references<T: References<Self>>(&self, bytes: ByteCursor, set: &mut Vec<Cid>) -> (res:
        Result<(), Error>)
        ensures
            match T::links(bytes@, old(set).deep_view()) {
                Ok((all, _)) => res is Ok && final(set).deep_view() == all,
                Err(e) => res == Err::<(), Error>(e),
            },
    {
        let mut bytes = bytes;
        T::references(*self, &mut bytes, set)
    }
}

/// A codec that can pass over one value without reading it.
pub trait SkipOne: Codec {
    /// The cursor behind the value at the cursor.
    spec fn skipped(c: CursorView) -> Result<CursorView, Error>;

    /// Moves `r` behind the value at its position.
    fn skip(&self, r: &mut ByteCursor) -> (res: Result<(), Error>)
        ensures
            final(r)@.bytes == old(r)@.bytes,
            match Self::skipped(old(r)@) {
                Ok(after) => res is Ok && final(r)@ == after,
                Err(e) => res == Err::<(), Error>(e),
            },
    ;
}

/// The DAG-CBOR codec: multicodec tag `0x71`.
#[derive(Clone, Copy, Debug, Default, PartialEq, Eq, PartialOrd, Ord)]
pub struct DagCborCodec;

impl Codec for DagCborCodec {

}

impl From<DagCborCodec> for u64 {
    /// The multicodec tag of DAG-CBOR.
    fn from(_c: DagCborCodec) -> (tag: u64) {
        0x71
    }
}

impl vstd::std_specs::convert::FromSpecImpl<DagCborCodec> for u64 {
    open spec fn obeys_from_spec() -> bool {
        true
    }

    open spec fn from_spec(_c: DagCborCodec) -> u64 {
        0x71
    }
}

impl TryFrom<u64> for DagCborCodec {
    type Error = UnsupportedCodec;

    /// The codec for a multicodec tag. Every tag is taken for DAG-CBOR.
    fn try_from(_tag: u64) -> (r: Result<Self, UnsupportedCodec>) {
        Ok(DagCborCodec)
    }
}

impl vstd::std_specs::convert::TryFromSpecImpl<u64> for DagCborCodec {
    open spec fn obeys_try_from_spec() -> bool {
        true
    }

    open spec fn try_from_spec(_tag: u64) -> Result<Self, UnsupportedCodec> {
        Ok(DagCborCodec)
    }
}

/// A type that can be written and read in DAG-CBOR.
pub trait DagCbor: Encode<DagCborCodec> + Decode<DagCborCodec> {

}

impl<T: Encode<DagCborCodec> + Decode<DagCborCodec>> DagCbor for T {

}

} // verus!
