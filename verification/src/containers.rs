//! Typed containers: options, lists, maps with text keys, tuples and shared
//! values, written and read by the codecs of what they hold.

use std::sync::Arc;
use vstd::prelude::*;
use crate::codec::{
    encoded, lemma_partly_behind, lemma_partly_more, DagCborCodec, Decode, Encode,
};
use crate::cursor::{lemma_put_put, ByteCursor, CursorView};
use crate::encode::{lemma_encoded_step, lemma_encoded_then};
use crate::error::Error;
use crate::framing::{
    head, lemma_length, lemma_uint, length, read_len, read_u8, uint, write_null, write_u64,
    write_u8,
};
use crate::wire::Emitted;

verus! {

/// An encoding of `a` followed, where it succeeded, by an encoding of `b` is
/// an encoding of `a` and then `b`.
pub proof fn lemma_encoded_both(
    before: CursorView,
    a: Emitted,
    r1: Result<(), Error>,
    mid: CursorView,
    b: Emitted,
    r2: Result<(), Error>,
    after: CursorView,
)
    requires
        encoded(before, a, r1, mid),
        r1 is Ok ==> encoded(mid, b, r2, after),
    ensures
        r1 is Ok ==> encoded(before, a.followed_by(b), r2, after),
        r1 is Err ==> encoded(before, a.followed_by(b), r1, mid),
{
    lemma_put_put(before, a.bytes, b.bytes);
    if r1 is Ok {
        if a.failure is None && mid.put(b.bytes) is Err {
            lemma_partly_behind(before, a.bytes, mid, b.bytes, after);
        }
    } else if a.failure is None {
        lemma_partly_more(before, a.bytes, b.bytes, mid);
    }
}

impl<C, T: Encode<C>> Encode<C> for &T {
    open spec fn emitted(&self) -> Emitted {
        (**self).emitted()
    }

    /// Writes the value that the reference leads to.
    fn encode(&self, c: C, w: &mut ByteCursor) -> (r: Result<(), Error>) {
        (**self).encode(c, w)
    }
}

impl<T: Encode<DagCborCodec>> Encode<DagCborCodec> for Arc<T> {
    open spec fn emitted(&self) -> Emitted {
        (**self).emitted()
    }

    /// Writes the shared value.
    fn encode(&self, c: DagCborCodec, w: &mut ByteCursor) -> (r: Result<(), Error>) {
        (**self).encode(c, w)
    }
}

impl<T: Decode<DagCborCodec>> Decode<DagCborCodec> for Arc<T> {
    open spec fn parsed(c: CursorView) -> Result<(T::V, CursorView), Error> {
        T::parsed(c)
    }

    /// Reads a value to be shared.
    fn decode(c: DagCborCodec, r: &mut ByteCursor) -> (res: Result<Self, Error>) {
        Ok(Arc::new(T::decode(c, r)?))
    }
}

impl<T: Encode<DagCborCodec>> Encode<DagCborCodec> for Option<T> {
    open spec fn emitted(&self) -> Emitted {
        match self {
            Some(value) => value.emitted(),
            None => Emitted::done(seq![0xf6u8]),
        }
    }

    /// Writes the value that is there, or null where none is.
    fn encode(&self, c: DagCborCodec, w: &mut ByteCursor) -> (r: Result<(), Error>) {
        if let Some(value) = self {
            value.encode(c, w)
        } else {
            write_null(w)
        }
    }
}

impl<T: Decode<DagCborCodec>> Decode<DagCborCodec> for Option<T> {
    open spec fn parsed(c: CursorView) -> Result<(Option<T::V>, CursorView), Error> {
        match uint(c, 1) {
            Err(e) => Err(e),
            Ok((b, c1)) => if b == 0xf6 || b == 0xf7 {
                Ok((None, c1))
            } else {
                match T::parsed(c) {
                    Ok((v, after)) => Ok((Some(v), after)),
                    Err(e) => Err(e),
                }
            },
        }
    }

    /// Reads null or undefined as no value, and everything else as a value.
    fn decode(c: DagCborCodec, r: &mut ByteCursor) -> (res: Result<Self, Error>) {
        let ghost at = r@;
        proof {
            lemma_uint(r@, 1);
        }
        let major = read_u8(r)?;
        match major {
            0xf6 | 0xf7 => Ok(None),
            _ => {
                r.set_position(r.position() - 1);
                assert(r@ == at);
                Ok(Some(T::decode(c, r)?))
            },
        }
    }
}

/// What encoding the values of `items` one after the other writes.
pub open spec fn emit_seq<T: Encode<DagCborCodec>>(items: Seq<T>) -> Emitted
    decreases items.len(),
{
    if items.len() == 0 {
        Emitted::done(Seq::<u8>::empty())
    } else {
        items[0].emitted().followed_by(emit_seq(items.drop_first()))
    }
}

impl<T: Encode<DagCborCodec>> Encode<DagCborCodec> for Vec<T> {
    open spec fn emitted(&self) -> Emitted {
        emit_seq(self@).behind(head(4, self@.len()))
    }

    /// Writes a list: its length, then its values.
    fn encode(&self, c: DagCborCodec, w: &mut ByteCursor) -> (r: Result<(), Error>) {
        let ghost start = w@;
        let ghost h = head(4, self@.len());
        let r1 = write_u64(w, 4, self.len() as u64);
        let ghost mid = w@;
        if r1.is_err() {
            proof {
                lemma_encoded_then(start, Emitted::done(h), r1, mid, emit_seq(self@), r1, mid);
            }
            return r1;
        }
        let ghost mut acc: Seq<u8> = Seq::empty();
        let mut i: usize = 0;
        proof {
            assert(self@.skip(0) =~= self@);
            assert(acc + emit_seq(self@).bytes =~= emit_seq(self@).bytes);
        }
        while i < self.len()
            invariant
                i <= self@.len(),
                mid.put(acc) == Ok::<CursorView, Error>(w@),
                emit_seq(self@) == emit_seq(self@.skip(i as int)).behind(acc),
                encoded(start, Emitted::done(h), r1, mid),
                r1 is Ok,
                start == old(w)@,
                h == head(4, self@.len()),
            decreases self@.len() - i,
        {
            let ghost before = w@;
            let ghost rest = self@.skip(i as int);
            let ghost e = rest[0].emitted();
            let ghost tail = emit_seq(self@.skip(i + 1));
            proof {
                assert(rest.drop_first() =~= self@.skip(i + 1));
                assert(emit_seq(rest) == e.followed_by(tail));
            }
            let r2 = self[i].encode(c, w);
            proof {
                lemma_encoded_step(mid, acc, before, e, tail, r2, w@);
            }
            if r2.is_err() {
                proof {
                    lemma_encoded_then(start, Emitted::done(h), r1, mid, emit_seq(self@), r2, w@);
                }
                return r2;
            }
            proof {
                assert(tail.behind(e.bytes).behind(acc).bytes =~= tail.behind(acc + e.bytes).bytes);
                acc = acc + e.bytes;
            }
            i += 1;
        }
        proof {
            assert(acc + Seq::<u8>::empty() =~= acc);
            lemma_encoded_then(
                start,
                Emitted::done(h),
                r1,
                mid,
                emit_seq(self@),
                Ok::<(), Error>(()),
                w@,
            );
        }
        Ok(())
    }
}

/// What is read as `n` values of one type, one after the other, behind the
/// values `done`.
pub open spec fn parse_seq<T: Decode<DagCborCodec>>(c: CursorView, n: nat, done: Seq<T::V>) -> Result<
    (Seq<T::V>, CursorView),
    Error,
>
    decreases n,
{
    if n == 0 {
        Ok((done, c))
    } else {
        match T::parsed(c) {
            Err(e) => Err(e),
            Ok((v, c1)) => parse_seq::<T>(c1, (n - 1) as nat, done.push(v)),
        }
    }
}

/// What is read as values of one type up to the byte `ff`, behind the values
/// `done`.
pub open spec fn parse_seq_to_break<T: Decode<DagCborCodec>>(c: CursorView, done: Seq<T::V>) -> Result<
    (Seq<T::V>, CursorView),
    Error,
>
    decreases c.remaining(),
{
    match uint(c, 1) {
        Err(e) => Err(e),
        Ok((b, c1)) => if b == 0xff {
            Ok((done, c1))
        } else {
            match T::parsed(c) {
                Err(e) => Err(e),
                Ok((v, c2)) => if c2.remaining() < c.remaining() {
                    parse_seq_to_break::<T>(c2, done.push(v))
                } else {
                    Err(Error::ShortRead)
                },
            }
        },
    }
}

/// Reads `len` values of one type, one after the other.
pub fn read_list<T: Decode<DagCborCodec>>(r: &mut ByteCursor, len: usize) -> (res: Result<
    Vec<T>,
    Error,
>)
    ensures
        final(r)@.bytes == old(r)@.bytes,
        match parse_seq::<T>(old(r)@, len as nat, Seq::empty()) {
            Ok((items, after)) => res is Ok && res.unwrap().deep_view() == items && final(r)@
                == after,
            Err(e) => res == Err::<Vec<T>, Error>(e),
        },
        res is Ok ==> final(r)@.remaining() <= old(r)@.remaining(),
{
    let mut list: Vec<T> = Vec::new();
    let mut i: usize = 0;
    assert(list.deep_view() =~= Seq::<T::V>::empty());
    while i < len
        invariant
            i <= len,
            r@.bytes == old(r)@.bytes,
            r@.remaining() <= old(r)@.remaining(),
            parse_seq::<T>(old(r)@, len as nat, Seq::empty()) == parse_seq::<T>(
                r@,
                (len - i) as nat,
                list.deep_view(),
            ),
        decreases len - i,
    {
        let ghost done = list.deep_view();
        let value = T::decode(DagCborCodec, r)?;
        let ghost v = value.deep_view();
        list.push(value);
        assert(list.deep_view() =~= done.push(v));
        i += 1;
    }
    Ok(list)
}

/// Reads values of one type up to the byte `ff`.
pub fn read_list_il<T: Decode<DagCborCodec>>(r: &mut ByteCursor) -> (res: Result<Vec<T>, Error>)
    ensures
        final(r)@.bytes == old(r)@.bytes,
        match parse_seq_to_break::<T>(old(r)@, Seq::empty()) {
            Ok((items, after)) => res is Ok && res.unwrap().deep_view() == items && final(r)@
                == after,
            Err(e) => res == Err::<Vec<T>, Error>(e),
        },
        res is Ok ==> final(r)@.remaining() < old(r)@.remaining(),
{
    let mut list: Vec<T> = Vec::new();
    assert(list.deep_view() =~= Seq::<T::V>::empty());
    loop
        invariant_except_break
            r@.bytes == old(r)@.bytes,
            r@.remaining() <= old(r)@.remaining(),
            parse_seq_to_break::<T>(old(r)@, Seq::empty()) == parse_seq_to_break::<T>(
                r@,
                list.deep_view(),
            ),
        ensures
            r@.bytes == old(r)@.bytes,
            r@.remaining() < old(r)@.remaining(),
            parse_seq_to_break::<T>(old(r)@, Seq::empty()) == Ok::<
                (Seq<T::V>, CursorView),
                Error,
            >((list.deep_view(), r@)),
        decreases r@.remaining(),
    {
        let ghost at = r@;
        let ghost done = list.deep_view();
        proof {
            lemma_uint(at, 1);
        }
        let major = read_u8(r)?;
        if major == 0xff {
            break ;
        }
        r.set_position(r.position() - 1);
        assert(r@ == at);
        let value = T::decode(DagCborCodec, r)?;
        let ghost v = value.deep_view();
        list.push(value);
        assert(list.deep_view() =~= done.push(v));
    }
    Ok(list)
}

impl<T: Decode<DagCborCodec>> Decode<DagCborCodec> for Vec<T> {
    open spec fn parsed(c: CursorView) -> Result<(Seq<T::V>, CursorView), Error> {
        match uint(c, 1) {
            Err(e) => Err(e),
            Ok((b, c1)) => if 0x80 <= b <= 0x9b {
                match length(c1, (b - 0x80) as u8) {
                    Err(e) => Err(e),
                    Ok((n, c2)) => parse_seq::<T>(c2, n, Seq::empty()),
                }
            } else if b == 0x9f {
                parse_seq_to_break::<T>(c1, Seq::empty())
            } else {
                Err(Error::UnexpectedCode(b as u8))
            },
        }
    }

    /// Reads a list, with its length in front or with the byte `ff` behind.
    fn decode(_c: DagCborCodec, r: &mut ByteCursor) -> (res: Result<Self, Error>) {
        proof {
            lemma_uint(r@, 1);
        }
        let major = read_u8(r)?;
        match major {
            0x80..=0x9b => {
                proof {
                    lemma_length(r@, (major - 0x80) as u8);
                }
                let len = read_len(r, major - 0x80)?;
                read_list(r, len)
            },
            0x9f => read_list_il(r),
            _ => Err(Error::UnexpectedCode(major)),
        }
    }
}

impl Encode<DagCborCodec> for () {
    open spec fn emitted(&self) -> Emitted {
        Emitted::done(head(4, 0))
    }

    /// Writes an empty list.
    fn encode(&self, _c: DagCborCodec, w: &mut ByteCursor) -> (r: Result<(), Error>) {
        write_u8(w, 4, 0)
    }
}

impl<A: Encode<DagCborCodec>> Encode<DagCborCodec> for (A,) {
    open spec fn emitted(&self) -> Emitted {
        Emitted::done(head(4, 1)).followed_by(self.0.emitted())
    }

    /// Writes a list of one value.
    fn encode(&self, c: DagCborCodec, w: &mut ByteCursor) -> (r: Result<(), Error>) {
        let ghost start = w@;
        let r0 = write_u8(w, 4, 1);
        let ghost c0 = w@;
        if r0.is_err() {
            proof {
                lemma_encoded_both(start, Emitted::done(head(4, 1)), r0, c0, self.0.emitted(), r0, c0);
            }
            return r0;
        }
        let r1 = self.0.encode(c, w);
        proof {
            lemma_encoded_both(start, Emitted::done(head(4, 1)), r0, c0, self.0.emitted(), r1, w@);
        }
        r1
    }
}

impl<A: Encode<DagCborCodec>, B: Encode<DagCborCodec>> Encode<DagCborCodec> for (A, B) {
    open spec fn emitted(&self) -> Emitted {
        Emitted::done(head(4, 2)).followed_by(self.0.emitted()).followed_by(self.1.emitted())
    }

    /// Writes a list of two values.
    fn encode(&self, c: DagCborCodec, w: &mut ByteCursor) -> (r: Result<(), Error>) {
        let ghost start = w@;
        let ghost e0 = Emitted::done(head(4, 2));
        let ghost e1 = e0.followed_by(self.0.emitted());
        let r0 = write_u8(w, 4, 2);
        let ghost c0 = w@;
        if r0.is_err() {
            proof {
                lemma_encoded_both(start, e0, r0, c0, self.0.emitted(), r0, c0);
                lemma_encoded_both(start, e1, r0, c0, self.1.emitted(), r0, c0);
            }
            return r0;
        }
        let r1 = self.0.encode(c, w);
        let ghost c1 = w@;
        proof {
            lemma_encoded_both(start, e0, r0, c0, self.0.emitted(), r1, c1);
        }
        if r1.is_err() {
            proof {
                lemma_encoded_both(start, e1, r1, c1, self.1.emitted(), r1, c1);
            }
            return r1;
        }
        let r2 = self.1.encode(c, w);
        proof {
            lemma_encoded_both(start, e1, r1, c1, self.1.emitted(), r2, w@);
        }
        r2
    }
}

impl<A: Encode<DagCborCodec>, B: Encode<DagCborCodec>, C: Encode<DagCborCodec>> Encode<
    DagCborCodec,
> for (A, B, C) {
    open spec fn emitted(&self) -> Emitted {
        Emitted::done(head(4, 3)).followed_by(self.0.emitted()).followed_by(self.1.emitted()).followed_by(
            self.2.emitted(),
        )
    }

    /// Writes a list of three values.
    fn encode(&self, c: DagCborCodec, w: &mut ByteCursor) -> (r: Result<(), Error>) {
        let ghost start = w@;
        let ghost e0 = Emitted::done(head(4, 3));
        let ghost e1 = e0.followed_by(self.0.emitted());
        let ghost e2 = e1.followed_by(self.1.emitted());
        let r0 = write_u8(w, 4, 3);
        let ghost c0 = w@;
        if r0.is_err() {
            proof {
                lemma_encoded_both(start, e0, r0, c0, self.0.emitted(), r0, c0);
                lemma_encoded_both(start, e1, r0, c0, self.1.emitted(), r0, c0);
                lemma_encoded_both(start, e2, r0, c0, self.2.emitted(), r0, c0);
            }
            return r0;
        }
        let r1 = self.0.encode(c, w);
        let ghost c1 = w@;
        proof {
            lemma_encoded_both(start, e0, r0, c0, self.0.emitted(), r1, c1);
        }
        if r1.is_err() {
            proof {
                lemma_encoded_both(start, e1, r1, c1, self.1.emitted(), r1, c1);
                lemma_encoded_both(start, e2, r1, c1, self.2.emitted(), r1, c1);
            }
            return r1;
        }
        let r2 = self.1.encode(c, w);
        let ghost c2 = w@;
        proof {
            lemma_encoded_both(start, e1, r1, c1, self.1.emitted(), r2, c2);
        }
        if r2.is_err() {
            proof {
                lemma_encoded_both(start, e2, r2, c2, self.2.emitted(), r2, c2);
            }
            return r2;
        }
        let r3 = self.2.encode(c, w);
        proof {
            lemma_encoded_both(start, e2, r2, c2, self.2.emitted(), r3, w@);
        }
        r3
    }
}

impl<
    A: Encode<DagCborCodec>,
    B: Encode<DagCborCodec>,
    C: Encode<DagCborCodec>,
    D: Encode<DagCborCodec>,
> Encode<DagCborCodec> for (A, B, C, D) {
    open spec fn emitted(&self) -> Emitted {
        Emitted::done(head(4, 4)).followed_by(self.0.emitted()).followed_by(self.1.emitted()).followed_by(
            self.2.emitted(),
        ).followed_by(self.3.emitted())
    }

    /// Writes a list of four values.
    fn encode(&self, c: DagCborCodec, w: &mut ByteCursor) -> (r: Result<(), Error>) {
        let ghost start = w@;
        let ghost e0 = Emitted::done(head(4, 4));
        let ghost e1 = e0.followed_by(self.0.emitted());
        let ghost e2 = e1.followed_by(self.1.emitted());
        let ghost e3 = e2.followed_by(self.2.emitted());
        let r0 = write_u8(w, 4, 4);
        let ghost c0 = w@;
        if r0.is_err() {
            proof {
                lemma_encoded_both(start, e0, r0, c0, self.0.emitted(), r0, c0);
                lemma_encoded_both(start, e1, r0, c0, self.1.emitted(), r0, c0);
                lemma_encoded_both(start, e2, r0, c0, self.2.emitted(), r0, c0);
                lemma_encoded_both(start, e3, r0, c0, self.3.emitted(), r0, c0);
            }
            return r0;
        }
        let r1 = self.0.encode(c, w);
        let ghost c1 = w@;
        proof {
            lemma_encoded_both(start, e0, r0, c0, self.0.emitted(), r1, c1);
        }
        if r1.is_err() {
            proof {
                lemma_encoded_both(start, e1, r1, c1, self.1.emitted(), r1, c1);
                lemma_encoded_both(start, e2, r1, c1, self.2.emitted(), r1, c1);
                lemma_encoded_both(start, e3, r1, c1, self.3.emitted(), r1, c1);
            }
            return r1;
        }
        let r2 = self.1.encode(c, w);
        let ghost c2 = w@;
        proof {
            lemma_encoded_both(start, e1, r1, c1, self.1.emitted(), r2, c2);
        }
        if r2.is_err() {
            proof {
                lemma_encoded_both(start, e2, r2, c2, self.2.emitted(), r2, c2);
                lemma_encoded_both(start, e3, r2, c2, self.3.emitted(), r2, c2);
            }
            return r2;
        }
        let r3 = self.2.encode(c, w);
        let ghost c3 = w@;
        proof {
            lemma_encoded_both(start, e2, r2, c2, self.2.emitted(), r3, c3);
        }
        if r3.is_err() {
            proof {
                lemma_encoded_both(start, e3, r3, c3, self.3.emitted(), r3, c3);
            }
            return r3;
        }
        let r4 = self.3.encode(c, w);
        proof {
            lemma_encoded_both(start, e3, r3, c3, self.3.emitted(), r4, w@);
        }
        r4
    }
}

/// What is read as the initial byte of a list of `n` values, where `n` is at
/// most 23.
pub open spec fn parse_count(c: CursorView, n: u8) -> Result<CursorView, Error> {
    match uint(c, 1) {
        Err(e) => Err(e),
        Ok((b, c1)) => if b == 0x80 + n {
            Ok(c1)
        } else {
            Err(Error::UnexpectedCode(b as u8))
        },
    }
}

/// Reads the initial byte of a list of `n` values.
fn read_count(r: &mut ByteCursor, n: u8) -> (res: Result<(), Error>)
    requires
        n <= 4,
    ensures
        final(r)@.bytes == old(r)@.bytes,
        match parse_count(old(r)@, n) {
            Ok(after) => res is Ok && final(r)@ == after,
            Err(e) => res == Err::<(), Error>(e),
        },
        res is Ok ==> final(r)@.remaining() < old(r)@.remaining(),
{
    proof {
        lemma_uint(r@, 1);
    }
    let major = read_u8(r)?;
    if major == 0x80 + n {
        Ok(())
    } else {
        Err(Error::UnexpectedCode(major))
    }
}

impl Decode<DagCborCodec> for () {
    open spec fn parsed(c: CursorView) -> Result<((), CursorView), Error> {
        match parse_count(c, 0) {
            Ok(after) => Ok(((), after)),
            Err(e) => Err(e),
        }
    }

    /// Reads an empty list.
    fn decode(_c: DagCborCodec, r: &mut ByteCursor) -> (res: Result<Self, Error>) {
        read_count(r, 0)?;
        Ok(())
    }
}

impl<A: Decode<DagCborCodec>> Decode<DagCborCodec> for (A,) {
    open spec fn parsed(c: CursorView) -> Result<((A::V,), CursorView), Error> {
        match parse_count(c, 1) {
            Err(e) => Err(e),
            Ok(c0) => match A::parsed(c0) {
                Err(e) => Err(e),
                Ok((a, c1)) => Ok(((a,), c1)),
            },
        }
    }

    /// Reads a list of one value.
    fn decode(c: DagCborCodec, r: &mut ByteCursor) -> (res: Result<Self, Error>) {
        read_count(r, 1)?;
        let a = A::decode(c, r)?;
        Ok((a,))
    }
}

impl<A: Decode<DagCborCodec>, B: Decode<DagCborCodec>> Decode<DagCborCodec> for (A, B) {
    open spec fn parsed(c: CursorView) -> Result<((A::V, B::V), CursorView), Error> {
        match parse_count(c, 2) {
            Err(e) => Err(e),
            Ok(c0) => match A::parsed(c0) {
                Err(e) => Err(e),
                Ok((a, c1)) => match B::parsed(c1) {
                    Err(e) => Err(e),
                    Ok((b, c2)) => Ok(((a, b), c2)),
                },
            },
        }
    }

    /// Reads a list of two values.
    fn decode(c: DagCborCodec, r: &mut ByteCursor) -> (res: Result<Self, Error>) {
        read_count(r, 2)?;
        let a = A::decode(c, r)?;
        let b = B::decode(c, r)?;
        Ok((a, b))
    }
}

impl<A: Decode<DagCborCodec>, B: Decode<DagCborCodec>, C: Decode<DagCborCodec>> Decode<
    DagCborCodec,
> for (A, B, C) {
    open spec fn parsed(c: CursorView) -> Result<((A::V, B::V, C::V), CursorView), Error> {
        match parse_count(c, 3) {
            Err(e) => Err(e),
            Ok(c0) => match A::parsed(c0) {
                Err(e) => Err(e),
                Ok((a, c1)) => match B::parsed(c1) {
                    Err(e) => Err(e),
                    Ok((b, c2)) => match C::parsed(c2) {
                        Err(e) => Err(e),
                        Ok((x, c3)) => Ok(((a, b, x), c3)),
                    },
                },
            },
        }
    }

    /// Reads a list of three values.
    fn decode(c: DagCborCodec, r: &mut ByteCursor) -> (res: Result<Self, Error>) {
        read_count(r, 3)?;
        let a = A::decode(c, r)?;
        let b = B::decode(c, r)?;
        let x = C::decode(c, r)?;
        Ok((a, b, x))
    }
}

impl<
    A: Decode<DagCborCodec>,
    B: Decode<DagCborCodec>,
    C: Decode<DagCborCodec>,
    D: Decode<DagCborCodec>,
> Decode<DagCborCodec> for (A, B, C, D) {
    open spec fn parsed(c: CursorView) -> Result<((A::V, B::V, C::V, D::V), CursorView), Error> {
        match parse_count(c, 4) {
            Err(e) => Err(e),
            Ok(c0) => match A::parsed(c0) {
                Err(e) => Err(e),
                Ok((a, c1)) => match B::parsed(c1) {
                    Err(e) => Err(e),
                    Ok((b, c2)) => match C::parsed(c2) {
                        Err(e) => Err(e),
                        Ok((x, c3)) => match D::parsed(c3) {
                            Err(e) => Err(e),
                            Ok((y, c4)) => Ok(((a, b, x, y), c4)),
                        },
                    },
                },
            },
        }
    }

    /// Reads a list of four values.
    fn decode(c: DagCborCodec, r: &mut ByteCursor) -> (res: Result<Self, Error>) {
        read_count(r, 4)?;
        let a = A::decode(c, r)?;
        let b = B::decode(c, r)?;
        let x = C::decode(c, r)?;
        let y = D::decode(c, r)?;
        Ok((a, b, x, y))
    }
}

} // verus!
