//! A byte buffer with a position: bounded reads, extending writes, seeks.

use vstd::prelude::*;
use crate::error::Error;

verus! {

/// Where a seek starts from, and how far it goes.
pub enum SeekFrom {
    /// An offset from the start of the buffer.
    Start(u64),
    /// An offset from the end of the buffer.
    End(i64),
    /// An offset from the current position.
    Current(i64),
}

/// A cursor as a value: the bytes of the buffer and the offset into them.
pub struct CursorView {
    pub bytes: Seq<u8>,
    pub pos: nat,
}

/// `n` zero bytes.
pub open spec fn zeros(n: nat) -> Seq<u8> {
    Seq::new(n, |i: int| 0u8)
}

impl CursorView {
    /// The offset at which a read starts: the position, or the end of the
    /// buffer where the position lies beyond it.
    pub open spec fn start(self) -> nat {
        if self.pos <= self.bytes.len() {
            self.pos
        } else {
            self.bytes.len()
        }
    }

    /// The number of bytes between the position and the end of the buffer.
    pub open spec fn remaining(self) -> nat {
        (self.bytes.len() - self.start()) as nat
    }

    /// The `n` bytes at the position.
    pub open spec fn peek(self, n: nat) -> Seq<u8>
        recommends
            n <= self.remaining(),
    {
        self.bytes.subrange(self.start() as int, (self.start() + n) as int)
    }

    /// The cursor with the position moved by `n`.
    pub open spec fn advance(self, n: nat) -> CursorView {
        CursorView { bytes: self.bytes, pos: self.pos + n }
    }

    /// The offset that a seek leads to, if it is one that 64 bits can hold.
    pub open spec fn seek_target(self, style: SeekFrom) -> Option<nat> {
        let target: int = match style {
            SeekFrom::Start(n) => n as int,
            SeekFrom::End(n) => self.bytes.len() + n,
            SeekFrom::Current(n) => self.pos + n,
        };
        if 0 <= target <= u64::MAX {
            Some(target as nat)
        } else {
            None
        }
    }

    /// The buffer after `data` is written at the position: a gap between the
    /// end of the buffer and the position is filled with zeros, bytes under
    /// `data` are replaced, and the buffer grows where `data` goes beyond it.
    pub open spec fn overwrite(self, data: Seq<u8>) -> Seq<u8> {
        let padded = if self.bytes.len() < self.pos {
            self.bytes + zeros((self.pos - self.bytes.len()) as nat)
        } else {
            self.bytes
        };
        let end: int = (self.pos + data.len()) as int;
        let tail = if end < padded.len() {
            padded.subrange(end, padded.len() as int)
        } else {
            Seq::<u8>::empty()
        };
        padded.subrange(0, self.pos as int) + data + tail
    }

    /// The cursor after `data` is written at the position.
    pub open spec fn write(self, data: Seq<u8>) -> CursorView {
        CursorView { bytes: self.overwrite(data), pos: self.pos + data.len() }
    }

    /// The cursor after all of `data` is written at the position, where the
    /// host can hold a buffer that long. Writing nothing changes nothing.
    pub open spec fn put(self, data: Seq<u8>) -> Result<CursorView, Error> {
        if data.len() == 0 {
            Ok(self)
        } else if self.pos + data.len() <= usize::MAX {
            Ok(self.write(data))
        } else {
            Err(Error::ShortWrite)
        }
    }

    /// The `n` bytes at the position and the cursor behind them, where that
    /// many are left.
    pub open spec fn take(self, n: nat) -> Result<(Seq<u8>, CursorView), Error> {
        if n <= self.remaining() {
            Ok((self.peek(n), self.advance(n)))
        } else {
            Err(Error::ShortRead)
        }
    }
}

/// What a write of `data` does: on success the cursor holds `data` at the
/// old position and stands behind it; on failure it is unchanged.
pub open spec fn wrote(before: CursorView, data: Seq<u8>, r: Result<(), Error>, after: CursorView) -> bool {
    match before.put(data) {
        Ok(c) => r is Ok && after == c,
        Err(e) => r == Err::<(), Error>(e) && after == before,
    }
}

/// Writing `a` and then `b` is writing `a + b`; and where one of the two
/// writes fails, so does the write of `a + b`.
pub proof fn lemma_put_put(c: CursorView, a: Seq<u8>, b: Seq<u8>)
    ensures
        match c.put(a) {
            Ok(mid) => c.put(a + b) == mid.put(b),
            Err(e) => c.put(a + b) == Err::<CursorView, Error>(e),
        },
{
    if a.len() == 0 {
        assert(a + b =~= b);
    } else if b.len() == 0 {
        assert(a + b =~= a);
    } else if c.pos + a.len() + b.len() <= usize::MAX {
        let mid = c.write(a);
        assert(mid.write(b).bytes =~= c.write(a + b).bytes);
    }
}

/// A growable byte buffer and a position in it. The position may lie beyond
/// the end of the buffer.
#[derive(Clone, Debug)]
pub struct ByteCursor {
    inner: Vec<u8>,
    pos: u64,
}

impl View for ByteCursor {
    type V = CursorView;

    closed spec fn view(&self) -> CursorView {
        CursorView { bytes: self.inner@, pos: self.pos as nat }
    }
}

impl ByteCursor {
    /// A cursor at the start of `inner`.
    pub fn new(inner: Vec<u8>) -> (cursor: Self)
        ensures
            cursor@ == (CursorView { bytes: inner@, pos: 0 }),
    {
        Self { pos: 0, inner }
    }

    /// The buffer, without the position.
    pub fn into_inner(self) -> (inner: Vec<u8>)
        ensures
            inner@ == self@.bytes,
    {
        self.inner
    }

    /// The buffer.
    pub fn get_ref(&self) -> (inner: &Vec<u8>)
        ensures
            inner@ == self@.bytes,
    {
        &self.inner
    }

    /// The buffer, to be changed in place. The position stays.
    pub fn get_mut(&mut self) -> (inner: &mut Vec<u8>)
        ensures
            inner@ == old(self)@.bytes,
            final(self)@ == (CursorView { bytes: final(inner)@, pos: old(self)@.pos }),
    {
        &mut self.inner
    }

    /// The buffer is no longer than the host allows, and the position is one
    /// that 64 bits hold.
    pub proof fn lemma_bounds(&self)
        ensures
            self@.bytes.len() <= usize::MAX,
            self@.pos <= u64::MAX,
    {
        assert(self.inner@.len() == self.inner.len());
    }

    /// The position.
    pub fn position(&self) -> (pos: u64)
        ensures
            pos == self@.pos,
    {
        self.pos
    }

    /// Moves the position to `pos`.
    pub fn set_position(&mut self, pos: u64)
        ensures
            final(self)@ == (CursorView { bytes: old(self)@.bytes, pos: pos as nat }),
    {
        self.pos = pos
    }

    /// The bytes from the position to the end of the buffer.
    pub fn fill_buf(&mut self) -> (rest: &[u8])
        ensures
            rest@ == old(self)@.peek(old(self)@.remaining()),
            final(self)@ == old(self)@,
    {
        let len = self.inner.len();
        let amt: usize = if self.pos < len as u64 { self.pos as usize } else { len };
        vstd::slice::slice_subrange(self.inner.as_slice(), amt, len)
    }

    /// Copies bytes from the position into `buf`, as many as there are up to
    /// the length of `buf`, moves the position past them and returns their
    /// number. The rest of `buf` stays as it was.
    pub fn read(&mut self, buf: &mut [u8]) -> (amt: usize)
        ensures
            amt == if old(buf)@.len() <= old(self)@.remaining() {
                old(buf)@.len()
            } else {
                old(self)@.remaining()
            },
            final(buf)@ == old(self)@.peek(amt as nat) + old(buf)@.subrange(
                amt as int,
                old(buf)@.len() as int,
            ),
            final(self)@ == old(self)@.advance(amt as nat),
    {
        let len = self.inner.len();
        let start: usize = if self.pos < len as u64 { self.pos as usize } else { len };
        let amt: usize = if buf.len() <= len - start { buf.len() } else { len - start };
        let mut i: usize = 0;
        while i < amt
            invariant
                i <= amt,
                start + amt <= len,
                len == self.inner@.len(),
                amt <= buf@.len(),
                buf@.len() == old(buf)@.len(),
                *self == *old(self),
                buf@ == self.inner@.subrange(start as int, start + i) + old(buf)@.subrange(
                    i as int,
                    old(buf)@.len() as int,
                ),
            decreases amt - i,
        {
            buf[i] = self.inner[start + i];
            i += 1;
        }
        self.pos = self.pos + amt as u64;
        amt
    }

    /// Fills `buf` from the position and moves the position past what was
    /// read. Where fewer bytes are left than `buf` holds, nothing is read or
    /// moved.
    pub fn read_exact(&mut self, buf: &mut [u8]) -> (r: Result<(), Error>)
        ensures
            final(self)@.bytes == old(self)@.bytes,
            old(buf)@.len() <= old(self)@.remaining() ==> {
                &&& r is Ok
                &&& final(buf)@ == old(self)@.peek(old(buf)@.len())
                &&& final(self)@ == old(self)@.advance(old(buf)@.len())
            },
            old(buf)@.len() > old(self)@.remaining() ==> {
                &&& r == Err::<(), Error>(Error::ShortRead)
                &&& final(buf)@ == old(buf)@
                &&& final(self)@ == old(self)@
            },
    {
        let len = self.inner.len();
        let start: usize = if self.pos < len as u64 { self.pos as usize } else { len };
        if buf.len() > len - start {
            return Err(Error::ShortRead);
        }
        let n = self.read(buf);
        Ok(())
    }

    /// Moves the position as `style` says and returns the new position.
    /// A target below zero or beyond 64 bits is an error, and the position
    /// stays. A target beyond the end of the buffer is accepted.
    pub fn seek(&mut self, style: &SeekFrom) -> (r: Result<u64, Error>)
        ensures
            final(self)@.bytes == old(self)@.bytes,
            match old(self)@.seek_target(*style) {
                Some(target) => r == Ok::<u64, Error>(target as u64) && final(self)@.pos == target,
                None => r == Err::<u64, Error>(Error::InvalidSeek) && final(self)@.pos == old(self)@.pos,
            },
    {
        let (base_pos, offset): (u64, i64) = match style {
            SeekFrom::Start(n) => {
                self.pos = *n;
                return Ok(*n);
            },
            SeekFrom::End(n) => (self.inner.len() as u64, *n),
            SeekFrom::Current(n) => (self.pos, *n),
        };
        let target: i128 = base_pos as i128 + offset as i128;
        if 0 <= target && target <= u64::MAX as i128 {
            self.pos = target as u64;
            Ok(self.pos)
        } else {
            Err(Error::InvalidSeek)
        }
    }

    /// Writes `buf` at the position and moves the position past it; returns
    /// the number of bytes written, which is the length of `buf`. The write
    /// fails, and changes nothing, where it would end beyond the longest
    /// vector of the host.
    pub fn write(&mut self, buf: &[u8]) -> (r: Result<usize, Error>)
        ensures
            old(self)@.pos + buf@.len() <= usize::MAX ==> {
                &&& r == Ok::<usize, Error>(buf.len())
                &&& final(self)@ == old(self)@.write(buf@)
            },
            old(self)@.pos + buf@.len() > usize::MAX ==> {
                &&& r == Err::<usize, Error>(Error::ShortWrite)
                &&& final(self)@ == old(self)@
            },
    {
        if self.pos > usize::MAX as u64 {
            return Err(Error::ShortWrite);
        }
        let pos: usize = self.pos as usize;
        if buf.len() > usize::MAX - pos {
            return Err(Error::ShortWrite);
        }
        while self.inner.len() < pos
            invariant
                self.pos == old(self).pos,
                old(self).inner@.len() <= self.inner@.len(),
                self.inner@.len() <= pos || self.inner@ == old(self).inner@,
                self.inner@ =~= old(self).inner@ + zeros(
                    (self.inner@.len() - old(self).inner@.len()) as nat,
                ),
            decreases pos - self.inner.len(),
        {
            self.inner.push(0);
        }
        let ghost padded = self.inner@;
        let mut i: usize = 0;
        while i < buf.len()
            invariant
                i <= buf@.len(),
                pos + buf@.len() <= usize::MAX,
                self.pos == old(self).pos,
                pos <= padded.len(),
                self.inner@.len() == if pos + i <= padded.len() {
                    padded.len()
                } else {
                    (pos + i) as nat
                },
                self.inner@ =~= padded.subrange(0, pos as int) + buf@.subrange(0, i as int) + (if pos
                    + i < padded.len() {
                    padded.subrange(pos + i, padded.len() as int)
                } else {
                    Seq::<u8>::empty()
                }),
            decreases buf@.len() - i,
        {
            if pos + i < self.inner.len() {
                self.inner[pos + i] = buf[i];
            } else {
                self.inner.push(buf[i]);
            }
            i += 1;
        }
        self.pos = (pos + buf.len()) as u64;
        assert(buf@.subrange(0, buf@.len() as int) =~= buf@);
        assert(self.inner@ =~= old(self)@.overwrite(buf@));
        Ok(buf.len())
    }

    /// Writes all of `buf` at the position, in as many writes as it takes.
    /// An empty `buf` changes nothing.
    pub fn write_all(&mut self, buf: &[u8]) -> (r: Result<(), Error>)
        ensures
            wrote(old(self)@, buf@, r, final(self)@),
    {
        let mut rest: &[u8] = buf;
        while !rest.is_empty()
            invariant
                rest@ == buf@ || rest@.len() == 0,
                rest@.len() == 0 ==> (if buf@.len() == 0 {
                    self@ == old(self)@
                } else {
                    self@ == old(self)@.write(buf@)
                }),
                rest@.len() > 0 ==> self@ == old(self)@,
                rest@.len() == 0 && buf@.len() > 0 ==> old(self)@.pos + buf@.len() <= usize::MAX,
            decreases rest@.len(),
        {
            match self.write(rest) {
                Ok(0) => {
                    return Err(Error::ShortWrite);
                },
                Ok(n) => {
                    rest = vstd::slice::slice_subrange(rest, n, rest.len());
                },
                Err(e) => {
                    return Err(e);
                },
            }
        }
        Ok(())
    }
}

} // verus!
