//! The wire format as functions on mathematical values: what a value is
//! written as, and what is read from bytes.

use vstd::prelude::*;
use vstd::utf8::encode_utf8;
use crate::bytes::{be_bytes, lex_le};
use crate::cursor::CursorView;
use crate::error::Error;
use crate::float::{is_nan, is_special, narrow, widen};
use crate::framing::{head, lemma_length, length, text, uint};
use crate::ipld::{key_lt, IpldView};
use crate::link::cid_binary;

verus! {

/// What encoding a value writes: all the bytes of the value, or, where a part
/// of the value cannot be encoded, the bytes up to that part and the reason.
pub struct Emitted {
    pub bytes: Seq<u8>,
    pub failure: Option<Error>,
}

impl Emitted {
    /// A complete encoding.
    pub open spec fn done(bytes: Seq<u8>) -> Emitted {
        Emitted { bytes, failure: None }
    }

    /// An encoding that stopped behind `bytes`.
    pub open spec fn failed(bytes: Seq<u8>, e: Error) -> Emitted {
        Emitted { bytes, failure: Some(e) }
    }

    /// This encoding behind `prefix`.
    pub open spec fn behind(self, prefix: Seq<u8>) -> Emitted {
        Emitted { bytes: prefix + self.bytes, failure: self.failure }
    }

    /// This encoding with `next` behind it: where this one stopped, `next` is
    /// not begun.
    pub open spec fn followed_by(self, next: Emitted) -> Emitted {
        if self.failure is Some {
            self
        } else {
            next.behind(self.bytes)
        }
    }
}

/// The encoding of a float with exponent and fraction all ones at the front:
/// the positive infinity.
pub open spec fn positive_infinity() -> Seq<u8> {
    seq![0xfau8, 0x7c, 0x00, 0x00, 0x00]
}

/// The encoding of the negative infinity.
pub open spec fn negative_infinity() -> Seq<u8> {
    seq![0xfau8, 0xff, 0x80, 0x00, 0x00]
}

/// The encoding of every NaN.
pub open spec fn not_a_number() -> Seq<u8> {
    seq![0xfau8, 0x7f, 0xc0, 0x00, 0x00]
}

/// The encoding of the double with bits `bits`: a fixed form for an infinity
/// or a NaN; else `fa` and the four bytes of the single that has the same
/// value, where there is one; else `fb` and the eight bytes of the double.
pub open spec fn float_encoding(bits: u64) -> Seq<u8> {
    if is_nan(bits) {
        not_a_number()
    } else if is_special(bits) {
        if bits >> 63 == 0 {
            positive_infinity()
        } else {
            negative_infinity()
        }
    } else {
        match narrow(bits) {
            Some(single) => seq![0xfau8] + be_bytes(single as nat, 4),
            None => seq![0xfbu8] + be_bytes(bits as nat, 8),
        }
    }
}

/// The encoding of an integer: major type 0 and the integer where it is not
/// negative, major type 1 and `-1 - i` where it is; nothing where the
/// magnitude does not fit 64 bits.
pub open spec fn integer_encoding(i: i128) -> Emitted {
    if 0 <= i <= u64::MAX {
        Emitted::done(head(0, i as nat))
    } else if -1 - u64::MAX <= i < 0 {
        Emitted::done(head(1, (-1 - i) as nat))
    } else {
        Emitted::failed(Seq::<u8>::empty(), Error::IntegerOutOfRange)
    }
}

/// The encoding of a text string: major type 3 and the number of its UTF-8
/// bytes, then those bytes.
pub open spec fn text_encoding(s: Seq<char>) -> Seq<u8> {
    head(3, encode_utf8(s).len()) + encode_utf8(s)
}

/// The encoding of a byte string: major type 2 and its length, then the bytes.
pub open spec fn bytes_encoding(b: Seq<u8>) -> Seq<u8> {
    head(2, b.len()) + b
}

/// The encoding of a link: tag 42 on a byte string that holds a zero byte
/// and then the binary form of the content identifier.
pub open spec fn link_encoding(c: Seq<u8>) -> Emitted {
    if c.len() < u64::MAX {
        Emitted::done(head(6, 42) + head(2, c.len() + 1) + seq![0u8] + c)
    } else {
        Emitted::failed(Seq::<u8>::empty(), Error::LengthOverflow)
    }
}

/// The place in `order` where the key `key` goes: behind the last index of
/// `order` whose key is before `key` or equal to it.
pub open spec fn slot(order: Seq<int>, keys: Seq<Seq<u8>>, key: Seq<u8>) -> int
    decreases order.len(),
{
    if order.len() == 0 {
        0
    } else if lex_le(keys[order.last()], key) {
        order.len() as int
    } else {
        slot(order.drop_last(), keys, key)
    }
}

/// The indices of `keys` in the order in which a map is written: ascending
/// by lexicographic order of the keys, which are encoded text strings. Equal
/// keys keep their order.
pub open spec fn canonical_order(keys: Seq<Seq<u8>>) -> Seq<int>
    decreases keys.len(),
{
    if keys.len() == 0 {
        Seq::<int>::empty()
    } else {
        let rest = canonical_order(keys.drop_last());
        rest.insert(slot(rest, keys, keys.last()), keys.len() - 1)
    }
}

/// The encoded keys of the entries of a map.
pub open spec fn encoded_keys(m: Seq<(Seq<char>, IpldView)>) -> Seq<Seq<u8>> {
    Seq::new(m.len(), |i: int| text_encoding(m[i].0))
}

/// What encoding `v` writes.
pub open spec fn emit(v: IpldView) -> Emitted
    decreases v, 0nat,
{
    match v {
        IpldView::Null => Emitted::done(seq![0xf6u8]),
        IpldView::Bool(b) => Emitted::done(
            seq![if b {
                0xf5u8
            } else {
                0xf4u8
            }],
        ),
        IpldView::Integer(i) => integer_encoding(i),
        IpldView::Float(bits) => Emitted::done(float_encoding(bits)),
        IpldView::String(s) => Emitted::done(text_encoding(s)),
        IpldView::Bytes(b) => Emitted::done(bytes_encoding(b)),
        IpldView::List(l) => emit_items(l).behind(head(4, l.len())),
        IpldView::StringMap(m) => emit_entries(m, canonical_order(encoded_keys(m))).behind(
            head(5, m.len()),
        ),
        IpldView::Link(c) => link_encoding(c),
    }
}

/// What encoding the values of `items` one after the other writes.
pub open spec fn emit_items(items: Seq<IpldView>) -> Emitted
    decreases items, 1nat,
{
    if items.len() == 0 {
        Emitted::done(Seq::<u8>::empty())
    } else {
        let first = emit(items[0]);
        if first.failure is Some {
            first
        } else {
            emit_items(items.drop_first()).behind(first.bytes)
        }
    }
}

/// What encoding the entries of `m` writes, taken in the order `order`: for
/// each entry its key as a text string, then its value.
pub open spec fn emit_entries(m: Seq<(Seq<char>, IpldView)>, order: Seq<int>) -> Emitted
    decreases m, order.len(),
{
    if order.len() == 0 {
        Emitted::done(Seq::<u8>::empty())
    } else if 0 <= order[0] < m.len() {
        let entry = m[order[0]];
        let value = emit(entry.1).behind(text_encoding(entry.0));
        if value.failure is Some {
            value
        } else {
            emit_entries(m, order.drop_first()).behind(value.bytes)
        }
    } else {
        Emitted::done(Seq::<u8>::empty())
    }
}

/// The bytes that encode `v`.
pub open spec fn encoding(v: IpldView) -> Seq<u8> {
    emit(v).bytes
}

/// Whether `v` has an encoding: every integer in it fits, and no link is too
/// long for a length prefix.
pub open spec fn encodable(v: IpldView) -> bool {
    emit(v).failure is None
}

/// The map `m` with the value `v` under the key `k`: in place of the value
/// that `k` had, or as a new entry at the place that keeps the keys ascending.
pub open spec fn map_insert<V>(m: Seq<(Seq<char>, V)>, k: Seq<char>, v: V) -> Seq<(Seq<char>, V)>
    decreases m.len(),
{
    if m.len() == 0 {
        seq![(k, v)]
    } else if m.last().0 == k {
        m.drop_last().push((k, v))
    } else if key_lt(m.last().0, k) {
        m.push((k, v))
    } else {
        map_insert(m.drop_last(), k, v).push(m.last())
    }
}

/// What is read as a link behind tag 42: a byte string with a one-byte
/// length that is not zero, whose first byte is zero and whose other bytes
/// begin with a content identifier.
pub open spec fn link(c: CursorView) -> Result<(Seq<u8>, CursorView), Error> {
    match uint(c, 1) {
        Err(e) => Err(e),
        Ok((ty, c1)) => if ty != 0x58 {
            Err(Error::UnexpectedTag(ty as u8))
        } else {
            match uint(c1, 1) {
                Err(e) => Err(e),
                Ok((len, c2)) => if len == 0 {
                    Err(Error::InvalidLink)
                } else {
                    match c2.take(len) {
                        Err(e) => Err(e),
                        Ok((bytes, c3)) => if bytes[0] != 0 {
                            Err(Error::InvalidLink)
                        } else {
                            match cid_binary(bytes.skip(1)) {
                                Some(binary) => Ok((binary, c3)),
                                None => Err(Error::InvalidLink),
                            }
                        },
                    }
                },
            }
        },
    }
}

/// What is read behind the initial byte of a text string whose length goes
/// with the additional information `info`.
pub open spec fn parse_string(c: CursorView, info: u8) -> Result<(Seq<char>, CursorView), Error> {
    match length(c, info) {
        Err(e) => Err(e),
        Ok((n, c1)) => text(c1, n),
    }
}

/// What is read as a text string: the key of a map entry.
pub open spec fn parse_text(c: CursorView) -> Result<(Seq<char>, CursorView), Error> {
    match uint(c, 1) {
        Err(e) => Err(e),
        Ok((b, c1)) => if 0x60 <= b <= 0x7b {
            parse_string(c1, (b - 0x60) as u8)
        } else {
            Err(Error::UnexpectedCode(b as u8))
        },
    }
}

/// What is read behind the initial byte `b` of an integer that is not
/// negative: the additional information up to 23, else the number in the
/// bytes that follow.
pub open spec fn parse_unsigned(b: u8, c: CursorView) -> Result<(IpldView, CursorView), Error> {
    if b <= 0x17 {
        Ok((IpldView::Integer(b as i128), c))
    } else {
        match uint(c, trailing(b)) {
            Err(e) => Err(e),
            Ok((n, c1)) => Ok((IpldView::Integer(n as i128), c1)),
        }
    }
}

/// What is read behind the initial byte `b` of a negative integer: `-1 - n`
/// for the number `n` that the additional information or the bytes that
/// follow hold.
pub open spec fn parse_negative(b: u8, c: CursorView) -> Result<(IpldView, CursorView), Error> {
    if b <= 0x37 {
        Ok((IpldView::Integer((-1 - (b - 0x20)) as i128), c))
    } else {
        match uint(c, trailing(b)) {
            Err(e) => Err(e),
            Ok((n, c1)) => Ok((IpldView::Integer((-1 - n) as i128), c1)),
        }
    }
}

/// What is read behind the initial byte of a byte string whose length goes
/// with the additional information `info`.
pub open spec fn parse_bytes(c: CursorView, info: u8) -> Result<(IpldView, CursorView), Error> {
    match length(c, info) {
        Err(e) => Err(e),
        Ok((n, c1)) => match c1.take(n) {
            Err(e) => Err(e),
            Ok((bytes, c2)) => Ok((IpldView::Bytes(bytes), c2)),
        },
    }
}

/// What is read behind the initial byte `fa` or `fb` of a float: the double
/// that has the value of the single in the next four bytes, or the double in
/// the next eight.
pub open spec fn parse_float(b: u8, c: CursorView) -> Result<(IpldView, CursorView), Error> {
    if b == 0xfa {
        match uint(c, 4) {
            Err(e) => Err(e),
            Ok((n, c1)) => Ok((IpldView::Float(widen(n as u32)), c1)),
        }
    } else {
        match uint(c, 8) {
            Err(e) => Err(e),
            Ok((n, c1)) => Ok((IpldView::Float(n as u64), c1)),
        }
    }
}

/// A text string that was read, as a value of the data model.
pub open spec fn as_string(read: Result<(Seq<char>, CursorView), Error>) -> Result<
    (IpldView, CursorView),
    Error,
> {
    match read {
        Ok((s, c)) => Ok((IpldView::String(s), c)),
        Err(e) => Err(e),
    }
}

/// A list that was read, as a value of the data model.
pub open spec fn as_list(read: Result<(Seq<IpldView>, CursorView), Error>) -> Result<
    (IpldView, CursorView),
    Error,
> {
    match read {
        Ok((l, c)) => Ok((IpldView::List(l), c)),
        Err(e) => Err(e),
    }
}

/// A map that was read, as a value of the data model.
pub open spec fn as_map(read: Result<(Seq<(Seq<char>, IpldView)>, CursorView), Error>) -> Result<
    (IpldView, CursorView),
    Error,
> {
    match read {
        Ok((m, c)) => Ok((IpldView::StringMap(m), c)),
        Err(e) => Err(e),
    }
}

/// A link that was read, as a value of the data model.
pub open spec fn as_link(read: Result<(Seq<u8>, CursorView), Error>) -> Result<
    (IpldView, CursorView),
    Error,
> {
    match read {
        Ok((binary, c)) => Ok((IpldView::Link(binary), c)),
        Err(e) => Err(e),
    }
}

/// What is read as one value at the cursor, and the cursor behind it.
#[verifier::opaque]
pub open spec fn parse(c: CursorView) -> Result<(IpldView, CursorView), Error>
    decreases c.remaining(), 0nat, 0nat,
{
    match uint(c, 1) {
        Err(e) => Err(e),
        Ok((b, c1)) => {
            if b <= 0x1b {
                parse_unsigned(b as u8, c1)
            } else if 0x20 <= b <= 0x3b {
                parse_negative(b as u8, c1)
            } else if 0x40 <= b <= 0x5b {
                parse_bytes(c1, (b - 0x40) as u8)
            } else if 0x60 <= b <= 0x7b {
                as_string(parse_string(c1, (b - 0x60) as u8))
            } else if 0x80 <= b <= 0x9b {
                parse_list(c1, (b - 0x80) as u8)
            } else if b == 0x9f {
                as_list(parse_items_to_break(c1, Seq::<IpldView>::empty()))
            } else if 0xa0 <= b <= 0xbb {
                parse_map(c1, (b - 0xa0) as u8)
            } else if b == 0xbf {
                as_map(parse_entries_to_break(c1, Seq::<(Seq<char>, IpldView)>::empty()))
            } else if b == 0xd8 {
                parse_tagged(c1)
            } else if b == 0xf4 {
                Ok((IpldView::Bool(false), c1))
            } else if b == 0xf5 {
                Ok((IpldView::Bool(true), c1))
            } else if b == 0xf6 || b == 0xf7 {
                Ok((IpldView::Null, c1))
            } else if b == 0xfa || b == 0xfb {
                parse_float(b as u8, c1)
            } else {
                Err(Error::UnexpectedCode(b as u8))
            }
        },
    }
}

/// What is read behind the initial byte of a list whose length goes with the
/// additional information `info`.
#[verifier::opaque]
pub open spec fn parse_list(c: CursorView, info: u8) -> Result<(IpldView, CursorView), Error>
    decreases c.remaining(), 2nat, 0nat,
{
    match length(c, info) {
        Err(e) => Err(e),
        Ok((n, c1)) => {
            proof {
                lemma_length(c, info);
            }
            as_list(parse_items(c1, n, Seq::<IpldView>::empty()))
        },
    }
}

/// What is read behind the initial byte of a map whose length goes with the
/// additional information `info`.
#[verifier::opaque]
pub open spec fn parse_map(c: CursorView, info: u8) -> Result<(IpldView, CursorView), Error>
    decreases c.remaining(), 3nat, 0nat,
{
    match length(c, info) {
        Err(e) => Err(e),
        Ok((n, c1)) => {
            proof {
                lemma_length(c, info);
            }
            as_map(parse_entries(c1, n, Seq::<(Seq<char>, IpldView)>::empty()))
        },
    }
}

/// What is read behind the initial byte of a tag: a link, where the tag is
/// 42.
pub open spec fn parse_tagged(c: CursorView) -> Result<(IpldView, CursorView), Error> {
    match uint(c, 1) {
        Err(e) => Err(e),
        Ok((tag, c1)) => if tag == 42 {
            as_link(link(c1))
        } else {
            Err(Error::UnexpectedTag(tag as u8))
        },
    }
}

/// The number of bytes that follow an initial byte whose additional
/// information is 24, 25, 26 or 27: 1, 2, 4 or 8.
pub open spec fn trailing(b: u8) -> nat {
    let info = b % 32;
    if info == 24 {
        1
    } else if info == 25 {
        2
    } else if info == 26 {
        4
    } else {
        8
    }
}

/// What is read as `n` values one after the other, behind the values `done`.
#[verifier::opaque]
pub open spec fn parse_items(c: CursorView, n: nat, done: Seq<IpldView>) -> Result<
    (Seq<IpldView>, CursorView),
    Error,
>
    decreases c.remaining(), 1nat, n,
{
    if n == 0 {
        Ok((done, c))
    } else {
        match parse(c) {
            Err(e) => Err(e),
            Ok((v, c1)) => if c1.remaining() < c.remaining() {
                parse_items(c1, (n - 1) as nat, done.push(v))
            } else {
                Err(Error::ShortRead)
            },
        }
    }
}

/// What is read as values up to the byte `ff`, behind the values `done`.
#[verifier::opaque]
pub open spec fn parse_items_to_break(c: CursorView, done: Seq<IpldView>) -> Result<
    (Seq<IpldView>, CursorView),
    Error,
>
    decreases c.remaining(), 2nat, 0nat,
{
    match uint(c, 1) {
        Err(e) => Err(e),
        Ok((b, c1)) => if b == 0xff {
            Ok((done, c1))
        } else {
            match parse(c) {
                Err(e) => Err(e),
                Ok((v, c2)) => if c2.remaining() < c.remaining() {
                    parse_items_to_break(c2, done.push(v))
                } else {
                    Err(Error::ShortRead)
                },
            }
        },
    }
}

/// What is read as one entry of a map: a text string and a value.
#[verifier::opaque]
pub open spec fn parse_entry(c: CursorView) -> Result<((Seq<char>, IpldView), CursorView), Error>
    decreases c.remaining(), 1nat, 0nat,
{
    match parse_text(c) {
        Err(e) => Err(e),
        Ok((k, c1)) => if c1.remaining() < c.remaining() {
            match parse(c1) {
                Err(e) => Err(e),
                Ok((v, c2)) => Ok(((k, v), c2)),
            }
        } else {
            Err(Error::ShortRead)
        },
    }
}

/// What is read as `n` entries one after the other, put into the map `done`;
/// of two entries with one key the later one stays.
#[verifier::opaque]
pub open spec fn parse_entries(c: CursorView, n: nat, done: Seq<(Seq<char>, IpldView)>) -> Result<
    (Seq<(Seq<char>, IpldView)>, CursorView),
    Error,
>
    decreases c.remaining(), 2nat, n,
{
    if n == 0 {
        Ok((done, c))
    } else {
        match parse_entry(c) {
            Err(e) => Err(e),
            Ok((entry, c1)) => if c1.remaining() < c.remaining() {
                parse_entries(c1, (n - 1) as nat, map_insert(done, entry.0, entry.1))
            } else {
                Err(Error::ShortRead)
            },
        }
    }
}

/// What is read as entries up to the byte `ff`, put into the map `done`.
#[verifier::opaque]
pub open spec fn parse_entries_to_break(c: CursorView, done: Seq<(Seq<char>, IpldView)>) -> Result<
    (Seq<(Seq<char>, IpldView)>, CursorView),
    Error,
>
    decreases c.remaining(), 3nat, 0nat,
{
    match uint(c, 1) {
        Err(e) => Err(e),
        Ok((b, c1)) => if b == 0xff {
            Ok((done, c1))
        } else {
            match parse_entry(c) {
                Err(e) => Err(e),
                Ok((entry, c2)) => if c2.remaining() < c.remaining() {
                    parse_entries_to_break(c2, map_insert(done, entry.0, entry.1))
                } else {
                    Err(Error::ShortRead)
                },
            }
        },
    }
}

} // verus!
