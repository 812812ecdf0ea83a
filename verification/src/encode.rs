//! Encoding: every value has one byte string.

use vstd::prelude::*;
use vstd::utf8::encode_utf8;
use crate::bytes::{be_bytes, be_write_u32, be_write_u64, lemma_be_bytes_len, lex_before_or_equal};
use crate::codec::{
    encoded, lemma_partly_behind, lemma_partly_more, DagCborCodec, Encode,
};
use crate::cursor::{lemma_put_put, wrote, ByteCursor, CursorView};
use crate::error::Error;
use crate::float::{is_nan_single, is_special_single, narrow_bits};
use crate::framing::{head, write_null, write_tag, write_u64};
use crate::ipld::{entries_view, lemma_entries_view, lemma_list_view, list_view, view_of, Ipld};
use crate::link::Cid;
use crate::wire::{
    bytes_encoding, canonical_order, emit, emit_entries, emit_items, encoded_keys, float_encoding,
    integer_encoding, link_encoding, negative_infinity, not_a_number, positive_infinity, slot,
    text_encoding, Emitted,
};

verus! {

/// An encoding of `a` that succeeded, followed by an encoding of `b`, is an
/// encoding of `b` behind the bytes of `a`; and where the first stopped, so
/// did the whole.
pub proof fn lemma_encoded_then(
    before: CursorView,
    a: Emitted,
    r1: Result<(), Error>,
    mid: CursorView,
    b: Emitted,
    r2: Result<(), Error>,
    after: CursorView,
)
    requires
        encoded(before, a, r1, mid),
        r1 is Ok ==> encoded(mid, b, r2, after),
    ensures
        r1 is Ok ==> encoded(before, b.behind(a.bytes), r2, after),
        r1 is Err ==> encoded(before, a, r1, mid) && (a.failure is None ==> encoded(
            before,
            b.behind(a.bytes),
            r1,
            mid,
        )),
{
    lemma_put_put(before, a.bytes, b.bytes);
    if r1 is Ok {
        if mid.put(b.bytes) is Err {
            lemma_partly_behind(before, a.bytes, mid, b.bytes, after);
        }
    } else if a.failure is None {
        lemma_partly_more(before, a.bytes, b.bytes, mid);
    }
}

impl Encode<DagCborCodec> for bool {
    open spec fn emitted(&self) -> Emitted {
        Emitted::done(
            seq![if *self {
                0xf5u8
            } else {
                0xf4u8
            }],
        )
    }

    /// Writes `f5` for true and `f4` for false.
    fn encode(&self, _c: DagCborCodec, w: &mut ByteCursor) -> (r: Result<(), Error>) {
        let buf: [u8; 1] = if *self {
            [0xf5]
        } else {
            [0xf4]
        };
        assert(buf@ =~= self.emitted().bytes);
        w.write_all(&buf)
    }
}

impl Encode<DagCborCodec> for i128 {
    open spec fn emitted(&self) -> Emitted {
        integer_encoding(*self)
    }

    /// Writes an integer in the least width; one whose magnitude does not
    /// fit 64 bits is an error, and nothing is written.
    fn encode(&self, _c: DagCborCodec, w: &mut ByteCursor) -> (r: Result<(), Error>) {
        if *self < 0 {
            if -(*self + 1) > u64::MAX as i128 {
                return Err(Error::IntegerOutOfRange);
            }
            write_u64(w, 1, (-(*self + 1)) as u64)
        } else {
            if *self > u64::MAX as i128 {
                return Err(Error::IntegerOutOfRange);
            }
            write_u64(w, 0, *self as u64)
        }
    }
}

impl Encode<DagCborCodec> for [u8] {
    open spec fn emitted(&self) -> Emitted {
        Emitted::done(bytes_encoding(self@))
    }

    /// Writes a byte string: its length, then its bytes.
    fn encode(&self, _c: DagCborCodec, w: &mut ByteCursor) -> (r: Result<(), Error>) {
        let ghost start = w@;
        let ghost h = Emitted::done(head(2, self@.len()));
        let ghost body = Emitted::done(self@);
        let r1 = write_u64(w, 2, self.len() as u64);
        let ghost mid = w@;
        if r1.is_err() {
            proof {
                lemma_encoded_then(start, h, r1, mid, body, r1, mid);
            }
            return r1;
        }
        let r2 = w.write_all(self);
        proof {
            lemma_encoded_then(start, h, r1, mid, body, r2, w@);
        }
        r2
    }
}

impl Encode<DagCborCodec> for str {
    open spec fn emitted(&self) -> Emitted {
        Emitted::done(text_encoding(self@))
    }

    /// Writes a text string: the number of its UTF-8 bytes, then those bytes.
    fn encode(&self, _c: DagCborCodec, w: &mut ByteCursor) -> (r: Result<(), Error>) {
        let bytes = self.as_bytes();
        let ghost start = w@;
        let ghost h = Emitted::done(head(3, encode_utf8(self@).len()));
        let ghost body = Emitted::done(encode_utf8(self@));
        let r1 = write_u64(w, 3, bytes.len() as u64);
        let ghost mid = w@;
        if r1.is_err() {
            proof {
                lemma_encoded_then(start, h, r1, mid, body, r1, mid);
            }
            return r1;
        }
        let r2 = w.write_all(bytes);
        proof {
            lemma_encoded_then(start, h, r1, mid, body, r2, w@);
        }
        r2
    }
}

impl Encode<DagCborCodec> for String {
    open spec fn emitted(&self) -> Emitted {
        Emitted::done(text_encoding(self@))
    }

    /// Writes a text string.
    fn encode(&self, c: DagCborCodec, w: &mut ByteCursor) -> (r: Result<(), Error>) {
        self.as_str().encode(c, w)
    }
}

impl Encode<DagCborCodec> for Cid {
    open spec fn emitted(&self) -> Emitted {
        link_encoding(self@)
    }

    /// Writes a link: tag 42, then a byte string of a zero byte and the
    /// binary form of the identifier.
    fn encode(&self, _c: DagCborCodec, w: &mut ByteCursor) -> (r: Result<(), Error>) {
        let buf = self.as_bytes();
        let len = buf.len();
        if len as u64 >= u64::MAX {
            return Err(Error::LengthOverflow);
        }
        let ghost start = w@;
        let ghost tag = head(6, 42);
        let ghost size = head(2, (len + 1) as nat);
        let ghost all = tag + size + seq![0u8] + buf@;
        let r1 = write_tag(w, 42);
        let ghost c1 = w@;
        if r1.is_err() {
            proof {
                lemma_encoded_then(
                    start,
                    Emitted::done(tag),
                    r1,
                    c1,
                    Emitted::done(size + seq![0u8] + buf@),
                    r1,
                    c1,
                );
                assert(tag + (size + seq![0u8] + buf@) =~= all);
            }
            return r1;
        }
        let r2 = write_u64(w, 2, len as u64 + 1);
        let ghost c2 = w@;
        proof {
            lemma_encoded_then(start, Emitted::done(tag), r1, c1, Emitted::done(size), r2, c2);
        }
        if r2.is_err() {
            proof {
                lemma_encoded_then(
                    start,
                    Emitted::done(tag + size),
                    r2,
                    c2,
                    Emitted::done(seq![0u8] + buf@),
                    r2,
                    c2,
                );
                assert((tag + size) + (seq![0u8] + buf@) =~= all);
            }
            return r2;
        }
        let zero: [u8; 1] = [0];
        assert(zero@ =~= seq![0u8]);
        let r3 = w.write_all(&zero);
        let ghost c3 = w@;
        proof {
            lemma_encoded_then(
                start,
                Emitted::done(tag + size),
                r2,
                c2,
                Emitted::done(seq![0u8]),
                r3,
                c3,
            );
        }
        if r3.is_err() {
            proof {
                lemma_encoded_then(
                    start,
                    Emitted::done(tag + size + seq![0u8]),
                    r3,
                    c3,
                    Emitted::done(buf@),
                    r3,
                    c3,
                );
            }
            return r3;
        }
        let r4 = w.write_all(buf);
        proof {
            lemma_encoded_then(
                start,
                Emitted::done(tag + size + seq![0u8]),
                r3,
                c3,
                Emitted::done(buf@),
                r4,
                w@,
            );
        }
        r4
    }
}

/// One step of an encoding in parts: behind the bytes `acc`, which have been
/// written from `start`, a part `e` was encoded; `tail` is what would follow
/// it. Where the step succeeded, the bytes of `e` have been written too;
/// where it failed, the whole encoding failed with it.
pub proof fn lemma_encoded_step(
    start: CursorView,
    acc: Seq<u8>,
    before: CursorView,
    e: Emitted,
    tail: Emitted,
    r: Result<(), Error>,
    after: CursorView,
)
    requires
        start.put(acc) == Ok::<CursorView, Error>(before),
        encoded(before, e, r, after),
    ensures
        r is Ok ==> start.put(acc + e.bytes) == Ok::<CursorView, Error>(after) && e.failure is None,
        r is Err ==> encoded(
            start,
            (if e.failure is Some {
                e
            } else {
                tail.behind(e.bytes)
            }).behind(acc),
            r,
            after,
        ),
{
    lemma_put_put(start, acc, e.bytes);
    lemma_put_put(before, e.bytes, tail.bytes);
    lemma_put_put(start, acc, e.bytes + tail.bytes);
    if before.put(e.bytes) is Err {
        lemma_partly_behind(start, acc, before, e.bytes, after);
        if e.failure is None {
            lemma_partly_more(start, acc + e.bytes, tail.bytes, after);
            assert((acc + e.bytes) + tail.bytes =~= acc + (e.bytes + tail.bytes));
        }
    }
}

/// Writes the five bytes of a single-precision float given by its bits: a
/// fixed form for an infinity or a NaN, else `fa` and the bits.
pub fn write_single(w: &mut ByteCursor, bits: u32) -> (r: Result<(), Error>)
    ensures
        wrote(old(w)@, single_encoding(bits), r, final(w)@),
{
    if (bits >> 23) & 0xff == 0xff {
        if bits & 0x7f_ffff != 0 {
            let buf: [u8; 5] = [0xfa, 0x7f, 0xc0, 0x00, 0x00];
            assert(buf@ =~= not_a_number());
            w.write_all(&buf)
        } else if bits >> 31 == 0 {
            let buf: [u8; 5] = [0xfa, 0x7c, 0x00, 0x00, 0x00];
            assert(buf@ =~= positive_infinity());
            w.write_all(&buf)
        } else {
            let buf: [u8; 5] = [0xfa, 0xff, 0x80, 0x00, 0x00];
            assert(buf@ =~= negative_infinity());
            w.write_all(&buf)
        }
    } else {
        let mut tail: [u8; 4] = [0, 0, 0, 0];
        be_write_u32(&mut tail, bits);
        let buf: [u8; 5] = [0xfa, tail[0], tail[1], tail[2], tail[3]];
        proof {
            lemma_be_bytes_len(bits as nat, 4);
            assert(buf@ =~= seq![0xfau8] + be_bytes(bits as nat, 4));
        }
        w.write_all(&buf)
    }
}

/// The encoding of the single with bits `bits`: a fixed form for an infinity
/// or a NaN, else `fa` and the four bytes of the bits.
pub open spec fn single_encoding(bits: u32) -> Seq<u8> {
    if is_nan_single(bits) {
        not_a_number()
    } else if is_special_single(bits) {
        if bits >> 31 == 0 {
            positive_infinity()
        } else {
            negative_infinity()
        }
    } else {
        seq![0xfau8] + be_bytes(bits as nat, 4)
    }
}

/// Writes a double-precision float given by its bits: in five bytes where a
/// single has the same value, or where it is an infinity or a NaN; else in
/// nine bytes.
pub fn write_double(w: &mut ByteCursor, bits: u64) -> (r: Result<(), Error>)
    ensures
        wrote(old(w)@, float_encoding(bits), r, final(w)@),
{
    if (bits >> 52) & 0x7ff == 0x7ff {
        if bits & 0x000f_ffff_ffff_ffff != 0 {
            let buf: [u8; 5] = [0xfa, 0x7f, 0xc0, 0x00, 0x00];
            assert(buf@ =~= not_a_number());
            w.write_all(&buf)
        } else if bits >> 63 == 0 {
            let buf: [u8; 5] = [0xfa, 0x7c, 0x00, 0x00, 0x00];
            assert(buf@ =~= positive_infinity());
            w.write_all(&buf)
        } else {
            let buf: [u8; 5] = [0xfa, 0xff, 0x80, 0x00, 0x00];
            assert(buf@ =~= negative_infinity());
            w.write_all(&buf)
        }
    } else {
        match narrow_bits(bits) {
            Some(single) => {
                let mut tail: [u8; 4] = [0, 0, 0, 0];
                be_write_u32(&mut tail, single);
                let buf: [u8; 5] = [0xfa, tail[0], tail[1], tail[2], tail[3]];
                proof {
                    lemma_be_bytes_len(single as nat, 4);
                    assert(buf@ =~= seq![0xfau8] + be_bytes(single as nat, 4));
                }
                w.write_all(&buf)
            },
            None => {
                let mut tail: [u8; 8] = [0, 0, 0, 0, 0, 0, 0, 0];
                be_write_u64(&mut tail, bits);
                let buf: [u8; 9] = [
                    0xfb,
                    tail[0],
                    tail[1],
                    tail[2],
                    tail[3],
                    tail[4],
                    tail[5],
                    tail[6],
                    tail[7],
                ];
                proof {
                    lemma_be_bytes_len(bits as nat, 8);
                    assert(buf@ =~= seq![0xfbu8] + be_bytes(bits as nat, 8));
                }
                w.write_all(&buf)
            },
        }
    }
}

/// The encoding of a text string, in a buffer of its own.
pub fn text_encoding_of(s: &str) -> (out: Vec<u8>)
    ensures
        out@ == text_encoding(s@),
{
    let bytes = s.as_bytes();
    let mut scratch = ByteCursor::new(Vec::new());
    proof {
        lemma_be_bytes_len(bytes@.len(), crate::framing::width(bytes@.len()));
        assert(scratch@.write(head(3, bytes@.len())).bytes =~= head(3, bytes@.len()));
    }
    let r = write_u64(&mut scratch, 3, bytes.len() as u64);
    let mut out = scratch.into_inner();
    let mut i: usize = 0;
    while i < bytes.len()
        invariant
            i <= bytes@.len(),
            out@ == head(3, bytes@.len()) + bytes@.subrange(0, i as int),
        decreases bytes@.len() - i,
    {
        out.push(bytes[i]);
        assert(bytes@.subrange(0, i as int).push(bytes@[i as int]) =~= bytes@.subrange(0, i + 1));
        i += 1;
    }
    assert(bytes@.subrange(0, i as int) =~= bytes@);
    out
}

/// The places of a list of indices as integers.
pub open spec fn ints(order: Seq<usize>) -> Seq<int> {
    order.map_values(|x: usize| x as int)
}

/// The byte strings of a list of buffers.
pub open spec fn buffers(keys: Seq<Vec<u8>>) -> Seq<Seq<u8>> {
    keys.map_values(|k: Vec<u8>| k@)
}

/// The order of a prefix of the keys does not depend on the keys behind it.
proof fn lemma_slot_prefix(order: Seq<int>, keys: Seq<Seq<u8>>, j: int, key: Seq<u8>)
    requires
        0 <= j <= keys.len(),
        forall|k: int| 0 <= k < order.len() ==> 0 <= #[trigger] order[k] < j,
    ensures
        slot(order, keys.take(j), key) == slot(order, keys, key),
    decreases order.len(),
{
    if order.len() > 0 {
        lemma_slot_prefix(order.drop_last(), keys, j, key);
    }
}

/// The indices of `keys` in the order in which a map with these encoded keys
/// is written.
pub fn canonical_order_of(keys: &Vec<Vec<u8>>) -> (order: Vec<usize>)
    ensures
        ints(order@) == canonical_order(buffers(keys@)),
        order@.len() == keys@.len(),
        forall|k: int| 0 <= k < order@.len() ==> #[trigger] order@[k] < keys@.len(),
{
    let ghost all = buffers(keys@);
    let mut order: Vec<usize> = Vec::new();
    let mut j: usize = 0;
    assert(ints(order@) =~= canonical_order(all.take(0)));
    while j < keys.len()
        invariant
            j <= keys@.len(),
            all == buffers(keys@),
            order@.len() == j,
            ints(order@) == canonical_order(all.take(j as int)),
            forall|k: int| 0 <= k < order@.len() ==> #[trigger] order@[k] < j,
        decreases keys@.len() - j,
    {
        let ghost before = ints(order@);
        let mut p: usize = order.len();
        assert(before.take(p as int) =~= before);
        while p > 0 && !lex_before_or_equal(keys[order[p - 1]].as_slice(), keys[j].as_slice())
            invariant
                p <= order@.len(),
                j < keys@.len(),
                all == buffers(keys@),
                before == ints(order@),
                forall|k: int| 0 <= k < order@.len() ==> #[trigger] order@[k] < j,
                slot(before, all, all[j as int]) == slot(before.take(p as int), all, all[j as int]),
            decreases p,
        {
            assert(before.take(p as int).drop_last() =~= before.take(p - 1));
            p -= 1;
        }
        proof {
            assert(before.take(order@.len() as int) =~= before);
            let next = all.take(j + 1);
            assert(next.drop_last() =~= all.take(j as int));
            assert(next.last() == all[j as int]);
            lemma_slot_prefix(before, all, j + 1, all[j as int]);
            assert(slot(before, all, all[j as int]) == p);
        }
        order.insert(p, j);
        assert(ints(order@) =~= before.insert(p as int, j as int));
        j += 1;
    }
    assert(all.take(j as int) =~= all);
    order
}

/// Writes a value of the data model.
pub fn encode_ipld(v: &Ipld, w: &mut ByteCursor) -> (r: Result<(), Error>)
    ensures
        encoded(old(w)@, emit(view_of(*v)), r, final(w)@),
    decreases v, 0nat,
{
    match v {
        Ipld::Null => write_null(w),
        Ipld::Bool(b) => b.encode(DagCborCodec, w),
        Ipld::Integer(i) => i.encode(DagCborCodec, w),
        Ipld::Float(bits) => write_double(w, *bits),
        Ipld::Bytes(b) => b.as_slice().encode(DagCborCodec, w),
        Ipld::String(s) => s.encode(DagCborCodec, w),
        Ipld::List(l) => {
            let ghost start = w@;
            let ghost items = list_view(l@);
            proof {
                lemma_list_view(l@);
            }
            let r1 = write_u64(w, 4, l.len() as u64);
            let ghost mid = w@;
            if r1.is_err() {
                proof {
                    lemma_encoded_then(
                        start,
                        Emitted::done(head(4, l@.len())),
                        r1,
                        mid,
                        emit_items(items),
                        r1,
                        mid,
                    );
                }
                return r1;
            }
            let r2 = encode_items(l, w);
            proof {
                lemma_encoded_then(
                    start,
                    Emitted::done(head(4, l@.len())),
                    r1,
                    mid,
                    emit_items(items),
                    r2,
                    w@,
                );
            }
            r2
        },
        Ipld::StringMap(m) => {
            let ghost start = w@;
            let ghost entries = entries_view(m@);
            proof {
                lemma_entries_view(m@);
            }
            let r1 = write_u64(w, 5, m.len() as u64);
            let ghost mid = w@;
            let ghost body = emit_entries(entries, canonical_order(encoded_keys(entries)));
            if r1.is_err() {
                proof {
                    lemma_encoded_then(
                        start,
                        Emitted::done(head(5, m@.len())),
                        r1,
                        mid,
                        body,
                        r1,
                        mid,
                    );
                }
                return r1;
            }
            let r2 = encode_entries(m, w);
            proof {
                lemma_encoded_then(start, Emitted::done(head(5, m@.len())), r1, mid, body, r2, w@);
            }
            r2
        },
        Ipld::Link(c) => c.encode(DagCborCodec, w),
    }
}

/// Writes the values of a list one after the other.
pub fn encode_items(l: &Vec<Ipld>, w: &mut ByteCursor) -> (r: Result<(), Error>)
    ensures
        encoded(old(w)@, emit_items(list_view(l@)), r, final(w)@),
    decreases l, 1nat,
{
    let ghost start = w@;
    let ghost items = list_view(l@);
    let ghost mut acc: Seq<u8> = Seq::empty();
    let mut i: usize = 0;
    proof {
        lemma_list_view(l@);
        assert(items.skip(0) =~= items);
        assert(acc + emit_items(items).bytes =~= emit_items(items).bytes);
    }
    while i < l.len()
        invariant
            i <= l@.len(),
            items == list_view(l@),
            items.len() == l@.len(),
            forall|j: int| 0 <= j < l@.len() ==> (#[trigger] items[j]) == view_of(l@[j]),
            start == old(w)@,
            start.put(acc) == Ok::<CursorView, Error>(w@),
            emit_items(items) == emit_items(items.skip(i as int)).behind(acc),
        decreases l@.len() - i,
    {
        let ghost before = w@;
        let ghost rest = items.skip(i as int);
        let ghost e = emit(rest[0]);
        let ghost tail = emit_items(items.skip(i + 1));
        proof {
            vstd::std_specs::vec::axiom_vec_index_decreases(*l, i as int);
            assert(rest.drop_first() =~= items.skip(i + 1));
            assert(emit_items(rest) == if e.failure is Some {
                e
            } else {
                tail.behind(e.bytes)
            });
        }
        let r = encode_ipld(&l[i], w);
        proof {
            lemma_encoded_step(start, acc, before, e, tail, r, w@);
        }
        if r.is_err() {
            return r;
        }
        proof {
            assert(tail.behind(e.bytes).behind(acc).bytes =~= tail.behind(acc + e.bytes).bytes);
            acc = acc + e.bytes;
        }
        i += 1;
    }
    proof {
        assert(acc + Seq::<u8>::empty() =~= acc);
    }
    Ok(())
}

/// Writes the entries of a map, each as its key and its value, in the
/// lexicographic order of the encoded keys.
pub fn encode_entries(m: &Vec<(String, Ipld)>, w: &mut ByteCursor) -> (r: Result<(), Error>)
    ensures
        encoded(
            old(w)@,
            emit_entries(entries_view(m@), canonical_order(encoded_keys(entries_view(m@)))),
            r,
            final(w)@,
        ),
    decreases m, 1nat,
{
    let ghost start = w@;
    let ghost entries = entries_view(m@);
    proof {
        lemma_entries_view(m@);
    }
    let mut keys: Vec<Vec<u8>> = Vec::new();
    let mut k: usize = 0;
    while k < m.len()
        invariant
            k <= m@.len(),
            keys@.len() == k,
            entries == entries_view(m@),
            entries.len() == m@.len(),
            forall|j: int|
                0 <= j < m@.len() ==> (#[trigger] entries[j]) == (m@[j].0@, view_of(m@[j].1)),
            forall|j: int| 0 <= j < k ==> (#[trigger] keys@[j])@ == text_encoding(entries[j].0),
        decreases m@.len() - k,
    {
        keys.push(text_encoding_of(m[k].0.as_str()));
        k += 1;
    }
    assert(buffers(keys@) =~= encoded_keys(entries));
    let order = canonical_order_of(&keys);
    let ghost places = ints(order@);
    let ghost mut acc: Seq<u8> = Seq::empty();
    let mut i: usize = 0;
    proof {
        assert(places.skip(0) =~= places);
        assert(acc + emit_entries(entries, places).bytes =~= emit_entries(entries, places).bytes);
    }
    while i < order.len()
        invariant
            i <= order@.len(),
            order@.len() == m@.len(),
            keys@.len() == m@.len(),
            places == ints(order@),
            places == canonical_order(encoded_keys(entries)),
            entries == entries_view(m@),
            entries.len() == m@.len(),
            forall|j: int|
                0 <= j < m@.len() ==> (#[trigger] entries[j]) == (m@[j].0@, view_of(m@[j].1)),
            forall|j: int| 0 <= j < m@.len() ==> (#[trigger] keys@[j])@ == text_encoding(entries[j].0),
            forall|j: int| 0 <= j < order@.len() ==> #[trigger] order@[j] < m@.len(),
            start == old(w)@,
            start.put(acc) == Ok::<CursorView, Error>(w@),
            emit_entries(entries, places) == emit_entries(entries, places.skip(i as int)).behind(acc),
        decreases order@.len() - i,
    {
        let at = order[i];
        let ghost before = w@;
        let ghost rest = places.skip(i as int);
        let ghost key = text_encoding(entries[at as int].0);
        let ghost value = emit(entries[at as int].1);
        let ghost e = value.behind(key);
        let ghost tail = emit_entries(entries, places.skip(i + 1));
        proof {
            vstd::std_specs::vec::axiom_vec_index_decreases(*m, at as int);
            assert(rest.drop_first() =~= places.skip(i + 1));
            assert(rest[0] == at);
            assert(emit_entries(entries, rest) == if e.failure is Some {
                e
            } else {
                tail.behind(e.bytes)
            });
        }
        let r1 = w.write_all(keys[at].as_slice());
        let ghost mid = w@;
        if r1.is_err() {
            proof {
                lemma_encoded_then(before, Emitted::done(key), r1, mid, value, r1, mid);
                lemma_encoded_step(start, acc, before, e, tail, r1, mid);
            }
            return r1;
        }
        let r2 = encode_ipld(&m[at].1, w);
        proof {
            lemma_encoded_then(before, Emitted::done(key), r1, mid, value, r2, w@);
            lemma_encoded_step(start, acc, before, e, tail, r2, w@);
        }
        if r2.is_err() {
            return r2;
        }
        proof {
            assert(tail.behind(e.bytes).behind(acc).bytes =~= tail.behind(acc + e.bytes).bytes);
            acc = acc + e.bytes;
        }
        i += 1;
    }
    proof {
        assert(acc + Seq::<u8>::empty() =~= acc);
    }
    Ok(())
}

impl Encode<DagCborCodec> for Ipld {
    open spec fn emitted(&self) -> Emitted {
        emit(self.deep_view())
    }

    /// Writes the value in its canonical form.
    fn encode(&self, _c: DagCborCodec, w: &mut ByteCursor) -> (r: Result<(), Error>) {
        encode_ipld(self, w)
    }
}

} // verus!
