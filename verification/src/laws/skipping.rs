//! Passing over a value moves the cursor by the length of its encoding.

use vstd::prelude::*;
use vstd::utf8::encode_utf8;
use crate::bytes::{be_bytes, be_value, lemma_be_bytes_len};
use crate::cursor::CursorView;
use crate::error::Error;
use crate::float::{is_special, narrow};
use crate::framing::{head, info, initial, width};
use crate::ipld::IpldView;
use crate::laws::reading::{
    at, lemma_advance, lemma_head_initial, lemma_head_len, lemma_head_length, lemma_host_limits,
    lemma_take, lemma_uint_read,
};
use crate::scan::{fixed_size, jump, skip, skip_counted, skip_items, skip_string, skip_tagged};
use crate::wire::{
    bytes_encoding, canonical_order, emit, emit_entries, emit_items, encodable, encoded_keys,
    encoding, float_encoding, text_encoding,
};

verus! {

/// A single byte at the cursor is read as its number.
pub proof fn lemma_byte_read(done: Seq<u8>, b: u8, rest: Seq<u8>)
    ensures
        crate::framing::uint(at(done, seq![b] + rest), 1) == Ok::<(nat, CursorView), Error>(
            (b as nat, at(done + seq![b], rest)),
        ),
{
    lemma_take(done, seq![b], rest);
    reveal_with_fuel(be_value, 2);
    assert(seq![b].drop_last() =~= Seq::<u8>::empty());
}

/// A head and the `n` bytes that it announces are passed over as one string.
#[verifier::rlimit(60)]
pub proof fn lemma_skip_string(done: Seq<u8>, major: u8, payload: Seq<u8>, rest: Seq<u8>)
    requires
        major == 2 || major == 3,
        payload.len() <= isize::MAX,
        done.len() + head(major, payload.len()).len() + payload.len() <= u64::MAX,
    ensures
        skip(at(done, head(major, payload.len()) + payload + rest)) == Ok::<CursorView, Error>(
            at(done + (head(major, payload.len()) + payload), rest),
        ),
{
    reveal(skip);
    let n = payload.len();
    let h = head(major, n);
    let first = seq![initial(major, info(n))];
    let tail = be_bytes(n, width(n));
    lemma_host_limits();
    lemma_head_len(major, n);
    assert(h + payload + rest =~= h + (payload + rest));
    lemma_head_initial(done, major, n, payload + rest);
    lemma_head_length(done, major, n, payload + rest);
    lemma_advance(done + h, payload, rest);
    assert((done + h) + payload =~= done + (h + payload));
    let b = (major * 32 + info(n)) as nat;
    assert(fixed_size(b) is None);
    assert((b % 32) as u8 == info(n));
    let c1 = at(done + first, tail + (payload + rest));
    assert(skip_string(c1, info(n)) == jump(at(done + h, payload + rest), n));
}

/// The encoding of a float begins with `fa` and has four more bytes, or
/// begins with `fb` and has eight more.
pub proof fn lemma_float_shape(bits: u64)
    ensures
        float_encoding(bits).len() == 5 || float_encoding(bits).len() == 9,
        float_encoding(bits).len() == 5 ==> float_encoding(bits)[0] == 0xfa,
        float_encoding(bits).len() == 9 ==> float_encoding(bits)[0] == 0xfb,
{
    lemma_be_bytes_len(bits as nat, 8);
    if !is_special(bits) {
        if let Some(single) = narrow(bits) {
            lemma_be_bytes_len(single as nat, 4);
        }
    }
}

/// Every value is written in at least one byte, unless it cannot be written
/// at all.
pub proof fn lemma_encoding_nonempty(v: IpldView)
    requires
        encodable(v),
    ensures
        encoding(v).len() >= 1,
{
    match v {
        IpldView::Integer(i) => {
            if 0 <= i {
                lemma_head_len(0, i as nat);
            } else {
                lemma_head_len(1, (-1 - i) as nat);
            }
        },
        IpldView::Float(bits) => {
            lemma_float_shape(bits);
        },
        IpldView::String(s) => {
            lemma_head_len(3, encode_utf8(s).len());
        },
        IpldView::Bytes(b) => {
            lemma_head_len(2, b.len());
        },
        IpldView::List(l) => {
            lemma_head_len(4, l.len());
        },
        IpldView::StringMap(m) => {
            lemma_head_len(5, m.len());
        },
        IpldView::Link(c) => {
            lemma_head_len(6, 42);
        },
        _ => {},
    }
}

/// After a value is passed over, the cursor stands behind the bytes of the
/// value: it has moved by the length of the encoding.
pub proof fn lemma_skip_is_length(v: IpldView, done: Seq<u8>, rest: Seq<u8>)
    requires
        encodable(v),
        v.storable(),
        done.len() + encoding(v).len() <= u64::MAX,
    ensures
        skip(at(done, encoding(v) + rest)) == Ok::<CursorView, Error>(
            at(done + encoding(v), rest),
        ),
    decreases v, 0nat,
{
    lemma_host_limits();
    match v {
        IpldView::Null => {
            lemma_skip_simple(done, 0xf6, rest);
        },
        IpldView::Bool(b) => {
            if b {
                lemma_skip_simple(done, 0xf5, rest);
            } else {
                lemma_skip_simple(done, 0xf4, rest);
            }
        },
        IpldView::Integer(i) => {
            if 0 <= i {
                lemma_skip_number(done, 0, i as nat, rest);
            } else {
                lemma_skip_number(done, 1, (-1 - i) as nat, rest);
            }
        },
        IpldView::Float(bits) => {
            lemma_skip_float(done, bits, rest);
        },
        IpldView::String(s) => {
            lemma_skip_string(done, 3, encode_utf8(s), rest);
        },
        IpldView::Bytes(b) => {
            lemma_skip_string(done, 2, b, rest);
        },
        IpldView::List(l) => {
            lemma_skip_list(l, done, rest);
        },
        IpldView::StringMap(m) => {
            lemma_skip_map(m, done, rest);
        },
        IpldView::Link(c) => {
            lemma_skip_link(c, done, rest);
        },
    }
}

/// A simple value of one byte is passed over.
proof fn lemma_skip_simple(done: Seq<u8>, b: u8, rest: Seq<u8>)
    requires
        0xf4 <= b <= 0xf7,
        done.len() + 1 <= u64::MAX,
    ensures
        skip(at(done, seq![b] + rest)) == Ok::<CursorView, Error>(at(done + seq![b], rest)),
{
    reveal(skip);
    lemma_byte_read(done, b, rest);
    lemma_advance(done + seq![b], Seq::<u8>::empty(), rest);
    assert(Seq::<u8>::empty() + rest =~= rest);
    assert((done + seq![b]) + Seq::<u8>::empty() =~= done + seq![b]);
}

/// A float is passed over.
proof fn lemma_skip_float(done: Seq<u8>, bits: u64, rest: Seq<u8>)
    requires
        done.len() + float_encoding(bits).len() <= u64::MAX,
    ensures
        skip(at(done, float_encoding(bits) + rest)) == Ok::<CursorView, Error>(
            at(done + float_encoding(bits), rest),
        ),
{
    reveal(skip);
    lemma_float_shape(bits);
    let e = float_encoding(bits);
    let tail = e.skip(1);
    assert(e =~= seq![e[0]] + tail);
    assert(e + rest =~= seq![e[0]] + (tail + rest));
    lemma_byte_read(done, e[0], tail + rest);
    lemma_advance(done + seq![e[0]], tail, rest);
    assert((done + seq![e[0]]) + tail =~= done + e);
}

/// A list is passed over.
proof fn lemma_skip_list(l: Seq<IpldView>, done: Seq<u8>, rest: Seq<u8>)
    requires
        encodable(IpldView::List(l)),
        IpldView::List(l).storable(),
        done.len() + encoding(IpldView::List(l)).len() <= u64::MAX,
    ensures
        skip(at(done, encoding(IpldView::List(l)) + rest)) == Ok::<CursorView, Error>(
            at(done + encoding(IpldView::List(l)), rest),
        ),
    decreases l, 2nat,
{
    let v = IpldView::List(l);
    let n = l.len();
    let h = head(4, n);
    let body = emit_items(l).bytes;
    lemma_host_limits();
    lemma_head_len(4, n);
    assert(encoding(v) + rest =~= h + (body + rest));
    lemma_head_initial(done, 4, n, body + rest);
    lemma_head_length(done, 4, n, body + rest);
    let b = (4 * 32 + info(n)) as nat;
    assert(fixed_size(b) is None);
    assert((b - 0x80) as u8 == info(n));
    assert(encoding(v).len() == h.len() + body.len());
    lemma_skip_items(l, done + h, rest);
    assert((done + h) + body =~= done + encoding(v));
    reveal(skip);
    reveal(skip_counted);
    reveal(skip_items);
}

/// A map is passed over.
proof fn lemma_skip_map(m: Seq<(Seq<char>, IpldView)>, done: Seq<u8>, rest: Seq<u8>)
    requires
        encodable(IpldView::StringMap(m)),
        IpldView::StringMap(m).storable(),
        done.len() + encoding(IpldView::StringMap(m)).len() <= u64::MAX,
    ensures
        skip(at(done, encoding(IpldView::StringMap(m)) + rest)) == Ok::<CursorView, Error>(
            at(done + encoding(IpldView::StringMap(m)), rest),
        ),
    decreases m, m.len() + 1,
{
    let v = IpldView::StringMap(m);
    let n = m.len();
    let h = head(5, n);
    let order = canonical_order(encoded_keys(m));
    let body = emit_entries(m, order).bytes;
    lemma_host_limits();
    lemma_head_len(5, n);
    assert(encoding(v) + rest =~= h + (body + rest));
    lemma_head_initial(done, 5, n, body + rest);
    lemma_head_length(done, 5, n, body + rest);
    let b = (5 * 32 + info(n)) as nat;
    assert(fixed_size(b) is None);
    assert((b - 0xa0) as u8 == info(n));
    crate::laws::order::lemma_order_is_permutation(encoded_keys(m));
    assert(encoding(v).len() == h.len() + body.len());
    lemma_skip_entries(m, order, done + h, rest);
    assert((done + h) + body =~= done + encoding(v));
    reveal(skip);
    reveal(skip_counted);
    reveal(skip_items);
}

/// A link is passed over.
proof fn lemma_skip_link(c: Seq<u8>, done: Seq<u8>, rest: Seq<u8>)
    requires
        encodable(IpldView::Link(c)),
        IpldView::Link(c).storable(),
        done.len() + encoding(IpldView::Link(c)).len() <= u64::MAX,
    ensures
        skip(at(done, encoding(IpldView::Link(c)) + rest)) == Ok::<CursorView, Error>(
            at(done + encoding(IpldView::Link(c)), rest),
        ),
{
    let v = IpldView::Link(c);
    let tag = head(6, 42);
    let payload = seq![0u8] + c;
    let body = bytes_encoding(payload);
    lemma_host_limits();
    lemma_head_len(6, 42);
    lemma_head_len(2, payload.len());
    assert(encoding(v) =~= tag + body);
    assert(encoding(v) + rest =~= tag + (body + rest));
    lemma_head_initial(done, 6, 42, body + rest);
    let first = seq![initial(6, info(42))];
    lemma_uint_read(done + first, 42, 1, body + rest);
    assert((done + first) + be_bytes(42, 1) =~= done + tag);
    assert(body + rest =~= head(2, payload.len()) + payload + rest);
    lemma_skip_string(done + tag, 2, payload, rest);
    assert((done + tag) + body =~= done + encoding(v));
    reveal(skip);
    reveal(skip_tagged);
}

/// An integer in its head is passed over.
proof fn lemma_skip_number(done: Seq<u8>, major: u8, value: nat, rest: Seq<u8>)
    requires
        major <= 1,
        value <= u64::MAX,
        done.len() + head(major, value).len() <= u64::MAX,
    ensures
        skip(at(done, head(major, value) + rest)) == Ok::<CursorView, Error>(
            at(done + head(major, value), rest),
        ),
{
    reveal(skip);
    let first = seq![initial(major, info(value))];
    let tail = be_bytes(value, width(value));
    lemma_head_len(major, value);
    lemma_head_initial(done, major, value, rest);
    lemma_be_bytes_len(value, width(value));
    lemma_advance(done + first, tail, rest);
    assert((done + first) + tail =~= done + head(major, value));
    let b = (major * 32 + info(value)) as nat;
    assert(fixed_size(b) == Some(width(value)));
}

/// The values of a list, written one after the other, are passed over one
/// after the other.
pub proof fn lemma_skip_items(items: Seq<IpldView>, done: Seq<u8>, rest: Seq<u8>)
    requires
        emit_items(items).failure is None,
        forall|i: int| 0 <= i < items.len() ==> (#[trigger] items[i]).storable(),
        done.len() + emit_items(items).bytes.len() <= u64::MAX,
    ensures
        skip_items(at(done, emit_items(items).bytes + rest), items.len()) == Ok::<
            CursorView,
            Error,
        >(at(done + emit_items(items).bytes, rest)),
    decreases items, 1nat,
{
    reveal(skip_items);
    reveal(skip);
    if items.len() == 0 {
        assert(Seq::<u8>::empty() + rest =~= rest);
        assert(done + Seq::<u8>::empty() =~= done);
    } else {
        let first = emit(items[0]).bytes;
        let tail = items.drop_first();
        let others = emit_items(tail).bytes;
        assert(emit_items(items).bytes + rest =~= first + (others + rest));
        lemma_encoding_nonempty(items[0]);
        lemma_skip_is_length(items[0], done, others + rest);
        lemma_take(done, first, others + rest);
        assert forall|i: int| 0 <= i < tail.len() implies (#[trigger] tail[i]).storable() by {
            assert(tail[i] == items[i + 1]);
        }
        lemma_skip_items(tail, done + first, rest);
        assert((done + first) + others =~= done + emit_items(items).bytes);
    }
}

/// An entry of a map, written as its key and its value, is passed over as
/// two values.
proof fn lemma_skip_entry(key: Seq<char>, value: IpldView, done: Seq<u8>, rest: Seq<u8>)
    requires
        encodable(value),
        value.storable(),
        encode_utf8(key).len() <= isize::MAX,
        done.len() + text_encoding(key).len() + encoding(value).len() <= u64::MAX,
    ensures
        skip_items(at(done, text_encoding(key) + encoding(value) + rest), 2) == Ok::<
            CursorView,
            Error,
        >(at(done + (text_encoding(key) + encoding(value)), rest)),
        text_encoding(key).len() + encoding(value).len() >= 2,
    decreases value, 1nat,
{
    let k = text_encoding(key);
    let e = encoding(value);
    lemma_host_limits();
    lemma_head_len(3, encode_utf8(key).len());
    assert(k + e + rest =~= head(3, encode_utf8(key).len()) + encode_utf8(key) + (e + rest));
    lemma_skip_string(done, 3, encode_utf8(key), e + rest);
    lemma_take(done, k, e + rest);
    lemma_encoding_nonempty(value);
    lemma_skip_is_length(value, done + k, rest);
    lemma_take(done + k, e, rest);
    assert((done + k) + e =~= done + (k + e));
    let c0 = at(done, k + e + rest);
    let c1 = at(done + k, e + rest);
    let c2 = at(done + (k + e), rest);
    assert(skip(c0) == Ok::<CursorView, Error>(c1));
    assert(skip(c1) == Ok::<CursorView, Error>(c2));
    reveal_with_fuel(skip_items, 3);
    reveal(skip);
}

/// The entries of a map, written as keys and values, are passed over as
/// twice as many values.
pub proof fn lemma_skip_entries(
    m: Seq<(Seq<char>, IpldView)>,
    order: Seq<int>,
    done: Seq<u8>,
    rest: Seq<u8>,
)
    requires
        emit_entries(m, order).failure is None,
        forall|k: int| 0 <= k < order.len() ==> 0 <= #[trigger] order[k] < m.len(),
        forall|i: int|
            0 <= i < m.len() ==> encode_utf8((#[trigger] m[i]).0).len() <= isize::MAX
                && m[i].1.storable(),
        done.len() + emit_entries(m, order).bytes.len() <= u64::MAX,
    ensures
        skip_items(at(done, emit_entries(m, order).bytes + rest), 2 * order.len()) == Ok::<
            CursorView,
            Error,
        >(at(done + emit_entries(m, order).bytes, rest)),
    decreases m, order.len(),
{
    if order.len() == 0 {
        reveal(skip_items);
        assert(Seq::<u8>::empty() + rest =~= rest);
        assert(done + Seq::<u8>::empty() =~= done);
    } else {
        let entry = m[order[0]];
        let one = text_encoding(entry.0) + encoding(entry.1);
        let tail = order.drop_first();
        let others = emit_entries(m, tail).bytes;
        assert(emit_entries(m, order).bytes =~= one + others);
        assert(emit_entries(m, order).bytes + rest =~= text_encoding(entry.0) + encoding(entry.1)
            + (others + rest));
        lemma_skip_entry(entry.0, entry.1, done, others + rest);
        assert forall|k: int| 0 <= k < tail.len() implies 0 <= #[trigger] tail[k] < m.len() by {
            assert(tail[k] == order[k + 1]);
        }
        lemma_skip_entries(m, tail, done + one, rest);
        assert((done + one) + others =~= done + emit_entries(m, order).bytes);
        crate::scan::lemma_skip_items_split(
            at(done, emit_entries(m, order).bytes + rest),
            2,
            2 * tail.len(),
        );
    }
}

/// A value that was encoded into a buffer of its own is passed over from
/// the start of the buffer to its end.
pub proof fn lemma_skip_of_encode(v: IpldView)
    requires
        encodable(v),
        v.storable(),
        encoding(v).len() <= u64::MAX,
    ensures
        skip(CursorView { bytes: encoding(v), pos: 0 }) == Ok::<CursorView, Error>(
            CursorView { bytes: encoding(v), pos: encoding(v).len() },
        ),
{
    let none = Seq::<u8>::empty();
    lemma_skip_is_length(v, none, none);
    assert(none + (encoding(v) + none) =~= encoding(v));
    assert((none + encoding(v)) + none =~= encoding(v));
    assert((none + encoding(v)).len() == encoding(v).len());
}

} // verus!
