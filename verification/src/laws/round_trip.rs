//! Decoding what was encoded gives the value back.

use vstd::prelude::*;
use vstd::utf8::{encode_utf8, encode_utf8_decode_utf8, encode_utf8_valid_utf8};
use crate::bytes::{be_bytes, lemma_be_bytes_len};
use crate::cursor::CursorView;
use crate::error::Error;
use crate::float::{is_nan, is_special, narrow, widen};
use crate::framing::{head, info, initial, width};
use crate::ipld::IpldView;
use crate::laws::maps::{insert_all, lemma_insert_all_is_map};
use crate::laws::order::lemma_order_is_permutation;
use crate::laws::reading::{
    at, lemma_head_initial, lemma_head_len, lemma_head_length, lemma_head_number,
    lemma_host_limits, lemma_take, lemma_uint_read,
};
use crate::laws::skipping::{lemma_byte_read, lemma_encoding_nonempty};
use crate::link::canonical;
use crate::wire::{
    bytes_encoding, canonical_order, emit, emit_entries, emit_items, encodable, encoded_keys,
    encoding, float_encoding, link, map_insert, negative_infinity, parse, parse_entries,
    parse_entry, parse_items, parse_list, parse_map, parse_string, parse_text, text_encoding,
};

verus! {

/// Whether decoding gives the value back. It does not for a NaN, whose bits
/// are not kept, nor for the positive infinity, whose encoding is read as
/// another number; and a link comes back where its identifier is held in the
/// form in which it is read, and is written with a one-byte length.
pub open spec fn reversible(v: IpldView) -> bool
    decreases v, 0nat,
{
    match v {
        IpldView::Float(bits) => !is_special(bits) || (!is_nan(bits) && bits >> 63 != 0),
        IpldView::Link(c) => canonical(c) && 23 <= c.len() <= 254,
        IpldView::List(l) => all_reversible(l),
        IpldView::StringMap(m) => values_reversible(m),
        _ => true,
    }
}

/// Whether decoding gives every value of a list back.
pub open spec fn all_reversible(items: Seq<IpldView>) -> bool
    decreases items, 1nat,
{
    forall|i: int| 0 <= i < items.len() ==> reversible(#[trigger] items[i])
}

/// Whether decoding gives every value of a map back.
pub open spec fn values_reversible(m: Seq<(Seq<char>, IpldView)>) -> bool
    decreases m, 1nat,
{
    forall|i: int| 0 <= i < m.len() ==> reversible((#[trigger] m[i]).1)
}

/// A text string is read as it was written.
pub proof fn lemma_text_round_trip(s: Seq<char>, done: Seq<u8>, rest: Seq<u8>)
    requires
        encode_utf8(s).len() <= isize::MAX,
    ensures
        parse_text(at(done, text_encoding(s) + rest)) == Ok::<(Seq<char>, CursorView), Error>(
            (s, at(done + text_encoding(s), rest)),
        ),
        parse_string(
            at(
                done + seq![initial(3, info(encode_utf8(s).len()))],
                be_bytes(encode_utf8(s).len(), width(encode_utf8(s).len())) + (encode_utf8(s)
                    + rest),
            ),
            info(encode_utf8(s).len()),
        ) == Ok::<(Seq<char>, CursorView), Error>((s, at(done + text_encoding(s), rest))),
        (3 * 32 + info(encode_utf8(s).len())) as nat == 0x60 + info(encode_utf8(s).len()),
{
    let payload = encode_utf8(s);
    let n = payload.len();
    let h = head(3, n);
    lemma_host_limits();
    lemma_head_len(3, n);
    assert(text_encoding(s) + rest =~= h + (payload + rest));
    lemma_head_initial(done, 3, n, payload + rest);
    lemma_head_length(done, 3, n, payload + rest);
    lemma_take(done + h, payload, rest);
    assert((done + h) + payload =~= done + text_encoding(s));
    encode_utf8_valid_utf8(s);
    encode_utf8_decode_utf8(s);
}

/// An integer is read as it was written.
proof fn lemma_integer_round_trip(i: i128, done: Seq<u8>, rest: Seq<u8>)
    requires
        encodable(IpldView::Integer(i)),
    ensures
        parse(at(done, encoding(IpldView::Integer(i)) + rest)) == Ok::<
            (IpldView, CursorView),
            Error,
        >((IpldView::Integer(i), at(done + encoding(IpldView::Integer(i)), rest))),
{
    reveal(parse);
    let major: u8 = if 0 <= i {
        0
    } else {
        1
    };
    let value: nat = if 0 <= i {
        i as nat
    } else {
        (-1 - i) as nat
    };
    let first = seq![initial(major, info(value))];
    let tail = be_bytes(value, width(value));
    lemma_head_len(major, value);
    lemma_head_initial(done, major, value, rest);
    lemma_be_bytes_len(value, width(value));
    assert((done + first) + tail =~= done + head(major, value));
    if value <= 0x17 {
        assert(tail + rest =~= rest);
        assert(done + first =~= done + head(major, value));
    } else {
        lemma_head_number(done, major, value, rest);
    }
}

/// The bytes of the fixed forms of the infinities and the NaN, as numbers.
proof fn lemma_negative_infinity()
    ensures
        negative_infinity() == seq![0xfau8] + be_bytes(0xff80_0000, 4),
        widen(0xff80_0000u32) == 0xfff0_0000_0000_0000u64,
{
    reveal_with_fuel(be_bytes, 5);
    assert(negative_infinity() =~= seq![0xfau8] + be_bytes(0xff80_0000, 4));
    assert((0xff80_0000u32 >> 31) == 1 && (0xff80_0000u32 >> 23) & 0xff == 0xff && 0xff80_0000u32
        & 0x7f_ffff == 0) by (bit_vector);
    assert(((1u64) << 63) | 0x7ff0_0000_0000_0000 == 0xfff0_0000_0000_0000u64) by (bit_vector);
}

/// A float is read as it was written, but for a NaN and the positive
/// infinity.
proof fn lemma_float_round_trip(bits: u64, done: Seq<u8>, rest: Seq<u8>)
    requires
        reversible(IpldView::Float(bits)),
    ensures
        parse(at(done, float_encoding(bits) + rest)) == Ok::<(IpldView, CursorView), Error>(
            (IpldView::Float(bits), at(done + float_encoding(bits), rest)),
        ),
{
    reveal(parse);
    let e = float_encoding(bits);
    if is_special(bits) {
        lemma_negative_infinity();
        assert((bits >> 52) & 0x7ff == 0x7ff && bits & 0x000f_ffff_ffff_ffff == 0 && bits >> 63 != 0
            ==> bits == 0xfff0_0000_0000_0000u64) by (bit_vector);
        let tail = be_bytes(0xff80_0000, 4);
        assert(e + rest =~= seq![0xfau8] + (tail + rest));
        lemma_byte_read(done, 0xfa, tail + rest);
        lemma_uint_read(done + seq![0xfau8], 0xff80_0000, 4, rest);
        assert((done + seq![0xfau8]) + tail =~= done + e);
    } else {
        match narrow(bits) {
            Some(single) => {
                let tail = be_bytes(single as nat, 4);
                assert(e + rest =~= seq![0xfau8] + (tail + rest));
                lemma_byte_read(done, 0xfa, tail + rest);
                lemma_uint_read(done + seq![0xfau8], single as nat, 4, rest);
                assert((done + seq![0xfau8]) + tail =~= done + e);
            },
            None => {
                let tail = be_bytes(bits as nat, 8);
                assert(e + rest =~= seq![0xfbu8] + (tail + rest));
                lemma_byte_read(done, 0xfb, tail + rest);
                lemma_uint_read(done + seq![0xfbu8], bits as nat, 8, rest);
                assert((done + seq![0xfbu8]) + tail =~= done + e);
            },
        }
    }
}

/// A byte string is read as it was written.
proof fn lemma_bytes_round_trip(b: Seq<u8>, done: Seq<u8>, rest: Seq<u8>)
    requires
        b.len() <= isize::MAX,
    ensures
        parse(at(done, bytes_encoding(b) + rest)) == Ok::<(IpldView, CursorView), Error>(
            (IpldView::Bytes(b), at(done + bytes_encoding(b), rest)),
        ),
{
    reveal(parse);
    let n = b.len();
    let h = head(2, n);
    lemma_host_limits();
    lemma_head_len(2, n);
    assert(bytes_encoding(b) + rest =~= h + (b + rest));
    lemma_head_initial(done, 2, n, b + rest);
    lemma_head_length(done, 2, n, b + rest);
    lemma_take(done + h, b, rest);
    assert((done + h) + b =~= done + bytes_encoding(b));
    let first = (2 * 32 + info(n)) as nat;
    assert((first - 0x40) as u8 == info(n));
}

/// A link is read as it was written, where its identifier is held in the
/// form in which it is read and is written with a one-byte length.
proof fn lemma_link_round_trip(c: Seq<u8>, done: Seq<u8>, rest: Seq<u8>)
    requires
        reversible(IpldView::Link(c)),
    ensures
        parse(at(done, encoding(IpldView::Link(c)) + rest)) == Ok::<(IpldView, CursorView), Error>(
            (IpldView::Link(c), at(done + encoding(IpldView::Link(c)), rest)),
        ),
{
    reveal(parse);
    let v = IpldView::Link(c);
    let tag = head(6, 42);
    let payload = seq![0u8] + c;
    let n = payload.len();
    let size = head(2, n);
    lemma_head_len(6, 42);
    lemma_head_len(2, n);
    assert(encoding(v) =~= tag + (size + payload));
    assert(encoding(v) + rest =~= tag + (size + (payload + rest)));
    lemma_head_initial(done, 6, 42, size + (payload + rest));
    let first = seq![initial(6, info(42))];
    lemma_uint_read(done + first, 42, 1, size + (payload + rest));
    assert((done + first) + be_bytes(42, 1) =~= done + tag);
    lemma_head_initial(done + tag, 2, n, payload + rest);
    let second = seq![initial(2, info(n))];
    lemma_uint_read((done + tag) + second, n, 1, payload + rest);
    assert(((done + tag) + second) + be_bytes(n, 1) =~= (done + tag) + size);
    lemma_take((done + tag) + size, payload, rest);
    assert(((done + tag) + size) + payload =~= done + encoding(v));
    assert(payload.skip(1) =~= c);
    assert(payload[0] == 0);
}

/// Decoding what was encoded gives the value back: for every value that has
/// an encoding, that a host can hold, whose maps have ascending keys, and
/// that is neither a NaN nor the positive infinity nor holds one, nor a link
/// that is not written with a one-byte length.
pub proof fn lemma_round_trip(v: IpldView, done: Seq<u8>, rest: Seq<u8>)
    requires
        encodable(v),
        v.storable(),
        v.wf(),
    ensures
        reversible(v) ==> parse(at(done, encoding(v) + rest)) == Ok::<
            (IpldView, CursorView),
            Error,
        >((v, at(done + encoding(v), rest))),
    decreases v, 0nat,
{
    if reversible(v) {
        match v {
            IpldView::Null => {
                reveal(parse);
                lemma_byte_read(done, 0xf6, rest);
            },
            IpldView::Bool(b) => {
                reveal(parse);
                lemma_byte_read(done, 0xf5, rest);
                lemma_byte_read(done, 0xf4, rest);
            },
            IpldView::Integer(i) => {
                lemma_integer_round_trip(i, done, rest);
            },
            IpldView::Float(bits) => {
                lemma_float_round_trip(bits, done, rest);
            },
            IpldView::String(s) => {
                reveal(parse);
                lemma_text_round_trip(s, done, rest);
                let n = encode_utf8(s).len();
                assert(text_encoding(s) + rest =~= head(3, n) + (encode_utf8(s) + rest));
                lemma_head_initial(done, 3, n, encode_utf8(s) + rest);
                assert(((0x60 + info(n)) - 0x60) as u8 == info(n));
            },
            IpldView::Bytes(b) => {
                lemma_bytes_round_trip(b, done, rest);
            },
            IpldView::List(l) => {
                lemma_list_round_trip(l, done, rest);
            },
            IpldView::StringMap(m) => {
                lemma_map_round_trip(m, done, rest);
            },
            IpldView::Link(c) => {
                lemma_link_round_trip(c, done, rest);
            },
        }
    }
}

/// A list is read as it was written.
proof fn lemma_list_round_trip(l: Seq<IpldView>, done: Seq<u8>, rest: Seq<u8>)
    requires
        encodable(IpldView::List(l)),
        IpldView::List(l).storable(),
        IpldView::List(l).wf(),
        reversible(IpldView::List(l)),
    ensures
        parse(at(done, encoding(IpldView::List(l)) + rest)) == Ok::<(IpldView, CursorView), Error>(
            (IpldView::List(l), at(done + encoding(IpldView::List(l)), rest)),
        ),
    decreases l, 2nat,
{
    let v = IpldView::List(l);
    let n = l.len();
    let h = head(4, n);
    let body = emit_items(l).bytes;
    lemma_host_limits();
    lemma_head_len(4, n);
    assert(encoding(v) + rest =~= h + (body + rest));
    lemma_head_initial(done, 4, n, body + rest);
    lemma_head_length(done, 4, n, body + rest);
    let first = (4 * 32 + info(n)) as nat;
    assert((first - 0x80) as u8 == info(n));
    lemma_items_round_trip(l, done + h, rest, Seq::<IpldView>::empty());
    assert(Seq::<IpldView>::empty() + l =~= l);
    assert((done + h) + body =~= done + encoding(v));
    reveal(parse);
    reveal(parse_list);
    reveal(parse_items);
}

/// The values of a list are read one after the other as they were written.
proof fn lemma_items_round_trip(
    items: Seq<IpldView>,
    done: Seq<u8>,
    rest: Seq<u8>,
    before: Seq<IpldView>,
)
    requires
        emit_items(items).failure is None,
        forall|i: int|
            0 <= i < items.len() ==> (#[trigger] items[i]).storable() && items[i].wf()
                && reversible(items[i]),
    ensures
        parse_items(at(done, emit_items(items).bytes + rest), items.len(), before) == Ok::<
            (Seq<IpldView>, CursorView),
            Error,
        >((before + items, at(done + emit_items(items).bytes, rest))),
    decreases items, 1nat,
{
    reveal(parse_items);
    reveal(parse);
    if items.len() == 0 {
        assert(Seq::<u8>::empty() + rest =~= rest);
        assert(done + Seq::<u8>::empty() =~= done);
        assert(before + items =~= before);
    } else {
        let first = emit(items[0]).bytes;
        let tail = items.drop_first();
        let others = emit_items(tail).bytes;
        assert(emit_items(items).bytes + rest =~= first + (others + rest));
        lemma_encoding_nonempty(items[0]);
        lemma_round_trip(items[0], done, others + rest);
        lemma_take(done, first, others + rest);
        assert forall|i: int| 0 <= i < tail.len() implies (#[trigger] tail[i]).storable()
            && tail[i].wf() && reversible(tail[i]) by {
            assert(tail[i] == items[i + 1]);
        }
        lemma_items_round_trip(tail, done + first, rest, before.push(items[0]));
        assert((done + first) + others =~= done + emit_items(items).bytes);
        assert(before.push(items[0]) + tail =~= before + items);
    }
}

/// A map is read as it was written.
proof fn lemma_map_round_trip(m: Seq<(Seq<char>, IpldView)>, done: Seq<u8>, rest: Seq<u8>)
    requires
        encodable(IpldView::StringMap(m)),
        IpldView::StringMap(m).storable(),
        IpldView::StringMap(m).wf(),
        reversible(IpldView::StringMap(m)),
    ensures
        parse(at(done, encoding(IpldView::StringMap(m)) + rest)) == Ok::<
            (IpldView, CursorView),
            Error,
        >((IpldView::StringMap(m), at(done + encoding(IpldView::StringMap(m)), rest))),
    decreases m, m.len() + 1,
{
    let v = IpldView::StringMap(m);
    let n = m.len();
    let h = head(5, n);
    let order = canonical_order(encoded_keys(m));
    let body = emit_entries(m, order).bytes;
    let none = Seq::<(Seq<char>, IpldView)>::empty();
    lemma_host_limits();
    lemma_head_len(5, n);
    assert(encoding(v) + rest =~= h + (body + rest));
    lemma_head_initial(done, 5, n, body + rest);
    lemma_head_length(done, 5, n, body + rest);
    let first = (5 * 32 + info(n)) as nat;
    assert((first - 0xa0) as u8 == info(n));
    lemma_order_is_permutation(encoded_keys(m));
    lemma_entries_round_trip(m, order, done + h, rest, none);
    lemma_insert_all_is_map(m, order);
    assert((done + h) + body =~= done + encoding(v));
    reveal(parse);
    reveal(parse_map);
    reveal(parse_entries);
}

/// One entry of a map is read as it was written.
proof fn lemma_entry_round_trip(key: Seq<char>, value: IpldView, done: Seq<u8>, rest: Seq<u8>)
    requires
        encodable(value),
        value.storable(),
        value.wf(),
        reversible(value),
        encode_utf8(key).len() <= isize::MAX,
    ensures
        parse_entry(at(done, text_encoding(key) + encoding(value) + rest)) == Ok::<
            ((Seq<char>, IpldView), CursorView),
            Error,
        >(((key, value), at(done + (text_encoding(key) + encoding(value)), rest))),
        text_encoding(key).len() + encoding(value).len() >= 1,
    decreases value, 1nat,
{
    let k = text_encoding(key);
    let e = encoding(value);
    lemma_head_len(3, encode_utf8(key).len());
    assert(k + e + rest =~= k + (e + rest));
    lemma_text_round_trip(key, done, e + rest);
    lemma_take(done, k, e + rest);
    lemma_round_trip(value, done + k, rest);
    assert((done + k) + e =~= done + (k + e));
    reveal(parse_entry);
    reveal(parse);
}

/// The entries of a map, written in the order `order`, are read one after
/// the other and put into the map.
proof fn lemma_entries_round_trip(
    m: Seq<(Seq<char>, IpldView)>,
    order: Seq<int>,
    done: Seq<u8>,
    rest: Seq<u8>,
    before: Seq<(Seq<char>, IpldView)>,
)
    requires
        emit_entries(m, order).failure is None,
        forall|k: int| 0 <= k < order.len() ==> 0 <= #[trigger] order[k] < m.len(),
        forall|i: int|
            0 <= i < m.len() ==> encode_utf8((#[trigger] m[i]).0).len() <= isize::MAX
                && m[i].1.storable() && m[i].1.wf() && reversible(m[i].1),
    ensures
        parse_entries(at(done, emit_entries(m, order).bytes + rest), order.len(), before) == Ok::<
            (Seq<(Seq<char>, IpldView)>, CursorView),
            Error,
        >((insert_all(before, m, order), at(done + emit_entries(m, order).bytes, rest))),
    decreases m, order.len(),
{
    reveal(parse_entries);
    reveal(parse_entry);
    if order.len() == 0 {
        assert(Seq::<u8>::empty() + rest =~= rest);
        assert(done + Seq::<u8>::empty() =~= done);
    } else {
        let entry = m[order[0]];
        let one = text_encoding(entry.0) + encoding(entry.1);
        let tail = order.drop_first();
        let others = emit_entries(m, tail).bytes;
        assert(emit_entries(m, order).bytes =~= one + others);
        assert(emit_entries(m, order).bytes + rest =~= text_encoding(entry.0) + encoding(entry.1)
            + (others + rest));
        lemma_entry_round_trip(entry.0, entry.1, done, others + rest);
        lemma_take(done, one, others + rest);
        assert forall|k: int| 0 <= k < tail.len() implies 0 <= #[trigger] tail[k] < m.len() by {
            assert(tail[k] == order[k + 1]);
        }
        lemma_entries_round_trip(
            m,
            tail,
            done + one,
            rest,
            map_insert(before, entry.0, entry.1),
        );
        assert((done + one) + others =~= done + emit_entries(m, order).bytes);
    }
}

/// A value that was encoded into a buffer of its own is decoded from it as
/// the value, and the cursor then stands at the end of the buffer.
pub proof fn lemma_decode_of_encode(v: IpldView)
    requires
        encodable(v),
        v.storable(),
        v.wf(),
    ensures
        reversible(v) ==> parse(CursorView { bytes: encoding(v), pos: 0 }) == Ok::<
            (IpldView, CursorView),
            Error,
        >((v, CursorView { bytes: encoding(v), pos: encoding(v).len() })),
{
    let none = Seq::<u8>::empty();
    lemma_round_trip(v, none, none);
    assert(none + (encoding(v) + none) =~= encoding(v));
    assert((none + encoding(v)) + none =~= encoding(v));
    assert((none + encoding(v)).len() == encoding(v).len());
}

} // verus!
