//! The links that are listed from an encoding are the links of the value.

use vstd::prelude::*;
use vstd::multiset::Multiset;
use vstd::seq_lib::lemma_multiset_commutative;
use vstd::utf8::encode_utf8;
use crate::bytes::be_bytes;
use crate::cursor::CursorView;
use crate::error::Error;
use crate::framing::{head, info, initial, uint};
use crate::ipld::IpldView;
use crate::laws::order::lemma_order_is_permutation;
use crate::laws::reading::{
    at, lemma_head_initial, lemma_head_len, lemma_head_length, lemma_host_limits, lemma_take,
    lemma_uint_read,
};
use crate::laws::skipping::{
    lemma_byte_read, lemma_encoding_nonempty, lemma_float_shape, lemma_skip_is_length,
};
use crate::link::canonical;
use crate::scan::{
    fixed_size, lemma_scan_items_split, scan, scan_counted, scan_items, scan_tagged, skip,
    unchanged,
};
use crate::wire::{
    canonical_order, emit, emit_entries, emit_items, encodable, encoded_keys, encoding,
    text_encoding,
};

verus! {

/// Whether every link of the value is one that is read back: its identifier
/// is held in the form in which it is read, and is written with a one-byte
/// length.
pub open spec fn links_readable(v: IpldView) -> bool
    decreases v, 0nat,
{
    match v {
        IpldView::Link(c) => canonical(c) && 23 <= c.len() <= 254,
        IpldView::List(l) => all_links_readable(l),
        IpldView::StringMap(m) => values_links_readable(m),
        _ => true,
    }
}

/// Whether every link of the values of a list is one that is read back.
pub open spec fn all_links_readable(items: Seq<IpldView>) -> bool
    decreases items, 1nat,
{
    forall|i: int| 0 <= i < items.len() ==> links_readable(#[trigger] items[i])
}

/// Whether every link of the values of a map is one that is read back.
pub open spec fn values_links_readable(m: Seq<(Seq<char>, IpldView)>) -> bool
    decreases m, 1nat,
{
    forall|i: int| 0 <= i < m.len() ==> links_readable((#[trigger] m[i]).1)
}

/// The links of a value, as often as they occur in it.
pub open spec fn link_bag(v: IpldView) -> Multiset<Seq<u8>>
    decreases v, 0nat,
{
    match v {
        IpldView::Link(c) => Multiset::singleton(c),
        IpldView::List(l) => bag_of_items(l),
        IpldView::StringMap(m) => bag_of_entries(m),
        _ => Multiset::empty(),
    }
}

/// The links of the values of a list.
pub open spec fn bag_of_items(items: Seq<IpldView>) -> Multiset<Seq<u8>>
    decreases items, 1nat,
{
    if items.len() == 0 {
        Multiset::empty()
    } else {
        link_bag(items[0]).add(bag_of_items(items.drop_first()))
    }
}

/// The links of the values of a map.
pub open spec fn bag_of_entries(m: Seq<(Seq<char>, IpldView)>) -> Multiset<Seq<u8>>
    decreases m, 1nat,
{
    if m.len() == 0 {
        Multiset::empty()
    } else {
        bag_of_entries(m.drop_last()).add(link_bag(m.last().1))
    }
}

/// The links of a value in the order in which its encoding holds them.
pub open spec fn links_written(v: IpldView) -> Seq<Seq<u8>>
    decreases v, 0nat,
{
    match v {
        IpldView::Link(c) => seq![c],
        IpldView::List(l) => links_of_items(l),
        IpldView::StringMap(m) => links_of_entries(m, canonical_order(encoded_keys(m))),
        _ => Seq::empty(),
    }
}

/// The links of the values of a list, in the order of the list.
pub open spec fn links_of_items(items: Seq<IpldView>) -> Seq<Seq<u8>>
    decreases items, 1nat,
{
    if items.len() == 0 {
        Seq::empty()
    } else {
        links_written(items[0]) + links_of_items(items.drop_first())
    }
}

/// The links of the values of a map, taken in the order `order`.
pub open spec fn links_of_entries(m: Seq<(Seq<char>, IpldView)>, order: Seq<int>) -> Seq<Seq<u8>>
    decreases m, order.len(),
{
    if order.len() == 0 {
        Seq::empty()
    } else if 0 <= order[0] < m.len() {
        links_written(m[order[0]].1) + links_of_entries(m, order.drop_first())
    } else {
        Seq::empty()
    }
}

/// The links of the values of `m` whose index is in `s`.
pub open spec fn bag_of_part(m: Seq<(Seq<char>, IpldView)>, s: Set<int>) -> Multiset<Seq<u8>>
    decreases m.len(),
{
    if m.len() == 0 {
        Multiset::empty()
    } else if s.contains(m.len() - 1) {
        bag_of_part(m.drop_last(), s).add(link_bag(m.last().1))
    } else {
        bag_of_part(m.drop_last(), s)
    }
}

/// What `bag_of_part` holds depends only on the indices of `m` in the set.
proof fn lemma_part_same(m: Seq<(Seq<char>, IpldView)>, s1: Set<int>, s2: Set<int>)
    requires
        forall|i: int| 0 <= i < m.len() ==> s1.contains(i) == s2.contains(i),
    ensures
        bag_of_part(m, s1) == bag_of_part(m, s2),
    decreases m.len(),
{
    if m.len() > 0 {
        lemma_part_same(m.drop_last(), s1, s2);
    }
}

/// With every index in the set, `bag_of_part` holds the links of all values.
proof fn lemma_part_all(m: Seq<(Seq<char>, IpldView)>, s: Set<int>)
    requires
        forall|i: int| 0 <= i < m.len() ==> s.contains(i),
    ensures
        bag_of_part(m, s) == bag_of_entries(m),
    decreases m.len(),
{
    if m.len() > 0 {
        lemma_part_all(m.drop_last(), s);
    }
}

/// With no index in the set, `bag_of_part` holds nothing.
proof fn lemma_part_none(m: Seq<(Seq<char>, IpldView)>, s: Set<int>)
    requires
        forall|i: int| 0 <= i < m.len() ==> !s.contains(i),
    ensures
        bag_of_part(m, s) == Multiset::<Seq<u8>>::empty(),
    decreases m.len(),
{
    if m.len() > 0 {
        lemma_part_none(m.drop_last(), s);
    }
}

/// One more index in the set adds the links of the value at that index.
proof fn lemma_part_insert(m: Seq<(Seq<char>, IpldView)>, s: Set<int>, j: int)
    requires
        0 <= j < m.len(),
        !s.contains(j),
    ensures
        bag_of_part(m, s.insert(j)) == bag_of_part(m, s).add(link_bag(m[j].1)),
    decreases m.len(),
{
    let n = m.len() - 1;
    let front = m.drop_last();
    if j == n {
        lemma_part_same(front, s, s.insert(j));
    } else {
        assert(front[j] == m[j]);
        lemma_part_insert(front, s, j);
        if s.contains(n) {
            assert(bag_of_part(front, s).add(link_bag(m[j].1)).add(link_bag(m[n].1))
                =~= bag_of_part(front, s).add(link_bag(m[n].1)).add(link_bag(m[j].1)));
        }
    }
}

/// A list of no links holds no link.
proof fn lemma_no_links()
    ensures
        Seq::<Seq<u8>>::empty().to_multiset() == Multiset::<Seq<u8>>::empty(),
{
    broadcast use vstd::multiset::group_multiset_axioms;

    Seq::<Seq<u8>>::empty().to_multiset_ensures();
    assert(Seq::<Seq<u8>>::empty().to_multiset() =~= Multiset::<Seq<u8>>::empty());
}

/// The links that the encoding of a value holds are the links of the value:
/// each as often as it occurs, whatever the order.
pub proof fn lemma_links_written(v: IpldView)
    ensures
        links_written(v).to_multiset() == link_bag(v),
    decreases v, 0nat,
{
    broadcast use vstd::multiset::group_multiset_axioms;

    match v {
        IpldView::Link(c) => {
            assert(seq![c] =~= Seq::<Seq<u8>>::empty().push(c));
            Seq::<Seq<u8>>::empty().to_multiset_ensures();
            lemma_no_links();
            assert(links_written(v).to_multiset() =~= link_bag(v));
        },
        IpldView::List(l) => {
            lemma_links_of_items(l);
        },
        IpldView::StringMap(m) => {
            let order = canonical_order(encoded_keys(m));
            let none = Set::<int>::empty();
            lemma_order_is_permutation(encoded_keys(m));
            lemma_links_of_entries(m, order, none);
            lemma_part_none(m, none);
            lemma_part_all(m, none.union(order.to_set()));
            assert(Multiset::<Seq<u8>>::empty().add(links_of_entries(m, order).to_multiset())
                =~= links_of_entries(m, order).to_multiset());
        },
        _ => {
            lemma_no_links();
        },
    }
}

/// The links that the encoding of a list holds are the links of its values.
proof fn lemma_links_of_items(items: Seq<IpldView>)
    ensures
        links_of_items(items).to_multiset() == bag_of_items(items),
    decreases items, 1nat,
{
    broadcast use vstd::multiset::group_multiset_axioms;

    if items.len() == 0 {
        lemma_no_links();
    } else {
        lemma_links_written(items[0]);
        lemma_links_of_items(items.drop_first());
        lemma_multiset_commutative(links_written(items[0]), links_of_items(items.drop_first()));
    }
}

/// The links that the encoding of a map holds for the entries at `order`,
/// beside those of the entries in `s`, are the links of the entries in both.
proof fn lemma_links_of_entries(m: Seq<(Seq<char>, IpldView)>, order: Seq<int>, s: Set<int>)
    requires
        forall|k: int| 0 <= k < order.len() ==> 0 <= #[trigger] order[k] < m.len(),
        forall|k: int| 0 <= k < order.len() ==> !s.contains(#[trigger] order[k]),
        forall|i: int, j: int| 0 <= i < j < order.len() ==> order[i] != order[j],
    ensures
        bag_of_part(m, s).add(links_of_entries(m, order).to_multiset()) == bag_of_part(
            m,
            s.union(order.to_set()),
        ),
    decreases m, order.len(),
{
    broadcast use vstd::multiset::group_multiset_axioms;

    if order.len() == 0 {
        lemma_part_same(m, s, s.union(order.to_set()));
        lemma_no_links();
        assert(bag_of_part(m, s).add(Multiset::<Seq<u8>>::empty()) =~= bag_of_part(m, s));
    } else {
        let j = order[0];
        let tail = order.drop_first();
        lemma_links_written(m[j].1);
        lemma_part_insert(m, s, j);
        assert forall|k: int| 0 <= k < tail.len() implies 0 <= #[trigger] tail[k] < m.len()
            && !s.insert(j).contains(tail[k]) by {
            assert(tail[k] == order[k + 1]);
        }
        assert forall|a: int, b: int| 0 <= a < b < tail.len() implies tail[a] != tail[b] by {
            assert(tail[a] == order[a + 1] && tail[b] == order[b + 1]);
        }
        lemma_links_of_entries(m, tail, s.insert(j));
        assert forall|x: int| 0 <= x < m.len() implies s.insert(j).union(tail.to_set()).contains(x)
            == s.union(order.to_set()).contains(x) by {
            if tail.contains(x) {
                let k = choose|k: int| 0 <= k < tail.len() && tail[k] == x;
                assert(order[k + 1] == x);
            }
            if order.contains(x) {
                let k = choose|k: int| 0 <= k < order.len() && order[k] == x;
                if k > 0 {
                    assert(tail[k - 1] == x);
                }
            }
        }
        lemma_part_same(m, s.insert(j).union(tail.to_set()), s.union(order.to_set()));
        lemma_multiset_commutative(links_written(m[j].1), links_of_entries(m, tail));
        assert(bag_of_part(m, s).add(
            links_written(m[j].1).to_multiset().add(links_of_entries(m, tail).to_multiset()),
        ) =~= bag_of_part(m, s).add(link_bag(m[j].1)).add(
            links_of_entries(m, tail).to_multiset(),
        ));
    }
}

/// A value without links in it, whose first byte says how long it is, is
/// listed as it is passed over.
proof fn lemma_scan_flat(c: CursorView, found: Seq<Seq<u8>>)
    requires
        uint(c, 1) matches Ok((b, _)) && (fixed_size(b) is Some || 0x40 <= b <= 0x5b || 0x60 <= b
            <= 0x7b),
    ensures
        scan(c, found) == unchanged(skip(c), found),
{
    reveal(scan);
    reveal(skip);
}

/// The first byte of the encoding of a value that is no list, map or link
/// says how long the value is.
proof fn lemma_flat_first_byte(v: IpldView, done: Seq<u8>, rest: Seq<u8>)
    requires
        encodable(v),
        !(v is List),
        !(v is StringMap),
        !(v is Link),
    ensures
        uint(at(done, encoding(v) + rest), 1) matches Ok((b, _)) && (fixed_size(b) is Some || 0x40
            <= b <= 0x5b || 0x60 <= b <= 0x7b),
{
    match v {
        IpldView::Null => {
            lemma_byte_read(done, 0xf6, rest);
        },
        IpldView::Bool(b) => {
            lemma_byte_read(done, 0xf5, rest);
            lemma_byte_read(done, 0xf4, rest);
        },
        IpldView::Integer(i) => {
            if 0 <= i {
                lemma_head_initial(done, 0, i as nat, rest);
            } else {
                lemma_head_initial(done, 1, (-1 - i) as nat, rest);
            }
        },
        IpldView::Float(bits) => {
            lemma_float_shape(bits);
            let e = encoding(v);
            assert(e + rest =~= seq![e[0]] + (e.skip(1) + rest));
            lemma_byte_read(done, e[0], e.skip(1) + rest);
        },
        IpldView::String(s) => {
            let n = encode_utf8(s).len();
            assert(encoding(v) + rest =~= head(3, n) + (encode_utf8(s) + rest));
            lemma_head_initial(done, 3, n, encode_utf8(s) + rest);
        },
        IpldView::Bytes(b) => {
            assert(encoding(v) + rest =~= head(2, b.len()) + (b + rest));
            lemma_head_initial(done, 2, b.len(), b + rest);
        },
        _ => {},
    }
}

/// The links of an encoded link are listed: the link itself.
proof fn lemma_scan_link(c: Seq<u8>, done: Seq<u8>, rest: Seq<u8>, found: Seq<Seq<u8>>)
    requires
        canonical(c),
        23 <= c.len() <= 254,
    ensures
        scan(at(done, encoding(IpldView::Link(c)) + rest), found) == Ok::<
            (Seq<Seq<u8>>, CursorView),
            Error,
        >((found.push(c), at(done + encoding(IpldView::Link(c)), rest))),
{
    reveal(scan);
    reveal(scan_tagged);
    let v = IpldView::Link(c);
    let tag = head(6, 42);
    let payload = seq![0u8] + c;
    let n = payload.len();
    let size = head(2, n);
    lemma_head_len(6, 42);
    lemma_head_len(2, n);
    assert(encoding(v) =~= tag + (size + payload));
    assert(encoding(v) + rest =~= tag + (size + (payload + rest)));
    lemma_head_initial(done, 6, 42, size + (payload + rest));
    let first = seq![initial(6, info(42))];
    lemma_uint_read(done + first, 42, 1, size + (payload + rest));
    assert((done + first) + be_bytes(42, 1) =~= done + tag);
    lemma_head_initial(done + tag, 2, n, payload + rest);
    let second = seq![initial(2, info(n))];
    lemma_uint_read((done + tag) + second, n, 1, payload + rest);
    assert(((done + tag) + second) + be_bytes(n, 1) =~= (done + tag) + size);
    lemma_take((done + tag) + size, payload, rest);
    assert(((done + tag) + size) + payload =~= done + encoding(v));
    assert(payload.skip(1) =~= c);
    assert(payload[0] == 0);
    let b = (6 * 32 + info(42)) as nat;
    assert(fixed_size(b) is None);
}

/// The links that are listed from the encoding of a value are the links of
/// the value, in the order in which the encoding holds them, and the cursor
/// then stands behind the value: for every value that has an encoding, that
/// a host can hold, and whose links are such as are read back.
pub proof fn lemma_scan(v: IpldView, done: Seq<u8>, rest: Seq<u8>, found: Seq<Seq<u8>>)
    requires
        encodable(v),
        v.storable(),
        done.len() + encoding(v).len() <= u64::MAX,
    ensures
        links_readable(v) ==> scan(at(done, encoding(v) + rest), found) == Ok::<
            (Seq<Seq<u8>>, CursorView),
            Error,
        >((found + links_written(v), at(done + encoding(v), rest))),
    decreases v, 0nat,
{
    if links_readable(v) {
        match v {
            IpldView::List(l) => {
                lemma_scan_list(l, done, rest, found);
            },
            IpldView::StringMap(m) => {
                lemma_scan_map(m, done, rest, found);
            },
            IpldView::Link(c) => {
                lemma_scan_link(c, done, rest, found);
                assert(found + seq![c] =~= found.push(c));
            },
            _ => {
                lemma_flat_first_byte(v, done, rest);
                lemma_scan_flat(at(done, encoding(v) + rest), found);
                lemma_skip_is_length(v, done, rest);
                assert(found + Seq::<Seq<u8>>::empty() =~= found);
            },
        }
    }
}

/// The links of an encoded list are listed.
proof fn lemma_scan_list(l: Seq<IpldView>, done: Seq<u8>, rest: Seq<u8>, found: Seq<Seq<u8>>)
    requires
        encodable(IpldView::List(l)),
        IpldView::List(l).storable(),
        links_readable(IpldView::List(l)),
        done.len() + encoding(IpldView::List(l)).len() <= u64::MAX,
    ensures
        scan(at(done, encoding(IpldView::List(l)) + rest), found) == Ok::<
            (Seq<Seq<u8>>, CursorView),
            Error,
        >((found + links_of_items(l), at(done + encoding(IpldView::List(l)), rest))),
    decreases l, 2nat,
{
    let v = IpldView::List(l);
    let n = l.len();
    let h = head(4, n);
    let body = emit_items(l).bytes;
    lemma_host_limits();
    lemma_head_len(4, n);
    assert(encoding(v) + rest =~= h + (body + rest));
    lemma_head_initial(done, 4, n, body + rest);
    lemma_head_length(done, 4, n, body + rest);
    let b = (4 * 32 + info(n)) as nat;
    assert(fixed_size(b) is None);
    assert((b - 0x80) as u8 == info(n));
    assert(encoding(v).len() == h.len() + body.len());
    lemma_scan_items(l, done + h, rest, found);
    assert((done + h) + body =~= done + encoding(v));
    reveal(scan);
    reveal(scan_counted);
    reveal(scan_items);
}

/// The links of the encoded values of a list are listed one value after the
/// other.
proof fn lemma_scan_items(items: Seq<IpldView>, done: Seq<u8>, rest: Seq<u8>, found: Seq<Seq<u8>>)
    requires
        emit_items(items).failure is None,
        forall|i: int|
            0 <= i < items.len() ==> (#[trigger] items[i]).storable() && links_readable(items[i]),
        done.len() + emit_items(items).bytes.len() <= u64::MAX,
    ensures
        scan_items(at(done, emit_items(items).bytes + rest), items.len(), found) == Ok::<
            (Seq<Seq<u8>>, CursorView),
            Error,
        >((found + links_of_items(items), at(done + emit_items(items).bytes, rest))),
    decreases items, 1nat,
{
    reveal(scan_items);
    reveal(scan);
    if items.len() == 0 {
        assert(Seq::<u8>::empty() + rest =~= rest);
        assert(done + Seq::<u8>::empty() =~= done);
        assert(found + Seq::<Seq<u8>>::empty() =~= found);
    } else {
        let first = emit(items[0]).bytes;
        let tail = items.drop_first();
        let others = emit_items(tail).bytes;
        assert(emit_items(items).bytes + rest =~= first + (others + rest));
        lemma_encoding_nonempty(items[0]);
        lemma_scan(items[0], done, others + rest, found);
        lemma_take(done, first, others + rest);
        assert forall|i: int| 0 <= i < tail.len() implies (#[trigger] tail[i]).storable()
            && links_readable(tail[i]) by {
            assert(tail[i] == items[i + 1]);
        }
        lemma_scan_items(tail, done + first, rest, found + links_written(items[0]));
        assert((done + first) + others =~= done + emit_items(items).bytes);
        assert((found + links_written(items[0])) + links_of_items(tail) =~= found
            + links_of_items(items));
    }
}

/// The links of an encoded map are listed.
proof fn lemma_scan_map(
    m: Seq<(Seq<char>, IpldView)>,
    done: Seq<u8>,
    rest: Seq<u8>,
    found: Seq<Seq<u8>>,
)
    requires
        encodable(IpldView::StringMap(m)),
        IpldView::StringMap(m).storable(),
        links_readable(IpldView::StringMap(m)),
        done.len() + encoding(IpldView::StringMap(m)).len() <= u64::MAX,
    ensures
        scan(at(done, encoding(IpldView::StringMap(m)) + rest), found) == Ok::<
            (Seq<Seq<u8>>, CursorView),
            Error,
        >(
            (
                found + links_of_entries(m, canonical_order(encoded_keys(m))),
                at(done + encoding(IpldView::StringMap(m)), rest),
            ),
        ),
    decreases m, m.len() + 1,
{
    let v = IpldView::StringMap(m);
    let n = m.len();
    let h = head(5, n);
    let order = canonical_order(encoded_keys(m));
    let body = emit_entries(m, order).bytes;
    lemma_host_limits();
    lemma_head_len(5, n);
    assert(encoding(v) + rest =~= h + (body + rest));
    lemma_head_initial(done, 5, n, body + rest);
    lemma_head_length(done, 5, n, body + rest);
    let b = (5 * 32 + info(n)) as nat;
    assert(fixed_size(b) is None);
    assert((b - 0xa0) as u8 == info(n));
    lemma_order_is_permutation(encoded_keys(m));
    assert(encoding(v).len() == h.len() + body.len());
    lemma_scan_entries(m, order, done + h, rest, found);
    assert((done + h) + body =~= done + encoding(v));
    reveal(scan);
    reveal(scan_counted);
    reveal(scan_items);
}

/// The links of one encoded entry of a map are listed: those of its value.
proof fn lemma_scan_entry(
    key: Seq<char>,
    value: IpldView,
    done: Seq<u8>,
    rest: Seq<u8>,
    found: Seq<Seq<u8>>,
)
    requires
        encodable(value),
        value.storable(),
        links_readable(value),
        encode_utf8(key).len() <= isize::MAX,
        done.len() + text_encoding(key).len() + encoding(value).len() <= u64::MAX,
    ensures
        scan_items(at(done, text_encoding(key) + encoding(value) + rest), 2, found) == Ok::<
            (Seq<Seq<u8>>, CursorView),
            Error,
        >((found + links_written(value), at(done + (text_encoding(key) + encoding(value)), rest))),
    decreases value, 1nat,
{
    let k = text_encoding(key);
    let e = encoding(value);
    let text = IpldView::String(key);
    lemma_host_limits();
    lemma_head_len(3, encode_utf8(key).len());
    assert(k + e + rest =~= k + (e + rest));
    assert(encoding(text) == k);
    lemma_flat_first_byte(text, done, e + rest);
    lemma_scan_flat(at(done, k + (e + rest)), found);
    lemma_skip_is_length(text, done, e + rest);
    lemma_take(done, k, e + rest);
    lemma_encoding_nonempty(value);
    lemma_scan(value, done + k, rest, found);
    lemma_take(done + k, e, rest);
    assert((done + k) + e =~= done + (k + e));
    reveal_with_fuel(scan_items, 3);
    reveal(scan);
}

/// The links of the encoded entries of a map are listed one entry after the
/// other.
proof fn lemma_scan_entries(
    m: Seq<(Seq<char>, IpldView)>,
    order: Seq<int>,
    done: Seq<u8>,
    rest: Seq<u8>,
    found: Seq<Seq<u8>>,
)
    requires
        emit_entries(m, order).failure is None,
        forall|k: int| 0 <= k < order.len() ==> 0 <= #[trigger] order[k] < m.len(),
        forall|i: int|
            0 <= i < m.len() ==> encode_utf8((#[trigger] m[i]).0).len() <= isize::MAX
                && m[i].1.storable() && links_readable(m[i].1),
        done.len() + emit_entries(m, order).bytes.len() <= u64::MAX,
    ensures
        scan_items(at(done, emit_entries(m, order).bytes + rest), 2 * order.len(), found) == Ok::<
            (Seq<Seq<u8>>, CursorView),
            Error,
        >((found + links_of_entries(m, order), at(done + emit_entries(m, order).bytes, rest))),
    decreases m, order.len(),
{
    if order.len() == 0 {
        reveal(scan_items);
        assert(Seq::<u8>::empty() + rest =~= rest);
        assert(done + Seq::<u8>::empty() =~= done);
        assert(found + Seq::<Seq<u8>>::empty() =~= found);
    } else {
        let entry = m[order[0]];
        let one = text_encoding(entry.0) + encoding(entry.1);
        let tail = order.drop_first();
        let others = emit_entries(m, tail).bytes;
        assert(emit_entries(m, order).bytes =~= one + others);
        assert(emit_entries(m, order).bytes + rest =~= text_encoding(entry.0) + encoding(entry.1)
            + (others + rest));
        lemma_scan_entry(entry.0, entry.1, done, others + rest, found);
        assert forall|k: int| 0 <= k < tail.len() implies 0 <= #[trigger] tail[k] < m.len() by {
            assert(tail[k] == order[k + 1]);
        }
        lemma_scan_entries(m, tail, done + one, rest, found + links_written(entry.1));
        assert((done + one) + others =~= done + emit_entries(m, order).bytes);
        assert((found + links_written(entry.1)) + links_of_entries(m, tail) =~= found
            + links_of_entries(m, order));
        lemma_scan_items_split(
            at(done, emit_entries(m, order).bytes + rest),
            2,
            2 * tail.len(),
            found,
        );
    }
}

/// The links listed from the encoding of a value are the links of the value,
/// each as often as it occurs in the value.
pub proof fn lemma_references_sound(v: IpldView)
    requires
        encodable(v),
        v.storable(),
        encoding(v).len() <= u64::MAX,
    ensures
        links_readable(v) ==> (scan(
            CursorView { bytes: encoding(v), pos: 0 },
            Seq::<Seq<u8>>::empty(),
        ) matches Ok((all, _)) && all.to_multiset() == link_bag(v)),
{
    let none = Seq::<u8>::empty();
    lemma_scan(v, none, none, Seq::<Seq<u8>>::empty());
    lemma_links_written(v);
    assert(none + (encoding(v) + none) =~= encoding(v));
    assert(Seq::<Seq<u8>>::empty() + links_written(v) =~= links_written(v));
}

} // verus!
