//! The order in which the entries of a map are written.

use vstd::prelude::*;
use crate::bytes::lex_le;
use crate::ipld::IpldView;
use crate::laws::maps::{lemma_lex_total, lemma_lex_transitive};
use crate::wire::{canonical_order, encoded_keys, slot, text_encoding};

verus! {

/// The order in which a map is written holds the index of every entry once.
pub proof fn lemma_order_is_permutation(keys: Seq<Seq<u8>>)
    ensures
        canonical_order(keys).len() == keys.len(),
        forall|k: int|
            0 <= k < keys.len() ==> 0 <= #[trigger] canonical_order(keys)[k] < keys.len(),
        forall|i: int, j: int|
            0 <= i < j < keys.len() ==> canonical_order(keys)[i] != canonical_order(keys)[j],
        forall|x: int| 0 <= x < keys.len() ==> canonical_order(keys).contains(x),
    decreases keys.len(),
{
    if keys.len() > 0 {
        let front = keys.drop_last();
        let rest = canonical_order(front);
        let last = keys.len() - 1;
        let p = slot(rest, keys, keys.last());
        lemma_order_is_permutation(front);
        lemma_slot(rest, keys, keys.last());
        let order = canonical_order(keys);
        assert(order == rest.insert(p, last));
        assert forall|x: int| 0 <= x < keys.len() implies order.contains(x) by {
            if x == last {
                assert(order[p] == x);
            } else {
                assert(rest.contains(x));
                let k = choose|k: int| 0 <= k < rest.len() && rest[k] == x;
                if k < p {
                    assert(order[k] == x);
                } else {
                    assert(order[k + 1] == x);
                }
            }
        }
    }
}

/// Where a key goes: behind an index whose key is before it or equal to it,
/// and before the indices whose keys are behind it.
pub proof fn lemma_slot(order: Seq<int>, keys: Seq<Seq<u8>>, key: Seq<u8>)
    ensures
        0 <= slot(order, keys, key) <= order.len(),
        slot(order, keys, key) > 0 ==> lex_le(keys[order[slot(order, keys, key) - 1]], key),
        forall|k: int|
            slot(order, keys, key) <= k < order.len() ==> !lex_le(keys[#[trigger] order[k]], key),
    decreases order.len(),
{
    if order.len() > 0 {
        lemma_slot(order.drop_last(), keys, key);
        if !lex_le(keys[order.last()], key) {
            let p = slot(order.drop_last(), keys, key);
            assert forall|k: int| p <= k < order.len() implies !lex_le(
                keys[#[trigger] order[k]],
                key,
            ) by {
                if k < order.len() - 1 {
                    assert(order.drop_last()[k] == order[k]);
                }
            }
            if p > 0 {
                assert(order.drop_last()[p - 1] == order[p - 1]);
            }
        }
    }
}

/// Whether the keys at the indices of `order` ascend: each comes before the
/// next, or equals it, in lexicographic order.
pub open spec fn ascends(order: Seq<int>, keys: Seq<Seq<u8>>) -> bool {
    forall|i: int, j: int|
        0 <= i < j < order.len() ==> lex_le(keys[#[trigger] order[i]], keys[#[trigger] order[j]])
}

/// The order in which a map is written ascends by the encoded keys.
pub proof fn lemma_order_ascends(keys: Seq<Seq<u8>>)
    ensures
        ascends(canonical_order(keys), keys),
    decreases keys.len(),
{
    if keys.len() > 0 {
        let front = keys.drop_last();
        let rest = canonical_order(front);
        let last = keys.len() - 1;
        let key = keys.last();
        let p = slot(rest, keys, key);
        let order = canonical_order(keys);
        lemma_order_ascends(front);
        lemma_order_is_permutation(front);
        lemma_slot(rest, keys, key);
        assert(order == rest.insert(p, last));
        assert forall|i: int, j: int| 0 <= i < j < order.len() implies lex_le(
            keys[#[trigger] order[i]],
            keys[#[trigger] order[j]],
        ) by {
            let a = if i < p {
                i
            } else {
                i - 1
            };
            let b = if j < p {
                j
            } else {
                j - 1
            };
            if i != p {
                assert(order[i] == rest[a]);
                assert(keys[rest[a]] == front[rest[a]]);
            }
            if j != p {
                assert(order[j] == rest[b]);
                assert(keys[rest[b]] == front[rest[b]]);
            }
            if i == p {
                assert(!lex_le(keys[rest[b]], key));
                lemma_lex_total(keys[rest[b]], key);
            } else if j == p {
                if a < p - 1 {
                    assert(lex_le(front[rest[a]], front[rest[p - 1]]));
                    assert(keys[rest[p - 1]] == front[rest[p - 1]]);
                    lemma_lex_transitive(keys[rest[a]], keys[rest[p - 1]], key);
                }
            } else {
                assert(lex_le(front[rest[a]], front[rest[b]]));
            }
        }
    }
}

/// The entries of a map are written in the order of their encoded keys
/// under lexicographic comparison of bytes: the order in which they are
/// written holds every entry once, and the encoding of each key comes before
/// the encoding of the next key, or equals it.
pub proof fn lemma_map_order(m: Seq<(Seq<char>, IpldView)>)
    ensures
        canonical_order(encoded_keys(m)).len() == m.len(),
        forall|k: int|
            0 <= k < m.len() ==> 0 <= #[trigger] canonical_order(encoded_keys(m))[k] < m.len(),
        forall|x: int| 0 <= x < m.len() ==> canonical_order(encoded_keys(m)).contains(x),
        forall|i: int, j: int|
            0 <= i < j < m.len() ==> canonical_order(encoded_keys(m))[i] != canonical_order(
                encoded_keys(m),
            )[j],
        forall|i: int, j: int|
            0 <= i < j < m.len() ==> lex_le(
                text_encoding(m[#[trigger] canonical_order(encoded_keys(m))[i]].0),
                text_encoding(m[#[trigger] canonical_order(encoded_keys(m))[j]].0),
            ),
{
    let keys = encoded_keys(m);
    let order = canonical_order(keys);
    lemma_order_is_permutation(keys);
    lemma_order_ascends(keys);
    assert forall|i: int, j: int| 0 <= i < j < m.len() implies lex_le(
        text_encoding(m[#[trigger] order[i]].0),
        text_encoding(m[#[trigger] order[j]].0),
    ) by {
        assert(lex_le(keys[order[i]], keys[order[j]]));
    }
}

} // verus!
