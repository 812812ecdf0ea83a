//! Maps: entries that are read in any order come to stand in the order of
//! their keys.

use vstd::prelude::*;
use vstd::utf8::{encode_utf8, encode_utf8_decode_utf8};
use crate::bytes::lex_le;
use crate::ipld::{key_lt, keys_ascend, IpldView};
use crate::wire::map_insert;

verus! {

/// Two byte strings of which each comes before the other, or equals it, are
/// equal.
pub proof fn lemma_lex_antisymmetric(x: Seq<u8>, y: Seq<u8>)
    requires
        lex_le(x, y),
        lex_le(y, x),
    ensures
        x == y,
    decreases x.len(),
{
    if x.len() == 0 || y.len() == 0 {
        assert(x =~= y);
    } else {
        lemma_lex_antisymmetric(x.drop_first(), y.drop_first());
        assert(x =~= seq![x[0]] + x.drop_first());
        assert(y =~= seq![y[0]] + y.drop_first());
    }
}

/// Of two byte strings one comes before the other, or equals it.
pub proof fn lemma_lex_total(x: Seq<u8>, y: Seq<u8>)
    ensures
        lex_le(x, y) || lex_le(y, x),
    decreases x.len(),
{
    if x.len() > 0 && y.len() > 0 && x[0] == y[0] {
        lemma_lex_total(x.drop_first(), y.drop_first());
    }
}

/// The lexicographic order is transitive.
pub proof fn lemma_lex_transitive(x: Seq<u8>, y: Seq<u8>, z: Seq<u8>)
    requires
        lex_le(x, y),
        lex_le(y, z),
    ensures
        lex_le(x, z),
    decreases x.len(),
{
    if x.len() > 0 && y.len() > 0 && z.len() > 0 && x[0] == y[0] && y[0] == z[0] {
        lemma_lex_transitive(x.drop_first(), y.drop_first(), z.drop_first());
    }
}

/// Two texts with the same UTF-8 bytes are the same text.
pub proof fn lemma_utf8_injective(a: Seq<char>, b: Seq<char>)
    requires
        encode_utf8(a) == encode_utf8(b),
    ensures
        a == b,
{
    encode_utf8_decode_utf8(a);
    encode_utf8_decode_utf8(b);
}

/// Of two keys at most one comes before the other.
pub proof fn lemma_key_lt_asymmetric(a: Seq<char>, b: Seq<char>)
    ensures
        !(key_lt(a, b) && key_lt(b, a)),
{
    if key_lt(a, b) && key_lt(b, a) {
        lemma_lex_antisymmetric(encode_utf8(a), encode_utf8(b));
        lemma_utf8_injective(a, b);
    }
}

/// Of two different keys one comes before the other.
pub proof fn lemma_key_lt_total(a: Seq<char>, b: Seq<char>)
    ensures
        a == b || key_lt(a, b) || key_lt(b, a),
{
    lemma_lex_total(encode_utf8(a), encode_utf8(b));
}

/// The order of keys is transitive.
pub proof fn lemma_key_lt_transitive(a: Seq<char>, b: Seq<char>, c: Seq<char>)
    requires
        key_lt(a, b),
        key_lt(b, c),
    ensures
        key_lt(a, c),
{
    lemma_lex_transitive(encode_utf8(a), encode_utf8(b), encode_utf8(c));
    if a == c {
        lemma_key_lt_asymmetric(a, b);
    }
}

/// Keys of which each comes before the next ascend.
pub proof fn lemma_neighbours_ascend<V>(m: Seq<(Seq<char>, V)>)
    requires
        forall|i: int| 0 <= i < m.len() - 1 ==> key_lt(#[trigger] m[i].0, m[i + 1].0),
    ensures
        keys_ascend(m),
    decreases m.len(),
{
    if m.len() > 1 {
        let front = m.drop_last();
        assert forall|i: int| 0 <= i < front.len() - 1 implies key_lt(
            #[trigger] front[i].0,
            front[i + 1].0,
        ) by {
            assert(key_lt(m[i].0, m[i + 1].0));
        }
        lemma_neighbours_ascend(front);
        let n = m.len() - 1;
        assert forall|i: int, j: int| 0 <= i < j < m.len() implies key_lt(
            #[trigger] m[i].0,
            #[trigger] m[j].0,
        ) by {
            if j < n {
                assert(key_lt(front[i].0, front[j].0));
            } else if i < n - 1 {
                assert(key_lt(front[i].0, front[n - 1].0));
                assert(key_lt(m[n - 1].0, m[n - 1 + 1].0));
                lemma_key_lt_transitive(m[i].0, m[n - 1].0, m[n].0);
            } else {
                assert(key_lt(m[n - 1].0, m[n - 1 + 1].0));
            }
        }
    }
}

/// Whether every key of `m` comes before `top`.
pub open spec fn keys_below<V>(m: Seq<(Seq<char>, V)>, top: Seq<char>) -> bool {
    forall|i: int| 0 <= i < m.len() ==> key_lt((#[trigger] m[i]).0, top)
}

/// A map into which an entry is put keeps its keys in ascending order, and
/// below every key that they and the new key were below.
pub proof fn lemma_insert_ascends<V>(m: Seq<(Seq<char>, V)>, k: Seq<char>, v: V)
    requires
        keys_ascend(m),
    ensures
        keys_ascend(map_insert(m, k, v)),
        forall|top: Seq<char>|
            keys_below(m, top) && key_lt(k, top) ==> keys_below(#[trigger] map_insert(m, k, v), top),
    decreases m.len(),
{
    let r = map_insert(m, k, v);
    if m.len() == 0 {
    } else {
        let front = m.drop_last();
        let last = m.last();
        assert(keys_ascend(front)) by {
            assert forall|a: int, b: int| 0 <= a < b < front.len() implies key_lt(
                #[trigger] front[a].0,
                #[trigger] front[b].0,
            ) by {
                assert(front[a] == m[a] && front[b] == m[b]);
            }
        }
        assert(keys_below(front, last.0)) by {
            assert forall|i: int| 0 <= i < front.len() implies key_lt(
                (#[trigger] front[i]).0,
                last.0,
            ) by {
                assert(front[i] == m[i] && last == m[m.len() - 1]);
            }
        }
        if last.0 == k {
            assert forall|a: int, b: int| 0 <= a < b < r.len() implies key_lt(
                #[trigger] r[a].0,
                #[trigger] r[b].0,
            ) by {
                assert(r[a].0 == m[a].0 && r[b].0 == m[b].0);
            }
            assert forall|top: Seq<char>| keys_below(m, top) && key_lt(k, top) implies keys_below(
                #[trigger] map_insert(m, k, v),
                top,
            ) by {
                assert forall|i: int| 0 <= i < r.len() implies key_lt((#[trigger] r[i]).0, top) by {
                    assert(r[i].0 == m[i].0);
                }
            }
        } else if key_lt(last.0, k) {
            assert forall|a: int, b: int| 0 <= a < b < r.len() implies key_lt(
                #[trigger] r[a].0,
                #[trigger] r[b].0,
            ) by {
                if b == m.len() {
                    assert(r[a] == m[a]);
                    if a < m.len() - 1 {
                        assert(key_lt(m[a].0, last.0));
                        lemma_key_lt_transitive(m[a].0, last.0, k);
                    }
                } else {
                    assert(r[a] == m[a] && r[b] == m[b]);
                }
            }
            assert forall|top: Seq<char>| keys_below(m, top) && key_lt(k, top) implies keys_below(
                #[trigger] map_insert(m, k, v),
                top,
            ) by {
                assert forall|i: int| 0 <= i < r.len() implies key_lt((#[trigger] r[i]).0, top) by {
                    if i < m.len() {
                        assert(r[i] == m[i]);
                    }
                }
            }
        } else {
            let inner = map_insert(front, k, v);
            lemma_insert_ascends(front, k, v);
            lemma_key_lt_total(last.0, k);
            assert(keys_below(inner, last.0));
            assert(r == inner.push(last));
            assert forall|a: int, b: int| 0 <= a < b < r.len() implies key_lt(
                #[trigger] r[a].0,
                #[trigger] r[b].0,
            ) by {
                if b == inner.len() {
                    assert(r[a] == inner[a]);
                } else {
                    assert(r[a] == inner[a] && r[b] == inner[b]);
                }
            }
            assert forall|top: Seq<char>| keys_below(m, top) && key_lt(k, top) implies keys_below(
                #[trigger] map_insert(m, k, v),
                top,
            ) by {
                assert(keys_below(front, top)) by {
                    assert forall|i: int| 0 <= i < front.len() implies key_lt(
                        (#[trigger] front[i]).0,
                        top,
                    ) by {
                        assert(front[i] == m[i]);
                    }
                }
                assert(keys_below(inner, top));
                assert forall|i: int| 0 <= i < r.len() implies key_lt((#[trigger] r[i]).0, top) by {
                    if i < inner.len() {
                        assert(r[i] == inner[i]);
                    } else {
                        assert(r[i] == m[m.len() - 1]);
                    }
                }
            }
        }
    }
}

/// The entries of `m` whose index is in `s`, in the order of `m`.
pub open spec fn restrict(m: Seq<(Seq<char>, IpldView)>, s: Set<int>) -> Seq<(Seq<char>, IpldView)>
    decreases m.len(),
{
    if m.len() == 0 {
        Seq::<(Seq<char>, IpldView)>::empty()
    } else {
        let front = restrict(m.drop_last(), s);
        if s.contains(m.len() - 1) {
            front.push(m.last())
        } else {
            front
        }
    }
}

/// What `restrict` holds depends only on the indices of `m` that are in the
/// set.
pub proof fn lemma_restrict_same(m: Seq<(Seq<char>, IpldView)>, s1: Set<int>, s2: Set<int>)
    requires
        forall|i: int| 0 <= i < m.len() ==> s1.contains(i) == s2.contains(i),
    ensures
        restrict(m, s1) == restrict(m, s2),
    decreases m.len(),
{
    if m.len() > 0 {
        lemma_restrict_same(m.drop_last(), s1, s2);
    }
}

/// With every index in the set, `restrict` holds all of `m`.
pub proof fn lemma_restrict_all(m: Seq<(Seq<char>, IpldView)>, s: Set<int>)
    requires
        forall|i: int| 0 <= i < m.len() ==> s.contains(i),
    ensures
        restrict(m, s) == m,
    decreases m.len(),
{
    if m.len() > 0 {
        lemma_restrict_all(m.drop_last(), s);
        assert(m.drop_last().push(m.last()) =~= m);
    }
}

/// With no index in the set, `restrict` holds nothing.
pub proof fn lemma_restrict_none(m: Seq<(Seq<char>, IpldView)>, s: Set<int>)
    requires
        forall|i: int| 0 <= i < m.len() ==> !s.contains(i),
    ensures
        restrict(m, s) == Seq::<(Seq<char>, IpldView)>::empty(),
    decreases m.len(),
{
    if m.len() > 0 {
        lemma_restrict_none(m.drop_last(), s);
    }
}

/// The last entry of what `restrict` holds is an entry of `m`.
pub proof fn lemma_restrict_last(m: Seq<(Seq<char>, IpldView)>, s: Set<int>)
    requires
        restrict(m, s).len() > 0,
    ensures
        exists|i: int| 0 <= i < m.len() && restrict(m, s).last() == m[i],
    decreases m.len(),
{
    if m.len() > 0 {
        if s.contains(m.len() - 1) {
            assert(restrict(m, s).last() == m[m.len() - 1]);
        } else {
            lemma_restrict_last(m.drop_last(), s);
            let i = choose|i: int|
                0 <= i < m.drop_last().len() && restrict(m.drop_last(), s).last() == m.drop_last()[i];
            assert(restrict(m, s).last() == m[i]);
        }
    }
}

/// Putting an entry of `m` into a part of `m` gives the part with that entry.
pub proof fn lemma_insert_restrict(m: Seq<(Seq<char>, IpldView)>, s: Set<int>, j: int)
    requires
        keys_ascend(m),
        0 <= j < m.len(),
        !s.contains(j),
    ensures
        map_insert(restrict(m, s), m[j].0, m[j].1) == restrict(m, s.insert(j)),
    decreases m.len(),
{
    let n = m.len() - 1;
    let front = m.drop_last();
    let k = m[j].0;
    let v = m[j].1;
    if j == n {
        let part = restrict(front, s);
        assert(restrict(m, s) == part);
        lemma_restrict_same(front, s, s.insert(j));
        if part.len() > 0 {
            lemma_restrict_last(front, s);
            let i = choose|i: int| 0 <= i < front.len() && part.last() == front[i];
            assert(part.last() == m[i]);
            assert(key_lt(m[i].0, m[j].0));
        }
        assert(map_insert(part, k, v) =~= part.push((k, v)));
    } else {
        assert(keys_ascend(front)) by {
            assert forall|a: int, b: int| 0 <= a < b < front.len() implies key_lt(
                #[trigger] front[a].0,
                #[trigger] front[b].0,
            ) by {
                assert(front[a] == m[a] && front[b] == m[b]);
            }
        }
        assert(front[j] == m[j]);
        lemma_insert_restrict(front, s, j);
        if s.contains(n) {
            let part = restrict(front, s).push(m[n]);
            assert(restrict(m, s) == part);
            assert(key_lt(m[j].0, m[n].0));
            lemma_key_lt_asymmetric(m[j].0, m[n].0);
            assert(part.drop_last() =~= restrict(front, s));
            assert(map_insert(part, k, v) == map_insert(restrict(front, s), k, v).push(m[n]));
        }
    }
}

/// The map `done` with the entries of `m` at the indices `order` put into it
/// one after the other.
pub open spec fn insert_all(
    done: Seq<(Seq<char>, IpldView)>,
    m: Seq<(Seq<char>, IpldView)>,
    order: Seq<int>,
) -> Seq<(Seq<char>, IpldView)>
    decreases order.len(),
{
    if order.len() == 0 {
        done
    } else {
        insert_all(map_insert(done, m[order[0]].0, m[order[0]].1), m, order.drop_first())
    }
}

/// Entries of `m`, put one after the other into a part of `m`, give the part
/// with those entries, whatever the order in which they come.
pub proof fn lemma_insert_all_restrict(m: Seq<(Seq<char>, IpldView)>, s: Set<int>, order: Seq<int>)
    requires
        keys_ascend(m),
        forall|k: int| 0 <= k < order.len() ==> 0 <= #[trigger] order[k] < m.len(),
        forall|k: int| 0 <= k < order.len() ==> !s.contains(#[trigger] order[k]),
        forall|i: int, j: int| 0 <= i < j < order.len() ==> order[i] != order[j],
    ensures
        insert_all(restrict(m, s), m, order) == restrict(m, s.union(order.to_set())),
    decreases order.len(),
{
    if order.len() == 0 {
        lemma_restrict_same(m, s, s.union(order.to_set()));
    } else {
        let j = order[0];
        let tail = order.drop_first();
        lemma_insert_restrict(m, s, j);
        assert forall|k: int| 0 <= k < tail.len() implies 0 <= #[trigger] tail[k] < m.len()
            && !s.insert(j).contains(tail[k]) by {
            assert(tail[k] == order[k + 1]);
        }
        assert forall|a: int, b: int| 0 <= a < b < tail.len() implies tail[a] != tail[b] by {
            assert(tail[a] == order[a + 1] && tail[b] == order[b + 1]);
        }
        lemma_insert_all_restrict(m, s.insert(j), tail);
        assert forall|x: int| 0 <= x < m.len() implies s.insert(j).union(tail.to_set()).contains(x)
            == s.union(order.to_set()).contains(x) by {
            if tail.contains(x) {
                let k = choose|k: int| 0 <= k < tail.len() && tail[k] == x;
                assert(order[k + 1] == x);
            }
            if order.contains(x) {
                let k = choose|k: int| 0 <= k < order.len() && order[k] == x;
                if k > 0 {
                    assert(tail[k - 1] == x);
                }
            }
        }
        lemma_restrict_same(m, s.insert(j).union(tail.to_set()), s.union(order.to_set()));
    }
}

/// The entries of a map with ascending keys, put into an empty map in any
/// order that holds every index once, give the map.
pub proof fn lemma_insert_all_is_map(m: Seq<(Seq<char>, IpldView)>, order: Seq<int>)
    requires
        keys_ascend(m),
        order.len() == m.len(),
        forall|k: int| 0 <= k < order.len() ==> 0 <= #[trigger] order[k] < m.len(),
        forall|i: int, j: int| 0 <= i < j < order.len() ==> order[i] != order[j],
        forall|x: int| 0 <= x < m.len() ==> order.contains(x),
    ensures
        insert_all(Seq::<(Seq<char>, IpldView)>::empty(), m, order) == m,
{
    let none = Set::<int>::empty();
    lemma_restrict_none(m, none);
    lemma_insert_all_restrict(m, none, order);
    lemma_restrict_all(m, none.union(order.to_set()));
}

} // verus!
