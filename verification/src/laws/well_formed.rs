//! Every value that is read is well formed: the keys of its maps ascend.

use vstd::prelude::*;
use crate::cursor::CursorView;
use crate::framing::{length, uint};
use crate::ipld::{all_wf, map_wf, IpldView};
use crate::laws::maps::lemma_insert_ascends;
use crate::wire::{
    map_insert, parse, parse_entries, parse_entries_to_break, parse_entry, parse_items,
    parse_items_to_break, parse_list, parse_map, parse_text,
};

verus! {

/// A well-formed map into which a well-formed value is put is well formed.
pub proof fn lemma_insert_wf(m: Seq<(Seq<char>, IpldView)>, k: Seq<char>, v: IpldView)
    requires
        map_wf(m),
        v.wf(),
    ensures
        map_wf(map_insert(m, k, v)),
    decreases m.len(),
{
    lemma_insert_ascends(m, k, v);
    let r = map_insert(m, k, v);
    if m.len() > 0 {
        let front = m.drop_last();
        assert(map_wf(front)) by {
            assert forall|a: int, b: int| 0 <= a < b < front.len() implies crate::ipld::key_lt(
                #[trigger] front[a].0,
                #[trigger] front[b].0,
            ) by {
                assert(front[a] == m[a] && front[b] == m[b]);
            }
            assert forall|i: int| 0 <= i < front.len() implies (#[trigger] front[i]).1.wf() by {
                assert(front[i] == m[i]);
            }
        }
        if m.last().0 == k {
            assert forall|i: int| 0 <= i < r.len() implies (#[trigger] r[i]).1.wf() by {
                if i < r.len() - 1 {
                    assert(r[i] == m[i]);
                }
            }
        } else if crate::ipld::key_lt(m.last().0, k) {
            assert forall|i: int| 0 <= i < r.len() implies (#[trigger] r[i]).1.wf() by {
                if i < m.len() {
                    assert(r[i] == m[i]);
                }
            }
        } else {
            lemma_insert_wf(front, k, v);
            let inner = map_insert(front, k, v);
            assert forall|i: int| 0 <= i < r.len() implies (#[trigger] r[i]).1.wf() by {
                if i < inner.len() {
                    assert(r[i] == inner[i]);
                } else {
                    assert(r[i] == m[m.len() - 1]);
                }
            }
        }
    }
}

/// Every value that is read is well formed.
pub proof fn lemma_parse_wf(c: CursorView)
    ensures
        parse(c) matches Ok((v, _)) ==> v.wf(),
    decreases c.remaining(), 0nat, 0nat,
{
    reveal(parse);
    if let Ok((b, c1)) = uint(c, 1) {
        if 0x80 <= b <= 0x9b {
            lemma_parse_list_wf(c1, (b - 0x80) as u8);
        } else if b == 0x9f {
            lemma_parse_items_to_break_wf(c1, Seq::<IpldView>::empty());
            reveal(parse_items_to_break);
        } else if 0xa0 <= b <= 0xbb {
            lemma_parse_map_wf(c1, (b - 0xa0) as u8);
        } else if b == 0xbf {
            lemma_parse_entries_to_break_wf(c1, Seq::<(Seq<char>, IpldView)>::empty());
            reveal(parse_entries_to_break);
        }
    }
    reveal(parse_list);
    reveal(parse_map);
}

/// Every list that is read holds well-formed values.
proof fn lemma_parse_list_wf(c: CursorView, info: u8)
    ensures
        parse_list(c, info) matches Ok((v, _)) ==> v.wf(),
    decreases c.remaining(), 2nat, 0nat,
{
    reveal(parse_list);
    reveal(parse_items);
    if let Ok((n, c1)) = length(c, info) {
        crate::framing::lemma_length(c, info);
        lemma_parse_items_wf(c1, n, Seq::<IpldView>::empty());
    }
}

/// Every map that is read is well formed.
proof fn lemma_parse_map_wf(c: CursorView, info: u8)
    ensures
        parse_map(c, info) matches Ok((v, _)) ==> v.wf(),
    decreases c.remaining(), 3nat, 0nat,
{
    reveal(parse_map);
    reveal(parse_entries);
    if let Ok((n, c1)) = length(c, info) {
        crate::framing::lemma_length(c, info);
        lemma_parse_entries_wf(c1, n, Seq::<(Seq<char>, IpldView)>::empty());
    }
}

/// Values that are read behind well-formed values are well formed.
proof fn lemma_parse_items_wf(c: CursorView, n: nat, done: Seq<IpldView>)
    requires
        all_wf(done),
    ensures
        parse_items(c, n, done) matches Ok((items, _)) ==> all_wf(items),
    decreases c.remaining(), 1nat, n,
{
    reveal(parse_items);
    reveal(parse);
    if n > 0 {
        lemma_parse_wf(c);
        if let Ok((v, c1)) = parse(c) {
            if c1.remaining() < c.remaining() {
                assert(all_wf(done.push(v))) by {
                    assert forall|i: int| 0 <= i < done.push(v).len() implies (
                    #[trigger] done.push(v)[i]).wf() by {
                        if i < done.len() {
                            assert(done.push(v)[i] == done[i]);
                        }
                    }
                }
                lemma_parse_items_wf(c1, (n - 1) as nat, done.push(v));
            }
        }
    }
}

/// Values that are read up to the byte `ff` behind well-formed values are
/// well formed.
proof fn lemma_parse_items_to_break_wf(c: CursorView, done: Seq<IpldView>)
    requires
        all_wf(done),
    ensures
        parse_items_to_break(c, done) matches Ok((items, _)) ==> all_wf(items),
    decreases c.remaining(), 2nat, 0nat,
{
    reveal(parse_items_to_break);
    reveal(parse);
    if let Ok((b, c1)) = uint(c, 1) {
        if b != 0xff {
            lemma_parse_wf(c);
            if let Ok((v, c2)) = parse(c) {
                if c2.remaining() < c.remaining() {
                    assert(all_wf(done.push(v))) by {
                        assert forall|i: int| 0 <= i < done.push(v).len() implies (
                        #[trigger] done.push(v)[i]).wf() by {
                            if i < done.len() {
                                assert(done.push(v)[i] == done[i]);
                            }
                        }
                    }
                    lemma_parse_items_to_break_wf(c2, done.push(v));
                }
            }
        }
    }
}

/// The value of an entry that is read is well formed.
proof fn lemma_parse_entry_wf(c: CursorView)
    ensures
        parse_entry(c) matches Ok((entry, _)) ==> entry.1.wf(),
    decreases c.remaining(), 1nat, 0nat,
{
    reveal(parse_entry);
    reveal(parse);
    if let Ok((k, c1)) = parse_text(c) {
        if c1.remaining() < c.remaining() {
            lemma_parse_wf(c1);
        }
    }
}

/// Entries that are read into a well-formed map leave it well formed.
proof fn lemma_parse_entries_wf(c: CursorView, n: nat, done: Seq<(Seq<char>, IpldView)>)
    requires
        map_wf(done),
    ensures
        parse_entries(c, n, done) matches Ok((m, _)) ==> map_wf(m),
    decreases c.remaining(), 2nat, n,
{
    reveal(parse_entries);
    reveal(parse_entry);
    if n > 0 {
        lemma_parse_entry_wf(c);
        if let Ok((entry, c1)) = parse_entry(c) {
            if c1.remaining() < c.remaining() {
                lemma_insert_wf(done, entry.0, entry.1);
                lemma_parse_entries_wf(c1, (n - 1) as nat, map_insert(done, entry.0, entry.1));
            }
        }
    }
}

/// Entries that are read up to the byte `ff` into a well-formed map leave it
/// well formed.
proof fn lemma_parse_entries_to_break_wf(c: CursorView, done: Seq<(Seq<char>, IpldView)>)
    requires
        map_wf(done),
    ensures
        parse_entries_to_break(c, done) matches Ok((m, _)) ==> map_wf(m),
    decreases c.remaining(), 3nat, 0nat,
{
    reveal(parse_entries_to_break);
    reveal(parse_entry);
    if let Ok((b, c1)) = uint(c, 1) {
        if b != 0xff {
            lemma_parse_entry_wf(c);
            if let Ok((entry, c2)) = parse_entry(c) {
                if c2.remaining() < c.remaining() {
                    lemma_insert_wf(done, entry.0, entry.1);
                    lemma_parse_entries_to_break_wf(c2, map_insert(done, entry.0, entry.1));
                }
            }
        }
    }
}

} // verus!
