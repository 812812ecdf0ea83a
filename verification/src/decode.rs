//! Decoding: a fixed set of initial bytes is accepted, every other is an
//! error.

use vstd::prelude::*;
use vstd::slice::slice_subrange;
use crate::bytes::lex_before_or_equal;
use crate::codec::{DagCborCodec, Decode};
use crate::cursor::{ByteCursor, CursorView};
use crate::error::Error;
use crate::float::widen_bits;
use crate::framing::{
    lemma_length, lemma_uint, length, read_bytes, read_f32, read_f64, read_len, read_str, read_u16,
    read_u32, read_u64, read_u8, text, uint,
};
use crate::ipld::{
    entries_view, key_lt, keys_ascend, lemma_entries_view, list_view, view_of, Ipld, IpldView,
};
use crate::link::Cid;
use crate::wire::{
    as_string, link, map_insert, parse, parse_bytes, parse_entries, parse_entries_to_break,
    parse_entry, parse_float, parse_items, parse_items_to_break, parse_list, parse_map,
    parse_negative, parse_string, parse_tagged, parse_text, parse_unsigned,
};

verus! {

/// Reads a link behind tag 42: a byte string with a one-byte length that
/// holds a zero byte and then a content identifier.
pub fn read_link(r: &mut ByteCursor) -> (res: Result<Cid, Error>)
    ensures
        final(r)@.bytes == old(r)@.bytes,
        match link(old(r)@) {
            Ok((binary, after)) => res is Ok && res.unwrap()@ == binary && final(r)@ == after,
            Err(e) => res == Err::<Cid, Error>(e),
        },
        res is Ok ==> final(r)@.remaining() < old(r)@.remaining(),
{
    proof {
        lemma_uint(r@, 1);
    }
    let ty = read_u8(r)?;
    if ty != 0x58 {
        return Err(Error::UnexpectedTag(ty));
    }
    proof {
        lemma_uint(r@, 1);
    }
    let len = read_u8(r)?;
    if len == 0 {
        return Err(Error::InvalidLink);
    }
    let bytes = read_bytes(r, len as usize)?;
    if bytes[0] != 0 {
        return Err(Error::InvalidLink);
    }
    assert(bytes@.subrange(1, len as int) =~= bytes@.skip(1));
    Cid::read(slice_subrange(bytes.as_slice(), 1, len as usize))
}

impl Decode<DagCborCodec> for String {
    open spec fn parsed(c: CursorView) -> Result<(Seq<char>, CursorView), Error> {
        parse_text(c)
    }

    /// Reads a text string.
    fn decode(_c: DagCborCodec, r: &mut ByteCursor) -> (res: Result<Self, Error>) {
        proof {
            lemma_uint(r@, 1);
            lemma_parse_text_advances(r@);
        }
        let major = read_u8(r)?;
        match major {
            0x60..=0x7b => {
                proof {
                    lemma_length(r@, (major - 0x60) as u8);
                }
                let len = read_len(r, major - 0x60)?;
                read_str(r, len)
            },
            _ => Err(Error::UnexpectedCode(major)),
        }
    }
}

/// Reading a text string moves the cursor forward.
pub proof fn lemma_parse_text_advances(c: CursorView)
    ensures
        parse_text(c) matches Ok((_, after)) ==> after.bytes == c.bytes && after.remaining()
            < c.remaining(),
{
    lemma_uint(c, 1);
    if let Ok((b, c1)) = uint(c, 1) {
        if 0x60 <= b <= 0x7b {
            lemma_length(c1, (b - 0x60) as u8);
        }
    }
}

/// Whether key `a` comes before key `b`, the two being different.
fn key_before(a: &String, b: &String) -> (r: bool)
    requires
        a@ != b@,
    ensures
        r == key_lt(a@, b@),
{
    lex_before_or_equal(a.as_str().as_bytes(), b.as_str().as_bytes())
}

/// Puts `value` under `key` into the map `m`: in place of the value that the
/// key had, or as a new entry where the keys stay in ascending order.
pub fn insert_entry(m: &mut Vec<(String, Ipld)>, key: String, value: Ipld)
    ensures
        entries_view(final(m)@) == map_insert(entries_view(old(m)@), key@, view_of(value)),
        keys_ascend(entries_view(old(m)@)) ==> keys_ascend(entries_view(final(m)@)),
{
    let ghost before = entries_view(m@);
    proof {
        if keys_ascend(before) {
            crate::laws::maps::lemma_insert_ascends(before, key@, view_of(value));
        }
    }
    let ghost k = key@;
    let ghost v = view_of(value);
    proof {
        lemma_entries_view(m@);
        assert(before.take(before.len() as int) =~= before);
        assert(before.skip(before.len() as int) =~= Seq::<(Seq<char>, IpldView)>::empty());
        assert(map_insert(before, k, v) + Seq::<(Seq<char>, IpldView)>::empty() =~= map_insert(
            before,
            k,
            v,
        ));
    }
    let mut p: usize = m.len();
    while p > 0
        invariant
            p <= m@.len(),
            m@ == old(m)@,
            before == entries_view(m@),
            before.len() == m@.len(),
            forall|j: int|
                0 <= j < m@.len() ==> (#[trigger] before[j]) == (m@[j].0@, view_of(m@[j].1)),
            k == key@,
            v == view_of(value),
            map_insert(before, k, v) == map_insert(before.take(p as int), k, v) + before.skip(
                p as int,
            ),
        ensures
            p == 0 || (before[p - 1].0 != k && key_lt(before[p - 1].0, k)),
        decreases p,
    {
        let ghost front = before.take(p as int);
        proof {
            assert(front.last() == before[p - 1]);
            assert(front.drop_last() =~= before.take(p - 1));
            assert(seq![before[p - 1]] + before.skip(p as int) =~= before.skip(p - 1));
        }
        if m[p - 1].0 == key {
            m[p - 1] = (key, value);
            proof {
                lemma_entries_view(m@);
                assert(entries_view(m@) =~= front.drop_last().push((k, v)) + before.skip(p as int));
            }
            return ;
        }
        if key_before(&m[p - 1].0, &key) {
            break ;
        }
        proof {
            assert(map_insert(front, k, v) == map_insert(front.drop_last(), k, v).push(
                front.last(),
            ));
            assert(map_insert(front.drop_last(), k, v).push(front.last()) + before.skip(p as int)
                =~= map_insert(front.drop_last(), k, v) + before.skip(p - 1));
        }
        p -= 1;
    }
    proof {
        let front = before.take(p as int);
        if p > 0 {
            assert(front.last() == before[p - 1]);
        }
        assert(map_insert(front, k, v) =~= front.push((k, v)));
    }
    m.insert(p, (key, value));
    proof {
        lemma_entries_view(m@);
        assert(entries_view(m@) =~= before.take(p as int).push((k, v)) + before.skip(p as int));
    }
}

/// What a read gives: a value that, as a mathematical value, is the one
/// expected, and the cursor behind it; or the error expected.
pub open spec fn decoded(
    expected: Result<(IpldView, CursorView), Error>,
    res: Result<Ipld, Error>,
    after: CursorView,
) -> bool {
    match expected {
        Ok((v, c)) => res is Ok && view_of(res.unwrap()) == v && after == c,
        Err(e) => res == Err::<Ipld, Error>(e),
    }
}

/// Reads one value of the data model.
#[verifier::rlimit(60)]
pub fn decode_ipld(r: &mut ByteCursor) -> (res: Result<Ipld, Error>)
    ensures
        final(r)@.bytes == old(r)@.bytes,
        decoded(parse(old(r)@), res, final(r)@),
        res is Ok ==> final(r)@.remaining() < old(r)@.remaining(),
        res is Ok ==> view_of(res.unwrap()).wf(),
    decreases old(r)@.remaining(), 0nat, 0nat,
{
    proof {
        crate::laws::well_formed::lemma_parse_wf(r@);
        reveal(parse);
        reveal(parse_list);
        reveal(parse_map);
        reveal(parse_items_to_break);
        reveal(parse_entries_to_break);
        lemma_uint(r@, 1);
    }
    let major = read_u8(r)?;
    match major {
        0x00..=0x1b => decode_unsigned(r, major),
        0x20..=0x3b => decode_negative(r, major),
        0x40..=0x5b => decode_bytes(r, major - 0x40),
        0x60..=0x7b => decode_string(r, major - 0x60),
        0x80..=0x9b => decode_list(r, major - 0x80),
        0x9f => {
            let list = decode_items_to_break(r)?;
            Ok(Ipld::List(list))
        },
        0xa0..=0xbb => decode_map(r, major - 0xa0),
        0xbf => {
            let map = decode_entries_to_break(r)?;
            Ok(Ipld::StringMap(map))
        },
        0xd8 => decode_tagged(r),
        0xf4 => Ok(Ipld::Bool(false)),
        0xf5 => Ok(Ipld::Bool(true)),
        0xf6 | 0xf7 => Ok(Ipld::Null),
        0xfa | 0xfb => decode_float(r, major),
        _ => Err(Error::UnexpectedCode(major)),
    }
}

/// Reads, behind its initial byte `major`, an integer that is not negative.
fn decode_unsigned(r: &mut ByteCursor, major: u8) -> (res: Result<Ipld, Error>)
    requires
        major <= 0x1b,
    ensures
        final(r)@.bytes == old(r)@.bytes,
        decoded(parse_unsigned(major, old(r)@), res, final(r)@),
        res is Ok ==> final(r)@.remaining() <= old(r)@.remaining(),
{
    proof {
        lemma_uint(r@, 1);
        lemma_uint(r@, 2);
        lemma_uint(r@, 4);
        lemma_uint(r@, 8);
    }
    match major {
        0x18 => Ok(Ipld::Integer(read_u8(r)? as i128)),
        0x19 => Ok(Ipld::Integer(read_u16(r)? as i128)),
        0x1a => Ok(Ipld::Integer(read_u32(r)? as i128)),
        0x1b => Ok(Ipld::Integer(read_u64(r)? as i128)),
        _ => Ok(Ipld::Integer(major as i128)),
    }
}

/// Reads, behind its initial byte `major`, a negative integer.
fn decode_negative(r: &mut ByteCursor, major: u8) -> (res: Result<Ipld, Error>)
    requires
        0x20 <= major <= 0x3b,
    ensures
        final(r)@.bytes == old(r)@.bytes,
        decoded(parse_negative(major, old(r)@), res, final(r)@),
        res is Ok ==> final(r)@.remaining() <= old(r)@.remaining(),
{
    proof {
        lemma_uint(r@, 1);
        lemma_uint(r@, 2);
        lemma_uint(r@, 4);
        lemma_uint(r@, 8);
    }
    match major {
        0x38 => Ok(Ipld::Integer(-1 - read_u8(r)? as i128)),
        0x39 => Ok(Ipld::Integer(-1 - read_u16(r)? as i128)),
        0x3a => Ok(Ipld::Integer(-1 - read_u32(r)? as i128)),
        0x3b => Ok(Ipld::Integer(-1 - read_u64(r)? as i128)),
        _ => Ok(Ipld::Integer(-1 - (major - 0x20) as i128)),
    }
}

/// Reads, behind its initial byte, a byte string whose length goes with the
/// additional information `info`.
fn decode_bytes(r: &mut ByteCursor, info: u8) -> (res: Result<Ipld, Error>)
    ensures
        final(r)@.bytes == old(r)@.bytes,
        decoded(parse_bytes(old(r)@, info), res, final(r)@),
        res is Ok ==> final(r)@.remaining() <= old(r)@.remaining(),
{
    proof {
        lemma_length(r@, info);
    }
    let len = read_len(r, info)?;
    let bytes = read_bytes(r, len)?;
    Ok(Ipld::Bytes(bytes))
}

/// Reads, behind its initial byte, a text string whose length goes with the
/// additional information `info`.
fn decode_string(r: &mut ByteCursor, info: u8) -> (res: Result<Ipld, Error>)
    ensures
        final(r)@.bytes == old(r)@.bytes,
        decoded(as_string(parse_string(old(r)@, info)), res, final(r)@),
        res is Ok ==> final(r)@.remaining() <= old(r)@.remaining(),
{
    proof {
        lemma_length(r@, info);
    }
    let len = read_len(r, info)?;
    let string = read_str(r, len)?;
    Ok(Ipld::String(string))
}

/// Reads, behind its initial byte, a list whose length goes with the
/// additional information `info`.
fn decode_list(r: &mut ByteCursor, info: u8) -> (res: Result<Ipld, Error>)
    ensures
        final(r)@.bytes == old(r)@.bytes,
        decoded(parse_list(old(r)@, info), res, final(r)@),
        res is Ok ==> final(r)@.remaining() <= old(r)@.remaining(),
    decreases old(r)@.remaining(), 2nat, 0nat,
{
    proof {
        reveal(parse_list);
        reveal(parse_items);
    }
    proof {
        lemma_length(r@, info);
    }
    let len = read_len(r, info)?;
    let list = decode_items(r, len)?;
    Ok(Ipld::List(list))
}

/// Reads, behind its initial byte, a map whose length goes with the
/// additional information `info`.
fn decode_map(r: &mut ByteCursor, info: u8) -> (res: Result<Ipld, Error>)
    ensures
        final(r)@.bytes == old(r)@.bytes,
        decoded(parse_map(old(r)@, info), res, final(r)@),
        res is Ok ==> final(r)@.remaining() <= old(r)@.remaining(),
    decreases old(r)@.remaining(), 3nat, 0nat,
{
    proof {
        reveal(parse_map);
        reveal(parse_entries);
    }
    proof {
        lemma_length(r@, info);
    }
    let len = read_len(r, info)?;
    let map = decode_entries(r, len)?;
    Ok(Ipld::StringMap(map))
}

/// Reads, behind the initial byte of a tag, the number of the tag and the
/// link that goes with tag 42.
fn decode_tagged(r: &mut ByteCursor) -> (res: Result<Ipld, Error>)
    ensures
        final(r)@.bytes == old(r)@.bytes,
        decoded(parse_tagged(old(r)@), res, final(r)@),
        res is Ok ==> final(r)@.remaining() < old(r)@.remaining(),
{
    proof {
        lemma_uint(r@, 1);
    }
    let tag = read_u8(r)?;
    if tag == 42 {
        Ok(Ipld::Link(read_link(r)?))
    } else {
        Err(Error::UnexpectedTag(tag))
    }
}

/// Reads, behind its initial byte `major`, a float of four or eight bytes.
fn decode_float(r: &mut ByteCursor, major: u8) -> (res: Result<Ipld, Error>)
    requires
        major == 0xfa || major == 0xfb,
    ensures
        final(r)@.bytes == old(r)@.bytes,
        decoded(parse_float(major, old(r)@), res, final(r)@),
        res is Ok ==> final(r)@.remaining() < old(r)@.remaining(),
{
    proof {
        lemma_uint(r@, 4);
        lemma_uint(r@, 8);
    }
    if major == 0xfa {
        Ok(Ipld::Float(widen_bits(read_f32(r)?)))
    } else {
        Ok(Ipld::Float(read_f64(r)?))
    }
}

/// Reads `len` values one after the other.
pub fn decode_items(r: &mut ByteCursor, len: usize) -> (res: Result<Vec<Ipld>, Error>)
    ensures
        final(r)@.bytes == old(r)@.bytes,
        match parse_items(old(r)@, len as nat, Seq::<IpldView>::empty()) {
            Ok((items, after)) => res is Ok && list_view(res.unwrap()@) == items && final(r)@
                == after,
            Err(e) => res == Err::<Vec<Ipld>, Error>(e),
        },
        res is Ok ==> final(r)@.remaining() <= old(r)@.remaining(),
    decreases old(r)@.remaining(), 1nat, len,
{
    proof {
        reveal(parse_items);
    }
    let mut list: Vec<Ipld> = Vec::new();
    let mut i: usize = 0;
    while i < len
        invariant
            i <= len,
            r@.bytes == old(r)@.bytes,
            r@.remaining() <= old(r)@.remaining(),
            parse_items(old(r)@, len as nat, Seq::<IpldView>::empty()) == parse_items(
                r@,
                (len - i) as nat,
                list_view(list@),
            ),
        decreases len - i,
    {
        let ghost done = list_view(list@);
        let ghost earlier = list@;
        proof {
            reveal(parse_items);
            reveal(parse);
        }
        let value = decode_ipld(r)?;
        list.push(value);
        proof {
            assert(list@.drop_last() =~= earlier);
            assert(list_view(list@) == done.push(view_of(value)));
        }
        i += 1;
    }
    Ok(list)
}

/// Reads values up to the byte `ff`.
pub fn decode_items_to_break(r: &mut ByteCursor) -> (res: Result<Vec<Ipld>, Error>)
    ensures
        final(r)@.bytes == old(r)@.bytes,
        match parse_items_to_break(old(r)@, Seq::<IpldView>::empty()) {
            Ok((items, after)) => res is Ok && list_view(res.unwrap()@) == items && final(r)@
                == after,
            Err(e) => res == Err::<Vec<Ipld>, Error>(e),
        },
        res is Ok ==> final(r)@.remaining() < old(r)@.remaining(),
    decreases old(r)@.remaining(), 2nat, 0nat,
{
    proof {
        reveal(parse_items_to_break);
    }
    let mut list: Vec<Ipld> = Vec::new();
    loop
        invariant_except_break
            r@.bytes == old(r)@.bytes,
            r@.remaining() <= old(r)@.remaining(),
            parse_items_to_break(old(r)@, Seq::<IpldView>::empty()) == parse_items_to_break(
                r@,
                list_view(list@),
            ),
        ensures
            r@.bytes == old(r)@.bytes,
            r@.remaining() < old(r)@.remaining(),
            parse_items_to_break(old(r)@, Seq::<IpldView>::empty()) == Ok::<
                (Seq<IpldView>, CursorView),
                Error,
            >((list_view(list@), r@)),
        decreases r@.remaining(),
    {
        let ghost at = r@;
        let ghost done = list_view(list@);
        proof {
            reveal(parse_items_to_break);
            reveal(parse);
            lemma_uint(at, 1);
        }
        let major = read_u8(r)?;
        if major == 0xff {
            break ;
        }
        r.set_position(r.position() - 1);
        assert(r@ == at);
        let ghost earlier = list@;
        let value = decode_ipld(r)?;
        list.push(value);
        proof {
            assert(list@.drop_last() =~= earlier);
            assert(list_view(list@) == done.push(view_of(value)));
        }
    }
    Ok(list)
}

/// Reads one entry of a map: a text string and a value.
pub fn decode_entry(r: &mut ByteCursor) -> (res: Result<(String, Ipld), Error>)
    ensures
        final(r)@.bytes == old(r)@.bytes,
        match parse_entry(old(r)@) {
            Ok((entry, after)) => res is Ok && res.unwrap().0@ == entry.0 && view_of(
                res.unwrap().1,
            ) == entry.1 && final(r)@ == after,
            Err(e) => res == Err::<(String, Ipld), Error>(e),
        },
        res is Ok ==> final(r)@.remaining() < old(r)@.remaining(),
    decreases old(r)@.remaining(), 1nat, 0nat,
{
    proof {
        reveal(parse_entry);
        reveal(parse);
    }
    proof {
        lemma_parse_text_advances(r@);
    }
    let key = String::decode(DagCborCodec, r)?;
    let value = decode_ipld(r)?;
    Ok((key, value))
}

/// Reads `len` entries one after the other into a map.
pub fn decode_entries(r: &mut ByteCursor, len: usize) -> (res: Result<Vec<(String, Ipld)>, Error>)
    ensures
        final(r)@.bytes == old(r)@.bytes,
        match parse_entries(old(r)@, len as nat, Seq::<(Seq<char>, IpldView)>::empty()) {
            Ok((m, after)) => res is Ok && entries_view(res.unwrap()@) == m && final(r)@ == after,
            Err(e) => res == Err::<Vec<(String, Ipld)>, Error>(e),
        },
        res is Ok ==> final(r)@.remaining() <= old(r)@.remaining(),
    decreases old(r)@.remaining(), 2nat, len,
{
    proof {
        reveal(parse_entries);
    }
    let mut map: Vec<(String, Ipld)> = Vec::new();
    let mut i: usize = 0;
    while i < len
        invariant
            i <= len,
            r@.bytes == old(r)@.bytes,
            r@.remaining() <= old(r)@.remaining(),
            parse_entries(old(r)@, len as nat, Seq::<(Seq<char>, IpldView)>::empty())
                == parse_entries(r@, (len - i) as nat, entries_view(map@)),
        decreases len - i,
    {
        proof {
            reveal(parse_entries);
            reveal(parse_entry);
        }
        let entry = decode_entry(r)?;
        insert_entry(&mut map, entry.0, entry.1);
        i += 1;
    }
    Ok(map)
}

/// Reads entries up to the byte `ff` into a map.
pub fn decode_entries_to_break(r: &mut ByteCursor) -> (res: Result<Vec<(String, Ipld)>, Error>)
    ensures
        final(r)@.bytes == old(r)@.bytes,
        match parse_entries_to_break(old(r)@, Seq::<(Seq<char>, IpldView)>::empty()) {
            Ok((m, after)) => res is Ok && entries_view(res.unwrap()@) == m && final(r)@ == after,
            Err(e) => res == Err::<Vec<(String, Ipld)>, Error>(e),
        },
        res is Ok ==> final(r)@.remaining() < old(r)@.remaining(),
    decreases old(r)@.remaining(), 3nat, 0nat,
{
    proof {
        reveal(parse_entries_to_break);
    }
    let mut map: Vec<(String, Ipld)> = Vec::new();
    loop
        invariant_except_break
            r@.bytes == old(r)@.bytes,
            r@.remaining() <= old(r)@.remaining(),
            parse_entries_to_break(old(r)@, Seq::<(Seq<char>, IpldView)>::empty())
                == parse_entries_to_break(r@, entries_view(map@)),
        ensures
            r@.bytes == old(r)@.bytes,
            r@.remaining() < old(r)@.remaining(),
            parse_entries_to_break(old(r)@, Seq::<(Seq<char>, IpldView)>::empty()) == Ok::<
                (Seq<(Seq<char>, IpldView)>, CursorView),
                Error,
            >((entries_view(map@), r@)),
        decreases r@.remaining(),
    {
        let ghost at = r@;
        proof {
            reveal(parse_entries_to_break);
            reveal(parse_entry);
            lemma_uint(at, 1);
        }
        let major = read_u8(r)?;
        if major == 0xff {
            break ;
        }
        r.set_position(r.position() - 1);
        assert(r@ == at);
        let entry = decode_entry(r)?;
        insert_entry(&mut map, entry.0, entry.1);
    }
    Ok(map)
}

impl Decode<DagCborCodec> for Ipld {
    open spec fn parsed(c: CursorView) -> Result<(IpldView, CursorView), Error> {
        parse(c)
    }

    /// Reads a value of the data model. The value is well formed.
    fn decode(_c: DagCborCodec, r: &mut ByteCursor) -> (res: Result<Self, Error>)
        ensures
            res is Ok ==> res.unwrap().deep_view().wf(),
    {
        decode_ipld(r)
    }
}

} // verus!
