//! Typed maps with text keys.

use vstd::prelude::*;
use crate::bytes::lex_before_or_equal;
use crate::codec::{encoded, DagCborCodec, Decode, Encode};
use crate::containers::lemma_encoded_both;
use crate::cursor::{ByteCursor, CursorView};
use crate::encode::{
    buffers, canonical_order_of, ints, lemma_encoded_step, lemma_encoded_then, text_encoding_of,
};
use crate::error::Error;
use crate::framing::{head, lemma_length, lemma_uint, length, read_len, read_u8, uint, write_u64};
use crate::ipld::{key_lt, keys_ascend};
use crate::wire::{canonical_order, map_insert, parse_text, text_encoding, Emitted};

verus! {

/// A map from text keys to values of one type, held as its entries in
/// ascending order of their keys, each key once.
#[derive(Debug, PartialEq)]
pub struct StringMap<T> {
    pub entries: Vec<(String, T)>,
}

impl<T: DeepView> DeepView for StringMap<T> {
    type V = Seq<(Seq<char>, T::V)>;

    open spec fn deep_view(&self) -> Seq<(Seq<char>, T::V)> {
        self.entries.deep_view()
    }
}

impl<T: DeepView> StringMap<T> {
    /// A map without entries.
    pub fn new() -> (map: Self)
        ensures
            map.deep_view() == Seq::<(Seq<char>, T::V)>::empty(),
    {
        let map = StringMap { entries: Vec::new() };
        assert(map.deep_view() =~= Seq::<(Seq<char>, T::V)>::empty());
        map
    }

    /// Puts `value` under `key`: in place of the value that the key had, or
    /// as a new entry where the keys stay in ascending order.
    pub fn insert(&mut self, key: String, value: T)
        ensures
            final(self).deep_view() == map_insert(old(self).deep_view(), key@, value.deep_view()),
            keys_ascend(old(self).deep_view()) ==> keys_ascend(final(self).deep_view()),
    {
        let ghost before = self.deep_view();
        proof {
            if keys_ascend(before) {
                crate::laws::maps::lemma_insert_ascends(before, key@, value.deep_view());
            }
        }
        let ghost k = key@;
        let ghost v = value.deep_view();
        proof {
            assert(before.take(before.len() as int) =~= before);
            assert(map_insert(before, k, v) + before.skip(before.len() as int) =~= map_insert(
                before,
                k,
                v,
            ));
        }
        let mut p: usize = self.entries.len();
        while p > 0
            invariant
                p <= self.entries@.len(),
                self.entries@ == old(self).entries@,
                before == self.deep_view(),
                before.len() == self.entries@.len(),
                k == key@,
                v == value.deep_view(),
                map_insert(before, k, v) == map_insert(before.take(p as int), k, v) + before.skip(
                    p as int,
                ),
            ensures
                p == 0 || (before[p - 1].0 != k && key_lt(before[p - 1].0, k)),
            decreases p,
        {
            let ghost front = before.take(p as int);
            proof {
                assert(front.last() == before[p - 1]);
                assert(front.drop_last() =~= before.take(p - 1));
                assert(seq![before[p - 1]] + before.skip(p as int) =~= before.skip(p - 1));
                assert(before[p - 1].0 == self.entries@[p - 1].0@);
            }
            if self.entries[p - 1].0 == key {
                self.entries[p - 1] = (key, value);
                proof {
                    assert(self.deep_view() =~= front.drop_last().push((k, v)) + before.skip(
                        p as int,
                    ));
                }
                return ;
            }
            if lex_before_or_equal(
                self.entries[p - 1].0.as_str().as_bytes(),
                key.as_str().as_bytes(),
            ) {
                break ;
            }
            proof {
                assert(map_insert(front, k, v) == map_insert(front.drop_last(), k, v).push(
                    front.last(),
                ));
                assert(map_insert(front.drop_last(), k, v).push(front.last()) + before.skip(
                    p as int,
                ) =~= map_insert(front.drop_last(), k, v) + before.skip(p - 1));
            }
            p -= 1;
        }
        proof {
            let front = before.take(p as int);
            if p > 0 {
                assert(front.last() == before[p - 1]);
            }
            assert(map_insert(front, k, v) =~= front.push((k, v)));
        }
        self.entries.insert(p, (key, value));
        proof {
            assert(self.deep_view() =~= before.take(p as int).push((k, v)) + before.skip(p as int));
        }
    }
}

/// The encoded keys of the entries of a typed map.
pub open spec fn pair_keys<T>(m: Seq<(String, T)>) -> Seq<Seq<u8>> {
    Seq::new(m.len(), |i: int| text_encoding(m[i].0@))
}

/// What encoding the entries of `m` writes, taken in the order `order`: for
/// each entry its key as a text string, then its value.
pub open spec fn emit_pairs<T: Encode<DagCborCodec>>(m: Seq<(String, T)>, order: Seq<int>) -> Emitted
    decreases order.len(),
{
    if order.len() == 0 {
        Emitted::done(Seq::<u8>::empty())
    } else if 0 <= order[0] < m.len() {
        Emitted::done(text_encoding(m[order[0]].0@)).followed_by(
            m[order[0]].1.emitted(),
        ).followed_by(emit_pairs(m, order.drop_first()))
    } else {
        Emitted::done(Seq::<u8>::empty())
    }
}

impl<T: Encode<DagCborCodec>> Encode<DagCborCodec> for StringMap<T> {
    open spec fn emitted(&self) -> Emitted {
        emit_pairs(self.entries@, canonical_order(pair_keys(self.entries@))).behind(
            head(5, self.entries@.len()),
        )
    }

    /// Writes a map: the number of its entries, then each entry as its key
    /// and its value, in the lexicographic order of the encoded keys.
    fn encode(&self, c: DagCborCodec, w: &mut ByteCursor) -> (r: Result<(), Error>) {
        let m = &self.entries;
        let ghost start = w@;
        let ghost h = head(5, m@.len());
        let ghost body = emit_pairs(m@, canonical_order(pair_keys(m@)));
        let r1 = write_u64(w, 5, m.len() as u64);
        let ghost mid = w@;
        if r1.is_err() {
            proof {
                lemma_encoded_then(start, Emitted::done(h), r1, mid, body, r1, mid);
            }
            return r1;
        }
        let mut keys: Vec<Vec<u8>> = Vec::new();
        let mut k: usize = 0;
        while k < m.len()
            invariant
                k <= m@.len(),
                keys@.len() == k,
                forall|j: int| 0 <= j < k ==> (#[trigger] keys@[j])@ == text_encoding(m@[j].0@),
            decreases m@.len() - k,
        {
            keys.push(text_encoding_of(m[k].0.as_str()));
            k += 1;
        }
        assert(buffers(keys@) =~= pair_keys(m@));
        let order = canonical_order_of(&keys);
        let ghost places = ints(order@);
        let ghost mut acc: Seq<u8> = Seq::empty();
        let mut i: usize = 0;
        proof {
            assert(places.skip(0) =~= places);
            assert(acc + emit_pairs(m@, places).bytes =~= emit_pairs(m@, places).bytes);
        }
        while i < order.len()
            invariant
                i <= order@.len(),
                order@.len() == m@.len(),
                keys@.len() == m@.len(),
                places == ints(order@),
                places == canonical_order(pair_keys(m@)),
                body == emit_pairs(m@, places),
                m == &self.entries,
                forall|j: int|
                    0 <= j < m@.len() ==> (#[trigger] keys@[j])@ == text_encoding(m@[j].0@),
                forall|j: int| 0 <= j < order@.len() ==> #[trigger] order@[j] < m@.len(),
                start == old(w)@,
                h == head(5, m@.len()),
                encoded(start, Emitted::done(h), r1, mid),
                r1 is Ok,
                mid.put(acc) == Ok::<CursorView, Error>(w@),
                emit_pairs(m@, places) == emit_pairs(m@, places.skip(i as int)).behind(acc),
            decreases order@.len() - i,
        {
            let at = order[i];
            let ghost before = w@;
            let ghost rest = places.skip(i as int);
            let ghost key = Emitted::done(text_encoding(m@[at as int].0@));
            let ghost value = m@[at as int].1.emitted();
            let ghost e = key.followed_by(value);
            let ghost tail = emit_pairs(m@, places.skip(i + 1));
            proof {
                assert(rest.drop_first() =~= places.skip(i + 1));
                assert(rest[0] == at);
                assert(emit_pairs(m@, rest) == e.followed_by(tail));
            }
            let r2 = w.write_all(keys[at].as_slice());
            let ghost c2 = w@;
            if r2.is_err() {
                proof {
                    lemma_encoded_both(before, key, r2, c2, value, r2, c2);
                    lemma_encoded_step(mid, acc, before, e, tail, r2, c2);
                    lemma_encoded_then(start, Emitted::done(h), r1, mid, body, r2, c2);
                }
                return r2;
            }
            let r3 = m[at].1.encode(c, w);
            proof {
                lemma_encoded_both(before, key, r2, c2, value, r3, w@);
                lemma_encoded_step(mid, acc, before, e, tail, r3, w@);
            }
            if r3.is_err() {
                proof {
                    lemma_encoded_then(start, Emitted::done(h), r1, mid, body, r3, w@);
                }
                return r3;
            }
            proof {
                assert(tail.behind(e.bytes).behind(acc).bytes =~= tail.behind(acc + e.bytes).bytes);
                acc = acc + e.bytes;
            }
            i += 1;
        }
        proof {
            assert(acc + Seq::<u8>::empty() =~= acc);
            lemma_encoded_then(start, Emitted::done(h), r1, mid, body, Ok::<(), Error>(()), w@);
        }
        Ok(())
    }
}

/// What is read as one entry of a typed map: a text string and a value.
pub open spec fn parse_pair<T: Decode<DagCborCodec>>(c: CursorView) -> Result<
    ((Seq<char>, T::V), CursorView),
    Error,
> {
    match parse_text(c) {
        Err(e) => Err(e),
        Ok((k, c1)) => match T::parsed(c1) {
            Err(e) => Err(e),
            Ok((v, c2)) => Ok(((k, v), c2)),
        },
    }
}

/// What is read as `n` entries one after the other, put into the map `done`;
/// of two entries with one key the later one stays.
pub open spec fn parse_pairs<T: Decode<DagCborCodec>>(
    c: CursorView,
    n: nat,
    done: Seq<(Seq<char>, T::V)>,
) -> Result<(Seq<(Seq<char>, T::V)>, CursorView), Error>
    decreases n,
{
    if n == 0 {
        Ok((done, c))
    } else {
        match parse_pair::<T>(c) {
            Err(e) => Err(e),
            Ok((entry, c1)) => parse_pairs::<T>(
                c1,
                (n - 1) as nat,
                map_insert(done, entry.0, entry.1),
            ),
        }
    }
}

/// What is read as entries up to the byte `ff`, put into the map `done`.
pub open spec fn parse_pairs_to_break<T: Decode<DagCborCodec>>(
    c: CursorView,
    done: Seq<(Seq<char>, T::V)>,
) -> Result<(Seq<(Seq<char>, T::V)>, CursorView), Error>
    decreases c.remaining(),
{
    match uint(c, 1) {
        Err(e) => Err(e),
        Ok((b, c1)) => if b == 0xff {
            Ok((done, c1))
        } else {
            match parse_pair::<T>(c) {
                Err(e) => Err(e),
                Ok((entry, c2)) => if c2.remaining() < c.remaining() {
                    parse_pairs_to_break::<T>(c2, map_insert(done, entry.0, entry.1))
                } else {
                    Err(Error::ShortRead)
                },
            }
        },
    }
}

/// Reads one entry of a typed map: a text string and a value.
fn read_pair<T: Decode<DagCborCodec>>(r: &mut ByteCursor) -> (res: Result<(String, T), Error>)
    ensures
        final(r)@.bytes == old(r)@.bytes,
        match parse_pair::<T>(old(r)@) {
            Ok((entry, after)) => res is Ok && res.unwrap().0@ == entry.0
                && res.unwrap().1.deep_view() == entry.1 && final(r)@ == after,
            Err(e) => res == Err::<(String, T), Error>(e),
        },
        res is Ok ==> final(r)@.remaining() < old(r)@.remaining(),
{
    let key = String::decode(DagCborCodec, r)?;
    let value = T::decode(DagCborCodec, r)?;
    Ok((key, value))
}

/// Reads `len` entries one after the other into a map.
pub fn read_map<T: Decode<DagCborCodec>>(r: &mut ByteCursor, len: usize) -> (res: Result<
    StringMap<T>,
    Error,
>)
    ensures
        final(r)@.bytes == old(r)@.bytes,
        match parse_pairs::<T>(old(r)@, len as nat, Seq::empty()) {
            Ok((m, after)) => res is Ok && res.unwrap().deep_view() == m && final(r)@ == after,
            Err(e) => res == Err::<StringMap<T>, Error>(e),
        },
        res is Ok ==> final(r)@.remaining() <= old(r)@.remaining(),
        res is Ok ==> keys_ascend(res.unwrap().deep_view()),
{
    let mut map: StringMap<T> = StringMap::new();
    let mut i: usize = 0;
    while i < len
        invariant
            i <= len,
            keys_ascend(map.deep_view()),
            r@.bytes == old(r)@.bytes,
            r@.remaining() <= old(r)@.remaining(),
            parse_pairs::<T>(old(r)@, len as nat, Seq::empty()) == parse_pairs::<T>(
                r@,
                (len - i) as nat,
                map.deep_view(),
            ),
        decreases len - i,
    {
        let entry = read_pair::<T>(r)?;
        map.insert(entry.0, entry.1);
        i += 1;
    }
    Ok(map)
}

/// Reads entries up to the byte `ff` into a map.
pub fn read_map_il<T: Decode<DagCborCodec>>(r: &mut ByteCursor) -> (res: Result<
    StringMap<T>,
    Error,
>)
    ensures
        final(r)@.bytes == old(r)@.bytes,
        match parse_pairs_to_break::<T>(old(r)@, Seq::empty()) {
            Ok((m, after)) => res is Ok && res.unwrap().deep_view() == m && final(r)@ == after,
            Err(e) => res == Err::<StringMap<T>, Error>(e),
        },
        res is Ok ==> final(r)@.remaining() < old(r)@.remaining(),
        res is Ok ==> keys_ascend(res.unwrap().deep_view()),
{
    let mut map: StringMap<T> = StringMap::new();
    loop
        invariant_except_break
            r@.bytes == old(r)@.bytes,
            r@.remaining() <= old(r)@.remaining(),
            parse_pairs_to_break::<T>(old(r)@, Seq::empty()) == parse_pairs_to_break::<T>(
                r@,
                map.deep_view(),
            ),
        invariant
            keys_ascend(map.deep_view()),
        ensures
            r@.bytes == old(r)@.bytes,
            r@.remaining() < old(r)@.remaining(),
            parse_pairs_to_break::<T>(old(r)@, Seq::empty()) == Ok::<
                (Seq<(Seq<char>, T::V)>, CursorView),
                Error,
            >((map.deep_view(), r@)),
        decreases r@.remaining(),
    {
        let ghost at = r@;
        proof {
            lemma_uint(at, 1);
        }
        let major = read_u8(r)?;
        if major == 0xff {
            break ;
        }
        r.set_position(r.position() - 1);
        assert(r@ == at);
        let entry = read_pair::<T>(r)?;
        map.insert(entry.0, entry.1);
    }
    Ok(map)
}

impl<T: Decode<DagCborCodec>> Decode<DagCborCodec> for StringMap<T> {
    open spec fn parsed(c: CursorView) -> Result<(Seq<(Seq<char>, T::V)>, CursorView), Error> {
        match uint(c, 1) {
            Err(e) => Err(e),
            Ok((b, c1)) => if 0xa0 <= b <= 0xbb {
                match length(c1, (b - 0xa0) as u8) {
                    Err(e) => Err(e),
                    Ok((n, c2)) => parse_pairs::<T>(c2, n, Seq::empty()),
                }
            } else if b == 0xbf {
                parse_pairs_to_break::<T>(c1, Seq::empty())
            } else {
                Err(Error::UnexpectedCode(b as u8))
            },
        }
    }

    /// Reads a map, with its length in front or with the byte `ff` behind.
    /// The keys of the map ascend.
    fn decode(_c: DagCborCodec, r: &mut ByteCursor) -> (res: Result<Self, Error>)
        ensures
            res is Ok ==> keys_ascend(res.unwrap().deep_view()),
    {
        proof {
            lemma_uint(r@, 1);
        }
        let major = read_u8(r)?;
        match major {
            0xa0..=0xbb => {
                proof {
                    lemma_length(r@, (major - 0xa0) as u8);
                }
                let len = read_len(r, major - 0xa0)?;
                read_map(r, len)
            },
            0xbf => read_map_il(r),
            _ => Err(Error::UnexpectedCode(major)),
        }
    }
}

} // verus!
