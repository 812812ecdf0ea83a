//! The data model: a value is one of nine variants.

use vstd::prelude::*;
use vstd::utf8::encode_utf8;
use crate::bytes::{lex_before_or_equal, lex_le};
use crate::link::Cid;

verus! {

/// A value of the data model.
///
/// A float is held by the bits of its double. A map is held as its entries
/// in ascending order of their keys, each key once.
#[derive(Debug, PartialEq)]
pub enum Ipld {
    /// The absence of a value.
    Null,
    /// A boolean.
    Bool(bool),
    /// An integer.
    Integer(i128),
    /// A floating-point number, by the bits of its double.
    Float(u64),
    /// A text string.
    String(String),
    /// A byte string.
    Bytes(Vec<u8>),
    /// A list of values.
    List(Vec<Ipld>),
    /// A map from text keys to values.
    StringMap(Vec<(String, Ipld)>),
    /// A link to another block.
    Link(Cid),
}

/// A value of the data model as a mathematical value.
pub enum IpldView {
    Null,
    Bool(bool),
    Integer(i128),
    Float(u64),
    String(Seq<char>),
    Bytes(Seq<u8>),
    List(Seq<IpldView>),
    StringMap(Seq<(Seq<char>, IpldView)>),
    Link(Seq<u8>),
}

/// Whether key `a` comes before key `b`: the keys differ, and the UTF-8 bytes
/// of `a` come first in lexicographic order.
pub open spec fn key_lt(a: Seq<char>, b: Seq<char>) -> bool {
    a != b && lex_le(encode_utf8(a), encode_utf8(b))
}

/// Whether the keys of `entries` ascend, each coming before the next.
pub open spec fn keys_ascend<V>(entries: Seq<(Seq<char>, V)>) -> bool {
    forall|i: int, j: int| 0 <= i < j < entries.len() ==> key_lt(#[trigger] entries[i].0, #[trigger] entries[j].0)
}

/// Whether every value of a list is well formed.
pub open spec fn all_wf(items: Seq<IpldView>) -> bool
    decreases items, 1nat,
{
    forall|i: int| 0 <= i < items.len() ==> (#[trigger] items[i]).wf()
}

/// Whether a map is well formed: its keys ascend and its values are well
/// formed.
pub open spec fn map_wf(m: Seq<(Seq<char>, IpldView)>) -> bool
    decreases m, 1nat,
{
    keys_ascend(m) && forall|i: int| 0 <= i < m.len() ==> (#[trigger] m[i]).1.wf()
}

impl IpldView {
    /// Whether the value is well formed: the keys of every map in it ascend.
    pub open spec fn wf(self) -> bool
        decreases self, 0nat,
    {
        match self {
            IpldView::List(l) => all_wf(l),
            IpldView::StringMap(m) => map_wf(m),
            _ => true,
        }
    }

    /// Whether the value is one that a host can hold: no text, byte string,
    /// list, map or link in it is longer than the longest collection of the
    /// host.
    pub open spec fn storable(self) -> bool
        decreases self,
    {
        match self {
            IpldView::String(s) => encode_utf8(s).len() <= isize::MAX,
            IpldView::Bytes(b) => b.len() <= isize::MAX,
            IpldView::Link(c) => c.len() < isize::MAX,
            IpldView::List(l) => {
                &&& l.len() <= isize::MAX
                &&& forall|i: int| 0 <= i < l.len() ==> (#[trigger] l[i]).storable()
            },
            IpldView::StringMap(m) => {
                &&& m.len() <= isize::MAX
                &&& forall|i: int|
                    0 <= i < m.len() ==> {
                        &&& encode_utf8((#[trigger] m[i]).0).len() <= isize::MAX
                        &&& m[i].1.storable()
                    }
            },
            _ => true,
        }
    }
}

/// The value as a mathematical value.
pub open spec fn view_of(v: Ipld) -> IpldView
    decreases v, 0nat,
{
    match v {
        Ipld::Null => IpldView::Null,
        Ipld::Bool(b) => IpldView::Bool(b),
        Ipld::Integer(i) => IpldView::Integer(i),
        Ipld::Float(bits) => IpldView::Float(bits),
        Ipld::String(s) => IpldView::String(s@),
        Ipld::Bytes(b) => IpldView::Bytes(b@),
        Ipld::List(l) => IpldView::List(list_view(l@)),
        Ipld::StringMap(m) => IpldView::StringMap(entries_view(m@)),
        Ipld::Link(c) => IpldView::Link(c@),
    }
}

/// The values of a list as mathematical values.
pub open spec fn list_view(l: Seq<Ipld>) -> Seq<IpldView>
    decreases l, 1nat,
{
    if l.len() == 0 {
        Seq::<IpldView>::empty()
    } else {
        list_view(l.drop_last()).push(view_of(l.last()))
    }
}

/// The entries of a map as mathematical values.
pub open spec fn entries_view(m: Seq<(String, Ipld)>) -> Seq<(Seq<char>, IpldView)>
    decreases m, 1nat,
{
    if m.len() == 0 {
        Seq::<(Seq<char>, IpldView)>::empty()
    } else {
        entries_view(m.drop_last()).push((m.last().0@, view_of(m.last().1)))
    }
}

impl Ipld {
    /// Whether the value is well formed: the keys of every map in it ascend.
    pub open spec fn wf(&self) -> bool {
        view_of(*self).wf()
    }
}

impl DeepView for Ipld {
    type V = IpldView;

    open spec fn deep_view(&self) -> IpldView {
        view_of(*self)
    }
}

/// The view of a list has the view of each value at its place.
pub proof fn lemma_list_view(l: Seq<Ipld>)
    ensures
        list_view(l).len() == l.len(),
        forall|i: int| 0 <= i < l.len() ==> (#[trigger] list_view(l)[i]) == view_of(l[i]),
    decreases l.len(),
{
    if l.len() > 0 {
        lemma_list_view(l.drop_last());
    }
}

/// The view of a map has the view of each entry at its place.
pub proof fn lemma_entries_view(m: Seq<(String, Ipld)>)
    ensures
        entries_view(m).len() == m.len(),
        forall|i: int|
            0 <= i < m.len() ==> (#[trigger] entries_view(m)[i]) == (m[i].0@, view_of(m[i].1)),
    decreases m.len(),
{
    if m.len() > 0 {
        lemma_entries_view(m.drop_last());
    }
}

/// Whether the keys of the entries ascend, each coming before the next.
pub fn keys_in_order(m: &Vec<(String, Ipld)>) -> (b: bool)
    ensures
        b == keys_ascend(entries_view(m@)),
{
    let ghost entries = entries_view(m@);
    proof {
        lemma_entries_view(m@);
    }
    let mut i: usize = 1;
    while i < m.len()
        invariant
            1 <= i,
            entries == entries_view(m@),
            entries.len() == m@.len(),
            forall|j: int| 0 <= j < m@.len() ==> (#[trigger] entries[j]).0 == m@[j].0@,
            forall|j: int| 0 <= j < i - 1 ==> key_lt(#[trigger] entries[j].0, entries[j + 1].0),
        decreases m@.len() - i,
    {
        let before = m[i - 1].0 != m[i].0 && lex_before_or_equal(
            m[i - 1].0.as_str().as_bytes(),
            m[i].0.as_str().as_bytes(),
        );
        if !before {
            assert(!key_lt(entries[i - 1].0, entries[i as int].0));
            return false;
        }
        i += 1;
    }
    proof {
        crate::laws::maps::lemma_neighbours_ascend(entries);
    }
    true
}

impl Ipld {
    /// Whether the value is well formed: the keys of every map in it ascend.
    pub fn is_well_formed(&self) -> (b: bool)
        ensures
            b == self.wf(),
        decreases self,
    {
        match self {
            Ipld::List(l) => {
                proof {
                    lemma_list_view(l@);
                }
                let mut i: usize = 0;
                while i < l.len()
                    invariant
                        i <= l@.len(),
                        *self == Ipld::List(*l),
                        list_view(l@).len() == l@.len(),
                        forall|j: int|
                            0 <= j < l@.len() ==> (#[trigger] list_view(l@)[j]) == view_of(l@[j]),
                        forall|j: int| 0 <= j < i ==> (#[trigger] list_view(l@)[j]).wf(),
                    decreases l@.len() - i,
                {
                    proof {
                        vstd::std_specs::vec::axiom_vec_index_decreases(*l, i as int);
                        assert(decreases_to!(*self => self->List_0));
                    }
                    if !l[i].is_well_formed() {
                        assert(!list_view(l@)[i as int].wf());
                        return false;
                    }
                    i += 1;
                }
                true
            },
            Ipld::StringMap(m) => {
                proof {
                    lemma_entries_view(m@);
                }
                if !keys_in_order(m) {
                    return false;
                }
                let mut i: usize = 0;
                while i < m.len()
                    invariant
                        i <= m@.len(),
                        *self == Ipld::StringMap(*m),
                        keys_ascend(entries_view(m@)),
                        entries_view(m@).len() == m@.len(),
                        forall|j: int|
                            0 <= j < m@.len() ==> (#[trigger] entries_view(m@)[j]) == (
                                m@[j].0@,
                                view_of(m@[j].1),
                            ),
                        forall|j: int| 0 <= j < i ==> (#[trigger] entries_view(m@)[j]).1.wf(),
                    decreases m@.len() - i,
                {
                    proof {
                        vstd::std_specs::vec::axiom_vec_index_decreases(*m, i as int);
                        assert(decreases_to!(*self => self->StringMap_0));
                        assert(decreases_to!(m[i as int] => m[i as int].1));
                    }
                    if !m[i].1.is_well_formed() {
                        assert(!entries_view(m@)[i as int].1.wf());
                        return false;
                    }
                    i += 1;
                }
                true
            },
            _ => true,
        }
    }
}

impl Clone for Ipld {
    /// A copy of the value.
    fn clone(&self) -> (copy: Self)
        ensures
            view_of(copy) == view_of(*self),
        decreases self,
    {
        match self {
            Ipld::Null => Ipld::Null,
            Ipld::Bool(b) => Ipld::Bool(*b),
            Ipld::Integer(i) => Ipld::Integer(*i),
            Ipld::Float(bits) => Ipld::Float(*bits),
            Ipld::String(s) => Ipld::String(s.clone()),
            Ipld::Bytes(b) => {
                let copy = b.clone();
                assert(copy@ =~= b@);
                Ipld::Bytes(copy)
            },
            Ipld::List(l) => {
                let mut copy: Vec<Ipld> = Vec::new();
                let mut i: usize = 0;
                while i < l.len()
                    invariant
                        i <= l@.len(),
                        copy@.len() == i,
                        *self == Ipld::List(*l),
                        list_view(copy@) == list_view(l@.take(i as int)),
                    decreases l@.len() - i,
                {
                    proof {
                        vstd::std_specs::vec::axiom_vec_index_decreases(*l, i as int);
                        assert(decreases_to!(*self => self->List_0));
                    }
                    let ghost earlier = copy@;
                    let item = l[i].clone();
                    copy.push(item);
                    proof {
                        assert(copy@.drop_last() =~= earlier);
                        assert(l@.take(i + 1).drop_last() =~= l@.take(i as int));
                    }
                    i += 1;
                }
                assert(l@.take(i as int) =~= l@);
                Ipld::List(copy)
            },
            Ipld::StringMap(m) => {
                let mut copy: Vec<(String, Ipld)> = Vec::new();
                let mut i: usize = 0;
                while i < m.len()
                    invariant
                        i <= m@.len(),
                        copy@.len() == i,
                        *self == Ipld::StringMap(*m),
                        entries_view(copy@) == entries_view(m@.take(i as int)),
                    decreases m@.len() - i,
                {
                    proof {
                        vstd::std_specs::vec::axiom_vec_index_decreases(*m, i as int);
                        assert(decreases_to!(*self => self->StringMap_0));
                        assert(decreases_to!(m[i as int] => m[i as int].1));
                    }
                    let ghost earlier = copy@;
                    let key = m[i].0.clone();
                    let value = m[i].1.clone();
                    copy.push((key, value));
                    proof {
                        assert(copy@.drop_last() =~= earlier);
                        assert(m@.take(i + 1).drop_last() =~= m@.take(i as int));
                    }
                    i += 1;
                }
                assert(m@.take(i as int) =~= m@);
                Ipld::StringMap(copy)
            },
            Ipld::Link(c) => Ipld::Link(c.duplicate()),
        }
    }
}

} // verus!
