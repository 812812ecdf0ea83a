//! Primitive operations: twelve families, each with operations of its own.
//!
//! What the operations of a family are, and what they compute, is left to
//! the type that stands for them. This module holds what is common to all:
//! the family that an operation belongs to, its qualified symbol, its form in
//! the data model, and which families have constants or operations of three
//! arguments.

use vstd::prelude::*;
use vstd::string::StringExecFns;
use crate::ipld::{view_of, Ipld, IpldView};

verus! {

/// The families of primitive operations.
#[derive(Clone, Copy, Debug, PartialEq, Eq, Structural)]
pub enum Family {
    Nat,
    Int,
    Bytes,
    Text,
    Char,
    Bool,
    U8,
    U16,
    U32,
    U64,
    U128,
    I8,
}

impl Family {
    /// The number that stands for the family in the data model.
    pub open spec fn tag(self) -> u8 {
        match self {
            Family::Nat => 0,
            Family::Int => 1,
            Family::Bytes => 2,
            Family::Text => 3,
            Family::Char => 4,
            Family::Bool => 5,
            Family::U8 => 6,
            Family::U16 => 7,
            Family::U32 => 8,
            Family::U64 => 9,
            Family::U128 => 10,
            Family::I8 => 11,
        }
    }

    /// What the symbol of every operation of the family begins with.
    pub open spec fn prefix(self) -> Seq<char> {
        match self {
            Family::Nat => "#Nat."@,
            Family::Int => "#Int."@,
            Family::Bytes => "#Bytes."@,
            Family::Text => "#Text."@,
            Family::Char => "#Char."@,
            Family::Bool => "#Bool."@,
            Family::U8 => "#U8."@,
            Family::U16 => "#U16."@,
            Family::U32 => "#U32."@,
            Family::U64 => "#U64."@,
            Family::U128 => "#U128."@,
            Family::I8 => "#I8."@,
        }
    }

    /// Whether the family has operations without arguments: the families of
    /// the integers of a fixed width have them.
    pub open spec fn has_constants(self) -> bool {
        match self {
            Family::U8 | Family::U16 | Family::U32 | Family::U64 | Family::U128 | Family::I8 => true,
            _ => false,
        }
    }

    /// Whether the family has operations of three arguments: the families of
    /// byte strings and of text have them.
    pub open spec fn has_ternary(self) -> bool {
        self == Family::Bytes || self == Family::Text
    }

    /// The number that stands for the family in the data model.
    pub fn number(self) -> (n: u8)
        ensures
            n == self.tag(),
    {
        match self {
            Family::Nat => 0,
            Family::Int => 1,
            Family::Bytes => 2,
            Family::Text => 3,
            Family::Char => 4,
            Family::Bool => 5,
            Family::U8 => 6,
            Family::U16 => 7,
            Family::U32 => 8,
            Family::U64 => 9,
            Family::U128 => 10,
            Family::I8 => 11,
        }
    }

    /// The family that a number stands for, if it stands for one.
    pub fn from_number(n: i128) -> (family: Option<Family>)
        ensures
            match family {
                Some(f) => f.tag() == n,
                None => !(0 <= n <= 11),
            },
    {
        if n == 0 {
            Some(Family::Nat)
        } else if n == 1 {
            Some(Family::Int)
        } else if n == 2 {
            Some(Family::Bytes)
        } else if n == 3 {
            Some(Family::Text)
        } else if n == 4 {
            Some(Family::Char)
        } else if n == 5 {
            Some(Family::Bool)
        } else if n == 6 {
            Some(Family::U8)
        } else if n == 7 {
            Some(Family::U16)
        } else if n == 8 {
            Some(Family::U32)
        } else if n == 9 {
            Some(Family::U64)
        } else if n == 10 {
            Some(Family::U128)
        } else if n == 11 {
            Some(Family::I8)
        } else {
            None
        }
    }

    /// The symbol of an operation of the family whose own symbol is `name`.
    pub fn qualify(self, name: &str) -> (symbol: String)
        ensures
            symbol@ == self.prefix() + name@,
    {
        let prefix = match self {
            Family::Nat => "#Nat.",
            Family::Int => "#Int.",
            Family::Bytes => "#Bytes.",
            Family::Text => "#Text.",
            Family::Char => "#Char.",
            Family::Bool => "#Bool.",
            Family::U8 => "#U8.",
            Family::U16 => "#U16.",
            Family::U32 => "#U32.",
            Family::U64 => "#U64.",
            Family::U128 => "#U128.",
            Family::I8 => "#I8.",
        };
        String::from_str(prefix).concat(name)
    }
}

/// The operations of the families: what a type that stands for them offers.
pub trait Operation: Copy {
    /// The values that operations take and give.
    type Literal;

    /// The types of operations.
    type Term;

    /// The symbol of the operation within its family.
    fn symbol(self) -> String;

    /// The operation in the data model.
    fn to_ipld(self) -> Ipld;

    /// The operation of `family` that `ipld` stands for, if it stands for
    /// one.
    fn from_ipld(family: Family, ipld: &Ipld) -> Option<Self>;

    /// The number of arguments that the operation takes.
    fn arity(self) -> u64;

    /// The value of the operation, if it takes no argument.
    fn apply0(self) -> Option<Self::Literal>;

    /// The value of the operation on one argument, if it takes one of its
    /// kind.
    fn apply1(self, x: Self::Literal) -> Option<Self::Literal>;

    /// The value of the operation on two arguments.
    fn apply2(self, x: Self::Literal, y: Self::Literal) -> Option<Self::Literal>;

    /// The value of the operation on three arguments.
    fn apply3(self, x: Self::Literal, y: Self::Literal, z: Self::Literal) -> Option<Self::Literal>;

    /// The type of the operation.
    fn type_of(self) -> Self::Term;
}

/// A primitive operation: an operation of one of the twelve families.
#[derive(PartialEq, Eq, Clone, Copy, Debug)]
pub enum Op<F: Operation> {
    Nat(F),
    Int(F),
    Bytes(F),
    Text(F),
    Char(F),
    Bool(F),
    U8(F),
    U16(F),
    U32(F),
    U64(F),
    U128(F),
    I8(F),
}

/// An operation and its family, put together as a primitive operation.
pub open spec fn op_of<F: Operation>(family: Family, op: F) -> Op<F> {
    match family {
        Family::Nat => Op::Nat(op),
        Family::Int => Op::Int(op),
        Family::Bytes => Op::Bytes(op),
        Family::Text => Op::Text(op),
        Family::Char => Op::Char(op),
        Family::Bool => Op::Bool(op),
        Family::U8 => Op::U8(op),
        Family::U16 => Op::U16(op),
        Family::U32 => Op::U32(op),
        Family::U64 => Op::U64(op),
        Family::U128 => Op::U128(op),
        Family::I8 => Op::I8(op),
    }
}

/// The family and the operation that a value of the data model stands for:
/// the value must be a list of two, the number of a family and then the
/// operation as the family writes it.
pub open spec fn pair_of(ipld: Ipld) -> Option<(Family, Ipld)> {
    match ipld {
        Ipld::List(xs) => if xs@.len() == 2 && xs@[0] is Integer && exists|family: Family|
            family.tag() == xs@[0]->Integer_0 {
            Some((choose|family: Family| family.tag() == xs@[0]->Integer_0, xs@[1]))
        } else {
            None
        },
        _ => None,
    }
}

/// Two families with one number are one family.
pub proof fn lemma_tags_differ(a: Family, b: Family)
    requires
        a.tag() == b.tag(),
    ensures
        a == b,
{
}

impl<F: Operation> Op<F> {
    /// The family of the operation.
    pub open spec fn family_of(self) -> Family {
        match self {
            Op::Nat(_) => Family::Nat,
            Op::Int(_) => Family::Int,
            Op::Bytes(_) => Family::Bytes,
            Op::Text(_) => Family::Text,
            Op::Char(_) => Family::Char,
            Op::Bool(_) => Family::Bool,
            Op::U8(_) => Family::U8,
            Op::U16(_) => Family::U16,
            Op::U32(_) => Family::U32,
            Op::U64(_) => Family::U64,
            Op::U128(_) => Family::U128,
            Op::I8(_) => Family::I8,
        }
    }

    /// The operation within its family.
    pub open spec fn inner_of(self) -> F {
        match self {
            Op::Nat(op) => op,
            Op::Int(op) => op,
            Op::Bytes(op) => op,
            Op::Text(op) => op,
            Op::Char(op) => op,
            Op::Bool(op) => op,
            Op::U8(op) => op,
            Op::U16(op) => op,
            Op::U32(op) => op,
            Op::U64(op) => op,
            Op::U128(op) => op,
            Op::I8(op) => op,
        }
    }

    /// The family of the operation.
    pub fn family(self) -> (family: Family)
        ensures
            family == self.family_of(),
    {
        match self {
            Op::Nat(_) => Family::Nat,
            Op::Int(_) => Family::Int,
            Op::Bytes(_) => Family::Bytes,
            Op::Text(_) => Family::Text,
            Op::Char(_) => Family::Char,
            Op::Bool(_) => Family::Bool,
            Op::U8(_) => Family::U8,
            Op::U16(_) => Family::U16,
            Op::U32(_) => Family::U32,
            Op::U64(_) => Family::U64,
            Op::U128(_) => Family::U128,
            Op::I8(_) => Family::I8,
        }
    }

    /// The operation within its family.
    pub fn inner(self) -> (op: F)
        ensures
            op == self.inner_of(),
    {
        match self {
            Op::Nat(op) => op,
            Op::Int(op) => op,
            Op::Bytes(op) => op,
            Op::Text(op) => op,
            Op::Char(op) => op,
            Op::Bool(op) => op,
            Op::U8(op) => op,
            Op::U16(op) => op,
            Op::U32(op) => op,
            Op::U64(op) => op,
            Op::U128(op) => op,
            Op::I8(op) => op,
        }
    }

    /// The operation `op` of the family `family`.
    pub fn new(family: Family, op: F) -> (r: Self)
        ensures
            r == op_of(family, op),
            r.family_of() == family,
            r.inner_of() == op,
    {
        match family {
            Family::Nat => Op::Nat(op),
            Family::Int => Op::Int(op),
            Family::Bytes => Op::Bytes(op),
            Family::Text => Op::Text(op),
            Family::Char => Op::Char(op),
            Family::Bool => Op::Bool(op),
            Family::U8 => Op::U8(op),
            Family::U16 => Op::U16(op),
            Family::U32 => Op::U32(op),
            Family::U64 => Op::U64(op),
            Family::U128 => Op::U128(op),
            Family::I8 => Op::I8(op),
        }
    }

    /// The qualified symbol of the operation: the prefix of its family, then
    /// the symbol that the operation has within the family.
    pub fn symbol(self) -> (text: String)
        ensures
            exists|name: String|
                call_ensures(F::symbol, (self.inner_of(),), name) && text@
                    == self.family_of().prefix() + name@,
    {
        let name = self.inner().symbol();
        self.family().qualify(name.as_str())
    }

    /// The operation in the data model: a list of the number of its family and
    /// the operation as the family writes it.
    pub fn to_ipld(self) -> (ipld: Ipld)
        ensures
            exists|inner: Ipld|
                call_ensures(F::to_ipld, (self.inner_of(),), inner) && view_of(ipld)
                    == IpldView::List(
                    seq![IpldView::Integer(self.family_of().tag() as i128), view_of(inner)],
                ),
    {
        let tag = Ipld::Integer(self.family().number() as i128);
        let op = self.inner().to_ipld();
        let ghost inner = view_of(op);
        let mut items: Vec<Ipld> = Vec::new();
        items.push(tag);
        items.push(op);
        proof {
            crate::ipld::lemma_list_view(items@);
            assert(crate::ipld::list_view(items@) =~= seq![
                IpldView::Integer(self.family_of().tag() as i128),
                inner,
            ]);
        }
        Ipld::List(items)
    }

    /// The operation that `ipld` stands for: `ipld` must be a list of the
    /// number of a family and of what the family reads as an operation.
    pub fn from_ipld(ipld: &Ipld) -> (r: Option<Self>)
        ensures
            match pair_of(*ipld) {
                Some((family, inner)) => exists|op: Option<F>|
                    call_ensures(F::from_ipld, (family, &inner), op) && r == match op {
                        Some(found) => Some(op_of(family, found)),
                        None => None,
                    },
                None => r is None,
            },
    {
        match ipld {
            Ipld::List(xs) => {
                if xs.len() != 2 {
                    return None;
                }
                match &xs[0] {
                    Ipld::Integer(n) => {
                        match Family::from_number(*n) {
                            Some(family) => {
                                proof {
                                    let found = pair_of(*ipld).unwrap();
                                    lemma_tags_differ(family, found.0);
                                }
                                match F::from_ipld(family, &xs[1]) {
                                    Some(op) => Some(Op::new(family, op)),
                                    None => None,
                                }
                            },
                            None => None,
                        }
                    },
                    _ => None,
                }
            },
            _ => None,
        }
    }

    /// The number of arguments that the operation takes.
    pub fn arity(self) -> (n: u64)
        ensures
            call_ensures(F::arity, (self.inner_of(),), n),
    {
        self.inner().arity()
    }

    /// The value of the operation, if it takes no argument. Only the families
    /// of the integers of a fixed width have such operations.
    pub fn apply0(self) -> (r: Option<F::Literal>)
        ensures
            self.family_of().has_constants() ==> call_ensures(F::apply0, (self.inner_of(),), r),
            !self.family_of().has_constants() ==> r is None,
    {
        match self {
            Op::U8(op) => op.apply0(),
            Op::U16(op) => op.apply0(),
            Op::U32(op) => op.apply0(),
            Op::U64(op) => op.apply0(),
            Op::U128(op) => op.apply0(),
            Op::I8(op) => op.apply0(),
            _ => None,
        }
    }

    /// The value of the operation on one argument.
    pub fn apply1(self, x: F::Literal) -> (r: Option<F::Literal>)
        ensures
            call_ensures(F::apply1, (self.inner_of(), x), r),
    {
        self.inner().apply1(x)
    }

    /// The value of the operation on two arguments.
    pub fn apply2(self, x: F::Literal, y: F::Literal) -> (r: Option<F::Literal>)
        ensures
            call_ensures(F::apply2, (self.inner_of(), x, y), r),
    {
        self.inner().apply2(x, y)
    }

    /// The value of the operation on three arguments. Only the families of
    /// byte strings and of text have such operations.
    pub fn apply3(self, x: F::Literal, y: F::Literal, z: F::Literal) -> (r: Option<F::Literal>)
        ensures
            self.family_of().has_ternary() ==> call_ensures(
                F::apply3,
                (self.inner_of(), x, y, z),
                r,
            ),
            !self.family_of().has_ternary() ==> r is None,
    {
        match self {
            Op::Bytes(op) => op.apply3(x, y, z),
            Op::Text(op) => op.apply3(x, y, z),
            _ => None,
        }
    }

    /// The type of the operation.
    pub fn type_of(self) -> (term: F::Term)
        ensures
            call_ensures(F::type_of, (self.inner_of(),), term),
    {
        self.inner().type_of()
    }
}

} // verus!
