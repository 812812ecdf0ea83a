use sp_ipld::prim::{Family, Operation};
use sp_ipld::{Ipld, Op};

#[derive(Clone, Copy, Debug, PartialEq, Eq)]
enum Sample {
    Max,
    Not,
    Add,
    Slice,
}

impl Operation for Sample {
    type Literal = i64;
    type Term = &'static str;

    fn symbol(self) -> String {
        match self {
            Sample::Max => "max".to_string(),
            Sample::Not => "not".to_string(),
            Sample::Add => "add".to_string(),
            Sample::Slice => "slice".to_string(),
        }
    }

    fn to_ipld(self) -> Ipld {
        Ipld::Integer(self.arity() as i128)
    }

    fn from_ipld(family: Family, ipld: &Ipld) -> Option<Self> {
        match (family, ipld) {
            (Family::Char, _) => None,
            (_, Ipld::Integer(0)) => Some(Sample::Max),
            (_, Ipld::Integer(1)) => Some(Sample::Not),
            (_, Ipld::Integer(2)) => Some(Sample::Add),
            (_, Ipld::Integer(3)) => Some(Sample::Slice),
            _ => None,
        }
    }

    fn arity(self) -> u64 {
        match self {
            Sample::Max => 0,
            Sample::Not => 1,
            Sample::Add => 2,
            Sample::Slice => 3,
        }
    }

    fn apply0(self) -> Option<i64> {
        if self == Sample::Max {
            Some(i64::MAX)
        } else {
            None
        }
    }

    fn apply1(self, x: i64) -> Option<i64> {
        if self == Sample::Not {
            Some(!x)
        } else {
            None
        }
    }

    fn apply2(self, x: i64, y: i64) -> Option<i64> {
        if self == Sample::Add {
            x.checked_add(y)
        } else {
            None
        }
    }

    fn apply3(self, x: i64, y: i64, z: i64) -> Option<i64> {
        if self == Sample::Slice {
            Some(x.max(y).min(z))
        } else {
            None
        }
    }

    fn type_of(self) -> &'static str {
        match self {
            Sample::Max => "i64",
            Sample::Not => "i64 -> i64",
            Sample::Add => "i64 -> i64 -> i64",
            Sample::Slice => "i64 -> i64 -> i64 -> i64",
        }
    }
}

fn families() -> Vec<(Family, u8, &'static str)> {
    vec![
        (Family::Nat, 0, "#Nat."),
        (Family::Int, 1, "#Int."),
        (Family::Bytes, 2, "#Bytes."),
        (Family::Text, 3, "#Text."),
        (Family::Char, 4, "#Char."),
        (Family::Bool, 5, "#Bool."),
        (Family::U8, 6, "#U8."),
        (Family::U16, 7, "#U16."),
        (Family::U32, 8, "#U32."),
        (Family::U64, 9, "#U64."),
        (Family::U128, 10, "#U128."),
        (Family::I8, 11, "#I8."),
    ]
}

#[test]
fn family_numbers() {
    for (family, number, _) in families() {
        assert_eq!(family.number(), number);
        assert_eq!(Family::from_number(number as i128), Some(family));
    }
    assert_eq!(Family::from_number(12), None);
    assert_eq!(Family::from_number(-1), None);
}

#[test]
fn symbol_begins_with_the_family() {
    for (family, _, prefix) in families() {
        assert_eq!(family.qualify("add"), format!("{}add", prefix));
        assert_eq!(Op::new(family, Sample::Add).symbol(), format!("{}add", prefix));
        assert_eq!(Op::new(family, Sample::Add).family(), family);
        assert_eq!(Op::new(family, Sample::Add).inner(), Sample::Add);
    }
    assert_eq!(Op::Nat(Sample::Not).symbol(), "#Nat.not");
    assert_eq!(Op::U128(Sample::Max).symbol(), "#U128.max");
}

#[test]
fn arity_and_type_are_those_of_the_operation() {
    assert_eq!(Op::Nat(Sample::Max).arity(), 0);
    assert_eq!(Op::Text(Sample::Slice).arity(), 3);
    assert_eq!(Op::Bool(Sample::Not).type_of(), "i64 -> i64");
}

#[test]
fn apply0_only_for_integers_of_a_fixed_width() {
    for (family, _, _) in families() {
        let expected = match family {
            Family::U8 | Family::U16 | Family::U32 | Family::U64 | Family::U128 | Family::I8 => {
                Some(i64::MAX)
            }
            _ => None,
        };
        assert_eq!(Op::new(family, Sample::Max).apply0(), expected);
        assert_eq!(Op::new(family, Sample::Add).apply0(), None);
    }
}

#[test]
fn apply1_and_apply2_are_those_of_the_operation() {
    for (family, _, _) in families() {
        assert_eq!(Op::new(family, Sample::Not).apply1(5), Some(-6));
        assert_eq!(Op::new(family, Sample::Add).apply1(5), None);
        assert_eq!(Op::new(family, Sample::Add).apply2(5, 6), Some(11));
        assert_eq!(Op::new(family, Sample::Add).apply2(i64::MAX, 1), None);
    }
}

#[test]
fn apply3_only_for_bytes_and_text() {
    for (family, _, _) in families() {
        let expected = match family {
            Family::Bytes | Family::Text => Some(5),
            _ => None,
        };
        assert_eq!(Op::new(family, Sample::Slice).apply3(1, 5, 9), expected);
        assert_eq!(Op::new(family, Sample::Add).apply3(1, 5, 9), None);
    }
}

#[test]
fn primop_ipld() {
    for (family, number, _) in families() {
        for op in [Sample::Max, Sample::Not, Sample::Add, Sample::Slice] {
            let x = Op::new(family, op);
            let ipld = x.to_ipld();
            assert_eq!(
                ipld,
                Ipld::List(vec![Ipld::Integer(number as i128), Ipld::Integer(op.arity() as i128)])
            );
            if family == Family::Char {
                assert_eq!(Op::<Sample>::from_ipld(&ipld), None);
            } else {
                assert_eq!(Op::from_ipld(&ipld), Some(x));
            }
        }
    }
}

#[test]
fn from_ipld_refuses_what_is_no_operation() {
    assert_eq!(Op::<Sample>::from_ipld(&Ipld::Null), None);
    assert_eq!(Op::<Sample>::from_ipld(&Ipld::List(vec![])), None);
    assert_eq!(Op::<Sample>::from_ipld(&Ipld::List(vec![Ipld::Integer(0)])), None);
    assert_eq!(
        Op::<Sample>::from_ipld(&Ipld::List(vec![Ipld::Integer(12), Ipld::Integer(0)])),
        None
    );
    assert_eq!(
        Op::<Sample>::from_ipld(&Ipld::List(vec![Ipld::Integer(-1), Ipld::Integer(0)])),
        None
    );
    assert_eq!(
        Op::<Sample>::from_ipld(&Ipld::List(vec![Ipld::Null, Ipld::Integer(0)])),
        None
    );
    assert_eq!(
        Op::<Sample>::from_ipld(&Ipld::List(vec![Ipld::Integer(0), Ipld::Integer(9)])),
        None
    );
    assert_eq!(
        Op::<Sample>::from_ipld(&Ipld::List(vec![
            Ipld::Integer(0),
            Ipld::Integer(1),
            Ipld::Integer(2)
        ])),
        None
    );
}
