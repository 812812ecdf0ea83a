use sp_ipld::decode::insert_entry;
use sp_ipld::ipld::keys_in_order;
use sp_ipld::{ByteCursor, Codec, DagCborCodec, Ipld};

#[test]
fn values_without_maps_are_well_formed() {
    assert!(Ipld::Null.is_well_formed());
    assert!(Ipld::Integer(5).is_well_formed());
    assert!(Ipld::List(vec![Ipld::Null, Ipld::List(vec![])]).is_well_formed());
}

#[test]
fn maps_with_ascending_keys_are_well_formed() {
    assert!(Ipld::StringMap(vec![]).is_well_formed());
    assert!(Ipld::StringMap(vec![("a".to_string(), Ipld::Null)]).is_well_formed());
    assert!(Ipld::StringMap(vec![
        ("".to_string(), Ipld::Null),
        ("a".to_string(), Ipld::Null),
        ("aa".to_string(), Ipld::Null),
        ("b".to_string(), Ipld::Null),
        ("\u{e9}".to_string(), Ipld::Null),
    ])
    .is_well_formed());
}

#[test]
fn maps_with_other_orders_are_not_well_formed() {
    assert!(!Ipld::StringMap(vec![
        ("b".to_string(), Ipld::Null),
        ("a".to_string(), Ipld::Null),
    ])
    .is_well_formed());
    assert!(!Ipld::StringMap(vec![
        ("a".to_string(), Ipld::Null),
        ("a".to_string(), Ipld::Null),
    ])
    .is_well_formed());
    assert!(!Ipld::StringMap(vec![
        ("a".to_string(), Ipld::Null),
        ("c".to_string(), Ipld::Null),
        ("b".to_string(), Ipld::Null),
    ])
    .is_well_formed());
    let inner = Ipld::StringMap(vec![
        ("z".to_string(), Ipld::Null),
        ("y".to_string(), Ipld::Null),
    ]);
    assert!(!Ipld::List(vec![Ipld::Null, inner.clone()]).is_well_formed());
    assert!(!Ipld::StringMap(vec![("a".to_string(), inner)]).is_well_formed());
}

#[test]
fn keys_in_order_looks_at_one_map() {
    let inner = Ipld::StringMap(vec![
        ("z".to_string(), Ipld::Null),
        ("y".to_string(), Ipld::Null),
    ]);
    assert!(keys_in_order(&vec![("a".to_string(), inner.clone()), ("b".to_string(), inner)]));
    assert!(!keys_in_order(&vec![("b".to_string(), Ipld::Null), ("a".to_string(), Ipld::Null)]));
    assert!(keys_in_order(&vec![]));
}

#[test]
fn insert_entry_keeps_the_keys_in_order() {
    let mut m: Vec<(String, Ipld)> = Vec::new();
    for (k, v) in [("m", 1), ("a", 2), ("z", 3), ("mm", 4), ("", 5), ("a", 6), ("z", 7)] {
        insert_entry(&mut m, k.to_string(), Ipld::Integer(v));
        assert!(keys_in_order(&m));
    }
    assert_eq!(
        m,
        vec![
            ("".to_string(), Ipld::Integer(5)),
            ("a".to_string(), Ipld::Integer(6)),
            ("m".to_string(), Ipld::Integer(1)),
            ("mm".to_string(), Ipld::Integer(4)),
            ("z".to_string(), Ipld::Integer(7)),
        ]
    );
}

#[test]
fn decoded_values_are_well_formed() {
    let loose: Vec<u8> = vec![
        0xbf, 0x61, 0x62, 0xa2, 0x61, 0x7a, 0x01, 0x61, 0x79, 0x02, 0x61, 0x61, 0xf7, 0xff,
    ];
    let value: Ipld = DagCborCodec.decode(ByteCursor::new(loose)).unwrap();
    assert!(value.is_well_formed());
    assert_eq!(
        value,
        Ipld::StringMap(vec![
            ("a".to_string(), Ipld::Null),
            (
                "b".to_string(),
                Ipld::StringMap(vec![
                    ("y".to_string(), Ipld::Integer(2)),
                    ("z".to_string(), Ipld::Integer(1)),
                ])
            ),
        ])
    );
}
