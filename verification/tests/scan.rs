use sp_ipld::scan::{references_of, skip_value};
use sp_ipld::{
    ByteCursor, Cid, Codec, DagCborCodec, Encode, Error, Ipld, References, SkipOne,
};

fn cid(seed: u8) -> Cid {
    let mut bytes = vec![0x01, 0x71, 0x12, 0x20];
    for i in 0..32u8 {
        bytes.push(i.wrapping_mul(seed).wrapping_add(seed));
    }
    Cid::read(&bytes).unwrap()
}

fn encode(v: &Ipld) -> Vec<u8> {
    DagCborCodec.encode(v).unwrap().into_inner()
}

fn sample() -> Ipld {
    Ipld::StringMap(vec![
        ("a".to_string(), Ipld::Link(cid(1))),
        (
            "bb".to_string(),
            Ipld::List(vec![
                Ipld::Integer(-500),
                Ipld::Link(cid(2)),
                Ipld::String("text".to_string()),
                Ipld::Bytes(vec![0xd8, 0x2a, 0x58]),
                Ipld::Link(cid(1)),
                Ipld::Float(0.1f64.to_bits()),
                Ipld::Float(2.0f64.to_bits()),
            ]),
        ),
        ("c".to_string(), Ipld::Null),
        ("dddd".to_string(), Ipld::StringMap(vec![("x".to_string(), Ipld::Link(cid(3)))])),
    ])
}

fn skip_all(bytes: &[u8]) -> Result<u64, Error> {
    let mut r = ByteCursor::new(bytes.to_vec());
    DagCborCodec.skip(&mut r)?;
    Ok(r.position())
}

fn links(bytes: &[u8]) -> Result<Vec<Cid>, Error> {
    let mut set = Vec::new();
    DagCborCodec.references::<Ipld>(ByteCursor::new(bytes.to_vec()), &mut set)?;
    Ok(set)
}

#[test]
fn skip_moves_by_the_length_of_the_encoding() {
    let values = vec![
        Ipld::Null,
        Ipld::Bool(true),
        Ipld::Integer(0),
        Ipld::Integer(24),
        Ipld::Integer(-70000),
        Ipld::Integer(u64::MAX as i128),
        Ipld::Float(1.5f64.to_bits()),
        Ipld::Float(0.1f64.to_bits()),
        Ipld::Float(f64::NAN.to_bits()),
        Ipld::Float(f64::INFINITY.to_bits()),
        Ipld::String("IETF".to_string()),
        Ipld::String("a".repeat(300)),
        Ipld::Bytes(vec![1; 30]),
        Ipld::List(vec![Ipld::Integer(1), Ipld::List(vec![]), Ipld::Null]),
        Ipld::Link(cid(5)),
        sample(),
    ];
    for v in values {
        let bytes = encode(&v);
        let mut framed = vec![0xff, 0xff, 0xff];
        framed.extend_from_slice(&bytes);
        framed.extend_from_slice(&[0x01, 0x02]);
        let mut r = ByteCursor::new(framed);
        r.set_position(3);
        assert_eq!(skip_value(&mut r), Ok(()));
        assert_eq!(r.position(), 3 + bytes.len() as u64);
        assert_eq!(skip_all(&bytes), Ok(bytes.len() as u64));
    }
}

#[test]
fn skip_passes_indefinite_lists_and_maps() {
    assert_eq!(skip_all(&[0x9f, 0x01, 0x02, 0x03, 0xff, 0x00]), Ok(5));
    assert_eq!(skip_all(&[0x9f, 0xff]), Ok(2));
    assert_eq!(skip_all(&[0xbf, 0x61, 0x61, 0x9f, 0x01, 0xff, 0xff, 0x00]), Ok(7));
    assert_eq!(skip_all(&[0xbf, 0x61, 0x61, 0xff]), Err(Error::UnexpectedCode(0xff)));
    assert_eq!(skip_all(&[0x9f, 0x01]), Err(Error::ShortRead));
}

#[test]
fn skip_passes_what_decode_refuses() {
    assert_eq!(skip_all(&[0xf8, 0x20]), Ok(2));
    assert_eq!(skip_all(&[0xf9, 0x7c, 0x00]), Ok(3));
    assert_eq!(skip_all(&[0xd8, 0x01, 0x05]), Ok(3));
    assert_eq!(skip_all(&[0xa1, 0x01, 0x02]), Ok(3));
}

#[test]
fn skip_does_not_look_at_what_it_passes() {
    assert_eq!(skip_all(&[0x18]), Ok(2));
    assert_eq!(skip_all(&[0x1b, 0x00]), Ok(9));
    assert_eq!(skip_all(&[0x45, 0x01]), Ok(6));
    assert_eq!(skip_all(&[0x62, 0xff, 0xff]), Ok(3));
    assert_eq!(skip_all(&[0x82, 0x18]), Err(Error::ShortRead));
}

#[test]
fn skip_errors() {
    assert_eq!(skip_all(&[]), Err(Error::ShortRead));
    assert_eq!(skip_all(&[0x1c]), Err(Error::UnexpectedCode(0x1c)));
    assert_eq!(skip_all(&[0xc0, 0x00]), Err(Error::UnexpectedCode(0xc0)));
    assert_eq!(skip_all(&[0xff]), Err(Error::UnexpectedCode(0xff)));
    assert_eq!(skip_all(&[0x59, 0x01]), Err(Error::ShortRead));
    assert_eq!(skip_all(&[0x83, 0x01]), Err(Error::ShortRead));
    assert_eq!(skip_all(&[0xd8]), Err(Error::ShortRead));
    assert_eq!(
        skip_all(&[0x5b, 0xff, 0xff, 0xff, 0xff, 0xff, 0xff, 0xff, 0xf6]),
        Err(Error::InvalidSeek)
    );
    assert_eq!(
        skip_all(&[0x9f, 0x5b, 0xff, 0xff, 0xff, 0xff, 0xff, 0xff, 0xff, 0xf6, 0xff]),
        Err(Error::InvalidSeek)
    );
}

#[test]
fn skip_may_leave_the_buffer() {
    let mut r = ByteCursor::new(vec![0x5b, 0x7f, 0xff, 0xff, 0xff, 0xff, 0xff, 0xff, 0xff]);
    assert_eq!(skip_value(&mut r), Ok(()));
    assert_eq!(r.position(), 9 + i64::MAX as u64);
    let mut bytes = vec![0x82];
    bytes.extend_from_slice(&[0x5b, 0x7f, 0xff, 0xff, 0xff, 0xff, 0xff, 0xff, 0xff]);
    assert_eq!(skip_all(&bytes), Err(Error::ShortRead));
}

#[test]
fn references_of_a_link() {
    let v = Ipld::Link(cid(9));
    assert_eq!(links(&encode(&v)), Ok(vec![cid(9)]));
}

#[test]
fn references_of_a_value_without_links() {
    let v = Ipld::List(vec![Ipld::Integer(1), Ipld::String("d8".to_string()), Ipld::Null]);
    assert_eq!(links(&encode(&v)), Ok(vec![]));
    assert_eq!(links(&[0xf9, 0x00, 0x00]), Ok(vec![]));
}

#[test]
fn references_are_the_links_of_the_value() {
    assert_eq!(links(&encode(&sample())), Ok(vec![cid(1), cid(2), cid(1), cid(3)]));
}

#[test]
fn references_come_in_the_order_of_the_encoding() {
    let v = Ipld::StringMap(vec![
        ("aaa".to_string(), Ipld::Link(cid(1))),
        ("b".to_string(), Ipld::Link(cid(2))),
    ]);
    assert_eq!(links(&encode(&v)), Ok(vec![cid(2), cid(1)]));
}

#[test]
fn references_are_appended() {
    let mut set = vec![cid(7)];
    let mut r = ByteCursor::new(encode(&sample()));
    assert_eq!(references_of(&mut r, &mut set), Ok(()));
    assert_eq!(set, vec![cid(7), cid(1), cid(2), cid(1), cid(3)]);
    assert_eq!(r.position() as usize, r.get_ref().len());
    let mut r = ByteCursor::new(encode(&Ipld::Link(cid(4))));
    assert_eq!(Ipld::references(DagCborCodec, &mut r, &mut set), Ok(()));
    assert_eq!(set.len(), 6);
    assert_eq!(set[5], cid(4));
}

#[test]
fn references_look_behind_other_tags() {
    let mut bytes = vec![0xd8, 0x01];
    bytes.extend_from_slice(&encode(&Ipld::Link(cid(3))));
    assert_eq!(links(&bytes), Ok(vec![cid(3)]));
    let mut bytes = vec![0x9f];
    bytes.extend_from_slice(&encode(&Ipld::Link(cid(3))));
    bytes.extend_from_slice(&[0x01, 0xff]);
    assert_eq!(links(&bytes), Ok(vec![cid(3)]));
    let mut bytes = vec![0xbf, 0x01];
    bytes.extend_from_slice(&encode(&Ipld::Link(cid(5))));
    bytes.push(0xff);
    assert_eq!(links(&bytes), Ok(vec![cid(5)]));
}

#[test]
fn references_errors() {
    assert_eq!(links(&[]), Err(Error::ShortRead));
    assert_eq!(links(&[0xd8, 0x2a, 0x45, 0, 1, 0x55, 0, 0]), Err(Error::UnexpectedTag(0x45)));
    assert_eq!(links(&[0xd8, 0x2a, 0x58, 0x00]), Err(Error::InvalidLink));
    assert_eq!(links(&[0xd8, 0x2a, 0x58, 0x02, 0x01, 0x01]), Err(Error::InvalidLink));
    assert_eq!(links(&[0xd8, 0x2a, 0x58, 0x03, 0x00, 0x07, 0x01]), Err(Error::InvalidLink));
    assert_eq!(links(&[0x82, 0x01]), Err(Error::ShortRead));
    assert_eq!(links(&[0xfc]), Err(Error::UnexpectedCode(0xfc)));
    let v = encode(&Ipld::List(vec![Ipld::Link(cid(1)), Ipld::Link(cid(2))]));
    let mut set = Vec::new();
    let mut r = ByteCursor::new(v[..v.len() - 1].to_vec());
    assert_eq!(references_of(&mut r, &mut set), Err(Error::ShortRead));
    assert_eq!(set, vec![cid(1)]);
}

#[test]
fn encode_link_begins_with_the_tag_and_lists_the_link() {
    let binary = cid(6).to_bytes();
    let bytes = encode(&Ipld::Link(cid(6)));
    assert_eq!(&bytes[..3], &[0xd8, 0x2a, 0x58]);
    assert_eq!(bytes[3] as usize, binary.len() + 1);
    assert_eq!(bytes[4], 0x00);
    assert_eq!(&bytes[5..], &binary[..]);
    assert_eq!(links(&bytes), Ok(vec![cid(6)]));
    let mut w = ByteCursor::new(Vec::new());
    assert_eq!(cid(6).encode(DagCborCodec, &mut w), Ok(()));
    assert_eq!(w.into_inner(), bytes);
}
