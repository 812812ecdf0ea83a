use sp_ipld::{
    ByteCursor, Cid, Codec, DagCborCodec, Decode, Encode, Error, Ipld, UnsupportedCodec,
};
use std::convert::TryFrom;

fn requires_dag_cbor<T: sp_ipld::DagCbor>(_: &T) {}

#[test]
fn the_tag_of_dag_cbor() {
    assert_eq!(u64::from(DagCborCodec), 0x71);
    let tag: u64 = DagCborCodec.into();
    assert_eq!(tag, 0x71);
}

#[test]
fn every_tag_gives_dag_cbor() {
    assert!(DagCborCodec::try_from(0x71).is_ok());
    assert!(DagCborCodec::try_from(0).is_ok());
    let r: Result<DagCborCodec, UnsupportedCodec> = DagCborCodec::try_from(u64::MAX);
    assert_eq!(r.ok(), Some(DagCborCodec));
    assert_eq!(UnsupportedCodec(5).0, 5);
    assert_eq!(Error::UnsupportedCodec(5), Error::UnsupportedCodec(5));
}

#[test]
fn facade_encodes_into_a_fresh_buffer() {
    let w = DagCborCodec.encode(&Ipld::List(vec![Ipld::Integer(1), Ipld::Null])).unwrap();
    assert_eq!(w.position(), 3);
    assert_eq!(w.into_inner(), vec![0x82, 0x01, 0xf6]);
    assert_eq!(
        DagCborCodec.encode(&Ipld::Integer(i128::MIN)).map(|w| w.into_inner()),
        Err(Error::IntegerOutOfRange)
    );
}

#[test]
fn facade_decodes_at_the_position() {
    let mut bytes = ByteCursor::new(vec![0xff, 0x82, 0x01, 0xf6]);
    bytes.set_position(1);
    let v: Ipld = DagCborCodec.decode(bytes).unwrap();
    assert_eq!(v, Ipld::List(vec![Ipld::Integer(1), Ipld::Null]));
    let r: Result<Ipld, Error> = DagCborCodec.decode(ByteCursor::new(vec![0xff]));
    assert_eq!(r, Err(Error::UnexpectedCode(0xff)));
}

#[test]
fn facade_lists_references() {
    let mut id = vec![0x01, 0x71, 0x12, 0x20];
    id.extend_from_slice(&[9; 32]);
    let cid = Cid::read(&id).unwrap();
    let bytes = DagCborCodec
        .encode(&Ipld::List(vec![Ipld::Link(cid.clone()), Ipld::Null]))
        .unwrap();
    let mut set = Vec::new();
    assert_eq!(
        DagCborCodec.references::<Ipld>(ByteCursor::new(bytes.into_inner()), &mut set),
        Ok(())
    );
    assert_eq!(set, vec![cid]);
}

#[test]
fn types_of_both_directions_are_dag_cbor() {
    requires_dag_cbor(&Ipld::Null);
    requires_dag_cbor(&5u8);
    requires_dag_cbor(&"a".to_string());
    requires_dag_cbor(&(1u8, vec![Some(true)]));
    let mut w = ByteCursor::new(Vec::new());
    5u8.encode(DagCborCodec, &mut w).unwrap();
    w.set_position(0);
    assert_eq!(u8::decode(DagCborCodec, &mut w), Ok(5));
}
