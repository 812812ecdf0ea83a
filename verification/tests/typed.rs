use sp_ipld::{
    read_list, read_list_il, read_map, read_map_il, ByteCursor, Cid, Codec, DagCborCodec, Decode,
    Encode, Error, Ipld, StringMap, F32, F64,
};
use std::sync::Arc;

fn encode<T: Encode<DagCborCodec> + ?Sized>(v: &T) -> Result<Vec<u8>, Error> {
    DagCborCodec.encode(v).map(|w| w.into_inner())
}

fn decode<T: Decode<DagCborCodec>>(bytes: &[u8]) -> Result<T, Error> {
    DagCborCodec.decode(ByteCursor::new(bytes.to_vec()))
}

fn cid_bytes() -> Vec<u8> {
    let mut bytes = vec![0x01, 0x71, 0x12, 0x20];
    bytes.extend_from_slice(&[0x5a; 32]);
    bytes
}

#[test]
fn typed_bool() {
    assert_eq!(encode(&true), Ok(vec![0xf5]));
    assert_eq!(encode(&false), Ok(vec![0xf4]));
    assert_eq!(decode::<bool>(&[0xf5]), Ok(true));
    assert_eq!(decode::<bool>(&[0xf4]), Ok(false));
    assert_eq!(decode::<bool>(&[0xf6]), Err(Error::UnexpectedCode(0xf6)));
    assert_eq!(decode::<bool>(&[]), Err(Error::ShortRead));
}

#[test]
fn typed_unsigned_encode() {
    assert_eq!(encode(&7u8), Ok(vec![0x07]));
    assert_eq!(encode(&200u8), Ok(vec![0x18, 0xc8]));
    assert_eq!(encode(&200u16), Ok(vec![0x18, 0xc8]));
    assert_eq!(encode(&1000u16), Ok(vec![0x19, 0x03, 0xe8]));
    assert_eq!(encode(&1000u32), Ok(vec![0x19, 0x03, 0xe8]));
    assert_eq!(encode(&1_000_000u32), Ok(vec![0x1a, 0x00, 0x0f, 0x42, 0x40]));
    assert_eq!(encode(&1_000_000u64), Ok(vec![0x1a, 0x00, 0x0f, 0x42, 0x40]));
    assert_eq!(
        encode(&u64::MAX),
        Ok(vec![0x1b, 0xff, 0xff, 0xff, 0xff, 0xff, 0xff, 0xff, 0xff])
    );
    assert_eq!(encode(&5i128), Ok(vec![0x05]));
    assert_eq!(encode(&-5i128), Ok(vec![0x24]));
    assert_eq!(encode(&i128::MAX), Err(Error::IntegerOutOfRange));
}

#[test]
fn typed_unsigned_decode_takes_what_fits_the_width() {
    assert_eq!(decode::<u8>(&[0x17]), Ok(23));
    assert_eq!(decode::<u8>(&[0x18, 0xc8]), Ok(200));
    assert_eq!(decode::<u8>(&[0x19, 0x00, 0x01]), Err(Error::UnexpectedCode(0x19)));
    assert_eq!(decode::<u16>(&[0x18, 0xc8]), Ok(200));
    assert_eq!(decode::<u16>(&[0x19, 0x03, 0xe8]), Ok(1000));
    assert_eq!(decode::<u16>(&[0x1a, 0, 0, 0, 1]), Err(Error::UnexpectedCode(0x1a)));
    assert_eq!(decode::<u32>(&[0x19, 0x03, 0xe8]), Ok(1000));
    assert_eq!(decode::<u32>(&[0x1a, 0x00, 0x0f, 0x42, 0x40]), Ok(1_000_000));
    assert_eq!(decode::<u32>(&[0x1b, 0, 0, 0, 0, 0, 0, 0, 1]), Err(Error::UnexpectedCode(0x1b)));
    assert_eq!(decode::<u64>(&[0x0a]), Ok(10));
    assert_eq!(decode::<u64>(&[0x18, 0x0a]), Ok(10));
    assert_eq!(decode::<u64>(&[0x19, 0x00, 0x0a]), Ok(10));
    assert_eq!(decode::<u64>(&[0x1a, 0x00, 0x00, 0x00, 0x0a]), Ok(10));
    assert_eq!(
        decode::<u64>(&[0x1b, 0xff, 0xff, 0xff, 0xff, 0xff, 0xff, 0xff, 0xff]),
        Ok(u64::MAX)
    );
    assert_eq!(decode::<u64>(&[0x20]), Err(Error::UnexpectedCode(0x20)));
    assert_eq!(decode::<u64>(&[0x1b, 0xff]), Err(Error::ShortRead));
    assert_eq!(decode::<u8>(&[0x18]), Err(Error::ShortRead));
}

#[test]
fn typed_signed_negative() {
    assert_eq!(encode(&-1i8), Ok(vec![0x20]));
    assert_eq!(encode(&-24i8), Ok(vec![0x37]));
    assert_eq!(encode(&-25i8), Ok(vec![0x38, 0x18]));
    assert_eq!(encode(&i8::MIN), Ok(vec![0x38, 0x7f]));
    assert_eq!(encode(&-1000i16), Ok(vec![0x39, 0x03, 0xe7]));
    assert_eq!(encode(&-1_000_000i32), Ok(vec![0x3a, 0x00, 0x0f, 0x42, 0x3f]));
    assert_eq!(encode(&-25i64), Ok(vec![0x38, 0x18]));
    assert_eq!(
        encode(&i64::MIN),
        Ok(vec![0x3b, 0x7f, 0xff, 0xff, 0xff, 0xff, 0xff, 0xff, 0xff])
    );
    assert_eq!(decode::<i8>(&[0x20]), Ok(-1));
    assert_eq!(decode::<i8>(&[0x37]), Ok(-24));
    assert_eq!(decode::<i8>(&[0x38, 0x18]), Ok(-25));
    assert_eq!(decode::<i8>(&[0x38, 0x7f]), Ok(i8::MIN));
    assert_eq!(decode::<i16>(&[0x39, 0x03, 0xe7]), Ok(-1000));
    assert_eq!(decode::<i16>(&[0x38, 0x18]), Ok(-25));
    assert_eq!(decode::<i32>(&[0x3a, 0x00, 0x0f, 0x42, 0x3f]), Ok(-1_000_000));
    assert_eq!(decode::<i64>(&[0x39, 0x03, 0xe7]), Ok(-1000));
    assert_eq!(
        decode::<i64>(&[0x3b, 0x7f, 0xff, 0xff, 0xff, 0xff, 0xff, 0xff, 0xff]),
        Ok(i64::MIN)
    );
}

#[test]
fn typed_signed_takes_what_fits_the_width() {
    assert_eq!(decode::<i8>(&[0x39, 0x00, 0x01]), Err(Error::UnexpectedCode(0x39)));
    assert_eq!(decode::<i16>(&[0x3a, 0, 0, 0, 1]), Err(Error::UnexpectedCode(0x3a)));
    assert_eq!(decode::<i32>(&[0x3b, 0, 0, 0, 0, 0, 0, 0, 1]), Err(Error::UnexpectedCode(0x3b)));
    assert_eq!(decode::<i64>(&[0x05]), Err(Error::UnexpectedCode(0x05)));
    assert_eq!(decode::<i8>(&[0x38]), Err(Error::ShortRead));
}

#[test]
fn typed_signed_wraps_around_the_width() {
    assert_eq!(encode(&0i8), Ok(vec![0x38, 0xff]));
    assert_eq!(encode(&i8::MAX), Ok(vec![0x38, 0x80]));
    assert_eq!(encode(&1i16), Ok(vec![0x39, 0xff, 0xfe]));
    assert_eq!(encode(&0i32), Ok(vec![0x3a, 0xff, 0xff, 0xff, 0xff]));
    assert_eq!(
        encode(&i64::MAX),
        Ok(vec![0x3b, 0x80, 0x00, 0x00, 0x00, 0x00, 0x00, 0x00, 0x00])
    );
    assert_eq!(decode::<i8>(&[0x38, 0xff]), Ok(0));
    assert_eq!(decode::<i8>(&[0x38, 0x80]), Ok(i8::MAX));
    assert_eq!(decode::<i16>(&[0x39, 0xff, 0xfe]), Ok(1));
    for x in [i8::MIN, -100, -25, -24, -1, 0, 1, 23, 24, 100, i8::MAX] {
        assert_eq!(decode::<i8>(&encode(&x).unwrap()), Ok(x));
        assert_eq!(decode::<i16>(&encode(&(x as i16 * 200)).unwrap()), Ok(x as i16 * 200));
        assert_eq!(decode::<i32>(&encode(&(x as i32 * 70000)).unwrap()), Ok(x as i32 * 70000));
        assert_eq!(
            decode::<i64>(&encode(&(x as i64 * 5_000_000_000)).unwrap()),
            Ok(x as i64 * 5_000_000_000)
        );
    }
}

#[test]
fn typed_floats() {
    assert_eq!(encode(&F32(1.5f32.to_bits())), Ok(vec![0xfa, 0x3f, 0xc0, 0x00, 0x00]));
    assert_eq!(encode(&F32(f32::INFINITY.to_bits())), Ok(vec![0xfa, 0x7c, 0x00, 0x00, 0x00]));
    assert_eq!(encode(&F32(f32::NEG_INFINITY.to_bits())), Ok(vec![0xfa, 0xff, 0x80, 0x00, 0x00]));
    assert_eq!(encode(&F32(f32::NAN.to_bits())), Ok(vec![0xfa, 0x7f, 0xc0, 0x00, 0x00]));
    assert_eq!(encode(&F32(0x7f80_0001)), Ok(vec![0xfa, 0x7f, 0xc0, 0x00, 0x00]));
    assert_eq!(encode(&F64(1.5f64.to_bits())), Ok(vec![0xfa, 0x3f, 0xc0, 0x00, 0x00]));
    assert_eq!(
        encode(&F64(0.1f64.to_bits())),
        Ok(vec![0xfb, 0x3f, 0xb9, 0x99, 0x99, 0x99, 0x99, 0x99, 0x9a])
    );
    assert_eq!(decode::<F32>(&[0xfa, 0x3f, 0xc0, 0x00, 0x00]), Ok(F32(1.5f32.to_bits())));
    assert_eq!(decode::<F32>(&[0xfb, 0, 0, 0, 0, 0, 0, 0, 0]), Err(Error::UnexpectedCode(0xfb)));
    assert_eq!(decode::<F64>(&[0xfa, 0x3f, 0xc0, 0x00, 0x00]), Ok(F64(1.5f64.to_bits())));
    assert_eq!(
        decode::<F64>(&[0xfb, 0x3f, 0xb9, 0x99, 0x99, 0x99, 0x99, 0x99, 0x9a]),
        Ok(F64(0.1f64.to_bits()))
    );
    assert_eq!(decode::<F64>(&[0xf9, 0x00, 0x00]), Err(Error::UnexpectedCode(0xf9)));
    assert_eq!(decode::<F64>(&[0xfa, 0x3f]), Err(Error::ShortRead));
}

#[test]
fn typed_text_and_bytes() {
    assert_eq!(encode("IETF"), Ok(vec![0x64, 0x49, 0x45, 0x54, 0x46]));
    assert_eq!(encode(&"IETF".to_string()), Ok(vec![0x64, 0x49, 0x45, 0x54, 0x46]));
    assert_eq!(encode(&[1u8, 2, 3][..]), Ok(vec![0x43, 1, 2, 3]));
    let boxed: Box<[u8]> = vec![1u8, 2, 3].into_boxed_slice();
    assert_eq!(encode(&boxed), Ok(vec![0x43, 1, 2, 3]));
    assert_eq!(decode::<String>(&[0x64, 0x49, 0x45, 0x54, 0x46]), Ok("IETF".to_string()));
    assert_eq!(decode::<String>(&[0x78, 0x01, b'a']), Ok("a".to_string()));
    assert_eq!(decode::<String>(&[0x44, 1, 2, 3, 4]), Err(Error::UnexpectedCode(0x44)));
    assert_eq!(decode::<String>(&[0x61, 0xff]), Err(Error::InvalidUtf8));
    assert_eq!(decode::<String>(&[0x7c]), Err(Error::UnexpectedCode(0x7c)));
    assert_eq!(decode::<Box<[u8]>>(&[0x43, 1, 2, 3]), Ok(boxed));
    assert_eq!(decode::<Box<[u8]>>(&[0x58, 0x01, 9]), Ok(vec![9u8].into_boxed_slice()));
    assert_eq!(decode::<Box<[u8]>>(&[0x63, 1, 2, 3]), Err(Error::UnexpectedCode(0x63)));
    assert_eq!(decode::<Box<[u8]>>(&[0x43, 1, 2]), Err(Error::ShortRead));
}

#[test]
fn typed_link() {
    let cid = Cid::read(&cid_bytes()).unwrap();
    let bytes = encode(&cid).unwrap();
    assert_eq!(decode::<Cid>(&bytes), Ok(cid));
    assert_eq!(decode::<Cid>(&[0xd8, 0x2b, 0x58, 0x01, 0x00]), Err(Error::UnexpectedCode(0xd8)));
    assert_eq!(decode::<Cid>(&[0xd8]), Err(Error::UnexpectedCode(0xd8)));
    assert_eq!(decode::<Cid>(&[0x00]), Err(Error::UnexpectedCode(0x00)));
    assert_eq!(decode::<Cid>(&[]), Err(Error::ShortRead));
    assert_eq!(decode::<Cid>(&[0xd8, 0x2a, 0x58, 0x00]), Err(Error::InvalidLink));
    assert_eq!(decode::<Cid>(&[0xd8, 0x2a, 0x40]), Err(Error::UnexpectedTag(0x40)));
}

#[test]
fn typed_option() {
    assert_eq!(encode(&Some(5u8)), Ok(vec![0x05]));
    assert_eq!(encode(&None::<u8>), Ok(vec![0xf6]));
    assert_eq!(decode::<Option<u8>>(&[0x05]), Ok(Some(5)));
    assert_eq!(decode::<Option<u8>>(&[0xf6]), Ok(None));
    assert_eq!(decode::<Option<u8>>(&[0xf7]), Ok(None));
    assert_eq!(decode::<Option<u8>>(&[0x20]), Err(Error::UnexpectedCode(0x20)));
    assert_eq!(decode::<Option<u8>>(&[]), Err(Error::ShortRead));
    assert_eq!(decode::<Option<Option<bool>>>(&[0xf5]), Ok(Some(Some(true))));
    assert_eq!(decode::<Option<Ipld>>(&[0xf6]), Ok(None));
    assert_eq!(decode::<Option<Ipld>>(&[0x80]), Ok(Some(Ipld::List(vec![]))));
}

#[test]
fn typed_list() {
    assert_eq!(encode(&vec![1u8, 2, 3]), Ok(vec![0x83, 0x01, 0x02, 0x03]));
    assert_eq!(encode(&Vec::<u64>::new()), Ok(vec![0x80]));
    assert_eq!(
        encode(&vec![Some("a".to_string()), None]),
        Ok(vec![0x82, 0x61, 0x61, 0xf6])
    );
    assert_eq!(encode(&vec![1i128, i128::MAX, 2]), Err(Error::IntegerOutOfRange));
    assert_eq!(decode::<Vec<u8>>(&[0x83, 0x01, 0x02, 0x03]), Ok(vec![1, 2, 3]));
    assert_eq!(decode::<Vec<u8>>(&[0x9f, 0x01, 0x02, 0x03, 0xff]), Ok(vec![1, 2, 3]));
    assert_eq!(decode::<Vec<u8>>(&[0x98, 0x02, 0x01, 0x02]), Ok(vec![1, 2]));
    assert_eq!(decode::<Vec<u8>>(&[0x80]), Ok(vec![]));
    assert_eq!(decode::<Vec<u8>>(&[0x9f, 0xff]), Ok(vec![]));
    assert_eq!(decode::<Vec<Vec<u16>>>(&[0x82, 0x81, 0x19, 0x01, 0x00, 0x80]), Ok(vec![vec![256], vec![]]));
    assert_eq!(decode::<Vec<u8>>(&[0x82, 0x01]), Err(Error::ShortRead));
    assert_eq!(decode::<Vec<u8>>(&[0x9f, 0x01]), Err(Error::ShortRead));
    assert_eq!(decode::<Vec<u8>>(&[0x82, 0x01, 0x61]), Err(Error::UnexpectedCode(0x61)));
    assert_eq!(decode::<Vec<u8>>(&[0xa0]), Err(Error::UnexpectedCode(0xa0)));
    assert_eq!(decode::<Vec<u8>>(&[0x9c]), Err(Error::UnexpectedCode(0x9c)));
    assert_eq!(
        decode::<Vec<Ipld>>(&[0x82, 0x01, 0xf6]),
        Ok(vec![Ipld::Integer(1), Ipld::Null])
    );
}

#[test]
fn typed_list_readers() {
    let mut r = ByteCursor::new(vec![0x01, 0x02, 0x03, 0xff]);
    assert_eq!(read_list::<u8>(&mut r, 2), Ok(vec![1, 2]));
    assert_eq!(r.position(), 2);
    assert_eq!(read_list::<u8>(&mut r, 0), Ok(vec![]));
    assert_eq!(read_list_il::<u8>(&mut r), Ok(vec![3]));
    assert_eq!(r.position(), 4);
    r.set_position(0);
    assert_eq!(read_list::<u8>(&mut r, 4), Err(Error::UnexpectedCode(0xff)));
    r.set_position(0);
    assert_eq!(read_list::<u8>(&mut r, 5), Err(Error::UnexpectedCode(0xff)));
    r.set_position(3);
    assert_eq!(read_list_il::<u8>(&mut r), Ok(vec![]));
    assert_eq!(read_list_il::<u8>(&mut r), Err(Error::ShortRead));
}

#[test]
fn typed_map() {
    let mut map: StringMap<u8> = StringMap::new();
    map.insert("b".to_string(), 2);
    map.insert("aa".to_string(), 1);
    map.insert("a".to_string(), 7);
    map.insert("b".to_string(), 3);
    assert_eq!(
        map.entries,
        vec![("a".to_string(), 7), ("aa".to_string(), 1), ("b".to_string(), 3)]
    );
    let bytes = encode(&map).unwrap();
    assert_eq!(bytes, vec![0xa3, 0x61, 0x61, 0x07, 0x61, 0x62, 0x03, 0x62, 0x61, 0x61, 0x01]);
    assert_eq!(decode::<StringMap<u8>>(&bytes), Ok(map));
    assert_eq!(encode(&StringMap::<u8>::new()), Ok(vec![0xa0]));
    let ipld: Ipld = decode(&bytes).unwrap();
    assert_eq!(encode(&ipld), Ok(bytes));
}

#[test]
fn typed_map_decode() {
    let expected = StringMap {
        entries: vec![("a".to_string(), vec![1u8]), ("b".to_string(), vec![])],
    };
    assert_eq!(
        decode::<StringMap<Vec<u8>>>(&[0xa2, 0x61, 0x62, 0x80, 0x61, 0x61, 0x81, 0x01]),
        Ok(StringMap { entries: expected.entries.clone() })
    );
    assert_eq!(
        decode::<StringMap<Vec<u8>>>(&[0xbf, 0x61, 0x62, 0x80, 0x61, 0x61, 0x81, 0x01, 0xff]),
        Ok(expected)
    );
    assert_eq!(
        decode::<StringMap<u8>>(&[0xa2, 0x61, 0x61, 0x01, 0x61, 0x61, 0x02]),
        Ok(StringMap { entries: vec![("a".to_string(), 2)] })
    );
    assert_eq!(decode::<StringMap<u8>>(&[0xa1, 0x01, 0x01]), Err(Error::UnexpectedCode(0x01)));
    assert_eq!(decode::<StringMap<u8>>(&[0xa1, 0x61, 0x61]), Err(Error::ShortRead));
    assert_eq!(decode::<StringMap<u8>>(&[0xa1, 0x61, 0x61, 0x61]), Err(Error::UnexpectedCode(0x61)));
    assert_eq!(decode::<StringMap<u8>>(&[0x80]), Err(Error::UnexpectedCode(0x80)));
    assert_eq!(decode::<StringMap<u8>>(&[0xbf, 0x61, 0x61, 0x01]), Err(Error::ShortRead));
}

#[test]
fn typed_map_readers() {
    let mut r = ByteCursor::new(vec![0x61, 0x62, 0x02, 0x61, 0x61, 0x01, 0xff]);
    assert_eq!(
        read_map::<u8>(&mut r, 2).map(|m| m.entries),
        Ok(vec![("a".to_string(), 1), ("b".to_string(), 2)])
    );
    assert_eq!(r.position(), 6);
    r.set_position(3);
    assert_eq!(read_map_il::<u8>(&mut r).map(|m| m.entries), Ok(vec![("a".to_string(), 1)]));
    assert_eq!(r.position(), 7);
    r.set_position(0);
    assert_eq!(read_map::<u8>(&mut r, 3), Err(Error::UnexpectedCode(0xff)));
}

#[test]
fn typed_tuples() {
    assert_eq!(encode(&()), Ok(vec![0x80]));
    assert_eq!(encode(&(1u8,)), Ok(vec![0x81, 0x01]));
    assert_eq!(encode(&(1u8, true)), Ok(vec![0x82, 0x01, 0xf5]));
    assert_eq!(encode(&(1u8, true, "a".to_string())), Ok(vec![0x83, 0x01, 0xf5, 0x61, 0x61]));
    assert_eq!(
        encode(&(1u8, true, "a".to_string(), vec![-1i8])),
        Ok(vec![0x84, 0x01, 0xf5, 0x61, 0x61, 0x81, 0x20])
    );
    assert_eq!(encode(&(1u8, i128::MAX, 2u8)), Err(Error::IntegerOutOfRange));
    assert_eq!(decode::<()>(&[0x80]), Ok(()));
    assert_eq!(decode::<()>(&[0x81]), Err(Error::UnexpectedCode(0x81)));
    assert_eq!(decode::<(u8,)>(&[0x81, 0x01]), Ok((1,)));
    assert_eq!(decode::<(u8, bool)>(&[0x82, 0x01, 0xf5]), Ok((1, true)));
    assert_eq!(
        decode::<(u8, bool, String)>(&[0x83, 0x01, 0xf5, 0x61, 0x61]),
        Ok((1, true, "a".to_string()))
    );
    assert_eq!(
        decode::<(u8, bool, String, Vec<i8>)>(&[0x84, 0x01, 0xf5, 0x61, 0x61, 0x81, 0x20]),
        Ok((1, true, "a".to_string(), vec![-1]))
    );
    assert_eq!(decode::<(u8, bool)>(&[0x83, 0x01, 0xf5, 0x00]), Err(Error::UnexpectedCode(0x83)));
    assert_eq!(decode::<(u8, bool)>(&[0x82, 0x01]), Err(Error::ShortRead));
    assert_eq!(decode::<(u8, bool)>(&[0x82, 0xf5, 0x01]), Err(Error::UnexpectedCode(0xf5)));
    assert_eq!(decode::<(u8, bool)>(&[0x9f, 0x01, 0xf5, 0xff]), Err(Error::UnexpectedCode(0x9f)));
}

#[test]
fn typed_shared_and_borrowed() {
    let shared = Arc::new(vec![1u8, 2]);
    assert_eq!(encode(&shared), Ok(vec![0x82, 0x01, 0x02]));
    assert_eq!(decode::<Arc<Vec<u8>>>(&[0x82, 0x01, 0x02]), Ok(shared));
    let value = 300u16;
    let borrowed = &value;
    assert_eq!(encode(&borrowed), Ok(vec![0x19, 0x01, 0x2c]));
    let mut w = ByteCursor::new(Vec::new());
    assert_eq!(borrowed.encode(DagCborCodec, &mut w), Ok(()));
    assert_eq!(w.into_inner(), vec![0x19, 0x01, 0x2c]);
}

#[test]
fn typed_record() {
    let record = (
        "name".to_string(),
        vec![(1u32, Some(F64(2.5f64.to_bits()))), (2, None)],
        Cid::read(&cid_bytes()).unwrap(),
    );
    let bytes = encode(&record).unwrap();
    assert_eq!(decode::<(String, Vec<(u32, Option<F64>)>, Cid)>(&bytes), Ok(record));
    let ipld: Ipld = decode(&bytes).unwrap();
    assert_eq!(
        ipld,
        Ipld::List(vec![
            Ipld::String("name".to_string()),
            Ipld::List(vec![
                Ipld::List(vec![Ipld::Integer(1), Ipld::Float(2.5f64.to_bits())]),
                Ipld::List(vec![Ipld::Integer(2), Ipld::Null]),
            ]),
            Ipld::Link(Cid::read(&cid_bytes()).unwrap()),
        ])
    );
}
