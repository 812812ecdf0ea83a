use quickcheck::QuickCheck;
use sp_ipld::{ByteCursor, Cid, Codec, DagCborCodec, Decode, Encode, Error, Ipld};

fn cid(seed: u8) -> Cid {
    let mut bytes = vec![0x01, 0x71, 0x12, 0x20];
    for i in 0..32u8 {
        bytes.push(i.wrapping_mul(seed).wrapping_add(seed));
    }
    Cid::read(&bytes).unwrap()
}

fn encode_decode_id(value: Ipld) -> bool {
    let mut bc = ByteCursor::new(Vec::new());
    match value.encode(DagCborCodec, &mut bc) {
        Ok(()) => {
            let end = bc.position();
            bc.set_position(0);
            match Ipld::decode(DagCborCodec, &mut bc) {
                Ok(new_value) => value == new_value && bc.position() == end,
                Err(_) => false,
            }
        }
        Err(_) => false,
    }
}

fn edid_bool_prop(x: bool) -> bool {
    encode_decode_id(Ipld::Bool(x))
}

fn edid_integer_prop(x: u64, sign: bool) -> bool {
    let number = if sign { x as i128 } else { -(x as i128 - 1) };
    encode_decode_id(Ipld::Integer(number))
}

fn edid_bytes_prop(x: Vec<u8>) -> bool {
    encode_decode_id(Ipld::Bytes(x))
}

fn edid_string_prop(x: String) -> bool {
    encode_decode_id(Ipld::String(x))
}

fn edid_float_prop(x: f64) -> bool {
    x.is_nan() || x == f64::INFINITY || encode_decode_id(Ipld::Float(x.to_bits()))
}

fn edid_single_prop(x: f32) -> bool {
    x.is_nan() || x == f32::INFINITY || encode_decode_id(Ipld::Float((x as f64).to_bits()))
}

fn edid_list_prop(xs: Vec<i64>, ys: Vec<String>) -> bool {
    let mut items: Vec<Ipld> = xs.iter().map(|x| Ipld::Integer(*x as i128)).collect();
    items.push(Ipld::List(ys.iter().map(|y| Ipld::String(y.clone())).collect()));
    encode_decode_id(Ipld::List(items))
}

fn edid_string_map_prop(mut keys: Vec<String>, seed: u8) -> bool {
    keys.sort();
    keys.dedup();
    let entries = keys
        .into_iter()
        .enumerate()
        .map(|(i, k)| {
            let value = match i % 4 {
                0 => Ipld::Integer(i as i128 - 7),
                1 => Ipld::Link(cid(seed.wrapping_add(i as u8))),
                2 => Ipld::List(vec![Ipld::Null, Ipld::Bool(i % 8 == 2)]),
                _ => Ipld::StringMap(vec![(k.clone(), Ipld::Bytes(vec![seed]))]),
            };
            (k, value)
        })
        .collect();
    encode_decode_id(Ipld::StringMap(entries))
}

#[test]
fn edid_null() {
    assert!(encode_decode_id(Ipld::Null));
}

#[test]
fn edid_bool() {
    QuickCheck::new().quickcheck(edid_bool_prop as fn(bool) -> bool);
}

#[test]
fn edid_integer() {
    QuickCheck::new().quickcheck(edid_integer_prop as fn(u64, bool) -> bool);
    assert!(edid_integer_prop(0, true));
    assert!(edid_integer_prop(0, false));
    assert!(edid_integer_prop(u64::MAX, true));
    assert!(edid_integer_prop(u64::MAX, false));
    assert!(encode_decode_id(Ipld::Integer(-(u64::MAX as i128) - 1)));
}

#[test]
fn edid_bytes() {
    QuickCheck::new().quickcheck(edid_bytes_prop as fn(Vec<u8>) -> bool);
    assert!(edid_bytes_prop(vec![0; 70000]));
}

#[test]
fn edid_string() {
    QuickCheck::new().quickcheck(edid_string_prop as fn(String) -> bool);
    assert!(edid_string_prop("\u{1f600}".repeat(100)));
}

#[test]
fn edid_float() {
    QuickCheck::new().quickcheck(edid_float_prop as fn(f64) -> bool);
    QuickCheck::new().quickcheck(edid_single_prop as fn(f32) -> bool);
    assert!(edid_float_prop(f64::NEG_INFINITY));
    assert!(edid_float_prop(-0.0));
    assert!(edid_float_prop(f64::MAX));
    assert!(edid_float_prop(f64::from_bits(1)));
    assert!(edid_float_prop(f32::from_bits(1) as f64));
}

#[test]
fn edid_list() {
    QuickCheck::new().quickcheck(edid_list_prop as fn(Vec<i64>, Vec<String>) -> bool);
}

#[test]
fn edid_string_map() {
    QuickCheck::new().quickcheck(edid_string_map_prop as fn(Vec<String>, u8) -> bool);
    assert!(edid_string_map_prop(
        vec!["b".to_string(), "aa".to_string(), "".to_string(), "a".repeat(30), "c".to_string()],
        3
    ));
}

#[test]
fn edid_link() {
    for seed in 0..=255u8 {
        assert!(encode_decode_id(Ipld::Link(cid(seed))));
    }
    let mut v0 = vec![0x12, 0x20];
    v0.extend_from_slice(&[0x11; 32]);
    assert!(encode_decode_id(Ipld::Link(Cid::read(&v0).unwrap())));
}

#[test]
fn positive_infinity_does_not_come_back() {
    let bytes = DagCborCodec.encode(&Ipld::Float(f64::INFINITY.to_bits())).unwrap().into_inner();
    let back: Result<Ipld, Error> = DagCborCodec.decode(ByteCursor::new(bytes));
    assert_eq!(back, Ok(Ipld::Float((f32::from_bits(0x7c00_0000) as f64).to_bits())));
}

#[test]
fn nan_comes_back_as_the_quiet_nan() {
    let bytes = DagCborCodec.encode(&Ipld::Float(0x7ff0_0000_0000_0001)).unwrap().into_inner();
    let back: Result<Ipld, Error> = DagCborCodec.decode(ByteCursor::new(bytes));
    assert_eq!(back, Ok(Ipld::Float(0x7ff8_0000_0000_0000)));
}

#[test]
fn a_short_link_does_not_come_back() {
    let short = Cid::read(&[0x01, 0x55, 0x00, 0x00]).unwrap();
    let bytes = DagCborCodec.encode(&Ipld::Link(short)).unwrap().into_inner();
    assert_eq!(bytes, vec![0xd8, 0x2a, 0x45, 0x00, 0x01, 0x55, 0x00, 0x00]);
    let back: Result<Ipld, Error> = DagCborCodec.decode(ByteCursor::new(bytes));
    assert_eq!(back, Err(Error::UnexpectedTag(0x45)));
}

#[test]
fn decoding_and_encoding_gives_the_canonical_form() {
    let loose: Vec<u8> = vec![
        0xbf, 0x61, 0x62, 0x9f, 0x18, 0x01, 0x19, 0x00, 0x02, 0xff, 0x61, 0x61, 0xf7, 0xff,
    ];
    let value: Ipld = DagCborCodec.decode(ByteCursor::new(loose)).unwrap();
    assert_eq!(
        DagCborCodec.encode(&value).unwrap().into_inner(),
        vec![0xa2, 0x61, 0x61, 0xf6, 0x61, 0x62, 0x82, 0x01, 0x02]
    );
}
