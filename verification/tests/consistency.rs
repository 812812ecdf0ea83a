use quickcheck::QuickCheck;
use sp_ipld::scan::{references_of, skip_value};
use sp_ipld::{ByteCursor, Cid, Codec, DagCborCodec, Decode, Error, Ipld};

fn decode_at(bytes: &[u8]) -> (Result<Ipld, Error>, u64) {
    let mut r = ByteCursor::new(bytes.to_vec());
    let v = Ipld::decode(DagCborCodec, &mut r);
    (v, r.position())
}

fn links_of(v: &Ipld, found: &mut Vec<Cid>) {
    match v {
        Ipld::Link(c) => found.push(c.clone()),
        Ipld::List(l) => l.iter().for_each(|x| links_of(x, found)),
        Ipld::StringMap(m) => m.iter().for_each(|(_, x)| links_of(x, found)),
        _ => {}
    }
}

fn has_float_that_changes(v: &Ipld) -> bool {
    match v {
        Ipld::Float(bits) => f64::from_bits(*bits).is_nan() || f64::from_bits(*bits) == f64::INFINITY,
        Ipld::List(l) => l.iter().any(has_float_that_changes),
        Ipld::StringMap(m) => m.iter().any(|(_, x)| has_float_that_changes(x)),
        _ => false,
    }
}

fn what_is_decoded_is_skipped(bytes: Vec<u8>) -> bool {
    let (decoded, end) = decode_at(&bytes);
    let mut r = ByteCursor::new(bytes.clone());
    let skipped = skip_value(&mut r);
    let mut set = Vec::new();
    let mut s = ByteCursor::new(bytes.clone());
    let listed = references_of(&mut s, &mut set);
    match decoded {
        Ok(_) => {
            skipped == Ok(()) && r.position() == end && listed == Ok(()) && s.position() == end
        }
        Err(_) => true,
    }
}

fn what_is_decoded_encodes_to_what_decodes_the_same(bytes: Vec<u8>) -> bool {
    match decode_at(&bytes).0 {
        Ok(v) => {
            if has_float_that_changes(&v) {
                return true;
            }
            let again = DagCborCodec.encode(&v).unwrap().into_inner();
            let (back, end) = decode_at(&again);
            back == Ok(v) && end as usize == again.len()
        }
        Err(_) => true,
    }
}

fn structured(seed: &[u8], depth: u8) -> Ipld {
    let pick = seed.first().copied().unwrap_or(0);
    let rest = if seed.is_empty() { seed } else { &seed[1..] };
    match pick % 9 {
        0 => Ipld::Null,
        1 => Ipld::Bool(pick & 0x10 != 0),
        2 => Ipld::Integer(rest.iter().take(8).fold(-(pick as i128), |a, b| a * 7 + *b as i128)),
        3 => Ipld::Float((rest.len() as f64 * 0.37 - pick as f64).to_bits()),
        4 => Ipld::String(rest.iter().map(|b| (b'a' + b % 26) as char).collect()),
        5 => Ipld::Bytes(rest.to_vec()),
        6 if depth > 0 => Ipld::List(
            rest.chunks(3).map(|c| structured(c, depth - 1)).collect(),
        ),
        7 if depth > 0 => {
            let mut keys: Vec<String> = rest
                .chunks(2)
                .map(|c| c.iter().map(|b| (b'a' + b % 26) as char).collect())
                .collect();
            keys.sort();
            keys.dedup();
            Ipld::StringMap(
                keys.into_iter()
                    .enumerate()
                    .map(|(i, k)| {
                        let v = structured(&rest[i.min(rest.len())..], depth - 1);
                        (k, v)
                    })
                    .collect(),
            )
        }
        _ => {
            let mut id = vec![0x01, 0x71, 0x12, 0x20];
            id.extend((0..32u8).map(|i| i ^ pick));
            Ipld::Link(Cid::read(&id).unwrap())
        }
    }
}

fn structured_values_come_back(seed: Vec<u8>) -> bool {
    let v = structured(&seed, 3);
    let bytes = DagCborCodec.encode(&v).unwrap().into_inner();
    let (back, end) = decode_at(&bytes);
    let mut r = ByteCursor::new(bytes.clone());
    let skipped = skip_value(&mut r);
    let mut expected = Vec::new();
    links_of(&v, &mut expected);
    let mut found = Vec::new();
    let listed = references_of(&mut ByteCursor::new(bytes.clone()), &mut found);
    expected.sort_by(|a, b| a.as_bytes().cmp(b.as_bytes()));
    found.sort_by(|a, b| a.as_bytes().cmp(b.as_bytes()));
    back == Ok(v)
        && end as usize == bytes.len()
        && skipped == Ok(())
        && r.position() as usize == bytes.len()
        && listed == Ok(())
        && found == expected
}

#[test]
fn decoded_values_are_skipped_alike() {
    QuickCheck::new().tests(2000).quickcheck(what_is_decoded_is_skipped as fn(Vec<u8>) -> bool);
    for first in 0..=255u8 {
        for second in [0x00u8, 0x01, 0x18, 0x2a, 0x58, 0x61, 0x80, 0xff] {
            assert!(what_is_decoded_is_skipped(vec![first, second, 0x00, 0x61, 0x61, 0xff, 0xff, 0, 0, 0]));
        }
    }
}

#[test]
fn decoded_values_encode_canonically() {
    QuickCheck::new()
        .tests(2000)
        .quickcheck(what_is_decoded_encodes_to_what_decodes_the_same as fn(Vec<u8>) -> bool);
    for first in 0..=255u8 {
        for second in [0x00u8, 0x01, 0x18, 0x2a, 0x58, 0x61, 0x80, 0xff] {
            assert!(what_is_decoded_encodes_to_what_decodes_the_same(vec![
                first, second, 0x00, 0x61, 0x61, 0xff, 0xff, 0, 0, 0
            ]));
        }
    }
}

#[test]
fn structured_values_round_trip() {
    QuickCheck::new().tests(1000).quickcheck(structured_values_come_back as fn(Vec<u8>) -> bool);
    assert!(structured_values_come_back((0..200u8).collect()));
    assert!(structured_values_come_back((0..200u8).rev().collect()));
    assert!(structured_values_come_back(vec![7; 40]));
    assert!(structured_values_come_back(vec![6, 7, 8, 2, 7, 1, 1, 8, 6, 6, 6, 4, 5]));
}
