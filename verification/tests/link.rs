use sp_ipld::{Cid, Error};

fn v1() -> Vec<u8> {
    let mut bytes = vec![0x01, 0x55, 0x12, 0x20];
    bytes.extend_from_slice(&[0xab; 32]);
    bytes
}

fn v0() -> Vec<u8> {
    let mut bytes = vec![0x12, 0x20];
    bytes.extend_from_slice(&[0xcd; 32]);
    bytes
}

#[test]
fn read_gives_the_binary_form() {
    assert_eq!(Cid::read(&v1()).map(|c| c.to_bytes()), Ok(v1()));
    assert_eq!(Cid::read(&v0()).map(|c| c.to_bytes()), Ok(v0()));
    let cid = Cid::read(&v1()).unwrap();
    assert_eq!(cid.as_bytes(), &v1()[..]);
    assert_eq!(cid.duplicate(), cid);
    assert_eq!(cid.clone(), cid);
}

#[test]
fn read_leaves_out_what_follows_the_identifier() {
    let mut bytes = v1();
    bytes.extend_from_slice(&[0xff, 0xee]);
    assert_eq!(Cid::read(&bytes).map(|c| c.to_bytes()), Ok(v1()));
}

#[test]
fn read_of_a_short_identifier() {
    assert_eq!(Cid::read(&[0x01, 0x55, 0x00, 0x00]).map(|c| c.to_bytes()), Ok(vec![1, 0x55, 0, 0]));
    assert_eq!(
        Cid::read(&[0x01, 0x55, 0x00, 0x02, 7, 8]).map(|c| c.to_bytes()),
        Ok(vec![1, 0x55, 0, 2, 7, 8])
    );
}

#[test]
fn read_refuses_what_is_no_identifier() {
    assert_eq!(Cid::read(&[]), Err(Error::InvalidLink));
    assert_eq!(Cid::read(&[0x01]), Err(Error::InvalidLink));
    assert_eq!(Cid::read(&[0x02, 0x55, 0x00, 0x00]), Err(Error::InvalidLink));
    assert_eq!(Cid::read(&[0x00, 0x55, 0x00, 0x00]), Err(Error::InvalidLink));
    assert_eq!(Cid::read(&[0x01, 0x55, 0x12, 0x20, 0x01]), Err(Error::InvalidLink));
    assert_eq!(Cid::read(&[0x12, 0x20, 0x01]), Err(Error::InvalidLink));
    assert_eq!(Cid::read(&[0x01, 0x55, 0x12, 0x41]), Err(Error::InvalidLink));
}

#[test]
fn identifiers_that_were_read_are_canonical() {
    assert!(Cid::read(&v1()).unwrap().is_canonical());
    assert!(Cid::read(&v0()).unwrap().is_canonical());
    let mut bytes = v1();
    bytes.push(0x00);
    assert!(Cid::read(&bytes).unwrap().is_canonical());
}
