use rhizome::types::ColType;
use rhizome::value::{Cid, Value};

#[test]
fn check_accepts_matching_tag() {
    assert!(ColType::I64.check(&Value::from_i64(3)).is_ok());
    assert!(ColType::Any.check(&Value::from_str("x")).is_ok());
    assert!(ColType::Bool.check(&Value::from_i64(3)).is_err());
}

#[test]
fn cid_round_trip() {
    let mut bytes: Vec<u8> = vec![0x01, 0x55, 0x12, 0x20];
    for i in 0..32u8 {
        bytes.push(i);
    }
    let cid = Cid::try_from_bytes(&bytes).unwrap();
    assert_eq!(cid.to_bytes(), bytes);
    bytes.push(7);
    let longer = Cid::try_from_bytes(&bytes).unwrap();
    assert!(cid.same(&longer));
    assert!(Cid::try_from_bytes(&vec![0x01]).is_none());
}
