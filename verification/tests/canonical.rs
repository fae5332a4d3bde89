use rhizome::fact::{InputFact, OutputFact};
use rhizome::logic::ast::FactArg;
use rhizome::tuple::{InputTuple, Tuple};
use rhizome::value::{Cid, Value};

fn cid(fill: u8) -> Cid {
    let mut bytes: Vec<u8> = vec![0x01, 0x55, 0x12, 0x20];
    for _ in 0..32 {
        bytes.push(fill);
    }
    Cid::try_from_bytes(&bytes).unwrap()
}

#[test]
fn canonical_bytes_are_exact() {
    let fact = InputTuple::new(
        Value::from_i64(-2),
        Value::from_str("to"),
        Value::from_bool(true),
        vec![],
    );
    let mut expected: Vec<u8> = vec![2, 2, 0, 0, 0, 0, 0, 0, 0, b't', b'o'];
    expected.extend_from_slice(&[1, 0xfe, 0xff, 0xff, 0xff, 0xff, 0xff, 0xff, 0xff]);
    expected.extend_from_slice(&[0, 1]);
    expected.extend_from_slice(&[0, 0, 0, 0, 0, 0, 0, 0]);
    assert_eq!(fact.canonical_bytes(), expected);
}

#[test]
fn canonical_bytes_tell_facts_apart() {
    let base = InputTuple::new(
        Value::from_str("e"),
        Value::from_str("a"),
        Value::from_str("v"),
        vec![cid(1), cid(2)],
    );
    let same = base.clone();
    assert_eq!(base.canonical_bytes(), same.canonical_bytes());
    let swapped_links = InputTuple::new(
        Value::from_str("e"),
        Value::from_str("a"),
        Value::from_str("v"),
        vec![cid(2), cid(1)],
    );
    assert_ne!(base.canonical_bytes(), swapped_links.canonical_bytes());
    let swapped_columns = InputTuple::new(
        Value::from_str("a"),
        Value::from_str("e"),
        Value::from_str("v"),
        vec![cid(1), cid(2)],
    );
    assert_ne!(base.canonical_bytes(), swapped_columns.canonical_bytes());
    let other_tag = InputTuple::new(
        Value::from_str("e"),
        Value::from_str("a"),
        Value::from_cid(cid(1)),
        vec![],
    );
    let shifted = InputTuple::new(Value::from_str("e"), Value::from_str("a"), Value::from_str(""), vec![cid(1)]);
    assert_ne!(other_tag.canonical_bytes(), shifted.canonical_bytes());
    let with_link = cid(1).to_bytes().len();
    assert_eq!(
        base.canonical_bytes().len(),
        3 * (1 + 8 + 1) + 8 + 2 * (8 + with_link)
    );
}

#[test]
fn facts_at_the_host_boundary() {
    let fact = InputFact::new("store", "key", Value::from_i64(3), vec![cid(4)]);
    let inner = fact.into_inner();
    assert_eq!(inner.entity(), &Value::from_str("store"));
    assert_eq!(inner.attr(), &Value::from_str("key"));
    assert_eq!(inner.val(), &Value::from_i64(3));
    assert_eq!(inner.links(), &vec![cid(4)]);
    let tuple = Tuple::new("p", vec![FactArg::new("a", Value::from_i64(1))], None);
    assert_eq!(OutputFact::new(tuple.clone()).tuple(), tuple);
}
