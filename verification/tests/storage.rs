use rhizome::error::Error;
use rhizome::id::{ColId, RelationId};
use rhizome::logic::ast::{Column, Declaration, FactArg, Source};
use rhizome::ram::{Relation, Version};
use rhizome::storage::{Row, Storage, TupleSet};
use rhizome::timestamp::Timestamp;
use rhizome::tuple::Tuple;
use rhizome::types::ColType;
use rhizome::value::{bytes_lt, Cid, Value};

fn store() -> Storage {
    Storage::new(&vec![Declaration::new(
        "p",
        Source::Idb,
        vec![Column::new("a", ColType::I64), Column::new("b", ColType::Any)],
    )])
}

fn p(version: Version) -> Relation {
    Relation::new(RelationId::new("p"), version)
}

fn tuple(a: i64, b: &str) -> Tuple {
    Tuple::new(
        "p",
        vec![FactArg::new("b", Value::from_str(b)), FactArg::new("a", Value::from_i64(a))],
        None,
    )
}

fn row(a: i64, b: &str) -> Row {
    Row { values: vec![Value::from_i64(a), Value::from_str(b)], cid: None }
}

fn count(storage: &Storage, version: Version) -> usize {
    storage.table(0).rows(version).len()
}

#[test]
fn rows_are_kept_in_schema_order_and_once() {
    let mut storage = store();
    storage.insert(&p(Version::Total), &tuple(1, "x")).unwrap();
    storage.insert(&p(Version::Total), &tuple(1, "x")).unwrap();
    storage.insert(&p(Version::Total), &tuple(2, "x")).unwrap();
    assert_eq!(count(&storage, Version::Total), 2);
    assert_eq!(storage.table(0).rows(Version::Total).row(0), &row(1, "x"));
    assert!(storage.table(0).rows(Version::Total).contains(&row(2, "x")));
    assert_eq!(storage.table(0).tuple_for(&row(1, "x")).col(&ColId::new("b")), Some(&Value::from_str("x")));
}

#[test]
fn rows_must_fit_the_schema() {
    let mut storage = store();
    let wrong_type = Tuple::new(
        "p",
        vec![FactArg::new("a", Value::from_str("no")), FactArg::new("b", Value::from_i64(1))],
        None,
    );
    assert!(matches!(storage.insert(&p(Version::Total), &wrong_type), Err(Error::InternalError(_))));
    let missing = Tuple::new("p", vec![FactArg::new("a", Value::from_i64(1))], None);
    assert!(matches!(storage.insert(&p(Version::Total), &missing), Err(Error::InternalError(_))));
    let extra = Tuple::new(
        "p",
        vec![
            FactArg::new("a", Value::from_i64(1)),
            FactArg::new("b", Value::from_i64(1)),
            FactArg::new("c", Value::from_i64(1)),
        ],
        None,
    );
    assert!(matches!(storage.insert(&p(Version::Total), &extra), Err(Error::InternalError(_))));
    let unknown = Relation::new(RelationId::new("q"), Version::Total);
    assert!(matches!(storage.insert(&unknown, &tuple(1, "x")), Err(Error::InternalError(_))));
    assert_eq!(count(&storage, Version::Total), 0);
}

#[test]
fn what_total_holds_is_not_new() {
    let mut storage = store();
    storage.insert(&p(Version::Total), &tuple(1, "x")).unwrap();
    storage.insert(&p(Version::New), &tuple(1, "x")).unwrap();
    storage.insert(&p(Version::New), &tuple(2, "x")).unwrap();
    assert_eq!(count(&storage, Version::New), 1);
    storage.insert(&p(Version::Delta), &tuple(1, "x")).unwrap();
    assert_eq!(count(&storage, Version::Delta), 1);
}

#[test]
fn merge_swap_purge() {
    let mut storage = store();
    storage.insert(&p(Version::Total), &tuple(1, "x")).unwrap();
    storage.insert(&p(Version::New), &tuple(2, "x")).unwrap();
    storage.insert(&p(Version::New), &tuple(3, "x")).unwrap();
    storage.merge(&p(Version::New), &p(Version::Total)).unwrap();
    storage.merge(&p(Version::New), &p(Version::Total)).unwrap();
    assert_eq!(count(&storage, Version::Total), 3);
    assert_eq!(storage.all_empty(&vec![p(Version::Delta)]), Ok(true));
    assert_eq!(storage.all_empty(&vec![p(Version::Delta), p(Version::New)]), Ok(false));
    storage.swap(&p(Version::New), &p(Version::Delta)).unwrap();
    assert_eq!(count(&storage, Version::Delta), 2);
    assert_eq!(count(&storage, Version::New), 0);
    storage.purge(&p(Version::Delta)).unwrap();
    assert_eq!(count(&storage, Version::Delta), 0);
    assert!(matches!(storage.purge(&p(Version::Total)), Err(Error::InternalError(_))));
    assert!(matches!(
        storage.swap(&p(Version::Total), &p(Version::Delta)),
        Err(Error::InternalError(_))
    ));
    assert!(matches!(
        storage.merge(&Relation::new(RelationId::new("q"), Version::New), &p(Version::Total)),
        Err(Error::InternalError(_))
    ));
    assert_eq!(count(&storage, Version::Total), 3);
}

#[test]
fn sinks_give_each_row_out_once() {
    let mut storage = store();
    storage.insert(&p(Version::Total), &tuple(1, "x")).unwrap();
    let mut out = Vec::new();
    storage.sink(&mut out);
    assert_eq!(out.len(), 1);
    storage.insert(&p(Version::Total), &tuple(2, "y")).unwrap();
    storage.sink(&mut out);
    storage.sink(&mut out);
    assert_eq!(out.len(), 2);
    assert_eq!(out[1].col(&ColId::new("a")), Some(&Value::from_i64(2)));
}

#[test]
fn tuple_sets() {
    let mut a = TupleSet::new();
    assert!(a.is_empty());
    assert!(a.insert(row(1, "x")));
    assert!(!a.insert(row(1, "x")));
    let mut b = TupleSet::new();
    b.insert(row(2, "x"));
    b.insert(row(1, "x"));
    a.merge_from(&b);
    assert_eq!(a.len(), 2);
    a.swap(&mut b);
    assert_eq!(b.row(1), &row(2, "x"));
    b.purge();
    assert!(b.is_empty());
}

#[test]
fn the_clock() {
    let start = Timestamp::new();
    assert_eq!(start, start.clock_start());
    let later = start.advance_iteration().unwrap().advance_iteration().unwrap();
    assert_eq!(later.iteration, 2);
    assert_eq!(later.epoch_start(), start);
    let next = later.advance_epoch().unwrap();
    assert_eq!((next.clock, next.epoch, next.iteration), (0, 1, 0));
    assert!(start.is_first_epoch() && !next.is_first_epoch());
    let last = Timestamp { clock: 0, epoch: u64::MAX, iteration: u64::MAX };
    assert_eq!(last.advance_epoch(), None);
    assert_eq!(last.advance_iteration(), None);
}

#[test]
fn values_are_ordered_within_their_tag() {
    assert_eq!(Value::from_i64(-1).less(&Value::from_i64(0)), Some(true));
    assert_eq!(Value::from_bool(false).less(&Value::from_bool(true)), Some(true));
    assert_eq!(Value::from_bool(true).less(&Value::from_bool(true)), Some(false));
    assert_eq!(Value::from_str("ab").less(&Value::from_str("b")), Some(true));
    assert_eq!(Value::from_str("ab").less(&Value::from_str("a")), Some(false));
    assert_eq!(Value::from_str("a").less(&Value::from_i64(1)), None);
    assert!(bytes_lt(&[1, 2], &[1, 2, 0]));
    assert!(!bytes_lt(&[1, 2], &[1, 2]));
    assert!(bytes_lt(&[1, 2, 9], &[1, 3]));
    let mut low: Vec<u8> = vec![0x01, 0x55, 0x12, 0x20];
    let mut high = low.clone();
    for _ in 0..32 {
        low.push(1);
        high.push(2);
    }
    let (low, high) = (Cid::try_from_bytes(&low).unwrap(), Cid::try_from_bytes(&high).unwrap());
    assert!(low.less(&high) && !high.less(&low) && !low.same(&high));
    assert_eq!(Value::from_cid(low).less(&Value::from_cid(high)), Some(true));
}
