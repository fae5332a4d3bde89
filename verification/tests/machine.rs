use rhizome::error::Error;
use rhizome::id::RelationId;
use rhizome::logic::ast::{Column, Declaration, FactArg, Source};
use rhizome::ram::{Attr, Operation, Program, Relation, Statement, Term, Version};
use rhizome::runtime::blockstore::MemoryBlockstore;
use rhizome::runtime::vm::VM;
use rhizome::storage::Row;
use rhizome::timestamp::Timestamp;
use rhizome::tuple::Tuple;
use rhizome::types::ColType;
use rhizome::value::Value;

fn numbers(source: Source) -> Declaration {
    Declaration::new("n", source, vec![Column::new("n", ColType::I64)])
}

fn n(version: Version) -> Relation {
    Relation::new(RelationId::new("n"), version)
}

fn put(value: i64, version: Version, is_ground: bool) -> Statement {
    Statement::Insert {
        operation: Operation::Project {
            attributes: vec![Attr {
                col: rhizome::id::ColId::new("n"),
                term: Term::Literal(Value::from_i64(value)),
            }],
            into: n(version),
        },
        is_ground,
    }
}

fn total(vm: &VM) -> Vec<Row> {
    let rows = vm.storage().table(0).rows(Version::Total);
    (0..rows.len()).map(|i| rows.row(i).clone()).collect()
}

fn row(value: i64) -> Row {
    Row { values: vec![Value::from_i64(value)], cid: None }
}

#[test]
fn a_new_machine_is_at_the_start() {
    let vm = VM::new(Program::new(vec![numbers(Source::Idb)], vec![Statement::Sources]));
    assert_eq!(vm.timestamp(), &Timestamp::new());
    assert_eq!(vm.pc(), (0, None));
    assert_eq!(vm.load_statement(), Ok(&Statement::Sources));
    assert_eq!(vm.step_pc(), Ok((0, None)));
}

#[test]
fn the_counter_enters_the_loop_it_meets() {
    let vm = VM::new(Program::new(
        vec![numbers(Source::Idb)],
        vec![
            Statement::Sources,
            Statement::Loop { body: vec![Statement::Exit { relations: vec![n(Version::New)] }] },
            Statement::Sinks,
        ],
    ));
    assert_eq!(vm.step_pc(), Ok((1, Some(0))));
}

#[test]
fn a_machine_without_statements_cannot_step() {
    let mut vm = VM::new(Program::new(vec![], vec![]));
    assert!(matches!(vm.load_statement(), Err(Error::InternalError(_))));
    assert!(matches!(vm.step_pc(), Err(Error::InternalError(_))));
    assert!(matches!(vm.step_epoch(&MemoryBlockstore::new()), Err(Error::InternalError(_))));
}

#[test]
fn a_loop_at_the_start_is_never_entered() {
    let mut vm = VM::new(Program::new(
        vec![numbers(Source::Idb)],
        vec![Statement::Loop { body: vec![Statement::Sources] }],
    ));
    assert!(matches!(vm.load_statement(), Err(Error::InternalError(_))));
    assert!(matches!(vm.step_epoch(&MemoryBlockstore::new()), Err(Error::InternalError(_))));
    assert_eq!(vm.pc(), (0, None));
    assert_eq!(vm.timestamp().epoch, 0);
}

#[test]
fn a_loop_in_a_loop_is_refused() {
    let mut vm = VM::new(Program::new(
        vec![numbers(Source::Idb)],
        vec![
            Statement::Sources,
            Statement::Loop { body: vec![Statement::Loop { body: vec![] }] },
        ],
    ));
    assert!(matches!(vm.step_epoch(&MemoryBlockstore::new()), Err(Error::InternalError(_))));
}

#[test]
fn total_is_never_emptied() {
    let mut vm = VM::new(Program::new(
        vec![numbers(Source::Idb)],
        vec![
            Statement::Sources,
            put(1, Version::Total, false),
            Statement::Purge { relation: n(Version::Total) },
        ],
    ));
    assert!(matches!(vm.step_epoch(&MemoryBlockstore::new()), Err(Error::InternalError(_))));
    assert_eq!(total(&vm), vec![row(1)]);
}

#[test]
fn ground_insertions_run_in_the_first_epoch_only() {
    let mut vm = VM::new(Program::new(
        vec![Declaration::new("in", Source::Edb, vec![]), numbers(Source::Idb)],
        vec![Statement::Sources, put(1, Version::Total, true), Statement::Sinks],
    ));
    let blockstore = MemoryBlockstore::new();
    vm.step_epoch(&blockstore).unwrap();
    assert_eq!(vm.timestamp(), &Timestamp { clock: 0, epoch: 1, iteration: 0 });
    assert_eq!(vm.pc(), (0, None));
    assert_eq!(vm.pop().unwrap().map(|t| t.cols), Some(vec![FactArg::new("n", Value::from_i64(1))]));
    vm.step_epoch(&blockstore).unwrap();
    assert_eq!(vm.timestamp().epoch, 1);
    vm.push(Tuple::new("in", vec![], None)).unwrap();
    vm.step_epoch(&blockstore).unwrap();
    assert_eq!(vm.timestamp().epoch, 2);
    assert_eq!(vm.pop().unwrap(), None);
}

#[test]
fn the_loop_advances_the_iteration() {
    let mut vm = VM::new(Program::new(
        vec![numbers(Source::Idb)],
        vec![
            Statement::Sources,
            put(1, Version::Delta, false),
            Statement::Loop {
                body: vec![
                    Statement::Purge { relation: n(Version::New) },
                    Statement::Exit { relations: vec![n(Version::New), n(Version::Delta)] },
                    Statement::Swap { left: n(Version::New), right: n(Version::Delta) },
                ],
            },
            Statement::Sinks,
        ],
    ));
    vm.step_epoch(&MemoryBlockstore::new()).unwrap();
    assert_eq!(vm.timestamp(), &Timestamp { clock: 0, epoch: 1, iteration: 0 });
    assert_eq!(vm.storage().table(0).rows(Version::Delta).len(), 0);
    assert_eq!(vm.storage().table(0).rows(Version::New).len(), 0);
}

#[test]
fn total_only_grows_from_epoch_to_epoch() {
    let mut vm = VM::new(Program::new(
        vec![numbers(Source::Edb)],
        vec![
            Statement::Sources,
            Statement::Merge { from: n(Version::Delta), into: n(Version::Total) },
            Statement::Purge { relation: n(Version::Delta) },
            Statement::Sinks,
        ],
    ));
    let blockstore = MemoryBlockstore::new();
    let fact = |v: i64| Tuple::new("n", vec![FactArg::new("n", Value::from_i64(v))], None);
    vm.push(fact(1)).unwrap();
    vm.push(fact(2)).unwrap();
    vm.step_epoch(&blockstore).unwrap();
    let first = total(&vm);
    assert_eq!(first, vec![row(1), row(2)]);
    vm.push(fact(2)).unwrap();
    vm.push(fact(3)).unwrap();
    vm.step_epoch(&blockstore).unwrap();
    let second = total(&vm);
    assert_eq!(second, vec![row(1), row(2), row(3)]);
    assert_eq!(&second[..first.len()], &first[..]);
    assert_eq!(vm.pop().unwrap(), None);
}

#[test]
fn derived_facts_come_out_in_the_order_in_which_they_were_derived() {
    let one = |name: &str, value: i64| Statement::Insert {
        operation: Operation::Project {
            attributes: vec![Attr {
                col: rhizome::id::ColId::new("n"),
                term: Term::Literal(Value::from_i64(value)),
            }],
            into: Relation::new(RelationId::new(name), Version::Total),
        },
        is_ground: false,
    };
    let mut vm = VM::new(Program::new(
        vec![
            Declaration::new("a", Source::Idb, vec![Column::new("n", ColType::I64)]),
            Declaration::new("b", Source::Idb, vec![Column::new("n", ColType::I64)]),
        ],
        vec![
            Statement::Sources,
            one("b", 1),
            one("a", 2),
            one("b", 3),
            one("b", 1),
            Statement::Sinks,
        ],
    ));
    vm.step_epoch(&MemoryBlockstore::new()).unwrap();
    let mut order = Vec::new();
    while let Some(tuple) = vm.pop().unwrap() {
        order.push((tuple.id().as_str().to_string(), tuple.cols[0].value.clone()));
    }
    assert_eq!(
        order,
        vec![
            ("b".to_string(), Value::from_i64(1)),
            ("a".to_string(), Value::from_i64(2)),
            ("b".to_string(), Value::from_i64(3)),
        ]
    );
}
