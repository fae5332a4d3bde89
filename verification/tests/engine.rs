use rhizome::error::Error;
use rhizome::id::ColId;
use rhizome::logic::ast::{CidValue, Column, FactArg, Reducer};
use rhizome::logic::program_builder::{ProgramBuilder, TermBuilder};
use rhizome::runtime::blockstore::{Blockstore, MemoryBlockstore};
use rhizome::runtime::vm::VM;
use rhizome::tuple::{InputTuple, Tuple};
use rhizome::types::ColType;
use rhizome::value::{Cid, Value};
use rhizome::var::{ColBinding, Var};

fn cid(fill: u8) -> Cid {
    let mut bytes: Vec<u8> = vec![0x01, 0x55, 0x12, 0x20];
    for _ in 0..32 {
        bytes.push(fill);
    }
    Cid::try_from_bytes(&bytes).unwrap()
}

fn var(col: &str, name: &str, typ: ColType) -> ColBinding {
    ColBinding::var(col, Var::typed(name, typ))
}

fn pop_all(vm: &mut VM) -> Vec<Tuple> {
    let mut found = Vec::new();
    while let Ok(Some(tuple)) = vm.pop() {
        found.push(tuple);
    }
    found
}

#[test]
fn unstratifiable_program_is_refused() {
    let mut p = ProgramBuilder::new();
    p.output("t", vec![Column::new("t", ColType::I64)]).unwrap();
    p.output("p", vec![Column::new("p", ColType::I64)]).unwrap();
    p.output("q", vec![Column::new("q", ColType::I64)]).unwrap();
    p.rule(
        "p",
        vec![var("p", "x", ColType::I64)],
        vec![
            TermBuilder::search("t", vec![var("t", "x", ColType::I64)]),
            TermBuilder::except("q", vec![var("q", "x", ColType::I64)]),
        ],
    )
    .unwrap();
    p.rule(
        "q",
        vec![var("q", "x", ColType::I64)],
        vec![
            TermBuilder::search("t", vec![var("t", "x", ColType::I64)]),
            TermBuilder::except("p", vec![var("p", "x", ColType::I64)]),
        ],
    )
    .unwrap();
    assert_eq!(p.build().err(), Some(Error::ProgramUnstratifiable));
}

#[test]
fn aggregation_through_recursion_is_refused() {
    let mut p = ProgramBuilder::new();
    p.output("n", vec![Column::new("n", ColType::I64)]).unwrap();
    p.rule(
        "n",
        vec![var("n", "m", ColType::I64)],
        vec![TermBuilder::group_by(
            Var::typed("m", ColType::I64),
            "n",
            vec![var("n", "x", ColType::I64)],
            Reducer::Max,
            vec![Var::typed("x", ColType::I64)],
            None,
        )],
    )
    .unwrap();
    assert_eq!(p.build().err(), Some(Error::ProgramUnstratifiable));
}

fn sibling_program() -> ProgramBuilder {
    let mut p = ProgramBuilder::new();
    p.output(
        "root",
        vec![
            Column::new("cid", ColType::Cid),
            Column::new("store", ColType::I64),
            Column::new("key", ColType::Any),
        ],
    )
    .unwrap();
    p.output("latestSibling", vec![Column::new("cid", ColType::Cid)]).unwrap();
    for fill in [2u8, 1u8, 3u8] {
        p.fact(
            "root",
            vec![
                FactArg::new("cid", Value::from_cid(cid(fill))),
                FactArg::new("store", Value::from_i64(1)),
                FactArg::new("key", Value::from_str("k")),
            ],
        )
        .unwrap();
    }
    p
}

#[test]
fn aggregation_min_over_content_identifiers() {
    let mut p = sibling_program();
    p.rule(
        "latestSibling",
        vec![var("cid", "c", ColType::Cid)],
        vec![
            TermBuilder::search(
                "root",
                vec![var("store", "s", ColType::I64), var("key", "k", ColType::Any)],
            ),
            TermBuilder::group_by(
                Var::typed("c", ColType::Cid),
                "root",
                vec![
                    var("cid", "c", ColType::Cid),
                    var("store", "s", ColType::I64),
                    var("key", "k", ColType::Any),
                ],
                Reducer::Min,
                vec![Var::typed("c", ColType::Cid)],
                None,
            ),
        ],
    )
    .unwrap();
    let mut vm = VM::new(p.build().unwrap());
    vm.step_epoch(&MemoryBlockstore::new()).unwrap();
    let siblings: Vec<Tuple> = pop_all(&mut vm)
        .into_iter()
        .filter(|t| t.id().as_str() == "latestSibling")
        .collect();
    assert_eq!(siblings.len(), 1);
    assert_eq!(siblings[0].col(&ColId::new("cid")), Some(&Value::from_cid(cid(1))));
}

fn aggregate(reducer: Reducer, init: Option<Value>, values: &[i64]) -> Vec<Tuple> {
    let mut p = ProgramBuilder::new();
    p.output("n", vec![Column::new("g", ColType::I64), Column::new("n", ColType::I64)]).unwrap();
    p.output("g", vec![Column::new("g", ColType::I64)]).unwrap();
    p.output("r", vec![Column::new("g", ColType::I64), Column::new("r", ColType::I64)]).unwrap();
    p.fact("g", vec![FactArg::new("g", Value::from_i64(7))]).unwrap();
    for v in values {
        p.fact(
            "n",
            vec![FactArg::new("g", Value::from_i64(7)), FactArg::new("n", Value::from_i64(*v))],
        )
        .unwrap();
    }
    p.fact("n", vec![FactArg::new("g", Value::from_i64(8)), FactArg::new("n", Value::from_i64(1000))])
        .unwrap();
    p.rule(
        "r",
        vec![var("g", "g", ColType::I64), var("r", "m", ColType::I64)],
        vec![
            TermBuilder::search("g", vec![var("g", "g", ColType::I64)]),
            TermBuilder::group_by(
                Var::typed("m", ColType::I64),
                "n",
                vec![var("g", "g", ColType::I64), var("n", "x", ColType::I64)],
                reducer,
                vec![Var::typed("x", ColType::I64)],
                init,
            ),
        ],
    )
    .unwrap();
    let mut vm = VM::new(p.build().unwrap());
    vm.step_epoch(&MemoryBlockstore::new()).unwrap();
    pop_all(&mut vm).into_iter().filter(|t| t.id().as_str() == "r").collect()
}

fn only_result(found: Vec<Tuple>) -> i64 {
    assert_eq!(found.len(), 1);
    match found[0].col(&ColId::new("r")) {
        Some(Value::I64(i)) => *i,
        other => panic!("no integer: {:?}", other),
    }
}

#[test]
fn built_in_reducers() {
    assert_eq!(only_result(aggregate(Reducer::Min, None, &[5, 3, 9])), 3);
    assert_eq!(only_result(aggregate(Reducer::Max, None, &[5, 3, 9])), 9);
    assert_eq!(only_result(aggregate(Reducer::Sum, None, &[5, 3, 9])), 17);
    assert_eq!(only_result(aggregate(Reducer::Sum, Some(Value::from_i64(100)), &[5, 3, 9])), 117);
    assert_eq!(only_result(aggregate(Reducer::Count, Some(Value::from_i64(0)), &[5, 3, 9])), 3);
}

#[test]
fn aggregation_over_nothing() {
    assert_eq!(aggregate(Reducer::Min, None, &[]).len(), 0);
    assert_eq!(only_result(aggregate(Reducer::Count, Some(Value::from_i64(0)), &[])), 0);
}

#[test]
fn failing_reducer_is_an_internal_error() {
    let mut p = ProgramBuilder::new();
    p.output("n", vec![Column::new("n", ColType::I64)]).unwrap();
    p.output("r", vec![Column::new("r", ColType::I64)]).unwrap();
    p.fact("n", vec![FactArg::new("n", Value::from_i64(i64::MAX))]).unwrap();
    p.fact("n", vec![FactArg::new("n", Value::from_i64(1))]).unwrap();
    p.rule(
        "r",
        vec![var("r", "m", ColType::I64)],
        vec![TermBuilder::group_by(
            Var::typed("m", ColType::I64),
            "n",
            vec![var("n", "x", ColType::I64)],
            Reducer::Sum,
            vec![Var::typed("x", ColType::I64)],
            None,
        )],
    )
    .unwrap();
    let mut vm = VM::new(p.build().unwrap());
    let failed = vm.step_epoch(&MemoryBlockstore::new());
    match failed {
        Err(Error::InternalError(message)) => assert_eq!(message, "reducer failed"),
        other => panic!("expected an internal error, got {:?}", other),
    }
    assert_eq!(vm.pc(), (0, None));
    assert_eq!(vm.timestamp().epoch(), 0);
    assert_eq!(vm.timestamp().iteration, 0);
    assert!(matches!(vm.step_epoch(&MemoryBlockstore::new()), Err(Error::InternalError(_))));
    assert_eq!(vm.timestamp().epoch(), 0);
}

fn set_program() -> ProgramBuilder {
    let mut p = ProgramBuilder::new();
    p.input(
        "evac",
        vec![
            Column::new("entity", ColType::Any),
            Column::new("attribute", ColType::Any),
            Column::new("value", ColType::Any),
        ],
    )
    .unwrap();
    p.output(
        "set",
        vec![
            Column::new("cid", ColType::Cid),
            Column::new("entity", ColType::Any),
            Column::new("attribute", ColType::Any),
            Column::new("value", ColType::Any),
        ],
    )
    .unwrap();
    p.rule(
        "set",
        vec![
            var("cid", "c", ColType::Cid),
            var("entity", "e", ColType::Any),
            var("attribute", "a", ColType::Any),
            var("value", "v", ColType::Any),
        ],
        vec![TermBuilder::search_cid(
            "evac",
            CidValue::Var(Var::typed("c", ColType::Cid)),
            vec![
                var("entity", "e", ColType::Any),
                var("attribute", "a", ColType::Any),
                var("value", "v", ColType::Any),
            ],
        )],
    )
    .unwrap();
    p
}

#[test]
fn content_addressed_search_binds_the_identifier() {
    let fact = InputTuple::new(
        Value::from_str("store"),
        Value::from_str("key"),
        Value::from_str("val"),
        vec![],
    );
    let k = cid(9);
    let mut blockstore = MemoryBlockstore::new();
    blockstore.put(k.clone(), fact.clone());
    assert_eq!(blockstore.get(&k).unwrap(), Some(fact.clone()));
    let mut vm = VM::new(set_program().build().unwrap());
    for tuple in fact.to_tuples(&k) {
        vm.push(tuple).unwrap();
    }
    vm.step_epoch(&blockstore).unwrap();
    let found = pop_all(&mut vm);
    assert_eq!(found.len(), 1);
    assert_eq!(found[0].id().as_str(), "set");
    assert_eq!(found[0].col(&ColId::new("cid")), Some(&Value::from_cid(k)));
    assert_eq!(found[0].col(&ColId::new("entity")), Some(&Value::from_str("store")));
    assert_eq!(found[0].col(&ColId::new("attribute")), Some(&Value::from_str("key")));
    assert_eq!(found[0].col(&ColId::new("value")), Some(&Value::from_str("val")));
}

#[test]
fn content_addressed_search_skips_what_the_blockstore_lacks() {
    let fact = InputTuple::new(
        Value::from_str("store"),
        Value::from_str("key"),
        Value::from_str("val"),
        vec![],
    );
    let mut vm = VM::new(set_program().build().unwrap());
    for tuple in fact.to_tuples(&cid(9)) {
        vm.push(tuple).unwrap();
    }
    vm.step_epoch(&MemoryBlockstore::new()).unwrap();
    assert_eq!(pop_all(&mut vm).len(), 0);
}

#[test]
fn links_are_pushed_as_tuples() {
    let fact = InputTuple::new(
        Value::from_i64(1),
        Value::from_str("a"),
        Value::from_bool(true),
        vec![cid(1), cid(2)],
    );
    let tuples = fact.to_tuples(&cid(3));
    assert_eq!(tuples.len(), 3);
    assert_eq!(
        tuples[0],
        Tuple::new(
            "evac",
            vec![
                FactArg::new("entity", Value::from_i64(1)),
                FactArg::new("attribute", Value::from_str("a")),
                FactArg::new("value", Value::from_bool(true)),
            ],
            Some(cid(3)),
        )
    );
    assert_eq!(
        tuples[2],
        Tuple::new(
            "links",
            vec![
                FactArg::new("from", Value::from_cid(cid(3))),
                FactArg::new("to", Value::from_cid(cid(2))),
            ],
            None,
        )
    );
}

#[test]
fn push_refuses_what_does_not_fit() {
    let mut vm = VM::new(set_program().build().unwrap());
    let unknown = Tuple::new("nowhere", vec![], None);
    assert!(matches!(vm.push(unknown), Err(Error::InternalError(_))));
    let derived = Tuple::new(
        "set",
        vec![
            FactArg::new("cid", Value::from_cid(cid(1))),
            FactArg::new("entity", Value::from_i64(1)),
            FactArg::new("attribute", Value::from_i64(1)),
            FactArg::new("value", Value::from_i64(1)),
        ],
        None,
    );
    assert!(matches!(vm.push(derived), Err(Error::InternalError(_))));
    let short = Tuple::new("evac", vec![FactArg::new("entity", Value::from_i64(1))], None);
    assert!(matches!(vm.push(short), Err(Error::InternalError(_))));
    assert_eq!(vm.pop().unwrap(), None);
}

struct Broken;

impl Blockstore for Broken {
    fn get(&self, _cid: &Cid) -> Result<Option<InputTuple>, Error> {
        Err(Error::blockstore("the store is down"))
    }
}

#[test]
fn a_failing_blockstore_ends_the_epoch() {
    let fact = InputTuple::new(
        Value::from_str("store"),
        Value::from_str("key"),
        Value::from_str("val"),
        vec![],
    );
    let mut vm = VM::new(set_program().build().unwrap());
    for tuple in fact.to_tuples(&cid(9)) {
        vm.push(tuple).unwrap();
    }
    assert!(matches!(vm.step_epoch(&Broken), Err(Error::BlockstoreError(_))));
    assert_eq!(vm.pc(), (0, None));
    assert_eq!(vm.timestamp().epoch(), 0);
    assert_eq!(vm.timestamp().iteration, 0);
    assert_eq!(pop_all(&mut vm).len(), 0);
}

#[test]
fn input_stays_queued_when_the_blockstore_fails() {
    let fact = InputTuple::new(
        Value::from_str("store"),
        Value::from_str("key"),
        Value::from_str("val"),
        vec![],
    );
    let k = cid(9);
    let mut vm = VM::new(set_program().build().unwrap());
    for tuple in fact.to_tuples(&k) {
        vm.push(tuple).unwrap();
    }
    assert!(matches!(vm.step_epoch(&Broken), Err(Error::BlockstoreError(_))));
    let mut blockstore = MemoryBlockstore::new();
    blockstore.put(k.clone(), fact.clone());
    vm.step_epoch(&blockstore).unwrap();
    let found = pop_all(&mut vm);
    assert_eq!(found.len(), 1);
    assert_eq!(found[0].col(&ColId::new("cid")), Some(&Value::from_cid(k)));
}

#[test]
fn a_failing_blockstore_is_not_asked_without_identifiers() {
    let mut vm = VM::new(set_program().build().unwrap());
    assert!(vm.step_epoch(&Broken).is_ok());
    let plain = Tuple::new(
        "evac",
        vec![
            FactArg::new("entity", Value::from_i64(1)),
            FactArg::new("attribute", Value::from_i64(2)),
            FactArg::new("value", Value::from_i64(3)),
        ],
        None,
    );
    vm.push(plain).unwrap();
    assert!(vm.step_epoch(&Broken).is_ok());
    assert_eq!(pop_all(&mut vm).len(), 0);
}

#[test]
fn a_held_identifier_is_not_asked_for_again() {
    let fact = InputTuple::new(
        Value::from_str("store"),
        Value::from_str("key"),
        Value::from_str("val"),
        vec![],
    );
    let k = cid(9);
    let mut blockstore = MemoryBlockstore::new();
    blockstore.put(k.clone(), fact.clone());
    let mut vm = VM::new(set_program().build().unwrap());
    for tuple in fact.to_tuples(&k) {
        vm.push(tuple).unwrap();
    }
    vm.step_epoch(&blockstore).unwrap();
    assert_eq!(pop_all(&mut vm).len(), 1);
    for tuple in fact.to_tuples(&k) {
        vm.push(tuple).unwrap();
    }
    assert!(vm.step_epoch(&Broken).is_ok());
}

fn unreachable_pairs(edges: &[(i64, i64)]) -> Vec<(i64, i64)> {
    let mut p = ProgramBuilder::new();
    let pair = |name: &str| vec![Column::new(&format!("{}0", name), ColType::I64), Column::new(&format!("{}1", name), ColType::I64)];
    p.output("r", pair("r")).unwrap();
    p.output("v", vec![Column::new("v", ColType::I64)]).unwrap();
    p.output("t", pair("t")).unwrap();
    p.output("tc", pair("tc")).unwrap();
    for (a, b) in edges {
        p.fact(
            "r",
            vec![FactArg::new("r0", Value::from_i64(*a)), FactArg::new("r1", Value::from_i64(*b))],
        )
        .unwrap();
    }
    let x = |col: &str| var(col, "x", ColType::I64);
    let y = |col: &str| var(col, "y", ColType::I64);
    let z = |col: &str| var(col, "z", ColType::I64);
    p.rule("v", vec![x("v")], vec![TermBuilder::search("r", vec![x("r0"), y("r1")])]).unwrap();
    p.rule("v", vec![y("v")], vec![TermBuilder::search("r", vec![x("r0"), y("r1")])]).unwrap();
    p.rule("t", vec![x("t0"), y("t1")], vec![TermBuilder::search("r", vec![x("r0"), y("r1")])])
        .unwrap();
    p.rule(
        "t",
        vec![x("t0"), y("t1")],
        vec![
            TermBuilder::search("t", vec![x("t0"), z("t1")]),
            TermBuilder::search("r", vec![z("r0"), y("r1")]),
        ],
    )
    .unwrap();
    p.rule(
        "tc",
        vec![x("tc0"), y("tc1")],
        vec![
            TermBuilder::search("v", vec![x("v")]),
            TermBuilder::search("v", vec![y("v")]),
            TermBuilder::except("t", vec![x("t0"), y("t1")]),
        ],
    )
    .unwrap();
    let mut vm = VM::new(p.build().unwrap());
    vm.step_epoch(&MemoryBlockstore::new()).unwrap();
    let mut found: Vec<(i64, i64)> = pop_all(&mut vm)
        .into_iter()
        .filter(|t| t.id().as_str() == "tc")
        .map(|t| match (t.col(&ColId::new("tc0")), t.col(&ColId::new("tc1"))) {
            (Some(Value::I64(a)), Some(Value::I64(b))) => (*a, *b),
            other => panic!("no pair: {:?}", other),
        })
        .collect();
    found.sort();
    found
}

#[test]
fn negation_against_a_closure_of_seeded_graphs() {
    let mut state: u64 = 0x9e3779b97f4a7c15;
    let mut next = |bound: u64| {
        state = state.wrapping_mul(6364136223846793005).wrapping_add(1442695040888963407);
        (state >> 33) % bound
    };
    for _ in 0..8 {
        let nodes = 2 + next(4) as usize;
        let count = 1 + next(7) as usize;
        let edges: Vec<(i64, i64)> =
            (0..count).map(|_| (next(nodes as u64) as i64, next(nodes as u64) as i64)).collect();
        let mut reach = vec![vec![false; nodes]; nodes];
        let mut vertex = vec![false; nodes];
        for (a, b) in &edges {
            reach[*a as usize][*b as usize] = true;
            vertex[*a as usize] = true;
            vertex[*b as usize] = true;
        }
        for k in 0..nodes {
            for i in 0..nodes {
                for j in 0..nodes {
                    if reach[i][k] && reach[k][j] {
                        reach[i][j] = true;
                    }
                }
            }
        }
        let mut expected = Vec::new();
        for i in 0..nodes {
            for j in 0..nodes {
                if vertex[i] && vertex[j] && !reach[i][j] {
                    expected.push((i as i64, j as i64));
                }
            }
        }
        assert_eq!(unreachable_pairs(&edges), expected);
    }
}
