use rhizome::logic::ast::{
    BodyTerm, Clause, Column, Declaration, Fact, FactArg, Negation, Predicate, Program, Rule,
    Source,
};
use rhizome::logic::lower_to_ram::lower_to_ram;
use rhizome::runtime::blockstore::MemoryBlockstore;
use rhizome::runtime::vm::VM;
use rhizome::tuple::Tuple;
use rhizome::types::ColType;
use rhizome::value::Value;
use rhizome::var::{ColBinding, Var};

fn var(col: &str, name: &str) -> ColBinding {
    ColBinding::var(col, Var::new(name))
}

fn search(relation: &str, args: Vec<ColBinding>) -> BodyTerm {
    BodyTerm::Predicate(Predicate::new(relation, args))
}

fn except(relation: &str, args: Vec<ColBinding>) -> BodyTerm {
    BodyTerm::Negation(Negation::new(relation, args))
}

fn rule(head: &str, args: Vec<ColBinding>, body: Vec<BodyTerm>) -> Clause {
    Clause::Rule(Rule::new(head, args, body).unwrap())
}

fn pair_fact(head: &str, a: (&str, i64), b: (&str, i64)) -> Clause {
    Clause::Fact(Fact::new(
        head,
        vec![
            FactArg::new(a.0, Value::from_i64(a.1)),
            FactArg::new(b.0, Value::from_i64(b.1)),
        ],
    ))
}

fn evac(entity: i64, attribute: &str, value: i64) -> Tuple {
    Tuple::new(
        "evac",
        vec![
            FactArg::new("entity", Value::from_i64(entity)),
            FactArg::new("attribute", Value::from_str(attribute)),
            FactArg::new("value", Value::from_i64(value)),
        ],
        None,
    )
}

fn int_of(tuple: &Tuple, col: &str) -> i64 {
    match tuple.col(&rhizome::id::ColId::new(col)) {
        Some(Value::I64(i)) => *i,
        other => panic!("no integer in {}: {:?}", col, other),
    }
}

fn drain(vm: &mut VM, relation: &str, a: &str, b: &str) -> Vec<(i64, i64)> {
    let mut found = Vec::new();
    while let Ok(Some(tuple)) = vm.pop() {
        if tuple.id().as_str() == relation {
            found.push((int_of(&tuple, a), int_of(&tuple, b)));
        }
    }
    found.sort();
    found
}

fn closure_declarations() -> Vec<Declaration> {
    vec![
        Declaration::new(
            "evac",
            Source::Edb,
            vec![
                Column::new("entity", ColType::Any),
                Column::new("attribute", ColType::Any),
                Column::new("value", ColType::Any),
            ],
        ),
        Declaration::new(
            "edge",
            Source::Idb,
            vec![Column::new("from", ColType::I64), Column::new("to", ColType::I64)],
        ),
        Declaration::new(
            "path",
            Source::Idb,
            vec![Column::new("from", ColType::I64), Column::new("to", ColType::I64)],
        ),
    ]
}

fn closure_program() -> Program {
    Program::new(
        closure_declarations(),
        vec![
            rule(
                "edge",
                vec![var("from", "x"), var("to", "y")],
                vec![search(
                    "evac",
                    vec![
                        var("entity", "x"),
                        ColBinding::lit("attribute", Value::from_str("to")),
                        var("value", "y"),
                    ],
                )],
            ),
            rule(
                "path",
                vec![var("from", "x"), var("to", "y")],
                vec![search("edge", vec![var("from", "x"), var("to", "y")])],
            ),
            rule(
                "path",
                vec![var("from", "x"), var("to", "z")],
                vec![
                    search("edge", vec![var("from", "x"), var("to", "y")]),
                    search("path", vec![var("from", "y"), var("to", "z")]),
                ],
            ),
        ],
    )
}

#[test]
fn transitive_closure_of_a_chain() {
    let lowered = lower_to_ram(&closure_program()).unwrap();
    let mut vm = VM::new(lowered);
    for i in 0..4 {
        vm.push(evac(i, "to", i + 1)).unwrap();
    }
    let blockstore = MemoryBlockstore::new();
    vm.step_epoch(&blockstore).unwrap();
    let paths = drain(&mut vm, "path", "from", "to");
    let mut expected = Vec::new();
    for i in 0..5 {
        for j in (i + 1)..5 {
            expected.push((i, j));
        }
    }
    assert_eq!(paths, expected);
}

#[test]
fn transitive_closure_of_a_cycle_ends() {
    let lowered = lower_to_ram(&closure_program()).unwrap();
    let mut vm = VM::new(lowered);
    vm.push(evac(0, "to", 1)).unwrap();
    vm.push(evac(1, "to", 2)).unwrap();
    vm.push(evac(2, "to", 0)).unwrap();
    let blockstore = MemoryBlockstore::new();
    vm.step_epoch(&blockstore).unwrap();
    let paths = drain(&mut vm, "path", "from", "to");
    assert_eq!(paths.len(), 9);
}

#[test]
fn pushing_a_fact_twice_changes_nothing() {
    let blockstore = MemoryBlockstore::new();
    let mut once = VM::new(lower_to_ram(&closure_program()).unwrap());
    once.push(evac(0, "to", 1)).unwrap();
    once.push(evac(1, "to", 2)).unwrap();
    once.step_epoch(&blockstore).unwrap();
    let mut twice = VM::new(lower_to_ram(&closure_program()).unwrap());
    twice.push(evac(0, "to", 1)).unwrap();
    twice.push(evac(0, "to", 1)).unwrap();
    twice.push(evac(1, "to", 2)).unwrap();
    twice.push(evac(1, "to", 2)).unwrap();
    twice.step_epoch(&blockstore).unwrap();
    assert_eq!(drain(&mut once, "path", "from", "to"), drain(&mut twice, "path", "from", "to"));
}

#[test]
fn later_epochs_add_to_earlier_ones() {
    let blockstore = MemoryBlockstore::new();
    let mut vm = VM::new(lower_to_ram(&closure_program()).unwrap());
    vm.push(evac(0, "to", 1)).unwrap();
    vm.step_epoch(&blockstore).unwrap();
    assert_eq!(drain(&mut vm, "path", "from", "to"), vec![(0, 1)]);
    vm.push(evac(1, "to", 2)).unwrap();
    vm.step_epoch(&blockstore).unwrap();
    assert_eq!(drain(&mut vm, "path", "from", "to"), vec![(0, 2), (1, 2)]);
    vm.step_epoch(&blockstore).unwrap();
    assert_eq!(drain(&mut vm, "path", "from", "to"), vec![]);
}

fn pair_schema(name: &str, a: &str, b: &str) -> Declaration {
    Declaration::new(
        name,
        Source::Idb,
        vec![Column::new(a, ColType::I64), Column::new(b, ColType::I64)],
    )
}

#[test]
fn stratified_negation() {
    let program = Program::new(
        vec![
            pair_schema("r", "r0", "r1"),
            Declaration::new("v", Source::Idb, vec![Column::new("v", ColType::I64)]),
            pair_schema("t", "t0", "t1"),
            pair_schema("tc", "tc0", "tc1"),
        ],
        vec![
            pair_fact("r", ("r0", 1), ("r1", 2)),
            pair_fact("r", ("r0", 2), ("r1", 3)),
            rule(
                "v",
                vec![var("v", "X")],
                vec![search("r", vec![var("r0", "X"), var("r1", "Y")])],
            ),
            rule(
                "v",
                vec![var("v", "Y")],
                vec![search("r", vec![var("r0", "X"), var("r1", "Y")])],
            ),
            rule(
                "t",
                vec![var("t0", "X"), var("t1", "Y")],
                vec![search("r", vec![var("r0", "X"), var("r1", "Y")])],
            ),
            rule(
                "t",
                vec![var("t0", "X"), var("t1", "Y")],
                vec![
                    search("t", vec![var("t0", "X"), var("t1", "Z")]),
                    search("r", vec![var("r0", "Z"), var("r1", "Y")]),
                ],
            ),
            rule(
                "tc",
                vec![var("tc0", "X"), var("tc1", "Y")],
                vec![
                    search("v", vec![var("v", "X")]),
                    search("v", vec![var("v", "Y")]),
                    except("t", vec![var("t0", "X"), var("t1", "Y")]),
                ],
            ),
        ],
    );
    let mut vm = VM::new(lower_to_ram(&program).unwrap());
    let blockstore = MemoryBlockstore::new();
    vm.step_epoch(&blockstore).unwrap();
    let found = drain(&mut vm, "tc", "tc0", "tc1");
    assert_eq!(found, vec![(1, 1), (2, 1), (2, 2), (3, 1), (3, 2), (3, 3)]);
}

fn reachable(nodes: usize, edges: &[(i64, i64)]) -> Vec<(i64, i64)> {
    let mut reach = vec![vec![false; nodes]; nodes];
    for (a, b) in edges {
        reach[*a as usize][*b as usize] = true;
    }
    for k in 0..nodes {
        for i in 0..nodes {
            for j in 0..nodes {
                if reach[i][k] && reach[k][j] {
                    reach[i][j] = true;
                }
            }
        }
    }
    let mut pairs = Vec::new();
    for i in 0..nodes {
        for j in 0..nodes {
            if reach[i][j] {
                pairs.push((i as i64, j as i64));
            }
        }
    }
    pairs
}

#[test]
fn transitive_closure_of_seeded_graphs() {
    let mut state: u64 = 0x2545f4914f6cdd1d;
    let mut next = |bound: u64| {
        state = state.wrapping_mul(6364136223846793005).wrapping_add(1442695040888963407);
        (state >> 33) % bound
    };
    for _ in 0..12 {
        let nodes = 2 + next(5) as usize;
        let count = next(12) as usize;
        let edges: Vec<(i64, i64)> =
            (0..count).map(|_| (next(nodes as u64) as i64, next(nodes as u64) as i64)).collect();
        let mut vm = VM::new(lower_to_ram(&closure_program()).unwrap());
        for (a, b) in &edges {
            vm.push(evac(*a, "to", *b)).unwrap();
        }
        vm.step_epoch(&MemoryBlockstore::new()).unwrap();
        assert_eq!(drain(&mut vm, "path", "from", "to"), reachable(nodes, &edges));
    }
}

#[test]
fn closure_in_two_epochs_is_closure_in_one() {
    let edges = [(0, 1), (1, 2), (2, 0), (2, 3), (4, 0)];
    let blockstore = MemoryBlockstore::new();
    let mut vm = VM::new(lower_to_ram(&closure_program()).unwrap());
    let mut found = Vec::new();
    for half in edges.chunks(3) {
        for (a, b) in half {
            vm.push(evac(*a, "to", *b)).unwrap();
        }
        vm.step_epoch(&blockstore).unwrap();
        found.extend(drain(&mut vm, "path", "from", "to"));
    }
    found.sort();
    assert_eq!(found, reachable(5, &edges));
}
