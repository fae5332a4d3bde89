use rhizome::error::Error;
use rhizome::id::{AliasId, ColId, RelationId, VarId};
use rhizome::logic::ast::{
    BodyTerm, Clause, Column, Declaration, Fact, FactArg, Negation, Predicate, Program, Rule,
    Source, Stratum,
};
use rhizome::logic::lower_to_ram::{
    lower_fact_to_ram, lower_rule_to_ram, lower_stratum_to_ram, lower_to_ram,
};
use rhizome::ram::{Attr, Formula, Operation, Relation, Statement, Term, Version};
use rhizome::types::ColType;
use rhizome::value::Value;
use rhizome::var::{ColBinding, Var};

fn var(col: &str, name: &str) -> ColBinding {
    ColBinding::var(col, Var::new(name))
}

fn search(relation: &str, args: Vec<ColBinding>) -> BodyTerm {
    BodyTerm::Predicate(Predicate::new(relation, args))
}

fn except(relation: &str, args: Vec<ColBinding>) -> BodyTerm {
    BodyTerm::Negation(Negation::new(relation, args))
}

fn rel(name: &str, version: Version) -> Relation {
    Relation::new(RelationId::new(name), version)
}

fn attribute(col: &str, relation: &str, alias: Option<usize>) -> Term {
    Term::Attribute {
        col: ColId::new(col),
        relation: RelationId::new(relation),
        alias: alias.map(AliasId::new),
    }
}

fn project(pairs: Vec<(&str, Term)>, into: Relation) -> Operation {
    Operation::Project {
        attributes: pairs
            .into_iter()
            .map(|(col, term)| Attr { col: ColId::new(col), term })
            .collect(),
        into,
    }
}

fn insert(operation: Operation) -> Statement {
    Statement::Insert { operation, is_ground: false }
}

fn quiet() -> Stratum {
    Stratum::new(vec![RelationId::new("p")], vec![], false)
}

#[test]
fn a_fact_is_a_ground_projection() {
    let fact = Fact::new(
        "p",
        vec![FactArg::new("a", Value::from_i64(1)), FactArg::new("b", Value::from_str("x"))],
    );
    assert_eq!(
        lower_fact_to_ram(&fact, Version::Delta),
        Ok(Statement::Insert {
            operation: project(
                vec![
                    ("a", Term::Literal(Value::from_i64(1))),
                    ("b", Term::Literal(Value::from_str("x"))),
                ],
                rel("p", Version::Delta),
            ),
            is_ground: true,
        })
    );
}

#[test]
fn a_static_rule_has_one_rewrite() {
    let rule = Rule::new(
        "p",
        vec![var("a", "X"), ColBinding::lit("b", Value::from_i64(7))],
        vec![
            search("q", vec![var("a", "X"), var("b", "Y"), ColBinding::lit("c", Value::from_i64(3))]),
            search("q", vec![var("a", "Y"), var("b", "X")]),
            except("n", vec![var("a", "Y")]),
        ],
    )
    .unwrap();
    let lowered = lower_rule_to_ram(&rule, &quiet(), Version::Total).unwrap();
    let innermost = Operation::Search {
        relation: rel("q", Version::Total),
        alias: Some(AliasId::new(0)),
        by_cid: false,
        when: vec![
            Formula::Equality(attribute("a", "q", Some(0)), attribute("b", "q", None)),
            Formula::Equality(attribute("b", "q", Some(0)), attribute("a", "q", None)),
            Formula::NotIn {
                attributes: vec![Attr { col: ColId::new("a"), term: attribute("b", "q", None) }],
                relation: rel("n", Version::Total),
            },
        ],
        operation: Box::new(project(
            vec![("a", attribute("a", "q", None)), ("b", Term::Literal(Value::from_i64(7)))],
            rel("p", Version::Total),
        )),
    };
    assert_eq!(
        lowered,
        vec![insert(Operation::Search {
            relation: rel("q", Version::Total),
            alias: None,
            by_cid: false,
            when: vec![Formula::Equality(
                attribute("c", "q", None),
                Term::Literal(Value::from_i64(3))
            )],
            operation: Box::new(innermost),
        })]
    );
}

#[test]
fn a_variable_used_twice_in_one_predicate_is_an_equality() {
    let rule = Rule::new("p", vec![var("a", "X")], vec![search("q", vec![var("a", "X"), var("b", "X")])])
        .unwrap();
    let lowered = lower_rule_to_ram(&rule, &quiet(), Version::Total).unwrap();
    match &lowered[0] {
        Statement::Insert { operation: Operation::Search { when, .. }, .. } => assert_eq!(
            when,
            &vec![Formula::Equality(attribute("b", "q", None), attribute("a", "q", None))]
        ),
        other => panic!("unexpected statement: {:?}", other),
    }
}

fn versions_of(statement: &Statement) -> Vec<Version> {
    let mut found = Vec::new();
    let mut at = match statement {
        Statement::Insert { operation, is_ground: false } => operation,
        other => panic!("unexpected statement: {:?}", other),
    };
    loop {
        match at {
            Operation::Search { relation, operation, .. } => {
                found.push(relation.version);
                at = operation;
            }
            Operation::Project { into, .. } => {
                assert_eq!(into.version, Version::New);
                return found;
            }
            other => panic!("unexpected operation: {:?}", other),
        }
    }
}

#[test]
fn rewrites_go_down_from_the_full_mask() {
    let rule = Rule::new(
        "t",
        vec![var("a", "X"), var("b", "Y")],
        vec![
            search("t", vec![var("a", "X"), var("b", "Z")]),
            search("e", vec![var("a", "Z"), var("b", "W")]),
            search("t", vec![var("a", "W"), var("b", "Y")]),
        ],
    )
    .unwrap();
    let stratum = Stratum::new(vec![RelationId::new("t")], vec![], true);
    let lowered = lower_rule_to_ram(&rule, &stratum, Version::New).unwrap();
    let versions: Vec<Vec<Version>> = lowered.iter().map(versions_of).collect();
    assert_eq!(
        versions,
        vec![
            vec![Version::Delta, Version::Total, Version::Delta],
            vec![Version::Delta, Version::Total, Version::Total],
            vec![Version::Total, Version::Total, Version::Delta],
        ]
    );
    let calm = Stratum::new(vec![RelationId::new("t")], vec![], false);
    assert_eq!(lower_rule_to_ram(&rule, &calm, Version::New).unwrap().len(), 1);
}

#[test]
fn seven_rewrites_for_three_dynamic_predicates() {
    let rule = Rule::new(
        "t",
        vec![var("a", "X")],
        vec![
            search("t", vec![var("a", "X")]),
            search("t", vec![var("a", "X")]),
            search("t", vec![var("a", "X")]),
        ],
    )
    .unwrap();
    let stratum = Stratum::new(vec![RelationId::new("t")], vec![], true);
    let lowered = lower_rule_to_ram(&rule, &stratum, Version::New).unwrap();
    assert_eq!(lowered.len(), 7);
    assert_eq!(
        versions_of(&lowered[6]),
        vec![Version::Total, Version::Total, Version::Delta]
    );
    assert_eq!(
        versions_of(&lowered[3]),
        vec![Version::Delta, Version::Total, Version::Total]
    );
}

#[test]
fn rules_must_be_range_restricted() {
    assert_eq!(
        Rule::new("p", vec![var("a", "X")], vec![search("q", vec![var("a", "Y")])]).err(),
        Some(Error::UnboundVariable(VarId::new("X")))
    );
    assert_eq!(
        Rule::new(
            "p",
            vec![var("a", "X")],
            vec![except("n", vec![var("a", "X")]), search("q", vec![var("a", "X")])]
        )
        .err(),
        Some(Error::ClauseNotRangeRestricted(RelationId::new("p")))
    );
    assert_eq!(
        Rule::new("p", vec![], vec![except("n", vec![])]).err(),
        Some(Error::ClauseNotRangeRestricted(RelationId::new("p")))
    );
    let unchecked = Rule {
        head: RelationId::new("p"),
        args: vec![var("a", "X")],
        body: vec![search("q", vec![var("a", "Y")])],
    };
    assert_eq!(
        lower_rule_to_ram(&unchecked, &quiet(), Version::Total),
        Err(Error::UnboundVariable(VarId::new("X")))
    );
}

fn path_stratum() -> Stratum {
    Stratum::new(
        vec![RelationId::new("path")],
        vec![
            Clause::Fact(Fact::new(
                "path",
                vec![FactArg::new("from", Value::from_i64(8)), FactArg::new("to", Value::from_i64(9))],
            )),
            Clause::Rule(
                Rule::new(
                    "path",
                    vec![var("from", "x"), var("to", "y")],
                    vec![search("edge", vec![var("from", "x"), var("to", "y")])],
                )
                .unwrap(),
            ),
            Clause::Rule(
                Rule::new(
                    "path",
                    vec![var("from", "x"), var("to", "z")],
                    vec![
                        search("edge", vec![var("from", "x"), var("to", "y")]),
                        search("path", vec![var("from", "y"), var("to", "z")]),
                    ],
                )
                .unwrap(),
            ),
        ],
        true,
    )
}

#[test]
fn a_recursive_stratum_is_a_loop() {
    let lowered = lower_stratum_to_ram(&path_stratum()).unwrap();
    assert_eq!(lowered.len(), 4);
    assert!(matches!(
        &lowered[0],
        Statement::Insert { operation: Operation::Project { into, .. }, is_ground: true }
            if *into == rel("path", Version::Delta)
    ));
    assert!(matches!(
        &lowered[1],
        Statement::Insert { operation: Operation::Search { relation, .. }, is_ground: false }
            if *relation == rel("edge", Version::Total)
    ));
    assert_eq!(
        lowered[2],
        Statement::Merge { from: rel("path", Version::Total), into: rel("path", Version::Delta) }
    );
    let body = match &lowered[3] {
        Statement::Loop { body } => body,
        other => panic!("unexpected statement: {:?}", other),
    };
    assert_eq!(body.len(), 5);
    assert_eq!(body[0], Statement::Purge { relation: rel("path", Version::New) });
    assert_eq!(versions_of(&body[1]), vec![Version::Total, Version::Delta]);
    assert_eq!(body[2], Statement::Exit { relations: vec![rel("path", Version::New)] });
    assert_eq!(
        body[3],
        Statement::Merge { from: rel("path", Version::New), into: rel("path", Version::Total) }
    );
    assert_eq!(
        body[4],
        Statement::Swap { left: rel("path", Version::New), right: rel("path", Version::Delta) }
    );
}

#[test]
fn a_program_is_framed_by_sources_and_sinks() {
    let program = Program::new(
        vec![
            Declaration::new("in", Source::Edb, vec![Column::new("a", ColType::I64)]),
            Declaration::new("out", Source::Idb, vec![Column::new("a", ColType::I64)]),
        ],
        vec![Clause::Rule(
            Rule::new("out", vec![var("a", "x")], vec![search("in", vec![var("a", "x")])]).unwrap(),
        )],
    );
    let lowered = lower_to_ram(&program).unwrap();
    let statements = lowered.statements();
    assert_eq!(statements.len(), 5);
    assert_eq!(statements[0], Statement::Sources);
    assert_eq!(
        statements[1],
        Statement::Merge { from: rel("in", Version::Delta), into: rel("in", Version::Total) }
    );
    assert_eq!(statements[2], Statement::Purge { relation: rel("in", Version::Delta) });
    assert!(matches!(&statements[3], Statement::Insert { is_ground: false, .. }));
    assert_eq!(statements[4], Statement::Sinks);
    assert_eq!(lowered.declarations().len(), 2);
}
