use rhizome::error::Error;
use rhizome::logic::ast::{BodyTerm, Clause, Negation, Predicate, Program, Rule, Stratum};
use rhizome::logic::stratify::stratify;
use rhizome::id::RelationId;
use rhizome::var::{ColBinding, Var};

fn var(col: &str, name: &str) -> ColBinding {
    ColBinding::var(col, Var::new(name))
}

fn search(relation: &str, args: Vec<ColBinding>) -> BodyTerm {
    BodyTerm::Predicate(Predicate::new(relation, args))
}

fn except(relation: &str, args: Vec<ColBinding>) -> BodyTerm {
    BodyTerm::Negation(Negation::new(relation, args))
}

fn rule(head: &str, args: Vec<ColBinding>, body: Vec<BodyTerm>) -> Clause {
    Clause::Rule(Rule::new(head, args, body).unwrap())
}

fn closure_program() -> Program {
    Program::new(
        vec![],
        vec![
            rule(
                "v",
                vec![var("v", "X")],
                vec![search("r", vec![var("r0", "X"), var("r1", "Y")])],
            ),
            rule(
                "v",
                vec![var("v", "Y")],
                vec![search("r", vec![var("r0", "X"), var("r1", "Y")])],
            ),
            rule(
                "t",
                vec![var("t0", "X"), var("t1", "Y")],
                vec![search("r", vec![var("r0", "X"), var("r1", "Y")])],
            ),
            rule(
                "t",
                vec![var("t0", "X"), var("t1", "Y")],
                vec![
                    search("t", vec![var("t0", "X"), var("t1", "Z")]),
                    search("r", vec![var("r0", "Z"), var("r1", "Y")]),
                ],
            ),
            rule(
                "tc",
                vec![var("tc0", "X"), var("tc1", "Y")],
                vec![
                    search("v", vec![var("v", "X")]),
                    search("v", vec![var("v", "Y")]),
                    except("t", vec![var("t0", "X"), var("t1", "Y")]),
                ],
            ),
        ],
    )
}

#[test]
fn stratify_tests() {
    let program = closure_program();

    let stratification = stratify(&program);

    assert_eq!(
        Ok(vec![
            Stratum {
                relations: vec![RelationId::new("r")],
                clauses: vec![],
                is_recursive: false,
            },
            Stratum {
                relations: vec![RelationId::new("v")],
                clauses: vec![
                    rule(
                        "v",
                        vec![var("v", "X")],
                        vec![search("r", vec![var("r0", "X"), var("r1", "Y")])],
                    ),
                    rule(
                        "v",
                        vec![var("v", "Y")],
                        vec![search("r", vec![var("r0", "X"), var("r1", "Y")])],
                    ),
                ],
                is_recursive: false,
            },
            Stratum {
                relations: vec![RelationId::new("t")],
                clauses: vec![
                    rule(
                        "t",
                        vec![var("t0", "X"), var("t1", "Y")],
                        vec![search("r", vec![var("r0", "X"), var("r1", "Y")])],
                    ),
                    rule(
                        "t",
                        vec![var("t0", "X"), var("t1", "Y")],
                        vec![
                            search("t", vec![var("t0", "X"), var("t1", "Z")]),
                            search("r", vec![var("r0", "Z"), var("r1", "Y")]),
                        ],
                    ),
                ],
                is_recursive: true,
            },
            Stratum {
                relations: vec![RelationId::new("tc")],
                clauses: vec![rule(
                    "tc",
                    vec![var("tc0", "X"), var("tc1", "Y")],
                    vec![
                        search("v", vec![var("v", "X")]),
                        search("v", vec![var("v", "Y")]),
                        except("t", vec![var("t0", "X"), var("t1", "Y")]),
                    ],
                )],
                is_recursive: false,
            }
        ]),
        stratification
    );
}

#[test]
fn unstratifiable_tests() {
    let program = Program::new(
        vec![],
        vec![
            rule(
                "p",
                vec![var("p", "X")],
                vec![search("t", vec![var("t", "X")]), except("q", vec![var("q", "X")])],
            ),
            rule(
                "q",
                vec![var("q", "X")],
                vec![search("t", vec![var("t", "X")]), except("p", vec![var("p", "X")])],
            ),
        ],
    );

    let stratification = stratify(&program);

    assert_eq!(Err(Error::ProgramUnstratifiable), stratification);
}
