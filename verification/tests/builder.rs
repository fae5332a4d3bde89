use rhizome::error::Error;
use rhizome::id::{ColId, RelationId, VarId};
use rhizome::logic::ast::{CidValue, Column, Declaration, FactArg, Reducer, Source};
use rhizome::logic::builder::{AggregationBuilder, RelPredicateBuilder, VarTypes};
use rhizome::logic::program_builder::{ProgramBuilder, TermBuilder};
use rhizome::types::ColType;
use rhizome::value::Value;
use rhizome::var::{ColBinding, ColVal, Var};

fn var(col: &str, name: &str, typ: ColType) -> ColBinding {
    ColBinding::var(col, Var::typed(name, typ))
}

fn pairs(source: Source) -> Declaration {
    Declaration::new(
        "pairs",
        source,
        vec![Column::new("a", ColType::I64), Column::new("b", ColType::Str)],
    )
}

#[test]
fn predicate_builder_infers_types() {
    let mut builder = RelPredicateBuilder::new(None);
    builder.bind_one(var("a", "x", ColType::Any)).unwrap();
    builder.bind_one(ColBinding::lit("b", Value::from_str("s"))).unwrap();
    let mut types = VarTypes::new();
    let predicate = builder.finalize(&pairs(Source::Idb), &mut types).unwrap();
    assert_eq!(predicate.id, RelationId::new("pairs"));
    assert_eq!(predicate.args.len(), 2);
    assert_eq!(types.get(&VarId::new("x")), Some(ColType::I64));
    assert_eq!(types.get(&VarId::new("y")), None);
}

#[test]
fn predicate_builder_errors() {
    let mut types = VarTypes::new();
    let mut unknown = RelPredicateBuilder::new(None);
    unknown.bind_one(var("c", "x", ColType::Any)).unwrap();
    assert_eq!(
        unknown.finalize(&pairs(Source::Idb), &mut types).err(),
        Some(Error::UnrecognizedColumnBinding(RelationId::new("pairs"), ColId::new("c")))
    );
    let mut twice = RelPredicateBuilder::new(None);
    twice.bind_one(var("a", "x", ColType::Any)).unwrap();
    twice.bind_one(var("a", "y", ColType::Any)).unwrap();
    assert_eq!(
        twice.finalize(&pairs(Source::Idb), &mut types).err(),
        Some(Error::ConflictingColumnBinding(RelationId::new("pairs"), ColId::new("a")))
    );
    let mut literal = RelPredicateBuilder::new(None);
    literal.bind_one(ColBinding::lit("a", Value::from_str("no"))).unwrap();
    assert_eq!(
        literal.finalize(&pairs(Source::Idb), &mut types).err(),
        Some(Error::ColumnValueTypeConflict(
            RelationId::new("pairs"),
            ColId::new("a"),
            ColVal::Lit(Value::from_str("no")),
            ColType::I64
        ))
    );
    let mut typed = RelPredicateBuilder::new(None);
    typed.bind_one(var("a", "x", ColType::Bool)).unwrap();
    assert_eq!(
        typed.finalize(&pairs(Source::Idb), &mut types).err(),
        Some(Error::ColumnValueTypeConflict(
            RelationId::new("pairs"),
            ColId::new("a"),
            ColVal::Binding(Var::typed("x", ColType::Bool)),
            ColType::I64
        ))
    );
    let by_cid = RelPredicateBuilder::new(Some(CidValue::Var(Var::typed("c", ColType::Cid))));
    assert_eq!(
        by_cid.finalize(&pairs(Source::Idb), &mut types).err(),
        Some(Error::ContentAddressedIDB(RelationId::new("pairs")))
    );
    let by_cid = RelPredicateBuilder::new(Some(CidValue::Var(Var::typed("c", ColType::Cid))));
    assert!(by_cid.finalize(&pairs(Source::Edb), &mut types).is_ok());
    assert_eq!(types.get(&VarId::new("c")), Some(ColType::Cid));
}

#[test]
fn one_variable_has_one_type() {
    let mut types = VarTypes::new();
    let mut first = RelPredicateBuilder::new(None);
    first.bind_one(var("a", "x", ColType::Any)).unwrap();
    first.finalize(&pairs(Source::Idb), &mut types).unwrap();
    let mut second = RelPredicateBuilder::new(None);
    second.bind_one(var("b", "x", ColType::Any)).unwrap();
    assert_eq!(
        second.finalize(&pairs(Source::Idb), &mut types).err(),
        Some(Error::ColumnValueTypeConflict(
            RelationId::new("pairs"),
            ColId::new("b"),
            ColVal::Binding(Var::typed("x", ColType::Any)),
            ColType::Str
        ))
    );
}

#[test]
fn aggregation_builder_checks_its_target() {
    let mut types = VarTypes::new();
    types.insert(VarId::new("m"), ColType::I64);
    let bound = AggregationBuilder::new(Var::typed("m", ColType::I64), Reducer::Max, None);
    assert_eq!(
        bound.finalize(&pairs(Source::Idb), &mut types).err(),
        Some(Error::AggregationBoundTarget(VarId::new("m")))
    );
    let mut free = AggregationBuilder::new(Var::typed("n", ColType::I64), Reducer::Max, None);
    free.arg(Var::typed("x", ColType::I64));
    free.bind_one(var("a", "x", ColType::I64)).unwrap();
    let aggregation = free.finalize(&pairs(Source::Idb), &mut types).unwrap();
    assert_eq!(aggregation.over, RelationId::new("pairs"));
    assert_eq!(aggregation.args, vec![Var::typed("x", ColType::I64)]);
    assert_eq!(types.get(&VarId::new("n")), Some(ColType::I64));
    assert_eq!(types.get(&VarId::new("x")), None);
}

fn declared() -> ProgramBuilder {
    let mut p = ProgramBuilder::new();
    p.input("in", vec![Column::new("a", ColType::I64)]).unwrap();
    p.output("out", vec![Column::new("a", ColType::I64)]).unwrap();
    p
}

#[test]
fn rule_builder_errors() {
    let mut p = declared();
    assert_eq!(
        p.rule(
            "out",
            vec![var("a", "y", ColType::I64)],
            vec![TermBuilder::search("in", vec![var("a", "x", ColType::I64)])],
        )
        .err(),
        Some(Error::UnboundVariable(VarId::new("y")))
    );
    assert_eq!(
        p.rule(
            "out",
            vec![var("z", "x", ColType::I64)],
            vec![TermBuilder::search("in", vec![var("a", "x", ColType::I64)])],
        )
        .err(),
        Some(Error::RuleUnknownColumn(RelationId::new("out"), ColId::new("z")))
    );
    assert_eq!(
        p.rule(
            "out",
            vec![var("a", "x", ColType::I64)],
            vec![
                TermBuilder::except("in", vec![var("a", "y", ColType::I64)]),
                TermBuilder::search("in", vec![var("a", "x", ColType::I64)]),
            ],
        )
        .err(),
        Some(Error::ClauseNotRangeRestricted(RelationId::new("out")))
    );
    assert!(matches!(
        p.rule("in", vec![], vec![]).err(),
        Some(Error::InternalError(_))
    ));
    assert!(matches!(
        p.rule(
            "out",
            vec![],
            vec![TermBuilder::search("nowhere", vec![])],
        )
        .err(),
        Some(Error::InternalError(_))
    ));
    assert!(matches!(p.input("in", vec![]).err(), Some(Error::InternalError(_))));
    assert_eq!(p.program().clauses.len(), 0);
}

#[test]
fn fact_builder_checks_the_schema() {
    let mut p = declared();
    assert!(p.fact("out", vec![FactArg::new("a", Value::from_i64(1))]).is_ok());
    assert_eq!(
        p.fact("out", vec![FactArg::new("a", Value::from_bool(true))]).err(),
        Some(Error::ColumnValueTypeConflict(
            RelationId::new("out"),
            ColId::new("a"),
            ColVal::Lit(Value::from_bool(true)),
            ColType::I64
        ))
    );
    assert_eq!(
        p.fact("out", vec![FactArg::new("b", Value::from_i64(1))]).err(),
        Some(Error::UnrecognizedColumnBinding(RelationId::new("out"), ColId::new("b")))
    );
    assert_eq!(p.program().clauses.len(), 1);
}

#[test]
fn unification_table() {
    assert_eq!(ColType::I64.unify(&ColType::I64).ok(), Some(ColType::I64));
    assert_eq!(ColType::I64.unify(&ColType::Any).ok(), Some(ColType::I64));
    assert_eq!(ColType::Any.unify(&ColType::Str).ok(), Some(ColType::Str));
    assert_eq!(ColType::Any.unify(&ColType::Any).ok(), Some(ColType::Any));
    assert!(ColType::I64.unify(&ColType::Str).is_err());
    let mismatch = ColType::Bool.check(&Value::from_i64(1)).unwrap_err();
    assert_eq!(mismatch.expected, ColType::Bool);
    assert_eq!(mismatch.got, ColType::I64);
}

#[test]
fn a_schema_names_each_column_once() {
    let mut p = ProgramBuilder::new();
    assert!(matches!(
        p.output("twice", vec![Column::new("a", ColType::I64), Column::new("a", ColType::Str)]).err(),
        Some(Error::InternalError(_))
    ));
    assert!(p.output("twice", vec![Column::new("a", ColType::I64)]).is_ok());
    assert_eq!(p.program().declarations.len(), 1);
}

#[test]
fn types_after_a_fault_of_a_predicate() {
    let mut types = VarTypes::new();
    types.insert(VarId::new("seen"), ColType::Bool);
    let mut derived = RelPredicateBuilder::new(Some(CidValue::Var(Var::typed("c", ColType::Cid))));
    derived.bind_one(var("a", "x", ColType::Any)).unwrap();
    assert_eq!(
        derived.finalize(&pairs(Source::Idb), &mut types).err(),
        Some(Error::ContentAddressedIDB(RelationId::new("pairs")))
    );
    assert_eq!(types.get(&VarId::new("seen")), Some(ColType::Bool));
    assert_eq!(types.get(&VarId::new("c")), None);
    assert_eq!(types.get(&VarId::new("x")), None);

    let mut late = RelPredicateBuilder::new(Some(CidValue::Var(Var::typed("c", ColType::Cid))));
    late.bind_one(var("a", "x", ColType::Any)).unwrap();
    late.bind_one(var("missing", "y", ColType::Any)).unwrap();
    late.bind_one(var("b", "z", ColType::Any)).unwrap();
    assert_eq!(
        late.finalize(&pairs(Source::Edb), &mut types).err(),
        Some(Error::UnrecognizedColumnBinding(RelationId::new("pairs"), ColId::new("missing")))
    );
    assert_eq!(types.get(&VarId::new("seen")), Some(ColType::Bool));
    assert_eq!(types.get(&VarId::new("c")), Some(ColType::Cid));
    assert_eq!(types.get(&VarId::new("x")), Some(ColType::I64));
    assert_eq!(types.get(&VarId::new("y")), None);
    assert_eq!(types.get(&VarId::new("z")), None);
}

#[test]
fn types_after_a_fault_of_an_aggregation() {
    let mut types = VarTypes::new();
    types.insert(VarId::new("m"), ColType::Str);
    types.insert(VarId::new("x"), ColType::I64);
    let mut bound = AggregationBuilder::new(Var::typed("m", ColType::I64), Reducer::Sum, None);
    bound.bind_one(var("a", "x", ColType::I64)).unwrap();
    assert_eq!(
        bound.finalize(&pairs(Source::Idb), &mut types).err(),
        Some(Error::AggregationBoundTarget(VarId::new("m")))
    );
    assert_eq!(types.get(&VarId::new("m")), Some(ColType::I64));
    assert_eq!(types.get(&VarId::new("x")), Some(ColType::I64));
    assert_eq!(types.get(&VarId::new("y")), None);

    let mut unknown = AggregationBuilder::new(Var::typed("n", ColType::I64), Reducer::Sum, None);
    unknown.bind_one(var("a", "y", ColType::I64)).unwrap();
    unknown.bind_one(var("c", "x", ColType::I64)).unwrap();
    assert_eq!(
        unknown.finalize(&pairs(Source::Idb), &mut types).err(),
        Some(Error::UnrecognizedColumnBinding(RelationId::new("pairs"), ColId::new("c")))
    );
    assert_eq!(types.get(&VarId::new("n")), Some(ColType::I64));
    assert_eq!(types.get(&VarId::new("y")), None);
}
