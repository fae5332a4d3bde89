//! What holds of the rewrites that a rule lowers to: each projects into the
//! version that the rule is lowered into, and none reads a `New` version.

use vstd::prelude::*;
use crate::id::AliasId;
use crate::logic::ast::{
    facts_of, rules_of, BodyTermView, DeclarationView, FactView, ProgramView, RuleView,
    StratumView,
};
use crate::logic::lower_to_ram::{
    analyse, args_when, attrs_of, count_dynamic, distinct_heads, fact_statement, intake, loop_body,
    lower_program, lower_rule, lower_rules, lower_strata, lower_stratum, merge_statement,
    negations_when, pow2, rewrite, round_end, select_rules, with_conditions, BoundVarView,
    TermMetadataView,
};
use crate::ram::{
    operation_target, FormulaView, OperationView, RelationView, StatementView, Version,
};
use crate::runtime::fixpoint::{formula_reads_no_new, formulas_read_no_new, reads_no_new};
use crate::var::ColBindingView;

verus! {

/// The conditions of a term.
pub open spec fn conditions_of(meta: TermMetadataView) -> Seq<FormulaView> {
    match meta {
        TermMetadataView::Search { when, .. } => when,
        TermMetadataView::Aggregation { when, .. } => when,
    }
}

/// Whether the conditions of every term read no `New` version.
pub open spec fn terms_read_no_new(metas: Seq<TermMetadataView>) -> bool {
    forall|k: int| 0 <= k < metas.len() ==> formulas_read_no_new(conditions_of(#[trigger] metas[k]))
}

/// The conditions of the columns of a predicate are equalities.
proof fn lemma_args_when(
    args: Seq<ColBindingView>,
    relation: Seq<char>,
    alias: Option<AliasId>,
    bindings: Seq<BoundVarView>,
)
    ensures
        formulas_read_no_new(args_when(args, relation, alias, bindings)),
    decreases args.len(),
{
    if args.len() > 0 {
        lemma_args_when(args.drop_last(), relation, alias, bindings);
    }
}

/// The conditions that negations lower to read `Total`.
proof fn lemma_negations_when(body: Seq<BodyTermView>, bindings: Seq<BoundVarView>)
    requires
        negations_when(body, bindings).is_some(),
    ensures
        formulas_read_no_new(negations_when(body, bindings).unwrap()),
    decreases body.len(),
{
    if body.len() > 0 {
        lemma_negations_when(body.drop_last(), bindings);
    }
}

/// The conditions of the terms of an analysed body are equalities.
proof fn lemma_analyse(body: Seq<BodyTermView>, stratum: StratumView)
    requires
        analyse(body, stratum).is_some(),
    ensures
        terms_read_no_new(analyse(body, stratum).unwrap().metas),
    decreases body.len(),
{
    if body.len() > 0 {
        lemma_analyse(body.drop_last(), stratum);
        let prev = analyse(body.drop_last(), stratum).unwrap();
        let now = analyse(body, stratum).unwrap();
        match body.last() {
            BodyTermView::Predicate(p) => {
                let added = now.metas.last();
                lemma_args_when(p.args, p.id, added->Search_alias, now.bindings);
                assert forall|k: int| 0 <= k < now.metas.len() implies formulas_read_no_new(
                    conditions_of(#[trigger] now.metas[k]),
                ) by {
                    if k < prev.metas.len() {
                        assert(now.metas[k] == prev.metas[k]);
                    }
                }
            },
            BodyTermView::Negation(_) => {},
            BodyTermView::Aggregation(_) => {
                assert forall|k: int| 0 <= k < now.metas.len() implies formulas_read_no_new(
                    conditions_of(#[trigger] now.metas[k]),
                ) by {
                    if k < prev.metas.len() {
                        assert(now.metas[k] == prev.metas[k]);
                    }
                }
            },
        }
    }
}

/// A rewrite projects into the relation of its projection and reads no
/// `New` version where the conditions of its terms read none.
proof fn lemma_rewrite(metas: Seq<TermMetadataView>, core: OperationView, mask: nat)
    requires
        core is Project,
        terms_read_no_new(metas),
    ensures
        operation_target(rewrite(metas, core, mask)) == operation_target(core),
        reads_no_new(rewrite(metas, core, mask)),
    decreases metas.len(),
{
    if metas.len() > 0 {
        assert forall|k: int| 0 <= k < metas.drop_first().len() implies formulas_read_no_new(
            conditions_of(#[trigger] metas.drop_first()[k]),
        ) by {
            assert(metas.drop_first()[k] == metas[k + 1]);
        }
        lemma_rewrite(metas.drop_first(), core, mask);
        assert(formulas_read_no_new(conditions_of(metas[0])));
    }
}

/// Every rewrite that a rule lowers to is an insertion that is not ground,
/// projects into the given version of the head of the rule, and reads no
/// `New` version: it searches `Total` and `Delta`, aggregates over `Total`
/// and tests negations against `Total`.
pub proof fn rewrites_read_total_and_delta(rule: RuleView, stratum: StratumView, version: Version)
    requires
        lower_rule(rule, stratum, version) is Ok,
    ensures
        forall|k: int|
            0 <= k < lower_rule(rule, stratum, version)->Ok_0.len() ==> #[trigger] is_rewrite_into(
                lower_rule(rule, stratum, version)->Ok_0,
                k,
                RelationView { id: rule.head, version },
            ),
{
    let analysis = analyse(rule.body, stratum).unwrap();
    let negations = negations_when(rule.body, analysis.bindings).unwrap();
    let attributes = attrs_of(rule.args, analysis.bindings)->Ok_0;
    let dynamic = count_dynamic(analysis.metas);
    let metas = if analysis.metas.len() == 0 {
        analysis.metas
    } else {
        analysis.metas.drop_last().push(with_conditions(analysis.metas.last(), negations))
    };
    let core = OperationView::Project {
        attributes,
        into: RelationView { id: rule.head, version },
    };
    let lowered = lower_rule(rule, stratum, version)->Ok_0;
    lemma_analyse(rule.body, stratum);
    lemma_negations_when(rule.body, analysis.bindings);
    assert(terms_read_no_new(metas)) by {
        assert forall|k: int| 0 <= k < metas.len() implies formulas_read_no_new(
            conditions_of(#[trigger] metas[k]),
        ) by {
            if k < metas.len() - 1 {
                assert(metas[k] == analysis.metas[k]);
            } else {
                let had = conditions_of(analysis.metas.last());
                assert(formulas_read_no_new(conditions_of(analysis.metas[k])));
                assert(conditions_of(metas[k]) == had + negations);
                assert forall|j: int| 0 <= j < (had + negations).len() implies formula_reads_no_new(
                    #[trigger] (had + negations)[j],
                ) by {
                    if j < had.len() {
                        assert((had + negations)[j] == had[j]);
                    } else {
                        assert((had + negations)[j] == negations[j - had.len()]);
                    }
                }
            }
        }
    }
    assert forall|k: int| 0 <= k < lowered.len() implies #[trigger] is_rewrite_into(
        lowered,
        k,
        RelationView { id: rule.head, version },
    ) by {
        lemma_rewrite(metas, core, (pow2(dynamic) - 1 - k) as nat);
    }
}

/// Whether the statement `k` is an insertion that is not ground, projects
/// into `target` and reads no `New` version.
pub open spec fn is_rewrite_into(statements: Seq<StatementView>, k: int, target: RelationView) -> bool {
    statements[k] matches StatementView::Insert { operation, is_ground } && !is_ground
        && operation_target(operation) == target && reads_no_new(operation)
}


/// Whether a statement that is no loop is one that the machine runs on
/// declared relations without complaint: it merges and exchanges versions of
/// one relation, and neither exchanges nor empties `Total`.
pub open spec fn simple(statement: StatementView) -> bool {
    match statement {
        StatementView::Merge { from, into } => from.id == into.id,
        StatementView::Swap { left, right } => left.id == right.id && left.version
            != Version::Total && right.version != Version::Total,
        StatementView::Purge { relation } => relation.version != Version::Total,
        StatementView::Loop { .. } => false,
        _ => true,
    }
}

/// Whether all the statements are simple.
pub open spec fn all_simple(statements: Seq<StatementView>) -> bool {
    forall|k: int| 0 <= k < statements.len() ==> simple(#[trigger] statements[k])
}

/// Whether a statement is simple, or a loop of simple statements.
pub open spec fn admissible(statement: StatementView) -> bool {
    match statement {
        StatementView::Loop { body } => all_simple(body),
        _ => simple(statement),
    }
}

/// Whether all the statements are admissible.
pub open spec fn all_admissible(statements: Seq<StatementView>) -> bool {
    forall|k: int| 0 <= k < statements.len() ==> admissible(#[trigger] statements[k])
}

/// Simple statements after simple statements are simple statements.
proof fn lemma_simple_concat(a: Seq<StatementView>, b: Seq<StatementView>)
    requires
        all_simple(a),
        all_simple(b),
    ensures
        all_simple(a + b),
{
    assert forall|k: int| 0 <= k < (a + b).len() implies simple(#[trigger] (a + b)[k]) by {
        if k < a.len() {
            assert((a + b)[k] == a[k]);
        } else {
            assert((a + b)[k] == b[k - a.len()]);
        }
    }
}

/// Admissible statements after admissible statements are admissible
/// statements.
proof fn lemma_admissible_concat(a: Seq<StatementView>, b: Seq<StatementView>)
    requires
        all_admissible(a),
        all_admissible(b),
    ensures
        all_admissible(a + b),
{
    assert forall|k: int| 0 <= k < (a + b).len() implies admissible(#[trigger] (a + b)[k]) by {
        if k < a.len() {
            assert((a + b)[k] == a[k]);
        } else {
            assert((a + b)[k] == b[k - a.len()]);
        }
    }
}

/// Simple statements are admissible.
proof fn lemma_simple_admissible(a: Seq<StatementView>)
    requires
        all_simple(a),
    ensures
        all_admissible(a),
{
    assert forall|k: int| 0 <= k < a.len() implies admissible(#[trigger] a[k]) by {
        assert(simple(a[k]));
    }
}

/// What rules lower to are insertions.
pub proof fn rules_lower_to_insertions(rules: Seq<RuleView>, stratum: StratumView, version: Version)
    requires
        lower_rules(rules, stratum, version) is Ok,
    ensures
        all_simple(lower_rules(rules, stratum, version)->Ok_0),
    decreases rules.len(),
{
    if rules.len() > 0 {
        rules_lower_to_insertions(rules.drop_last(), stratum, version);
        let more = lower_rule(rules.last(), stratum, version)->Ok_0;
        assert(all_simple(more)) by {
            assert forall|k: int| 0 <= k < more.len() implies simple(#[trigger] more[k]) by {}
        }
        lemma_simple_concat(lower_rules(rules.drop_last(), stratum, version)->Ok_0, more);
    }
}

/// What ends a round are merges and exchanges within one relation, away
/// from `Total`.
proof fn lemma_round_end_simple(relations: Seq<Seq<char>>)
    ensures
        all_simple(round_end(relations)),
    decreases relations.len(),
{
    if relations.len() > 0 {
        lemma_round_end_simple(relations.drop_last());
        let prev = round_end(relations.drop_last());
        let now = round_end(relations);
        assert forall|k: int| 0 <= k < now.len() implies simple(#[trigger] now[k]) by {
            if k < prev.len() {
                assert(now[k] == prev[k]);
            }
        }
    }
}

/// What takes the input in are merges within one relation and purges of
/// `Delta`.
proof fn lemma_intake_simple(declarations: Seq<DeclarationView>)
    ensures
        all_simple(intake(declarations)),
    decreases declarations.len(),
{
    if declarations.len() > 0 {
        lemma_intake_simple(declarations.drop_last());
        let prev = intake(declarations.drop_last());
        let now = intake(declarations);
        assert forall|k: int| 0 <= k < now.len() implies simple(#[trigger] now[k]) by {
            if k < prev.len() {
                assert(now[k] == prev[k]);
            }
        }
    }
}

/// What a stratum lowers to is admissible.
proof fn lemma_stratum_admissible(stratum: StratumView)
    requires
        lower_stratum(stratum) is Ok,
    ensures
        all_admissible(lower_stratum(stratum)->Ok_0),
{
    let facts = facts_of(stratum.clauses);
    let rules = rules_of(stratum.clauses);
    if stratum.is_recursive {
        let static_rules = select_rules(rules, stratum, false);
        let dynamic_rules = select_rules(rules, stratum, true);
        let fixed = lower_rules(static_rules, stratum, Version::Total)->Ok_0;
        let rewrites = lower_rules(dynamic_rules, stratum, Version::New)->Ok_0;
        let inserted = facts.map_values(|f: FactView| fact_statement(f, Version::Delta));
        let merges = distinct_heads(static_rules).map_values(
            |id: Seq<char>| merge_statement(id, Version::Total, Version::Delta),
        );
        let relations = stratum.relations;
        let purges = relations.map_values(
            |id: Seq<char>|
                StatementView::Purge {
                    relation: RelationView { id, version: Version::New },
                },
        );
        let exit = seq![
            StatementView::Exit {
                relations: relations.map_values(
                    |id: Seq<char>| RelationView { id, version: Version::New },
                ),
            },
        ];
        rules_lower_to_insertions(static_rules, stratum, Version::Total);
        rules_lower_to_insertions(dynamic_rules, stratum, Version::New);
        lemma_round_end_simple(relations);
        assert(all_simple(purges));
        assert(all_simple(exit));
        lemma_simple_concat(purges, rewrites);
        lemma_simple_concat(purges + rewrites, exit);
        lemma_simple_concat(purges + rewrites + exit, round_end(relations));
        let body = loop_body(relations, rewrites);
        assert(all_simple(body));
        let looped = seq![StatementView::Loop { body }];
        assert(all_admissible(looped));
        assert(all_simple(inserted));
        assert(all_simple(merges));
        lemma_simple_concat(inserted, fixed);
        lemma_simple_concat(inserted + fixed, merges);
        lemma_simple_admissible(inserted + fixed + merges);
        lemma_admissible_concat(inserted + fixed + merges, looped);
    } else {
        let lowered = lower_rules(rules, stratum, Version::Total)->Ok_0;
        let inserted = facts.map_values(|f: FactView| fact_statement(f, Version::Total));
        rules_lower_to_insertions(rules, stratum, Version::Total);
        assert(all_simple(inserted));
        lemma_simple_concat(inserted, lowered);
        lemma_simple_admissible(inserted + lowered);
    }
}

/// What strata lower to is admissible.
proof fn lemma_strata_admissible(strata: Seq<StratumView>)
    requires
        lower_strata(strata) is Ok,
    ensures
        all_admissible(lower_strata(strata)->Ok_0),
    decreases strata.len(),
{
    if strata.len() > 0 {
        lemma_strata_admissible(strata.drop_last());
        lemma_stratum_admissible(strata.last());
        lemma_admissible_concat(
            lower_strata(strata.drop_last())->Ok_0,
            lower_stratum(strata.last())->Ok_0,
        );
    }
}

/// A lowered program is one that the machine runs without complaint about
/// the shape of its statements: it has no loop inside a loop, it merges and
/// exchanges only versions of one relation, and it neither exchanges nor
/// empties `Total`, which therefore only grows.
pub proof fn lowered_program_is_admissible(program: ProgramView, strata: Seq<StratumView>)
    requires
        lower_program(program, strata) is Ok,
    ensures
        all_admissible(lower_program(program, strata)->Ok_0.statements),
{
    let lowered = lower_strata(strata)->Ok_0;
    lemma_strata_admissible(strata);
    lemma_intake_simple(program.declarations);
    let sources = seq![StatementView::Sources];
    let sinks = seq![StatementView::Sinks];
    assert(all_simple(sources));
    assert(all_simple(sinks));
    lemma_simple_concat(sources, intake(program.declarations));
    lemma_simple_admissible(sources + intake(program.declarations));
    lemma_simple_admissible(sinks);
    lemma_admissible_concat(sources + intake(program.declarations), lowered);
    lemma_admissible_concat(sources + intake(program.declarations) + lowered, sinks);
}

} // verus!
