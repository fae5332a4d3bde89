//! Whatever an insertion of a lowered program derives, a rule of the program
//! derives.

use vstd::prelude::*;
use crate::logic::ast::{facts_of, rules_of, FactView, ProgramView, RuleView, StratumView};
use crate::logic::lower_to_ram::{
    distinct_heads, fact_statement, intake, loop_body, lower_program, lower_rule, lower_rules,
    lower_strata, lower_stratum, merge_statement, round_end, select_rules,
};
use crate::logic::lowering_laws::simple;
use crate::logic::soundness::{
    columns_declared, lowering_is_sound, fresh_targets, rule_derives, schemas_distinct,
};
use crate::ram::{RelationView, StatementView, Version};
use crate::runtime::laws::derives;
use crate::storage::{store_wf, RowView, TableView};
use crate::tuple::TupleView;
use crate::value::ValueView;

verus! {

/// Whether the statement is one of the statements or a statement of the
/// body of a loop among them.
pub open spec fn occurs(statements: Seq<StatementView>, statement: StatementView) -> bool {
    statements.contains(statement) || exists|k: int|
        0 <= k < statements.len() && (#[trigger] statements[k]) is Loop
            && statements[k]->Loop_body.contains(statement)
}

/// Whether the statement is an insertion that is not ground.
pub open spec fn is_rewrite(statement: StatementView) -> bool {
    statement matches StatementView::Insert { is_ground, .. } && !is_ground
}

/// Whether the statement is one of the rewrites that the rule lowers to in
/// the stratum, into some version.
pub open spec fn rewrite_of(statement: StatementView, rule: RuleView, stratum: StratumView) -> bool {
    exists|version: Version, k: int|
        #![trigger lower_rule(rule, stratum, version), lower_rule(rule, stratum, version)->Ok_0[k]]
        lower_rule(rule, stratum, version) is Ok && 0 <= k < lower_rule(
            rule,
            stratum,
            version,
        )->Ok_0.len() && lower_rule(rule, stratum, version)->Ok_0[k] == statement
}

/// Whether the statement is a rewrite of one of the rules.
pub open spec fn rewrite_of_some(
    statement: StatementView,
    rules: Seq<RuleView>,
    stratum: StratumView,
) -> bool {
    exists|m: int| 0 <= m < rules.len() && rewrite_of(statement, #[trigger] rules[m], stratum)
}

/// Whether the statement is a rewrite of a rule of one of the strata.
pub open spec fn rewrite_of_a_rule(statement: StatementView, strata: Seq<StratumView>) -> bool {
    exists|s: int|
        0 <= s < strata.len() && rewrite_of_some(
            statement,
            rules_of((#[trigger] strata[s]).clauses),
            strata[s],
        )
}

/// What rules lower to are rewrites of them.
proof fn lemma_rules(
    rules: Seq<RuleView>,
    stratum: StratumView,
    version: Version,
    statement: StatementView,
)
    requires
        lower_rules(rules, stratum, version) is Ok,
        lower_rules(rules, stratum, version)->Ok_0.contains(statement),
    ensures
        rewrite_of_some(statement, rules, stratum),
    decreases rules.len(),
{
    let front = lower_rules(rules.drop_last(), stratum, version)->Ok_0;
    let more = lower_rule(rules.last(), stratum, version)->Ok_0;
    let all = lower_rules(rules, stratum, version)->Ok_0;
    let k = all.index_of(statement);
    if k < front.len() {
        assert(front[k] == statement);
        lemma_rules(rules.drop_last(), stratum, version, statement);
        let m = choose|m: int|
            0 <= m < rules.drop_last().len() && rewrite_of(
                statement,
                #[trigger] rules.drop_last()[m],
                stratum,
            );
        assert(rules[m] == rules.drop_last()[m]);
    } else {
        assert(more[k - front.len()] == statement);
        assert(rewrite_of(statement, rules[rules.len() - 1], stratum));
    }
}

/// The rules that are selected are among the rules.
proof fn lemma_selected(rules: Seq<RuleView>, stratum: StratumView, dynamic: bool, m: int)
    requires
        0 <= m < select_rules(rules, stratum, dynamic).len(),
    ensures
        rules.contains(select_rules(rules, stratum, dynamic)[m]),
    decreases rules.len(),
{
    let front = select_rules(rules.drop_last(), stratum, dynamic);
    if m < front.len() {
        lemma_selected(rules.drop_last(), stratum, dynamic, m);
        let k = rules.drop_last().index_of(front[m]);
        assert(rules[k] == front[m]);
    } else {
        assert(rules[rules.len() - 1] == rules.last());
    }
}

/// A rewrite of a selected rule is a rewrite of one of the rules.
proof fn lemma_selected_rewrite(
    rules: Seq<RuleView>,
    stratum: StratumView,
    dynamic: bool,
    statement: StatementView,
)
    requires
        rewrite_of_some(statement, select_rules(rules, stratum, dynamic), stratum),
    ensures
        rewrite_of_some(statement, rules, stratum),
{
    let selected = select_rules(rules, stratum, dynamic);
    let m = choose|m: int|
        0 <= m < selected.len() && rewrite_of(statement, #[trigger] selected[m], stratum);
    lemma_selected(rules, stratum, dynamic, m);
    let k = rules.index_of(selected[m]);
    assert(rewrite_of(statement, rules[k], stratum));
}

/// What ends a round has no insertion.
proof fn lemma_round_end(relations: Seq<Seq<char>>, statement: StatementView)
    requires
        round_end(relations).contains(statement),
    ensures
        !(statement is Insert),
    decreases relations.len(),
{
    if relations.len() > 0 {
        let prev = round_end(relations.drop_last());
        let now = round_end(relations);
        let k = now.index_of(statement);
        if k < prev.len() {
            assert(prev[k] == statement);
            lemma_round_end(relations.drop_last(), statement);
        }
    }
}

/// What takes the input in has no insertion and no loop.
proof fn lemma_intake(declarations: Seq<crate::logic::ast::DeclarationView>, statement: StatementView)
    requires
        intake(declarations).contains(statement),
    ensures
        !(statement is Insert),
        !(statement is Loop),
    decreases declarations.len(),
{
    if declarations.len() > 0 {
        let prev = intake(declarations.drop_last());
        let now = intake(declarations);
        let k = now.index_of(statement);
        if k < prev.len() {
            assert(prev[k] == statement);
            lemma_intake(declarations.drop_last(), statement);
        }
    }
}

/// A rewrite that occurs in what a stratum lowers to is a rewrite of a rule
/// of the stratum.
proof fn lemma_stratum(stratum: StratumView, statement: StatementView)
    requires
        lower_stratum(stratum) is Ok,
        occurs(lower_stratum(stratum)->Ok_0, statement),
        is_rewrite(statement),
    ensures
        rewrite_of_some(statement, rules_of(stratum.clauses), stratum),
{
    let facts = facts_of(stratum.clauses);
    let rules = rules_of(stratum.clauses);
    let out = lower_stratum(stratum)->Ok_0;
    if stratum.is_recursive {
        let static_rules = select_rules(rules, stratum, false);
        let dynamic_rules = select_rules(rules, stratum, true);
        let fixed = lower_rules(static_rules, stratum, Version::Total)->Ok_0;
        let rewrites = lower_rules(dynamic_rules, stratum, Version::New)->Ok_0;
        let inserted = facts.map_values(|f: FactView| fact_statement(f, Version::Delta));
        let merges = distinct_heads(static_rules).map_values(
            |id: Seq<char>| merge_statement(id, Version::Total, Version::Delta),
        );
        let relations = stratum.relations;
        let purges = relations.map_values(
            |id: Seq<char>|
                StatementView::Purge { relation: RelationView { id, version: Version::New } },
        );
        let exit = seq![
            StatementView::Exit {
                relations: relations.map_values(
                    |id: Seq<char>| RelationView { id, version: Version::New },
                ),
            },
        ];
        let body = loop_body(relations, rewrites);
        let looped = seq![StatementView::Loop { body }];
        assert(out == inserted + fixed + merges + looped);
        if out.contains(statement) {
            let k = out.index_of(statement);
            if k < inserted.len() {
                assert(out[k] == inserted[k]);
            } else if k < inserted.len() + fixed.len() {
                assert(out[k] == fixed[k - inserted.len()]);
                lemma_rules(static_rules, stratum, Version::Total, statement);
                lemma_selected_rewrite(rules, stratum, false, statement);
            } else if k < inserted.len() + fixed.len() + merges.len() {
                assert(out[k] == merges[k - inserted.len() - fixed.len()]);
            } else {
                assert(out[k] == looped[0]);
            }
        } else {
            let k = choose|k: int|
                0 <= k < out.len() && (#[trigger] out[k]) is Loop && out[k]->Loop_body.contains(
                    statement,
                );
            if k < inserted.len() {
                assert(out[k] == inserted[k]);
            } else if k < inserted.len() + fixed.len() {
                assert(out[k] == fixed[k - inserted.len()]);
                crate::logic::lowering_laws::rules_lower_to_insertions(
                    static_rules,
                    stratum,
                    Version::Total,
                );
                assert(simple(fixed[k - inserted.len()]));
            } else if k < inserted.len() + fixed.len() + merges.len() {
                assert(out[k] == merges[k - inserted.len() - fixed.len()]);
            } else {
                assert(out[k] == looped[0]);
                let at = body.index_of(statement);
                assert(body == purges + rewrites + exit + round_end(relations));
                if at < purges.len() {
                    assert(body[at] == purges[at]);
                } else if at < purges.len() + rewrites.len() {
                    assert(body[at] == rewrites[at - purges.len()]);
                    lemma_rules(dynamic_rules, stratum, Version::New, statement);
                    lemma_selected_rewrite(rules, stratum, true, statement);
                } else if at < purges.len() + rewrites.len() + 1 {
                    assert(body[at] == exit[0]);
                } else {
                    let last = round_end(relations);
                    assert(body[at] == last[at - purges.len() - rewrites.len() - 1]);
                    lemma_round_end(relations, statement);
                }
            }
        }
    } else {
        let lowered = lower_rules(rules, stratum, Version::Total)->Ok_0;
        let inserted = facts.map_values(|f: FactView| fact_statement(f, Version::Total));
        assert(out == inserted + lowered);
        crate::logic::lowering_laws::rules_lower_to_insertions(rules, stratum, Version::Total);
        if out.contains(statement) {
            let k = out.index_of(statement);
            if k < inserted.len() {
                assert(out[k] == inserted[k]);
            } else {
                assert(out[k] == lowered[k - inserted.len()]);
                lemma_rules(rules, stratum, Version::Total, statement);
            }
        } else {
            let k = choose|k: int|
                0 <= k < out.len() && (#[trigger] out[k]) is Loop && out[k]->Loop_body.contains(
                    statement,
                );
            if k < inserted.len() {
                assert(out[k] == inserted[k]);
            } else {
                assert(out[k] == lowered[k - inserted.len()]);
                assert(simple(lowered[k - inserted.len()]));
            }
        }
    }
}

/// A statement that occurs in one of two parts occurs in both together,
/// and the other way round.
proof fn lemma_occurs_concat(a: Seq<StatementView>, b: Seq<StatementView>, statement: StatementView)
    ensures
        occurs(a + b, statement) <==> occurs(a, statement) || occurs(b, statement),
{
    let both = a + b;
    if occurs(both, statement) {
        if both.contains(statement) {
            let k = both.index_of(statement);
            if k < a.len() {
                assert(a[k] == statement);
            } else {
                assert(b[k - a.len()] == statement);
            }
        } else {
            let k = choose|k: int|
                0 <= k < both.len() && (#[trigger] both[k]) is Loop && both[k]->Loop_body.contains(
                    statement,
                );
            if k < a.len() {
                assert(a[k] == both[k]);
            } else {
                assert(b[k - a.len()] == both[k]);
            }
        }
    }
    if occurs(a, statement) {
        if a.contains(statement) {
            let k = a.index_of(statement);
            assert(both[k] == statement);
        } else {
            let k = choose|k: int|
                0 <= k < a.len() && (#[trigger] a[k]) is Loop && a[k]->Loop_body.contains(statement);
            assert(both[k] == a[k]);
        }
    }
    if occurs(b, statement) {
        if b.contains(statement) {
            let k = b.index_of(statement);
            assert(both[a.len() + k] == statement);
        } else {
            let k = choose|k: int|
                0 <= k < b.len() && (#[trigger] b[k]) is Loop && b[k]->Loop_body.contains(statement);
            assert(both[a.len() + k] == b[k]);
        }
    }
}

/// A rewrite that occurs in what strata lower to is a rewrite of a rule of
/// one of them.
proof fn lemma_strata(strata: Seq<StratumView>, statement: StatementView)
    requires
        lower_strata(strata) is Ok,
        occurs(lower_strata(strata)->Ok_0, statement),
        is_rewrite(statement),
    ensures
        rewrite_of_a_rule(statement, strata),
    decreases strata.len(),
{
    if strata.len() > 0 {
        let front = lower_strata(strata.drop_last())->Ok_0;
        let more = lower_stratum(strata.last())->Ok_0;
        lemma_occurs_concat(front, more, statement);
        if occurs(front, statement) {
            lemma_strata(strata.drop_last(), statement);
            let s = choose|s: int|
                0 <= s < strata.drop_last().len() && rewrite_of_some(
                    statement,
                    rules_of((#[trigger] strata.drop_last()[s]).clauses),
                    strata.drop_last()[s],
                );
            assert(strata[s] == strata.drop_last()[s]);
        } else {
            lemma_stratum(strata.last(), statement);
            assert(strata[strata.len() - 1] == strata.last());
        }
    }
}

/// Whether every rule of the strata names only declared columns, and the
/// result of each of its aggregations is a variable that no term before the
/// aggregation gives a value.
pub open spec fn orderly_rules(strata: Seq<StratumView>, store: Seq<TableView>) -> bool {
    forall|s: int, r: int|
        0 <= s < strata.len() && 0 <= r < rules_of(strata[s].clauses).len() ==> orderly_rule(
            #[trigger] rules_of(strata[s].clauses)[r],
            store,
        )
}

/// Whether the predicates and aggregations of the rule name only declared
/// columns, and the result of each of its aggregations is a variable that no
/// term before the aggregation gives a value.
pub open spec fn orderly_rule(rule: RuleView, store: Seq<TableView>) -> bool {
    fresh_targets(rule.body) && rule.body.len() <= usize::MAX && columns_declared(rule.body, store)
}

/// Whether a rule of one of the strata derives `tuple` by way of `rows`.
pub open spec fn some_rule_derives(
    strata: Seq<StratumView>,
    rows: Seq<RowView>,
    store: Seq<TableView>,
    blocks: Set<Seq<u8>>,
    tuple: TupleView,
) -> bool {
    exists|s: int, r: int, sigma: Map<Seq<char>, ValueView>|
        0 <= s < strata.len() && 0 <= r < rules_of(strata[s].clauses).len() && #[trigger] rule_derives(
            rules_of(strata[s].clauses)[r],
            rows,
            sigma,
            store,
            blocks,
            tuple,
        )
}

/// A lowered program derives only what its rules derive. Let a program be
/// lowered from strata whose rules name only declared columns and give the
/// result of each aggregation a variable of its own, and let an insertion
/// that is not ground occur in it, in a loop or outside. Whatever tuple the
/// insertion derives on a storage, by way of rows of the relations that it
/// searches, a rule of the strata derives by way of these rows: there are
/// values of its variables under which its body holds of the rows and its
/// head is the tuple.
///
/// With `every_row_has_an_origin` this says where the rows of a machine
/// come from: every row that a step adds to a relation was queued as input,
/// was held by another version of the relation, is a fact of the program, or
/// is derived by such a rule of the program from rows that the storage held
/// at that step.
pub proof fn programs_derive_what_their_rules_derive(
    program: ProgramView,
    strata: Seq<StratumView>,
    statement: StatementView,
    store: Seq<TableView>,
    blocks: Set<Seq<u8>>,
    rows: Seq<RowView>,
    tuple: TupleView,
)
    requires
        lower_program(program, strata) is Ok,
        occurs(lower_program(program, strata)->Ok_0.statements, statement),
        is_rewrite(statement),
        orderly_rules(strata, store),
        store_wf(store),
        schemas_distinct(store),
        derives(statement->Insert_operation, rows, seq![], store, blocks, tuple),
    ensures
        some_rule_derives(strata, rows, store, blocks, tuple),
{
    let lowered = lower_strata(strata)->Ok_0;
    let sources = seq![StatementView::Sources];
    let sinks = seq![StatementView::Sinks];
    let taken = intake(program.declarations);
    lemma_occurs_concat(sources + taken + lowered, sinks, statement);
    lemma_occurs_concat(sources + taken, lowered, statement);
    lemma_occurs_concat(sources, taken, statement);
    assert(!occurs(sources, statement)) by {
        if sources.contains(statement) {
            let k = sources.index_of(statement);
        }
    }
    assert(!occurs(sinks, statement)) by {
        if sinks.contains(statement) {
            let k = sinks.index_of(statement);
        }
    }
    assert(!occurs(taken, statement)) by {
        if taken.contains(statement) {
            lemma_intake(program.declarations, statement);
        } else if occurs(taken, statement) {
            let k = choose|k: int|
                0 <= k < taken.len() && (#[trigger] taken[k]) is Loop && taken[k]->Loop_body.contains(
                    statement,
                );
            assert(taken.contains(taken[k]));
            lemma_intake(program.declarations, taken[k]);
        }
    }
    lemma_strata(strata, statement);
    let s = choose|s: int|
        0 <= s < strata.len() && rewrite_of_some(
            statement,
            rules_of((#[trigger] strata[s]).clauses),
            strata[s],
        );
    let rules = rules_of(strata[s].clauses);
    let r = choose|r: int| 0 <= r < rules.len() && rewrite_of(statement, #[trigger] rules[r], strata[s]);
    let rule = rules[r];
    let (version, k) = choose|version: Version, k: int|
        #![trigger lower_rule(rule, strata[s], version), lower_rule(rule, strata[s], version)->Ok_0[k]]
        lower_rule(rule, strata[s], version) is Ok && 0 <= k < lower_rule(
            rule,
            strata[s],
            version,
        )->Ok_0.len() && lower_rule(rule, strata[s], version)->Ok_0[k] == statement;
    assert(orderly_rule(rules_of(strata[s].clauses)[r], store));
    lowering_is_sound(rule, strata[s], version, store, blocks, k, rows, tuple);
    let sigma = choose|sigma: Map<Seq<char>, ValueView>|
        #[trigger] rule_derives(rule, rows, sigma, store, blocks, tuple);
    assert(rule_derives(rules_of(strata[s].clauses)[r], rows, sigma, store, blocks, tuple));
}

} // verus!
