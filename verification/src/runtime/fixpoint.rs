//! The fixpoint of a round: where the rewrites of a round leave `New`
//! empty, running any of them again derives only what `Total` holds.

use vstd::prelude::*;
use crate::ram::{operation_target, FormulaView, OperationView, Version};
use crate::runtime::eval::{
    aggregate, bind_row, eval, formula_holds, formulas_hold, search_rows, BoundView, SearchView,
};
use crate::runtime::laws::{
    added_to, empty_round_is_fixpoint, insertion_sound_and_complete, known, row_added,
};
use crate::runtime::vm::{after_operation, insert_all};
use crate::storage::{
    find_table, find_table_sound, matching, row_of, version_rows, RowView, TableView,
};

verus! {

/// Whether a formula reads no `New` version.
pub open spec fn formula_reads_no_new(formula: FormulaView) -> bool {
    match formula {
        FormulaView::Equality(_, _) => true,
        FormulaView::NotIn { relation, .. } => relation.version != Version::New,
    }
}

/// Whether none of the formulas reads a `New` version.
pub open spec fn formulas_read_no_new(formulas: Seq<FormulaView>) -> bool {
    forall|k: int| 0 <= k < formulas.len() ==> formula_reads_no_new(#[trigger] formulas[k])
}

/// Whether an operation reads no `New` version: it searches, aggregates and
/// tests only `Total` and `Delta`.
pub open spec fn reads_no_new(operation: OperationView) -> bool
    decreases operation,
{
    match operation {
        OperationView::Project { .. } => true,
        OperationView::Search { relation, when, operation, .. } => relation.version != Version::New
            && formulas_read_no_new(when) && reads_no_new(*operation),
        OperationView::Aggregation { relation, when, operation, .. } => relation.version
            != Version::New && formulas_read_no_new(when) && reads_no_new(*operation),
    }
}

/// Whether two storages have the same tables with the same declarations and
/// the same rows in `Total` and in `Delta`.
pub open spec fn same_known(a: Seq<TableView>, b: Seq<TableView>) -> bool {
    &&& a.len() == b.len()
    &&& forall|i: int|
        0 <= i < a.len() ==> (#[trigger] a[i]).declaration == b[i].declaration && a[i].total
            == b[i].total && a[i].delta == b[i].delta
}

/// Two storages with the same declarations find a relation at the same
/// place.
pub proof fn lemma_find_same(a: Seq<TableView>, b: Seq<TableView>, id: Seq<char>)
    requires
        same_known(a, b),
    ensures
        find_table(a, id) == find_table(b, id),
    decreases a.len(),
{
    if a.len() > 0 {
        assert(a[0].declaration == b[0].declaration);
        assert forall|i: int| 0 <= i < a.drop_first().len() implies (#[trigger] a.drop_first()[i]).declaration
            == b.drop_first()[i].declaration && a.drop_first()[i].total == b.drop_first()[i].total
            && a.drop_first()[i].delta == b.drop_first()[i].delta by {
            assert(a.drop_first()[i] == a[i + 1]);
            assert(b.drop_first()[i] == b[i + 1]);
        }
        lemma_find_same(a.drop_first(), b.drop_first(), id);
    }
}

/// A formula that reads no `New` version holds in one of two storages that
/// agree on `Total` and `Delta` exactly when it holds in the other.
pub proof fn lemma_formula_frame(
    formula: FormulaView,
    bindings: Seq<BoundView>,
    a: Seq<TableView>,
    b: Seq<TableView>,
)
    requires
        same_known(a, b),
        formula_reads_no_new(formula),
    ensures
        formula_holds(formula, bindings, a) == formula_holds(formula, bindings, b),
{
    match formula {
        FormulaView::Equality(_, _) => {},
        FormulaView::NotIn { relation, .. } => {
            lemma_find_same(a, b, relation.id);
            find_table_sound(a, relation.id);
        },
    }
}

/// Formulas that read no `New` version hold in one of two storages that
/// agree on `Total` and `Delta` exactly when they hold in the other.
pub proof fn lemma_formulas_frame(
    formulas: Seq<FormulaView>,
    bindings: Seq<BoundView>,
    a: Seq<TableView>,
    b: Seq<TableView>,
)
    requires
        same_known(a, b),
        formulas_read_no_new(formulas),
    ensures
        formulas_hold(formulas, bindings, a) == formulas_hold(formulas, bindings, b),
    decreases formulas.len(),
{
    if formulas.len() > 0 {
        lemma_formula_frame(formulas[0], bindings, a, b);
        assert forall|k: int| 0 <= k < formulas.drop_first().len() implies formula_reads_no_new(
            #[trigger] formulas.drop_first()[k],
        ) by {
            assert(formulas.drop_first()[k] == formulas[k + 1]);
        }
        lemma_formulas_frame(formulas.drop_first(), bindings, a, b);
    }
}

/// An operation that reads no `New` version projects the same tuples in two
/// storages that agree on `Total` and `Delta`.
pub proof fn lemma_eval_frame(
    operation: OperationView,
    bindings: Seq<BoundView>,
    a: Seq<TableView>,
    b: Seq<TableView>,
    blocks: Set<Seq<u8>>,
)
    requires
        same_known(a, b),
        reads_no_new(operation),
    ensures
        eval(operation, bindings, a, blocks) == eval(operation, bindings, b, blocks),
    decreases operation, 0nat,
{
    match operation {
        OperationView::Project { .. } => {},
        OperationView::Search { relation, alias, by_cid, when, operation: inner } => {
            lemma_find_same(a, b, relation.id);
            find_table_sound(a, relation.id);
            if find_table(a, relation.id).is_some() {
                let i = find_table(a, relation.id).unwrap();
                let search = SearchView {
                    relation: relation.id,
                    alias,
                    by_cid,
                    when,
                    schema: a[i].declaration.schema,
                };
                lemma_search_frame(
                    *inner,
                    search,
                    version_rows(a[i], relation.version),
                    bindings,
                    a,
                    b,
                    blocks,
                );
            }
        },
        OperationView::Aggregation {
            relation,
            alias,
            when,
            group_by_cols,
            args,
            init,
            target,
            reducer,
            operation: inner,
        } => {
            lemma_find_same(a, b, relation.id);
            find_table_sound(a, relation.id);
            let result = aggregate(relation, alias, group_by_cols, args, init, reducer, bindings, a);
            assert(result == aggregate(
                relation,
                alias,
                group_by_cols,
                args,
                init,
                reducer,
                bindings,
                b,
            ));
            match result {
                Ok(Some(value)) => {
                    let bound = bindings.push(
                        BoundView {
                            term: crate::ram::TermView::Agg {
                                relation: relation.id,
                                alias,
                                var: target,
                            },
                            value,
                        },
                    );
                    lemma_formulas_frame(when, bound, a, b);
                    lemma_eval_frame(*inner, bound, a, b, blocks);
                },
                _ => {},
            }
        },
    }
}

/// The walk of a search over rows gives the same in two storages that agree
/// on `Total` and `Delta`, where the search and what is nested in it read no
/// `New` version.
pub proof fn lemma_search_frame(
    inner: OperationView,
    search: SearchView,
    rows: Seq<RowView>,
    bindings: Seq<BoundView>,
    a: Seq<TableView>,
    b: Seq<TableView>,
    blocks: Set<Seq<u8>>,
)
    requires
        same_known(a, b),
        reads_no_new(inner),
        formulas_read_no_new(search.when),
    ensures
        search_rows(inner, search, rows, bindings, a, blocks) == search_rows(
            inner,
            search,
            rows,
            bindings,
            b,
            blocks,
        ),
    decreases inner, rows.len() + 1,
{
    if rows.len() > 0 {
        lemma_search_frame(inner, search, rows.drop_last(), bindings, a, b, blocks);
        let bound = bind_row(bindings, search.relation, search.alias, search.schema, rows.last());
        lemma_formulas_frame(search.when, bound, a, b);
        lemma_eval_frame(inner, bound, a, b, blocks);
    }
}

/// The storage after the operations are run one after the other: `None`
/// where one of them fails.
pub open spec fn after_operations(
    store: Seq<TableView>,
    operations: Seq<OperationView>,
    blocks: Set<Seq<u8>>,
) -> Option<Seq<TableView>>
    decreases operations.len(),
{
    if operations.len() == 0 {
        Some(store)
    } else {
        match after_operations(store, operations.drop_last(), blocks) {
            Some(prev) => after_operation(prev, operations.last(), blocks),
            None => None,
        }
    }
}

/// Whether every operation derives into `New` and reads no `New` version.
pub open spec fn rewrites_of_a_round(operations: Seq<OperationView>) -> bool {
    forall|k: int|
        0 <= k < operations.len() ==> operation_target(#[trigger] operations[k]).version
            == Version::New && reads_no_new(operations[k])
}

/// Whether `after` is `before` with rows added to `New` of its tables, and
/// nothing else changed.
pub open spec fn only_new_grew(before: Seq<TableView>, after: Seq<TableView>) -> bool {
    &&& same_known(before, after)
    &&& forall|i: int, j: int|
        0 <= i < before.len() && 0 <= j < before[i].new.len() ==> after[i].new.contains(
            #[trigger] before[i].new[j],
        )
}

/// An operation that derives into `New` adds rows to `New` and changes
/// nothing else.
pub proof fn lemma_operation_grows_new(
    store: Seq<TableView>,
    operation: OperationView,
    blocks: Set<Seq<u8>>,
)
    requires
        operation_target(operation).version == Version::New,
        after_operation(store, operation, blocks).is_some(),
    ensures
        only_new_grew(store, after_operation(store, operation, blocks).unwrap()),
{
    let tuples = eval(operation, seq![], store, blocks).unwrap();
    let target = operation_target(operation);
    let after = after_operation(store, operation, blocks).unwrap();
    if tuples.len() > 0 {
        insertion_sound_and_complete(store, target, tuples);
        let i = find_table(store, target.id).unwrap();
        assert(added_to(store, after, i, Version::New, tuples));
        assert(version_rows(after[i], Version::Total) == version_rows(store[i], Version::Total));
        assert(version_rows(after[i], Version::Delta) == version_rows(store[i], Version::Delta));
        assert forall|k: int, j: int|
            0 <= k < store.len() && 0 <= j < store[k].new.len() implies after[k].new.contains(
            #[trigger] store[k].new[j],
        ) by {
            if k == i {
                assert(row_added(store, after, i, Version::New, tuples, store[k].new[j]));
                assert(version_rows(store[i], Version::New).contains(store[k].new[j]));
            }
        }
    }
}

/// Growing only in `New` is transitive.
pub proof fn lemma_only_new_trans(a: Seq<TableView>, b: Seq<TableView>, c: Seq<TableView>)
    requires
        only_new_grew(a, b),
        only_new_grew(b, c),
    ensures
        only_new_grew(a, c),
{
    assert forall|i: int, j: int|
        0 <= i < a.len() && 0 <= j < a[i].new.len() implies c[i].new.contains(
        #[trigger] a[i].new[j],
    ) by {
        assert(b[i].new.contains(a[i].new[j]));
        let k = b[i].new.index_of(a[i].new[j]);
        assert(c[i].new.contains(b[i].new[k]));
    }
}

/// The operations of a round add rows to `New` and change nothing else, at
/// every stage of the round.
pub proof fn lemma_round_grows_new(
    store: Seq<TableView>,
    operations: Seq<OperationView>,
    blocks: Set<Seq<u8>>,
    upto: int,
)
    requires
        rewrites_of_a_round(operations),
        after_operations(store, operations, blocks).is_some(),
        0 <= upto <= operations.len(),
    ensures
        after_operations(store, operations.take(upto), blocks).is_some(),
        only_new_grew(
            after_operations(store, operations.take(upto), blocks).unwrap(),
            after_operations(store, operations, blocks).unwrap(),
        ),
    decreases operations.len() - upto,
{
    if upto == operations.len() {
        assert(operations.take(upto) =~= operations);
        let end = after_operations(store, operations, blocks).unwrap();
        assert forall|i: int, j: int|
            0 <= i < end.len() && 0 <= j < end[i].new.len() implies end[i].new.contains(
            #[trigger] end[i].new[j],
        ) by {}
    } else {
        lemma_round_grows_new(store, operations, blocks, upto + 1);
        assert(operations.take(upto + 1).drop_last() =~= operations.take(upto));
        assert(operations.take(upto + 1).last() == operations[upto]);
        let before = after_operations(store, operations.take(upto), blocks).unwrap();
        let next = after_operations(store, operations.take(upto + 1), blocks).unwrap();
        lemma_operation_grows_new(before, operations[upto], blocks);
        lemma_only_new_trans(before, next, after_operations(store, operations, blocks).unwrap());
    }
}

/// A round that derives nothing new has reached the fixpoint.
///
/// Let the rewrites of a round, each of which derives into `New` and reads
/// only `Total` and `Delta`, be run one after the other. Where `New` of the
/// target of a rewrite is empty after the round, running that rewrite once
/// more on the storage that the round left derives only tuples that `Total`
/// of its target holds: no additional tuple can be derived.
pub proof fn round_is_fixpoint(
    store: Seq<TableView>,
    operations: Seq<OperationView>,
    blocks: Set<Seq<u8>>,
    which: int,
)
    requires
        rewrites_of_a_round(operations),
        after_operations(store, operations, blocks).is_some(),
        0 <= which < operations.len(),
        find_table(store, operation_target(operations[which]).id) matches Some(i)
            && after_operations(store, operations, blocks).unwrap()[i].new.len() == 0,
    ensures
        eval(
            operations[which],
            seq![],
            after_operations(store, operations, blocks).unwrap(),
            blocks,
        ).is_some(),
        forall|j: int|
            0 <= j < eval(
                operations[which],
                seq![],
                after_operations(store, operations, blocks).unwrap(),
                blocks,
            ).unwrap().len() ==> #[trigger] known(
                after_operations(store, operations, blocks).unwrap(),
                operations[which],
                blocks,
                j,
            ),
{
    let end = after_operations(store, operations, blocks).unwrap();
    let operation = operations[which];
    let target = operation_target(operation);
    lemma_round_grows_new(store, operations, blocks, which);
    lemma_round_grows_new(store, operations, blocks, which + 1);
    lemma_round_grows_new(store, operations, blocks, 0);
    assert(operations.take(0) =~= seq![]);
    assert(operations.take(which + 1).drop_last() =~= operations.take(which));
    assert(operations.take(which + 1).last() == operation);
    let before = after_operations(store, operations.take(which), blocks).unwrap();
    let next = after_operations(store, operations.take(which + 1), blocks).unwrap();
    lemma_operation_grows_new(before, operation, blocks);
    lemma_find_same(store, end, target.id);
    lemma_find_same(before, end, target.id);
    lemma_find_same(next, end, target.id);
    find_table_sound(store, target.id);
    let i = find_table(store, target.id).unwrap();
    assert(next[i].new.len() == 0) by {
        if next[i].new.len() > 0 {
            assert(end[i].new.contains(next[i].new[0]));
            let k = end[i].new.index_of(next[i].new[0]);
            assert(0 <= k < end[i].new.len());
        }
    }
    empty_round_is_fixpoint(before, operation, blocks);
    lemma_eval_frame(operation, seq![], before, end, blocks);
    assert forall|j: int| 0 <= j < eval(operation, seq![], end, blocks).unwrap().len() implies #[trigger] known(
        end,
        operation,
        blocks,
        j,
    ) by {
        assert(known(before, operation, blocks, j));
    }
}

} // verus!
