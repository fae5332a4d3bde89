//! What holds of the evaluation of operations and of the insertion of their
//! results: every tuple that a search projects comes from a row that it
//! took, every row that an insertion adds comes from a tuple that the
//! operation projected, and a round that leaves `New` empty derived nothing
//! that `Total` does not hold.

use vstd::prelude::*;
use crate::logic::ast::ColumnView;
use crate::ram::{operation_target, OperationView, RelationView, Version};
use crate::runtime::eval::{
    admitted, bind_row, eval, formulas_hold, search_rows, BoundView, SearchView,
};
use crate::runtime::vm::{after_operation, insert_all};
use crate::storage::{
    find_table, find_table_sound, inserted, row_of, table_put, version_rows, RowView, TableView,
};
use crate::tuple::TupleView;

verus! {

/// Whether a search projects `tuple` by way of `row`: it takes the row, its
/// conditions hold under it, and the operation nested in it projects the
/// tuple under it.
pub open spec fn row_yields(
    inner: OperationView,
    search: SearchView,
    row: RowView,
    bindings: Seq<BoundView>,
    store: Seq<TableView>,
    blocks: Set<Seq<u8>>,
    tuple: TupleView,
) -> bool {
    let bound = bind_row(bindings, search.relation, search.alias, search.schema, row);
    &&& admitted(search.by_cid, row, blocks)
    &&& formulas_hold(search.when, bound, store) == Some(true)
    &&& eval(inner, bound, store, blocks).is_some()
    &&& eval(inner, bound, store, blocks).unwrap().contains(tuple)
}

/// Whether a search projects `tuple` by way of one of `rows`.
pub open spec fn some_row_yields(
    inner: OperationView,
    search: SearchView,
    rows: Seq<RowView>,
    bindings: Seq<BoundView>,
    store: Seq<TableView>,
    blocks: Set<Seq<u8>>,
    tuple: TupleView,
) -> bool {
    exists|j: int|
        0 <= j < rows.len() && row_yields(
            inner,
            search,
            #[trigger] rows[j],
            bindings,
            store,
            blocks,
            tuple,
        )
}

/// A search is sound and complete over its rows: it projects a tuple
/// exactly when it projects it by way of one of the rows, that is, when the
/// relation holds a row that the search takes, under which its conditions
/// hold and under which the operation nested in it projects the tuple.
pub proof fn search_sound_and_complete(
    inner: OperationView,
    search: SearchView,
    rows: Seq<RowView>,
    bindings: Seq<BoundView>,
    store: Seq<TableView>,
    blocks: Set<Seq<u8>>,
    tuple: TupleView,
)
    requires
        search_rows(inner, search, rows, bindings, store, blocks).is_some(),
    ensures
        search_rows(inner, search, rows, bindings, store, blocks).unwrap().contains(tuple)
            <==> some_row_yields(inner, search, rows, bindings, store, blocks, tuple),
    decreases rows.len(),
{
    if rows.len() > 0 {
        let front = rows.drop_last();
        let last = rows.last();
        let prev = search_rows(inner, search, front, bindings, store, blocks).unwrap();
        let now = search_rows(inner, search, rows, bindings, store, blocks).unwrap();
        search_sound_and_complete(inner, search, front, bindings, store, blocks, tuple);
        let bound = bind_row(bindings, search.relation, search.alias, search.schema, last);
        let fires = admitted(search.by_cid, last, blocks) && formulas_hold(
            search.when,
            bound,
            store,
        ) == Some(true);
        if some_row_yields(inner, search, rows, bindings, store, blocks, tuple) {
            let j = choose|j: int|
                0 <= j < rows.len() && row_yields(
                    inner,
                    search,
                    #[trigger] rows[j],
                    bindings,
                    store,
                    blocks,
                    tuple,
                );
            if j < rows.len() - 1 {
                assert(front[j] == rows[j]);
                assert(some_row_yields(inner, search, front, bindings, store, blocks, tuple));
                let k = prev.index_of(tuple);
                assert(now[k] == tuple);
            } else {
                let more = eval(inner, bound, store, blocks).unwrap();
                let k = more.index_of(tuple);
                assert(now[prev.len() + k] == tuple);
            }
        }
        if now.contains(tuple) {
            let k = now.index_of(tuple);
            if k < prev.len() {
                assert(prev[k] == tuple);
                assert(prev.contains(tuple));
                let j = choose|j: int|
                    0 <= j < front.len() && row_yields(
                        inner,
                        search,
                        #[trigger] front[j],
                        bindings,
                        store,
                        blocks,
                        tuple,
                    );
                assert(rows[j] == front[j]);
            } else {
                assert(fires);
                let more = eval(inner, bound, store, blocks).unwrap();
                assert(more[k - prev.len()] == tuple);
                assert(rows[rows.len() - 1] == last);
            }
        }
    }
}

/// Whether `row` is the row of one of `tuples` under `schema`.
pub open spec fn derived_row(tuples: Seq<TupleView>, schema: Seq<ColumnView>, row: RowView) -> bool {
    exists|j: int| 0 <= j < tuples.len() && row_of(#[trigger] tuples[j], schema) == Some(row)
}

/// Whether `after` is `before` with rows added to one version of the table
/// `i`, each of them the row of one of `tuples` and, where the version is
/// `New`, not in `Total`; and with every such row added.
pub open spec fn added_to(
    before: Seq<TableView>,
    after: Seq<TableView>,
    i: int,
    version: Version,
    tuples: Seq<TupleView>,
) -> bool {
    let schema = before[i].declaration.schema;
    &&& 0 <= i < before.len()
    &&& after.len() == before.len()
    &&& forall|k: int| 0 <= k < before.len() && k != i ==> after[k] == before[k]
    &&& after[i].declaration == before[i].declaration
    &&& after[i].sunk == before[i].sunk
    &&& forall|v: Version| v != version ==> version_rows(after[i], v) == version_rows(before[i], v)
    &&& forall|j: int| 0 <= j < tuples.len() ==> row_of(#[trigger] tuples[j], schema).is_some()
    &&& forall|row: RowView| #[trigger] row_added(before, after, i, version, tuples, row)
}

/// Whether `row` is in the version of the table `i` of `after` exactly when
/// it was there in `before` or is the row of one of `tuples` and, where the
/// version is `New`, not in `Total`.
pub open spec fn row_added(
    before: Seq<TableView>,
    after: Seq<TableView>,
    i: int,
    version: Version,
    tuples: Seq<TupleView>,
    row: RowView,
) -> bool {
    let schema = before[i].declaration.schema;
    version_rows(after[i], version).contains(row) <==> (version_rows(before[i], version).contains(
        row,
    ) || (derived_row(tuples, schema, row) && !(version == Version::New
        && before[i].total.contains(row))))
}

/// A table that keeps its declaration keeps its place.
pub proof fn lemma_find_table_update(store: Seq<TableView>, i: int, table: TableView, id: Seq<char>)
    requires
        0 <= i < store.len(),
        table.declaration == store[i].declaration,
    ensures
        find_table(store.update(i, table), id) == find_table(store, id),
    decreases store.len(),
{
    if i > 0 {
        assert(store.update(i, table).drop_first() =~= store.drop_first().update(i - 1, table));
        lemma_find_table_update(store.drop_first(), i - 1, table, id);
    } else {
        assert(store.update(i, table).drop_first() =~= store.drop_first());
    }
}

/// An insertion is sound and complete over the tuples: the rows that it
/// adds to its target are exactly the rows of the tuples, without those
/// that `Total` holds where the target is `New`. Nothing else changes.
pub proof fn insertion_sound_and_complete(
    store: Seq<TableView>,
    target: RelationView,
    tuples: Seq<TupleView>,
)
    requires
        tuples.len() > 0,
        insert_all(store, target, tuples).is_some(),
    ensures
        find_table(store, target.id).is_some(),
        added_to(
            store,
            insert_all(store, target, tuples).unwrap(),
            find_table(store, target.id).unwrap(),
            target.version,
            tuples,
        ),
    decreases tuples.len(),
{
    find_table_sound(store, target.id);
    let front = tuples.drop_last();
    let last = tuples.last();
    let prev = insert_all(store, target, front).unwrap();
    let after = insert_all(store, target, tuples).unwrap();
    let version = target.version;
    if front.len() == 0 {
        assert(prev == store);
        let i = find_table(store, target.id).unwrap();
        let schema = store[i].declaration.schema;
        let row = row_of(last, schema).unwrap();
        assert(tuples[0] == last);
        assert forall|r: RowView| #[trigger] row_added(store, after, i, version, tuples, r) by {
            let had = version_rows(store[i], version);
            if derived_row(tuples, schema, r) {
                let j = choose|j: int|
                    0 <= j < tuples.len() && row_of(#[trigger] tuples[j], schema) == Some(r);
                assert(j == 0);
                assert(r == row);
            }
            if !(version == Version::New && store[i].total.contains(row)) {
                let now = inserted(had, row);
                if had.contains(row) {
                } else {
                    assert(now[had.len() as int] == row);
                    if now.contains(r) && r != row {
                        let k = now.index_of(r);
                        assert(had[k] == r);
                    }
                    if had.contains(r) {
                        let k = had.index_of(r);
                        assert(now[k] == r);
                    }
                }
            }
        }
        assert(added_to(store, after, i, version, tuples));
    } else {
        insertion_sound_and_complete(store, target, front);
        let i = find_table(store, target.id).unwrap();
        let schema = store[i].declaration.schema;
        assert(added_to(store, prev, i, version, front));
        lemma_find_table_same(store, prev, i, target.id);
        let row = row_of(last, schema).unwrap();
        assert(after == prev.update(i, table_put(prev[i], version, row)));
        assert(tuples[tuples.len() - 1] == last);
        assert forall|j: int| 0 <= j < tuples.len() implies row_of(
            #[trigger] tuples[j],
            schema,
        ).is_some() by {
            if j < front.len() {
                assert(front[j] == tuples[j]);
            }
        }
        assert forall|v: Version| v != version implies version_rows(after[i], v) == version_rows(
            store[i],
            v,
        ) by {
            assert(version_rows(prev[i], v) == version_rows(store[i], v));
        }
        assert(prev[i].total == store[i].total || version == Version::Total) by {
            if version != Version::Total {
                assert(version_rows(prev[i], Version::Total) == version_rows(
                    store[i],
                    Version::Total,
                ));
            }
        }
        assert forall|r: RowView| #[trigger] row_added(store, after, i, version, tuples, r) by {
            let had = version_rows(prev[i], version);
            assert(row_added(store, prev, i, version, front, r));
            if derived_row(front, schema, r) {
                let j = choose|j: int|
                    0 <= j < front.len() && row_of(#[trigger] front[j], schema) == Some(r);
                assert(tuples[j] == front[j]);
                assert(derived_row(tuples, schema, r));
            }
            if derived_row(tuples, schema, r) && !derived_row(front, schema, r) {
                let j = choose|j: int|
                    0 <= j < tuples.len() && row_of(#[trigger] tuples[j], schema) == Some(r);
                if j < front.len() {
                    assert(front[j] == tuples[j]);
                }
                assert(r == row);
            }
            if r == row {
                assert(derived_row(tuples, schema, r));
            }
            if !(version == Version::New && prev[i].total.contains(row)) {
                let now = inserted(had, row);
                if had.contains(row) {
                } else {
                    assert(now[had.len() as int] == row);
                    if now.contains(r) && r != row {
                        let k = now.index_of(r);
                        assert(had[k] == r);
                    }
                    if had.contains(r) {
                        let k = had.index_of(r);
                        assert(now[k] == r);
                    }
                }
            }
        }
        assert(added_to(store, after, i, version, tuples));
    }
}

/// A storage whose tables kept their declarations finds a relation where
/// the storage it came from finds it.
pub proof fn lemma_find_table_same(
    before: Seq<TableView>,
    after: Seq<TableView>,
    i: int,
    id: Seq<char>,
)
    requires
        0 <= i < before.len(),
        after.len() == before.len(),
        forall|k: int| 0 <= k < before.len() && k != i ==> after[k] == before[k],
        after[i].declaration == before[i].declaration,
    ensures
        find_table(after, id) == find_table(before, id),
{
    assert(after =~= before.update(i, after[i]));
    lemma_find_table_update(before, i, after[i], id);
}

/// Whether `Total` of the target of the operation holds the row of the
/// tuple `j` that the operation projects.
pub open spec fn known(
    store: Seq<TableView>,
    operation: OperationView,
    blocks: Set<Seq<u8>>,
    j: int,
) -> bool {
    let i = find_table(store, operation_target(operation).id).unwrap();
    let row = row_of(eval(operation, seq![], store, blocks).unwrap()[j], store[i].declaration.schema);
    row.is_some() && store[i].total.contains(row.unwrap())
}

/// A round that leaves `New` empty derived nothing new: where an operation
/// whose target is `New` of a relation is run and `New` is empty afterwards,
/// every tuple that the operation projected is a row that `Total` of the
/// relation holds. The exit of a loop tests just this of every relation of
/// its stratum, so when a loop is left, each of its rewrites has derived
/// only what `Total` held already.
pub proof fn empty_round_is_fixpoint(
    store: Seq<TableView>,
    operation: OperationView,
    blocks: Set<Seq<u8>>,
)
    requires
        operation_target(operation).version == Version::New,
        after_operation(store, operation, blocks).is_some(),
        find_table(store, operation_target(operation).id) matches Some(i)
            && after_operation(store, operation, blocks).unwrap()[i].new.len() == 0,
    ensures
        forall|j: int|
            0 <= j < eval(operation, seq![], store, blocks).unwrap().len() ==> #[trigger] known(
                store,
                operation,
                blocks,
                j,
            ),
{
    let tuples = eval(operation, seq![], store, blocks).unwrap();
    let target = operation_target(operation);
    let i = find_table(store, target.id).unwrap();
    let after = after_operation(store, operation, blocks).unwrap();
    if tuples.len() > 0 {
        insertion_sound_and_complete(store, target, tuples);
        assert forall|j: int| 0 <= j < tuples.len() implies #[trigger] known(
            store,
            operation,
            blocks,
            j,
        ) by {
            let row = row_of(tuples[j], store[i].declaration.schema).unwrap();
            assert(derived_row(tuples, store[i].declaration.schema, row));
            assert(row_added(store, after, i, Version::New, tuples, row));
            if !store[i].total.contains(row) {
                assert(version_rows(after[i], Version::New).contains(row));
                let k = after[i].new.index_of(row);
                assert(after[i].new[k] == row);
            }
        }
    }
}


/// Whether the operation projects `tuple` by way of `rows`, one row for each
/// of its searches, the outermost first: each search finds its row in its
/// relation and takes it, its conditions hold under the rows so far, each
/// aggregation has a result under which its conditions hold, and the
/// projection makes the tuple of what is bound then.
pub open spec fn derives(
    operation: OperationView,
    rows: Seq<RowView>,
    bindings: Seq<BoundView>,
    store: Seq<TableView>,
    blocks: Set<Seq<u8>>,
    tuple: TupleView,
) -> bool
    decreases operation,
{
    match operation {
        OperationView::Project { attributes, into } => {
            &&& rows.len() == 0
            &&& crate::runtime::eval::key_of(attributes, bindings).is_some()
            &&& tuple == (TupleView {
                id: into.id,
                cols: crate::runtime::eval::key_of(attributes, bindings).unwrap(),
                cid: None,
            })
        },
        OperationView::Search { relation, alias, by_cid, when, operation } => {
            let found = find_table(store, relation.id);
            let bound = bind_row(
                bindings,
                relation.id,
                alias,
                store[found.unwrap()].declaration.schema,
                rows[0],
            );
            &&& rows.len() > 0
            &&& found.is_some()
            &&& version_rows(store[found.unwrap()], relation.version).contains(rows[0])
            &&& admitted(by_cid, rows[0], blocks)
            &&& formulas_hold(when, bound, store) == Some(true)
            &&& derives(*operation, rows.drop_first(), bound, store, blocks, tuple)
        },
        OperationView::Aggregation {
            relation,
            alias,
            when,
            group_by_cols,
            args,
            init,
            target,
            reducer,
            operation,
        } => {
            let result = crate::runtime::eval::aggregate(
                relation,
                alias,
                group_by_cols,
                args,
                init,
                reducer,
                bindings,
                store,
            );
            let bound = bindings.push(
                BoundView {
                    term: crate::ram::TermView::Agg { relation: relation.id, alias, var: target },
                    value: result->Ok_0.unwrap(),
                },
            );
            &&& result matches Ok(Some(_))
            &&& formulas_hold(when, bound, store) == Some(true)
            &&& derives(*operation, rows, bound, store, blocks, tuple)
        },
    }
}

/// Whether the operation projects `tuple` by way of some rows.
pub open spec fn derivable(
    operation: OperationView,
    bindings: Seq<BoundView>,
    store: Seq<TableView>,
    blocks: Set<Seq<u8>>,
    tuple: TupleView,
) -> bool {
    exists|rows: Seq<RowView>| #[trigger] derives(operation, rows, bindings, store, blocks, tuple)
}

/// Evaluation is sound and complete: an operation projects a tuple exactly
/// when there are rows, one in the relation of each of its searches, that
/// satisfy its conditions and give the tuple. So every tuple that a rule
/// derives has body tuples that satisfy the rule under the facts it is
/// evaluated on, and every tuple that has such body tuples is derived.
pub proof fn eval_sound_and_complete(
    operation: OperationView,
    bindings: Seq<BoundView>,
    store: Seq<TableView>,
    blocks: Set<Seq<u8>>,
    tuple: TupleView,
)
    requires
        eval(operation, bindings, store, blocks).is_some(),
    ensures
        eval(operation, bindings, store, blocks).unwrap().contains(tuple) <==> derivable(
            operation,
            bindings,
            store,
            blocks,
            tuple,
        ),
    decreases operation, 0nat,
{
    let out = eval(operation, bindings, store, blocks).unwrap();
    match operation {
        OperationView::Project { attributes, into } => {
            let cols = crate::runtime::eval::key_of(attributes, bindings).unwrap();
            let made = TupleView { id: into.id, cols, cid: None };
            assert(out =~= seq![made]);
            if out.contains(tuple) {
                let k = out.index_of(tuple);
                assert(out[k] == made);
                assert(derives(operation, Seq::<RowView>::empty(), bindings, store, blocks, tuple));
            }
            if derivable(operation, bindings, store, blocks, tuple) {
                assert(out[0] == tuple);
            }
        },
        OperationView::Search { relation, alias, by_cid, when, operation: inner } => {
            find_table_sound(store, relation.id);
            let i = find_table(store, relation.id).unwrap();
            let search = SearchView {
                relation: relation.id,
                alias,
                by_cid,
                when,
                schema: store[i].declaration.schema,
            };
            let all = version_rows(store[i], relation.version);
            search_sound_and_complete(*inner, search, all, bindings, store, blocks, tuple);
            if out.contains(tuple) {
                let j = choose|j: int|
                    0 <= j < all.len() && row_yields(
                        *inner,
                        search,
                        #[trigger] all[j],
                        bindings,
                        store,
                        blocks,
                        tuple,
                    );
                let bound = bind_row(bindings, search.relation, alias, search.schema, all[j]);
                eval_sound_and_complete(*inner, bound, store, blocks, tuple);
                let rest = choose|rows: Seq<RowView>|
                    #[trigger] derives(*inner, rows, bound, store, blocks, tuple);
                let rows = seq![all[j]] + rest;
                assert(rows[0] == all[j]);
                assert(rows.drop_first() =~= rest);
                assert(derives(operation, rows, bindings, store, blocks, tuple));
            }
            if derivable(operation, bindings, store, blocks, tuple) {
                let rows = choose|rows: Seq<RowView>|
                    #[trigger] derives(operation, rows, bindings, store, blocks, tuple);
                let bound = bind_row(bindings, search.relation, alias, search.schema, rows[0]);
                let j = all.index_of(rows[0]);
                assert(all[j] == rows[0]);
                lemma_row_evaluates(*inner, search, all, j, bindings, store, blocks);
                eval_sound_and_complete(*inner, bound, store, blocks, tuple);
                assert(derives(*inner, rows.drop_first(), bound, store, blocks, tuple));
                assert(derivable(*inner, bound, store, blocks, tuple));
                assert(row_yields(*inner, search, all[j], bindings, store, blocks, tuple));
                assert(some_row_yields(*inner, search, all, bindings, store, blocks, tuple));
            }
        },
        OperationView::Aggregation {
            relation,
            alias,
            when,
            group_by_cols,
            args,
            init,
            target,
            reducer,
            operation: inner,
        } => {
            let result = crate::runtime::eval::aggregate(
                relation,
                alias,
                group_by_cols,
                args,
                init,
                reducer,
                bindings,
                store,
            );
            match result {
                Ok(Some(value)) => {
                    let bound = bindings.push(
                        BoundView {
                            term: crate::ram::TermView::Agg {
                                relation: relation.id,
                                alias,
                                var: target,
                            },
                            value,
                        },
                    );
                    if formulas_hold(when, bound, store) == Some(true) {
                        eval_sound_and_complete(*inner, bound, store, blocks, tuple);
                        if out.contains(tuple) {
                            let rows = choose|rows: Seq<RowView>|
                                #[trigger] derives(*inner, rows, bound, store, blocks, tuple);
                            assert(derives(operation, rows, bindings, store, blocks, tuple));
                        }
                        if derivable(operation, bindings, store, blocks, tuple) {
                            let rows = choose|rows: Seq<RowView>|
                                #[trigger] derives(operation, rows, bindings, store, blocks, tuple);
                            assert(derives(*inner, rows, bound, store, blocks, tuple));
                        }
                    } else {
                        assert(out =~= Seq::<TupleView>::empty());
                    }
                },
                _ => {
                    assert(out =~= Seq::<TupleView>::empty());
                },
            }
        },
    }
}

/// Where a search has a result over its rows, the operation nested in it
/// has a result under each row that the search takes and under which its
/// conditions hold.
pub proof fn lemma_row_evaluates(
    inner: OperationView,
    search: SearchView,
    rows: Seq<RowView>,
    j: int,
    bindings: Seq<BoundView>,
    store: Seq<TableView>,
    blocks: Set<Seq<u8>>,
)
    requires
        0 <= j < rows.len(),
        search_rows(inner, search, rows, bindings, store, blocks).is_some(),
        admitted(search.by_cid, rows[j], blocks),
        formulas_hold(
            search.when,
            bind_row(bindings, search.relation, search.alias, search.schema, rows[j]),
            store,
        ) == Some(true),
    ensures
        eval(
            inner,
            bind_row(bindings, search.relation, search.alias, search.schema, rows[j]),
            store,
            blocks,
        ).is_some(),
    decreases rows.len(),
{
    if j < rows.len() - 1 {
        assert(rows.drop_last()[j] == rows[j]);
        lemma_row_evaluates(inner, search, rows.drop_last(), j, bindings, store, blocks);
    } else {
        assert(rows.last() == rows[j]);
    }
}

} // verus!
