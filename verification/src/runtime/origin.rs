//! Where the rows of the storage come from: a step of the machine adds a
//! row to a relation only if the row was queued as input for it, is in
//! another version of it already, or is the row of a tuple that the
//! insertion at the program counter derived. So every row that a relation
//! holds at the end of an epoch was there at its start, was queued as input,
//! or was derived at one of the steps of the epoch.

use vstd::prelude::*;
use crate::ram::{operation_target, StatementView, Version};
use crate::runtime::blockstore::held_set;
use crate::runtime::eval::eval;
use crate::runtime::laws::{added_to, derived_row, insertion_sound_and_complete, row_added};
use crate::ram::RelationView;
use crate::runtime::vm::{
    after_insert, after_statement, after_step, ends_after, inputs_valid, insert_all,
    lemma_step_frame, loaded, stepped, take_input, InputView, VMView,
};
use crate::storage::{
    find_table, find_table_sound, merged, store_merge, version_rows, RowView, TableView,
};
use crate::tuple::TupleView;

verus! {

/// Whether the table `i` holds `row` in one of its versions.
pub open spec fn holds_row(store: Seq<TableView>, i: int, row: RowView) -> bool {
    store[i].total.contains(row) || store[i].delta.contains(row) || store[i].new.contains(row)
}

/// Whether `row` is queued as input for the table `i`.
pub open spec fn queued_for(input: Seq<InputView>, i: int, row: RowView) -> bool {
    exists|k: int| 0 <= k < input.len() && (#[trigger] input[k]).table == i && input[k].row == row
}

/// Whether the statement is an insertion into the table `i` that derives
/// `row`: its operation projects a tuple whose row under the schema of the
/// table it is.
pub open spec fn derived_by(
    statement: StatementView,
    store: Seq<TableView>,
    blocks: Set<Seq<u8>>,
    i: int,
    row: RowView,
) -> bool {
    &&& statement is Insert
    &&& find_table(store, operation_target(statement->Insert_operation).id) == Some(i)
    &&& eval(statement->Insert_operation, seq![], store, blocks).is_some()
    &&& derived_row(
        eval(statement->Insert_operation, seq![], store, blocks).unwrap(),
        store[i].declaration.schema,
        row,
    )
}

/// Whether `row` has an origin in the table `i`: the table held it, it was
/// queued as input for the table, or the statement derives it into the
/// table.
pub open spec fn has_origin(vm: VMView, statement: StatementView, i: int, row: RowView) -> bool {
    ||| holds_row(vm.store, i, row)
    ||| queued_for(vm.input, i, row)
    ||| derived_by(statement, vm.store, held_set(vm.held), i, row)
}

/// Taking the queued inputs in adds only rows that were queued, each to its
/// table.
pub proof fn lemma_take_input(store: Seq<TableView>, input: Seq<InputView>, i: int, row: RowView)
    requires
        inputs_valid(store, input),
        0 <= i < store.len(),
        holds_row(take_input(store, input), i, row),
    ensures
        take_input(store, input).len() == store.len(),
        holds_row(store, i, row) || queued_for(input, i, row),
    decreases input.len(),
{
    lemma_take_input_len(store, input);
    if input.len() > 0 {
        let front = input.drop_last();
        let last = input.last();
        let prev = take_input(store, front);
        assert forall|k: int| 0 <= k < front.len() implies 0 <= (#[trigger] front[k]).table
            < store.len() && crate::storage::conforms(
            store[front[k].table].declaration.schema,
            front[k].row,
        ) by {
            assert(front[k] == input[k]);
        }
        lemma_take_input_len(store, front);
        assert(input[input.len() - 1] == last);
        let now = take_input(store, input);
        if i == last.table {
            let had = prev[i].delta;
            if holds_row(prev, i, row) {
                lemma_take_input(store, front, i, row);
                if queued_for(front, i, row) {
                    let k = choose|k: int|
                        0 <= k < front.len() && (#[trigger] front[k]).table == i && front[k].row
                            == row;
                    assert(input[k] == front[k]);
                }
            } else {
                assert(now[i].delta.contains(row));
                let k = now[i].delta.index_of(row);
                if k < had.len() {
                    assert(had[k] == row);
                }
                assert(row == last.row);
            }
        } else {
            assert(now[i] == prev[i]);
            lemma_take_input(store, front, i, row);
            if queued_for(front, i, row) {
                let k = choose|k: int|
                    0 <= k < front.len() && (#[trigger] front[k]).table == i && front[k].row == row;
                assert(input[k] == front[k]);
            }
        }
    }
}

/// Taking the queued inputs in keeps the tables.
pub proof fn lemma_take_input_len(store: Seq<TableView>, input: Seq<InputView>)
    requires
        inputs_valid(store, input),
    ensures
        take_input(store, input).len() == store.len(),
    decreases input.len(),
{
    if input.len() > 0 {
        assert forall|k: int| 0 <= k < input.drop_last().len() implies 0 <= (
        #[trigger] input.drop_last()[k]).table < store.len() && crate::storage::conforms(
            store[input.drop_last()[k].table].declaration.schema,
            input.drop_last()[k].row,
        ) by {
            assert(input.drop_last()[k] == input[k]);
        }
        lemma_take_input_len(store, input.drop_last());
        assert(0 <= input[input.len() - 1].table < store.len());
    }
}

/// Every row has an origin: where a statement is run, each row that a
/// table holds afterwards was held by the table before, was queued as input
/// for it, or is derived into it by the statement, which is an insertion
/// then. Nothing else puts a row into a relation.
pub proof fn every_row_has_an_origin(
    vm: VMView,
    statement: StatementView,
    held: Seq<Seq<u8>>,
    i: int,
    row: RowView,
)
    requires
        inputs_valid(vm.store, vm.input),
        after_statement(vm, statement, held).is_some(),
        0 <= i < after_statement(vm, statement, held).unwrap().0.store.len(),
        holds_row(after_statement(vm, statement, held).unwrap().0.store, i, row),
    ensures
        after_statement(vm, statement, held).unwrap().0.store.len() == vm.store.len(),
        has_origin(vm, statement, i, row),
{
    let store = vm.store;
    let blocks = held_set(vm.held);
    match statement {
        StatementView::Insert { operation, is_ground } => {
            let after = after_insert(store, vm.timestamp, operation, is_ground, blocks).unwrap();
            find_table_sound(after, operation_target(operation).id);
            if is_ground && !vm.timestamp.in_first_epoch() {
            } else {
                let tuples = eval(operation, seq![], store, blocks).unwrap();
                let target = operation_target(operation);
                if tuples.len() > 0 {
                    insertion_sound_and_complete(store, target, tuples);
                    let at = find_table(store, target.id).unwrap();
                    assert(added_to(store, after, at, target.version, tuples));
                    if i == at {
                        if !holds_row(store, i, row) {
                            assert(version_rows(after[i], target.version).contains(row)) by {
                                assert(version_rows(after[i], Version::Total) == after[i].total);
                                assert(version_rows(after[i], Version::Delta) == after[i].delta);
                                assert(version_rows(after[i], Version::New) == after[i].new);
                                if target.version != Version::Total {
                                    assert(version_rows(after[i], Version::Total) == version_rows(
                                        store[i],
                                        Version::Total,
                                    ));
                                }
                                if target.version != Version::Delta {
                                    assert(version_rows(after[i], Version::Delta) == version_rows(
                                        store[i],
                                        Version::Delta,
                                    ));
                                }
                                if target.version != Version::New {
                                    assert(version_rows(after[i], Version::New) == version_rows(
                                        store[i],
                                        Version::New,
                                    ));
                                }
                            }
                            assert(row_added(store, after, at, target.version, tuples, row));
                            assert(derived_by(statement, store, blocks, i, row));
                        }
                    }
                }
            }
        },
        StatementView::Merge { from, into } => {
            find_table_sound(store, into.id);
            let at = find_table(store, into.id).unwrap();
            let after = crate::storage::store_merge(store, from, into).unwrap();
            find_table_sound(after, into.id);
            if i == at && version_rows(after[i], into.version).contains(row) {
                let target = version_rows(store[at], into.version);
                let source = version_rows(store[at], from.version);
                lemma_merged_members(target, source, row);
            }
        },
        StatementView::Swap { left, right } => {
            find_table_sound(store, left.id);
        },
        StatementView::Purge { relation } => {
            find_table_sound(store, relation.id);
        },
        StatementView::Exit { .. } => {},
        StatementView::Loop { .. } => {},
        StatementView::Sources => {
            lemma_take_input_len(store, vm.input);
            lemma_take_input(store, vm.input, i, row);
        },
        StatementView::Sinks => {},
    }
}

/// What a merge holds was held by one of the two sets.
pub proof fn lemma_merged_members(into: Seq<RowView>, from: Seq<RowView>, row: RowView)
    requires
        merged(into, from).contains(row),
    ensures
        into.contains(row) || from.contains(row),
    decreases from.len(),
{
    if from.len() > 0 {
        let prev = merged(into, from.drop_last());
        let now = merged(into, from);
        if prev.contains(row) {
            lemma_merged_members(into, from.drop_last(), row);
            if from.drop_last().contains(row) {
                let k = from.drop_last().index_of(row);
                assert(from[k] == row);
            }
        } else {
            let k = now.index_of(row);
            if k < prev.len() {
                assert(prev[k] == row);
            }
            assert(row == from.last());
            assert(from[from.len() - 1] == row);
        }
    }
}

/// A step of the machine gives every row an origin: each row that a table
/// holds after the step was held by the table before, was queued as input
/// for it, or is derived into it by the insertion that the program counter
/// was at.
pub proof fn a_step_gives_every_row_an_origin(vm: VMView, held: Seq<Seq<u8>>, i: int, row: RowView)
    requires
        inputs_valid(vm.store, vm.input),
        after_step(vm, held).is_some(),
        0 <= i < after_step(vm, held).unwrap().0.store.len(),
        holds_row(after_step(vm, held).unwrap().0.store, i, row),
    ensures
        loaded(vm.statements, vm.pc).is_some(),
        has_origin(vm, loaded(vm.statements, vm.pc).unwrap(), i, row),
{
    let statement = loaded(vm.statements, vm.pc).unwrap();
    every_row_has_an_origin(vm, statement, held, i, row);
}

/// Whether `b` has the tables of `a`, with the same declarations.
pub open spec fn same_tables(a: Seq<TableView>, b: Seq<TableView>) -> bool {
    a.len() == b.len() && forall|i: int|
        0 <= i < a.len() ==> (#[trigger] b[i]).declaration == a[i].declaration
}

/// Putting tuples into a relation keeps the tables and their declarations.
pub proof fn lemma_insert_all_tables(
    store: Seq<TableView>,
    target: RelationView,
    tuples: Seq<TupleView>,
)
    requires
        insert_all(store, target, tuples).is_some(),
    ensures
        same_tables(store, insert_all(store, target, tuples).unwrap()),
    decreases tuples.len(),
{
    if tuples.len() > 0 {
        lemma_insert_all_tables(store, target, tuples.drop_last());
        let prev = insert_all(store, target, tuples.drop_last()).unwrap();
        find_table_sound(prev, target.id);
    }
}

/// Taking the queued inputs in keeps the tables and their declarations.
pub proof fn lemma_take_input_tables(store: Seq<TableView>, input: Seq<InputView>)
    requires
        inputs_valid(store, input),
    ensures
        same_tables(store, take_input(store, input)),
    decreases input.len(),
{
    if input.len() > 0 {
        assert forall|k: int| 0 <= k < input.drop_last().len() implies 0 <= (
        #[trigger] input.drop_last()[k]).table < store.len() && crate::storage::conforms(
            store[input.drop_last()[k].table].declaration.schema,
            input.drop_last()[k].row,
        ) by {
            assert(input.drop_last()[k] == input[k]);
        }
        lemma_take_input_tables(store, input.drop_last());
        assert(0 <= input[input.len() - 1].table < store.len());
    }
}

/// Queued inputs that fit a storage fit one with the same tables.
pub proof fn lemma_inputs_fit(a: Seq<TableView>, b: Seq<TableView>, input: Seq<InputView>)
    requires
        same_tables(a, b),
        inputs_valid(a, input),
    ensures
        inputs_valid(b, input),
{
    assert forall|k: int| 0 <= k < input.len() implies 0 <= (#[trigger] input[k]).table < b.len()
        && crate::storage::conforms(b[input[k].table].declaration.schema, input[k].row) by {
        assert(b[input[k].table].declaration == a[input[k].table].declaration);
    }
}

/// A step of the machine keeps the tables and their declarations, and the
/// queued inputs fit them as before.
pub proof fn lemma_step_tables(vm: VMView, held: Seq<Seq<u8>>)
    requires
        inputs_valid(vm.store, vm.input),
        after_step(vm, held).is_some(),
    ensures
        same_tables(vm.store, after_step(vm, held).unwrap().0.store),
        inputs_valid(after_step(vm, held).unwrap().0.store, after_step(vm, held).unwrap().0.input),
{
    let statement = loaded(vm.statements, vm.pc).unwrap();
    let next = after_step(vm, held).unwrap().0;
    match statement {
        StatementView::Insert { operation, is_ground } => {
            let store = after_insert(
                vm.store,
                vm.timestamp,
                operation,
                is_ground,
                held_set(vm.held),
            ).unwrap();
            if !(is_ground && !vm.timestamp.in_first_epoch()) {
                lemma_insert_all_tables(
                    vm.store,
                    operation_target(operation),
                    eval(operation, seq![], vm.store, held_set(vm.held)).unwrap(),
                );
            }
            find_table_sound(store, operation_target(operation).id);
            assert(same_tables(vm.store, next.store));
        },
        StatementView::Merge { from, into } => {
            find_table_sound(vm.store, into.id);
            let store = store_merge(vm.store, from, into).unwrap();
            find_table_sound(store, into.id);
            assert(same_tables(vm.store, next.store));
        },
        StatementView::Swap { left, right } => {
            find_table_sound(vm.store, left.id);
            assert(same_tables(vm.store, next.store));
        },
        StatementView::Purge { relation } => {
            find_table_sound(vm.store, relation.id);
            assert(same_tables(vm.store, next.store));
        },
        StatementView::Sources => {
            lemma_take_input_tables(vm.store, vm.input);
            assert(same_tables(vm.store, next.store));
        },
        StatementView::Sinks => {
            assert(same_tables(vm.store, next.store));
        },
        StatementView::Exit { .. } => {
            assert(same_tables(vm.store, next.store));
        },
        StatementView::Loop { .. } => {},
    }
    lemma_step_frame(vm, held);
    if next.input == vm.input {
        lemma_inputs_fit(vm.store, next.store, vm.input);
    }
}

/// Steps of the machine keep the tables and their declarations; the queued
/// inputs are those of the start or none, and fit the tables.
pub proof fn lemma_run_tables(vm: VMView, helds: Seq<Seq<Seq<u8>>>)
    requires
        inputs_valid(vm.store, vm.input),
        stepped(vm, helds).is_some(),
    ensures
        same_tables(vm.store, stepped(vm, helds).unwrap().store),
        inputs_valid(stepped(vm, helds).unwrap().store, stepped(vm, helds).unwrap().input),
        stepped(vm, helds).unwrap().input == vm.input || stepped(vm, helds).unwrap().input.len()
            == 0,
    decreases helds.len(),
{
    if helds.len() > 0 {
        lemma_run_tables(vm, helds.drop_last());
        let prev = stepped(vm, helds.drop_last()).unwrap();
        lemma_step_tables(prev, helds.last());
        lemma_step_frame(prev, helds.last());
        let next = stepped(vm, helds).unwrap();
        assert forall|i: int| 0 <= i < vm.store.len() implies (#[trigger] next.store[i]).declaration
            == vm.store[i].declaration by {
            assert(prev.store[i].declaration == vm.store[i].declaration);
        }
    }
}

/// Whether the step `k` of the steps from `vm` derives `row` into the table
/// `i`: the machine that the steps before it lead to is at an insertion into
/// the table that derives the row. The step `k` left `helds[k]` held.
pub open spec fn derived_at(vm: VMView, helds: Seq<Seq<Seq<u8>>>, k: int, i: int, row: RowView) -> bool {
    let at = stepped(vm, helds.take(k)).unwrap();
    &&& 0 <= k <= helds.len()
    &&& stepped(vm, helds.take(k)).is_some()
    &&& loaded(at.statements, at.pc).is_some()
    &&& derived_by(loaded(at.statements, at.pc).unwrap(), at.store, held_set(at.held), i, row)
}

/// Whether one of the steps from `vm`, or the step after them, derives `row`
/// into the table `i`.
pub open spec fn derived_on_the_way(vm: VMView, helds: Seq<Seq<Seq<u8>>>, i: int, row: RowView) -> bool {
    exists|k: int| #[trigger] derived_at(vm, helds, k, i, row)
}

/// Every row that a table holds after steps of the machine was held by the
/// table before them, was queued as input for it, or was derived into it by
/// one of the steps.
pub proof fn lemma_run_origin(vm: VMView, helds: Seq<Seq<Seq<u8>>>, i: int, row: RowView)
    requires
        inputs_valid(vm.store, vm.input),
        stepped(vm, helds).is_some(),
        0 <= i < vm.store.len(),
        holds_row(stepped(vm, helds).unwrap().store, i, row),
    ensures
        holds_row(vm.store, i, row) || queued_for(vm.input, i, row) || exists|k: int|
            0 <= k < helds.len() && #[trigger] derived_at(vm, helds, k, i, row),
    decreases helds.len(),
{
    if helds.len() > 0 {
        let front = helds.drop_last();
        let prev = stepped(vm, front).unwrap();
        lemma_run_tables(vm, front);
        lemma_step_tables(prev, helds.last());
        a_step_gives_every_row_an_origin(prev, helds.last(), i, row);
        let statement = loaded(prev.statements, prev.pc).unwrap();
        if holds_row(prev.store, i, row) {
            lemma_run_origin(vm, front, i, row);
            if exists|k: int| 0 <= k < front.len() && #[trigger] derived_at(vm, front, k, i, row) {
                let k = choose|k: int|
                    0 <= k < front.len() && #[trigger] derived_at(vm, front, k, i, row);
                assert(front.take(k) =~= helds.take(k));
                assert(derived_at(vm, helds, k, i, row));
            }
        } else if queued_for(prev.input, i, row) {
        } else {
            let k = helds.len() - 1;
            assert(helds.take(k) =~= front);
            assert(derived_at(vm, helds, k, i, row));
        }
    }
}

/// Every row of an epoch has an origin. Let the epoch that a machine is in
/// end: some steps go on within it, and one more step stops or enters the
/// next epoch. Then every row that a relation holds at the end, in any of its
/// versions, was held by the relation at the start, was queued as input for
/// it, or was derived into it at one of these steps by the insertion that the
/// program counter was at then. Nothing else is in a relation.
pub proof fn every_row_of_an_epoch_has_an_origin(
    vm: VMView,
    helds: Seq<Seq<Seq<u8>>>,
    end: VMView,
    i: int,
    row: RowView,
)
    requires
        inputs_valid(vm.store, vm.input),
        ends_after(vm, helds, end),
        0 <= i < vm.store.len(),
        holds_row(end.store, i, row),
    ensures
        holds_row(vm.store, i, row) || queued_for(vm.input, i, row) || derived_on_the_way(
            vm,
            helds,
            i,
            row,
        ),
{
    let last = stepped(vm, helds).unwrap();
    lemma_run_tables(vm, helds);
    lemma_step_tables(last, end.held);
    a_step_gives_every_row_an_origin(last, end.held, i, row);
    if holds_row(last.store, i, row) {
        lemma_run_origin(vm, helds, i, row);
        if exists|k: int| 0 <= k < helds.len() && #[trigger] derived_at(vm, helds, k, i, row) {
            let k = choose|k: int| 0 <= k < helds.len() && #[trigger] derived_at(vm, helds, k, i, row);
            assert(derived_at(vm, helds, k, i, row));
        }
    } else if queued_for(last.input, i, row) {
    } else {
        let k = helds.len() as int;
        assert(helds.take(k) =~= helds);
        assert(derived_at(vm, helds, k, i, row));
    }
}

} // verus!
