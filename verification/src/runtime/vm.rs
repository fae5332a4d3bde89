//! The machine: a program counter over the statements of a program, a
//! logical clock, an input and an output queue, and the storage.

use std::collections::VecDeque;
use vstd::prelude::*;
use crate::error::{Error, ErrorView};
use crate::ram::{
    loop_view, operation_target, statement_views, Operation, OperationView, Program, Relation,
    RelationView, Statement, StatementView, Version,
};
use crate::runtime::blockstore::{held_set, Blockstore};
use crate::runtime::eval::{eval, eval_operation, Bound};
use crate::logic::ast::Source;
use crate::storage::{pending_at, sunk_at};
use crate::storage::{
    conforms, pending_output, store_all_empty, store_grows, store_insert, store_merge,
    store_purge, store_sunk, store_swap, store_wf, table_grows, table_put, Row, RowView, Storage,
    TableView,
};
use crate::timestamp::Timestamp;
use crate::tuple::{Tuple, TupleView};
use crate::value::{views, Cid};

verus! {

/// A queued input: a row for `Delta` of the table at `table`.
pub struct Input {
    pub table: usize,
    pub row: Row,
}

/// The mathematical content of an [`Input`].
pub struct InputView {
    pub table: int,
    pub row: RowView,
}

impl View for Input {
    type V = InputView;

    open spec fn view(&self) -> InputView {
        InputView { table: self.table as int, row: self.row@ }
    }
}

/// The machine.
pub struct VM {
    timestamp: Timestamp,
    pc: (usize, Option<usize>),
    input: VecDeque<Input>,
    output: VecDeque<Tuple>,
    fresh: Vec<Tuple>,
    program: Program,
    storage: Storage,
    held: Vec<Cid>,
}

/// The mathematical content of a [`VM`].
pub struct VMView {
    pub timestamp: Timestamp,
    pub pc: (usize, Option<usize>),
    pub input: Seq<InputView>,
    pub output: Seq<TupleView>,
    /// The tuples that were derived since the sinks ran, in the order in
    /// which they were derived.
    pub fresh: Seq<TupleView>,
    pub statements: Seq<StatementView>,
    pub store: Seq<TableView>,
    /// The content identifiers of the input facts that the blockstore held
    /// when they were taken in.
    pub held: Seq<Seq<u8>>,
}

impl View for VM {
    type V = VMView;

    closed spec fn view(&self) -> VMView {
        VMView {
            timestamp: self.timestamp,
            pc: self.pc,
            input: views(self.input@),
            output: views(self.output@),
            fresh: views(self.fresh@),
            statements: statement_views(self.program.statements@),
            store: self.storage@,
            held: views(self.held@),
        }
    }
}

/// Whether every queued input is a row that fits an input relation of the
/// storage.
pub open spec fn inputs_valid(store: Seq<TableView>, input: Seq<InputView>) -> bool {
    forall|k: int|
        0 <= k < input.len() ==> 0 <= (#[trigger] input[k]).table < store.len() && conforms(
            store[input[k].table].declaration.schema,
            input[k].row,
        )
}

/// The statement that the program counter is at: a statement of the program,
/// or a statement of the body of the loop that it is in. `None` where the
/// counter is past the end of the program or of the loop, or is at a loop
/// without being in it.
pub open spec fn loaded(statements: Seq<StatementView>, pc: (usize, Option<usize>)) -> Option<
    StatementView,
> {
    if pc.0 >= statements.len() {
        None
    } else {
        match statements[pc.0 as int] {
            StatementView::Loop { body } => match pc.1 {
                Some(inner) => if inner < body.len() {
                    Some(body[inner as int])
                } else {
                    None
                },
                None => None,
            },
            statement => Some(statement),
        }
    }
}

/// The program counter after a step. Outside a loop it moves to the next
/// statement, round to the first after the last, and enters the loop that
/// it meets. Inside a loop it moves to the next statement of the body, round
/// to the first after the last. `None` where it is past the end of the
/// program, or inside what is no loop or has no body.
pub open spec fn next_pc(statements: Seq<StatementView>, pc: (usize, Option<usize>)) -> Option<
    (usize, Option<usize>),
> {
    if pc.0 >= statements.len() {
        None
    } else {
        match pc.1 {
            None => {
                let next = ((pc.0 + 1) % (statements.len() as int)) as usize;
                if pc.0 + 1 < statements.len() && statements[pc.0 + 1] is Loop {
                    Some((next, Some(0usize)))
                } else {
                    Some((next, None))
                }
            },
            Some(inner) => match statements[pc.0 as int] {
                StatementView::Loop { body } => if inner < body.len() {
                    Some((pc.0, Some(((inner + 1) % (body.len() as int)) as usize)))
                } else {
                    None
                },
                _ => None,
            },
        }
    }
}

/// The clock after a step that took the program counter to `pc`: the next
/// epoch where the counter is back at the first statement, the next
/// iteration where it is at the first statement of a loop. `None` where the
/// clock cannot count further.
pub open spec fn next_time(timestamp: Timestamp, pc: (usize, Option<usize>)) -> Option<Timestamp> {
    if pc.0 == 0 {
        if timestamp.epoch < u64::MAX {
            Some(
                Timestamp {
                    clock: timestamp.clock,
                    epoch: (timestamp.epoch + 1) as u64,
                    iteration: 0,
                },
            )
        } else {
            None
        }
    } else if pc.1 == Some(0usize) {
        if timestamp.iteration < u64::MAX {
            Some(Timestamp { iteration: (timestamp.iteration + 1) as u64, ..timestamp })
        } else {
            None
        }
    } else {
        Some(timestamp)
    }
}

/// The storage after the tuples are put into `target`, in order: `None`
/// where one of them cannot be put.
pub open spec fn insert_all(store: Seq<TableView>, target: RelationView, tuples: Seq<TupleView>) -> Option<
    Seq<TableView>,
>
    decreases tuples.len(),
{
    if tuples.len() == 0 {
        Some(store)
    } else {
        match insert_all(store, target, tuples.drop_last()) {
            Some(prev) => store_insert(prev, target, tuples.last()),
            None => None,
        }
    }
}

/// The storage after the queued inputs are put into `Delta` of their
/// tables, in order.
pub open spec fn take_input(store: Seq<TableView>, input: Seq<InputView>) -> Seq<TableView>
    decreases input.len(),
{
    if input.len() == 0 {
        store
    } else {
        let prev = take_input(store, input.drop_last());
        prev.update(
            input.last().table,
            table_put(prev[input.last().table], Version::Delta, input.last().row),
        )
    }
}

/// The queued input that a pushed fact becomes: it must be a fact of a
/// declared input relation and fit its schema.
pub open spec fn accepted(store: Seq<TableView>, fact: TupleView) -> Option<InputView> {
    match crate::storage::find_table(store, fact.id) {
        Some(i) => if store[i].declaration.source == Source::Edb {
            match crate::storage::row_of(fact, store[i].declaration.schema) {
                Some(row) => Some(InputView { table: i, row }),
                None => None,
            }
        } else {
            None
        },
        None => None,
    }
}

/// What an operation does to the storage: the tuples that it projects are
/// put into its target. `None` where the operation has no result or a tuple
/// cannot be put.
pub open spec fn after_operation(
    store: Seq<TableView>,
    operation: OperationView,
    blocks: Set<Seq<u8>>,
) -> Option<Seq<TableView>> {
    match eval(operation, seq![], store, blocks) {
        Some(tuples) => insert_all(store, operation_target(operation), tuples),
        None => None,
    }
}

/// What an insertion does to the storage: a ground insertion does nothing
/// after the first epoch; otherwise the tuples that the operation projects
/// are put into its target. `None` where the operation has no result or a
/// tuple cannot be put.
pub open spec fn after_insert(
    store: Seq<TableView>,
    timestamp: Timestamp,
    operation: OperationView,
    is_ground: bool,
    blocks: Set<Seq<u8>>,
) -> Option<Seq<TableView>> {
    if is_ground && !timestamp.in_first_epoch() {
        Some(store)
    } else {
        after_operation(store, operation, blocks)
    }
}

/// Whether `after` is `before` with content identifiers of queued inputs
/// added at its end, each of them one that was not held before it was
/// added.
pub open spec fn held_extends(before: Seq<Seq<u8>>, after: Seq<Seq<u8>>, input: Seq<InputView>) -> bool {
    &&& before.len() <= after.len()
    &&& after.take(before.len() as int) == before
    &&& forall|k: int|
        before.len() <= k < after.len() ==> exists|j: int|
            0 <= j < input.len() && (#[trigger] input[j]).row.cid == Some(#[trigger] after[k])
    &&& forall|k: int| before.len() <= k < after.len() ==> !after.take(k).contains(#[trigger] after[k])
}

/// Whether the queued input has a content identifier that is not held.
pub open spec fn unheld(held: Seq<Seq<u8>>, queued: InputView) -> bool {
    queued.row.cid matches Some(cid) && !held.contains(cid)
}

/// Whether the sources ask the blockstore: a queued input has a content
/// identifier that is not held.
pub open spec fn asks_blockstore(held: Seq<Seq<u8>>, input: Seq<InputView>) -> bool {
    exists|k: int| 0 <= k < input.len() && unheld(held, #[trigger] input[k])
}

/// Whether the sources stopped at the queued input `done`: what the
/// blockstore answered for the inputs before it is held, the input `done`
/// has a content identifier that is not held, and it and those after it,
/// `left`, are still queued.
pub open spec fn stopped_at(
    input: Seq<InputView>,
    held: Seq<Seq<u8>>,
    left: Seq<InputView>,
    held_now: Seq<Seq<u8>>,
    done: int,
) -> bool {
    &&& 0 <= done < input.len()
    &&& left == input.skip(done)
    &&& held_extends(held, held_now, input.take(done))
    &&& unheld(held_now, input[done])
}

/// Whether the sources stopped at one of the queued inputs.
pub open spec fn sources_stopped(before: VMView, after: VMView) -> bool {
    exists|done: int| #[trigger] stopped_at(before.input, before.held, after.input, after.held, done)
}

/// The machine with `store` as its storage, after the table of `relation`
/// has given out what it derived: the tuples that `Total` of a derived
/// relation holds and that were not given out yet wait for the sinks, after
/// those that wait already. So the tuples wait in the order in which they
/// were derived.
pub open spec fn noted(vm: VMView, store: Seq<TableView>, relation: Seq<char>) -> VMView {
    match crate::storage::find_table(store, relation) {
        Some(i) => VMView {
            store: sunk_at(store, i),
            fresh: vm.fresh + pending_at(store, i),
            ..vm
        },
        None => VMView { store, ..vm },
    }
}

/// What a statement does to the machine, and whether the epoch goes on.
/// `None` where the statement fails. The sources ask the blockstore for the
/// queued inputs that have a content identifier: `held` is what is held
/// after its answers, which only the sources change.
pub open spec fn after_statement(vm: VMView, statement: StatementView, held: Seq<Seq<u8>>) -> Option<
    (VMView, bool),
> {
    let blocks = held_set(vm.held);
    match statement {
        StatementView::Insert { operation, is_ground } => match after_insert(
            vm.store,
            vm.timestamp,
            operation,
            is_ground,
            blocks,
        ) {
            Some(store) => Some((noted(vm, store, operation_target(operation).id), true)),
            None => None,
        },
        StatementView::Merge { from, into } => match store_merge(vm.store, from, into) {
            Some(store) => Some((noted(vm, store, into.id), true)),
            None => None,
        },
        StatementView::Swap { left, right } => match store_swap(vm.store, left, right) {
            Some(store) => Some((VMView { store, ..vm }, true)),
            None => None,
        },
        StatementView::Purge { relation } => match store_purge(vm.store, relation) {
            Some(store) => Some((VMView { store, ..vm }, true)),
            None => None,
        },
        StatementView::Exit { relations } => match store_all_empty(vm.store, relations) {
            Some(true) => Some((VMView { pc: (vm.pc.0, None), ..vm }, true)),
            Some(false) => Some((vm, true)),
            None => None,
        },
        StatementView::Loop { .. } => None,
        StatementView::Sources => if held_extends(vm.held, held, vm.input) {
            Some(
                (
                    VMView { store: take_input(vm.store, vm.input), input: seq![], held, ..vm },
                    vm.input.len() > 0 || vm.timestamp.in_first_epoch(),
                ),
            )
        } else {
            None
        },
        StatementView::Sinks => Some(
            (
                VMView {
                    store: store_sunk(vm.store),
                    output: vm.output + vm.fresh + pending_output(vm.store),
                    fresh: seq![],
                    ..vm
                },
                true,
            ),
        ),
    }
}

/// One step of the machine: the statement at the program counter is run;
/// where the epoch goes on, the counter and the clock move. `None` where
/// the step fails. `held` is what is held after the step.
pub open spec fn after_step(vm: VMView, held: Seq<Seq<u8>>) -> Option<(VMView, bool)> {
    match loaded(vm.statements, vm.pc) {
        Some(statement) => match after_statement(vm, statement, held) {
            Some((ran, true)) => match next_pc(ran.statements, ran.pc) {
                Some(pc) => match next_time(ran.timestamp, pc) {
                    Some(timestamp) => Some((VMView { pc, timestamp, ..ran }, true)),
                    None => None,
                },
                None => None,
            },
            Some((ran, false)) => Some((ran, false)),
            None => None,
        },
        None => None,
    }
}

/// The relation that the projection at the core of an operation fills.
pub fn target_of(operation: &Operation) -> (target: &Relation)
    ensures
        target@ == operation_target(operation@),
    decreases operation,
{
    match operation {
        Operation::Search { operation, .. } => target_of(operation),
        Operation::Project { into, .. } => into,
        Operation::Aggregation { operation, .. } => target_of(operation),
    }
}

/// Growing is transitive.
pub proof fn lemma_grows_trans(a: Seq<TableView>, b: Seq<TableView>, c: Seq<TableView>)
    requires
        store_grows(a, b),
        store_grows(b, c),
    ensures
        store_grows(a, c),
{
    assert forall|i: int| 0 <= i < a.len() implies table_grows(#[trigger] a[i], c[i]) by {
        assert(table_grows(a[i], b[i]));
        assert(table_grows(b[i], c[i]));
    }
}

/// Queued inputs that fit a storage fit it after it has grown.
pub proof fn lemma_inputs_stay_valid(a: Seq<TableView>, b: Seq<TableView>, input: Seq<InputView>)
    requires
        store_grows(a, b),
        inputs_valid(a, input),
    ensures
        inputs_valid(b, input),
{
    assert forall|k: int| 0 <= k < input.len() implies 0 <= (#[trigger] input[k]).table < b.len()
        && conforms(b[input[k].table].declaration.schema, input[k].row) by {
        assert(table_grows(a[input[k].table], b[input[k].table]));
    }
}


/// Where the tuples up to one cannot all be put, all of them cannot.
proof fn lemma_insert_all_fail(
    store: Seq<TableView>,
    target: RelationView,
    tuples: Seq<TupleView>,
    upto: int,
)
    requires
        0 <= upto < tuples.len(),
        insert_all(store, target, tuples.take(upto + 1)).is_none(),
    ensures
        insert_all(store, target, tuples).is_none(),
    decreases tuples.len(),
{
    if upto + 1 < tuples.len() {
        assert(tuples.drop_last().take(upto + 1) =~= tuples.take(upto + 1));
        lemma_insert_all_fail(store, target, tuples.drop_last(), upto);
    } else {
        assert(tuples.take(upto + 1) =~= tuples);
    }
}

/// What is held stays an extension when the answer for one more queued
/// input is noted.
proof fn lemma_held_extends(
    had: Seq<Seq<u8>>,
    noted: Seq<Seq<u8>>,
    now: Seq<Seq<u8>>,
    queued: Seq<InputView>,
    done: int,
)
    requires
        0 <= done < queued.len(),
        held_extends(had, noted, queued.take(done)),
        now == noted || (queued[done].row.cid matches Some(cid) && !noted.contains(cid) && now
            == noted.push(cid)),
    ensures
        held_extends(had, now, queued.take(done + 1)),
{
    let before = queued.take(done);
    let after = queued.take(done + 1);
    assert(had.len() <= now.len());
    assert(now.take(had.len() as int) =~= noted.take(had.len() as int));
    assert(now.take(had.len() as int) == had);
    assert forall|k: int| had.len() <= k < now.len() implies !now.take(k).contains(
        #[trigger] now[k],
    ) by {
        if k < noted.len() {
            assert(now[k] == noted[k]);
            assert(now.take(k) =~= noted.take(k));
        } else {
            assert(now.take(k) =~= noted);
        }
    }
    assert forall|k: int| had.len() <= k < now.len() implies exists|j: int|
        0 <= j < after.len() && (#[trigger] after[j]).row.cid == Some(#[trigger] now[k]) by {
        if k < noted.len() {
            assert(now[k] == noted[k]);
            let j = choose|j: int|
                0 <= j < before.len() && (#[trigger] before[j]).row.cid == Some(
                    #[trigger] noted[k],
                );
            assert(after[j] == before[j]);
            assert(after[j].row.cid == Some(now[k]));
        } else {
            assert(after[done] == queued[done]);
            assert(after[done].row.cid == Some(now[k]));
        }
    }
}

/// Where the sources stopped, a queued input had a content identifier that
/// was not held.
pub proof fn lemma_stopped_asks(
    input: Seq<InputView>,
    held: Seq<Seq<u8>>,
    left: Seq<InputView>,
    held_now: Seq<Seq<u8>>,
    done: int,
)
    requires
        stopped_at(input, held, left, held_now, done),
    ensures
        asks_blockstore(held, input),
{
    let cid = input[done].row.cid.unwrap();
    if held.contains(cid) {
        let i = held.index_of(cid);
        assert(held_now.take(held.len() as int)[i] == held_now[i]);
    }
    assert(unheld(held, input[done]));
}

/// A storage grows to itself.
pub proof fn lemma_grows_refl(a: Seq<TableView>)
    ensures
        store_grows(a, a),
{
}

impl VM {
    /// Whether the machine is consistent: its storage is, and every queued
    /// input is a row that fits its table.
    pub closed spec fn wf(&self) -> bool {
        &&& self.storage.wf()
        &&& inputs_valid(self.storage@, views(self.input@))
    }

    /// Whether the machine is between two epochs: at the first statement,
    /// outside every loop, at the first iteration.
    pub open spec fn at_rest(vm: VMView) -> bool {
        vm.pc == (0usize, None::<usize>) && vm.timestamp.iteration == 0
    }

    /// The storage of a consistent machine is consistent: every relation
    /// holds, in each version, only rows that fit its schema, each once.
    pub proof fn storage_fits_schemas(&self)
        requires
            self.wf(),
        ensures
            store_wf(self@.store),
            inputs_valid(self@.store, self@.input),
    {
        self.storage.lemma_wf();
    }

    /// A machine for `program`, at the start of the clock, with empty
    /// relations and empty queues.
    pub fn new(program: Program) -> (vm: VM)
        ensures
            vm.wf(),
            Self::at_rest(vm@),
            vm@.timestamp == (Timestamp { clock: 0, epoch: 0, iteration: 0 }),
            vm@.input == Seq::<InputView>::empty(),
            vm@.output == Seq::<TupleView>::empty(),
            vm@.fresh == Seq::<TupleView>::empty(),
            vm@.held == Seq::<Seq<u8>>::empty(),
            vm@.statements == program@.statements,
            vm@.store == program@.declarations.map_values(
                |d: crate::logic::ast::DeclarationView|
                    TableView { declaration: d, total: seq![], delta: seq![], new: seq![], sunk: 0 },
            ),
    {
        let storage = Storage::new(&program.declarations);
        let vm = VM {
            timestamp: Timestamp::new(),
            pc: (0, None),
            input: VecDeque::new(),
            output: VecDeque::new(),
            fresh: Vec::new(),
            program,
            storage,
            held: Vec::new(),
        };
        assert(vm@.fresh =~= Seq::<TupleView>::empty());
        assert(vm@.held =~= Seq::<Seq<u8>>::empty());
        assert(vm@.input =~= Seq::<InputView>::empty());
        assert(vm@.output =~= Seq::<TupleView>::empty());
        vm
    }

    /// The clock.
    pub fn timestamp(&self) -> (t: &Timestamp)
        ensures
            *t == self@.timestamp,
    {
        &self.timestamp
    }

    /// The program counter: the statement of the program that the machine
    /// is at and, inside a loop, the statement of its body.
    pub fn pc(&self) -> (pc: (usize, Option<usize>))
        ensures
            pc == self@.pc,
    {
        self.pc
    }

    /// The storage of the machine.
    pub fn storage(&self) -> (storage: &Storage)
        requires
            self.wf(),
        ensures
            storage@ == self@.store,
            storage.wf(),
    {
        &self.storage
    }

    /// Queues an input fact. It must be a fact of a declared input relation
    /// and fit its schema; otherwise the machine stays as it is and the
    /// result is an internal error.
    pub fn push(&mut self, fact: Tuple) -> (r: Result<(), Error>)
        requires
            old(self).wf(),
        ensures
            final(self).wf(),
            r is Ok ==> accepted(old(self)@.store, fact@).is_some() && final(self)@ == (VMView {
                input: old(self)@.input.push(accepted(old(self)@.store, fact@).unwrap()),
                ..old(self)@
            }),
            r matches Err(e) ==> e@ == ErrorView::InternalError && final(self)@ == old(self)@
                && accepted(old(self)@.store, fact@).is_none(),
    {
        let index = match self.storage.find(&fact.id) {
            Some(index) => index,
            None => {
                return Err(Error::internal("relation is not declared"));
            },
        };
        let table = self.storage.table(index);
        if !matches!(table.declaration().source, Source::Edb) {
            return Err(Error::internal("not an input relation"));
        }
        let row = match table.row_for(&fact) {
            Some(row) => row,
            None => {
                return Err(Error::internal("tuple does not fit the schema"));
            },
        };
        let ghost before = views(self.input@);
        self.input.push_back(Input { table: index, row });
        assert(views(self.input@) =~= before.push(self.input@.last()@));
        Ok(())
    }

    /// Takes the next derived fact from the output queue, if there is one.
    pub fn pop(&mut self) -> (r: Result<Option<Tuple>, Error>)
        requires
            old(self).wf(),
        ensures
            final(self).wf(),
            r matches Ok(found) && (match found {
                Some(tuple) => old(self)@.output.len() > 0 && tuple@ == old(self)@.output[0]
                    && final(self)@ == (VMView {
                    output: old(self)@.output.drop_first(),
                    ..old(self)@
                }),
                None => old(self)@.output.len() == 0 && final(self)@ == old(self)@,
            }),
    {
        let ghost before = views(self.output@);
        let fact = self.output.pop_front();
        assert(fact.is_some() ==> views(self.output@) =~= before.drop_first());
        Ok(fact)
    }

    /// The statement that the program counter `pc` is at in `program`.
    fn load(program: &Program, pc: (usize, Option<usize>)) -> (r: Result<&Statement, Error>)
        ensures
            r matches Ok(statement) ==> loaded(program@.statements, pc) == Some(statement@),
            r matches Err(e) ==> loaded(program@.statements, pc).is_none() && e@
                == ErrorView::InternalError,
    {
        if pc.0 >= program.statements.len() {
            return Err(Error::internal("PC stepped past end of program"));
        }
        let outer = &program.statements[pc.0];
        match outer {
            Statement::Loop { body } => {
                proof {
                    loop_view(*body);
                }
                let inner = match pc.1 {
                    Some(inner) => inner,
                    None => {
                        return Err(Error::internal("inner loop PC is None"));
                    },
                };
                if inner >= body.len() {
                    return Err(Error::internal("inner loop PC stepped past end of loop"));
                }
                Ok(&body[inner])
            },
            _ => Ok(outer),
        }
    }

    /// The statement that the program counter is at.
    pub fn load_statement(&self) -> (r: Result<&Statement, Error>)
        ensures
            r matches Ok(statement) ==> loaded(self@.statements, self@.pc) == Some(statement@),
            r matches Err(e) ==> loaded(self@.statements, self@.pc).is_none() && e@
                == ErrorView::InternalError,
    {
        Self::load(&self.program, self.pc)
    }

    /// The program counter after a step from `pc` in `program`.
    fn next(program: &Program, pc: (usize, Option<usize>)) -> (r: Result<
        (usize, Option<usize>),
        Error,
    >)
        ensures
            r matches Ok(moved) ==> next_pc(program@.statements, pc) == Some(moved),
            r matches Err(e) ==> next_pc(program@.statements, pc).is_none() && e@
                == ErrorView::InternalError,
    {
        let count = program.statements.len();
        if pc.0 >= count {
            return Err(Error::internal("PC stepped past end of program"));
        }
        match pc.1 {
            None => {
                let moved = (pc.0 + 1) % count;
                if pc.0 + 1 < count {
                    if let Statement::Loop { .. } = &program.statements[pc.0 + 1] {
                        return Ok((moved, Some(0)));
                    }
                }
                Ok((moved, None))
            },
            Some(inner) => match &program.statements[pc.0] {
                Statement::Loop { body } => {
                    proof {
                        loop_view(*body);
                    }
                    if inner >= body.len() {
                        return Err(Error::internal("inner loop PC stepped past end of loop"));
                    }
                    Ok((pc.0, Some((inner + 1) % body.len())))
                },
                _ => Err(Error::internal("current statement must be a loop")),
            },
        }
    }

    /// The program counter after a step.
    pub fn step_pc(&self) -> (r: Result<(usize, Option<usize>), Error>)
        ensures
            r matches Ok(moved) ==> next_pc(self@.statements, self@.pc) == Some(moved),
            r matches Err(e) ==> next_pc(self@.statements, self@.pc).is_none() && e@
                == ErrorView::InternalError,
    {
        Self::next(&self.program, self.pc)
    }

    /// Runs a search and adds what it projects to `out`.
    fn handle_search(
        storage: &Storage,
        search: &Operation,
        held: &Vec<Cid>,
        bindings: &mut Vec<Bound>,
        out: &mut Vec<Tuple>,
    ) -> (r: Result<bool, Error>)
        requires
            storage.wf(),
            search@ is Search,
        ensures
            r matches Ok(go) ==> go && views(final(bindings)@) == views(old(bindings)@) && eval(
                search@,
                views(old(bindings)@),
                storage@,
                held_set(views(held@)),
            ).is_some() && views(final(out)@) == views(old(out)@) + eval(
                search@,
                views(old(bindings)@),
                storage@,
                held_set(views(held@)),
            ).unwrap(),
            r matches Err(e) ==> e@ == ErrorView::InternalError && eval(
                search@,
                views(old(bindings)@),
                storage@,
                held_set(views(held@)),
            ).is_none(),
    {
        match eval_operation(search, bindings, storage, held, out) {
            Ok(()) => Ok(true),
            Err(e) => Err(e),
        }
    }

    /// Runs a projection and adds its tuple to `out`.
    fn handle_project(
        storage: &Storage,
        project: &Operation,
        held: &Vec<Cid>,
        bindings: &mut Vec<Bound>,
        out: &mut Vec<Tuple>,
    ) -> (r: Result<bool, Error>)
        requires
            storage.wf(),
            project@ is Project,
        ensures
            r matches Ok(go) ==> go && views(final(bindings)@) == views(old(bindings)@) && eval(
                project@,
                views(old(bindings)@),
                storage@,
                held_set(views(held@)),
            ).is_some() && views(final(out)@) == views(old(out)@) + eval(
                project@,
                views(old(bindings)@),
                storage@,
                held_set(views(held@)),
            ).unwrap(),
            r matches Err(e) ==> e@ == ErrorView::InternalError && eval(
                project@,
                views(old(bindings)@),
                storage@,
                held_set(views(held@)),
            ).is_none(),
    {
        match eval_operation(project, bindings, storage, held, out) {
            Ok(()) => Ok(true),
            Err(e) => Err(e),
        }
    }

    /// Runs an aggregation and adds what it projects to `out`.
    fn handle_aggregation(
        storage: &Storage,
        agg: &Operation,
        held: &Vec<Cid>,
        bindings: &mut Vec<Bound>,
        out: &mut Vec<Tuple>,
    ) -> (r: Result<bool, Error>)
        requires
            storage.wf(),
            agg@ is Aggregation,
        ensures
            r matches Ok(go) ==> go && views(final(bindings)@) == views(old(bindings)@) && eval(
                agg@,
                views(old(bindings)@),
                storage@,
                held_set(views(held@)),
            ).is_some() && views(final(out)@) == views(old(out)@) + eval(
                agg@,
                views(old(bindings)@),
                storage@,
                held_set(views(held@)),
            ).unwrap(),
            r matches Err(e) ==> e@ == ErrorView::InternalError && eval(
                agg@,
                views(old(bindings)@),
                storage@,
                held_set(views(held@)),
            ).is_none(),
    {
        match eval_operation(agg, bindings, storage, held, out) {
            Ok(()) => Ok(true),
            Err(e) => Err(e),
        }
    }

    /// Runs an operation under `bindings` and adds what it projects to
    /// `out`.
    fn do_handle_operation(
        storage: &Storage,
        operation: &Operation,
        held: &Vec<Cid>,
        bindings: &mut Vec<Bound>,
        out: &mut Vec<Tuple>,
    ) -> (r: Result<bool, Error>)
        requires
            storage.wf(),
        ensures
            r matches Ok(go) ==> go && views(final(bindings)@) == views(old(bindings)@) && eval(
                operation@,
                views(old(bindings)@),
                storage@,
                held_set(views(held@)),
            ).is_some() && views(final(out)@) == views(old(out)@) + eval(
                operation@,
                views(old(bindings)@),
                storage@,
                held_set(views(held@)),
            ).unwrap(),
            r matches Err(e) ==> e@ == ErrorView::InternalError && eval(
                operation@,
                views(old(bindings)@),
                storage@,
                held_set(views(held@)),
            ).is_none(),
    {
        match operation {
            Operation::Search { .. } => Self::handle_search(
                storage,
                operation,
                held,
                bindings,
                out,
            ),
            Operation::Project { .. } => Self::handle_project(
                storage,
                operation,
                held,
                bindings,
                out,
            ),
            Operation::Aggregation { .. } => Self::handle_aggregation(
                storage,
                operation,
                held,
                bindings,
                out,
            ),
        }
    }

    /// Runs an operation from no bindings and puts what it projects into its
    /// target.
    fn handle_operation(storage: &mut Storage, operation: &Operation, held: &Vec<Cid>) -> (r:
        Result<bool, Error>)
        requires
            old(storage).wf(),
        ensures
            final(storage).wf(),
            store_grows(old(storage)@, final(storage)@),
            r matches Ok(go) ==> go && after_operation(
                old(storage)@,
                operation@,
                held_set(views(held@)),
            ) == Some(final(storage)@),
            r matches Err(e) ==> e@ == ErrorView::InternalError && after_operation(
                old(storage)@,
                operation@,
                held_set(views(held@)),
            ).is_none(),
    {
        let mut bindings: Vec<Bound> = Vec::new();
        let mut out: Vec<Tuple> = Vec::new();
        assert(views(bindings@) =~= seq![]);
        assert(views(out@) =~= seq![]);
        match Self::do_handle_operation(storage, operation, held, &mut bindings, &mut out) {
            Ok(_) => {},
            Err(e) => {
                return Err(e);
            },
        }
        let ghost start = storage@;
        let ghost tuples = views(out@);
        assert(tuples =~= eval(operation@, seq![], start, held_set(views(held@))).unwrap());
        let target = target_of(operation);
        let mut i: usize = 0;
        assert(tuples.take(0) =~= seq![]);
        while i < out.len()
            invariant
                i <= out.len(),
                tuples == views(out@),
                start == old(storage)@,
                storage.wf(),
                store_grows(start, storage@),
                target@ == operation_target(operation@),
                eval(operation@, seq![], start, held_set(views(held@))) == Some(tuples),
                insert_all(start, target@, tuples.take(i as int)) == Some(storage@),
            decreases out.len() - i,
        {
            proof {
                assert(tuples.take(i + 1).drop_last() =~= tuples.take(i as int));
                assert(tuples.take(i + 1).last() == out@[i as int]@);
            }
            let ghost before = storage@;
            match storage.insert(target, &out[i]) {
                Ok(()) => {
                    proof {
                        lemma_grows_trans(start, before, storage@);
                    }
                },
                Err(e) => {
                    proof {
                        lemma_insert_all_fail(start, target@, tuples, i as int);
                    }
                    return Err(e);
                },
            }
            i += 1;
        }
        assert(tuples.take(i as int) =~= tuples);
        Ok(true)
    }

    /// Runs an insertion. A ground insertion runs only in the first epoch.
    fn handle_insert(
        storage: &mut Storage,
        timestamp: &Timestamp,
        operation: &Operation,
        is_ground: bool,
        held: &Vec<Cid>,
    ) -> (r: Result<bool, Error>)
        requires
            old(storage).wf(),
        ensures
            final(storage).wf(),
            store_grows(old(storage)@, final(storage)@),
            r matches Ok(go) ==> go && after_insert(
                old(storage)@,
                *timestamp,
                operation@,
                is_ground,
                held_set(views(held@)),
            ) == Some(final(storage)@),
            r matches Err(e) ==> e@ == ErrorView::InternalError && after_insert(
                old(storage)@,
                *timestamp,
                operation@,
                is_ground,
                held_set(views(held@)),
            ).is_none(),
    {
        if is_ground && !timestamp.is_first_epoch() {
            Ok(true)
        } else {
            Self::handle_operation(storage, operation, held)
        }
    }

    /// Merges one version of a relation into another.
    fn handle_merge(storage: &mut Storage, from: &Relation, into: &Relation) -> (r: Result<
        bool,
        Error,
    >)
        requires
            old(storage).wf(),
        ensures
            final(storage).wf(),
            store_grows(old(storage)@, final(storage)@),
            r matches Ok(go) ==> go && store_merge(old(storage)@, from@, into@) == Some(
                final(storage)@,
            ),
            r matches Err(e) ==> e@ == ErrorView::InternalError && store_merge(
                old(storage)@,
                from@,
                into@,
            ).is_none(),
    {
        match storage.merge(from, into) {
            Ok(()) => Ok(true),
            Err(e) => Err(e),
        }
    }

    /// Exchanges two versions of a relation.
    fn handle_swap(storage: &mut Storage, left: &Relation, right: &Relation) -> (r: Result<
        bool,
        Error,
    >)
        requires
            old(storage).wf(),
        ensures
            final(storage).wf(),
            store_grows(old(storage)@, final(storage)@),
            r matches Ok(go) ==> go && store_swap(old(storage)@, left@, right@) == Some(
                final(storage)@,
            ),
            r matches Err(e) ==> e@ == ErrorView::InternalError && store_swap(
                old(storage)@,
                left@,
                right@,
            ).is_none(),
    {
        match storage.swap(left, right) {
            Ok(()) => Ok(true),
            Err(e) => Err(e),
        }
    }

    /// Empties one version of a relation.
    fn handle_purge(storage: &mut Storage, relation: &Relation) -> (r: Result<bool, Error>)
        requires
            old(storage).wf(),
        ensures
            final(storage).wf(),
            store_grows(old(storage)@, final(storage)@),
            r matches Ok(go) ==> go && store_purge(old(storage)@, relation@) == Some(
                final(storage)@,
            ),
            r matches Err(e) ==> e@ == ErrorView::InternalError && store_purge(
                old(storage)@,
                relation@,
            ).is_none(),
    {
        match storage.purge(relation) {
            Ok(()) => Ok(true),
            Err(e) => Err(e),
        }
    }

    /// Leaves the loop where all the relations are empty.
    fn handle_exit(storage: &Storage, pc: &mut (usize, Option<usize>), relations: &Vec<Relation>) -> (r:
        Result<bool, Error>)
        requires
            storage.wf(),
        ensures
            r is Err ==> *final(pc) == *old(pc),
            r matches Ok(go) ==> go && store_all_empty(storage@, views(relations@)).is_some()
                && *final(pc) == (if store_all_empty(storage@, views(relations@)).unwrap() {
                (old(pc).0, None::<usize>)
            } else {
                *old(pc)
            }),
            r matches Err(e) ==> e@ == ErrorView::InternalError && store_all_empty(
                storage@,
                views(relations@),
            ).is_none(),
    {
        match storage.all_empty(relations) {
            Ok(empty) => {
                if empty {
                    pc.1 = None;
                }
                Ok(true)
            },
            Err(e) => Err(e),
        }
    }

    /// Notes the answer of the blockstore for a content identifier: the
    /// identifier is held from now on where the blockstore holds a fact under
    /// it and it was not held yet.
    pub fn note_answer(held: &mut Vec<Cid>, cid: &Cid, found: bool)
        ensures
            views(final(held)@) == (if found && !views(old(held)@).contains(cid@) {
                views(old(held)@).push(cid@)
            } else {
                views(old(held)@)
            }),
    {
        if found && !crate::runtime::eval::holds(held, cid) {
            let ghost before = views(held@);
            held.push(cid.clone());
            assert(views(held@) =~= before.push(cid@));
        }
    }

    /// Takes the queued inputs into `Delta` of their relations, in order,
    /// and asks the blockstore for each that has a content identifier that
    /// is not held yet. The epoch goes on where there was input, and in the
    /// first epoch.
    ///
    /// Where the blockstore fails, the input that it failed on and those
    /// after it stay queued, and the result is a blockstore error.
    fn handle_sources<BS: Blockstore>(
        storage: &mut Storage,
        input: &mut VecDeque<Input>,
        held: &mut Vec<Cid>,
        timestamp: &Timestamp,
        blockstore: &BS,
    ) -> (r: Result<bool, Error>)
        requires
            old(storage).wf(),
            inputs_valid(old(storage)@, views(old(input)@)),
        ensures
            final(storage).wf(),
            store_grows(old(storage)@, final(storage)@),
            inputs_valid(final(storage)@, views(final(input)@)),
            r matches Ok(go) ==> go == (old(input)@.len() > 0 || timestamp.in_first_epoch())
                && final(input)@.len() == 0 && final(storage)@ == take_input(
                old(storage)@,
                views(old(input)@),
            ) && held_extends(views(old(held)@), views(final(held)@), views(old(input)@)),
            r matches Err(e) ==> e@ == ErrorView::BlockstoreError,
            r is Err ==> asks_blockstore(views(old(held)@), views(old(input)@)),
            r is Err ==> exists|done: int| #[trigger]
                stopped_at(
                    views(old(input)@),
                    views(old(held)@),
                    views(final(input)@),
                    views(final(held)@),
                    done,
                ) && final(storage)@ == take_input(old(storage)@, views(old(input)@).take(done)),
            !asks_blockstore(views(old(held)@), views(old(input)@)) ==> r is Ok,
    {
        let ghost start = storage@;
        let ghost queued = views(input@);
        let ghost had = views(held@);
        let any = input.len() > 0;
        let ghost mut done: int = 0;
        assert(queued.take(0) =~= seq![]);
        assert(queued.skip(0) =~= queued);
        assert(had.take(had.len() as int) =~= had);
        while input.len() > 0
            invariant
                0 <= done <= queued.len(),
                start == old(storage)@,
                queued == views(old(input)@),
                had == views(old(held)@),
                storage.wf(),
                store_grows(start, storage@),
                inputs_valid(start, queued),
                views(input@) == queued.skip(done),
                storage@ == take_input(start, queued.take(done)),
                held_extends(had, views(held@), queued.take(done)),
            decreases input@.len(),
        {
            let ghost rest = views(input@);
            let ghost waiting = input@;
            let ghost noted = views(held@);
            proof {
                assert(rest.len() == queued.len() - done);
                assert(rest[0] == waiting[0]@);
                assert(rest[0] == queued[done]);
                lemma_inputs_stay_valid(start, storage@, queued);
                assert forall|k: int| 0 <= k < rest.len() implies 0 <= (#[trigger] rest[k]).table
                    < storage@.len() && conforms(
                    storage@[rest[k].table].declaration.schema,
                    rest[k].row,
                ) by {
                    assert(rest[k] == queued[done + k]);
                }
            }
            let asked = match &input[0].row.cid {
                Some(cid) => {
                    if crate::runtime::eval::holds(held, cid) {
                        None
                    } else {
                        match blockstore.get(cid) {
                            Ok(found) => Some(found.is_some()),
                            Err(_) => {
                                proof {
                                    assert(unheld(noted, queued[done]));
                                    assert(stopped_at(queued, had, rest, noted, done));
                                    lemma_stopped_asks(queued, had, rest, noted, done);
                                }
                                return Err(Error::blockstore("the blockstore failed"));
                            },
                        }
                    }
                },
                None => None,
            };
            if let Some(found) = asked {
                if let Some(cid) = &input[0].row.cid {
                    Self::note_answer(held, cid, found);
                }
            }
            match input.pop_front() {
                Some(next) => {
                    proof {
                        assert(queued[done] == next@);
                        assert(views(input@) =~= rest.skip(1));
                        assert(rest.skip(1) =~= queued.skip(done + 1));
                        assert(queued.take(done + 1).drop_last() =~= queued.take(done));
                        assert(queued.take(done + 1).last() == next@);
                        assert(crate::storage::table_grows(
                            start[next@.table],
                            storage@[next@.table],
                        ));
                        lemma_held_extends(had, noted, views(held@), queued, done);
                    }
                    let ghost before = storage@;
                    storage.put_row(next.table, Version::Delta, next.row);
                    proof {
                        lemma_grows_trans(start, before, storage@);
                        done = done + 1;
                    }
                },
                None => {},
            }
        }
        proof {
            assert(views(input@).len() == 0);
            assert(queued.take(done) =~= queued);
            lemma_inputs_stay_valid(start, storage@, views(input@));
        }
        Ok(any || timestamp.is_first_epoch())
    }

    /// Queues the derived facts that wait for the sinks, in the order in which
    /// they were derived, and then whatever else the derived relations have
    /// not given out yet.
    fn handle_sinks(storage: &mut Storage, fresh: &mut Vec<Tuple>, output: &mut VecDeque<Tuple>) -> (r:
        Result<bool, Error>)
        requires
            old(storage).wf(),
        ensures
            final(storage).wf(),
            store_grows(old(storage)@, final(storage)@),
            r matches Ok(go) && go,
            final(storage)@ == store_sunk(old(storage)@),
            views(final(fresh)@) == Seq::<TupleView>::empty(),
            views(final(output)@) == views(old(output)@) + views(old(fresh)@) + pending_output(
                old(storage)@,
            ),
    {
        let ghost waiting = views(fresh@);
        storage.sink(fresh);
        let ghost had = views(output@);
        let ghost more = views(fresh@);
        let mut i: usize = 0;
        while i < fresh.len()
            invariant
                i <= fresh.len(),
                more == views(fresh@),
                views(output@) =~= had + more.take(i as int),
            decreases fresh.len() - i,
        {
            let ghost before = views(output@);
            output.push_back(fresh[i].clone());
            proof {
                assert(views(output@) =~= before.push(more[i as int]));
                assert(more.take(i + 1) =~= more.take(i as int).push(more[i as int]));
            }
            i += 1;
        }
        assert(more.take(i as int) =~= more);
        fresh.clear();
        assert(views(fresh@) =~= Seq::<TupleView>::empty());
        assert(views(output@) =~= had + waiting + pending_output(old(storage)@));
        Ok(true)
    }

    /// Lets the table of `relation` give out what it derived: the tuples
    /// wait for the sinks after those that wait already.
    fn note(storage: &mut Storage, fresh: &mut Vec<Tuple>, relation: &crate::id::RelationId)
        requires
            old(storage).wf(),
        ensures
            final(storage).wf(),
            store_grows(old(storage)@, final(storage)@),
            crate::storage::find_table(old(storage)@, relation@) matches Some(i) ==> final(storage)@
                == sunk_at(old(storage)@, i) && views(final(fresh)@) == views(old(fresh)@)
                + pending_at(old(storage)@, i),
            crate::storage::find_table(old(storage)@, relation@).is_none() ==> final(storage)@
                == old(storage)@ && views(final(fresh)@) == views(old(fresh)@),
    {
        proof {
            lemma_grows_refl(storage@);
        }
        match storage.find(relation) {
            Some(index) => {
                storage.sink_table(index, fresh);
            },
            None => {},
        }
    }
}

/// The machine after steps from `vm`, each of which went on and stayed in
/// the epoch that `vm` is in. The step `k` left `helds[k]` held. `None`
/// where there are no such steps.
pub open spec fn stepped(vm: VMView, helds: Seq<Seq<Seq<u8>>>) -> Option<VMView>
    decreases helds.len(),
{
    if helds.len() == 0 {
        Some(vm)
    } else {
        match stepped(vm, helds.drop_last()) {
            Some(before) => match after_step(before, helds.last()) {
                Some((after, true)) => if after.timestamp.epoch == vm.timestamp.epoch {
                    Some(after)
                } else {
                    None
                },
                _ => None,
            },
            None => None,
        }
    }
}

/// Whether `end` is where the epoch that `vm` is in ends: some steps from
/// `vm` go on within the epoch, and one more step leads to `end` and either
/// stops or enters another epoch.
pub open spec fn epoch_ends_at(vm: VMView, end: VMView) -> bool {
    exists|helds: Seq<Seq<Seq<u8>>>| #[trigger] ends_after(vm, helds, end)
}

/// Whether the epoch that `vm` is in cannot be brought to its end: some
/// steps from `vm` go on within the epoch and lead to a machine whose next
/// step fails, or there are as many of them as the machine counts.
pub open spec fn epoch_gets_stuck(vm: VMView) -> bool {
    exists|helds: Seq<Seq<Seq<u8>>>| #[trigger] stuck_after(vm, helds)
}

/// Whether the steps that left `helds` held go on from `vm` within its
/// epoch and lead to a machine whose next step fails, or are as many as the
/// machine counts.
pub open spec fn stuck_after(vm: VMView, helds: Seq<Seq<Seq<u8>>>) -> bool {
    &&& stepped(vm, helds).is_some()
    &&& (after_step(stepped(vm, helds).unwrap(), stepped(vm, helds).unwrap().held).is_none()
        || helds.len() == u64::MAX)
}

/// Whether the steps that left `helds` held go on from `vm` within its
/// epoch, and one more step leads to `end` and either stops or enters
/// another epoch.
pub open spec fn ends_after(vm: VMView, helds: Seq<Seq<Seq<u8>>>, end: VMView) -> bool {
    &&& stepped(vm, helds).is_some()
    &&& (after_step(stepped(vm, helds).unwrap(), end.held) == Some((end, false)) || (after_step(
        stepped(vm, helds).unwrap(),
        end.held,
    ) == Some((end, true)) && end.timestamp.epoch != vm.timestamp.epoch))
}

/// Steps that go on from a machine go on up to each of them.
pub proof fn lemma_stepped_prefix(vm: VMView, helds: Seq<Seq<Seq<u8>>>, count: int)
    requires
        stepped(vm, helds).is_some(),
        0 <= count <= helds.len(),
    ensures
        stepped(vm, helds.take(count)).is_some(),
    decreases helds.len(),
{
    if count < helds.len() {
        assert(helds.drop_last().take(count) =~= helds.take(count));
        lemma_stepped_prefix(vm, helds.drop_last(), count);
    } else {
        assert(helds.take(count) =~= helds);
    }
}

/// Where no queued input has a content identifier that is not held, the
/// steps from a machine lead to one machine, whatever is said to be held
/// after them; and that machine has no such input either.
pub proof fn lemma_unasked_run(vm: VMView, a: Seq<Seq<Seq<u8>>>, b: Seq<Seq<Seq<u8>>>)
    requires
        !asks_blockstore(vm.held, vm.input),
        a.len() == b.len(),
        stepped(vm, a).is_some(),
        stepped(vm, b).is_some(),
    ensures
        stepped(vm, a) == stepped(vm, b),
        !asks_blockstore(stepped(vm, a).unwrap().held, stepped(vm, a).unwrap().input),
    decreases a.len(),
{
    if a.len() > 0 {
        lemma_unasked_run(vm, a.drop_last(), b.drop_last());
        let s = stepped(vm, a.drop_last()).unwrap();
        lemma_step_unasked(s, a.last());
        lemma_step_unasked(s, b.last());
        lemma_step_frame(s, a.last());
    }
}

/// Where no queued input has a content identifier that is not held, an
/// epoch that ends does not get stuck.
pub proof fn lemma_ended_not_stuck(vm: VMView, helds: Seq<Seq<Seq<u8>>>, end: VMView)
    requires
        !asks_blockstore(vm.held, vm.input),
        ends_after(vm, helds, end),
        helds.len() < u64::MAX,
    ensures
        !epoch_gets_stuck(vm),
{
    assert forall|other: Seq<Seq<Seq<u8>>>| !stuck_after(vm, other) by {
        if stuck_after(vm, other) {
            let n = helds.len() as int;
            let m = other.len() as int;
            if m <= n {
                lemma_stepped_prefix(vm, helds, m);
                lemma_unasked_run(vm, other, helds.take(m));
                let s = stepped(vm, other).unwrap();
                if m < n {
                    lemma_stepped_prefix(vm, helds, m + 1);
                    assert(helds.take(m + 1).drop_last() =~= helds.take(m));
                    assert(after_step(s, helds.take(m + 1).last()).is_some());
                    lemma_step_unasked(s, helds.take(m + 1).last());
                } else {
                    assert(helds.take(m) =~= helds);
                    lemma_step_unasked(s, end.held);
                }
            } else {
                lemma_stepped_prefix(vm, other, n);
                lemma_stepped_prefix(vm, other, n + 1);
                lemma_unasked_run(vm, helds, other.take(n));
                let s = stepped(vm, helds).unwrap();
                assert(other.take(n + 1).drop_last() =~= other.take(n));
                let h = other.take(n + 1).last();
                assert(after_step(s, h).is_some());
                lemma_step_unasked(s, h);
                lemma_step_unasked(s, end.held);
            }
        }
    }
}

/// Whether the step of the machine asks the blockstore: the machine is at
/// the sources, and a queued input has a content identifier that is not
/// held.
pub open spec fn step_asks(vm: VMView) -> bool {
    loaded(vm.statements, vm.pc) == Some(StatementView::Sources) && asks_blockstore(
        vm.held,
        vm.input,
    )
}

/// Where no queued input has a content identifier that is not held, what is
/// held after the sources is what was held before.
pub proof fn lemma_unasked_held(before: Seq<Seq<u8>>, after: Seq<Seq<u8>>, input: Seq<InputView>)
    requires
        held_extends(before, after, input),
        !asks_blockstore(before, input),
    ensures
        after == before,
{
    if after.len() > before.len() {
        let k = before.len() as int;
        let j = choose|j: int|
            0 <= j < input.len() && (#[trigger] input[j]).row.cid == Some(#[trigger] after[k]);
        assert(!unheld(before, input[j]));
        assert(after.take(k).contains(after[k]));
    }
    assert(after =~= after.take(before.len() as int));
}

/// A step that does not ask the blockstore has one outcome: what is held
/// after it is what was held before.
pub proof fn lemma_step_unasked(vm: VMView, held: Seq<Seq<u8>>)
    requires
        !step_asks(vm),
        after_step(vm, held).is_some(),
    ensures
        after_step(vm, vm.held) == after_step(vm, held),
{
    match loaded(vm.statements, vm.pc) {
        Some(statement) => {
            if statement is Sources {
                lemma_unasked_held(vm.held, held, vm.input);
            } else {
                assert(after_statement(vm, statement, held) == after_statement(
                    vm,
                    statement,
                    vm.held,
                ));
            }
        },
        None => {},
    }
}

/// A step leaves the queued inputs and what is held as they are, unless it
/// is a step of the sources, which leave no input queued. It leaves the
/// statements as they are.
pub proof fn lemma_step_frame(vm: VMView, held: Seq<Seq<u8>>)
    requires
        after_step(vm, held).is_some(),
    ensures
        after_step(vm, held).unwrap().0.statements == vm.statements,
        (after_step(vm, held).unwrap().0.input == vm.input && after_step(vm, held).unwrap().0.held
            == vm.held) || after_step(vm, held).unwrap().0.input.len() == 0,
{
}

impl VM {
    /// One step: runs the statement at the program counter and, where the
    /// epoch goes on, moves the counter and the clock.
    ///
    /// The step fails with a blockstore error only at the sources, where the
    /// blockstore fails for a queued input whose content identifier is not
    /// held. Otherwise it fails, with an internal error, exactly where the
    /// machine has no next step. After an error the counter and the clock
    /// are as they were.
    fn step<BS: Blockstore>(&mut self, blockstore: &BS) -> (r: Result<bool, Error>)
        requires
            old(self).wf(),
        ensures
            final(self).wf(),
            store_grows(old(self)@.store, final(self)@.store),
            final(self)@.statements == old(self)@.statements,
            r matches Ok(go) ==> after_step(old(self)@, final(self)@.held) == Some(
                (final(self)@, go),
            ),
            r matches Err(e) ==> (e@ == ErrorView::BlockstoreError && step_asks(old(self)@)
                && sources_stopped(old(self)@, final(self)@)) || (e@ == ErrorView::InternalError
                && after_step(old(self)@, old(self)@.held).is_none()),
            r is Err ==> final(self)@.pc == old(self)@.pc,
            r is Err ==> final(self)@.timestamp == old(self)@.timestamp,
            !step_asks(old(self)@) ==> (r is Err <==> after_step(
                old(self)@,
                old(self)@.held,
            ).is_none()),
    {
        let ghost before = self@;
        let saved = self.pc;
        proof {
            lemma_grows_refl(before.store);
            assert(before.held.take(before.held.len() as int) =~= before.held);
        }
        let statement = match Self::load(&self.program, self.pc) {
            Ok(statement) => statement,
            Err(e) => {
                return Err(e);
            },
        };
        let outcome = match statement {
            Statement::Insert { operation, is_ground } => {
                let r = Self::handle_insert(
                    &mut self.storage,
                    &self.timestamp,
                    operation,
                    *is_ground,
                    &self.held,
                );
                if r.is_ok() {
                    let ghost derived = self.storage@;
                    Self::note(&mut self.storage, &mut self.fresh, &target_of(operation).id);
                    proof {
                        lemma_grows_trans(before.store, derived, self.storage@);
                    }
                }
                assert(r is Ok ==> after_statement(before, statement@, self@.held) == Some(
                    (self@, true),
                ));
                r
            },
            Statement::Merge { from, into } => {
                let r = Self::handle_merge(&mut self.storage, from, into);
                if r.is_ok() {
                    let ghost merged = self.storage@;
                    Self::note(&mut self.storage, &mut self.fresh, &into.id);
                    proof {
                        lemma_grows_trans(before.store, merged, self.storage@);
                    }
                }
                assert(r is Ok ==> after_statement(before, statement@, self@.held) == Some(
                    (self@, true),
                ));
                r
            },
            Statement::Swap { left, right } => {
                let r = Self::handle_swap(&mut self.storage, left, right);
                assert(r is Ok ==> after_statement(before, statement@, self@.held) == Some(
                    (self@, true),
                ));
                r
            },
            Statement::Purge { relation } => {
                let r = Self::handle_purge(&mut self.storage, relation);
                assert(r is Ok ==> after_statement(before, statement@, self@.held) == Some(
                    (self@, true),
                ));
                r
            },
            Statement::Exit { relations } => {
                let r = Self::handle_exit(&self.storage, &mut self.pc, relations);
                assert(r is Ok ==> after_statement(before, statement@, self@.held) == Some(
                    (self@, true),
                ));
                r
            },
            Statement::Sources => {
                let r = Self::handle_sources(
                    &mut self.storage,
                    &mut self.input,
                    &mut self.held,
                    &self.timestamp,
                    blockstore,
                );
                proof {
                    if r is Ok {
                        assert(views(self.input@) =~= Seq::<InputView>::empty());
                    }
                }
                assert(r matches Ok(go) ==> after_statement(before, statement@, self@.held)
                    == Some((self@, go)));
                match r {
                    Ok(go) => Ok(go),
                    Err(e) => {
                        proof {
                            lemma_inputs_stay_valid(before.store, self@.store, self@.input);
                            let done = choose|done: int| #[trigger]
                                stopped_at(
                                    before.input,
                                    before.held,
                                    self@.input,
                                    self@.held,
                                    done,
                                );
                            assert(stopped_at(
                                before.input,
                                before.held,
                                self@.input,
                                self@.held,
                                done,
                            ));
                        }
                        return Err(e);
                    },
                }
            },
            Statement::Sinks => {
                let r = Self::handle_sinks(&mut self.storage, &mut self.fresh, &mut self.output);
                assert(r is Ok ==> after_statement(before, statement@, self@.held) == Some(
                    (self@, true),
                ));
                r
            },
            Statement::Loop { body } => {
                proof {
                    loop_view(*body);
                }
                Err(Error::internal("nested loop encountered"))
            },
        };
        proof {
            lemma_inputs_stay_valid(before.store, self@.store, self@.input);
        }
        let go = match outcome {
            Ok(go) => go,
            Err(e) => {
                return Err(e);
            },
        };
        assert(after_statement(before, statement@, self@.held) == Some((self@, go)));
        let ghost ran = self@;
        proof {
            if !step_asks(before) {
                if statement@ is Sources {
                    lemma_unasked_held(before.held, ran.held, before.input);
                }
                assert(after_statement(before, statement@, before.held) == Some((ran, go)));
            }
        }
        if !go {
            return Ok(false);
        }
        let moved = match Self::next(&self.program, self.pc) {
            Ok(moved) => moved,
            Err(e) => {
                assert(after_statement(before, statement@, before.held).is_some() ==> (
                after_statement(before, statement@, before.held).unwrap().0.pc == self@.pc));
                self.pc = saved;
                return Err(e);
            },
        };
        let inner_start = match moved.1 {
            Some(inner) => inner == 0,
            None => false,
        };
        let time = if moved.0 == 0 {
            self.timestamp.advance_epoch()
        } else if inner_start {
            self.timestamp.advance_iteration()
        } else {
            Some(self.timestamp)
        };
        match time {
            Some(time) => {
                self.pc = moved;
                self.timestamp = time;
                Ok(true)
            },
            None => {
                assert(after_statement(before, statement@, before.held).is_some() ==> (
                after_statement(before, statement@, before.held).unwrap().0.pc == self@.pc
                    && after_statement(before, statement@, before.held).unwrap().0.timestamp
                    == self@.timestamp));
                self.pc = saved;
                Err(Error::internal("the clock cannot count further"))
            },
        }
    }

    /// Runs the machine until the epoch ends: until a step stops, which the
    /// sources do where there is no input after the first epoch, or enters
    /// the next epoch. All the input that was pushed is taken in, and the
    /// facts that are derived are queued for output in the order in which
    /// they were derived.
    ///
    /// `Total` of every relation only grows, and every relation holds only
    /// rows that fit its schema.
    ///
    /// The blockstore is asked only for queued inputs whose content
    /// identifier is not held. Where there is none, the result is `Ok`
    /// unless the epoch gets stuck: a step fails, or the epoch has not ended
    /// after `u64::MAX` steps, which is as far as the machine counts; then it
    /// is an internal error. Where the blockstore fails, the result is a
    /// blockstore error, and the input that it failed on and those after it
    /// stay queued.
    ///
    /// After an error the relations hold what was derived so far, and the
    /// machine is at the start of the program, at the first iteration of the
    /// epoch that it was in.
    pub fn step_epoch<BS: Blockstore>(&mut self, blockstore: &BS) -> (r: Result<(), Error>)
        requires
            old(self).wf(),
        ensures
            final(self).wf(),
            store_wf(final(self)@.store),
            store_grows(old(self)@.store, final(self)@.store),
            final(self)@.statements == old(self)@.statements,
            r is Ok ==> epoch_ends_at(old(self)@, final(self)@),
            r matches Err(e) ==> (e@ == ErrorView::BlockstoreError && asks_blockstore(
                old(self)@.held,
                old(self)@.input,
            ) && sources_stopped(old(self)@, final(self)@)) || (e@ == ErrorView::InternalError
                && epoch_gets_stuck(old(self)@)),
            r is Err ==> final(self)@.pc == (0usize, None::<usize>) && final(self)@.timestamp == (
            Timestamp { iteration: 0, ..old(self)@.timestamp }),
            !asks_blockstore(old(self)@.held, old(self)@.input) ==> (r is Err <==> epoch_gets_stuck(
                old(self)@,
            )),
    {
        let ghost start = self@;
        let epoch = self.timestamp.epoch();
        let mut budget: u64 = u64::MAX;
        let ghost mut helds: Seq<Seq<Seq<u8>>> = seq![];
        proof {
            lemma_grows_refl(start.store);
        }
        while budget > 0
            invariant
                self.wf(),
                start == old(self)@,
                epoch == start.timestamp.epoch,
                self@.timestamp.epoch == epoch,
                self@.timestamp.clock == start.timestamp.clock,
                store_grows(start.store, self@.store),
                self@.statements == start.statements,
                stepped(start, helds) == Some(self@),
                helds.len() == u64::MAX - budget,
                (self@.input == start.input && self@.held == start.held) || self@.input.len() == 0,
            decreases budget,
        {
            budget -= 1;
            let ghost before = self@;
            match self.step(blockstore) {
                Ok(go) => {
                    proof {
                        lemma_grows_trans(start.store, before.store, self@.store);
                        lemma_step_frame(before, self@.held);
                    }
                    if !go || self.timestamp.epoch() != epoch {
                        proof {
                            self.storage.lemma_wf();
                            assert(ends_after(start, helds, self@));
                            if !asks_blockstore(start.held, start.input) {
                                lemma_ended_not_stuck(start, helds, self@);
                            }
                        }
                        return Ok(());
                    }
                    proof {
                        let longer = helds.push(self@.held);
                        assert(longer.drop_last() =~= helds);
                        helds = longer;
                    }
                },
                Err(e) => {
                    let ghost failed = self@;
                    proof {
                        lemma_grows_trans(start.store, before.store, self@.store);
                        if e@ == ErrorView::InternalError {
                            assert(stuck_after(start, helds));
                        } else {
                            assert(asks_blockstore(before.held, before.input));
                            assert(before.input.len() > 0);
                            assert(sources_stopped(start, failed));
                        }
                    }
                    self.abandon();
                    proof {
                        self.storage.lemma_wf();
                        if e@ != ErrorView::InternalError {
                            let done = choose|done: int| #[trigger]
                                stopped_at(
                                    start.input,
                                    start.held,
                                    failed.input,
                                    failed.held,
                                    done,
                                );
                            assert(stopped_at(
                                start.input,
                                start.held,
                                self@.input,
                                self@.held,
                                done,
                            ));
                        }
                    }
                    return Err(e);
                },
            }
        }
        assert(stuck_after(start, helds));
        self.abandon();
        proof {
            self.storage.lemma_wf();
        }
        Err(Error::internal("the epoch took more steps than the machine counts"))
    }

    /// Abandons the epoch: the program counter goes back to the start of the
    /// program and the clock to the first iteration of the epoch that the
    /// machine is in.
    fn abandon(&mut self)
        requires
            old(self).wf(),
        ensures
            final(self).wf(),
            final(self)@ == (VMView {
                pc: (0usize, None::<usize>),
                timestamp: Timestamp { iteration: 0, ..old(self)@.timestamp },
                ..old(self)@
            }),
    {
        self.pc = (0, None);
        self.timestamp = self.timestamp.epoch_start();
    }
}

} // verus!
