//! Aggregation: the fold of a reducer over the rows of a relation that have
//! the values of a key.

use vstd::prelude::*;
use crate::error::{Error, ErrorView};
use crate::id::AliasId;
use crate::logic::ast::{opt_value_view, Column, ColumnView, Reducer};
use crate::ram::{operation_view, Attr, Formula, Operation, OperationView, Relation, Term};
use crate::runtime::eval::{
    aggregate, bind_row, bind_row_into, fold_from, fold_rows, key_for, lemma_bind_row_extends,
    reduce_step, resolve, resolve_term, resolve_terms, Bound, BoundView, FoldView,
};
use crate::storage::{
    find_table, matches_key, matching, row_matches, store_wf, version_rows, Row, RowView, Storage,
    TableView, TupleSet,
};
use crate::value::{value_less, views, Value, ValueView};
use crate::var::{Var, VarView};

verus! {

/// An aggregation, ready to be applied: the parts of an
/// `Operation::Aggregation`.
pub struct Reduce<'a> {
    args: &'a Vec<Term>,
    init: &'a Option<Value>,
    reducer: Reducer,
    target: &'a Var,
    group_by_cols: &'a Vec<Attr>,
    relation: &'a Relation,
    alias: Option<AliasId>,
    when: &'a Vec<Formula>,
    operation: &'a Operation,
}

/// One step of a reducer.
pub fn reduce_value(reducer: Reducer, acc: Value, args: Vec<Value>) -> (r: Option<Value>)
    ensures
        crate::runtime::eval::opt_view(r) == reduce_step(reducer, acc@, views(args@)),
{
    match reducer {
        Reducer::Min => {
            if args.len() != 1 {
                return None;
            }
            assert(views(args@)[0] == args@[0]@);
            match args[0].less(&acc) {
                Some(true) => Some(args[0].clone()),
                Some(false) => Some(acc),
                None => None,
            }
        },
        Reducer::Max => {
            if args.len() != 1 {
                return None;
            }
            assert(views(args@)[0] == args@[0]@);
            match acc.less(&args[0]) {
                Some(true) => Some(args[0].clone()),
                Some(false) => Some(acc),
                None => None,
            }
        },
        Reducer::Sum => {
            if args.len() != 1 {
                return None;
            }
            assert(views(args@)[0] == args@[0]@);
            match (&acc, &args[0]) {
                (Value::I64(a), Value::I64(b)) => match a.checked_add(*b) {
                    Some(sum) => Some(Value::I64(sum)),
                    None => None,
                },
                _ => None,
            }
        },
        Reducer::Count => match &acc {
            Value::I64(a) => match a.checked_add(1) {
                Some(count) => Some(Value::I64(count)),
                None => None,
            },
            _ => None,
        },
    }
}

/// The rows among those of `set` that have the values that `key` asks for.
pub fn search_key(schema: &Vec<Column>, set: &TupleSet, key: &Vec<crate::logic::ast::FactArg>) -> (found:
    Vec<Row>)
    ensures
        views(found@) == matching(views(schema@), set@, views(key@)),
{
    let mut found: Vec<Row> = Vec::new();
    let ghost rows = set@;
    let mut j: usize = 0;
    assert(rows.take(0) =~= seq![]);
    while j < set.len()
        invariant
            j <= set@.len(),
            rows == set@,
            views(found@) =~= matching(views(schema@), rows.take(j as int), views(key@)),
        decreases set@.len() - j,
    {
        proof {
            assert(rows.take(j + 1).drop_last() =~= rows.take(j as int));
            assert(rows.take(j + 1).last() == rows[j as int]);
        }
        if matches_key(schema, set.row(j), key) {
            let ghost before = views(found@);
            found.push(set.row(j).clone());
            assert(views(found@) =~= before.push(rows[j as int]));
        }
        j += 1;
    }
    assert(rows.take(j as int) =~= rows);
    found
}

/// Where the fold over the rows up to one fails, the fold over all fails.
proof fn lemma_fold_fail(
    fold: FoldView,
    start: ValueView,
    rows: Seq<RowView>,
    upto: int,
    bindings: Seq<BoundView>,
)
    requires
        0 <= upto < rows.len(),
        fold_from(fold, start, rows.take(upto + 1), bindings).is_none(),
    ensures
        fold_from(fold, start, rows, bindings).is_none(),
    decreases rows.len(),
{
    if upto + 1 < rows.len() {
        assert(rows.drop_last().take(upto + 1) =~= rows.take(upto + 1));
        lemma_fold_fail(fold, start, rows.drop_last(), upto, bindings);
    } else {
        assert(rows.take(upto + 1) =~= rows);
    }
}

impl<'a> Reduce<'a> {
    /// The parts of the aggregation as its fold sees them.
    pub closed spec fn fold_view(&self, schema: Seq<ColumnView>) -> FoldView {
        FoldView {
            reducer: self.reducer,
            args: views(self.args@),
            relation: self.relation@.id,
            alias: self.alias,
            schema,
        }
    }

    /// The result that the aggregation has under `bindings`.
    pub closed spec fn result(&self, bindings: Seq<BoundView>, store: Seq<TableView>) -> Result<
        Option<ValueView>,
        (),
    > {
        aggregate(
            self.relation@,
            self.alias,
            views(self.group_by_cols@),
            views(self.args@),
            opt_value_view(*self.init),
            self.reducer,
            bindings,
            store,
        )
    }

    /// The operation that the aggregation is.
    pub closed spec fn whole(&self) -> OperationView {
        OperationView::Aggregation {
            relation: self.relation@,
            alias: self.alias,
            when: views(self.when@),
            group_by_cols: views(self.group_by_cols@),
            args: views(self.args@),
            init: opt_value_view(*self.init),
            target: self.target@,
            reducer: self.reducer,
            operation: Box::new(operation_view(*self.operation)),
        }
    }

    /// The aggregation that an operation is, if it is one.
    pub fn new(operation: &'a Operation) -> (r: Option<Reduce<'a>>)
        ensures
            r.is_some() == (operation@ is Aggregation),
            r matches Some(reduce) ==> reduce.whole() == operation@,
    {
        match operation {
            Operation::Aggregation {
                relation,
                alias,
                when,
                group_by_cols,
                args,
                init,
                target,
                reducer,
                operation,
            } => Some(
                Reduce {
                    args,
                    init,
                    reducer: *reducer,
                    target,
                    group_by_cols,
                    relation,
                    alias: *alias,
                    when,
                    operation,
                },
            ),
            _ => None,
        }
    }

    /// The operation nested in the aggregation.
    pub fn operation(&self) -> (operation: &'a Operation)
        ensures
            self.whole() matches OperationView::Aggregation { operation: inner, .. } && *inner
                == operation@,
    {
        self.operation
    }

    /// The result of the aggregation spelt out over the parts of the
    /// operation.
    pub proof fn lemma_result(&self, bindings: Seq<BoundView>, store: Seq<TableView>)
        ensures
            self.whole() matches OperationView::Aggregation {
                relation,
                alias,
                group_by_cols,
                args,
                init,
                reducer,
                ..
            } && self.result(bindings, store) == aggregate(
                relation,
                alias,
                group_by_cols,
                args,
                init,
                reducer,
                bindings,
                store,
            ),
    {
    }

    /// One step of the reducer. Its failure is an internal error with the
    /// message "reducer failed".
    pub fn do_reduce(&self, acc: Value, args: Vec<Value>) -> (r: Result<Value, Error>)
        ensures
            r matches Ok(v) ==> reduce_step(self.fold_view(seq![]).reducer, acc@, views(args@))
                == Some(v@),
            r matches Err(e) ==> reduce_step(
                self.fold_view(seq![]).reducer,
                acc@,
                views(args@),
            ).is_none() && e@ == ErrorView::InternalError && e.message() == "reducer failed"@,
    {
        match reduce_value(self.reducer, acc, args) {
            Some(v) => Ok(v),
            None => Err(Error::internal("reducer failed")),
        }
    }

    /// Applies the aggregation: folds the reducer over the rows that have
    /// the values of the key. `Ok(None)` where there is no such row and no
    /// initial value. Fails with an internal error where the relation is not
    /// declared, a term has no value, or the reducer fails. The bindings are
    /// left as they were.
    pub fn apply(&self, store: &Storage, bindings: &mut Vec<Bound>) -> (r: Result<
        Option<Value>,
        Error,
    >)
        requires
            store.wf(),
        ensures
            views(final(bindings)@) == views(old(bindings)@),
            r matches Ok(found) ==> self.result(views(old(bindings)@), store@) == Ok::<
                Option<ValueView>,
                (),
            >(opt_value_view(found)),
            r matches Err(e) ==> self.result(views(old(bindings)@), store@) is Err && e@
                == ErrorView::InternalError,
    {
        proof {
            store.lemma_wf();
        }
        let key = match key_for(self.group_by_cols, bindings) {
            Some(key) => key,
            None => {
                return Err(Error::internal("expected term to resolve"));
            },
        };
        let index = match store.find(&self.relation.id) {
            Some(index) => index,
            None => {
                return Err(Error::internal("relation is not declared"));
            },
        };
        let table = store.table(index);
        let schema = &table.declaration().schema;
        let found = search_key(schema, table.rows(self.relation.version), &key);
        proof {
            lemma_matching_conform(
                views(schema@),
                version_rows(store@[index as int], self.relation@.version),
                views(key@),
            );
        }
        self.do_apply(schema, &found, bindings)
    }

    /// Folds the reducer over the rows found.
    fn do_apply(&self, schema: &Vec<Column>, found: &Vec<Row>, bindings: &mut Vec<Bound>) -> (r:
        Result<Option<Value>, Error>)
        requires
            forall|j: int|
                0 <= j < found.len() ==> (#[trigger] views(found@)[j]).values.len() == schema.len(),
        ensures
            views(final(bindings)@) == views(old(bindings)@),
            r matches Ok(result) ==> fold_rows(
                self.fold_view(views(schema@)),
                opt_value_view(*self.init),
                views(found@),
                views(old(bindings)@),
            ) == Ok::<Option<ValueView>, ()>(opt_value_view(result)),
            r matches Err(e) ==> fold_rows(
                self.fold_view(views(schema@)),
                opt_value_view(*self.init),
                views(found@),
                views(old(bindings)@),
            ) is Err && e@ == ErrorView::InternalError,
    {
        let ghost fold = self.fold_view(views(schema@));
        let ghost rows = views(found@);
        let ghost bs = views(bindings@);
        let mark = bindings.len();
        if found.len() == 0 {
            return Ok(
                match self.init {
                    Some(v) => Some(v.clone()),
                    None => None,
                },
            );
        }
        let mut result: Value;
        let first: usize;
        match self.init {
            Some(v) => {
                result = v.clone();
                first = 0;
                assert(rows.skip(0) =~= rows);
            },
            None => {
                if self.args.len() != 1 {
                    assert(views(self.args@).len() == self.args.len());
                    return Err(Error::internal("expected a single reduce binding"));
                }
                assert(views(self.args@)[0] == self.args@[0]@);
                assert(rows[0] == found@[0]@);
                bind_row_into(bindings, &self.relation.id, self.alias, schema, &found[0]);
                let start = resolve_term(bindings, &self.args[0]);
                proof {
                    lemma_bind_row_extends(bs, fold.relation, fold.alias, fold.schema, rows[0]);
                }
                let ghost extended = views(bindings@);
                bindings.truncate(mark);
                assert(views(bindings@) =~= extended.take(mark as int));
                match start {
                    Some(v) => {
                        result = v;
                    },
                    None => {
                        return Err(Error::internal("argument to reduce failed to resolve"));
                    },
                }
                first = 1;
                assert(rows.skip(1) =~= rows.drop_first());
            },
        }
        let ghost start = result@;
        let ghost rest = rows.skip(first as int);
        let mut k: usize = first;
        assert(rest.take(0) =~= seq![]);
        assert(fold_rows(fold, opt_value_view(*self.init), rows, bs) == (match fold_from(
            fold,
            start,
            rest,
            bs,
        ) {
            Some(v) => Ok::<Option<ValueView>, ()>(Some(v)),
            None => Err::<Option<ValueView>, ()>(()),
        }));
        while k < found.len()
            invariant
                first <= k <= found.len(),
                mark == bindings.len(),
                rows == views(found@),
                rest == rows.skip(first as int),
                bs == views(bindings@),
                bs == views(old(bindings)@),
                fold_rows(fold, opt_value_view(*self.init), rows, bs) == (match fold_from(
                    fold,
                    start,
                    rest,
                    bs,
                ) {
                    Some(v) => Ok::<Option<ValueView>, ()>(Some(v)),
                    None => Err::<Option<ValueView>, ()>(()),
                }),
                fold == self.fold_view(views(schema@)),
                forall|j: int|
                    0 <= j < found.len() ==> (#[trigger] views(found@)[j]).values.len()
                        == schema.len(),
                fold_from(fold, start, rest.take(k - first), bs) == Some(result@),
            decreases found.len() - k,
        {
            proof {
                assert(rest.take(k - first + 1).drop_last() =~= rest.take(k - first));
                assert(rest.take(k - first + 1).last() == rows[k as int]);
                assert(rows[k as int] == found@[k as int]@);
                lemma_bind_row_extends(bs, fold.relation, fold.alias, fold.schema, rows[k as int]);
            }
            bind_row_into(bindings, &self.relation.id, self.alias, schema, &found[k]);
            let args = resolve_terms(self.args, bindings);
            let ghost extended = views(bindings@);
            bindings.truncate(mark);
            assert(views(bindings@) =~= extended.take(mark as int));
            let args = match args {
                Some(args) => args,
                None => {
                    proof {
                        lemma_fold_fail(fold, start, rest, k - first, bs);
                    }
                    return Err(Error::internal("argument to reduce failed to resolve"));
                },
            };
            match self.do_reduce(result, args) {
                Ok(v) => {
                    result = v;
                },
                Err(e) => {
                    proof {
                        lemma_fold_fail(fold, start, rest, k - first, bs);
                    }
                    return Err(e);
                },
            }
            k += 1;
        }
        assert(rest.take(k - first) =~= rest);
        Ok(Some(result))
    }
}

/// The rows that match a key are rows of the set, so they fit the schema
/// where those do.
pub proof fn lemma_matching_conform(schema: Seq<ColumnView>, rows: Seq<RowView>, key: Seq<
    crate::logic::ast::FactArgView,
>)
    requires
        crate::storage::all_conform(schema, rows),
    ensures
        forall|j: int|
            0 <= j < matching(schema, rows, key).len() ==> (#[trigger] matching(
                schema,
                rows,
                key,
            )[j]).values.len() == schema.len(),
        forall|j: int|
            0 <= j < matching(schema, rows, key).len() ==> rows.contains(
                #[trigger] matching(schema, rows, key)[j],
            ) && row_matches(schema, matching(schema, rows, key)[j], key),
    decreases rows.len(),
{
    if rows.len() > 0 {
        assert forall|j: int| 0 <= j < rows.drop_last().len() implies crate::storage::conforms(
            schema,
            #[trigger] rows.drop_last()[j],
        ) by {
            assert(rows.drop_last()[j] == rows[j]);
        }
        lemma_matching_conform(schema, rows.drop_last(), key);
        let prev = matching(schema, rows.drop_last(), key);
        let now = matching(schema, rows, key);
        assert forall|j: int| 0 <= j < now.len() implies rows.contains(#[trigger] now[j])
            && row_matches(schema, now[j], key) && now[j].values.len() == schema.len() by {
            if j < prev.len() {
                assert(now[j] == prev[j]);
                let k = rows.drop_last().index_of(prev[j]);
                assert(rows[k] == prev[j]);
            } else {
                assert(now[j] == rows.last());
                assert(rows[rows.len() - 1] == rows.last());
            }
        }
    }
}

} // verus!
