//! The evaluation of operations: what a search, an aggregation and a
//! projection give under the rows that the storage holds.

use vstd::prelude::*;
use crate::error::{Error, ErrorView};
use crate::id::{AliasId, RelationId};
use crate::logic::ast::{Column, ColumnView, FactArg, FactArgView, Reducer};
use crate::logic::lower_to_ram::same_term;
use crate::ram::{
    operation_view, Attr, AttrView, Formula, FormulaView, Operation, OperationView, RelationView,
    Term, TermView,
};
use crate::runtime::blockstore::held_set;
use crate::storage::{
    find_table, matching, row_matches, version_rows, Row, RowView, Storage, TableView,
};
use crate::tuple::{Tuple, TupleView};
use crate::value::{value_less, views, Cid, Value, ValueView};

verus! {

/// A term with the value it is bound to.
pub struct Bound {
    pub term: Term,
    pub value: Value,
}

/// The mathematical content of a [`Bound`].
pub struct BoundView {
    pub term: TermView,
    pub value: ValueView,
}

impl View for Bound {
    type V = BoundView;

    open spec fn view(&self) -> BoundView {
        BoundView { term: self.term@, value: self.value@ }
    }
}

/// The value that `bindings` holds for `term`: that of the last entry for
/// it.
pub open spec fn bound_value(bindings: Seq<BoundView>, term: TermView) -> Option<ValueView>
    decreases bindings.len(),
{
    if bindings.len() == 0 {
        None
    } else if bindings.last().term == term {
        Some(bindings.last().value)
    } else {
        bound_value(bindings.drop_last(), term)
    }
}

/// The value of a term: its own for a literal, and what `bindings` holds for
/// it otherwise.
pub open spec fn resolve(bindings: Seq<BoundView>, term: TermView) -> Option<ValueView> {
    match term {
        TermView::Literal(v) => Some(v),
        _ => bound_value(bindings, term),
    }
}

/// `bindings` with the first `count` columns of a row bound, in order: each
/// column of the schema, as an attribute of the relation under the alias, to
/// the row's value in it.
pub open spec fn bind_cols(
    bindings: Seq<BoundView>,
    relation: Seq<char>,
    alias: Option<AliasId>,
    schema: Seq<ColumnView>,
    values: Seq<ValueView>,
    count: nat,
) -> Seq<BoundView>
    decreases count,
{
    if count == 0 {
        bindings
    } else {
        bind_cols(bindings, relation, alias, schema, values, (count - 1) as nat).push(
            BoundView {
                term: TermView::Attribute { col: schema[count - 1].id, relation, alias },
                value: values[count - 1],
            },
        )
    }
}

/// `bindings` with a row bound: its columns, and its content identifier if
/// it has one.
pub open spec fn bind_row(
    bindings: Seq<BoundView>,
    relation: Seq<char>,
    alias: Option<AliasId>,
    schema: Seq<ColumnView>,
    row: RowView,
) -> Seq<BoundView> {
    let bound = bind_cols(bindings, relation, alias, schema, row.values, schema.len());
    match row.cid {
        Some(c) => bound.push(
            BoundView { term: TermView::Cid { relation, alias }, value: ValueView::Cid(c) },
        ),
        None => bound,
    }
}

/// The fields that the attributes give under `bindings`, in order: `None`
/// where a term has no value.
pub open spec fn key_of(attributes: Seq<AttrView>, bindings: Seq<BoundView>) -> Option<
    Seq<FactArgView>,
>
    decreases attributes.len(),
{
    if attributes.len() == 0 {
        Some(seq![])
    } else {
        match key_of(attributes.drop_last(), bindings) {
            Some(prev) => match resolve(bindings, attributes.last().term) {
                Some(v) => Some(prev.push(FactArgView { col: attributes.last().col, value: v })),
                None => None,
            },
            None => None,
        }
    }
}

/// The values of the terms under `bindings`, in order: `None` where a term
/// has no value.
pub open spec fn resolve_all(terms: Seq<TermView>, bindings: Seq<BoundView>) -> Option<
    Seq<ValueView>,
>
    decreases terms.len(),
{
    if terms.len() == 0 {
        Some(seq![])
    } else {
        match resolve_all(terms.drop_last(), bindings) {
            Some(prev) => match resolve(bindings, terms.last()) {
                Some(v) => Some(prev.push(v)),
                None => None,
            },
            None => None,
        }
    }
}

/// Whether some row has the values that `key` asks for.
pub open spec fn any_match(schema: Seq<ColumnView>, rows: Seq<RowView>, key: Seq<FactArgView>) -> bool {
    exists|j: int| 0 <= j < rows.len() && row_matches(schema, #[trigger] rows[j], key)
}

/// Whether a formula holds under `bindings`: `None` where a term has no
/// value or a relation is not declared.
pub open spec fn formula_holds(
    formula: FormulaView,
    bindings: Seq<BoundView>,
    store: Seq<TableView>,
) -> Option<bool> {
    match formula {
        FormulaView::Equality(a, b) => match (resolve(bindings, a), resolve(bindings, b)) {
            (Some(x), Some(y)) => Some(x == y),
            _ => None,
        },
        FormulaView::NotIn { attributes, relation } => match key_of(attributes, bindings) {
            Some(key) => match find_table(store, relation.id) {
                Some(i) => Some(
                    !any_match(
                        store[i].declaration.schema,
                        version_rows(store[i], relation.version),
                        key,
                    ),
                ),
                None => None,
            },
            None => None,
        },
    }
}

/// Whether all the formulas hold, taken in order up to the first that does
/// not: `None` where one of those taken cannot be decided.
pub open spec fn formulas_hold(
    formulas: Seq<FormulaView>,
    bindings: Seq<BoundView>,
    store: Seq<TableView>,
) -> Option<bool>
    decreases formulas.len(),
{
    if formulas.len() == 0 {
        Some(true)
    } else {
        match formula_holds(formulas[0], bindings, store) {
            Some(true) => formulas_hold(formulas.drop_first(), bindings, store),
            Some(false) => Some(false),
            None => None,
        }
    }
}

/// One step of a reducer: the smaller or the larger of the accumulator and
/// the argument, their sum, or the accumulator and one. `None` where the
/// values are not of one tag, are no integers where integers are needed, or
/// the result is no `i64`, and where `min`, `max` or `sum` get another
/// number of arguments than one.
pub open spec fn reduce_step(reducer: Reducer, acc: ValueView, args: Seq<ValueView>) -> Option<
    ValueView,
> {
    match reducer {
        Reducer::Min => if args.len() == 1 {
            match value_less(args[0], acc) {
                Some(less) => Some(
                    if less {
                        args[0]
                    } else {
                        acc
                    },
                ),
                None => None,
            }
        } else {
            None
        },
        Reducer::Max => if args.len() == 1 {
            match value_less(acc, args[0]) {
                Some(less) => Some(
                    if less {
                        args[0]
                    } else {
                        acc
                    },
                ),
                None => None,
            }
        } else {
            None
        },
        Reducer::Sum => if args.len() == 1 {
            match (acc, args[0]) {
                (ValueView::I64(a), ValueView::I64(b)) => if i64::MIN <= a + b <= i64::MAX {
                    Some(ValueView::I64((a + b) as i64))
                } else {
                    None
                },
                _ => None,
            }
        } else {
            None
        },
        Reducer::Count => match acc {
            ValueView::I64(a) => if a < i64::MAX {
                Some(ValueView::I64((a + 1) as i64))
            } else {
                None
            },
            _ => None,
        },
    }
}

/// The description of an aggregation that its fold needs.
pub struct FoldView {
    pub reducer: Reducer,
    pub args: Seq<TermView>,
    pub relation: Seq<char>,
    pub alias: Option<AliasId>,
    pub schema: Seq<ColumnView>,
}

/// The fold of a reducer over `rows`, in order, from `start`: each row is
/// bound, the arguments take their values, and the reducer makes its step.
/// `None` where an argument has no value or the reducer fails.
pub open spec fn fold_from(
    fold: FoldView,
    start: ValueView,
    rows: Seq<RowView>,
    bindings: Seq<BoundView>,
) -> Option<ValueView>
    decreases rows.len(),
{
    if rows.len() == 0 {
        Some(start)
    } else {
        match fold_from(fold, start, rows.drop_last(), bindings) {
            Some(acc) => match resolve_all(
                fold.args,
                bind_row(bindings, fold.relation, fold.alias, fold.schema, rows.last()),
            ) {
                Some(values) => reduce_step(fold.reducer, acc, values),
                None => None,
            },
            None => None,
        }
    }
}

/// The result of an aggregation over `rows`. With no rows it is `init`, and
/// there is none where `init` is none. With rows and with `init`, it is the
/// fold over all the rows from `init`. With rows and without `init`, the
/// reducer must have one argument: its value under the first row starts the
/// fold over the other rows. `Err` where the reducer has another number of
/// arguments then, or where the fold fails.
pub open spec fn fold_rows(
    fold: FoldView,
    init: Option<ValueView>,
    rows: Seq<RowView>,
    bindings: Seq<BoundView>,
) -> Result<Option<ValueView>, ()> {
    if rows.len() == 0 {
        Ok(init)
    } else {
        let folded = match init {
            Some(start) => fold_from(fold, start, rows, bindings),
            None => if fold.args.len() == 1 {
                match resolve(
                    bind_row(bindings, fold.relation, fold.alias, fold.schema, rows[0]),
                    fold.args[0],
                ) {
                    Some(start) => fold_from(fold, start, rows.drop_first(), bindings),
                    None => None,
                }
            } else {
                None
            },
        };
        match folded {
            Some(v) => Ok(Some(v)),
            None => Err(()),
        }
    }
}

/// The result of an aggregation under `bindings`: the fold of its reducer
/// over the rows of its relation that have the values of its key. `Ok(None)`
/// where there is no such row and no `init`. `Err` where the relation is not
/// declared, a term of the key has no value, or the fold fails.
pub open spec fn aggregate(
    relation: RelationView,
    alias: Option<AliasId>,
    group_by_cols: Seq<AttrView>,
    args: Seq<TermView>,
    init: Option<ValueView>,
    reducer: Reducer,
    bindings: Seq<BoundView>,
    store: Seq<TableView>,
) -> Result<Option<ValueView>, ()> {
    match find_table(store, relation.id) {
        Some(i) => match key_of(group_by_cols, bindings) {
            Some(key) => {
                let schema = store[i].declaration.schema;
                let rows = matching(schema, version_rows(store[i], relation.version), key);
                let fold = FoldView { reducer, args, relation: relation.id, alias, schema };
                fold_rows(fold, init, rows, bindings)
            },
            None => Err(()),
        },
        None => Err(()),
    }
}

/// Whether a search takes a row: every row, unless the search goes by
/// content identifier; then the rows whose identifier is among those held.
pub open spec fn admitted(by_cid: bool, row: RowView, blocks: Set<Seq<u8>>) -> bool {
    !by_cid || (row.cid matches Some(c) && blocks.contains(c))
}

/// The tuples that an operation projects under `bindings`, in the order in
/// which the projection fires. `None` where a term has no value, a relation
/// is not declared, or a reducer fails.
pub open spec fn eval(
    operation: OperationView,
    bindings: Seq<BoundView>,
    store: Seq<TableView>,
    blocks: Set<Seq<u8>>,
) -> Option<Seq<TupleView>>
    decreases operation, 0nat,
{
    match operation {
        OperationView::Project { attributes, into } => match key_of(attributes, bindings) {
            Some(cols) => Some(seq![TupleView { id: into.id, cols, cid: None }]),
            None => None,
        },
        OperationView::Search { relation, alias, by_cid, when, operation } => match find_table(
            store,
            relation.id,
        ) {
            Some(i) => search_rows(
                *operation,
                SearchView {
                    relation: relation.id,
                    alias,
                    by_cid,
                    when,
                    schema: store[i].declaration.schema,
                },
                version_rows(store[i], relation.version),
                bindings,
                store,
                blocks,
            ),
            None => None,
        },
        OperationView::Aggregation {
            relation,
            alias,
            when,
            group_by_cols,
            args,
            init,
            target,
            reducer,
            operation,
        } => match aggregate(relation, alias, group_by_cols, args, init, reducer, bindings, store) {
            Ok(Some(result)) => {
                let bound = bindings.push(
                    BoundView {
                        term: TermView::Agg { relation: relation.id, alias, var: target },
                        value: result,
                    },
                );
                match formulas_hold(when, bound, store) {
                    Some(true) => eval(*operation, bound, store, blocks),
                    Some(false) => Some(seq![]),
                    None => None,
                }
            },
            Ok(None) => Some(seq![]),
            Err(_) => None,
        },
    }
}

/// The description of a search that its walk over the rows needs.
pub struct SearchView {
    pub relation: Seq<char>,
    pub alias: Option<AliasId>,
    pub by_cid: bool,
    pub when: Seq<FormulaView>,
    pub schema: Seq<ColumnView>,
}

/// The tuples that a search projects over `rows`, in order: for each row
/// that it takes and under which its conditions hold, those of the operation
/// nested in it.
pub open spec fn search_rows(
    inner: OperationView,
    search: SearchView,
    rows: Seq<RowView>,
    bindings: Seq<BoundView>,
    store: Seq<TableView>,
    blocks: Set<Seq<u8>>,
) -> Option<Seq<TupleView>>
    decreases inner, rows.len() + 1,
{
    if rows.len() == 0 {
        Some(seq![])
    } else {
        match search_rows(inner, search, rows.drop_last(), bindings, store, blocks) {
            Some(prev) => {
                if !admitted(search.by_cid, rows.last(), blocks) {
                    Some(prev)
                } else {
                    let bound = bind_row(
                        bindings,
                        search.relation,
                        search.alias,
                        search.schema,
                        rows.last(),
                    );
                    match formulas_hold(search.when, bound, store) {
                        Some(true) => match eval(inner, bound, store, blocks) {
                            Some(more) => Some(prev + more),
                            None => None,
                        },
                        Some(false) => Some(prev),
                        None => None,
                    }
                }
            },
            None => None,
        }
    }
}


/// The view of an optional borrowed value.
pub open spec fn opt_view(value: Option<Value>) -> Option<ValueView> {
    match value {
        Some(v) => Some(v@),
        None => None,
    }
}

/// The value of a term under `bindings`.
pub fn resolve_term(bindings: &Vec<Bound>, term: &Term) -> (r: Option<Value>)
    ensures
        opt_view(r) == resolve(views(bindings@), term@),
{
    if let Term::Literal(v) = term {
        return Some(v.clone());
    }
    let mut i: usize = bindings.len();
    let ghost all = views(bindings@);
    assert(all.take(i as int) =~= all);
    while i > 0
        invariant
            i <= bindings.len(),
            all == views(bindings@),
            !(term@ is Literal),
            bound_value(all, term@) == bound_value(all.take(i as int), term@),
        decreases i,
    {
        proof {
            let prefix = all.take(i as int);
            assert(prefix.last() == bindings@[i - 1]@);
            assert(prefix.drop_last() =~= all.take(i - 1));
        }
        if same_term(&bindings[i - 1].term, term) {
            return Some(bindings[i - 1].value.clone());
        }
        i -= 1;
    }
    None
}

/// Binding a row adds to the bindings and leaves those before it as they
/// are.
pub proof fn lemma_bind_row_extends(
    bindings: Seq<BoundView>,
    relation: Seq<char>,
    alias: Option<AliasId>,
    schema: Seq<ColumnView>,
    row: RowView,
)
    ensures
        bind_row(bindings, relation, alias, schema, row).len() >= bindings.len(),
        bind_row(bindings, relation, alias, schema, row).take(bindings.len() as int) == bindings,
{
    lemma_bind_cols_extends(bindings, relation, alias, schema, row.values, schema.len());
    let bound = bind_cols(bindings, relation, alias, schema, row.values, schema.len());
    assert(bind_row(bindings, relation, alias, schema, row).take(bindings.len() as int)
        =~= bound.take(bindings.len() as int));
}

/// Binding columns adds to the bindings and leaves those before them as
/// they are.
pub proof fn lemma_bind_cols_extends(
    bindings: Seq<BoundView>,
    relation: Seq<char>,
    alias: Option<AliasId>,
    schema: Seq<ColumnView>,
    values: Seq<ValueView>,
    count: nat,
)
    ensures
        bind_cols(bindings, relation, alias, schema, values, count).len() == bindings.len() + count,
        bind_cols(bindings, relation, alias, schema, values, count).take(bindings.len() as int)
            == bindings,
    decreases count,
{
    if count > 0 {
        lemma_bind_cols_extends(bindings, relation, alias, schema, values, (count - 1) as nat);
        let prev = bind_cols(bindings, relation, alias, schema, values, (count - 1) as nat);
        assert(bind_cols(bindings, relation, alias, schema, values, count).take(
            bindings.len() as int,
        ) =~= prev.take(bindings.len() as int));
    } else {
        assert(bindings.take(bindings.len() as int) =~= bindings);
    }
}

/// Binds a row: its columns, and its content identifier if it has one.
pub fn bind_row_into(
    bindings: &mut Vec<Bound>,
    relation: &RelationId,
    alias: Option<AliasId>,
    schema: &Vec<Column>,
    row: &Row,
)
    requires
        row@.values.len() == views(schema@).len(),
    ensures
        views(final(bindings)@) == bind_row(
            views(old(bindings)@),
            relation@,
            alias,
            views(schema@),
            row@,
        ),
{
    let ghost start = views(bindings@);
    let ghost columns = views(schema@);
    let mut i: usize = 0;
    assert(columns.len() == schema.len());
    assert(row@.values.len() == row.values.len());
    while i < schema.len()
        invariant
            i <= schema.len(),
            schema.len() == row.values.len(),
            columns == views(schema@),
            views(bindings@) == bind_cols(start, relation@, alias, columns, row@.values, i as nat),
        decreases schema.len() - i,
    {
        let ghost before = views(bindings@);
        assert(columns[i as int] == schema@[i as int]@);
        assert(row@.values[i as int] == row.values@[i as int]@);
        bindings.push(
            Bound {
                term: Term::Attribute {
                    col: schema[i].id.clone(),
                    relation: relation.clone(),
                    alias,
                },
                value: row.values[i].clone(),
            },
        );
        assert(views(bindings@) =~= before.push(bindings@.last()@));
        i += 1;
    }
    if let Some(c) = &row.cid {
        let ghost before = views(bindings@);
        bindings.push(
            Bound {
                term: Term::Cid { relation: relation.clone(), alias },
                value: Value::Cid(c.clone()),
            },
        );
        assert(views(bindings@) =~= before.push(bindings@.last()@));
    }
}

/// Where the attributes up to one give no fields, all of them give none.
proof fn lemma_key_fail(attributes: Seq<AttrView>, upto: int, bindings: Seq<BoundView>)
    requires
        0 <= upto < attributes.len(),
        key_of(attributes.take(upto + 1), bindings).is_none(),
    ensures
        key_of(attributes, bindings).is_none(),
    decreases attributes.len(),
{
    if upto + 1 < attributes.len() {
        assert(attributes.drop_last().take(upto + 1) =~= attributes.take(upto + 1));
        lemma_key_fail(attributes.drop_last(), upto, bindings);
    } else {
        assert(attributes.take(upto + 1) =~= attributes);
    }
}

/// The fields that the attributes give under `bindings`.
pub fn key_for(attributes: &Vec<Attr>, bindings: &Vec<Bound>) -> (r: Option<Vec<FactArg>>)
    ensures
        r.is_some() == key_of(views(attributes@), views(bindings@)).is_some(),
        r matches Some(key) ==> key_of(views(attributes@), views(bindings@)) == Some(views(key@)),
{
    let mut key: Vec<FactArg> = Vec::new();
    let ghost all = views(attributes@);
    let ghost bs = views(bindings@);
    let mut i: usize = 0;
    assert(all.take(0) =~= seq![]);
    assert(views(key@) =~= seq![]);
    while i < attributes.len()
        invariant
            i <= attributes.len(),
            all == views(attributes@),
            bs == views(bindings@),
            key_of(all.take(i as int), bs) == Some(views(key@)),
        decreases attributes.len() - i,
    {
        proof {
            assert(all.take(i + 1).drop_last() =~= all.take(i as int));
            assert(all.take(i + 1).last() == attributes@[i as int]@);
        }
        let ghost before = views(key@);
        match resolve_term(bindings, &attributes[i].term) {
            Some(value) => {
                key.push(FactArg { col: attributes[i].col.clone(), value });
                assert(views(key@) =~= before.push(key@.last()@));
            },
            None => {
                proof {
                    lemma_key_fail(all, i as int, bs);
                }
                return None;
            },
        }
        i += 1;
    }
    assert(all.take(i as int) =~= all);
    Some(key)
}

/// Where the terms up to one have no values, all of them have none.
proof fn lemma_resolve_all_fail(terms: Seq<TermView>, upto: int, bindings: Seq<BoundView>)
    requires
        0 <= upto < terms.len(),
        resolve_all(terms.take(upto + 1), bindings).is_none(),
    ensures
        resolve_all(terms, bindings).is_none(),
    decreases terms.len(),
{
    if upto + 1 < terms.len() {
        assert(terms.drop_last().take(upto + 1) =~= terms.take(upto + 1));
        lemma_resolve_all_fail(terms.drop_last(), upto, bindings);
    } else {
        assert(terms.take(upto + 1) =~= terms);
    }
}

/// The values of the terms under `bindings`.
pub fn resolve_terms(terms: &Vec<Term>, bindings: &Vec<Bound>) -> (r: Option<Vec<Value>>)
    ensures
        r.is_some() == resolve_all(views(terms@), views(bindings@)).is_some(),
        r matches Some(values) ==> resolve_all(views(terms@), views(bindings@)) == Some(
            views(values@),
        ),
{
    let mut values: Vec<Value> = Vec::new();
    let ghost all = views(terms@);
    let ghost bs = views(bindings@);
    let mut i: usize = 0;
    assert(all.take(0) =~= seq![]);
    assert(views(values@) =~= seq![]);
    while i < terms.len()
        invariant
            i <= terms.len(),
            all == views(terms@),
            bs == views(bindings@),
            resolve_all(all.take(i as int), bs) == Some(views(values@)),
        decreases terms.len() - i,
    {
        proof {
            assert(all.take(i + 1).drop_last() =~= all.take(i as int));
            assert(all.take(i + 1).last() == terms@[i as int]@);
        }
        let ghost before = views(values@);
        match resolve_term(bindings, &terms[i]) {
            Some(value) => {
                values.push(value);
                assert(views(values@) =~= before.push(values@.last()@));
            },
            None => {
                proof {
                    lemma_resolve_all_fail(all, i as int, bs);
                }
                return None;
            },
        }
        i += 1;
    }
    assert(all.take(i as int) =~= all);
    Some(values)
}

/// Whether a formula holds under `bindings`.
pub fn formula_true(formula: &Formula, bindings: &Vec<Bound>, store: &Storage) -> (r: Option<bool>)
    requires
        store.wf(),
    ensures
        r == formula_holds(formula@, views(bindings@), store@),
{
    match formula {
        Formula::Equality(a, b) => match (resolve_term(bindings, a), resolve_term(bindings, b)) {
            (Some(x), Some(y)) => Some(x.same(&y)),
            _ => None,
        },
        Formula::NotIn { attributes, relation } => {
            let key = match key_for(attributes, bindings) {
                Some(key) => key,
                None => {
                    return None;
                },
            };
            let index = match store.find(&relation.id) {
                Some(index) => index,
                None => {
                    return None;
                },
            };
            let table = store.table(index);
            let rows = table.rows(relation.version);
            let schema = &table.declaration().schema;
            let mut j: usize = 0;
            while j < rows.len()
                invariant
                    j <= rows@.len(),
                    formula@ == (FormulaView::NotIn {
                        attributes: views(attributes@),
                        relation: relation@,
                    }),
                    key_of(views(attributes@), views(bindings@)) == Some(views(key@)),
                    find_table(store@, relation@.id) == Some(index as int),
                    rows@ == version_rows(store@[index as int], relation@.version),
                    views(schema@) == store@[index as int].declaration.schema,
                    forall|k: int|
                        0 <= k < j ==> !row_matches(views(schema@), #[trigger] rows@[k], views(key@)),
                decreases rows@.len() - j,
            {
                if crate::storage::matches_key(schema, rows.row(j), &key) {
                    assert(row_matches(views(schema@), rows@[j as int], views(key@)));
                    return Some(false);
                }
                j += 1;
            }
            Some(true)
        },
    }
}

/// Whether all the formulas hold, taken in order up to the first that does
/// not.
pub fn formulas_true(formulas: &Vec<Formula>, bindings: &Vec<Bound>, store: &Storage) -> (r: Option<
    bool,
>)
    requires
        store.wf(),
    ensures
        r == formulas_hold(views(formulas@), views(bindings@), store@),
{
    let ghost all = views(formulas@);
    let mut i: usize = 0;
    assert(all.skip(0) =~= all);
    while i < formulas.len()
        invariant
            i <= formulas.len(),
            store.wf(),
            all == views(formulas@),
            formulas_hold(all, views(bindings@), store@) == formulas_hold(
                all.skip(i as int),
                views(bindings@),
                store@,
            ),
        decreases formulas.len() - i,
    {
        proof {
            assert(all.skip(i as int)[0] == formulas@[i as int]@);
            assert(all.skip(i as int).drop_first() =~= all.skip(i + 1));
        }
        match formula_true(&formulas[i], bindings, store) {
            Some(true) => {},
            Some(false) => {
                return Some(false);
            },
            None => {
                return None;
            },
        }
        i += 1;
    }
    Some(true)
}


/// Where the walk of a search over the rows up to one fails, its walk over
/// all the rows fails.
proof fn lemma_search_fail(
    inner: OperationView,
    search: SearchView,
    rows: Seq<RowView>,
    upto: int,
    bindings: Seq<BoundView>,
    store: Seq<TableView>,
    blocks: Set<Seq<u8>>,
)
    requires
        0 <= upto < rows.len(),
        search_rows(inner, search, rows.take(upto + 1), bindings, store, blocks).is_none(),
    ensures
        search_rows(inner, search, rows, bindings, store, blocks).is_none(),
    decreases rows.len(),
{
    if upto + 1 < rows.len() {
        assert(rows.drop_last().take(upto + 1) =~= rows.take(upto + 1));
        lemma_search_fail(inner, search, rows.drop_last(), upto, bindings, store, blocks);
    } else {
        assert(rows.take(upto + 1) =~= rows);
    }
}

/// Whether `cid` is among `held`.
pub fn holds(held: &Vec<Cid>, cid: &Cid) -> (b: bool)
    ensures
        b == held_set(views(held@)).contains(cid@),
{
    let mut i: usize = 0;
    while i < held.len()
        invariant
            i <= held.len(),
            forall|j: int| 0 <= j < i ==> views(held@)[j] != cid@,
        decreases held.len() - i,
    {
        if held[i].same(cid) {
            assert(views(held@)[i as int] == cid@);
            return true;
        }
        i += 1;
    }
    false
}

/// Runs an operation under `bindings` and adds the tuples that it projects
/// to `out`, in the order in which the projection fires. The storage is only
/// read. The bindings are left as they were. A search by content identifier
/// takes the rows whose identifier is among `held`.
///
/// Fails with an internal error exactly where the operation has no result: a
/// term has no value, a relation is not declared or a reducer fails.
#[verifier::loop_isolation(false)]
pub fn eval_operation(
    operation: &Operation,
    bindings: &mut Vec<Bound>,
    store: &Storage,
    held: &Vec<Cid>,
    out: &mut Vec<Tuple>,
) -> (r: Result<(), Error>)
    requires
        store.wf(),
    ensures
        r is Ok ==> views(final(bindings)@) == views(old(bindings)@) && eval(
            operation@,
            views(old(bindings)@),
            store@,
            held_set(views(held@)),
        ).is_some() && views(final(out)@) == views(old(out)@) + eval(
            operation@,
            views(old(bindings)@),
            store@,
            held_set(views(held@)),
        ).unwrap(),
        r matches Err(e) ==> e@ == ErrorView::InternalError && eval(
            operation@,
            views(old(bindings)@),
            store@,
            held_set(views(held@)),
        ).is_none(),
    decreases operation,
{
    let ghost bs = views(bindings@);
    let ghost had = views(out@);
    let ghost blocks = held_set(views(held@));
    proof {
        store.lemma_wf();
    }
    match operation {
        Operation::Project { attributes, into } => {
            match key_for(attributes, bindings) {
                Some(cols) => {
                    out.push(Tuple { id: into.id.clone(), cols, cid: None });
                    assert(views(out@) =~= had + seq![out@.last()@]);
                    Ok(())
                },
                None => Err(Error::internal("term of a projection failed to resolve")),
            }
        },
        Operation::Search { relation, alias, by_cid, when, operation: inner } => {
            let index = match store.find(&relation.id) {
                Some(index) => index,
                None => {
                    return Err(Error::internal("relation is not declared"));
                },
            };
            let table = store.table(index);
            let rows = table.rows(relation.version);
            let schema = &table.declaration().schema;
            let ghost search = SearchView {
                relation: relation@.id,
                alias: *alias,
                by_cid: *by_cid,
                when: views(when@),
                schema: views(schema@),
            };
            let ghost all = rows@;
            let ghost nested = operation_view(**inner);
            let mark = bindings.len();
            let mut j: usize = 0;
            assert(all.take(0) =~= seq![]);
            while j < rows.len()
                invariant
                    j <= all.len(),
                    mark == bindings.len(),
                    views(bindings@) == bs,
                    search_rows(nested, search, all.take(j as int), bs, store@, blocks).is_some(),
                    views(out@) == had + search_rows(
                        nested,
                        search,
                        all.take(j as int),
                        bs,
                        store@,
                        blocks,
                    ).unwrap(),
                decreases all.len() - j,
            {
                let row = rows.row(j);
                proof {
                    assert(all.take(j + 1).drop_last() =~= all.take(j as int));
                    assert(all.take(j + 1).last() == row@);
                    assert(crate::storage::conforms(search.schema, all[j as int]));
                }
                let wanted = if *by_cid {
                    match &row.cid {
                        Some(c) => holds(held, c),
                        None => false,
                    }
                } else {
                    true
                };
                assert(wanted == admitted(*by_cid, row@, blocks));
                if wanted {
                    proof {
                        lemma_bind_row_extends(bs, search.relation, search.alias, search.schema, row@);
                    }
                    bind_row_into(bindings, &relation.id, *alias, schema, row);
                    match formulas_true(when, bindings, store) {
                        None => {
                            proof {
                                lemma_search_fail(nested, search, all, j as int, bs, store@, blocks);
                            }
                            return Err(Error::internal("term of a formula failed to resolve"));
                        },
                        Some(false) => {},
                        Some(true) => {
                            let ghost before = views(out@);
                            match eval_operation(inner, bindings, store, held, out) {
                                Ok(()) => {},
                                Err(e) => {
                                    proof {
                                        lemma_search_fail(
                                            nested,
                                            search,
                                            all,
                                            j as int,
                                            bs,
                                            store@,
                                            blocks,
                                        );
                                    }
                                    return Err(e);
                                },
                            }
                        },
                    }
                    let ghost extended = views(bindings@);
                    bindings.truncate(mark);
                    assert(views(bindings@) =~= extended.take(mark as int));
                }
                j += 1;
            }
            assert(all.take(j as int) =~= all);
            Ok(())
        },
        Operation::Aggregation { relation, alias, when, target, operation: inner, .. } => {
            let reduce = match crate::runtime::reduce::Reduce::new(operation) {
                Some(reduce) => reduce,
                None => {
                    return Err(Error::internal("not an aggregation"));
                },
            };
            proof {
                reduce.lemma_result(bs, store@);
            }
            let result = match reduce.apply(store, bindings) {
                Ok(Some(result)) => result,
                Ok(None) => {
                    assert(views(out@) =~= had + Seq::<TupleView>::empty());
                    return Ok(());
                },
                Err(e) => {
                    return Err(e);
                },
            };
            let mark = bindings.len();
            bindings.push(
                Bound {
                    term: Term::Agg { relation: relation.id.clone(), alias: *alias, var: target.clone() },
                    value: result,
                },
            );
            assert(views(bindings@) =~= bs.push(bindings@.last()@));
            match formulas_true(when, bindings, store) {
                None => Err(Error::internal("term of a formula failed to resolve")),
                Some(false) => {
                    let ghost extended = views(bindings@);
                    bindings.truncate(mark);
                    assert(views(bindings@) =~= extended.take(mark as int));
                    assert(views(out@) =~= had + Seq::<TupleView>::empty());
                    Ok(())
                },
                Some(true) => match eval_operation(inner, bindings, store, held, out) {
                    Ok(()) => {
                        let ghost extended = views(bindings@);
                        bindings.truncate(mark);
                        assert(views(bindings@) =~= extended.take(mark as int));
                        Ok(())
                    },
                    Err(e) => Err(e),
                },
            }
        },
    }
}

} // verus!
