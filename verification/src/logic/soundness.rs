//! The lowering of rules is sound: whatever a lowered rule derives, the rule
//! itself derives, from rows of the relations of its body that agree on its
//! variables and that none of its negations matches, with the results of its
//! aggregations as the values of their targets.

use vstd::prelude::*;
use crate::id::AliasId;
use crate::logic::ast::{
    col_index, col_index_sound, term_relation, AggregationView, BodyTermView, CidValueView,
    ColumnView, FactArgView, NegationView, PredicateView, RuleView, StratumView,
};
use crate::logic::lower_to_ram::{
    agg_arg, agg_args, alias_after, analyse, args_when, attrs_of, bind_args, bind_cid, cid_when,
    count_dynamic, group_key, local_col, lookup, lower_rule, negations_when, occurrences, pow2,
    rewrite, with_conditions, BoundVarView, TermMetadataView,
};
use crate::logic::ast::distinct_columns;
use crate::logic::lowering_laws::conditions_of;
use crate::ram::{FormulaView, OperationView, RelationView, TermView, Version};
use crate::runtime::laws::derives;
use crate::tuple::TupleView;
use crate::runtime::eval::{
    aggregate, any_match, bind_cols, bind_row, fold_from, fold_rows, formula_holds,
    formulas_hold, key_of, reduce_step, resolve, resolve_all, BoundView, FoldView,
};
use crate::storage::{
    conforms, matching, find_table, find_table_sound, store_wf, table_wf, RowView, TableView,
};
use crate::value::ValueView;
use crate::var::{ColBindingView, ColValView, VarView};

verus! {

/// The value of the column `col` in a row of `schema`, if the schema has
/// the column.
pub open spec fn col_value(schema: Seq<ColumnView>, row: RowView, col: Seq<char>) -> Option<
    ValueView,
> {
    match col_index(schema, col) {
        Some(i) => if i < row.values.len() {
            Some(row.values[i])
        } else {
            None
        },
        None => None,
    }
}

/// Whether a term stands for something of the term that reads `relation`
/// under `alias`: a column or the content identifier of a search, or the
/// result of an aggregation.
pub open spec fn keyed_by(term: TermView, relation: Seq<char>, alias: Option<AliasId>) -> bool {
    match term {
        TermView::Attribute { relation: r, alias: a, .. } => r == relation && a == alias,
        TermView::Cid { relation: r, alias: a } => r == relation && a == alias,
        TermView::Agg { relation: r, alias: a, .. } => r == relation && a == alias,
        TermView::Literal(_) => false,
    }
}

/// Binding the columns of a row leaves the value of every term as it is
/// that does not stand for a column of the search.
pub proof fn lemma_bind_cols_other(
    bindings: Seq<BoundView>,
    relation: Seq<char>,
    alias: Option<AliasId>,
    schema: Seq<ColumnView>,
    values: Seq<ValueView>,
    count: nat,
    term: TermView,
)
    requires
        !keyed_by(term, relation, alias),
    ensures
        resolve(bind_cols(bindings, relation, alias, schema, values, count), term) == resolve(
            bindings,
            term,
        ),
    decreases count,
{
    if count > 0 {
        lemma_bind_cols_other(bindings, relation, alias, schema, values, (count - 1) as nat, term);
        let prev = bind_cols(bindings, relation, alias, schema, values, (count - 1) as nat);
        let now = bind_cols(bindings, relation, alias, schema, values, count);
        assert(now.drop_last() =~= prev);
    }
}

/// Binding a row leaves the value of every term as it is that does not
/// stand for something of the search.
pub proof fn lemma_bind_row_other(
    bindings: Seq<BoundView>,
    relation: Seq<char>,
    alias: Option<AliasId>,
    schema: Seq<ColumnView>,
    row: RowView,
    term: TermView,
)
    requires
        !keyed_by(term, relation, alias),
    ensures
        resolve(bind_row(bindings, relation, alias, schema, row), term) == resolve(bindings, term),
{
    lemma_bind_cols_other(bindings, relation, alias, schema, row.values, schema.len(), term);
    let bound = bind_cols(bindings, relation, alias, schema, row.values, schema.len());
    match row.cid {
        Some(c) => {
            let now = bind_row(bindings, relation, alias, schema, row);
            assert(now.drop_last() =~= bound);
        },
        None => {},
    }
}

/// After the first `count` columns of a row are bound, a column among them
/// has the row's value.
pub proof fn lemma_bind_cols_own(
    bindings: Seq<BoundView>,
    relation: Seq<char>,
    alias: Option<AliasId>,
    schema: Seq<ColumnView>,
    values: Seq<ValueView>,
    count: nat,
    col: Seq<char>,
)
    requires
        distinct_columns(schema),
        count <= schema.len(),
        col_index(schema, col) matches Some(i) && i < count,
    ensures
        resolve(
            bind_cols(bindings, relation, alias, schema, values, count),
            TermView::Attribute { col, relation, alias },
        ) == Some(values[col_index(schema, col).unwrap()]),
    decreases count,
{
    col_index_sound(schema, col);
    let i = col_index(schema, col).unwrap();
    let prev = bind_cols(bindings, relation, alias, schema, values, (count - 1) as nat);
    let now = bind_cols(bindings, relation, alias, schema, values, count);
    assert(now.drop_last() =~= prev);
    if schema[count - 1].id == col {
        assert(i == count - 1);
    } else {
        lemma_bind_cols_own(bindings, relation, alias, schema, values, (count - 1) as nat, col);
    }
}

/// After a row is bound, a column of the schema has the row's value.
pub proof fn lemma_bind_row_own(
    bindings: Seq<BoundView>,
    relation: Seq<char>,
    alias: Option<AliasId>,
    schema: Seq<ColumnView>,
    row: RowView,
    col: Seq<char>,
)
    requires
        distinct_columns(schema),
        row.values.len() == schema.len(),
        col_index(schema, col).is_some(),
    ensures
        resolve(
            bind_row(bindings, relation, alias, schema, row),
            TermView::Attribute { col, relation, alias },
        ) == col_value(schema, row, col),
{
    col_index_sound(schema, col);
    lemma_bind_cols_own(bindings, relation, alias, schema, row.values, schema.len(), col);
    let bound = bind_cols(bindings, relation, alias, schema, row.values, schema.len());
    match row.cid {
        Some(c) => {
            let now = bind_row(bindings, relation, alias, schema, row);
            assert(now.drop_last() =~= bound);
        },
        None => {},
    }
}

/// Formulas hold together exactly when each of them holds.
pub proof fn lemma_formulas_all(
    formulas: Seq<FormulaView>,
    bindings: Seq<BoundView>,
    store: Seq<TableView>,
)
    ensures
        formulas_hold(formulas, bindings, store) == Some(true) <==> forall|k: int|
            0 <= k < formulas.len() ==> formula_holds(#[trigger] formulas[k], bindings, store)
                == Some(true),
    decreases formulas.len(),
{
    if formulas.len() > 0 {
        lemma_formulas_all(formulas.drop_first(), bindings, store);
        let rest = formulas.drop_first();
        if formulas_hold(formulas, bindings, store) == Some(true) {
            assert forall|k: int| 0 <= k < formulas.len() implies formula_holds(
                #[trigger] formulas[k],
                bindings,
                store,
            ) == Some(true) by {
                if k > 0 {
                    assert(rest[k - 1] == formulas[k]);
                }
            }
        }
        if forall|k: int|
            0 <= k < formulas.len() ==> formula_holds(#[trigger] formulas[k], bindings, store)
                == Some(true) {
            assert(formula_holds(formulas[0], bindings, store) == Some(true));
            assert forall|k: int| 0 <= k < rest.len() implies formula_holds(
                #[trigger] rest[k],
                bindings,
                store,
            ) == Some(true) by {
                assert(rest[k] == formulas[k + 1]);
            }
        }
    }
}

/// Whether `later` holds for every variable that `earlier` holds a term for
/// the same term.
pub open spec fn keeps(earlier: Seq<BoundVarView>, later: Seq<BoundVarView>) -> bool {
    forall|x: Seq<char>|
        (#[trigger] lookup(earlier, x)).is_some() ==> lookup(later, x) == lookup(earlier, x)
}

/// Binding the variables of a predicate that are not bound keeps what was
/// bound.
pub proof fn lemma_bind_args_keeps(
    bindings: Seq<BoundVarView>,
    args: Seq<ColBindingView>,
    relation: Seq<char>,
    alias: Option<AliasId>,
)
    ensures
        keeps(bindings, bind_args(bindings, args, relation, alias)),
    decreases args.len(),
{
    if args.len() > 0 {
        lemma_bind_args_keeps(bindings, args.drop_last(), relation, alias);
        let prev = bind_args(bindings, args.drop_last(), relation, alias);
        let now = bind_args(bindings, args, relation, alias);
        assert forall|x: Seq<char>| (#[trigger] lookup(bindings, x)).is_some() implies lookup(now, x)
            == lookup(bindings, x) by {
            assert(lookup(prev, x) == lookup(bindings, x));
            if now != prev {
                assert(now.drop_last() =~= prev);
            }
        }
    }
}


/// The relation that a term searches or aggregates.
pub open spec fn layer_id(meta: TermMetadataView) -> Seq<char> {
    match meta {
        TermMetadataView::Search { id, .. } => id,
        TermMetadataView::Aggregation { id, .. } => id,
    }
}

/// The alias of a term.
pub open spec fn layer_alias(meta: TermMetadataView) -> Option<AliasId> {
    match meta {
        TermMetadataView::Search { alias, .. } => alias,
        TermMetadataView::Aggregation { alias, .. } => alias,
    }
}

/// Whether the term is a search that goes by content identifier.
pub open spec fn layer_by_cid(meta: TermMetadataView) -> bool {
    meta matches TermMetadataView::Search { by_cid, .. } && by_cid
}

/// The schema of a relation of the storage.
pub open spec fn schema_at(store: Seq<TableView>, id: Seq<char>) -> Seq<ColumnView> {
    store[find_table(store, id).unwrap()].declaration.schema
}

/// The number of searches among the first `count` terms.
pub open spec fn row_at(metas: Seq<TermMetadataView>, count: nat) -> nat
    decreases count,
{
    if count == 0 {
        0
    } else {
        row_at(metas, (count - 1) as nat) + if metas[count - 1] is Search {
            1nat
        } else {
            0nat
        }
    }
}

/// The row of the term `j`, where it is a search: `rows` holds one row for
/// each search, in order.
pub open spec fn layer_row(metas: Seq<TermMetadataView>, rows: Seq<RowView>, j: int) -> RowView {
    rows[row_at(metas, j as nat) as int]
}

/// The result of the term under `bindings`, where it is an aggregation.
pub open spec fn layer_result(
    meta: TermMetadataView,
    bindings: Seq<BoundView>,
    store: Seq<TableView>,
) -> Result<Option<ValueView>, ()> {
    match meta {
        TermMetadataView::Aggregation { id, alias, group_by_cols, args, init, reducer, .. } => aggregate(
            RelationView { id, version: Version::Total },
            alias,
            group_by_cols,
            args,
            init,
            reducer,
            bindings,
            store,
        ),
        TermMetadataView::Search { .. } => Err(()),
    }
}

/// The term that the result of an aggregation is bound to.
pub open spec fn layer_target(meta: TermMetadataView) -> TermView {
    match meta {
        TermMetadataView::Aggregation { id, alias, target, .. } => TermView::Agg {
            relation: id,
            alias,
            var: target,
        },
        TermMetadataView::Search { id, alias, .. } => TermView::Cid { relation: id, alias },
    }
}

/// What is bound after the first `count` terms: each search has bound its
/// row, and each aggregation its result.
pub open spec fn trace(
    metas: Seq<TermMetadataView>,
    rows: Seq<RowView>,
    store: Seq<TableView>,
    count: nat,
) -> Seq<BoundView>
    decreases count,
{
    if count == 0 {
        seq![]
    } else {
        let before = trace(metas, rows, store, (count - 1) as nat);
        let meta = metas[count - 1];
        if meta is Search {
            bind_row(
                before,
                layer_id(meta),
                layer_alias(meta),
                schema_at(store, layer_id(meta)),
                layer_row(metas, rows, count - 1),
            )
        } else {
            before.push(
                BoundView {
                    term: layer_target(meta),
                    value: layer_result(meta, before, store)->Ok_0.unwrap(),
                },
            )
        }
    }
}

/// Whether the term `j` succeeds: a search finds its row in `Total` or in
/// `Delta` of its relation and takes it, an aggregation has a result; and
/// the conditions of the term hold once the row or the result is bound.
pub open spec fn layer_holds(
    metas: Seq<TermMetadataView>,
    rows: Seq<RowView>,
    store: Seq<TableView>,
    blocks: Set<Seq<u8>>,
    j: int,
) -> bool {
    let found = find_table(store, layer_id(metas[j]));
    let row = layer_row(metas, rows, j);
    &&& if metas[j] is Search {
        &&& row_at(metas, j as nat) < rows.len()
        &&& found.is_some()
        &&& (store[found.unwrap()].total.contains(row) || store[found.unwrap()].delta.contains(row))
        &&& crate::runtime::eval::admitted(layer_by_cid(metas[j]), row, blocks)
    } else {
        layer_result(metas[j], trace(metas, rows, store, j as nat), store) matches Ok(Some(_))
    }
    &&& formulas_hold(conditions_of(metas[j]), trace(metas, rows, store, (j + 1) as nat), store)
        == Some(true)
}

/// What a rewrite derives, it derives by way of a row for each of its
/// searches, in `Total` or `Delta`, and of a result of each of its
/// aggregations, under which the conditions of the term hold; and its
/// projection makes the tuple of what is bound after all of them.
pub proof fn lemma_chain(
    metas: Seq<TermMetadataView>,
    core: OperationView,
    mask: nat,
    rows: Seq<RowView>,
    store: Seq<TableView>,
    blocks: Set<Seq<u8>>,
    tuple: TupleView,
    from: nat,
)
    requires
        core is Project,
        from <= metas.len(),
        row_at(metas, from) <= rows.len(),
        derives(
            rewrite(metas.skip(from as int), core, mask),
            rows.skip(row_at(metas, from) as int),
            trace(metas, rows, store, from),
            store,
            blocks,
            tuple,
        ),
    ensures
        rows.len() == row_at(metas, metas.len()),
        forall|j: int| from <= j < metas.len() ==> #[trigger] layer_holds(metas, rows, store, blocks, j),
        derives(
            core,
            Seq::<RowView>::empty(),
            trace(metas, rows, store, metas.len()),
            store,
            blocks,
            tuple,
        ),
    decreases metas.len() - from,
{
    let rest = metas.skip(from as int);
    let at = row_at(metas, from) as int;
    let left = rows.skip(at);
    if from == metas.len() {
        assert(rest =~= seq![]);
        assert(left.len() == 0);
        assert(left =~= Seq::<RowView>::empty());
    } else {
        assert(rest[0] == metas[from as int]);
        assert(rest.drop_first() =~= metas.skip(from as int + 1));
        let meta = metas[from as int];
        let next = trace(metas, rows, store, (from + 1) as nat);
        if meta is Search {
            assert(left.len() > 0);
            assert(left[0] == rows[at]);
            assert(left.drop_first() =~= rows.skip(at + 1));
            assert(row_at(metas, (from + 1) as nat) == at + 1);
        } else {
            assert(row_at(metas, (from + 1) as nat) == at);
        }
        assert(derives(
            rewrite(metas.skip(from as int + 1), core, mask),
            rows.skip(row_at(metas, (from + 1) as nat) as int),
            next,
            store,
            blocks,
            tuple,
        ));
        lemma_chain(metas, core, mask, rows, store, blocks, tuple, (from + 1) as nat);
        assert(layer_holds(metas, rows, store, blocks, from as int));
    }
}

/// Whether a column binding names the variable `x`.
pub open spec fn arg_names(arg: ColBindingView, x: Seq<char>) -> bool {
    arg.val matches ColValView::Binding(v) && v.id == x
}

/// Whether the term gives the variable `x` a value: a predicate that has it
/// in a column or in place of the content identifier, or an aggregation
/// whose result it is.
pub open spec fn term_binds(term: BodyTermView, x: Seq<char>) -> bool {
    match term {
        BodyTermView::Predicate(p) => (p.cid matches Some(CidValueView::Var(v)) && v.id == x)
            || exists|m: int| 0 <= m < p.args.len() && arg_names(#[trigger] p.args[m], x),
        BodyTermView::Negation(_) => false,
        BodyTermView::Aggregation(g) => g.target.id == x,
    }
}

/// Whether a term of the body gives the variable `x` a value.
pub open spec fn binds(body: Seq<BodyTermView>, x: Seq<char>) -> bool
    decreases body.len(),
{
    body.len() > 0 && (binds(body.drop_last(), x) || term_binds(body.last(), x))
}

/// Whether the result of each aggregation of the body is a variable that
/// no term before the aggregation gives a value.
pub open spec fn fresh_targets(body: Seq<BodyTermView>) -> bool {
    forall|i: int|
        0 <= i < body.len() && (#[trigger] body[i]) is Aggregation ==> !binds(
            body.take(i),
            body[i]->Aggregation_0.target.id,
        )
}

/// The attribute that stands for the column `col` of the search of
/// `relation` under `alias`.
pub open spec fn own(col: Seq<char>, relation: Seq<char>, alias: Option<AliasId>) -> TermView {
    TermView::Attribute { col, relation, alias }
}

/// The condition that one column of a predicate puts on the row, if any.
pub open spec fn arg_condition(
    arg: ColBindingView,
    relation: Seq<char>,
    alias: Option<AliasId>,
    bindings: Seq<BoundVarView>,
) -> Option<FormulaView> {
    match arg.val {
        ColValView::Lit(v) => Some(
            FormulaView::Equality(own(arg.col, relation, alias), TermView::Literal(v)),
        ),
        ColValView::Binding(x) => match lookup(bindings, x.id) {
            Some(t) => if t != own(arg.col, relation, alias) {
                Some(FormulaView::Equality(own(arg.col, relation, alias), t))
            } else {
                None
            },
            None => None,
        },
    }
}

/// The condition of each column of a predicate is among its conditions.
pub proof fn lemma_arg_condition(
    args: Seq<ColBindingView>,
    relation: Seq<char>,
    alias: Option<AliasId>,
    bindings: Seq<BoundVarView>,
    m: int,
)
    requires
        0 <= m < args.len(),
        arg_condition(args[m], relation, alias, bindings).is_some(),
    ensures
        args_when(args, relation, alias, bindings).contains(
            arg_condition(args[m], relation, alias, bindings).unwrap(),
        ),
    decreases args.len(),
{
    let all = args_when(args, relation, alias, bindings);
    let prev = args_when(args.drop_last(), relation, alias, bindings);
    if m < args.len() - 1 {
        assert(args.drop_last()[m] == args[m]);
        lemma_arg_condition(args.drop_last(), relation, alias, bindings, m);
        let wanted = arg_condition(args[m], relation, alias, bindings).unwrap();
        let k = prev.index_of(wanted);
        assert(all[k] == wanted);
    } else {
        assert(args.last() == args[m]);
        assert(all[all.len() - 1] == arg_condition(args[m], relation, alias, bindings).unwrap());
    }
}

/// Whether every entry stands for something of one of the searches.
pub open spec fn keyed_by_layers(bindings: Seq<BoundVarView>, metas: Seq<TermMetadataView>) -> bool {
    forall|e: int| 0 <= e < bindings.len() ==> keyed_by_some(#[trigger] bindings[e].term, metas)
}

/// Whether the term stands for something of one of the searches.
pub open spec fn keyed_by_some(term: TermView, metas: Seq<TermMetadataView>) -> bool {
    exists|j: int|
        0 <= j < metas.len() && keyed_by(term, layer_id(#[trigger] metas[j]), layer_alias(metas[j]))
}

/// What a variable stands for after the variables of a predicate are bound
/// is what it stood for before, or a column of the predicate; and every
/// variable of the predicate stands for something.
pub proof fn lemma_bind_args_terms(
    bindings: Seq<BoundVarView>,
    args: Seq<ColBindingView>,
    relation: Seq<char>,
    alias: Option<AliasId>,
)
    ensures
        forall|e: int|
            0 <= e < bind_args(bindings, args, relation, alias).len() ==> (e < bindings.len()
                && #[trigger] bind_args(bindings, args, relation, alias)[e] == bindings[e])
                || keyed_by(bind_args(bindings, args, relation, alias)[e].term, relation, alias),
        bindings.len() <= bind_args(bindings, args, relation, alias).len(),
        forall|m: int|
            0 <= m < args.len() ==> ((#[trigger] args[m]).val matches ColValView::Binding(x)
                ==> lookup(bind_args(bindings, args, relation, alias), x.id).is_some()),
    decreases args.len(),
{
    if args.len() > 0 {
        lemma_bind_args_terms(bindings, args.drop_last(), relation, alias);
        let prev = bind_args(bindings, args.drop_last(), relation, alias);
        let now = bind_args(bindings, args, relation, alias);
        assert forall|e: int| 0 <= e < now.len() implies (e < bindings.len() && #[trigger] now[e]
            == bindings[e]) || keyed_by(now[e].term, relation, alias) by {
            if e < prev.len() {
                assert(now[e] == prev[e]);
            }
        }
        assert forall|m: int| 0 <= m < args.len() implies ((#[trigger] args[m]).val matches ColValView::Binding(
            x,
        ) ==> lookup(now, x.id).is_some()) by {
            if m < args.len() - 1 {
                assert(args.drop_last()[m] == args[m]);
                match args[m].val {
                    ColValView::Binding(x) => {
                        assert(lookup(prev, x.id).is_some());
                        if now != prev {
                            assert(now.drop_last() =~= prev);
                        }
                    },
                    _ => {},
                }
            } else {
                assert(args.last() == args[m]);
                match args[m].val {
                    ColValView::Binding(x) => {
                        if now != prev {
                            assert(now.last().var == x.id);
                        }
                    },
                    _ => {},
                }
            }
        }
    }
}

/// The number of terms that read `relation`.
pub open spec fn count_id(metas: Seq<TermMetadataView>, relation: Seq<char>) -> nat
    decreases metas.len(),
{
    if metas.len() == 0 {
        0
    } else {
        count_id(metas.drop_last(), relation) + if layer_id(metas.last()) == relation {
            1nat
        } else {
            0nat
        }
    }
}

/// Whether each term has the alias that the number of terms of its
/// relation before it gives.
pub open spec fn aliases_counted(metas: Seq<TermMetadataView>) -> bool {
    forall|j: int|
        0 <= j < metas.len() ==> layer_alias(#[trigger] metas[j]) == alias_after(
            count_id(metas.take(j), layer_id(metas[j])),
        )
}

/// A term counts among the terms of its relation up to any later place.
pub proof fn lemma_count_id(metas: Seq<TermMetadataView>, i: int, j: int)
    requires
        0 <= i < j <= metas.len(),
    ensures
        count_id(metas.take(i), layer_id(metas[i])) < count_id(metas.take(j), layer_id(metas[i])),
        count_id(metas.take(j), layer_id(metas[i])) <= j,
    decreases j,
{
    let relation = layer_id(metas[i]);
    assert(metas.take(j).drop_last() =~= metas.take(j - 1));
    assert(metas.take(j).last() == metas[j - 1]);
    if i < j - 1 {
        lemma_count_id(metas, i, j - 1);
    } else {
        lemma_count_bound(metas.take(i), relation);
    }
}

/// No more terms read a relation than there are terms.
pub proof fn lemma_count_bound(metas: Seq<TermMetadataView>, relation: Seq<char>)
    ensures
        count_id(metas, relation) <= metas.len(),
    decreases metas.len(),
{
    if metas.len() > 0 {
        lemma_count_bound(metas.drop_last(), relation);
    }
}

/// Two terms of one relation have different aliases.
pub proof fn lemma_aliases_differ(metas: Seq<TermMetadataView>, i: int, j: int)
    requires
        aliases_counted(metas),
        metas.len() <= usize::MAX,
        0 <= i < j < metas.len(),
        layer_id(metas[i]) == layer_id(metas[j]),
    ensures
        layer_alias(metas[i]) != layer_alias(metas[j]),
{
    lemma_count_id(metas, i, j);
}


/// Whether the terms count the positive terms of the body, relation by
/// relation.
pub open spec fn counts_agree(metas: Seq<TermMetadataView>, body: Seq<BodyTermView>) -> bool {
    forall|relation: Seq<char>|
        #[trigger] count_id(metas, relation) == occurrences(body, relation)
}

/// The shape of the analysis of a body: one term for each predicate and
/// each aggregation, each with the alias that the terms of its relation
/// before it give; and every variable stands for a column or for the content
/// identifier of one of the searches, or for the result of one of the
/// aggregations.
pub proof fn lemma_analyse_shape(body: Seq<BodyTermView>, stratum: StratumView)
    requires
        analyse(body, stratum).is_some(),
    ensures
        analyse(body, stratum).unwrap().metas.len() <= body.len(),
        counts_agree(analyse(body, stratum).unwrap().metas, body),
        aliases_counted(analyse(body, stratum).unwrap().metas),
        keyed_by_layers(
            analyse(body, stratum).unwrap().bindings,
            analyse(body, stratum).unwrap().metas,
        ),
    decreases body.len(),
{
    let now = analyse(body, stratum).unwrap();
    if body.len() > 0 {
        let front = body.drop_last();
        lemma_analyse_shape(front, stratum);
        let prev = analyse(front, stratum).unwrap();
        if body.last() is Negation {
            assert forall|relation: Seq<char>|
                #[trigger] count_id(now.metas, relation) == occurrences(body, relation) by {
                assert(count_id(prev.metas, relation) == occurrences(front, relation));
            }
        } else {
            let read = term_relation(body.last());
            let alias = alias_after(occurrences(front, read));
            let added = now.metas.last();
            assert(now.metas.drop_last() =~= prev.metas);
            assert(layer_id(added) == read);
            assert(layer_alias(added) == alias);
            assert forall|relation: Seq<char>|
                #[trigger] count_id(now.metas, relation) == occurrences(body, relation) by {
                assert(count_id(prev.metas, relation) == occurrences(front, relation));
            }
            assert forall|j: int| 0 <= j < now.metas.len() implies layer_alias(
                #[trigger] now.metas[j],
            ) == alias_after(count_id(now.metas.take(j), layer_id(now.metas[j]))) by {
                if j < prev.metas.len() {
                    assert(now.metas[j] == prev.metas[j]);
                    assert(now.metas.take(j) =~= prev.metas.take(j));
                } else {
                    assert(now.metas.take(j) =~= prev.metas);
                    assert(count_id(prev.metas, read) == occurrences(front, read));
                }
            }
            match body.last() {
                BodyTermView::Predicate(p) => {
                    let base = bind_cid(prev.bindings, p.cid, p.id, alias);
                    lemma_bind_args_terms(base, p.args, p.id, alias);
                    assert forall|e: int| 0 <= e < now.bindings.len() implies keyed_by_some(
                        #[trigger] now.bindings[e].term,
                        now.metas,
                    ) by {
                        if e < base.len() && now.bindings[e] == base[e] && e < prev.bindings.len() {
                            assert(base[e] == prev.bindings[e]);
                            lemma_keyed_more(prev.bindings[e].term, prev.metas, now.metas);
                        } else {
                            assert(keyed_by(now.bindings[e].term, p.id, alias));
                            assert(now.metas[now.metas.len() - 1] == added);
                        }
                    }
                },
                BodyTermView::Aggregation(g) => {
                    assert forall|e: int| 0 <= e < now.bindings.len() implies keyed_by_some(
                        #[trigger] now.bindings[e].term,
                        now.metas,
                    ) by {
                        if e < prev.bindings.len() {
                            assert(now.bindings[e] == prev.bindings[e]);
                            lemma_keyed_more(prev.bindings[e].term, prev.metas, now.metas);
                        } else {
                            assert(keyed_by(now.bindings[e].term, g.over, alias));
                            assert(now.metas[now.metas.len() - 1] == added);
                        }
                    }
                },
                BodyTermView::Negation(_) => {},
            }
        }
    } else {
        assert forall|relation: Seq<char>|
            #[trigger] count_id(now.metas, relation) == occurrences(body, relation) by {}
    }
}

/// A term that stands for something of one of some terms does so when more
/// terms follow them.
pub proof fn lemma_keyed_more(
    term: TermView,
    fewer: Seq<TermMetadataView>,
    more: Seq<TermMetadataView>,
)
    requires
        keyed_by_some(term, fewer),
        fewer.len() <= more.len(),
        more.take(fewer.len() as int) == fewer,
    ensures
        keyed_by_some(term, more),
{
    let j = choose|j: int|
        0 <= j < fewer.len() && keyed_by(term, layer_id(#[trigger] fewer[j]), layer_alias(fewer[j]));
    assert(more.take(fewer.len() as int)[j] == more[j]);
    assert(keyed_by(term, layer_id(more[j]), layer_alias(more[j])));
}

/// Binding the variable of a content identifier where it is not bound
/// keeps what was bound, and binds the variable.
pub proof fn lemma_bind_cid_keeps(
    bindings: Seq<BoundVarView>,
    cid: Option<CidValueView>,
    relation: Seq<char>,
    alias: Option<AliasId>,
)
    ensures
        keeps(bindings, bind_cid(bindings, cid, relation, alias)),
        cid matches Some(CidValueView::Var(x)) ==> lookup(
            bind_cid(bindings, cid, relation, alias),
            x.id,
        ).is_some(),
{
    let now = bind_cid(bindings, cid, relation, alias);
    if now != bindings {
        assert(now.drop_last() =~= bindings);
    }
}

/// Keeping is transitive.
pub proof fn lemma_keeps_trans(a: Seq<BoundVarView>, b: Seq<BoundVarView>, c: Seq<BoundVarView>)
    requires
        keeps(a, b),
        keeps(b, c),
    ensures
        keeps(a, c),
{
    assert forall|x: Seq<char>| (#[trigger] lookup(a, x)).is_some() implies lookup(c, x) == lookup(
        a,
        x,
    ) by {
        assert(lookup(b, x) == lookup(a, x));
        assert(lookup(b, x).is_some());
    }
}

/// The analysis of a part of a body from its start is the start of the
/// analysis of the whole body: the same terms, and what the variables stand
/// for is kept.
pub proof fn lemma_analyse_prefix(body: Seq<BodyTermView>, stratum: StratumView, upto: int)
    requires
        analyse(body, stratum).is_some(),
        0 <= upto <= body.len(),
    ensures
        analyse(body.take(upto), stratum).is_some(),
        analyse(body.take(upto), stratum).unwrap().metas.len() <= analyse(
            body,
            stratum,
        ).unwrap().metas.len(),
        analyse(body.take(upto), stratum).unwrap().metas == analyse(
            body,
            stratum,
        ).unwrap().metas.take(analyse(body.take(upto), stratum).unwrap().metas.len() as int),
        keeps(
            analyse(body.take(upto), stratum).unwrap().bindings,
            analyse(body, stratum).unwrap().bindings,
        ),
    decreases body.len() - upto,
{
    let whole = analyse(body, stratum).unwrap();
    if upto == body.len() {
        assert(body.take(upto) =~= body);
        assert(whole.metas.take(whole.metas.len() as int) =~= whole.metas);
    } else {
        lemma_analyse_prefix(body, stratum, upto + 1);
        assert(body.take(upto + 1).drop_last() =~= body.take(upto));
        assert(body.take(upto + 1).last() == body[upto]);
        let part = analyse(body.take(upto), stratum).unwrap();
        let more = analyse(body.take(upto + 1), stratum).unwrap();
        match body[upto] {
            BodyTermView::Predicate(p) => {
                let alias = alias_after(occurrences(body.take(upto), p.id));
                let base = bind_cid(part.bindings, p.cid, p.id, alias);
                lemma_bind_cid_keeps(part.bindings, p.cid, p.id, alias);
                lemma_bind_args_keeps(base, p.args, p.id, alias);
                lemma_keeps_trans(part.bindings, base, more.bindings);
                lemma_keeps_trans(part.bindings, more.bindings, whole.bindings);
                assert(more.metas.drop_last() =~= part.metas);
                assert(part.metas =~= whole.metas.take(part.metas.len() as int)) by {
                    assert(more.metas == whole.metas.take(more.metas.len() as int));
                }
            },
            BodyTermView::Negation(_) => {},
            BodyTermView::Aggregation(g) => {
                assert(keeps(part.bindings, more.bindings)) by {
                    if more.bindings != part.bindings {
                        assert(more.bindings.drop_last() =~= part.bindings);
                    }
                }
                lemma_keeps_trans(part.bindings, more.bindings, whole.bindings);
                assert(more.metas.drop_last() =~= part.metas);
                assert(part.metas =~= whole.metas.take(part.metas.len() as int)) by {
                    assert(more.metas == whole.metas.take(more.metas.len() as int));
                }
            },
        }
    }
}

/// The term without its conditions.
pub open spec fn bare(meta: TermMetadataView) -> TermMetadataView {
    match meta {
        TermMetadataView::Search { id, alias, by_cid, is_dynamic, .. } => TermMetadataView::Search {
            id,
            alias,
            by_cid,
            when: seq![],
            is_dynamic,
        },
        TermMetadataView::Aggregation { id, alias, group_by_cols, args, init, target, reducer, .. } =>
            TermMetadataView::Aggregation {
            id,
            alias,
            when: seq![],
            group_by_cols,
            args,
            init,
            target,
            reducer,
        },
    }
}

/// What is bound depends only on the terms without their conditions.
pub proof fn lemma_trace_same(
    a: Seq<TermMetadataView>,
    b: Seq<TermMetadataView>,
    rows: Seq<RowView>,
    store: Seq<TableView>,
    count: nat,
)
    requires
        count <= a.len(),
        a.len() == b.len(),
        forall|j: int| 0 <= j < a.len() ==> bare(#[trigger] a[j]) == bare(b[j]),
    ensures
        trace(a, rows, store, count) == trace(b, rows, store, count),
        row_at(a, count) == row_at(b, count),
    decreases count,
{
    if count > 0 {
        lemma_trace_same(a, b, rows, store, (count - 1) as nat);
        assert(bare(a[count - 1]) == bare(b[count - 1]));
    }
}

/// The term `late - 1` leaves the value of every term as it is that does
/// not stand for something of it.
pub proof fn lemma_trace_step(
    metas: Seq<TermMetadataView>,
    rows: Seq<RowView>,
    store: Seq<TableView>,
    late: nat,
    term: TermView,
)
    requires
        0 < late <= metas.len(),
        !keyed_by(term, layer_id(metas[late - 1]), layer_alias(metas[late - 1])),
    ensures
        resolve(trace(metas, rows, store, late), term) == resolve(
            trace(metas, rows, store, (late - 1) as nat),
            term,
        ),
{
    let j = late - 1;
    let meta = metas[j];
    let before = trace(metas, rows, store, (late - 1) as nat);
    let now = trace(metas, rows, store, late);
    if meta is Search {
        lemma_bind_row_other(
            before,
            layer_id(meta),
            layer_alias(meta),
            schema_at(store, layer_id(meta)),
            layer_row(metas, rows, j),
            term,
        );
    } else {
        assert(keyed_by(layer_target(meta), layer_id(meta), layer_alias(meta)));
        assert(now.drop_last() =~= before);
        assert(now.last().term == layer_target(meta));
        assert(now.last().term != term);
    }
}

/// What a term has as its value that stands for something of an earlier
/// term is kept when later terms bind their rows and results.
pub proof fn lemma_trace_keeps(
    metas: Seq<TermMetadataView>,
    rows: Seq<RowView>,
    store: Seq<TableView>,
    early: nat,
    late: nat,
    i: int,
    term: TermView,
)
    requires
        aliases_counted(metas),
        metas.len() <= usize::MAX,
        0 <= i < early <= late <= metas.len(),
        keyed_by(term, layer_id(metas[i]), layer_alias(metas[i])),
    ensures
        resolve(trace(metas, rows, store, late), term) == resolve(
            trace(metas, rows, store, early),
            term,
        ),
    decreases late,
{
    if early < late {
        lemma_trace_keeps(metas, rows, store, early, (late - 1) as nat, i, term);
        let j = late - 1;
        if layer_id(metas[i]) == layer_id(metas[j]) {
            lemma_aliases_differ(metas, i, j);
        }
        lemma_trace_step(metas, rows, store, late, term);
    }
}

/// The values of the variables: each variable that stands for a term that
/// has a value has that value.
pub open spec fn valuation(beta: Seq<BoundVarView>, bound: Seq<BoundView>) -> Map<
    Seq<char>,
    ValueView,
> {
    Map::new(
        |x: Seq<char>| lookup(beta, x).is_some() && resolve(bound, lookup(beta, x).unwrap()).is_some(),
        |x: Seq<char>| resolve(bound, lookup(beta, x).unwrap()).unwrap(),
    )
}

/// The fields that the columns `args` have under the values `sigma` of the
/// variables: `None` where a variable has no value.
pub open spec fn cols_under(args: Seq<ColBindingView>, sigma: Map<Seq<char>, ValueView>) -> Option<
    Seq<FactArgView>,
>
    decreases args.len(),
{
    if args.len() == 0 {
        Some(seq![])
    } else {
        match cols_under(args.drop_last(), sigma) {
            Some(prev) => match args.last().val {
                ColValView::Lit(v) => Some(prev.push(FactArgView { col: args.last().col, value: v })),
                ColValView::Binding(x) => if sigma.contains_key(x.id) {
                    Some(prev.push(FactArgView { col: args.last().col, value: sigma[x.id] }))
                } else {
                    None
                },
            },
            None => None,
        }
    }
}

/// The fields that lowered columns give under what is bound are the fields
/// that the columns have under the values of the variables.
pub proof fn lemma_cols_under(
    args: Seq<ColBindingView>,
    beta: Seq<BoundVarView>,
    bound: Seq<BoundView>,
)
    requires
        attrs_of(args, beta) is Ok,
    ensures
        key_of(attrs_of(args, beta)->Ok_0, bound) == cols_under(args, valuation(beta, bound)),
    decreases args.len(),
{
    if args.len() > 0 {
        lemma_cols_under(args.drop_last(), beta, bound);
        let attrs = attrs_of(args, beta)->Ok_0;
        let prev = attrs_of(args.drop_last(), beta)->Ok_0;
        assert(attrs.drop_last() =~= prev);
    }
}

/// Whether a negation holds under the values of the variables: its columns
/// have values, and no row of `Total` of its relation has them.
pub open spec fn negation_holds(
    negation: NegationView,
    sigma: Map<Seq<char>, ValueView>,
    store: Seq<TableView>,
) -> bool {
    &&& cols_under(negation.args, sigma).is_some()
    &&& find_table(store, negation.id).is_some()
    &&& !any_match(
        store[find_table(store, negation.id).unwrap()].declaration.schema,
        store[find_table(store, negation.id).unwrap()].total,
        cols_under(negation.args, sigma).unwrap(),
    )
}

/// The condition that a negation lowers to.
pub open spec fn negation_condition(negation: NegationView, beta: Seq<BoundVarView>) -> FormulaView {
    FormulaView::NotIn {
        attributes: attrs_of(negation.args, beta)->Ok_0,
        relation: RelationView { id: negation.id, version: Version::Total },
    }
}

/// The condition of every negation of a body is among the conditions that
/// its negations lower to.
pub proof fn lemma_negation_condition(body: Seq<BodyTermView>, beta: Seq<BoundVarView>, i: int)
    requires
        negations_when(body, beta).is_some(),
        0 <= i < body.len(),
        body[i] is Negation,
    ensures
        attrs_of(body[i]->Negation_0.args, beta) is Ok,
        negations_when(body, beta).unwrap().contains(
            negation_condition(body[i]->Negation_0, beta),
        ),
    decreases body.len(),
{
    let all = negations_when(body, beta).unwrap();
    let prev = negations_when(body.drop_last(), beta).unwrap();
    if i < body.len() - 1 {
        assert(body.drop_last()[i] == body[i]);
        lemma_negation_condition(body.drop_last(), beta, i);
        let wanted = negation_condition(body[i]->Negation_0, beta);
        let k = prev.index_of(wanted);
        assert(all[k] == wanted);
    } else {
        assert(body.last() == body[i]);
        assert(all[all.len() - 1] == negation_condition(body[i]->Negation_0, beta));
    }
}

/// Whether one column of a predicate agrees with a row under the values of
/// the variables: the row has the literal, or the value of the variable, in
/// the column.
pub open spec fn arg_holds(
    arg: ColBindingView,
    schema: Seq<ColumnView>,
    row: RowView,
    sigma: Map<Seq<char>, ValueView>,
) -> bool {
    match arg.val {
        ColValView::Lit(v) => col_value(schema, row, arg.col) == Some(v),
        ColValView::Binding(x) => sigma.contains_key(x.id) && col_value(schema, row, arg.col)
            == Some(sigma[x.id]),
    }
}

/// Whether a row has the content identifier that a predicate asks for:
/// any, where it asks for none; else one that is held, and that is the one
/// given or the value of the variable in its place.
pub open spec fn cid_holds(
    cid: Option<CidValueView>,
    row: RowView,
    sigma: Map<Seq<char>, ValueView>,
    blocks: Set<Seq<u8>>,
) -> bool {
    match cid {
        None => true,
        Some(asked) => row.cid.is_some() && blocks.contains(row.cid.unwrap()) && (match asked {
            CidValueView::Cid(c) => row.cid == Some(c),
            CidValueView::Var(x) => sigma.contains_key(x.id) && sigma[x.id]
                == ValueView::Cid(row.cid.unwrap()),
        }),
    }
}

/// Whether a predicate holds of a row under the values of the variables:
/// the row is in `Total` or in `Delta` of its relation, has the content
/// identifier that the predicate asks for, and agrees with each of its
/// columns.
pub open spec fn predicate_holds(
    predicate: PredicateView,
    row: RowView,
    sigma: Map<Seq<char>, ValueView>,
    store: Seq<TableView>,
    blocks: Set<Seq<u8>>,
) -> bool {
    let found = find_table(store, predicate.id);
    &&& found.is_some()
    &&& (store[found.unwrap()].total.contains(row) || store[found.unwrap()].delta.contains(row))
    &&& cid_holds(predicate.cid, row, sigma, blocks)
    &&& forall|m: int|
        0 <= m < predicate.args.len() ==> arg_holds(
            #[trigger] predicate.args[m],
            store[found.unwrap()].declaration.schema,
            row,
            sigma,
        )
}

/// The fields of the key of an aggregation under the values of the
/// variables: each column of `group_by` that is bound to a literal, or to a
/// variable that a term of `before` gives a value. `None` where such a
/// variable has no value.
pub open spec fn key_under(
    group_by: Seq<ColBindingView>,
    before: Seq<BodyTermView>,
    sigma: Map<Seq<char>, ValueView>,
) -> Option<Seq<FactArgView>>
    decreases group_by.len(),
{
    if group_by.len() == 0 {
        Some(seq![])
    } else {
        match key_under(group_by.drop_last(), before, sigma) {
            Some(prev) => match group_by.last().val {
                ColValView::Lit(v) => Some(
                    prev.push(FactArgView { col: group_by.last().col, value: v }),
                ),
                ColValView::Binding(x) => if binds(before, x.id) {
                    if sigma.contains_key(x.id) {
                        Some(prev.push(FactArgView { col: group_by.last().col, value: sigma[x.id] }))
                    } else {
                        None
                    }
                } else {
                    Some(prev)
                },
            },
            None => None,
        }
    }
}

/// The value of an argument of a reducer at a row of the aggregated
/// relation: that of the variable, where a term of `before` gives it one;
/// else that of the row in the column that `group_by` names the variable
/// for.
pub open spec fn arg_under(
    x: Seq<char>,
    group_by: Seq<ColBindingView>,
    before: Seq<BodyTermView>,
    sigma: Map<Seq<char>, ValueView>,
    schema: Seq<ColumnView>,
    row: RowView,
) -> Option<ValueView> {
    if binds(before, x) {
        if sigma.contains_key(x) {
            Some(sigma[x])
        } else {
            None
        }
    } else {
        match local_col(group_by, x) {
            Some(col) => col_value(schema, row, col),
            None => None,
        }
    }
}

/// The values of the arguments of a reducer at a row, in order: `None`
/// where one of them has none.
pub open spec fn args_under(
    args: Seq<VarView>,
    group_by: Seq<ColBindingView>,
    before: Seq<BodyTermView>,
    sigma: Map<Seq<char>, ValueView>,
    schema: Seq<ColumnView>,
    row: RowView,
) -> Option<Seq<ValueView>>
    decreases args.len(),
{
    if args.len() == 0 {
        Some(seq![])
    } else {
        match args_under(args.drop_last(), group_by, before, sigma, schema, row) {
            Some(prev) => match arg_under(args.last().id, group_by, before, sigma, schema, row) {
                Some(v) => Some(prev.push(v)),
                None => None,
            },
            None => None,
        }
    }
}

/// The reducer of an aggregation folded over `rows`, in order, from
/// `start`. `None` where an argument has no value or the reducer fails.
pub open spec fn folded_from(
    g: AggregationView,
    before: Seq<BodyTermView>,
    sigma: Map<Seq<char>, ValueView>,
    schema: Seq<ColumnView>,
    start: ValueView,
    rows: Seq<RowView>,
) -> Option<ValueView>
    decreases rows.len(),
{
    if rows.len() == 0 {
        Some(start)
    } else {
        match folded_from(g, before, sigma, schema, start, rows.drop_last()) {
            Some(acc) => match args_under(g.args, g.group_by, before, sigma, schema, rows.last()) {
                Some(values) => reduce_step(g.reducer, acc, values),
                None => None,
            },
            None => None,
        }
    }
}

/// The result of an aggregation over `rows`: its initial value where there
/// is no row; else the fold of its reducer over the rows from the initial
/// value, or, without one, over the rows but the first from the value of
/// its one argument at the first.
pub open spec fn folded(
    g: AggregationView,
    before: Seq<BodyTermView>,
    sigma: Map<Seq<char>, ValueView>,
    schema: Seq<ColumnView>,
    rows: Seq<RowView>,
) -> Result<Option<ValueView>, ()> {
    if rows.len() == 0 {
        Ok(g.init)
    } else {
        let result = match g.init {
            Some(start) => folded_from(g, before, sigma, schema, start, rows),
            None => if g.args.len() == 1 {
                match arg_under(g.args[0].id, g.group_by, before, sigma, schema, rows[0]) {
                    Some(start) => folded_from(g, before, sigma, schema, start, rows.drop_first()),
                    None => None,
                }
            } else {
                None
            },
        };
        match result {
            Some(v) => Ok(Some(v)),
            None => Err(()),
        }
    }
}

/// Whether an aggregation holds under the values of the variables, the
/// terms `before` it given: its relation is declared, its key has values,
/// and its result, the value of its target, is that of its reducer over the
/// rows of `Total` of its relation that have the values of the key.
pub open spec fn aggregation_holds(
    g: AggregationView,
    before: Seq<BodyTermView>,
    sigma: Map<Seq<char>, ValueView>,
    store: Seq<TableView>,
) -> bool {
    let found = find_table(store, g.over);
    let table = store[found.unwrap()];
    let key = key_under(g.group_by, before, sigma);
    &&& found.is_some()
    &&& key.is_some()
    &&& sigma.contains_key(g.target.id)
    &&& folded(
        g,
        before,
        sigma,
        table.declaration.schema,
        matching(table.declaration.schema, table.total, key.unwrap()),
    ) == Ok::<Option<ValueView>, ()>(Some(sigma[g.target.id]))
}

/// Whether a body holds under the values of the variables, by way of
/// `rows`, one for each predicate in order: each predicate holds of its
/// row, each negation holds, and each aggregation holds, the terms before it
/// given.
pub open spec fn body_holds(
    body: Seq<BodyTermView>,
    rows: Seq<RowView>,
    sigma: Map<Seq<char>, ValueView>,
    store: Seq<TableView>,
    blocks: Set<Seq<u8>>,
) -> bool
    decreases body.len(),
{
    if body.len() == 0 {
        rows.len() == 0
    } else {
        match body.last() {
            BodyTermView::Predicate(p) => rows.len() > 0 && body_holds(
                body.drop_last(),
                rows.drop_last(),
                sigma,
                store,
                blocks,
            ) && predicate_holds(p, rows.last(), sigma, store, blocks),
            BodyTermView::Negation(n) => body_holds(body.drop_last(), rows, sigma, store, blocks)
                && negation_holds(n, sigma, store),
            BodyTermView::Aggregation(g) => body_holds(body.drop_last(), rows, sigma, store, blocks)
                && aggregation_holds(g, body.drop_last(), sigma, store),
        }
    }
}

/// Whether a rule derives `tuple` by way of `rows` under the values `sigma`
/// of its variables: its body holds, and its head has the fields of the
/// tuple.
pub open spec fn rule_derives(
    rule: RuleView,
    rows: Seq<RowView>,
    sigma: Map<Seq<char>, ValueView>,
    store: Seq<TableView>,
    blocks: Set<Seq<u8>>,
    tuple: TupleView,
) -> bool {
    &&& body_holds(rule.body, rows, sigma, store, blocks)
    &&& cols_under(rule.args, sigma) == Some(tuple.cols)
    &&& tuple.id == rule.head
    &&& tuple.cid.is_none()
}


/// What a variable stands for is the term of one of the entries.
pub proof fn lemma_lookup_entry(beta: Seq<BoundVarView>, x: Seq<char>)
    requires
        lookup(beta, x).is_some(),
    ensures
        exists|e: int| 0 <= e < beta.len() && (#[trigger] beta[e]).term == lookup(beta, x).unwrap(),
    decreases beta.len(),
{
    if beta.last().var == x {
        assert(beta[beta.len() - 1].term == lookup(beta, x).unwrap());
    } else {
        lemma_lookup_entry(beta.drop_last(), x);
        let e = choose|e: int|
            0 <= e < beta.drop_last().len() && (#[trigger] beta.drop_last()[e]).term == lookup(
                beta.drop_last(),
                x,
            ).unwrap();
        assert(beta[e] == beta.drop_last()[e]);
    }
}

/// Whether the term `j` succeeds: its relation is declared, with columns of
/// different names; a search finds its row in `Total` or in `Delta` and
/// takes it, and the row has as many values as the schema has columns; an
/// aggregation has a result; and each condition of the term holds once the
/// row or the result is bound.
pub open spec fn layer_ok(
    metas: Seq<TermMetadataView>,
    rows: Seq<RowView>,
    store: Seq<TableView>,
    blocks: Set<Seq<u8>>,
    j: int,
) -> bool {
    let found = find_table(store, layer_id(metas[j]));
    let table = store[found.unwrap()];
    let row = layer_row(metas, rows, j);
    &&& found.is_some()
    &&& distinct_columns(table.declaration.schema)
    &&& if metas[j] is Search {
        &&& row_at(metas, j as nat) < rows.len()
        &&& (table.total.contains(row) || table.delta.contains(row))
        &&& crate::runtime::eval::admitted(layer_by_cid(metas[j]), row, blocks)
        &&& row.values.len() == table.declaration.schema.len()
    } else {
        layer_result(metas[j], trace(metas, rows, store, j as nat), store) matches Ok(Some(_))
    }
    &&& forall|k: int|
        0 <= k < conditions_of(metas[j]).len() ==> formula_holds(
            #[trigger] conditions_of(metas[j])[k],
            trace(metas, rows, store, (j + 1) as nat),
            store,
        ) == Some(true)
}

/// Whether every term of the analysed body succeeds, by way of `rows`, one
/// for each search.
pub open spec fn layers_ok(
    body: Seq<BodyTermView>,
    stratum: StratumView,
    rows: Seq<RowView>,
    store: Seq<TableView>,
    blocks: Set<Seq<u8>>,
) -> bool {
    let metas = analyse(body, stratum).unwrap().metas;
    &&& rows.len() == row_at(metas, metas.len())
    &&& forall|j: int| 0 <= j < metas.len() ==> #[trigger] layer_ok(metas, rows, store, blocks, j)
}

/// Whether the relation of the predicate is declared and has the column
/// `m` of the predicate.
pub open spec fn column_declared(predicate: PredicateView, m: int, store: Seq<TableView>) -> bool {
    find_table(store, predicate.id).is_some() && col_index(
        schema_at(store, predicate.id),
        predicate.args[m].col,
    ).is_some()
}

/// Whether the relation of the aggregation has the column `m` that the
/// aggregation names.
pub open spec fn group_declared(g: AggregationView, m: int, store: Seq<TableView>) -> bool {
    col_index(schema_at(store, g.over), g.group_by[m].col).is_some()
}

/// Whether every predicate and every aggregation of the body names only
/// columns that its relation declares.
pub open spec fn columns_declared(body: Seq<BodyTermView>, store: Seq<TableView>) -> bool {
    &&& forall|i: int, m: int|
        0 <= i < body.len() && (#[trigger] body[i]) is Predicate && 0 <= m
            < body[i]->Predicate_0.args.len() ==> #[trigger] column_declared(
            body[i]->Predicate_0,
            m,
            store,
        )
    &&& forall|i: int, m: int|
        0 <= i < body.len() && (#[trigger] body[i]) is Aggregation && 0 <= m
            < body[i]->Aggregation_0.group_by.len() ==> #[trigger] group_declared(
            body[i]->Aggregation_0,
            m,
            store,
        )
}

/// Whether every negation of the body holds.
pub open spec fn negations_hold(
    body: Seq<BodyTermView>,
    sigma: Map<Seq<char>, ValueView>,
    store: Seq<TableView>,
) -> bool {
    forall|i: int|
        0 <= i < body.len() && (#[trigger] body[i]) is Negation ==> negation_holds(
            body[i]->Negation_0,
            sigma,
            store,
        )
}

/// The values that the variables of an analysed body have once all its
/// searches have bound their rows.
pub open spec fn values_of(
    body: Seq<BodyTermView>,
    stratum: StratumView,
    rows: Seq<RowView>,
    store: Seq<TableView>,
) -> Map<Seq<char>, ValueView> {
    let analysis = analyse(body, stratum).unwrap();
    valuation(analysis.bindings, trace(analysis.metas, rows, store, analysis.metas.len()))
}

/// The place of the search of the predicate at `upto - 1` among the
/// searches of the body.
pub open spec fn layer_of(body: Seq<BodyTermView>, stratum: StratumView, upto: int) -> int {
    analyse(body.take(upto - 1), stratum).unwrap().metas.len() as int
}

/// What the variables stand for once the predicate at `upto - 1` has bound
/// its own.
pub open spec fn bound_at(body: Seq<BodyTermView>, stratum: StratumView, upto: int) -> Seq<
    BoundVarView,
> {
    analyse(body.take(upto), stratum).unwrap().bindings
}

/// The search of a predicate: its place among the searches of the body, its
/// relation, its alias and its conditions; what the variables stand for once
/// it has bound its own is kept to the end, and stands for something of
/// this search or of one before it.
proof fn lemma_layer(body: Seq<BodyTermView>, stratum: StratumView, upto: int)
    requires
        body.len() <= usize::MAX,
        analyse(body, stratum).is_some(),
        0 < upto <= body.len(),
        body[upto - 1] is Predicate,
    ensures
        analyse(body.take(upto - 1), stratum).is_some(),
        analyse(body.take(upto), stratum).is_some(),
        0 <= layer_of(body, stratum, upto) < analyse(body, stratum).unwrap().metas.len(),
        analyse(body, stratum).unwrap().metas.len() <= usize::MAX,
        aliases_counted(analyse(body, stratum).unwrap().metas),
        ({
            let p = body[upto - 1]->Predicate_0;
            let meta = analyse(body, stratum).unwrap().metas[layer_of(body, stratum, upto)];
            let alias = layer_alias(meta);
            let beta = bound_at(body, stratum, upto);
            &&& meta is Search
            &&& layer_id(meta) == p.id
            &&& layer_by_cid(meta) == p.cid.is_some()
            &&& conditions_of(meta) == cid_when(p.cid, p.id, alias, beta) + args_when(
                p.args,
                p.id,
                alias,
                beta,
            )
            &&& keeps(beta, analyse(body, stratum).unwrap().bindings)
            &&& forall|m: int|
                0 <= m < p.args.len() ==> ((#[trigger] p.args[m]).val matches ColValView::Binding(x)
                    ==> lookup(beta, x.id).is_some())
            &&& p.cid matches Some(CidValueView::Var(x)) ==> lookup(
                beta,
                x.id,
            ).is_some()
            &&& forall|x: Seq<char>|
                (#[trigger] lookup(beta, x)).is_some() ==> exists|i: int|
                    0 <= i <= layer_of(body, stratum, upto) && keyed_by(
                        lookup(beta, x).unwrap(),
                        layer_id(#[trigger] analyse(body, stratum).unwrap().metas[i]),
                        layer_alias(analyse(body, stratum).unwrap().metas[i]),
                    )
        }),
{
    let whole = analyse(body, stratum).unwrap();
    let p = body[upto - 1]->Predicate_0;
    let part_body = body.take(upto);
    let front_body = body.take(upto - 1);
    lemma_analyse_prefix(body, stratum, upto);
    lemma_analyse_prefix(body, stratum, upto - 1);
    lemma_analyse_shape(body, stratum);
    assert(part_body.drop_last() =~= front_body);
    assert(part_body.last() == body[upto - 1]);
    lemma_analyse_shape(part_body, stratum);
    let part = analyse(part_body, stratum).unwrap();
    let front = analyse(front_body, stratum).unwrap();
    let j = front.metas.len() as int;
    let alias = alias_after(occurrences(front_body, p.id));
    let meta = part.metas.last();
    assert(part.metas.len() == j + 1);
    assert(whole.metas[j] == part.metas[j]);
    assert(layer_id(meta) == p.id && layer_alias(meta) == alias);
    let beta = part.bindings;
    let base = bind_cid(front.bindings, p.cid, p.id, alias);
    lemma_bind_cid_keeps(front.bindings, p.cid, p.id, alias);
    lemma_bind_args_keeps(base, p.args, p.id, alias);
    lemma_bind_args_terms(base, p.args, p.id, alias);
    assert forall|x: Seq<char>| (#[trigger] lookup(beta, x)).is_some() implies exists|i: int|
        0 <= i <= j && keyed_by(
            lookup(beta, x).unwrap(),
            layer_id(#[trigger] whole.metas[i]),
            layer_alias(whole.metas[i]),
        ) by {
        let t = lookup(beta, x).unwrap();
        lemma_lookup_entry(beta, x);
        let e = choose|e: int| 0 <= e < beta.len() && (#[trigger] beta[e]).term == t;
        assert(keyed_by_some(beta[e].term, part.metas));
        let i = choose|i: int|
            0 <= i < part.metas.len() && keyed_by(
                t,
                layer_id(#[trigger] part.metas[i]),
                layer_alias(part.metas[i]),
            );
        assert(whole.metas[i] == part.metas[i]);
    }
}

/// What a variable stands for once a predicate has bound its own has, at
/// the end, the value that it has once the search of the predicate has bound
/// its row.
proof fn lemma_value_kept(
    body: Seq<BodyTermView>,
    stratum: StratumView,
    rows: Seq<RowView>,
    store: Seq<TableView>,
    upto: int,
    x: Seq<char>,
)
    requires
        body.len() <= usize::MAX,
        analyse(body, stratum).is_some(),
        0 < upto <= body.len(),
        body[upto - 1] is Predicate,
        lookup(bound_at(body, stratum, upto), x).is_some(),
    ensures
        lookup(analyse(body, stratum).unwrap().bindings, x) == lookup(
            bound_at(body, stratum, upto),
            x,
        ),
        resolve(
            trace(
                analyse(body, stratum).unwrap().metas,
                rows,
                store,
                analyse(body, stratum).unwrap().metas.len(),
            ),
            lookup(bound_at(body, stratum, upto), x).unwrap(),
        ) == resolve(
            trace(
                analyse(body, stratum).unwrap().metas,
                rows,
                store,
                (layer_of(body, stratum, upto) + 1) as nat,
            ),
            lookup(bound_at(body, stratum, upto), x).unwrap(),
        ),
{
    lemma_layer(body, stratum, upto);
    let whole = analyse(body, stratum).unwrap();
    let j = layer_of(body, stratum, upto);
    let t = lookup(bound_at(body, stratum, upto), x).unwrap();
    let i = choose|i: int|
        0 <= i <= j && keyed_by(t, layer_id(#[trigger] whole.metas[i]), layer_alias(whole.metas[i]));
    lemma_trace_keeps(whole.metas, rows, store, (j + 1) as nat, whole.metas.len(), i, t);
}

/// A condition of a search that holds together with the others holds.
proof fn lemma_condition_holds(
    body: Seq<BodyTermView>,
    stratum: StratumView,
    rows: Seq<RowView>,
    store: Seq<TableView>,
    blocks: Set<Seq<u8>>,
    j: int,
    formula: FormulaView,
)
    requires
        analyse(body, stratum).is_some(),
        layers_ok(body, stratum, rows, store, blocks),
        0 <= j < analyse(body, stratum).unwrap().metas.len(),
        conditions_of(analyse(body, stratum).unwrap().metas[j]).contains(formula),
    ensures
        formula_holds(
            formula,
            trace(analyse(body, stratum).unwrap().metas, rows, store, (j + 1) as nat),
            store,
        ) == Some(true),
{
    let metas = analyse(body, stratum).unwrap().metas;
    assert(layer_ok(metas, rows, store, blocks, j));
    let k = conditions_of(metas[j]).index_of(formula);
    assert(conditions_of(metas[j])[k] == formula);
}

/// The attribute that stands for a column of a predicate has, once the
/// search of the predicate has bound its row, the value of the row in the
/// column.
proof fn lemma_own_value(
    body: Seq<BodyTermView>,
    stratum: StratumView,
    rows: Seq<RowView>,
    store: Seq<TableView>,
    blocks: Set<Seq<u8>>,
    upto: int,
    m: int,
)
    requires
        body.len() <= usize::MAX,
        analyse(body, stratum).is_some(),
        layers_ok(body, stratum, rows, store, blocks),
        columns_declared(body, store),
        0 < upto <= body.len(),
        body[upto - 1] is Predicate,
        0 <= m < body[upto - 1]->Predicate_0.args.len(),
    ensures
        col_value(
            schema_at(store, body[upto - 1]->Predicate_0.id),
            layer_row(
                analyse(body, stratum).unwrap().metas,
                rows,
                layer_of(body, stratum, upto),
            ),
            body[upto - 1]->Predicate_0.args[m].col,
        ).is_some(),
        resolve(
            trace(
                analyse(body, stratum).unwrap().metas,
                rows,
                store,
                (layer_of(body, stratum, upto) + 1) as nat,
            ),
            own(
                body[upto - 1]->Predicate_0.args[m].col,
                body[upto - 1]->Predicate_0.id,
                layer_alias(analyse(body, stratum).unwrap().metas[layer_of(body, stratum, upto)]),
            ),
        ) == col_value(
            schema_at(store, body[upto - 1]->Predicate_0.id),
            layer_row(
                analyse(body, stratum).unwrap().metas,
                rows,
                layer_of(body, stratum, upto),
            ),
            body[upto - 1]->Predicate_0.args[m].col,
        ),
{
    lemma_layer(body, stratum, upto);
    let whole = analyse(body, stratum).unwrap();
    let p = body[upto - 1]->Predicate_0;
    let j = layer_of(body, stratum, upto);
    let alias = layer_alias(whole.metas[j]);
    assert(layer_ok(whole.metas, rows, store, blocks, j));
    assert(column_declared(p, m, store));
    let schema = schema_at(store, p.id);
    lemma_bind_row_own(
        trace(whole.metas, rows, store, j as nat),
        p.id,
        alias,
        schema,
        layer_row(whole.metas, rows, j),
        p.args[m].col,
    );
    col_index_sound(schema, p.args[m].col);
}

/// The condition that a column of a predicate puts on the row holds once
/// the search of the predicate has bound its row.
proof fn lemma_arg_condition_holds(
    body: Seq<BodyTermView>,
    stratum: StratumView,
    rows: Seq<RowView>,
    store: Seq<TableView>,
    blocks: Set<Seq<u8>>,
    upto: int,
    m: int,
)
    requires
        body.len() <= usize::MAX,
        analyse(body, stratum).is_some(),
        layers_ok(body, stratum, rows, store, blocks),
        0 < upto <= body.len(),
        body[upto - 1] is Predicate,
        0 <= m < body[upto - 1]->Predicate_0.args.len(),
        arg_condition(
            body[upto - 1]->Predicate_0.args[m],
            body[upto - 1]->Predicate_0.id,
            layer_alias(analyse(body, stratum).unwrap().metas[layer_of(body, stratum, upto)]),
            bound_at(body, stratum, upto),
        ).is_some(),
    ensures
        formula_holds(
            arg_condition(
                body[upto - 1]->Predicate_0.args[m],
                body[upto - 1]->Predicate_0.id,
                layer_alias(analyse(body, stratum).unwrap().metas[layer_of(body, stratum, upto)]),
                bound_at(body, stratum, upto),
            ).unwrap(),
            trace(
                analyse(body, stratum).unwrap().metas,
                rows,
                store,
                (layer_of(body, stratum, upto) + 1) as nat,
            ),
            store,
        ) == Some(true),
{
    lemma_layer(body, stratum, upto);
    let whole = analyse(body, stratum).unwrap();
    let p = body[upto - 1]->Predicate_0;
    let j = layer_of(body, stratum, upto);
    let alias = layer_alias(whole.metas[j]);
    let beta = bound_at(body, stratum, upto);
    let from_cid = cid_when(p.cid, p.id, alias, beta);
    let from_args = args_when(p.args, p.id, alias, beta);
    lemma_arg_condition(p.args, p.id, alias, beta, m);
    let wanted = arg_condition(p.args[m], p.id, alias, beta).unwrap();
    let k = from_args.index_of(wanted);
    assert((from_cid + from_args)[from_cid.len() + k] == wanted);
    lemma_condition_holds(body, stratum, rows, store, blocks, j, wanted);
}

/// One column of a predicate agrees with the row of its search under the
/// values of the variables, where the conditions of the search hold.
proof fn lemma_arg_holds(
    body: Seq<BodyTermView>,
    stratum: StratumView,
    rows: Seq<RowView>,
    store: Seq<TableView>,
    blocks: Set<Seq<u8>>,
    upto: int,
    m: int,
)
    requires
        body.len() <= usize::MAX,
        analyse(body, stratum).is_some(),
        layers_ok(body, stratum, rows, store, blocks),
        columns_declared(body, store),
        0 < upto <= body.len(),
        body[upto - 1] is Predicate,
        0 <= m < body[upto - 1]->Predicate_0.args.len(),
    ensures
        arg_holds(
            body[upto - 1]->Predicate_0.args[m],
            schema_at(store, body[upto - 1]->Predicate_0.id),
            layer_row(
                analyse(body, stratum).unwrap().metas,
                rows,
                layer_of(body, stratum, upto),
            ),
            values_of(body, stratum, rows, store),
        ),
{
    let whole = analyse(body, stratum).unwrap();
    let p = body[upto - 1]->Predicate_0;
    let j = layer_of(body, stratum, upto);
    let alias = layer_alias(whole.metas[j]);
    let beta = bound_at(body, stratum, upto);
    let arg = p.args[m];
    let here = trace(whole.metas, rows, store, (j + 1) as nat);
    let mine = own(arg.col, p.id, alias);
    let value = col_value(schema_at(store, p.id), layer_row(whole.metas, rows, j), arg.col);
    lemma_own_value(body, stratum, rows, store, blocks, upto, m);
    assert(resolve(here, mine) == value);
    if arg_condition(arg, p.id, alias, beta).is_some() {
        lemma_arg_condition_holds(body, stratum, rows, store, blocks, upto, m);
    }
    match arg.val {
        ColValView::Lit(v) => {
            assert(arg_condition(arg, p.id, alias, beta) == Some(
                FormulaView::Equality(mine, TermView::Literal(v)),
            ));
            assert(value == Some(v));
        },
        ColValView::Binding(x) => {
            lemma_layer(body, stratum, upto);
            assert(lookup(beta, x.id).is_some());
            let t = lookup(beta, x.id).unwrap();
            lemma_value_kept(body, stratum, rows, store, upto, x.id);
            if t != mine {
                assert(arg_condition(arg, p.id, alias, beta) == Some(
                    FormulaView::Equality(mine, t),
                ));
                assert(resolve(here, t) == value);
            }
            assert(resolve(here, t) == value);
        },
    }
}

/// The row of a search has the content identifier that its predicate asks
/// for, under the values of the variables, where the search takes the row
/// and its conditions hold.
proof fn lemma_cid_holds(
    body: Seq<BodyTermView>,
    stratum: StratumView,
    rows: Seq<RowView>,
    store: Seq<TableView>,
    blocks: Set<Seq<u8>>,
    upto: int,
)
    requires
        body.len() <= usize::MAX,
        analyse(body, stratum).is_some(),
        layers_ok(body, stratum, rows, store, blocks),
        0 < upto <= body.len(),
        body[upto - 1] is Predicate,
    ensures
        cid_holds(
            body[upto - 1]->Predicate_0.cid,
            layer_row(
                analyse(body, stratum).unwrap().metas,
                rows,
                layer_of(body, stratum, upto),
            ),
            values_of(body, stratum, rows, store),
            blocks,
        ),
{
    lemma_layer(body, stratum, upto);
    let whole = analyse(body, stratum).unwrap();
    let p = body[upto - 1]->Predicate_0;
    let j = layer_of(body, stratum, upto);
    let meta = whole.metas[j];
    let alias = layer_alias(meta);
    let beta = bound_at(body, stratum, upto);
    let from_cid = cid_when(p.cid, p.id, alias, beta);
    let from_args = args_when(p.args, p.id, alias, beta);
    assert(layer_ok(whole.metas, rows, store, blocks, j));
    let row = layer_row(whole.metas, rows, j);
    let here = trace(whole.metas, rows, store, (j + 1) as nat);
    let mine = TermView::Cid { relation: p.id, alias };
    match p.cid {
        None => {},
        Some(asked) => {
            let held = row.cid.unwrap();
            assert(resolve(here, mine) == Some(ValueView::Cid(held)));
            if from_cid.len() > 0 {
                assert((from_cid + from_args)[0] == from_cid[0]);
                lemma_condition_holds(body, stratum, rows, store, blocks, j, from_cid[0]);
            }
            match asked {
                CidValueView::Cid(c) => {},
                CidValueView::Var(x) => {
                    lemma_value_kept(body, stratum, rows, store, upto, x.id);
                },
            }
        },
    }
}

/// After the variables of a predicate are bound, a variable stands for
/// something exactly where it did before or a column of the predicate names
/// it.
pub proof fn lemma_bind_args_domain(
    bindings: Seq<BoundVarView>,
    args: Seq<ColBindingView>,
    relation: Seq<char>,
    alias: Option<AliasId>,
    x: Seq<char>,
)
    ensures
        lookup(bind_args(bindings, args, relation, alias), x).is_some() <==> (lookup(
            bindings,
            x,
        ).is_some() || exists|m: int| 0 <= m < args.len() && arg_names(#[trigger] args[m], x)),
    decreases args.len(),
{
    if args.len() > 0 {
        let front = args.drop_last();
        lemma_bind_args_domain(bindings, front, relation, alias, x);
        let prev = bind_args(bindings, front, relation, alias);
        let now = bind_args(bindings, args, relation, alias);
        if now != prev {
            assert(now.drop_last() =~= prev);
        }
        if exists|m: int| 0 <= m < front.len() && arg_names(#[trigger] front[m], x) {
            let m = choose|m: int| 0 <= m < front.len() && arg_names(#[trigger] front[m], x);
            assert(args[m] == front[m]);
        }
        if exists|m: int| 0 <= m < args.len() && arg_names(#[trigger] args[m], x) {
            let m = choose|m: int| 0 <= m < args.len() && arg_names(#[trigger] args[m], x);
            if m < front.len() {
                assert(front[m] == args[m]);
            }
        }
        if lookup(now, x).is_some() && !lookup(prev, x).is_some() {
            assert(arg_names(args[args.len() - 1], x));
        }
    }
}

/// A variable stands for something in the analysis of a body exactly where
/// a term of the body gives it a value.
pub proof fn lemma_binds(body: Seq<BodyTermView>, stratum: StratumView, x: Seq<char>)
    requires
        analyse(body, stratum).is_some(),
    ensures
        lookup(analyse(body, stratum).unwrap().bindings, x).is_some() <==> binds(body, x),
    decreases body.len(),
{
    if body.len() > 0 {
        let front = body.drop_last();
        lemma_binds(front, stratum, x);
        let prev = analyse(front, stratum).unwrap();
        let now = analyse(body, stratum).unwrap();
        let alias = alias_after(occurrences(front, term_relation(body.last())));
        match body.last() {
            BodyTermView::Predicate(p) => {
                let base = bind_cid(prev.bindings, p.cid, p.id, alias);
                if base != prev.bindings {
                    assert(base.drop_last() =~= prev.bindings);
                }
                lemma_bind_args_domain(base, p.args, p.id, alias, x);
            },
            BodyTermView::Negation(_) => {},
            BodyTermView::Aggregation(g) => {
                if now.bindings != prev.bindings {
                    assert(now.bindings.drop_last() =~= prev.bindings);
                }
            },
        }
    }
}

/// The column that an aggregation names a variable for is one of its
/// columns.
pub proof fn lemma_local_col(group_by: Seq<ColBindingView>, x: Seq<char>)
    requires
        local_col(group_by, x).is_some(),
    ensures
        exists|m: int|
            0 <= m < group_by.len() && (#[trigger] group_by[m]).col == local_col(group_by, x).unwrap(),
    decreases group_by.len(),
{
    let last = group_by.len() - 1;
    if arg_names(group_by[last], x) {
        assert(group_by[last].col == local_col(group_by, x).unwrap());
    } else {
        let front = group_by.drop_last();
        lemma_local_col(front, x);
        let m = choose|m: int|
            0 <= m < front.len() && (#[trigger] front[m]).col == local_col(front, x).unwrap();
        assert(group_by[m] == front[m]);
    }
}

/// The terms of the arguments of a reducer are, one by one, the terms of
/// its variables.
pub proof fn lemma_agg_args(
    args: Seq<VarView>,
    group_by: Seq<ColBindingView>,
    relation: Seq<char>,
    alias: Option<AliasId>,
    bindings: Seq<BoundVarView>,
)
    requires
        agg_args(args, group_by, relation, alias, bindings).is_some(),
    ensures
        agg_args(args, group_by, relation, alias, bindings).unwrap().len() == args.len(),
        forall|k: int|
            0 <= k < args.len() ==> agg_arg(
                (#[trigger] args[k]).id,
                group_by,
                relation,
                alias,
                bindings,
            ) == Some(agg_args(args, group_by, relation, alias, bindings).unwrap()[k]),
    decreases args.len(),
{
    if args.len() > 0 {
        let front = args.drop_last();
        lemma_agg_args(front, group_by, relation, alias, bindings);
        let all = agg_args(args, group_by, relation, alias, bindings).unwrap();
        let prev = agg_args(front, group_by, relation, alias, bindings).unwrap();
        assert forall|k: int| 0 <= k < args.len() implies agg_arg(
            (#[trigger] args[k]).id,
            group_by,
            relation,
            alias,
            bindings,
        ) == Some(all[k]) by {
            if k < front.len() {
                assert(front[k] == args[k]);
                assert(all[k] == prev[k]);
            }
        }
    }
}

/// The values of the terms of the arguments of a reducer are the values of
/// its arguments, where this holds of each.
pub proof fn lemma_args_under(
    args: Seq<VarView>,
    terms: Seq<TermView>,
    bound: Seq<BoundView>,
    group_by: Seq<ColBindingView>,
    before: Seq<BodyTermView>,
    sigma: Map<Seq<char>, ValueView>,
    schema: Seq<ColumnView>,
    row: RowView,
)
    requires
        terms.len() == args.len(),
        forall|k: int|
            0 <= k < args.len() ==> resolve(bound, #[trigger] terms[k]) == arg_under(
                args[k].id,
                group_by,
                before,
                sigma,
                schema,
                row,
            ),
    ensures
        resolve_all(terms, bound) == args_under(args, group_by, before, sigma, schema, row),
    decreases args.len(),
{
    if args.len() > 0 {
        let front = args.drop_last();
        let fewer = terms.drop_last();
        assert forall|k: int| 0 <= k < front.len() implies resolve(bound, #[trigger] fewer[k])
            == arg_under(front[k].id, group_by, before, sigma, schema, row) by {
            assert(fewer[k] == terms[k]);
            assert(front[k] == args[k]);
        }
        lemma_args_under(front, fewer, bound, group_by, before, sigma, schema, row);
        assert(resolve(bound, terms[terms.len() - 1]) == arg_under(
            args[args.len() - 1].id,
            group_by,
            before,
            sigma,
            schema,
            row,
        ));
    }
}

/// The fold that an aggregation lowers to is the fold of its reducer, where
/// the arguments have the same values at each row.
pub proof fn lemma_folded_from(
    fold: FoldView,
    bound: Seq<BoundView>,
    g: AggregationView,
    before: Seq<BodyTermView>,
    sigma: Map<Seq<char>, ValueView>,
    start: ValueView,
    rows: Seq<RowView>,
)
    requires
        fold.reducer == g.reducer,
        forall|k: int|
            0 <= k < rows.len() ==> resolve_all(
                fold.args,
                bind_row(bound, fold.relation, fold.alias, fold.schema, #[trigger] rows[k]),
            ) == args_under(g.args, g.group_by, before, sigma, fold.schema, rows[k]),
    ensures
        fold_from(fold, start, rows, bound) == folded_from(
            g,
            before,
            sigma,
            fold.schema,
            start,
            rows,
        ),
    decreases rows.len(),
{
    if rows.len() > 0 {
        let front = rows.drop_last();
        assert forall|k: int| 0 <= k < front.len() implies resolve_all(
            fold.args,
            bind_row(bound, fold.relation, fold.alias, fold.schema, #[trigger] front[k]),
        ) == args_under(g.args, g.group_by, before, sigma, fold.schema, front[k]) by {
            assert(front[k] == rows[k]);
        }
        lemma_folded_from(fold, bound, g, before, sigma, start, front);
        assert(rows.last() == rows[rows.len() - 1]);
    }
}

/// The key that an aggregation lowers to has, under what is bound, the
/// fields of the key of the aggregation under the values of the variables.
pub proof fn lemma_key_under(
    group_by: Seq<ColBindingView>,
    beta: Seq<BoundVarView>,
    before: Seq<BodyTermView>,
    bound: Seq<BoundView>,
    sigma: Map<Seq<char>, ValueView>,
)
    requires
        forall|x: Seq<char>| (#[trigger] lookup(beta, x)).is_some() <==> binds(before, x),
        forall|x: Seq<char>|
            (#[trigger] lookup(beta, x)).is_some() ==> resolve(bound, lookup(beta, x).unwrap()) == (
            if sigma.contains_key(x) {
                Some(sigma[x])
            } else {
                None
            }),
    ensures
        key_of(group_key(group_by, beta), bound) == key_under(group_by, before, sigma),
    decreases group_by.len(),
{
    if group_by.len() > 0 {
        lemma_key_under(group_by.drop_last(), beta, before, bound, sigma);
        let all = group_key(group_by, beta);
        let prev = group_key(group_by.drop_last(), beta);
        if all != prev {
            assert(all.drop_last() =~= prev);
        }
        match group_by.last().val {
            ColValView::Lit(_) => {},
            ColValView::Binding(x) => {
                assert(lookup(beta, x.id).is_some() <==> binds(before, x.id));
            },
        }
    }
}

/// The term of an aggregation: its place among the terms of the body, and
/// what it is made of; what the variables stand for before it is kept to the
/// end, stands for something of a term before it, and is there for the
/// variables that the terms before it give a value.
proof fn lemma_agg_layer(body: Seq<BodyTermView>, stratum: StratumView, upto: int)
    requires
        body.len() <= usize::MAX,
        analyse(body, stratum).is_some(),
        0 < upto <= body.len(),
        body[upto - 1] is Aggregation,
    ensures
        analyse(body.take(upto - 1), stratum).is_some(),
        analyse(body.take(upto), stratum).is_some(),
        0 <= layer_of(body, stratum, upto) < analyse(body, stratum).unwrap().metas.len(),
        analyse(body.take(upto), stratum).unwrap().metas.len() == layer_of(body, stratum, upto) + 1,
        analyse(body, stratum).unwrap().metas.len() <= usize::MAX,
        aliases_counted(analyse(body, stratum).unwrap().metas),
        ({
            let g = body[upto - 1]->Aggregation_0;
            let meta = analyse(body, stratum).unwrap().metas[layer_of(body, stratum, upto)];
            let alias = layer_alias(meta);
            let front = analyse(body.take(upto - 1), stratum).unwrap().bindings;
            let whole = analyse(body, stratum).unwrap();
            &&& agg_args(g.args, g.group_by, g.over, alias, front).is_some()
            &&& meta == TermMetadataView::Aggregation {
                id: g.over,
                alias,
                when: seq![],
                group_by_cols: group_key(g.group_by, front),
                args: agg_args(g.args, g.group_by, g.over, alias, front).unwrap(),
                init: g.init,
                target: g.target,
                reducer: g.reducer,
            }
            &&& keeps(front, whole.bindings)
            &&& lookup(front, g.target.id).is_none() ==> lookup(whole.bindings, g.target.id)
                == Some(layer_target(meta))
            &&& forall|x: Seq<char>|
                (#[trigger] lookup(front, x)).is_some() ==> exists|i: int|
                    0 <= i < layer_of(body, stratum, upto) && keyed_by(
                        lookup(front, x).unwrap(),
                        layer_id(#[trigger] whole.metas[i]),
                        layer_alias(whole.metas[i]),
                    )
        }),
{
    let whole = analyse(body, stratum).unwrap();
    let g = body[upto - 1]->Aggregation_0;
    let part_body = body.take(upto);
    let front_body = body.take(upto - 1);
    lemma_analyse_prefix(body, stratum, upto);
    lemma_analyse_prefix(body, stratum, upto - 1);
    lemma_analyse_shape(body, stratum);
    assert(part_body.drop_last() =~= front_body);
    assert(part_body.last() == body[upto - 1]);
    lemma_analyse_shape(front_body, stratum);
    let part = analyse(part_body, stratum).unwrap();
    let front = analyse(front_body, stratum).unwrap();
    let j = front.metas.len() as int;
    let meta = part.metas.last();
    assert(part.metas.len() == j + 1);
    assert(whole.metas[j] == part.metas[j]);
    if lookup(front.bindings, g.target.id).is_none() {
        assert(lookup(part.bindings, g.target.id) == Some(layer_target(meta)));
    }
    assert forall|x: Seq<char>| (#[trigger] lookup(front.bindings, x)).is_some() implies exists|i: int|
        0 <= i < j && keyed_by(
            lookup(front.bindings, x).unwrap(),
            layer_id(#[trigger] whole.metas[i]),
            layer_alias(whole.metas[i]),
        ) by {
        let t = lookup(front.bindings, x).unwrap();
        lemma_lookup_entry(front.bindings, x);
        let e = choose|e: int| 0 <= e < front.bindings.len() && (#[trigger] front.bindings[e]).term == t;
        assert(keyed_by_some(front.bindings[e].term, front.metas));
        let i = choose|i: int|
            0 <= i < front.metas.len() && keyed_by(
                t,
                layer_id(#[trigger] front.metas[i]),
                layer_alias(front.metas[i]),
            );
        assert(front.metas == whole.metas.take(j));
        assert(whole.metas.take(j)[i] == whole.metas[i]);
    }
}

/// What a variable stands for before an aggregation has, before the
/// aggregation and while its rows are bound, the value that it has at the
/// end.
proof fn lemma_front_value(
    body: Seq<BodyTermView>,
    stratum: StratumView,
    rows: Seq<RowView>,
    store: Seq<TableView>,
    upto: int,
    row: RowView,
    x: Seq<char>,
)
    requires
        body.len() <= usize::MAX,
        analyse(body, stratum).is_some(),
        0 < upto <= body.len(),
        body[upto - 1] is Aggregation,
        lookup(analyse(body.take(upto - 1), stratum).unwrap().bindings, x).is_some(),
    ensures
        values_of(body, stratum, rows, store).contains_key(x) <==> resolve(
            trace(
                analyse(body, stratum).unwrap().metas,
                rows,
                store,
                layer_of(body, stratum, upto) as nat,
            ),
            lookup(analyse(body.take(upto - 1), stratum).unwrap().bindings, x).unwrap(),
        ).is_some(),
        values_of(body, stratum, rows, store).contains_key(x) ==> resolve(
            trace(
                analyse(body, stratum).unwrap().metas,
                rows,
                store,
                layer_of(body, stratum, upto) as nat,
            ),
            lookup(analyse(body.take(upto - 1), stratum).unwrap().bindings, x).unwrap(),
        ) == Some(values_of(body, stratum, rows, store)[x]),
        resolve(
            bind_row(
                trace(
                    analyse(body, stratum).unwrap().metas,
                    rows,
                    store,
                    layer_of(body, stratum, upto) as nat,
                ),
                body[upto - 1]->Aggregation_0.over,
                layer_alias(analyse(body, stratum).unwrap().metas[layer_of(body, stratum, upto)]),
                schema_at(store, body[upto - 1]->Aggregation_0.over),
                row,
            ),
            lookup(analyse(body.take(upto - 1), stratum).unwrap().bindings, x).unwrap(),
        ) == resolve(
            trace(
                analyse(body, stratum).unwrap().metas,
                rows,
                store,
                layer_of(body, stratum, upto) as nat,
            ),
            lookup(analyse(body.take(upto - 1), stratum).unwrap().bindings, x).unwrap(),
        ),
{
    lemma_agg_layer(body, stratum, upto);
    let whole = analyse(body, stratum).unwrap();
    let front = analyse(body.take(upto - 1), stratum).unwrap().bindings;
    let j = layer_of(body, stratum, upto);
    let t = lookup(front, x).unwrap();
    let i = choose|i: int|
        0 <= i < j && keyed_by(t, layer_id(#[trigger] whole.metas[i]), layer_alias(whole.metas[i]));
    lemma_trace_keeps(whole.metas, rows, store, j as nat, whole.metas.len(), i, t);
    if layer_id(whole.metas[i]) == layer_id(whole.metas[j]) {
        lemma_aliases_differ(whole.metas, i, j);
    }
    lemma_bind_row_other(
        trace(whole.metas, rows, store, j as nat),
        body[upto - 1]->Aggregation_0.over,
        layer_alias(whole.metas[j]),
        schema_at(store, body[upto - 1]->Aggregation_0.over),
        row,
        t,
    );
    assert(lookup(whole.bindings, x) == Some(t));
}

/// The terms of the arguments of the reducer of an aggregation have, once a
/// row of its relation is bound, the values of the arguments at the row.
proof fn lemma_row_args(
    body: Seq<BodyTermView>,
    stratum: StratumView,
    rows: Seq<RowView>,
    store: Seq<TableView>,
    upto: int,
    row: RowView,
)
    requires
        body.len() <= usize::MAX,
        analyse(body, stratum).is_some(),
        columns_declared(body, store),
        0 < upto <= body.len(),
        body[upto - 1] is Aggregation,
        distinct_columns(schema_at(store, body[upto - 1]->Aggregation_0.over)),
        row.values.len() == schema_at(store, body[upto - 1]->Aggregation_0.over).len(),
    ensures
        ({
            let g = body[upto - 1]->Aggregation_0;
            let whole = analyse(body, stratum).unwrap();
            let j = layer_of(body, stratum, upto);
            let alias = layer_alias(whole.metas[j]);
            let front = analyse(body.take(upto - 1), stratum).unwrap().bindings;
            let schema = schema_at(store, g.over);
            let bound = bind_row(trace(whole.metas, rows, store, j as nat), g.over, alias, schema, row);
            let sigma = values_of(body, stratum, rows, store);
            &&& resolve_all(agg_args(g.args, g.group_by, g.over, alias, front).unwrap(), bound)
                == args_under(g.args, g.group_by, body.take(upto - 1), sigma, schema, row)
            &&& forall|k: int|
                0 <= k < g.args.len() ==> resolve(
                    bound,
                    #[trigger] agg_args(g.args, g.group_by, g.over, alias, front).unwrap()[k],
                ) == arg_under(g.args[k].id, g.group_by, body.take(upto - 1), sigma, schema, row)
        }),
{
    lemma_agg_layer(body, stratum, upto);
    let g = body[upto - 1]->Aggregation_0;
    let whole = analyse(body, stratum).unwrap();
    let j = layer_of(body, stratum, upto);
    let alias = layer_alias(whole.metas[j]);
    let before = body.take(upto - 1);
    let front = analyse(before, stratum).unwrap().bindings;
    let schema = schema_at(store, g.over);
    let here = trace(whole.metas, rows, store, j as nat);
    let bound = bind_row(here, g.over, alias, schema, row);
    let sigma = values_of(body, stratum, rows, store);
    let terms = agg_args(g.args, g.group_by, g.over, alias, front).unwrap();
    lemma_agg_args(g.args, g.group_by, g.over, alias, front);
    assert forall|k: int| 0 <= k < g.args.len() implies resolve(bound, #[trigger] terms[k])
        == arg_under(g.args[k].id, g.group_by, before, sigma, schema, row) by {
        let x = g.args[k].id;
        assert(agg_arg(x, g.group_by, g.over, alias, front) == Some(terms[k]));
        lemma_binds(before, stratum, x);
        if lookup(front, x).is_some() {
            lemma_front_value(body, stratum, rows, store, upto, row, x);
        } else {
            let col = local_col(g.group_by, x).unwrap();
            lemma_local_col(g.group_by, x);
            let m = choose|m: int| 0 <= m < g.group_by.len() && (#[trigger] g.group_by[m]).col == col;
            assert(group_declared(g, m, store));
            lemma_bind_row_own(here, g.over, alias, schema, row, col);
        }
    }
    lemma_args_under(g.args, terms, bound, g.group_by, before, sigma, schema, row);
}

/// An aggregation of the body holds under the values of the variables,
/// where its term has a result.
proof fn lemma_agg_holds(
    body: Seq<BodyTermView>,
    stratum: StratumView,
    rows: Seq<RowView>,
    store: Seq<TableView>,
    blocks: Set<Seq<u8>>,
    upto: int,
)
    requires
        body.len() <= usize::MAX,
        store_wf(store),
        schemas_distinct(store),
        analyse(body, stratum).is_some(),
        layers_ok(body, stratum, rows, store, blocks),
        columns_declared(body, store),
        fresh_targets(body),
        0 < upto <= body.len(),
        body[upto - 1] is Aggregation,
    ensures
        aggregation_holds(
            body[upto - 1]->Aggregation_0,
            body.take(upto - 1),
            values_of(body, stratum, rows, store),
            store,
        ),
{
    lemma_agg_layer(body, stratum, upto);
    let g = body[upto - 1]->Aggregation_0;
    let whole = analyse(body, stratum).unwrap();
    let j = layer_of(body, stratum, upto);
    let meta = whole.metas[j];
    let alias = layer_alias(meta);
    let before = body.take(upto - 1);
    let front = analyse(before, stratum).unwrap().bindings;
    let here = trace(whole.metas, rows, store, j as nat);
    let next = trace(whole.metas, rows, store, (j + 1) as nat);
    let end = trace(whole.metas, rows, store, whole.metas.len());
    let sigma = values_of(body, stratum, rows, store);
    assert(layer_ok(whole.metas, rows, store, blocks, j));
    find_table_sound(store, g.over);
    let at = find_table(store, g.over).unwrap();
    let table = store[at];
    let schema = table.declaration.schema;
    assert(schema == schema_at(store, g.over));
    assert(table_wf(table));
    assert(distinct_columns(schema));
    let keys = group_key(g.group_by, front);
    let terms = agg_args(g.args, g.group_by, g.over, alias, front).unwrap();
    let result = layer_result(meta, here, store);
    assert(result matches Ok(Some(_)));
    let key = key_of(keys, here).unwrap();
    let found = matching(schema, table.total, key);
    let fold = FoldView { reducer: g.reducer, args: terms, relation: g.over, alias, schema };
    assert(result == fold_rows(fold, g.init, found, here));
    assert forall|x: Seq<char>| (#[trigger] lookup(front, x)).is_some() <==> binds(before, x) by {
        lemma_binds(before, stratum, x);
    }
    assert forall|x: Seq<char>| (#[trigger] lookup(front, x)).is_some() implies resolve(
        here,
        lookup(front, x).unwrap(),
    ) == (if sigma.contains_key(x) {
        Some(sigma[x])
    } else {
        None
    }) by {
        lemma_front_value(body, stratum, rows, store, upto, table.total[0], x);
    }
    lemma_key_under(g.group_by, front, before, here, sigma);
    assert(key_under(g.group_by, before, sigma) == Some(key));
    crate::runtime::reduce::lemma_matching_conform(schema, table.total, key);
    assert forall|k: int| 0 <= k < found.len() implies resolve_all(
        fold.args,
        bind_row(here, fold.relation, fold.alias, fold.schema, #[trigger] found[k]),
    ) == args_under(g.args, g.group_by, before, sigma, fold.schema, found[k]) by {
        lemma_row_args(body, stratum, rows, store, upto, found[k]);
    }
    lemma_agg_args(g.args, g.group_by, g.over, alias, front);
    if found.len() > 0 {
        match g.init {
            Some(start) => {
                lemma_folded_from(fold, here, g, before, sigma, start, found);
            },
            None => {
                if g.args.len() == 1 {
                    lemma_row_args(body, stratum, rows, store, upto, found[0]);
                    let first = arg_under(g.args[0].id, g.group_by, before, sigma, schema, found[0]);
                    assert(resolve(bind_row(here, g.over, alias, schema, found[0]), terms[0]) == first);
                    if first.is_some() {
                        let rest = found.drop_first();
                        assert forall|k: int| 0 <= k < rest.len() implies resolve_all(
                            fold.args,
                            bind_row(here, fold.relation, fold.alias, fold.schema, #[trigger] rest[k]),
                        ) == args_under(g.args, g.group_by, before, sigma, fold.schema, rest[k]) by {
                            assert(rest[k] == found[k + 1]);
                        }
                        lemma_folded_from(fold, here, g, before, sigma, first.unwrap(), rest);
                    }
                }
            },
        }
    }
    assert(result == folded(g, before, sigma, schema, found));
    assert(!binds(before, g.target.id));
    lemma_binds(before, stratum, g.target.id);
    let mine = layer_target(meta);
    assert(lookup(whole.bindings, g.target.id) == Some(mine));
    assert(next.drop_last() =~= here);
    assert(resolve(next, mine) == Some(result->Ok_0.unwrap()));
    lemma_trace_keeps(whole.metas, rows, store, (j + 1) as nat, whole.metas.len(), j, mine);
    assert(sigma.contains_key(g.target.id));
}

/// The body up to a place holds by way of the rows of its searches, under
/// the values that the variables have once all its terms have bound their
/// rows and results.
proof fn lemma_body_holds(
    body: Seq<BodyTermView>,
    stratum: StratumView,
    rows: Seq<RowView>,
    store: Seq<TableView>,
    blocks: Set<Seq<u8>>,
    upto: int,
)
    requires
        body.len() <= usize::MAX,
        store_wf(store),
        schemas_distinct(store),
        analyse(body, stratum).is_some(),
        layers_ok(body, stratum, rows, store, blocks),
        columns_declared(body, store),
        fresh_targets(body),
        negations_hold(body, values_of(body, stratum, rows, store), store),
        0 <= upto <= body.len(),
    ensures
        analyse(body.take(upto), stratum).is_some(),
        analyse(body.take(upto), stratum).unwrap().metas.len() <= analyse(
            body,
            stratum,
        ).unwrap().metas.len(),
        body_holds(
            body.take(upto),
            rows.take(
                row_at(
                    analyse(body, stratum).unwrap().metas,
                    analyse(body.take(upto), stratum).unwrap().metas.len(),
                ) as int,
            ),
            values_of(body, stratum, rows, store),
            store,
            blocks,
        ),
    decreases upto,
{
    lemma_analyse_prefix(body, stratum, upto);
    let sigma = values_of(body, stratum, rows, store);
    let whole = analyse(body, stratum).unwrap();
    if upto > 0 {
        lemma_body_holds(body, stratum, rows, store, blocks, upto - 1);
        lemma_analyse_prefix(body, stratum, upto - 1);
        let part_body = body.take(upto);
        let front_body = body.take(upto - 1);
        assert(part_body.drop_last() =~= front_body);
        assert(part_body.last() == body[upto - 1]);
        let part = analyse(part_body, stratum).unwrap();
        let front = analyse(front_body, stratum).unwrap();
        let j = front.metas.len() as int;
        let at = row_at(whole.metas, j as nat) as int;
        match body[upto - 1] {
            BodyTermView::Predicate(p) => {
                assert(part.metas.len() == j + 1);
                assert(whole.metas[j] == part.metas[j]);
                assert(layer_id(part.metas[j]) == p.id);
                assert(layer_ok(whole.metas, rows, store, blocks, j));
                assert(row_at(whole.metas, (j + 1) as nat) == at + 1);
                assert(rows.take(at + 1).drop_last() =~= rows.take(at));
                assert(rows.take(at + 1).last() == rows[at]);
                assert forall|m: int| 0 <= m < p.args.len() implies arg_holds(
                    #[trigger] p.args[m],
                    store[find_table(store, p.id).unwrap()].declaration.schema,
                    rows[at],
                    sigma,
                ) by {
                    lemma_arg_holds(body, stratum, rows, store, blocks, upto, m);
                }
                lemma_cid_holds(body, stratum, rows, store, blocks, upto);
                assert(predicate_holds(p, rows[at], sigma, store, blocks));
            },
            BodyTermView::Negation(n) => {
                assert(part == front);
                assert(body[upto - 1]->Negation_0 == n);
            },
            BodyTermView::Aggregation(g) => {
                assert(part.metas.len() == j + 1);
                assert(whole.metas[j] == part.metas[j]);
                assert(row_at(whole.metas, (j + 1) as nat) == at);
                lemma_agg_holds(body, stratum, rows, store, blocks, upto);
            },
        }
    } else {
        assert(body.take(0) =~= seq![]);
        assert(rows.take(0).len() == 0);
    }
}

/// Whether the columns of the relations of the storage have different
/// names.
pub open spec fn schemas_distinct(store: Seq<TableView>) -> bool {
    forall|i: int| 0 <= i < store.len() ==> distinct_columns((#[trigger] store[i]).declaration.schema)
}

/// The lowering of rules is sound. Let a rule be lowered, and let one of
/// its rewrites derive a tuple by way of rows, one for each of its searches.
/// Then the rule itself derives the tuple by way of these rows: there are
/// values of its variables under which each predicate of its body holds of
/// its row, which `Total` or `Delta` of the predicate's relation holds and
/// which has the content identifier that the predicate asks for; under which
/// each negation holds, no row of `Total` of the negated relation having the
/// values of its columns; under which the target of each aggregation has the
/// value of its reducer over the rows of `Total` of its relation that have
/// the values of its key; and under which the head has the fields of the
/// tuple.
pub proof fn lowering_is_sound(
    rule: RuleView,
    stratum: StratumView,
    version: Version,
    store: Seq<TableView>,
    blocks: Set<Seq<u8>>,
    which: int,
    rows: Seq<RowView>,
    tuple: TupleView,
)
    requires
        fresh_targets(rule.body),
        rule.body.len() <= usize::MAX,
        store_wf(store),
        schemas_distinct(store),
        columns_declared(rule.body, store),
        lower_rule(rule, stratum, version) is Ok,
        0 <= which < lower_rule(rule, stratum, version)->Ok_0.len(),
        derives(
            lower_rule(rule, stratum, version)->Ok_0[which]->Insert_operation,
            rows,
            seq![],
            store,
            blocks,
            tuple,
        ),
    ensures
        exists|sigma: Map<Seq<char>, ValueView>|
            #[trigger] rule_derives(rule, rows, sigma, store, blocks, tuple),
{
    let body = rule.body;
    let analysis = analyse(body, stratum).unwrap();
    let negations = negations_when(body, analysis.bindings).unwrap();
    let attributes = attrs_of(rule.args, analysis.bindings)->Ok_0;
    let dynamic = count_dynamic(analysis.metas);
    let n = analysis.metas.len();
    let metas = if n == 0 {
        analysis.metas
    } else {
        analysis.metas.drop_last().push(with_conditions(analysis.metas.last(), negations))
    };
    let core = OperationView::Project {
        attributes,
        into: RelationView { id: rule.head, version },
    };
    let mask = (pow2(dynamic) - 1 - which) as nat;
    let operation = lower_rule(rule, stratum, version)->Ok_0[which]->Insert_operation;
    assert(operation == rewrite(metas, core, mask));
    lemma_analyse_shape(body, stratum);
    assert(metas.skip(0) =~= metas);
    assert(rows.skip(0) =~= rows);
    lemma_chain(metas, core, mask, rows, store, blocks, tuple, 0);
    assert forall|j: int| 0 <= j < n implies bare(#[trigger] metas[j]) == bare(analysis.metas[j]) by {
        if j < n - 1 {
            assert(metas[j] == analysis.metas[j]);
        }
    }
    assert forall|count: nat| count <= n implies #[trigger] trace(metas, rows, store, count)
        == trace(analysis.metas, rows, store, count) && row_at(metas, count) == row_at(
        analysis.metas,
        count,
    ) by {
        lemma_trace_same(metas, analysis.metas, rows, store, count);
    }
    let end = trace(analysis.metas, rows, store, n);
    assert(end == trace(metas, rows, store, n));
    let sigma = valuation(analysis.bindings, end);
    assert(sigma == values_of(body, stratum, rows, store));
    assert forall|j: int| 0 <= j < n implies #[trigger] layer_ok(
        analysis.metas,
        rows,
        store,
        blocks,
        j,
    ) by {
        assert(layer_holds(metas, rows, store, blocks, j));
        assert(bare(metas[j]) == bare(analysis.metas[j]));
        let before = trace(analysis.metas, rows, store, j as nat);
        assert(before == trace(metas, rows, store, j as nat));
        assert(row_at(metas, j as nat) == row_at(analysis.metas, j as nat));
        let here = trace(analysis.metas, rows, store, (j + 1) as nat);
        assert(here == trace(metas, rows, store, (j + 1) as nat));
        find_table_sound(store, layer_id(metas[j]));
        let i = find_table(store, layer_id(metas[j])).unwrap();
        assert(distinct_columns(store[i].declaration.schema));
        if metas[j] is Search {
            let row = layer_row(metas, rows, j);
            assert(table_wf(store[i]));
            if store[i].total.contains(row) {
                let k = store[i].total.index_of(row);
                assert(conforms(store[i].declaration.schema, store[i].total[k]));
            } else {
                let k = store[i].delta.index_of(row);
                assert(conforms(store[i].declaration.schema, store[i].delta[k]));
            }
        } else {
            assert(layer_result(metas[j], before, store) == layer_result(
                analysis.metas[j],
                before,
                store,
            ));
        }
        lemma_formulas_all(conditions_of(metas[j]), here, store);
        assert forall|k: int| 0 <= k < conditions_of(analysis.metas[j]).len() implies formula_holds(
            #[trigger] conditions_of(analysis.metas[j])[k],
            here,
            store,
        ) == Some(true) by {
            if j < n - 1 {
                assert(metas[j] == analysis.metas[j]);
            } else {
                let had = conditions_of(analysis.metas[j]);
                assert(conditions_of(metas[j]) == had + negations);
                assert((had + negations)[k] == had[k]);
            }
        }
    }
    assert forall|i: int| 0 <= i < body.len() && (#[trigger] body[i]) is Negation implies negation_holds(
        body[i]->Negation_0,
        sigma,
        store,
    ) by {
        let negation = body[i]->Negation_0;
        lemma_negation_condition(body, analysis.bindings, i);
        let wanted = negation_condition(negation, analysis.bindings);
        let at = negations.index_of(wanted);
        assert(n > 0);
        let had = conditions_of(analysis.metas[n - 1]);
        assert(conditions_of(metas[n - 1]) == had + negations);
        assert((had + negations)[had.len() + at] == wanted);
        assert(layer_holds(metas, rows, store, blocks, n - 1));
        lemma_formulas_all(conditions_of(metas[n - 1]), end, store);
        assert(formula_holds(wanted, end, store) == Some(true));
        lemma_cols_under(negation.args, analysis.bindings, end);
    }
    lemma_body_holds(body, stratum, rows, store, blocks, body.len() as int);
    assert(body.take(body.len() as int) =~= body);
    assert(rows.take(rows.len() as int) =~= rows);
    lemma_cols_under(rule.args, analysis.bindings, end);
    assert(rule_derives(rule, rows, sigma, store, blocks, tuple));
}

} // verus!
