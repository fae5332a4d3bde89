//! Relation storage: for each declared relation three sets of rows, one for
//! each version, held in memory.

use vstd::prelude::*;
use crate::error::{Error, ErrorView};
use crate::id::{ColId, RelationId};
use crate::logic::ast::{
    col_index, Column, ColumnView, Declaration, DeclarationView, FactArg, FactArgView, Source,
};
use crate::ram::{Relation, RelationView, Version};
use crate::tuple::{field_value, opt_cid_view, Tuple, TupleView};
use crate::types::admits;
use crate::value::{views, Cid, Value, ValueView};

verus! {

/// A stored tuple: the values of the columns of its relation, in the order
/// of the declaration, and the content identifier of its source, if any.
#[derive(Debug, PartialEq, Eq)]
pub struct Row {
    pub values: Vec<Value>,
    pub cid: Option<Cid>,
}

/// The mathematical content of a [`Row`].
pub struct RowView {
    pub values: Seq<ValueView>,
    pub cid: Option<Seq<u8>>,
}

impl View for Row {
    type V = RowView;

    open spec fn view(&self) -> RowView {
        RowView { values: views(self.values@), cid: opt_cid_view(self.cid) }
    }
}

impl Clone for Row {
    fn clone(&self) -> (r: Self)
        ensures
            r@ == self@,
    {
        let values = self.values.clone();
        assert(views(values@) =~= views(self.values@));
        let cid = match &self.cid {
            Some(c) => Some(c.clone()),
            None => None,
        };
        Row { values, cid }
    }
}

impl Row {
    /// Whether the two rows are equal: the same values in all columns, and
    /// the same source.
    pub fn same(&self, other: &Row) -> (eq: bool)
        ensures
            eq == (self@ == other@),
    {
        let same_cid = match (&self.cid, &other.cid) {
            (Some(a), Some(b)) => a.same(b),
            (None, None) => true,
            _ => false,
        };
        if !same_cid || self.values.len() != other.values.len() {
            assert(self@.values.len() == self.values.len());
            assert(other@.values.len() == other.values.len());
            return false;
        }
        let mut i: usize = 0;
        while i < self.values.len()
            invariant
                i <= self.values.len(),
                self.values.len() == other.values.len(),
                forall|j: int| 0 <= j < i ==> self@.values[j] == other@.values[j],
            decreases self.values.len() - i,
        {
            if !self.values[i].same(&other.values[i]) {
                assert(self@.values[i as int] != other@.values[i as int]);
                return false;
            }
            i += 1;
        }
        assert(self@.values =~= other@.values);
        true
    }
}

/// Whether a row fits a schema: it has a value for each column, of the
/// column's type.
pub open spec fn conforms(schema: Seq<ColumnView>, row: RowView) -> bool {
    &&& row.values.len() == schema.len()
    &&& forall|i: int| 0 <= i < schema.len() ==> admits((#[trigger] schema[i]).typ, row.values[i])
}

/// Whether all the rows fit the schema.
pub open spec fn all_conform(schema: Seq<ColumnView>, rows: Seq<RowView>) -> bool {
    forall|j: int| 0 <= j < rows.len() ==> conforms(schema, #[trigger] rows[j])
}

/// `rows` with `row` added at the end, unless it is there.
pub open spec fn inserted(rows: Seq<RowView>, row: RowView) -> Seq<RowView> {
    if rows.contains(row) {
        rows
    } else {
        rows.push(row)
    }
}

/// `into` with the rows of `from` added, in order, each unless it is there.
pub open spec fn merged(into: Seq<RowView>, from: Seq<RowView>) -> Seq<RowView>
    decreases from.len(),
{
    if from.len() == 0 {
        into
    } else {
        inserted(merged(into, from.drop_last()), from.last())
    }
}

/// Whether `row` has the values that `key` asks for: each column of the key
/// is a column of the schema, and the row has the key's value in it.
pub open spec fn row_matches(schema: Seq<ColumnView>, row: RowView, key: Seq<FactArgView>) -> bool {
    forall|k: int|
        0 <= k < key.len() ==> (col_index(schema, (#[trigger] key[k]).col) matches Some(i) && i
            < row.values.len() && row.values[i] == key[k].value)
}

/// The rows among `rows` that have the values that `key` asks for, in order.
pub open spec fn matching(schema: Seq<ColumnView>, rows: Seq<RowView>, key: Seq<FactArgView>) -> Seq<
    RowView,
>
    decreases rows.len(),
{
    if rows.len() == 0 {
        seq![]
    } else {
        let rest = matching(schema, rows.drop_last(), key);
        if row_matches(schema, rows.last(), key) {
            rest.push(rows.last())
        } else {
            rest
        }
    }
}

/// One physical set of rows. No row is in it twice.
pub struct TupleSet {
    rows: Vec<Row>,
}

impl View for TupleSet {
    type V = Seq<RowView>;

    closed spec fn view(&self) -> Seq<RowView> {
        views(self.rows@)
    }
}

/// Adding a row that is not there keeps the rows distinct.
pub proof fn lemma_inserted_distinct(rows: Seq<RowView>, row: RowView)
    requires
        rows.no_duplicates(),
    ensures
        inserted(rows, row).no_duplicates(),
        forall|j: int| 0 <= j < rows.len() ==> inserted(rows, row)[j] == rows[j],
        rows.len() <= inserted(rows, row).len(),
{
}

/// Merging keeps the rows distinct, the rows that were there in their
/// places, and adds only rows of `from`.
pub proof fn lemma_merged(into: Seq<RowView>, from: Seq<RowView>)
    requires
        into.no_duplicates(),
    ensures
        merged(into, from).no_duplicates(),
        into.len() <= merged(into, from).len(),
        forall|j: int| 0 <= j < into.len() ==> merged(into, from)[j] == into[j],
        forall|j: int|
            0 <= j < merged(into, from).len() ==> into.contains(#[trigger] merged(into, from)[j])
                || from.contains(merged(into, from)[j]),
        forall|j: int| 0 <= j < from.len() ==> merged(into, from).contains(#[trigger] from[j]),
    decreases from.len(),
{
    if from.len() > 0 {
        let prev = merged(into, from.drop_last());
        lemma_merged(into, from.drop_last());
        lemma_inserted_distinct(prev, from.last());
        let now = merged(into, from);
        assert forall|j: int| 0 <= j < now.len() implies into.contains(#[trigger] now[j])
            || from.contains(now[j]) by {
            if j < prev.len() {
                assert(now[j] == prev[j]);
                if !into.contains(prev[j]) {
                    let k = from.drop_last().index_of(prev[j]);
                    assert(from[k] == prev[j]);
                }
            } else {
                assert(now[j] == from.last());
            }
        }
        assert forall|j: int| 0 <= j < from.len() implies now.contains(#[trigger] from[j]) by {
            if j < from.len() - 1 {
                assert(from.drop_last()[j] == from[j]);
                let k = prev.index_of(from[j]);
                assert(now[k] == from[j]);
            } else {
                if prev.contains(from.last()) {
                } else {
                    assert(now[prev.len() as int] == from.last());
                }
            }
        }
    }
}

impl TupleSet {
    /// Whether no row is in the set twice.
    pub closed spec fn wf(&self) -> bool {
        self@.no_duplicates()
    }

    /// The empty set.
    pub fn new() -> (set: TupleSet)
        ensures
            set.wf(),
            set@ == Seq::<RowView>::empty(),
    {
        let set = TupleSet { rows: Vec::new() };
        assert(set@ =~= Seq::<RowView>::empty());
        set
    }

    /// The number of rows.
    pub fn len(&self) -> (n: usize)
        ensures
            n == self@.len(),
    {
        self.rows.len()
    }

    /// Whether the set has no row.
    pub fn is_empty(&self) -> (b: bool)
        ensures
            b == (self@.len() == 0),
    {
        self.rows.len() == 0
    }

    /// The row at `index`, in the order in which the rows came.
    pub fn row(&self, index: usize) -> (row: &Row)
        requires
            index < self@.len(),
        ensures
            row@ == self@[index as int],
    {
        &self.rows[index]
    }

    /// Whether `row` is in the set.
    pub fn contains(&self, row: &Row) -> (b: bool)
        ensures
            b == self@.contains(row@),
    {
        let mut i: usize = 0;
        while i < self.rows.len()
            invariant
                i <= self.rows.len(),
                forall|j: int| 0 <= j < i ==> self@[j] != row@,
            decreases self.rows.len() - i,
        {
            if self.rows[i].same(row) {
                assert(self@[i as int] == row@);
                return true;
            }
            i += 1;
        }
        false
    }

    /// Adds `row` unless it is there. Says whether it was added.
    pub fn insert(&mut self, row: Row) -> (added: bool)
        requires
            old(self).wf(),
        ensures
            final(self).wf(),
            final(self)@ == inserted(old(self)@, row@),
            added == !old(self)@.contains(row@),
    {
        if self.contains(&row) {
            false
        } else {
            let ghost before = self@;
            self.rows.push(row);
            assert(self@ =~= before.push(row@));
            true
        }
    }

    /// Adds the rows of `other`, in order, each unless it is there.
    pub fn merge_from(&mut self, other: &TupleSet)
        requires
            old(self).wf(),
        ensures
            final(self).wf(),
            final(self)@ == merged(old(self)@, other@),
    {
        let ghost from = other@;
        let mut i: usize = 0;
        assert(from.take(0) =~= seq![]);
        while i < other.rows.len()
            invariant
                i <= other.rows.len(),
                from == other@,
                self.wf(),
                self@ == merged(old(self)@, from.take(i as int)),
            decreases other.rows.len() - i,
        {
            proof {
                assert(from.take(i + 1).drop_last() =~= from.take(i as int));
                assert(from.take(i + 1).last() == other.rows@[i as int]@);
            }
            self.insert(other.rows[i].clone());
            i += 1;
        }
        assert(from.take(i as int) =~= from);
    }

    /// Exchanges the rows of the two sets.
    pub fn swap(&mut self, other: &mut TupleSet)
        ensures
            final(self)@ == old(other)@,
            final(other)@ == old(self)@,
            final(self).wf() == old(other).wf(),
            final(other).wf() == old(self).wf(),
    {
        std::mem::swap(&mut self.rows, &mut other.rows);
    }

    /// Removes all rows.
    pub fn purge(&mut self)
        ensures
            final(self).wf(),
            final(self)@ == Seq::<RowView>::empty(),
    {
        self.rows.clear();
        assert(self@ =~= Seq::<RowView>::empty());
    }
}

/// Whether `row` has the values that `key` asks for.
pub fn matches_key(schema: &Vec<Column>, row: &Row, key: &Vec<FactArg>) -> (b: bool)
    ensures
        b == row_matches(views(schema@), row@, views(key@)),
{
    let mut k: usize = 0;
    while k < key.len()
        invariant
            k <= key.len(),
            forall|j: int|
                0 <= j < k ==> (col_index(views(schema@), (#[trigger] views(key@)[j]).col) matches Some(
                    i,
                ) && i < row@.values.len() && row@.values[i] == views(key@)[j].value),
        decreases key.len() - k,
    {
        assert(views(key@)[k as int] == key@[k as int]@);
        match column_position(schema, &key[k].col) {
            Some(i) => {
                if i >= row.values.len() {
                    return false;
                }
                assert(row@.values[i as int] == row.values@[i as int]@);
                if !row.values[i].same(&key[k].value) {
                    return false;
                }
            },
            None => {
                return false;
            },
        }
        k += 1;
    }
    true
}

/// The position of the column named `col` in `schema`, if it has one.
pub fn column_position(schema: &Vec<Column>, col: &ColId) -> (r: Option<usize>)
    ensures
        r matches Some(i) ==> col_index(views(schema@), col@) == Some(i as int) && i < schema.len(),
        r.is_none() ==> col_index(views(schema@), col@).is_none(),
{
    let mut i: usize = 0;
    let ghost all = views(schema@);
    assert(all.skip(0) =~= all);
    while i < schema.len()
        invariant
            i <= schema.len(),
            all == views(schema@),
            col_index(all, col@) == (match col_index(all.skip(i as int), col@) {
                Some(k) => Some(k + i),
                None => None,
            }),
        decreases schema.len() - i,
    {
        proof {
            let rest = all.skip(i as int);
            assert(rest[0] == schema@[i as int]@);
            assert(rest.drop_first() =~= all.skip(i + 1));
        }
        if schema[i].id.same(col) {
            return Some(i);
        }
        i += 1;
    }
    None
}


/// The three sets of a relation, with its declaration and with the number of
/// rows of `Total` that were given out already.
pub struct Table {
    declaration: Declaration,
    total: TupleSet,
    delta: TupleSet,
    new: TupleSet,
    sunk: usize,
}

/// The mathematical content of a [`Table`].
pub struct TableView {
    pub declaration: DeclarationView,
    pub total: Seq<RowView>,
    pub delta: Seq<RowView>,
    pub new: Seq<RowView>,
    pub sunk: nat,
}

impl View for Table {
    type V = TableView;

    closed spec fn view(&self) -> TableView {
        TableView {
            declaration: self.declaration@,
            total: self.total@,
            delta: self.delta@,
            new: self.new@,
            sunk: self.sunk as nat,
        }
    }
}

/// The rows of one version of a table.
pub open spec fn version_rows(table: TableView, version: Version) -> Seq<RowView> {
    match version {
        Version::Total => table.total,
        Version::Delta => table.delta,
        Version::New => table.new,
    }
}

/// `table` with `rows` as the rows of one version.
pub open spec fn with_rows(table: TableView, version: Version, rows: Seq<RowView>) -> TableView {
    match version {
        Version::Total => TableView { total: rows, ..table },
        Version::Delta => TableView { delta: rows, ..table },
        Version::New => TableView { new: rows, ..table },
    }
}

/// Whether a table is consistent: in each version no row is there twice and
/// every row fits the declared schema, and no more rows were given out than
/// `Total` has.
pub open spec fn table_wf(table: TableView) -> bool {
    &&& table.total.no_duplicates()
    &&& table.delta.no_duplicates()
    &&& table.new.no_duplicates()
    &&& all_conform(table.declaration.schema, table.total)
    &&& all_conform(table.declaration.schema, table.delta)
    &&& all_conform(table.declaration.schema, table.new)
    &&& table.sunk <= table.total.len()
}

/// The values of a row of `schema` that the fields `cols` give: for each
/// column of the schema the value of the field of its name, which must be of
/// the column's type. `None` where a field is missing or of another type.
pub open spec fn row_values(cols: Seq<FactArgView>, schema: Seq<ColumnView>) -> Option<
    Seq<ValueView>,
>
    decreases schema.len(),
{
    if schema.len() == 0 {
        Some(seq![])
    } else {
        match row_values(cols, schema.drop_last()) {
            Some(prev) => match field_value(cols, schema.last().id) {
                Some(v) => if admits(schema.last().typ, v) {
                    Some(prev.push(v))
                } else {
                    None
                },
                None => None,
            },
            None => None,
        }
    }
}

/// The row of `schema` that a tuple gives: it must have as many fields as the
/// schema has columns, and a field of the right type for each column.
pub open spec fn row_of(tuple: TupleView, schema: Seq<ColumnView>) -> Option<RowView> {
    if tuple.cols.len() != schema.len() {
        None
    } else {
        match row_values(tuple.cols, schema) {
            Some(values) => Some(RowView { values, cid: tuple.cid }),
            None => None,
        }
    }
}

/// The tuple of the relation `id` that a row of `schema` stands for.
pub open spec fn tuple_of(id: Seq<char>, schema: Seq<ColumnView>, row: RowView) -> TupleView {
    TupleView {
        id,
        cols: Seq::new(
            schema.len(),
            |i: int| FactArgView { col: schema[i].id, value: row.values[i] },
        ),
        cid: row.cid,
    }
}

/// The values that a tuple gives for a schema fit the schema.
pub proof fn lemma_row_values_conform(cols: Seq<FactArgView>, schema: Seq<ColumnView>)
    ensures
        row_values(cols, schema) matches Some(values) ==> values.len() == schema.len()
            && forall|i: int| 0 <= i < schema.len() ==> admits((#[trigger] schema[i]).typ, values[i]),
    decreases schema.len(),
{
    if schema.len() > 0 {
        lemma_row_values_conform(cols, schema.drop_last());
        match row_values(cols, schema) {
            Some(values) => {
                let prev = row_values(cols, schema.drop_last()).unwrap();
                assert forall|i: int| 0 <= i < schema.len() implies admits(
                    (#[trigger] schema[i]).typ,
                    values[i],
                ) by {
                    if i < schema.len() - 1 {
                        assert(schema.drop_last()[i] == schema[i]);
                        assert(values[i] == prev[i]);
                    }
                }
            },
            None => {},
        }
    }
}

impl Table {
    /// Whether the table is consistent.
    pub closed spec fn wf(&self) -> bool {
        &&& table_wf(self@)
        &&& self.total.wf()
        &&& self.delta.wf()
        &&& self.new.wf()
    }

    /// The rows of cached consistency are those of the view.
    pub proof fn lemma_wf(&self)
        requires
            self.wf(),
        ensures
            table_wf(self@),
    {
    }

    /// An empty table for the declared relation.
    pub fn new(declaration: Declaration) -> (table: Table)
        ensures
            table.wf(),
            table@ == (TableView {
                declaration: declaration@,
                total: seq![],
                delta: seq![],
                new: seq![],
                sunk: 0,
            }),
    {
        Table {
            declaration,
            total: TupleSet::new(),
            delta: TupleSet::new(),
            new: TupleSet::new(),
            sunk: 0,
        }
    }

    /// The declaration of the relation.
    pub fn declaration(&self) -> (d: &Declaration)
        ensures
            d@ == self@.declaration,
    {
        &self.declaration
    }

    /// The rows of one version.
    pub fn rows(&self, version: Version) -> (set: &TupleSet)
        requires
            self.wf(),
        ensures
            set@ == version_rows(self@, version),
            set.wf(),
    {
        match version {
            Version::Total => &self.total,
            Version::Delta => &self.delta,
            Version::New => &self.new,
        }
    }

    /// The row that `tuple` gives for this relation, if it fits the schema.
    pub fn row_for(&self, tuple: &Tuple) -> (r: Option<Row>)
        ensures
            r.is_some() == row_of(tuple@, self@.declaration.schema).is_some(),
            r matches Some(row) ==> row_of(tuple@, self@.declaration.schema) == Some(row@)
                && conforms(self@.declaration.schema, row@),
    {
        let schema = &self.declaration.schema;
        let ghost columns = self@.declaration.schema;
        if tuple.cols.len() != schema.len() {
            assert(tuple@.cols.len() == tuple.cols.len());
            assert(columns.len() == schema.len());
            return None;
        }
        let mut values: Vec<Value> = Vec::new();
        let mut i: usize = 0;
        assert(columns.take(0) =~= seq![]);
        assert(views(values@) =~= seq![]);
        while i < schema.len()
            invariant
                i <= schema.len(),
                columns == views(schema@),
                columns == self@.declaration.schema,
                tuple@.cols.len() == columns.len(),
                row_values(tuple@.cols, columns.take(i as int)) == Some(views(values@)),
            decreases schema.len() - i,
        {
            proof {
                assert(columns.take(i + 1).drop_last() =~= columns.take(i as int));
                assert(columns.take(i + 1).last() == schema@[i as int]@);
            }
            let ghost before = views(values@);
            match tuple.col(&schema[i].id) {
                Some(v) => {
                    if schema[i].typ.check(v).is_err() {
                        proof {
                            lemma_row_values_fail(tuple@.cols, columns, i as int);
                        }
                        return None;
                    }
                    values.push(v.clone());
                    assert(views(values@) =~= before.push(v@));
                },
                None => {
                    proof {
                        lemma_row_values_fail(tuple@.cols, columns, i as int);
                    }
                    return None;
                },
            }
            i += 1;
        }
        proof {
            assert(columns.take(i as int) =~= columns);
            lemma_row_values_conform(tuple@.cols, columns);
        }
        let cid = match &tuple.cid {
            Some(c) => Some(c.clone()),
            None => None,
        };
        Some(Row { values, cid })
    }

    /// The tuple that the row `row` of this relation stands for.
    pub fn tuple_for(&self, row: &Row) -> (t: Tuple)
        requires
            row@.values.len() == self@.declaration.schema.len(),
        ensures
            t@ == tuple_of(self@.declaration.id, self@.declaration.schema, row@),
    {
        let schema = &self.declaration.schema;
        let ghost want = tuple_of(self@.declaration.id, self@.declaration.schema, row@);
        let mut cols: Vec<FactArg> = Vec::new();
        let mut i: usize = 0;
        assert(views(schema@).len() == schema.len());
        assert(views(row.values@).len() == row.values.len());
        while i < schema.len()
            invariant
                i <= schema.len(),
                schema.len() == row.values.len(),
                want == tuple_of(self@.declaration.id, views(schema@), row@),
                views(cols@) =~= want.cols.take(i as int),
            decreases schema.len() - i,
        {
            let ghost before = views(cols@);
            assert(views(schema@)[i as int] == schema@[i as int]@);
            assert(row@.values[i as int] == row.values@[i as int]@);
            cols.push(FactArg { col: schema[i].id.clone(), value: row.values[i].clone() });
            proof {
                assert(views(cols@) =~= before.push(want.cols[i as int]));
                assert(want.cols.take(i + 1) =~= want.cols.take(i as int).push(want.cols[i as int]));
            }
            i += 1;
        }
        assert(want.cols.take(i as int) =~= want.cols);
        let cid = match &row.cid {
            Some(c) => Some(c.clone()),
            None => None,
        };
        Tuple { id: self.declaration.id.clone(), cols, cid }
    }
}

/// Where the values for the columns up to one fail, those for all fail.
proof fn lemma_row_values_fail(cols: Seq<FactArgView>, schema: Seq<ColumnView>, upto: int)
    requires
        0 <= upto < schema.len(),
        row_values(cols, schema.take(upto + 1)).is_none(),
    ensures
        row_values(cols, schema).is_none(),
    decreases schema.len(),
{
    if upto + 1 < schema.len() {
        assert(schema.drop_last().take(upto + 1) =~= schema.take(upto + 1));
        lemma_row_values_fail(cols, schema.drop_last(), upto);
    } else {
        assert(schema.take(upto + 1) =~= schema);
    }
}


/// `table` after `row` is put into one of its versions: added unless it is
/// there. A row that `Total` holds is not put into `New`.
pub open spec fn table_put(table: TableView, version: Version, row: RowView) -> TableView {
    if version == Version::New && table.total.contains(row) {
        table
    } else {
        with_rows(table, version, inserted(version_rows(table, version), row))
    }
}

/// `table` after the rows of the version `from` are merged into `into`.
pub open spec fn table_merge(table: TableView, from: Version, into: Version) -> TableView {
    with_rows(table, into, merged(version_rows(table, into), version_rows(table, from)))
}

/// `table` after the rows of two versions are exchanged.
pub open spec fn table_swap(table: TableView, left: Version, right: Version) -> TableView {
    with_rows(
        with_rows(table, left, version_rows(table, right)),
        right,
        version_rows(table, left),
    )
}

/// `table` after one version is emptied.
pub open spec fn table_purge(table: TableView, version: Version) -> TableView {
    with_rows(table, version, seq![])
}

/// Whether `after` holds at least what `before` held in `Total`, in the same
/// places, and has given out no less.
pub open spec fn table_grows(before: TableView, after: TableView) -> bool {
    &&& after.declaration == before.declaration
    &&& before.total.len() <= after.total.len()
    &&& forall|j: int| 0 <= j < before.total.len() ==> after.total[j] == before.total[j]
    &&& before.sunk <= after.sunk
}

/// Putting a row that fits the schema keeps a table consistent and growing.
pub proof fn lemma_table_put(table: TableView, version: Version, row: RowView)
    requires
        table_wf(table),
        conforms(table.declaration.schema, row),
    ensures
        table_wf(table_put(table, version, row)),
        table_grows(table, table_put(table, version, row)),
{
    lemma_inserted_distinct(version_rows(table, version), row);
}

/// Merging keeps a table consistent and growing.
pub proof fn lemma_table_merge(table: TableView, from: Version, into: Version)
    requires
        table_wf(table),
    ensures
        table_wf(table_merge(table, from, into)),
        table_grows(table, table_merge(table, from, into)),
{
    let target = version_rows(table, into);
    let source = version_rows(table, from);
    lemma_merged(target, source);
    let now = merged(target, source);
    assert forall|j: int| 0 <= j < now.len() implies conforms(
        table.declaration.schema,
        #[trigger] now[j],
    ) by {
        if target.contains(now[j]) {
            let k = target.index_of(now[j]);
            assert(conforms(table.declaration.schema, target[k]));
        } else {
            let k = source.index_of(now[j]);
            assert(conforms(table.declaration.schema, source[k]));
        }
    }
}

impl Table {
    /// Puts `row` into one version.
    pub(crate) fn put(&mut self, version: Version, row: Row)
        requires
            old(self).wf(),
            conforms(old(self)@.declaration.schema, row@),
        ensures
            final(self).wf(),
            final(self)@ == table_put(old(self)@, version, row@),
            table_grows(old(self)@, final(self)@),
    {
        proof {
            lemma_table_put(self@, version, row@);
        }
        match version {
            Version::Total => {
                self.total.insert(row);
            },
            Version::Delta => {
                self.delta.insert(row);
            },
            Version::New => {
                if !self.total.contains(&row) {
                    self.new.insert(row);
                }
            },
        }
    }

    /// Merges the rows of the version `from` into the version `into`.
    pub(crate) fn merge(&mut self, from: Version, into: Version)
        requires
            old(self).wf(),
        ensures
            final(self).wf(),
            final(self)@ == table_merge(old(self)@, from, into),
            table_grows(old(self)@, final(self)@),
    {
        proof {
            lemma_table_merge(self@, from, into);
            lemma_merged_self(version_rows(self@, into));
        }
        match (from, into) {
            (Version::Delta, Version::Total) => {
                self.total.merge_from(&self.delta);
            },
            (Version::New, Version::Total) => {
                self.total.merge_from(&self.new);
            },
            (Version::Total, Version::Delta) => {
                self.delta.merge_from(&self.total);
            },
            (Version::New, Version::Delta) => {
                self.delta.merge_from(&self.new);
            },
            (Version::Total, Version::New) => {
                self.new.merge_from(&self.total);
            },
            (Version::Delta, Version::New) => {
                self.new.merge_from(&self.delta);
            },
            _ => {},
        }
    }

    /// Exchanges the rows of `Delta` and `New`.
    pub(crate) fn swap_delta_new(&mut self)
        requires
            old(self).wf(),
        ensures
            final(self).wf(),
            final(self)@ == table_swap(old(self)@, Version::Delta, Version::New),
            final(self)@ == table_swap(old(self)@, Version::New, Version::Delta),
            table_grows(old(self)@, final(self)@),
    {
        self.delta.swap(&mut self.new);
    }

    /// Empties `Delta` or `New`.
    pub(crate) fn purge(&mut self, version: Version)
        requires
            old(self).wf(),
            version != Version::Total,
        ensures
            final(self).wf(),
            final(self)@ == table_purge(old(self)@, version),
            table_grows(old(self)@, final(self)@),
    {
        match version {
            Version::Delta => {
                self.delta.purge();
            },
            _ => {
                self.new.purge();
            },
        }
    }

    /// The rows of `Total` that were not given out yet, as tuples, in the
    /// order in which they came; they count as given out from now on.
    pub(crate) fn drain_new_output(&mut self, out: &mut Vec<Tuple>)
        requires
            old(self).wf(),
        ensures
            final(self).wf(),
            final(self)@ == (TableView { sunk: old(self)@.total.len(), ..old(self)@ }),
            table_grows(old(self)@, final(self)@),
            views(final(out)@) == views(old(out)@) + old(self)@.total.subrange(
                old(self)@.sunk as int,
                old(self)@.total.len() as int,
            ).map_values(
                |row: RowView|
                    tuple_of(old(self)@.declaration.id, old(self)@.declaration.schema, row),
            ),
    {
        let ghost before = views(out@);
        let ghost fresh = self@.total.subrange(self@.sunk as int, self@.total.len() as int);
        let ghost want = fresh.map_values(
            |row: RowView| tuple_of(self@.declaration.id, self@.declaration.schema, row),
        );
        let start = self.sunk;
        let mut i: usize = self.sunk;
        while i < self.total.len()
            invariant
                start <= i <= self.total@.len(),
                self.wf(),
                start == self.sunk,
                *self == *old(self),
                fresh == self@.total.subrange(start as int, self@.total.len() as int),
                want == fresh.map_values(
                    |row: RowView| tuple_of(self@.declaration.id, self@.declaration.schema, row),
                ),
                views(out@) =~= before + want.take(i - start),
            decreases self.total@.len() - i,
        {
            let row = self.total.row(i);
            proof {
                assert(fresh[i - start] == row@);
                assert(conforms(self@.declaration.schema, self@.total[i as int]));
                assert(want.take(i - start + 1) =~= want.take(i - start).push(want[i - start]));
            }
            let ghost had = views(out@);
            let tuple = self.tuple_for(row);
            out.push(tuple);
            assert(views(out@) =~= had.push(want[i - start]));
            i += 1;
        }
        assert(want.take(i - start) =~= want);
        self.sunk = self.total.len();
    }
}

/// Merging a set into itself changes nothing.
pub proof fn lemma_merged_self(rows: Seq<RowView>)
    ensures
        merged(rows, rows) == rows,
{
    lemma_merged_contained(rows, rows);
}

/// Merging rows that are all there changes nothing.
pub proof fn lemma_merged_contained(into: Seq<RowView>, from: Seq<RowView>)
    requires
        forall|j: int| 0 <= j < from.len() ==> into.contains(#[trigger] from[j]),
    ensures
        merged(into, from) == into,
    decreases from.len(),
{
    if from.len() > 0 {
        assert forall|j: int| 0 <= j < from.drop_last().len() implies into.contains(
            #[trigger] from.drop_last()[j],
        ) by {
            assert(from.drop_last()[j] == from[j]);
        }
        lemma_merged_contained(into, from.drop_last());
        assert(into.contains(from[from.len() - 1]));
    }
}


/// The storage of a machine: a table for each declared relation, in the
/// order of the declarations.
pub struct Storage {
    tables: Vec<Table>,
}

impl View for Storage {
    type V = Seq<TableView>;

    closed spec fn view(&self) -> Seq<TableView> {
        views(self.tables@)
    }
}

/// Whether every table of the storage is consistent.
pub open spec fn store_wf(store: Seq<TableView>) -> bool {
    forall|i: int| 0 <= i < store.len() ==> table_wf(#[trigger] store[i])
}

/// Whether `after` has the tables of `before`, each holding at least what it
/// held in `Total`.
pub open spec fn store_grows(before: Seq<TableView>, after: Seq<TableView>) -> bool {
    &&& after.len() == before.len()
    &&& forall|i: int| 0 <= i < before.len() ==> table_grows(#[trigger] before[i], after[i])
}

/// The index of the table of the relation `id`: the first of that name.
pub open spec fn find_table(store: Seq<TableView>, id: Seq<char>) -> Option<int>
    decreases store.len(),
{
    if store.len() == 0 {
        None
    } else if store[0].declaration.id == id {
        Some(0)
    } else {
        match find_table(store.drop_first(), id) {
            Some(i) => Some(i + 1),
            None => None,
        }
    }
}

/// What `find_table` finds is a table of that name.
pub proof fn find_table_sound(store: Seq<TableView>, id: Seq<char>)
    ensures
        find_table(store, id) matches Some(i) ==> 0 <= i < store.len() && store[i].declaration.id
            == id,
    decreases store.len(),
{
    if store.len() > 0 && store[0].declaration.id != id {
        find_table_sound(store.drop_first(), id);
    }
}

/// The rows of a relation in one version, if the relation is declared.
pub open spec fn rows_of(store: Seq<TableView>, relation: RelationView) -> Option<Seq<RowView>> {
    match find_table(store, relation.id) {
        Some(i) => Some(version_rows(store[i], relation.version)),
        None => None,
    }
}

/// The storage after a tuple is put into a relation: `None` where the
/// relation is not declared or the tuple does not fit its schema.
pub open spec fn store_insert(store: Seq<TableView>, relation: RelationView, tuple: TupleView) -> Option<
    Seq<TableView>,
> {
    match find_table(store, relation.id) {
        Some(i) => match row_of(tuple, store[i].declaration.schema) {
            Some(row) => Some(store.update(i, table_put(store[i], relation.version, row))),
            None => None,
        },
        None => None,
    }
}

/// The storage after one version of a relation is merged into another
/// version of the same relation: `None` where the two relations differ or
/// are not declared.
pub open spec fn store_merge(store: Seq<TableView>, from: RelationView, into: RelationView) -> Option<
    Seq<TableView>,
> {
    if from.id != into.id {
        None
    } else {
        match find_table(store, into.id) {
            Some(i) => Some(store.update(i, table_merge(store[i], from.version, into.version))),
            None => None,
        }
    }
}

/// The storage after two versions of a relation are exchanged: `None` where
/// the two relations differ or are not declared, or where one of the
/// versions is `Total`, which only grows.
pub open spec fn store_swap(store: Seq<TableView>, left: RelationView, right: RelationView) -> Option<
    Seq<TableView>,
> {
    if left.id != right.id || left.version == Version::Total || right.version == Version::Total {
        None
    } else {
        match find_table(store, left.id) {
            Some(i) => Some(store.update(i, table_swap(store[i], left.version, right.version))),
            None => None,
        }
    }
}

/// The storage after one version of a relation is emptied: `None` where the
/// relation is not declared, or where the version is `Total`, which only
/// grows.
pub open spec fn store_purge(store: Seq<TableView>, relation: RelationView) -> Option<
    Seq<TableView>,
> {
    if relation.version == Version::Total {
        None
    } else {
        match find_table(store, relation.id) {
            Some(i) => Some(store.update(i, table_purge(store[i], relation.version))),
            None => None,
        }
    }
}

/// Whether all the relations are empty: `None` where one is not declared.
pub open spec fn store_all_empty(store: Seq<TableView>, relations: Seq<RelationView>) -> Option<
    bool,
>
    decreases relations.len(),
{
    if relations.len() == 0 {
        Some(true)
    } else {
        match store_all_empty(store, relations.drop_last()) {
            Some(empty) => match rows_of(store, relations.last()) {
                Some(rows) => Some(empty && rows.len() == 0),
                None => None,
            },
            None => None,
        }
    }
}

/// The tuples that the derived relations have not given out yet: for each
/// table of a derived relation, in order, the rows of `Total` after those
/// given out.
pub open spec fn pending_output(store: Seq<TableView>) -> Seq<TupleView>
    decreases store.len(),
{
    if store.len() == 0 {
        seq![]
    } else {
        let rest = pending_output(store.drop_last());
        let table = store.last();
        if table.declaration.source == Source::Idb {
            rest + table.total.subrange(table.sunk as int, table.total.len() as int).map_values(
                |row: RowView| tuple_of(table.declaration.id, table.declaration.schema, row),
            )
        } else {
            rest
        }
    }
}

/// The tuples that the table `i` has not given out yet, if it is the table
/// of a derived relation.
pub open spec fn pending_at(store: Seq<TableView>, i: int) -> Seq<TupleView> {
    if 0 <= i < store.len() && store[i].declaration.source == Source::Idb {
        store[i].total.subrange(store[i].sunk as int, store[i].total.len() as int).map_values(
            |row: RowView| tuple_of(store[i].declaration.id, store[i].declaration.schema, row),
        )
    } else {
        seq![]
    }
}

/// The storage after the table `i` has given out all it holds, if it is the
/// table of a derived relation.
pub open spec fn sunk_at(store: Seq<TableView>, i: int) -> Seq<TableView> {
    if 0 <= i < store.len() && store[i].declaration.source == Source::Idb {
        store.update(i, TableView { sunk: store[i].total.len(), ..store[i] })
    } else {
        store
    }
}

/// The storage after the derived relations have given out all they hold.
pub open spec fn store_sunk(store: Seq<TableView>) -> Seq<TableView> {
    Seq::new(
        store.len(),
        |i: int|
            if store[i].declaration.source == Source::Idb {
                TableView { sunk: store[i].total.len(), ..store[i] }
            } else {
                store[i]
            },
    )
}

impl Storage {
    /// Puts a row that fits the schema into one version of the table at
    /// `index`.
    pub(crate) fn put_row(&mut self, index: usize, version: Version, row: Row)
        requires
            old(self).wf(),
            index < old(self)@.len(),
            conforms(old(self)@[index as int].declaration.schema, row@),
        ensures
            final(self).wf(),
            store_grows(old(self)@, final(self)@),
            final(self)@ == old(self)@.update(
                index as int,
                table_put(old(self)@[index as int], version, row@),
            ),
    {
        let ghost before = self@;
        self.tables[index].put(version, row);
        assert(self@ =~= before.update(index as int, self.tables@[index as int]@));
    }

    /// Whether every table is consistent.
    pub closed spec fn wf(&self) -> bool {
        forall|i: int| 0 <= i < self.tables.len() ==> (#[trigger] self.tables[i]).wf()
    }

    /// A consistent storage has a consistent view.
    pub proof fn lemma_wf(&self)
        requires
            self.wf(),
        ensures
            store_wf(self@),
    {
        assert forall|i: int| 0 <= i < self@.len() implies table_wf(#[trigger] self@[i]) by {
            self.tables[i].lemma_wf();
        }
    }

    /// An empty table for each declaration, in order.
    pub fn new(declarations: &Vec<Declaration>) -> (store: Storage)
        ensures
            store.wf(),
            store@ == views(declarations@).map_values(
                |d: DeclarationView|
                    TableView { declaration: d, total: seq![], delta: seq![], new: seq![], sunk: 0 },
            ),
    {
        let ghost want = views(declarations@).map_values(
            |d: DeclarationView|
                TableView { declaration: d, total: seq![], delta: seq![], new: seq![], sunk: 0 },
        );
        let mut tables: Vec<Table> = Vec::new();
        let mut i: usize = 0;
        while i < declarations.len()
            invariant
                i <= declarations.len(),
                want == views(declarations@).map_values(
                    |d: DeclarationView|
                        TableView {
                            declaration: d,
                            total: seq![],
                            delta: seq![],
                            new: seq![],
                            sunk: 0,
                        },
                ),
                views(tables@) =~= want.take(i as int),
                forall|j: int| 0 <= j < tables.len() ==> (#[trigger] tables[j]).wf(),
            decreases declarations.len() - i,
        {
            let ghost before = views(tables@);
            assert(views(declarations@)[i as int] == declarations@[i as int]@);
            tables.push(Table::new(declarations[i].clone()));
            proof {
                assert(views(tables@) =~= before.push(want[i as int]));
                assert(want.take(i + 1) =~= want.take(i as int).push(want[i as int]));
            }
            i += 1;
        }
        assert(want.take(i as int) =~= want);
        Storage { tables }
    }

    /// The number of tables.
    pub fn len(&self) -> (n: usize)
        ensures
            n == self@.len(),
    {
        self.tables.len()
    }

    /// The table at `index`.
    pub fn table(&self, index: usize) -> (table: &Table)
        requires
            self.wf(),
            index < self@.len(),
        ensures
            table@ == self@[index as int],
            table.wf(),
    {
        &self.tables[index]
    }

    /// The index of the table of the relation `id`, if it is declared.
    pub fn find(&self, id: &RelationId) -> (r: Option<usize>)
        ensures
            r matches Some(i) ==> find_table(self@, id@) == Some(i as int) && i < self@.len(),
            r.is_none() ==> find_table(self@, id@).is_none(),
    {
        let mut i: usize = 0;
        let ghost all = self@;
        assert(all.skip(0) =~= all);
        while i < self.tables.len()
            invariant
                i <= self.tables.len(),
                all == self@,
                find_table(all, id@) == (match find_table(all.skip(i as int), id@) {
                    Some(k) => Some(k + i),
                    None => None,
                }),
            decreases self.tables.len() - i,
        {
            proof {
                let rest = all.skip(i as int);
                assert(rest[0] == self.tables@[i as int]@);
                assert(rest.drop_first() =~= all.skip(i + 1));
            }
            if self.tables[i].declaration().id.same(id) {
                return Some(i);
            }
            i += 1;
        }
        None
    }

    /// Puts a tuple into a relation: it is added unless it is there, and a
    /// tuple that `Total` holds is not put into `New`. Fails, and leaves the
    /// storage as it is, where the relation is not declared or the tuple
    /// does not fit its schema.
    pub fn insert(&mut self, relation: &Relation, tuple: &Tuple) -> (r: Result<(), Error>)
        requires
            old(self).wf(),
        ensures
            final(self).wf(),
            store_grows(old(self)@, final(self)@),
            r is Ok ==> store_insert(old(self)@, relation@, tuple@) == Some(final(self)@),
            r matches Err(e) ==> store_insert(old(self)@, relation@, tuple@).is_none() && e@
                == ErrorView::InternalError && final(self)@ == old(self)@,
    {
        let index = match self.find(&relation.id) {
            Some(i) => i,
            None => {
                return Err(Error::internal("relation is not declared"));
            },
        };
        let row = match self.tables[index].row_for(tuple) {
            Some(row) => row,
            None => {
                return Err(Error::internal("tuple does not fit the schema"));
            },
        };
        let ghost before = self@;
        self.tables[index].put(relation.version, row);
        assert(self@ =~= before.update(index as int, self.tables@[index as int]@));
        Ok(())
    }

    /// Merges one version of a relation into another version of it. Fails,
    /// and leaves the storage as it is, where the two relations differ or
    /// are not declared.
    pub fn merge(&mut self, from: &Relation, into: &Relation) -> (r: Result<(), Error>)
        requires
            old(self).wf(),
        ensures
            final(self).wf(),
            store_grows(old(self)@, final(self)@),
            r is Ok ==> store_merge(old(self)@, from@, into@) == Some(final(self)@),
            r matches Err(e) ==> store_merge(old(self)@, from@, into@).is_none() && e@
                == ErrorView::InternalError && final(self)@ == old(self)@,
    {
        if !from.id.same(&into.id) {
            return Err(Error::internal("merge across relations"));
        }
        let index = match self.find(&into.id) {
            Some(i) => i,
            None => {
                return Err(Error::internal("relation is not declared"));
            },
        };
        let ghost before = self@;
        self.tables[index].merge(from.version, into.version);
        assert(self@ =~= before.update(index as int, self.tables@[index as int]@));
        Ok(())
    }

    /// Exchanges two versions of a relation. Fails, and leaves the storage as
    /// it is, where the two relations differ or are not declared, or where
    /// one of the versions is `Total`.
    pub fn swap(&mut self, left: &Relation, right: &Relation) -> (r: Result<(), Error>)
        requires
            old(self).wf(),
        ensures
            final(self).wf(),
            store_grows(old(self)@, final(self)@),
            r is Ok ==> store_swap(old(self)@, left@, right@) == Some(final(self)@),
            r matches Err(e) ==> store_swap(old(self)@, left@, right@).is_none() && e@
                == ErrorView::InternalError && final(self)@ == old(self)@,
    {
        if !left.id.same(&right.id) {
            return Err(Error::internal("swap across relations"));
        }
        let both = match (left.version, right.version) {
            (Version::Total, _) => false,
            (_, Version::Total) => false,
            _ => true,
        };
        if !both {
            return Err(Error::internal("the total version cannot be swapped"));
        }
        let index = match self.find(&left.id) {
            Some(i) => i,
            None => {
                return Err(Error::internal("relation is not declared"));
            },
        };
        let ghost before = self@;
        let differ = match (left.version, right.version) {
            (Version::Delta, Version::New) => true,
            (Version::New, Version::Delta) => true,
            _ => false,
        };
        if differ {
            self.tables[index].swap_delta_new();
        }
        proof {
            let table = before[index as int];
            assert(self.tables@[index as int]@ == table_swap(table, left@.version, right@.version));
            assert(self@ =~= before.update(index as int, self.tables@[index as int]@));
        }
        Ok(())
    }

    /// Empties one version of a relation. Fails, and leaves the storage as it
    /// is, where the relation is not declared or the version is `Total`.
    pub fn purge(&mut self, relation: &Relation) -> (r: Result<(), Error>)
        requires
            old(self).wf(),
        ensures
            final(self).wf(),
            store_grows(old(self)@, final(self)@),
            r is Ok ==> store_purge(old(self)@, relation@) == Some(final(self)@),
            r matches Err(e) ==> store_purge(old(self)@, relation@).is_none() && e@
                == ErrorView::InternalError && final(self)@ == old(self)@,
    {
        if matches!(relation.version, Version::Total) {
            return Err(Error::internal("the total version cannot be purged"));
        }
        let index = match self.find(&relation.id) {
            Some(i) => i,
            None => {
                return Err(Error::internal("relation is not declared"));
            },
        };
        let ghost before = self@;
        self.tables[index].purge(relation.version);
        assert(self@ =~= before.update(index as int, self.tables@[index as int]@));
        Ok(())
    }

    /// Whether all the relations are empty. Fails where one is not declared.
    pub fn all_empty(&self, relations: &Vec<Relation>) -> (r: Result<bool, Error>)
        requires
            self.wf(),
        ensures
            r matches Ok(b) ==> store_all_empty(self@, views(relations@)) == Some(b),
            r matches Err(e) ==> store_all_empty(self@, views(relations@)).is_none() && e@
                == ErrorView::InternalError,
    {
        let ghost all = views(relations@);
        let mut empty = true;
        let mut i: usize = 0;
        assert(all.take(0) =~= seq![]);
        while i < relations.len()
            invariant
                i <= relations.len(),
                self.wf(),
                all == views(relations@),
                store_all_empty(self@, all.take(i as int)) == Some(empty),
            decreases relations.len() - i,
        {
            proof {
                assert(all.take(i + 1).drop_last() =~= all.take(i as int));
                assert(all.take(i + 1).last() == relations@[i as int]@);
            }
            match self.find(&relations[i].id) {
                Some(index) => {
                    if !self.table(index).rows(relations[i].version).is_empty() {
                        empty = false;
                    }
                },
                None => {
                    proof {
                        lemma_all_empty_fail(self@, all, i as int);
                    }
                    return Err(Error::internal("relation is not declared"));
                },
            }
            i += 1;
        }
        assert(all.take(i as int) =~= all);
        Ok(empty)
    }

    /// Gives out the tuples that the table at `index` has not given out yet,
    /// if it is the table of a derived relation.
    pub fn sink_table(&mut self, index: usize, out: &mut Vec<Tuple>)
        requires
            old(self).wf(),
            index < old(self)@.len(),
        ensures
            final(self).wf(),
            store_grows(old(self)@, final(self)@),
            final(self)@ == sunk_at(old(self)@, index as int),
            views(final(out)@) == views(old(out)@) + pending_at(old(self)@, index as int),
    {
        proof {
            old(self).lemma_wf();
        }
        let ghost store = self@;
        let ghost had = views(out@);
        if matches!(self.tables[index].declaration().source, Source::Idb) {
            self.tables[index].drain_new_output(out);
            assert(self@ =~= store.update(index as int, self.tables@[index as int]@));
        } else {
            assert(views(out@) =~= had + Seq::<TupleView>::empty());
        }
    }

    /// Gives out the tuples that the derived relations have not given out
    /// yet.
    pub fn sink(&mut self, out: &mut Vec<Tuple>)
        requires
            old(self).wf(),
        ensures
            final(self).wf(),
            store_grows(old(self)@, final(self)@),
            final(self)@ == store_sunk(old(self)@),
            views(final(out)@) == views(old(out)@) + pending_output(old(self)@),
    {
        proof {
            old(self).lemma_wf();
        }
        let ghost before = self@;
        let ghost had = views(out@);
        let mut i: usize = 0;
        assert(before.take(0) =~= seq![]);
        while i < self.tables.len()
            invariant
                i <= self.tables.len(),
                self.wf(),
                self@.len() == before.len(),
                forall|j: int| 0 <= j < i ==> self@[j] == store_sunk(before)[j],
                forall|j: int| i <= j < before.len() ==> self@[j] == before[j],
                views(out@) =~= had + pending_output(before.take(i as int)),
            decreases self.tables.len() - i,
        {
            proof {
                assert(before.take(i + 1).drop_last() =~= before.take(i as int));
                assert(before.take(i + 1).last() == before[i as int]);
            }
            let ghost store = self@;
            if matches!(self.tables[i].declaration().source, Source::Idb) {
                self.tables[i].drain_new_output(out);
            }
            assert(self@ =~= store.update(i as int, self.tables@[i as int]@));
            i += 1;
        }
        assert(before.take(i as int) =~= before);
        assert(self@ =~= store_sunk(before));
    }
}

/// Where the relations up to one are not all declared, all of them are not.
proof fn lemma_all_empty_fail(store: Seq<TableView>, relations: Seq<RelationView>, upto: int)
    requires
        0 <= upto < relations.len(),
        store_all_empty(store, relations.take(upto + 1)).is_none(),
    ensures
        store_all_empty(store, relations).is_none(),
    decreases relations.len(),
{
    if upto + 1 < relations.len() {
        assert(relations.drop_last().take(upto + 1) =~= relations.take(upto + 1));
        lemma_all_empty_fail(store, relations.drop_last(), upto);
    } else {
        assert(relations.take(upto + 1) =~= relations);
    }
}

} // verus!
