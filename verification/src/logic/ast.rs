//! The logical representation: declarations, facts, rules and strata.

use vstd::prelude::*;
use crate::id::{ColId, RelationId};
use crate::types::ColType;
use crate::value::{views, Cid, Value, ValueView};
use crate::var::{ColBinding, ColBindingView, Var, VarView};

verus! {

/// Where the tuples of a relation come from: from outside (`Edb`) or from
/// rules (`Idb`).
#[derive(Debug, Clone, Copy, PartialEq, Eq, Structural)]
pub enum Source {
    Edb,
    Idb,
}

/// A declared column: its name and its type.
#[derive(Debug, PartialEq, Eq)]
pub struct Column {
    pub id: ColId,
    pub typ: ColType,
}

/// The mathematical content of a [`Column`].
pub struct ColumnView {
    pub id: Seq<char>,
    pub typ: ColType,
}

impl View for Column {
    type V = ColumnView;

    open spec fn view(&self) -> ColumnView {
        ColumnView { id: self.id@, typ: self.typ }
    }
}

impl Column {
    pub fn new(name: &str, typ: ColType) -> (c: Column)
        ensures
            c@ == (ColumnView { id: name@, typ }),
    {
        Column { id: ColId::new(name), typ }
    }
}

impl Clone for Column {
    fn clone(&self) -> (c: Self)
        ensures
            c@ == self@,
    {
        Column { id: self.id.clone(), typ: self.typ }
    }
}

/// The declaration of a relation: its name, its source and its columns in
/// order.
#[derive(Debug, PartialEq, Eq)]
pub struct Declaration {
    pub id: RelationId,
    pub source: Source,
    pub schema: Vec<Column>,
}

/// The mathematical content of a [`Declaration`].
pub struct DeclarationView {
    pub id: Seq<char>,
    pub source: Source,
    pub schema: Seq<ColumnView>,
}

impl View for Declaration {
    type V = DeclarationView;

    open spec fn view(&self) -> DeclarationView {
        DeclarationView { id: self.id@, source: self.source, schema: views(self.schema@) }
    }
}

/// The position of the column `col` in `schema`, where it has one: the first
/// column of that name.
pub open spec fn col_index(schema: Seq<ColumnView>, col: Seq<char>) -> Option<int>
    decreases schema.len(),
{
    if schema.len() == 0 {
        None
    } else if schema[0].id == col {
        Some(0)
    } else {
        match col_index(schema.drop_first(), col) {
            Some(i) => Some(i + 1),
            None => None,
        }
    }
}

/// What `col_index` finds is a column of that name, and it finds none only
/// where there is none.
pub proof fn col_index_sound(schema: Seq<ColumnView>, col: Seq<char>)
    ensures
        col_index(schema, col) matches Some(i) ==> 0 <= i < schema.len() && schema[i].id == col
            && forall|j: int| 0 <= j < i ==> schema[j].id != col,
        col_index(schema, col).is_none() ==> forall|j: int|
            0 <= j < schema.len() ==> schema[j].id != col,
    decreases schema.len(),
{
    if schema.len() > 0 && schema[0].id != col {
        col_index_sound(schema.drop_first(), col);
        let rest = schema.drop_first();
        assert forall|j: int| 0 <= j < schema.len() && j > 0 implies schema[j] == rest[j - 1] by {}
        match col_index(rest, col) {
            Some(i) => {
                assert forall|j: int| 0 <= j < i + 1 implies schema[j].id != col by {
                    if j > 0 {
                        assert(schema[j] == rest[j - 1]);
                    }
                }
            },
            None => {
                assert forall|j: int| 0 <= j < schema.len() implies schema[j].id != col by {
                    if j > 0 {
                        assert(schema[j] == rest[j - 1]);
                    }
                }
            },
        }
    }
}

/// Whether no two columns of the schema have one name.
pub open spec fn distinct_columns(schema: Seq<ColumnView>) -> bool {
    forall|i: int, j: int|
        0 <= i < j < schema.len() ==> (#[trigger] schema[i]).id != (#[trigger] schema[j]).id
}

/// Whether no two columns of `schema` have one name.
pub fn has_distinct_columns(schema: &Vec<Column>) -> (b: bool)
    ensures
        b == distinct_columns(views(schema@)),
{
    let ghost all = views(schema@);
    let mut j: usize = 0;
    while j < schema.len()
        invariant
            j <= schema.len(),
            all == views(schema@),
            forall|a: int, b: int| 0 <= a < b < j ==> (#[trigger] all[a]).id != (#[trigger] all[b]).id,
        decreases schema.len() - j,
    {
        let mut i: usize = 0;
        while i < j
            invariant
                i <= j < schema.len(),
                all == views(schema@),
                forall|a: int| 0 <= a < i ==> (#[trigger] all[a]).id != all[j as int].id,
            decreases j - i,
        {
            assert(all[i as int] == schema@[i as int]@);
            assert(all[j as int] == schema@[j as int]@);
            if schema[i].id.same(&schema[j].id) {
                return false;
            }
            i += 1;
        }
        j += 1;
    }
    true
}

impl Declaration {
    pub fn new(name: &str, source: Source, schema: Vec<Column>) -> (d: Declaration)
        ensures
            d@ == (DeclarationView { id: name@, source, schema: views(schema@) }),
    {
        Declaration { id: RelationId::new(name), source, schema }
    }

    pub fn id(&self) -> (id: &RelationId)
        ensures
            id@ == self@.id,
    {
        &self.id
    }

    pub fn source(&self) -> (source: Source)
        ensures
            source == self@.source,
    {
        self.source
    }

    /// The position of the column named `col`, where the schema has one.
    pub fn col_position(&self, col: &ColId) -> (r: Option<usize>)
        ensures
            r matches Some(i) ==> col_index(self@.schema, col@) == Some(i as int) && i
                < self.schema.len(),
            r.is_none() ==> col_index(self@.schema, col@).is_none(),
    {
        let mut i: usize = 0;
        let ghost schema = self@.schema;
        assert(schema.skip(0) =~= schema);
        while i < self.schema.len()
            invariant
                i <= self.schema.len(),
                schema == views(self.schema@),
                col_index(schema, col@) == (match col_index(schema.skip(i as int), col@) {
                    Some(k) => Some(k + i),
                    None => None,
                }),
            decreases self.schema.len() - i,
        {
            proof {
                let rest = schema.skip(i as int);
                assert(rest[0] == self.schema@[i as int]@);
                assert(rest.drop_first() =~= schema.skip(i + 1));
            }
            if self.schema[i].id.same(col) {
                return Some(i);
            }
            i += 1;
        }
        None
    }

    /// The column named `col`, where the schema has one.
    pub fn get_col(&self, col: &ColId) -> (r: Option<&Column>)
        ensures
            r matches Some(c) ==> col_index(self@.schema, col@) matches Some(i)
                && self@.schema[i] == c@,
            r.is_none() ==> col_index(self@.schema, col@).is_none(),
    {
        match self.col_position(col) {
            Some(i) => Some(&self.schema[i]),
            None => None,
        }
    }
}

impl Clone for Declaration {
    fn clone(&self) -> (d: Self)
        ensures
            d@ == self@,
    {
        let schema = self.schema.clone();
        assert(views(schema@) =~= views(self.schema@));
        Declaration { id: self.id.clone(), source: self.source, schema }
    }
}

/// The content identifier that a predicate asks of the tuples it matches: a
/// given one, or a variable that takes theirs.
#[derive(Debug, PartialEq, Eq)]
pub enum CidValue {
    Cid(Cid),
    Var(Var),
}

/// The mathematical content of a [`CidValue`].
pub enum CidValueView {
    Cid(Seq<u8>),
    Var(VarView),
}

impl View for CidValue {
    type V = CidValueView;

    open spec fn view(&self) -> CidValueView {
        match self {
            CidValue::Cid(c) => CidValueView::Cid(c@),
            CidValue::Var(v) => CidValueView::Var(v@),
        }
    }
}

impl Clone for CidValue {
    fn clone(&self) -> (c: Self)
        ensures
            c@ == self@,
    {
        match self {
            CidValue::Cid(c) => CidValue::Cid(c.clone()),
            CidValue::Var(v) => CidValue::Var(v.clone()),
        }
    }
}

/// The view of an optional content identifier.
pub open spec fn cid_value_view(cid: Option<CidValue>) -> Option<CidValueView> {
    match cid {
        Some(c) => Some(c@),
        None => None,
    }
}

/// The view of an optional value.
pub open spec fn opt_value_view(value: Option<Value>) -> Option<ValueView> {
    match value {
        Some(v) => Some(v@),
        None => None,
    }
}

/// A positive search of a relation.
#[derive(Debug, PartialEq, Eq)]
pub struct Predicate {
    pub id: RelationId,
    pub cid: Option<CidValue>,
    pub args: Vec<ColBinding>,
}

/// The mathematical content of a [`Predicate`].
pub struct PredicateView {
    pub id: Seq<char>,
    pub cid: Option<CidValueView>,
    pub args: Seq<ColBindingView>,
}

impl View for Predicate {
    type V = PredicateView;

    open spec fn view(&self) -> PredicateView {
        PredicateView { id: self.id@, cid: cid_value_view(self.cid), args: views(self.args@) }
    }
}

impl Predicate {
    pub fn new(name: &str, args: Vec<ColBinding>) -> (p: Predicate)
        ensures
            p@ == (PredicateView { id: name@, cid: None, args: views(args@) }),
    {
        Predicate { id: RelationId::new(name), cid: None, args }
    }

    pub fn with_cid(name: &str, cid: CidValue, args: Vec<ColBinding>) -> (p: Predicate)
        ensures
            p@ == (PredicateView { id: name@, cid: Some(cid@), args: views(args@) }),
    {
        Predicate { id: RelationId::new(name), cid: Some(cid), args }
    }
}

impl Clone for Predicate {
    fn clone(&self) -> (p: Self)
        ensures
            p@ == self@,
    {
        let args = self.args.clone();
        assert(views(args@) =~= views(self.args@));
        let cid = match &self.cid {
            Some(c) => Some(c.clone()),
            None => None,
        };
        Predicate { id: self.id.clone(), cid, args }
    }
}

/// A negated search: the rule fails where a matching tuple exists.
#[derive(Debug, PartialEq, Eq)]
pub struct Negation {
    pub id: RelationId,
    pub args: Vec<ColBinding>,
}

/// The mathematical content of a [`Negation`].
pub struct NegationView {
    pub id: Seq<char>,
    pub args: Seq<ColBindingView>,
}

impl View for Negation {
    type V = NegationView;

    open spec fn view(&self) -> NegationView {
        NegationView { id: self.id@, args: views(self.args@) }
    }
}

impl Negation {
    pub fn new(name: &str, args: Vec<ColBinding>) -> (n: Negation)
        ensures
            n@ == (NegationView { id: name@, args: views(args@) }),
    {
        Negation { id: RelationId::new(name), args }
    }
}

impl Clone for Negation {
    fn clone(&self) -> (n: Self)
        ensures
            n@ == self@,
    {
        let args = self.args.clone();
        assert(views(args@) =~= views(self.args@));
        Negation { id: self.id.clone(), args }
    }
}

/// The built-in reducers of an aggregation.
#[derive(Debug, Clone, Copy, PartialEq, Eq, Structural)]
pub enum Reducer {
    Min,
    Max,
    Sum,
    Count,
}

/// A fold over the tuples of a relation that match a group: binds `target`
/// to the result.
#[derive(Debug, PartialEq, Eq)]
pub struct Aggregation {
    pub target: Var,
    pub group_by: Vec<ColBinding>,
    pub over: RelationId,
    pub args: Vec<Var>,
    pub init: Option<Value>,
    pub reducer: Reducer,
}

/// The mathematical content of an [`Aggregation`].
pub struct AggregationView {
    pub target: VarView,
    pub group_by: Seq<ColBindingView>,
    pub over: Seq<char>,
    pub args: Seq<VarView>,
    pub init: Option<ValueView>,
    pub reducer: Reducer,
}

impl View for Aggregation {
    type V = AggregationView;

    open spec fn view(&self) -> AggregationView {
        AggregationView {
            target: self.target@,
            group_by: views(self.group_by@),
            over: self.over@,
            args: views(self.args@),
            init: opt_value_view(self.init),
            reducer: self.reducer,
        }
    }
}

impl Aggregation {
    pub fn new(
        target: Var,
        args: Vec<Var>,
        over: &str,
        group_by: Vec<ColBinding>,
        init: Option<Value>,
        reducer: Reducer,
    ) -> (a: Aggregation)
        ensures
            a@ == (AggregationView {
                target: target@,
                group_by: views(group_by@),
                over: over@,
                args: views(args@),
                init: opt_value_view(init),
                reducer,
            }),
    {
        Aggregation { target, group_by, over: RelationId::new(over), args, init, reducer }
    }
}

impl Clone for Aggregation {
    fn clone(&self) -> (a: Self)
        ensures
            a@ == self@,
    {
        let group_by = self.group_by.clone();
        assert(views(group_by@) =~= views(self.group_by@));
        let args = self.args.clone();
        assert(views(args@) =~= views(self.args@));
        let init = match &self.init {
            Some(v) => Some(v.clone()),
            None => None,
        };
        Aggregation {
            target: self.target.clone(),
            group_by,
            over: self.over.clone(),
            args,
            init,
            reducer: self.reducer,
        }
    }
}

/// One term of a rule's body.
#[derive(Debug, PartialEq, Eq)]
pub enum BodyTerm {
    Predicate(Predicate),
    Negation(Negation),
    Aggregation(Aggregation),
}

/// The mathematical content of a [`BodyTerm`].
pub enum BodyTermView {
    Predicate(PredicateView),
    Negation(NegationView),
    Aggregation(AggregationView),
}

impl View for BodyTerm {
    type V = BodyTermView;

    open spec fn view(&self) -> BodyTermView {
        match self {
            BodyTerm::Predicate(p) => BodyTermView::Predicate(p@),
            BodyTerm::Negation(n) => BodyTermView::Negation(n@),
            BodyTerm::Aggregation(a) => BodyTermView::Aggregation(a@),
        }
    }
}

impl Clone for BodyTerm {
    fn clone(&self) -> (t: Self)
        ensures
            t@ == self@,
    {
        match self {
            BodyTerm::Predicate(p) => BodyTerm::Predicate(p.clone()),
            BodyTerm::Negation(n) => BodyTerm::Negation(n.clone()),
            BodyTerm::Aggregation(a) => BodyTerm::Aggregation(a.clone()),
        }
    }
}

/// Whether a dependency lets its target grow with its source (`Positive`) or
/// needs its source complete first (`Negative`: negation and aggregation).
#[derive(Debug, Clone, Copy, PartialEq, Eq, Structural)]
pub enum Polarity {
    Positive,
    Negative,
}

impl Polarity {
    pub fn is_negative(&self) -> (b: bool)
        ensures
            b == (*self == Polarity::Negative),
    {
        match self {
            Polarity::Negative => true,
            Polarity::Positive => false,
        }
    }
}

/// The relation that a body term reads.
pub open spec fn term_relation(term: BodyTermView) -> Seq<char> {
    match term {
        BodyTermView::Predicate(p) => p.id,
        BodyTermView::Negation(n) => n.id,
        BodyTermView::Aggregation(a) => a.over,
    }
}

/// The polarity with which a body term reads its relation.
pub open spec fn term_polarity(term: BodyTermView) -> Polarity {
    match term {
        BodyTermView::Predicate(_) => Polarity::Positive,
        BodyTermView::Negation(_) => Polarity::Negative,
        BodyTermView::Aggregation(_) => Polarity::Negative,
    }
}

impl BodyTerm {
    /// The relation that the term reads.
    pub fn relation(&self) -> (id: &RelationId)
        ensures
            id@ == term_relation(self@),
    {
        match self {
            BodyTerm::Predicate(p) => &p.id,
            BodyTerm::Negation(n) => &n.id,
            BodyTerm::Aggregation(a) => &a.over,
        }
    }

    /// The polarity with which the term reads its relation.
    pub fn polarity(&self) -> (p: Polarity)
        ensures
            p == term_polarity(self@),
    {
        match self {
            BodyTerm::Predicate(_) => Polarity::Positive,
            BodyTerm::Negation(_) => Polarity::Negative,
            BodyTerm::Aggregation(_) => Polarity::Negative,
        }
    }
}

/// One column of a fact with its value.
#[derive(Debug, PartialEq, Eq, Hash, PartialOrd, Ord)]
pub struct FactArg {
    pub col: ColId,
    pub value: Value,
}

/// The mathematical content of a [`FactArg`].
pub struct FactArgView {
    pub col: Seq<char>,
    pub value: ValueView,
}

impl View for FactArg {
    type V = FactArgView;

    open spec fn view(&self) -> FactArgView {
        FactArgView { col: self.col@, value: self.value@ }
    }
}

impl FactArg {
    pub fn new(col: &str, value: Value) -> (a: FactArg)
        ensures
            a@ == (FactArgView { col: col@, value: value@ }),
    {
        FactArg { col: ColId::new(col), value }
    }
}

impl Clone for FactArg {
    fn clone(&self) -> (a: Self)
        ensures
            a@ == self@,
    {
        FactArg { col: self.col.clone(), value: self.value.clone() }
    }
}

/// A ground clause: a tuple that holds without condition.
#[derive(Debug, PartialEq, Eq)]
pub struct Fact {
    pub head: RelationId,
    pub args: Vec<FactArg>,
}

/// The mathematical content of a [`Fact`].
pub struct FactView {
    pub head: Seq<char>,
    pub args: Seq<FactArgView>,
}

impl View for Fact {
    type V = FactView;

    open spec fn view(&self) -> FactView {
        FactView { head: self.head@, args: views(self.args@) }
    }
}

impl Fact {
    pub fn new(head: &str, args: Vec<FactArg>) -> (f: Fact)
        ensures
            f@ == (FactView { head: head@, args: views(args@) }),
    {
        Fact { head: RelationId::new(head), args }
    }
}

impl Clone for Fact {
    fn clone(&self) -> (f: Self)
        ensures
            f@ == self@,
    {
        let args = self.args.clone();
        assert(views(args@) =~= views(self.args@));
        Fact { head: self.head.clone(), args }
    }
}

/// A rule: the head holds of every assignment of the variables under which
/// the body holds.
#[derive(Debug, PartialEq, Eq)]
pub struct Rule {
    pub head: RelationId,
    pub args: Vec<ColBinding>,
    pub body: Vec<BodyTerm>,
}

/// The mathematical content of a [`Rule`].
pub struct RuleView {
    pub head: Seq<char>,
    pub args: Seq<ColBindingView>,
    pub body: Seq<BodyTermView>,
}

impl View for Rule {
    type V = RuleView;

    open spec fn view(&self) -> RuleView {
        RuleView { head: self.head@, args: views(self.args@), body: views(self.body@) }
    }
}

impl Clone for Rule {
    fn clone(&self) -> (r: Self)
        ensures
            r@ == self@,
    {
        let args = self.args.clone();
        assert(views(args@) =~= views(self.args@));
        let body = self.body.clone();
        assert(views(body@) =~= views(self.body@));
        Rule { head: self.head.clone(), args, body }
    }
}

/// A clause of a program.
#[derive(Debug, PartialEq, Eq)]
pub enum Clause {
    Fact(Fact),
    Rule(Rule),
}

/// The mathematical content of a [`Clause`].
pub enum ClauseView {
    Fact(FactView),
    Rule(RuleView),
}

impl View for Clause {
    type V = ClauseView;

    open spec fn view(&self) -> ClauseView {
        match self {
            Clause::Fact(f) => ClauseView::Fact(f@),
            Clause::Rule(r) => ClauseView::Rule(r@),
        }
    }
}

impl Clone for Clause {
    fn clone(&self) -> (c: Self)
        ensures
            c@ == self@,
    {
        match self {
            Clause::Fact(f) => Clause::Fact(f.clone()),
            Clause::Rule(r) => Clause::Rule(r.clone()),
        }
    }
}

/// The relation that a clause defines.
pub open spec fn clause_head(clause: ClauseView) -> Seq<char> {
    match clause {
        ClauseView::Fact(f) => f.head,
        ClauseView::Rule(r) => r.head,
    }
}

/// The body of a clause; a fact has none.
pub open spec fn clause_body(clause: ClauseView) -> Seq<BodyTermView> {
    match clause {
        ClauseView::Fact(_) => seq![],
        ClauseView::Rule(r) => r.body,
    }
}

/// That the relation `to` is defined in terms of the relation `from`.
#[derive(Debug, PartialEq, Eq)]
pub struct Dependency {
    pub from: RelationId,
    pub to: RelationId,
    pub polarity: Polarity,
}

/// The mathematical content of a [`Dependency`].
pub struct DependencyView {
    pub from: Seq<char>,
    pub to: Seq<char>,
    pub polarity: Polarity,
}

impl View for Dependency {
    type V = DependencyView;

    open spec fn view(&self) -> DependencyView {
        DependencyView { from: self.from@, to: self.to@, polarity: self.polarity }
    }
}

/// The dependencies of a clause: one for each term of its body, in order,
/// from the term's relation to the clause's head.
pub open spec fn clause_dependencies(clause: ClauseView) -> Seq<DependencyView> {
    clause_body(clause).map_values(
        |t: BodyTermView|
            DependencyView {
                from: term_relation(t),
                to: clause_head(clause),
                polarity: term_polarity(t),
            },
    )
}

impl Clause {
    /// The relation that the clause defines.
    pub fn head(&self) -> (id: &RelationId)
        ensures
            id@ == clause_head(self@),
    {
        match self {
            Clause::Fact(f) => &f.head,
            Clause::Rule(r) => &r.head,
        }
    }

    /// The dependencies of the clause, one for each body term, in order.
    pub fn depends_on(&self) -> (deps: Vec<Dependency>)
        ensures
            views(deps@) == clause_dependencies(self@),
    {
        let mut deps: Vec<Dependency> = Vec::new();
        match self {
            Clause::Fact(_) => {
                assert(views(deps@) =~= clause_dependencies(self@));
            },
            Clause::Rule(r) => {
                let mut i: usize = 0;
                while i < r.body.len()
                    invariant
                        i <= r.body.len(),
                        self@ == ClauseView::Rule(r@),
                        views(deps@) =~= clause_dependencies(self@).take(i as int),
                    decreases r.body.len() - i,
                {
                    let term = &r.body[i];
                    proof {
                        let full = clause_dependencies(self@);
                        assert(views(r.body@)[i as int] == term@);
                        assert(full.take(i + 1) =~= full.take(i as int).push(full[i as int]));
                    }
                    deps.push(
                        Dependency {
                            from: term.relation().clone(),
                            to: r.head.clone(),
                            polarity: term.polarity(),
                        },
                    );
                    i += 1;
                }
                assert(clause_dependencies(self@).take(i as int) =~= clause_dependencies(self@));
            },
        }
        deps
    }
}

/// A program: declarations and clauses.
#[derive(Debug, PartialEq, Eq)]
pub struct Program {
    pub declarations: Vec<Declaration>,
    pub clauses: Vec<Clause>,
}

/// The mathematical content of a [`Program`].
pub struct ProgramView {
    pub declarations: Seq<DeclarationView>,
    pub clauses: Seq<ClauseView>,
}

impl View for Program {
    type V = ProgramView;

    open spec fn view(&self) -> ProgramView {
        ProgramView { declarations: views(self.declarations@), clauses: views(self.clauses@) }
    }
}

impl Program {
    pub fn new(declarations: Vec<Declaration>, clauses: Vec<Clause>) -> (p: Program)
        ensures
            p@ == (ProgramView { declarations: views(declarations@), clauses: views(clauses@) }),
    {
        Program { declarations, clauses }
    }
}

/// A stratum: relations that are evaluated together, with their clauses.
#[derive(Debug, PartialEq, Eq)]
pub struct Stratum {
    pub relations: Vec<RelationId>,
    pub clauses: Vec<Clause>,
    pub is_recursive: bool,
}

/// The mathematical content of a [`Stratum`].
pub struct StratumView {
    pub relations: Seq<Seq<char>>,
    pub clauses: Seq<ClauseView>,
    pub is_recursive: bool,
}

impl View for Stratum {
    type V = StratumView;

    open spec fn view(&self) -> StratumView {
        StratumView {
            relations: views(self.relations@),
            clauses: views(self.clauses@),
            is_recursive: self.is_recursive,
        }
    }
}

/// The facts among `clauses`, in order.
pub open spec fn facts_of(clauses: Seq<ClauseView>) -> Seq<FactView>
    decreases clauses.len(),
{
    if clauses.len() == 0 {
        seq![]
    } else {
        let rest = facts_of(clauses.drop_last());
        match clauses.last() {
            ClauseView::Fact(f) => rest.push(f),
            ClauseView::Rule(_) => rest,
        }
    }
}

/// The rules among `clauses`, in order.
pub open spec fn rules_of(clauses: Seq<ClauseView>) -> Seq<RuleView>
    decreases clauses.len(),
{
    if clauses.len() == 0 {
        seq![]
    } else {
        let rest = rules_of(clauses.drop_last());
        match clauses.last() {
            ClauseView::Rule(r) => rest.push(r),
            ClauseView::Fact(_) => rest,
        }
    }
}

impl Stratum {
    pub fn new(relations: Vec<RelationId>, clauses: Vec<Clause>, is_recursive: bool) -> (s:
        Stratum)
        ensures
            s@ == (StratumView {
                relations: views(relations@),
                clauses: views(clauses@),
                is_recursive,
            }),
    {
        Stratum { relations, clauses, is_recursive }
    }

    /// Whether `id` is one of the stratum's relations.
    pub fn contains(&self, id: &RelationId) -> (b: bool)
        ensures
            b == self@.relations.contains(id@),
    {
        contains_relation(&self.relations, id)
    }

    /// The facts of the stratum, in order.
    pub fn facts(&self) -> (facts: Vec<Fact>)
        ensures
            views(facts@) == facts_of(self@.clauses),
    {
        let mut facts: Vec<Fact> = Vec::new();
        let mut i: usize = 0;
        let ghost clauses = self@.clauses;
        assert(clauses.take(0) =~= seq![]);
        while i < self.clauses.len()
            invariant
                i <= self.clauses.len(),
                clauses == views(self.clauses@),
                views(facts@) =~= facts_of(clauses.take(i as int)),
            decreases self.clauses.len() - i,
        {
            assert(clauses.take(i + 1).drop_last() =~= clauses.take(i as int));
            if let Clause::Fact(f) = &self.clauses[i] {
                facts.push(f.clone());
            }
            i += 1;
        }
        assert(clauses.take(i as int) =~= clauses);
        facts
    }

    /// The rules of the stratum, in order.
    pub fn rules(&self) -> (rules: Vec<Rule>)
        ensures
            views(rules@) == rules_of(self@.clauses),
    {
        let mut rules: Vec<Rule> = Vec::new();
        let mut i: usize = 0;
        let ghost clauses = self@.clauses;
        assert(clauses.take(0) =~= seq![]);
        while i < self.clauses.len()
            invariant
                i <= self.clauses.len(),
                clauses == views(self.clauses@),
                views(rules@) =~= rules_of(clauses.take(i as int)),
            decreases self.clauses.len() - i,
        {
            assert(clauses.take(i + 1).drop_last() =~= clauses.take(i as int));
            if let Clause::Rule(r) = &self.clauses[i] {
                rules.push(r.clone());
            }
            i += 1;
        }
        assert(clauses.take(i as int) =~= clauses);
        rules
    }
}

/// Whether `id` is among `relations`.
pub fn contains_relation(relations: &Vec<RelationId>, id: &RelationId) -> (b: bool)
    ensures
        b == views(relations@).contains(id@),
{
    let mut i: usize = 0;
    while i < relations.len()
        invariant
            i <= relations.len(),
            forall|j: int| 0 <= j < i ==> views(relations@)[j] != id@,
        decreases relations.len() - i,
    {
        if relations[i].same(id) {
            assert(views(relations@)[i as int] == id@);
            return true;
        }
        i += 1;
    }
    false
}

} // verus!
