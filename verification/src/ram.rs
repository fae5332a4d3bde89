//! The relational-algebra representation that programs are lowered to.

use vstd::prelude::*;
use crate::id::{AliasId, ColId, RelationId};
use crate::logic::ast::{opt_value_view, Declaration, DeclarationView, Reducer};
use crate::value::{views, Value, ValueView};
use crate::var::{Var, VarView};

verus! {

/// The three physical sets of a relation: all that is known (`Total`), what
/// the last round added (`Delta`) and what this round derives (`New`).
#[derive(Debug, Clone, Copy, PartialEq, Eq, Structural, Hash)]
pub enum Version {
    Total,
    Delta,
    New,
}

/// One physical set: a relation in one of its versions.
#[derive(Debug, PartialEq, Eq)]
pub struct Relation {
    pub id: RelationId,
    pub version: Version,
}

/// The mathematical content of a [`Relation`].
pub struct RelationView {
    pub id: Seq<char>,
    pub version: Version,
}

impl View for Relation {
    type V = RelationView;

    open spec fn view(&self) -> RelationView {
        RelationView { id: self.id@, version: self.version }
    }
}

impl Relation {
    pub fn new(id: RelationId, version: Version) -> (r: Relation)
        ensures
            r@ == (RelationView { id: id@, version }),
    {
        Relation { id, version }
    }
}

impl Clone for Relation {
    fn clone(&self) -> (r: Self)
        ensures
            r@ == self@,
    {
        Relation { id: self.id.clone(), version: self.version }
    }
}

/// A term of a formula or a projection.
#[derive(Debug, PartialEq, Eq)]
pub enum Term {
    /// A constant.
    Literal(Value),
    /// The column `col` of the tuple that the search of `relation` under
    /// `alias` is at.
    Attribute { col: ColId, relation: RelationId, alias: Option<AliasId> },
    /// The content identifier of the tuple that the search of `relation`
    /// under `alias` is at.
    Cid { relation: RelationId, alias: Option<AliasId> },
    /// The result that the aggregation over `relation` under `alias` bound
    /// to `var`.
    Agg { relation: RelationId, alias: Option<AliasId>, var: Var },
}

/// The mathematical content of a [`Term`].
pub enum TermView {
    Literal(ValueView),
    Attribute { col: Seq<char>, relation: Seq<char>, alias: Option<AliasId> },
    Cid { relation: Seq<char>, alias: Option<AliasId> },
    Agg { relation: Seq<char>, alias: Option<AliasId>, var: VarView },
}

impl View for Term {
    type V = TermView;

    open spec fn view(&self) -> TermView {
        match self {
            Term::Literal(v) => TermView::Literal(v@),
            Term::Attribute { col, relation, alias } => TermView::Attribute {
                col: col@,
                relation: relation@,
                alias: *alias,
            },
            Term::Cid { relation, alias } => TermView::Cid { relation: relation@, alias: *alias },
            Term::Agg { relation, alias, var } => TermView::Agg {
                relation: relation@,
                alias: *alias,
                var: var@,
            },
        }
    }
}

impl Clone for Term {
    fn clone(&self) -> (t: Self)
        ensures
            t@ == self@,
    {
        match self {
            Term::Literal(v) => Term::Literal(v.clone()),
            Term::Attribute { col, relation, alias } => Term::Attribute {
                col: col.clone(),
                relation: relation.clone(),
                alias: *alias,
            },
            Term::Cid { relation, alias } => Term::Cid { relation: relation.clone(), alias: *alias },
            Term::Agg { relation, alias, var } => Term::Agg {
                relation: relation.clone(),
                alias: *alias,
                var: var.clone(),
            },
        }
    }
}

/// One column of a projection or of a key, with the term that gives its
/// value.
#[derive(Debug, PartialEq, Eq)]
pub struct Attr {
    pub col: ColId,
    pub term: Term,
}

/// The mathematical content of an [`Attr`].
pub struct AttrView {
    pub col: Seq<char>,
    pub term: TermView,
}

impl View for Attr {
    type V = AttrView;

    open spec fn view(&self) -> AttrView {
        AttrView { col: self.col@, term: self.term@ }
    }
}

impl Clone for Attr {
    fn clone(&self) -> (a: Self)
        ensures
            a@ == self@,
    {
        Attr { col: self.col.clone(), term: self.term.clone() }
    }
}

/// A condition on the tuple that a search is at.
#[derive(Debug, PartialEq, Eq)]
pub enum Formula {
    /// The two terms have the same value.
    Equality(Term, Term),
    /// No tuple of `relation` has the given values in the given columns.
    NotIn { attributes: Vec<Attr>, relation: Relation },
}

/// The mathematical content of a [`Formula`].
pub enum FormulaView {
    Equality(TermView, TermView),
    NotIn { attributes: Seq<AttrView>, relation: RelationView },
}

impl View for Formula {
    type V = FormulaView;

    open spec fn view(&self) -> FormulaView {
        match self {
            Formula::Equality(a, b) => FormulaView::Equality(a@, b@),
            Formula::NotIn { attributes, relation } => FormulaView::NotIn {
                attributes: views(attributes@),
                relation: relation@,
            },
        }
    }
}

impl Clone for Formula {
    fn clone(&self) -> (f: Self)
        ensures
            f@ == self@,
    {
        match self {
            Formula::Equality(a, b) => Formula::Equality(a.clone(), b.clone()),
            Formula::NotIn { attributes, relation } => {
                let cloned = attributes.clone();
                assert(views(cloned@) =~= views(attributes@));
                Formula::NotIn { attributes: cloned, relation: relation.clone() }
            },
        }
    }
}

/// An operation: searches and aggregations nested around one projection.
#[derive(Debug, PartialEq, Eq)]
pub enum Operation {
    /// For every tuple of `relation` under which all of `when` holds, do
    /// `operation`. Where `by_cid` is set, only tuples are taken whose
    /// content identifier the blockstore holds.
    Search {
        relation: Relation,
        alias: Option<AliasId>,
        by_cid: bool,
        when: Vec<Formula>,
        operation: Box<Operation>,
    },
    /// Make a tuple of the attributes and put it into `into`.
    Project { attributes: Vec<Attr>, into: Relation },
    /// Fold `reducer` over the tuples of `relation` that have the values of
    /// `group_by_cols` and under which all of `when` holds, bind the result
    /// to `target`, and do `operation`.
    Aggregation {
        relation: Relation,
        alias: Option<AliasId>,
        when: Vec<Formula>,
        group_by_cols: Vec<Attr>,
        args: Vec<Term>,
        init: Option<Value>,
        target: Var,
        reducer: Reducer,
        operation: Box<Operation>,
    },
}

/// The mathematical content of an [`Operation`].
pub enum OperationView {
    Search {
        relation: RelationView,
        alias: Option<AliasId>,
        by_cid: bool,
        when: Seq<FormulaView>,
        operation: Box<OperationView>,
    },
    Project { attributes: Seq<AttrView>, into: RelationView },
    Aggregation {
        relation: RelationView,
        alias: Option<AliasId>,
        when: Seq<FormulaView>,
        group_by_cols: Seq<AttrView>,
        args: Seq<TermView>,
        init: Option<ValueView>,
        target: VarView,
        reducer: Reducer,
        operation: Box<OperationView>,
    },
}

/// The mathematical content of `operation`.
pub open spec fn operation_view(operation: Operation) -> OperationView
    decreases operation,
{
    match operation {
        Operation::Search { relation, alias, by_cid, when, operation } => OperationView::Search {
            relation: relation@,
            alias,
            by_cid,
            when: views(when@),
            operation: Box::new(operation_view(*operation)),
        },
        Operation::Project { attributes, into } => OperationView::Project {
            attributes: views(attributes@),
            into: into@,
        },
        Operation::Aggregation {
            relation,
            alias,
            when,
            group_by_cols,
            args,
            init,
            target,
            reducer,
            operation,
        } => OperationView::Aggregation {
            relation: relation@,
            alias,
            when: views(when@),
            group_by_cols: views(group_by_cols@),
            args: views(args@),
            init: opt_value_view(init),
            target: target@,
            reducer,
            operation: Box::new(operation_view(*operation)),
        },
    }
}

impl View for Operation {
    type V = OperationView;

    open spec fn view(&self) -> OperationView {
        operation_view(*self)
    }
}

/// The relation that the projection at the core of `operation` fills.
pub open spec fn operation_target(operation: OperationView) -> RelationView
    decreases operation,
{
    match operation {
        OperationView::Search { operation, .. } => operation_target(*operation),
        OperationView::Project { into, .. } => into,
        OperationView::Aggregation { operation, .. } => operation_target(*operation),
    }
}

/// A statement of a program.
#[derive(Debug, PartialEq, Eq)]
pub enum Statement {
    /// Run the operation. A ground insertion (a fact) runs only on the first
    /// tick of the clock.
    Insert { operation: Operation, is_ground: bool },
    /// Add the tuples of `from` to `into`.
    Merge { from: Relation, into: Relation },
    /// Exchange the tuples of the two relations.
    Swap { left: Relation, right: Relation },
    /// Empty the relation.
    Purge { relation: Relation },
    /// Leave the enclosing loop if all the relations are empty.
    Exit { relations: Vec<Relation> },
    /// Repeat the body until an `Exit` in it is met.
    Loop { body: Vec<Statement> },
    /// Take the queued input tuples into their relations.
    Sources,
    /// Queue the newly derived tuples for output.
    Sinks,
}

/// The mathematical content of a [`Statement`].
pub enum StatementView {
    Insert { operation: OperationView, is_ground: bool },
    Merge { from: RelationView, into: RelationView },
    Swap { left: RelationView, right: RelationView },
    Purge { relation: RelationView },
    Exit { relations: Seq<RelationView> },
    Loop { body: Seq<StatementView> },
    Sources,
    Sinks,
}

/// The mathematical content of `statement`.
pub open spec fn statement_view(statement: Statement) -> StatementView
    decreases statement,
{
    match statement {
        Statement::Insert { operation, is_ground } => StatementView::Insert {
            operation: operation@,
            is_ground,
        },
        Statement::Merge { from, into } => StatementView::Merge { from: from@, into: into@ },
        Statement::Swap { left, right } => StatementView::Swap { left: left@, right: right@ },
        Statement::Purge { relation } => StatementView::Purge { relation: relation@ },
        Statement::Exit { relations } => StatementView::Exit { relations: views(relations@) },
        Statement::Loop { body } => StatementView::Loop {
            body: Seq::new(
                body@.len(),
                |i: int|
                    if 0 <= i < body.len() {
                        statement_view(body[i])
                    } else {
                        StatementView::Sources
                    },
            ),
        },
        Statement::Sources => StatementView::Sources,
        Statement::Sinks => StatementView::Sinks,
    }
}

impl View for Statement {
    type V = StatementView;

    open spec fn view(&self) -> StatementView {
        statement_view(*self)
    }
}

/// The views of the statements of `body`, in order.
pub open spec fn statement_views(body: Seq<Statement>) -> Seq<StatementView> {
    Seq::new(body.len(), |i: int| body[i]@)
}

/// The view of a loop is the loop of the views of its body.
pub proof fn loop_view(body: Vec<Statement>)
    ensures
        (Statement::Loop { body })@ == (StatementView::Loop { body: statement_views(body@) }),
{
    let s = Statement::Loop { body };
    assert(s@->Loop_body =~= statement_views(body@));
}

/// A program: the declarations of its relations and its statements, which
/// the machine runs in order, once per epoch.
#[derive(Debug, PartialEq, Eq)]
pub struct Program {
    pub declarations: Vec<Declaration>,
    pub statements: Vec<Statement>,
}

/// The mathematical content of a [`Program`].
pub struct ProgramView {
    pub declarations: Seq<DeclarationView>,
    pub statements: Seq<StatementView>,
}

impl View for Program {
    type V = ProgramView;

    open spec fn view(&self) -> ProgramView {
        ProgramView {
            declarations: views(self.declarations@),
            statements: statement_views(self.statements@),
        }
    }
}

impl Program {
    pub fn new(declarations: Vec<Declaration>, statements: Vec<Statement>) -> (p: Program)
        ensures
            p@ == (ProgramView {
                declarations: views(declarations@),
                statements: statement_views(statements@),
            }),
    {
        Program { declarations, statements }
    }

    pub fn statements(&self) -> (s: &Vec<Statement>)
        ensures
            s == self.statements,
    {
        &self.statements
    }

    pub fn declarations(&self) -> (d: &Vec<Declaration>)
        ensures
            d == self.declarations,
    {
        &self.declarations
    }
}

} // verus!
