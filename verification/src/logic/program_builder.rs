//! The builder of programs: declarations, facts and rules, each checked
//! against the declarations as it is added.

use vstd::prelude::*;
use crate::error::{Error, ErrorView};
use crate::id::RelationId;
use crate::logic::ast::{
    cid_value_view, col_index, col_index_sound, opt_value_view, BodyTerm, BodyTermView,
    CidValueView, Clause, ClauseView, Column, Declaration, DeclarationView, Fact, FactArg,
    FactArgView, FactView, Program, ProgramView, Reducer, Rule, RuleView, Source,
};
use crate::logic::builder::{
    binds_col, check_aggregation, check_bindings, check_predicate, AggregationBuilder,
    NegationBuilder, RelPredicateBuilder, VarTypes,
};
use crate::logic::lower_to_ram::rule_fault;
use crate::types::{admits, unified, ColType};
use crate::value::{views, Value, ValueView};
use crate::var::{ColBinding, ColBindingView, ColVal, ColValView, Var, VarView};

verus! {

/// A body term under construction, with the name of its relation.
#[derive(Debug)]
#[allow(inconsistent_fields)]
pub enum TermBuilder {
    /// A positive search.
    Search { relation: RelationId, builder: RelPredicateBuilder },
    /// A negation.
    Except { relation: RelationId, builder: NegationBuilder },
    /// An aggregation.
    GroupBy { relation: RelationId, builder: AggregationBuilder },
}

/// The mathematical content of a [`TermBuilder`].
pub enum TermBuilderView {
    Search { relation: Seq<char>, cid: Option<CidValueView>, bindings: Seq<ColBindingView> },
    Except { relation: Seq<char>, bindings: Seq<ColBindingView> },
    GroupBy {
        relation: Seq<char>,
        target: VarView,
        vars: Seq<VarView>,
        bindings: Seq<ColBindingView>,
        init: Option<ValueView>,
        reducer: Reducer,
    },
}

impl View for TermBuilder {
    type V = TermBuilderView;

    open spec fn view(&self) -> TermBuilderView {
        match self {
            TermBuilder::Search { relation, builder } => TermBuilderView::Search {
                relation: relation@,
                cid: cid_value_view(builder.cid),
                bindings: views(builder.bindings@),
            },
            TermBuilder::Except { relation, builder } => TermBuilderView::Except {
                relation: relation@,
                bindings: views(builder.bindings@),
            },
            TermBuilder::GroupBy { relation, builder } => TermBuilderView::GroupBy {
                relation: relation@,
                target: builder.target@,
                vars: views(builder.vars@),
                bindings: views(builder.bindings@),
                init: opt_value_view(builder.init),
                reducer: builder.reducer,
            },
        }
    }
}

impl TermBuilder {
    /// A search of `relation` with the given bindings.
    pub fn search(relation: &str, bindings: Vec<ColBinding>) -> (t: TermBuilder)
        ensures
            t@ == (TermBuilderView::Search {
                relation: relation@,
                cid: None,
                bindings: views(bindings@),
            }),
    {
        TermBuilder::Search {
            relation: RelationId::new(relation),
            builder: RelPredicateBuilder { cid: None, bindings },
        }
    }

    /// A search of `relation` by content identifier, with the given
    /// bindings.
    pub fn search_cid(
        relation: &str,
        cid: crate::logic::ast::CidValue,
        bindings: Vec<ColBinding>,
    ) -> (t: TermBuilder)
        ensures
            t@ == (TermBuilderView::Search {
                relation: relation@,
                cid: Some(cid@),
                bindings: views(bindings@),
            }),
    {
        TermBuilder::Search {
            relation: RelationId::new(relation),
            builder: RelPredicateBuilder { cid: Some(cid), bindings },
        }
    }

    /// The negation of `relation` with the given bindings.
    pub fn except(relation: &str, bindings: Vec<ColBinding>) -> (t: TermBuilder)
        ensures
            t@ == (TermBuilderView::Except { relation: relation@, bindings: views(bindings@) }),
    {
        TermBuilder::Except {
            relation: RelationId::new(relation),
            builder: NegationBuilder { bindings },
        }
    }

    /// The aggregation of `relation`: `target` is bound to the fold of
    /// `reducer` over `vars`, from `init` where there is one.
    pub fn group_by(
        target: Var,
        relation: &str,
        bindings: Vec<ColBinding>,
        reducer: Reducer,
        vars: Vec<Var>,
        init: Option<Value>,
    ) -> (t: TermBuilder)
        ensures
            t@ == (TermBuilderView::GroupBy {
                relation: relation@,
                target: target@,
                vars: views(vars@),
                bindings: views(bindings@),
                init: opt_value_view(init),
                reducer,
            }),
    {
        TermBuilder::GroupBy {
            relation: RelationId::new(relation),
            builder: AggregationBuilder { target, vars, bindings, init, reducer },
        }
    }
}

/// The index of the declaration of the relation `id`: the first of that
/// name.
pub open spec fn find_declaration(declarations: Seq<DeclarationView>, id: Seq<char>) -> Option<
    int,
>
    decreases declarations.len(),
{
    if declarations.len() == 0 {
        None
    } else if declarations[0].id == id {
        Some(0)
    } else {
        match find_declaration(declarations.drop_first(), id) {
            Some(i) => Some(i + 1),
            None => None,
        }
    }
}

/// What `find_declaration` finds is a declaration of that name.
pub proof fn find_declaration_sound(declarations: Seq<DeclarationView>, id: Seq<char>)
    ensures
        find_declaration(declarations, id) matches Some(i) ==> 0 <= i < declarations.len()
            && declarations[i].id == id,
    decreases declarations.len(),
{
    if declarations.len() > 0 && declarations[0].id != id {
        find_declaration_sound(declarations.drop_first(), id);
    }
}

/// The body term that a term under construction becomes, and the types
/// inferred after it: the first error of its check against the declaration
/// of its relation, and an internal error where the relation is not
/// declared.
pub open spec fn check_term(
    term: TermBuilderView,
    declarations: Seq<DeclarationView>,
    types: Map<Seq<char>, ColType>,
) -> Result<(BodyTermView, Map<Seq<char>, ColType>), ErrorView> {
    match term {
        TermBuilderView::Search { relation, cid, bindings } => match find_declaration(
            declarations,
            relation,
        ) {
            Some(i) => match check_predicate(cid, bindings, declarations[i], types) {
                Ok(inferred) => Ok(
                    (
                        BodyTermView::Predicate(
                            crate::logic::ast::PredicateView {
                                id: declarations[i].id,
                                cid,
                                args: bindings,
                            },
                        ),
                        inferred,
                    ),
                ),
                Err(e) => Err(e),
            },
            None => Err(ErrorView::InternalError),
        },
        TermBuilderView::Except { relation, bindings } => match find_declaration(
            declarations,
            relation,
        ) {
            Some(i) => match check_bindings(bindings, declarations[i], types, false) {
                Ok(_) => Ok(
                    (
                        BodyTermView::Negation(
                            crate::logic::ast::NegationView {
                                id: declarations[i].id,
                                args: bindings,
                            },
                        ),
                        types,
                    ),
                ),
                Err(e) => Err(e),
            },
            None => Err(ErrorView::InternalError),
        },
        TermBuilderView::GroupBy {
            relation,
            target,
            vars,
            bindings,
            init,
            reducer,
        } => match find_declaration(declarations, relation) {
            Some(i) => match check_aggregation(target, bindings, declarations[i], types) {
                Ok(inferred) => Ok(
                    (
                        BodyTermView::Aggregation(
                            crate::logic::ast::AggregationView {
                                target,
                                group_by: bindings,
                                over: declarations[i].id,
                                args: vars,
                                init,
                                reducer,
                            },
                        ),
                        inferred,
                    ),
                ),
                Err(e) => Err(e),
            },
            None => Err(ErrorView::InternalError),
        },
    }
}

/// The body that the terms under construction become, in order, and the
/// types inferred after all of them: the first error where one fails.
pub open spec fn check_terms(
    terms: Seq<TermBuilderView>,
    declarations: Seq<DeclarationView>,
) -> Result<(Seq<BodyTermView>, Map<Seq<char>, ColType>), ErrorView>
    decreases terms.len(),
{
    if terms.len() == 0 {
        Ok((seq![], Map::empty()))
    } else {
        match check_terms(terms.drop_last(), declarations) {
            Ok((body, types)) => match check_term(terms.last(), declarations, types) {
                Ok((term, inferred)) => Ok((body.push(term), inferred)),
                Err(e) => Err(e),
            },
            Err(e) => Err(e),
        }
    }
}

/// What is wrong with one binding of a head, after the bindings `before`:
/// `RuleUnknownColumn` where the column is not declared,
/// `ConflictingColumnBinding` where it is bound before,
/// `ColumnValueTypeConflict` where a literal is not of the column's type or
/// the type inferred for a variable does not unify with it, and
/// `UnboundVariable` where no type is inferred for the variable.
pub open spec fn head_binding_fault(
    before: Seq<ColBindingView>,
    binding: ColBindingView,
    head: DeclarationView,
    types: Map<Seq<char>, ColType>,
) -> Option<ErrorView> {
    match col_index(head.schema, binding.col) {
        None => Some(ErrorView::RuleUnknownColumn(head.id, binding.col)),
        Some(i) => if binds_col(before, binding.col) {
            Some(ErrorView::ConflictingColumnBinding(head.id, binding.col))
        } else {
            let typ = head.schema[i].typ;
            let conflict = ErrorView::ColumnValueTypeConflict(
                head.id,
                binding.col,
                binding.val,
                typ,
            );
            match binding.val {
                ColValView::Lit(v) => if admits(typ, v) {
                    None
                } else {
                    Some(conflict)
                },
                ColValView::Binding(var) => if types.contains_key(var.id) {
                    if unified(types[var.id], typ).is_some() {
                        None
                    } else {
                        Some(conflict)
                    }
                } else {
                    Some(ErrorView::UnboundVariable(var.id))
                },
            }
        },
    }
}

/// What is wrong with the bindings of a head: the fault of the first
/// binding that has one.
pub open spec fn head_fault(
    bindings: Seq<ColBindingView>,
    head: DeclarationView,
    types: Map<Seq<char>, ColType>,
) -> Option<ErrorView>
    decreases bindings.len(),
{
    if bindings.len() == 0 {
        None
    } else {
        match head_fault(bindings.drop_last(), head, types) {
            Some(e) => Some(e),
            None => head_binding_fault(bindings.drop_last(), bindings.last(), head, types),
        }
    }
}

/// The rule that a head and terms under construction become: an internal
/// error where the head is not declared or is an input relation, else the
/// first error of the terms, of the head, and of the rule as a whole.
pub open spec fn built_rule(
    declarations: Seq<DeclarationView>,
    head: Seq<char>,
    args: Seq<ColBindingView>,
    terms: Seq<TermBuilderView>,
) -> Result<RuleView, ErrorView> {
    match find_declaration(declarations, head) {
        None => Err(ErrorView::InternalError),
        Some(i) => if declarations[i].source == Source::Edb {
            Err(ErrorView::InternalError)
        } else {
            match check_terms(terms, declarations) {
                Err(e) => Err(e),
                Ok((body, types)) => match head_fault(args, declarations[i], types) {
                    Some(e) => Err(e),
                    None => {
                        let rule = RuleView { head, args, body };
                        match rule_fault(rule) {
                            Some(e) => Err(e),
                            None => Ok(rule),
                        }
                    },
                },
            }
        },
    }
}

/// The bindings that the columns of a fact stand for: each column bound to
/// its literal.
pub open spec fn fact_bindings(args: Seq<FactArgView>) -> Seq<ColBindingView> {
    args.map_values(|a: FactArgView| ColBindingView { col: a.col, val: ColValView::Lit(a.value) })
}

/// The fact that a head and columns become: an internal error where the
/// head is not declared or is an input relation, else the first error of
/// the check of the columns against the declaration.
pub open spec fn built_fact(
    declarations: Seq<DeclarationView>,
    head: Seq<char>,
    args: Seq<FactArgView>,
) -> Result<FactView, ErrorView> {
    match find_declaration(declarations, head) {
        None => Err(ErrorView::InternalError),
        Some(i) => if declarations[i].source == Source::Edb {
            Err(ErrorView::InternalError)
        } else {
            match check_bindings(fact_bindings(args), declarations[i], Map::empty(), false) {
                Ok(_) => Ok(FactView { head, args }),
                Err(e) => Err(e),
            }
        },
    }
}

/// Whether a relation of the given name and schema can be declared after
/// `declarations`: the name is not declared, and no two columns of the
/// schema have one name.
pub open spec fn declarable(
    declarations: Seq<DeclarationView>,
    name: Seq<char>,
    schema: Seq<crate::logic::ast::ColumnView>,
) -> bool {
    find_declaration(declarations, name).is_none() && crate::logic::ast::distinct_columns(schema)
}

/// Whether no declaration has two columns of one name.
pub open spec fn columns_distinct(declarations: Seq<DeclarationView>) -> bool {
    forall|i: int|
        0 <= i < declarations.len() ==> crate::logic::ast::distinct_columns(
            (#[trigger] declarations[i]).schema,
        )
}

/// Declarations without two columns of one name stay so when a relation
/// that can be declared is declared after them. So every program that a
/// builder collects has declarations of this kind.
pub proof fn declared_columns_stay_distinct(
    declarations: Seq<DeclarationView>,
    declaration: DeclarationView,
)
    requires
        columns_distinct(declarations),
        declarable(declarations, declaration.id, declaration.schema),
    ensures
        columns_distinct(declarations.push(declaration)),
{
    assert forall|i: int| 0 <= i < declarations.push(declaration).len() implies crate::logic::ast::distinct_columns(
        (#[trigger] declarations.push(declaration)[i]).schema,
    ) by {
        if i < declarations.len() {
            assert(declarations.push(declaration)[i] == declarations[i]);
        }
    }
}

/// Collects the declarations and the clauses of a program.
pub struct ProgramBuilder {
    declarations: Vec<Declaration>,
    clauses: Vec<Clause>,
}

impl View for ProgramBuilder {
    type V = ProgramView;

    closed spec fn view(&self) -> ProgramView {
        ProgramView { declarations: views(self.declarations@), clauses: views(self.clauses@) }
    }
}

/// Where the terms up to one fail, all of them fail in the same way.
proof fn lemma_check_terms_fail(
    terms: Seq<TermBuilderView>,
    upto: int,
    declarations: Seq<DeclarationView>,
)
    requires
        0 <= upto < terms.len(),
        check_terms(terms.take(upto + 1), declarations) is Err,
    ensures
        check_terms(terms, declarations) == check_terms(terms.take(upto + 1), declarations),
    decreases terms.len(),
{
    if upto + 1 < terms.len() {
        assert(terms.drop_last().take(upto + 1) =~= terms.take(upto + 1));
        lemma_check_terms_fail(terms.drop_last(), upto, declarations);
    } else {
        assert(terms.take(upto + 1) =~= terms);
    }
}

/// Where the head bindings up to one have a fault, all of them have it.
proof fn lemma_head_fault(
    bindings: Seq<ColBindingView>,
    upto: int,
    head: DeclarationView,
    types: Map<Seq<char>, ColType>,
)
    requires
        0 <= upto < bindings.len(),
        head_fault(bindings.take(upto + 1), head, types).is_some(),
    ensures
        head_fault(bindings, head, types) == head_fault(bindings.take(upto + 1), head, types),
    decreases bindings.len(),
{
    if upto + 1 < bindings.len() {
        assert(bindings.drop_last().take(upto + 1) =~= bindings.take(upto + 1));
        lemma_head_fault(bindings.drop_last(), upto, head, types);
    } else {
        assert(bindings.take(upto + 1) =~= bindings);
    }
}

impl ProgramBuilder {
    /// A builder without declarations and clauses.
    pub fn new() -> (b: ProgramBuilder)
        ensures
            b@ == (ProgramView { declarations: seq![], clauses: seq![] }),
    {
        let b = ProgramBuilder { declarations: Vec::new(), clauses: Vec::new() };
        assert(b@.declarations =~= seq![]);
        assert(b@.clauses =~= seq![]);
        b
    }

    /// The index of the declaration of the relation `id`, if there is one.
    fn find(&self, id: &RelationId) -> (r: Option<usize>)
        ensures
            r matches Some(i) ==> find_declaration(self@.declarations, id@) == Some(i as int) && i
                < self.declarations.len(),
            r.is_none() ==> find_declaration(self@.declarations, id@).is_none(),
    {
        let mut i: usize = 0;
        let ghost all = self@.declarations;
        assert(all.skip(0) =~= all);
        while i < self.declarations.len()
            invariant
                i <= self.declarations.len(),
                all == views(self.declarations@),
                find_declaration(all, id@) == (match find_declaration(all.skip(i as int), id@) {
                    Some(k) => Some(k + i),
                    None => None,
                }),
            decreases self.declarations.len() - i,
        {
            proof {
                let rest = all.skip(i as int);
                assert(rest[0] == self.declarations@[i as int]@);
                assert(rest.drop_first() =~= all.skip(i + 1));
            }
            if self.declarations[i].id.same(id) {
                return Some(i);
            }
            i += 1;
        }
        None
    }

    /// Declares a relation. Fails with an internal error, and declares
    /// nothing, where a relation of that name is declared or two columns of
    /// the schema have one name.
    fn declare(&mut self, name: &str, source: Source, schema: Vec<Column>) -> (r: Result<
        (),
        Error,
    >)
        ensures
            r is Ok <==> declarable(old(self)@.declarations, name@, views(schema@)),
            r is Ok ==> final(self)@ == (ProgramView {
                declarations: old(self)@.declarations.push(
                    DeclarationView { id: name@, source, schema: views(schema@) },
                ),
                ..old(self)@
            }),
            r matches Err(e) ==> e@ == ErrorView::InternalError && final(self)@ == old(self)@,
    {
        if !crate::logic::ast::has_distinct_columns(&schema) {
            return Err(Error::internal("two columns have one name"));
        }
        let declaration = Declaration::new(name, source, schema);
        if self.find(&declaration.id).is_some() {
            return Err(Error::internal("relation is declared twice"));
        }
        let ghost before = self@.declarations;
        self.declarations.push(declaration);
        assert(self@.declarations =~= before.push(self.declarations@.last()@));
        Ok(())
    }

    /// Declares an input relation. Fails with an internal error, and
    /// declares nothing, where a relation of that name is declared or two
    /// columns of the schema have one name.
    pub fn input(&mut self, name: &str, schema: Vec<Column>) -> (r: Result<(), Error>)
        ensures
            r is Ok <==> declarable(old(self)@.declarations, name@, views(schema@)),
            r is Ok ==> final(self)@ == (ProgramView {
                declarations: old(self)@.declarations.push(
                    DeclarationView { id: name@, source: Source::Edb, schema: views(schema@) },
                ),
                ..old(self)@
            }),
            r matches Err(e) ==> e@ == ErrorView::InternalError && final(self)@ == old(self)@,
    {
        self.declare(name, Source::Edb, schema)
    }

    /// Declares a derived relation. Fails with an internal error, and
    /// declares nothing, where a relation of that name is declared or two
    /// columns of the schema have one name.
    pub fn output(&mut self, name: &str, schema: Vec<Column>) -> (r: Result<(), Error>)
        ensures
            r is Ok <==> declarable(old(self)@.declarations, name@, views(schema@)),
            r is Ok ==> final(self)@ == (ProgramView {
                declarations: old(self)@.declarations.push(
                    DeclarationView { id: name@, source: Source::Idb, schema: views(schema@) },
                ),
                ..old(self)@
            }),
            r matches Err(e) ==> e@ == ErrorView::InternalError && final(self)@ == old(self)@,
    {
        self.declare(name, Source::Idb, schema)
    }

    /// Adds a fact of a declared derived relation, after the clauses that
    /// are there. After an error the builder is as it was.
    pub fn fact(&mut self, head: &str, args: Vec<FactArg>) -> (r: Result<(), Error>)
        ensures
            r is Ok ==> built_fact(old(self)@.declarations, head@, views(args@)) is Ok && final(self)@ == (ProgramView {
                clauses: old(self)@.clauses.push(
                    ClauseView::Fact(
                        built_fact(old(self)@.declarations, head@, views(args@))->Ok_0,
                    ),
                ),
                ..old(self)@
            }),
            r matches Err(e) ==> built_fact(old(self)@.declarations, head@, views(args@)) == Err::<
                FactView,
                ErrorView,
            >(e@) && final(self)@ == old(self)@,
    {
        let fact = Fact::new(head, args);
        let index = match self.find(&fact.head) {
            Some(index) => index,
            None => {
                return Err(Error::internal("relation is not declared"));
            },
        };
        if matches!(self.declarations[index].source, Source::Edb) {
            return Err(Error::internal("an input relation cannot be the head of a clause"));
        }
        let ghost wanted = fact_bindings(fact@.args);
        let mut bindings: Vec<ColBinding> = Vec::new();
        let mut i: usize = 0;
        while i < fact.args.len()
            invariant
                i <= fact.args.len(),
                wanted == fact_bindings(fact@.args),
                views(bindings@) =~= wanted.take(i as int),
            decreases fact.args.len() - i,
        {
            let ghost before = views(bindings@);
            assert(fact@.args[i as int] == fact.args@[i as int]@);
            bindings.push(
                ColBinding {
                    col: fact.args[i].col.clone(),
                    val: ColVal::Lit(fact.args[i].value.clone()),
                },
            );
            proof {
                assert(views(bindings@) =~= before.push(wanted[i as int]));
                assert(wanted.take(i + 1) =~= wanted.take(i as int).push(wanted[i as int]));
            }
            i += 1;
        }
        assert(wanted.take(i as int) =~= wanted);
        let negation = NegationBuilder { bindings };
        let mut types = VarTypes::new();
        match negation.finalize(&self.declarations[index], &mut types) {
            Ok(_) => {},
            Err(e) => {
                return Err(e);
            },
        }
        let ghost before = self@.clauses;
        self.clauses.push(Clause::Fact(fact));
        assert(self@.clauses =~= before.push(self.clauses@.last()@));
        Ok(())
    }

    /// Checks the bindings of a head against its declaration and the types
    /// inferred from the body.
    fn check_head(args: &Vec<ColBinding>, head: &Declaration, types: &VarTypes) -> (r: Result<
        (),
        Error,
    >)
        ensures
            r is Ok ==> head_fault(views(args@), head@, types@).is_none(),
            r matches Err(e) ==> head_fault(views(args@), head@, types@) == Some(e@),
    {
        let ghost all = views(args@);
        let mut i: usize = 0;
        assert(all.take(0) =~= seq![]);
        while i < args.len()
            invariant
                i <= args.len(),
                all == views(args@),
                head_fault(all.take(i as int), head@, types@).is_none(),
            decreases args.len() - i,
        {
            let binding = &args[i];
            proof {
                assert(all.take(i + 1).drop_last() =~= all.take(i as int));
                assert(all.take(i + 1).last() == binding@);
                col_index_sound(head@.schema, binding@.col);
            }
            let fault = Self::head_binding(args, i, head, types);
            match fault {
                Some(e) => {
                    proof {
                        lemma_head_fault(all, i as int, head@, types@);
                    }
                    return Err(e);
                },
                None => {},
            }
            i += 1;
        }
        assert(all.take(i as int) =~= all);
        Ok(())
    }

    /// What is wrong with the binding `index` of a head, if anything.
    fn head_binding(args: &Vec<ColBinding>, index: usize, head: &Declaration, types: &VarTypes) -> (r:
        Option<Error>)
        requires
            index < args.len(),
        ensures
            r.is_some() == head_binding_fault(
                views(args@).take(index as int),
                views(args@)[index as int],
                head@,
                types@,
            ).is_some(),
            r matches Some(e) ==> head_binding_fault(
                views(args@).take(index as int),
                views(args@)[index as int],
                head@,
                types@,
            ) == Some(e@),
    {
        let binding = &args[index];
        assert(views(args@)[index as int] == binding@);
        proof {
            col_index_sound(head@.schema, binding@.col);
        }
        let column = match head.get_col(&binding.col) {
            Some(column) => column,
            None => {
                return Some(Error::RuleUnknownColumn(head.id.clone(), binding.col.clone()));
            },
        };
        if crate::logic::builder::bound_before(args, index, &binding.col) {
            return Some(Error::ConflictingColumnBinding(head.id.clone(), binding.col.clone()));
        }
        let typ = column.typ;
        match &binding.val {
            ColVal::Lit(v) => {
                if typ.check(v).is_err() {
                    return Some(
                        Error::ColumnValueTypeConflict(
                            head.id.clone(),
                            binding.col.clone(),
                            binding.val.clone(),
                            typ,
                        ),
                    );
                }
                None
            },
            ColVal::Binding(var) => match types.get(&var.id) {
                Some(inferred) => {
                    if inferred.unify(&typ).is_err() {
                        return Some(
                            Error::ColumnValueTypeConflict(
                                head.id.clone(),
                                binding.col.clone(),
                                binding.val.clone(),
                                typ,
                            ),
                        );
                    }
                    None
                },
                None => Some(Error::UnboundVariable(var.id.clone())),
            },
        }
    }

    /// Checks the terms of a body, in order, and gives the body.
    fn check_body(&self, terms: Vec<TermBuilder>, types: &mut VarTypes) -> (r: Result<
        Vec<BodyTerm>,
        Error,
    >)
        requires
            old(types)@ == Map::<Seq<char>, ColType>::empty(),
        ensures
            r matches Ok(body) ==> check_terms(views(terms@), self@.declarations) == Ok::<
                (Seq<BodyTermView>, Map<Seq<char>, ColType>),
                ErrorView,
            >((views(body@), final(types)@)),
            r matches Err(e) ==> check_terms(views(terms@), self@.declarations) == Err::<
                (Seq<BodyTermView>, Map<Seq<char>, ColType>),
                ErrorView,
            >(e@),
    {
        let ghost all = views(terms@);
        let ghost declared = self@.declarations;
        let mut queue = terms;
        let mut body: Vec<BodyTerm> = Vec::new();
        let ghost mut done: int = 0;
        assert(all.take(0) =~= seq![]);
        assert(all.skip(0) =~= all);
        assert(views(body@) =~= seq![]);
        while queue.len() > 0
            invariant
                0 <= done <= all.len(),
                all == views(terms@),
                declared == self@.declarations,
                views(queue@) == all.skip(done),
                check_terms(all.take(done), declared) == Ok::<
                    (Seq<BodyTermView>, Map<Seq<char>, ColType>),
                    ErrorView,
                >((views(body@), types@)),
            decreases queue.len(),
        {
            let ghost rest = views(queue@);
            let ghost waiting = queue@;
            let term = queue.remove(0);
            proof {
                assert(rest.len() == all.len() - done);
                assert(rest[0] == waiting[0]@);
                assert(all[done] == term@);
                assert(views(queue@) =~= rest.skip(1));
                assert(rest.skip(1) =~= all.skip(done + 1));
                assert(all.take(done + 1).drop_last() =~= all.take(done));
                assert(all.take(done + 1).last() == term@);
            }
            let ghost before = views(body@);
            let ghost viewed = term@;
            let ghost had = types@;
            let checked = match term {
                TermBuilder::Search { relation, builder } => match self.find(&relation) {
                    Some(index) => {
                        proof {
                            find_declaration_sound(declared, relation@);
                            assert(declared[index as int] == self.declarations@[index as int]@);
                        }
                        match builder.finalize(&self.declarations[index], types) {
                            Ok(p) => Ok(BodyTerm::Predicate(p)),
                            Err(e) => Err(e),
                        }
                    },
                    None => Err(Error::internal("relation is not declared")),
                },
                TermBuilder::Except { relation, builder } => match self.find(&relation) {
                    Some(index) => {
                        proof {
                            find_declaration_sound(declared, relation@);
                            assert(declared[index as int] == self.declarations@[index as int]@);
                        }
                        match builder.finalize(&self.declarations[index], types) {
                            Ok(n) => Ok(BodyTerm::Negation(n)),
                            Err(e) => Err(e),
                        }
                    },
                    None => Err(Error::internal("relation is not declared")),
                },
                TermBuilder::GroupBy { relation, builder } => match self.find(&relation) {
                    Some(index) => {
                        proof {
                            find_declaration_sound(declared, relation@);
                            assert(declared[index as int] == self.declarations@[index as int]@);
                        }
                        match builder.finalize(&self.declarations[index], types) {
                            Ok(a) => Ok(BodyTerm::Aggregation(a)),
                            Err(e) => Err(e),
                        }
                    },
                    None => Err(Error::internal("relation is not declared")),
                },
            };
            match checked {
                Ok(term) => {
                    assert(check_term(viewed, declared, had) == Ok::<
                        (BodyTermView, Map<Seq<char>, ColType>),
                        ErrorView,
                    >((term@, types@)));
                    body.push(term);
                    assert(views(body@) =~= before.push(body@.last()@));
                },
                Err(e) => {
                    proof {
                        assert(check_term(viewed, declared, had) == Err::<
                            (BodyTermView, Map<Seq<char>, ColType>),
                            ErrorView,
                        >(e@));
                        lemma_check_terms_fail(all, done, declared);
                    }
                    return Err(e);
                },
            }
            proof {
                done = done + 1;
            }
        }
        assert(all.take(done) =~= all);
        Ok(body)
    }

    /// Adds a rule of a declared derived relation, after the clauses that
    /// are there: checks the terms of the body in order, the bindings of the
    /// head, and the rule as a whole. After an error the builder is as it
    /// was.
    pub fn rule(&mut self, head: &str, args: Vec<ColBinding>, body: Vec<TermBuilder>) -> (r:
        Result<(), Error>)
        ensures
            r is Ok ==> built_rule(old(self)@.declarations, head@, views(args@), views(body@))
                is Ok && final(self)@ == (ProgramView {
                clauses: old(self)@.clauses.push(
                    ClauseView::Rule(
                        built_rule(
                            old(self)@.declarations,
                            head@,
                            views(args@),
                            views(body@),
                        )->Ok_0,
                    ),
                ),
                ..old(self)@
            }),
            r matches Err(e) ==> built_rule(
                old(self)@.declarations,
                head@,
                views(args@),
                views(body@),
            ) == Err::<RuleView, ErrorView>(e@) && final(self)@ == old(self)@,
    {
        let id = RelationId::new(head);
        let index = match self.find(&id) {
            Some(index) => index,
            None => {
                return Err(Error::internal("relation is not declared"));
            },
        };
        if matches!(self.declarations[index].source, Source::Edb) {
            return Err(Error::internal("an input relation cannot be the head of a clause"));
        }
        let mut types = VarTypes::new();
        let terms = match self.check_body(body, &mut types) {
            Ok(terms) => terms,
            Err(e) => {
                return Err(e);
            },
        };
        match Self::check_head(&args, &self.declarations[index], &types) {
            Ok(()) => {},
            Err(e) => {
                return Err(e);
            },
        }
        let rule = match Rule::new(head, args, terms) {
            Ok(rule) => rule,
            Err(e) => {
                return Err(e);
            },
        };
        let ghost before = self@.clauses;
        self.clauses.push(Clause::Rule(rule));
        assert(self@.clauses =~= before.push(self.clauses@.last()@));
        Ok(())
    }

    /// The program that was collected.
    pub fn program(self) -> (p: Program)
        ensures
            p@ == self@,
    {
        Program::new(self.declarations, self.clauses)
    }

    /// Compiles the program that was collected: stratifies it and lowers
    /// its strata. Fails with `ProgramUnstratifiable` exactly when the
    /// program recurses through negation or aggregation.
    pub fn build(self) -> (r: Result<crate::ram::Program, Error>)
        ensures
            crate::logic::graph::dependency_graph(self@.clauses) matches Some(graph) ==> {
                let components = crate::logic::graph::kosaraju_components(
                    graph.nodes.len(),
                    graph.edges,
                );
                let strata = crate::logic::stratify::strata_of(self@.clauses, graph, components);
                &&& crate::logic::stratify::has_negative_cycle(graph.edges) ==> (r matches Err(e)
                    && e@ == ErrorView::ProgramUnstratifiable)
                &&& !crate::logic::stratify::has_negative_cycle(graph.edges) ==> {
                    &&& r matches Ok(lowered) ==> crate::logic::lower_to_ram::lower_program(
                        self@,
                        strata,
                    ) == Ok::<crate::ram::ProgramView, ErrorView>(lowered@)
                    &&& r matches Err(e) ==> crate::logic::lower_to_ram::lower_program(
                        self@,
                        strata,
                    ) == Err::<crate::ram::ProgramView, ErrorView>(e@)
                }
            },
            crate::logic::graph::dependency_graph(self@.clauses).is_none() ==> (r matches Err(e)
                && e@ == ErrorView::InternalError),
    {
        let program = self.program();
        crate::logic::lower_to_ram::lower_to_ram(&program)
    }
}

} // verus!
