//! Lowering of a stratified program to relational algebra, with the
//! semi-naive rewrites of recursive rules.

use vstd::prelude::*;
use crate::error::{Error, ErrorView};
use crate::id::{AliasId, ColId, RelationId, VarId};
use crate::logic::ast::{
    opt_value_view, term_relation, Aggregation, BodyTerm, BodyTermView, CidValue, CidValueView,
    Fact, FactArgView, FactView, Negation, Predicate, Reducer, Rule, RuleView, Stratum,
    StratumView,
};
use crate::ram::{
    operation_view, Attr, AttrView, Formula, FormulaView, Operation, OperationView, Relation,
    statement_views, RelationView, Statement, StatementView, Term, TermView, Version,
};
use crate::value::{views, Value, ValueView};
use crate::var::{ColBinding, ColBindingView, ColVal, ColValView, Var, VarView};

verus! {

/// The statement that a fact lowers to: the ground insertion of its tuple
/// into the given version of its relation.
pub open spec fn fact_statement(fact: FactView, version: Version) -> StatementView {
    StatementView::Insert {
        operation: OperationView::Project {
            attributes: fact.args.map_values(
                |a: FactArgView| AttrView { col: a.col, term: TermView::Literal(a.value) },
            ),
            into: RelationView { id: fact.head, version },
        },
        is_ground: true,
    }
}

/// Lowers a fact to the ground insertion of its tuple into `version` of its
/// relation.
pub fn lower_fact_to_ram(fact: &Fact, version: Version) -> (r: Result<Statement, Error>)
    ensures
        r matches Ok(s) && s@ == fact_statement(fact@, version),
{
    let mut attributes: Vec<Attr> = Vec::new();
    let mut i: usize = 0;
    let ghost want = fact_statement(fact@, version)->Insert_operation->Project_attributes;
    while i < fact.args.len()
        invariant
            i <= fact.args.len(),
            want == fact@.args.map_values(
                |a: FactArgView| AttrView { col: a.col, term: TermView::Literal(a.value) },
            ),
            views(attributes@) =~= want.take(i as int),
        decreases fact.args.len() - i,
    {
        let arg = &fact.args[i];
        proof {
            assert(fact@.args[i as int] == arg@);
            assert(want.take(i + 1) =~= want.take(i as int).push(want[i as int]));
        }
        attributes.push(Attr { col: arg.col.clone(), term: Term::Literal(arg.value.clone()) });
        i += 1;
    }
    assert(want.take(i as int) =~= want);
    Ok(
        Statement::Insert {
            operation: Operation::Project {
                attributes,
                into: Relation::new(fact.head.clone(), version),
            },
            is_ground: true,
        },
    )
}

/// A variable of a rule together with the term that stands for it.
pub struct BoundVar {
    pub var: VarId,
    pub term: Term,
}

/// The mathematical content of a [`BoundVar`].
pub struct BoundVarView {
    pub var: Seq<char>,
    pub term: TermView,
}

impl View for BoundVar {
    type V = BoundVarView;

    open spec fn view(&self) -> BoundVarView {
        BoundVarView { var: self.var@, term: self.term@ }
    }
}

/// The term that `bindings` holds for `var`: that of the last entry for it.
pub open spec fn lookup(bindings: Seq<BoundVarView>, var: Seq<char>) -> Option<TermView>
    decreases bindings.len(),
{
    if bindings.len() == 0 {
        None
    } else if bindings.last().var == var {
        Some(bindings.last().term)
    } else {
        lookup(bindings.drop_last(), var)
    }
}

/// The number of positive terms (predicates and aggregations) of `body` that
/// read `relation`.
pub open spec fn occurrences(body: Seq<BodyTermView>, relation: Seq<char>) -> nat
    decreases body.len(),
{
    if body.len() == 0 {
        0
    } else {
        let rest = occurrences(body.drop_last(), relation);
        if !(body.last() is Negation) && term_relation(body.last()) == relation {
            rest + 1
        } else {
            rest
        }
    }
}

/// The alias of a term that `earlier` positive terms of the same relation
/// precede: none for the first, then 0, 1 and so on.
pub open spec fn alias_after(earlier: nat) -> Option<AliasId> {
    if earlier == 0 {
        None
    } else {
        Some(AliasId { index: (earlier - 1) as usize })
    }
}

/// `bindings`, extended by the variable of `cid` where it is a variable that
/// is not bound yet: it stands for the content identifier of the tuple.
pub open spec fn bind_cid(
    bindings: Seq<BoundVarView>,
    cid: Option<CidValueView>,
    relation: Seq<char>,
    alias: Option<AliasId>,
) -> Seq<BoundVarView> {
    match cid {
        Some(CidValueView::Var(v)) => if lookup(bindings, v.id).is_none() {
            bindings.push(BoundVarView { var: v.id, term: TermView::Cid { relation, alias } })
        } else {
            bindings
        },
        _ => bindings,
    }
}

/// `bindings`, extended by each variable of `args` that is not bound yet, in
/// order: it stands for the column that it is first used in.
pub open spec fn bind_args(
    bindings: Seq<BoundVarView>,
    args: Seq<ColBindingView>,
    relation: Seq<char>,
    alias: Option<AliasId>,
) -> Seq<BoundVarView>
    decreases args.len(),
{
    if args.len() == 0 {
        bindings
    } else {
        let prev = bind_args(bindings, args.drop_last(), relation, alias);
        match args.last().val {
            ColValView::Binding(v) => if lookup(prev, v.id).is_none() {
                prev.push(
                    BoundVarView {
                        var: v.id,
                        term: TermView::Attribute { col: args.last().col, relation, alias },
                    },
                )
            } else {
                prev
            },
            ColValView::Lit(_) => prev,
        }
    }
}

/// The condition that the content identifier asked of a predicate puts on
/// the tuple: equality with the given identifier, or with what its variable
/// already stands for.
pub open spec fn cid_when(
    cid: Option<CidValueView>,
    relation: Seq<char>,
    alias: Option<AliasId>,
    bindings: Seq<BoundVarView>,
) -> Seq<FormulaView> {
    let own = TermView::Cid { relation, alias };
    match cid {
        Some(CidValueView::Cid(c)) => seq![
            FormulaView::Equality(own, TermView::Literal(ValueView::Cid(c))),
        ],
        Some(CidValueView::Var(v)) => match lookup(bindings, v.id) {
            Some(t) => if t != own {
                seq![FormulaView::Equality(own, t)]
            } else {
                seq![]
            },
            None => seq![],
        },
        None => seq![],
    }
}

/// The conditions that the columns of a predicate put on the tuple, in
/// order: equality with each literal, and with what each variable stands for
/// unless it stands for that very column.
pub open spec fn args_when(
    args: Seq<ColBindingView>,
    relation: Seq<char>,
    alias: Option<AliasId>,
    bindings: Seq<BoundVarView>,
) -> Seq<FormulaView>
    decreases args.len(),
{
    if args.len() == 0 {
        seq![]
    } else {
        let prev = args_when(args.drop_last(), relation, alias, bindings);
        let own = TermView::Attribute { col: args.last().col, relation, alias };
        match args.last().val {
            ColValView::Lit(v) => prev.push(FormulaView::Equality(own, TermView::Literal(v))),
            ColValView::Binding(v) => match lookup(bindings, v.id) {
                Some(t) => if t != own {
                    prev.push(FormulaView::Equality(own, t))
                } else {
                    prev
                },
                None => prev,
            },
        }
    }
}

/// The key of an aggregation: each column of `group_by` that is bound to a
/// literal or to a variable that `bindings` already holds. A variable that
/// is not bound yet names its column inside the aggregation and is no part
/// of the key.
pub open spec fn group_key(group_by: Seq<ColBindingView>, bindings: Seq<BoundVarView>) -> Seq<
    AttrView,
>
    decreases group_by.len(),
{
    if group_by.len() == 0 {
        seq![]
    } else {
        let prev = group_key(group_by.drop_last(), bindings);
        match group_by.last().val {
            ColValView::Lit(v) => prev.push(
                AttrView { col: group_by.last().col, term: TermView::Literal(v) },
            ),
            ColValView::Binding(v) => match lookup(bindings, v.id) {
                Some(t) => prev.push(AttrView { col: group_by.last().col, term: t }),
                None => prev,
            },
        }
    }
}

/// The column that `group_by` names `var` for: the last one bound to it.
pub open spec fn local_col(group_by: Seq<ColBindingView>, var: Seq<char>) -> Option<Seq<char>>
    decreases group_by.len(),
{
    if group_by.len() == 0 {
        None
    } else {
        match group_by.last().val {
            ColValView::Binding(v) => if v.id == var {
                Some(group_by.last().col)
            } else {
                local_col(group_by.drop_last(), var)
            },
            ColValView::Lit(_) => local_col(group_by.drop_last(), var),
        }
    }
}

/// The term of one argument of a reducer: what `bindings` holds for the
/// variable, else the column of the aggregated relation that `group_by`
/// names it for. `None` where it is neither.
pub open spec fn agg_arg(
    var: Seq<char>,
    group_by: Seq<ColBindingView>,
    relation: Seq<char>,
    alias: Option<AliasId>,
    bindings: Seq<BoundVarView>,
) -> Option<TermView> {
    match lookup(bindings, var) {
        Some(t) => Some(t),
        None => match local_col(group_by, var) {
            Some(col) => Some(TermView::Attribute { col, relation, alias }),
            None => None,
        },
    }
}

/// The terms of the arguments of a reducer, in order; `None` where one of
/// them has none.
pub open spec fn agg_args(
    args: Seq<VarView>,
    group_by: Seq<ColBindingView>,
    relation: Seq<char>,
    alias: Option<AliasId>,
    bindings: Seq<BoundVarView>,
) -> Option<Seq<TermView>>
    decreases args.len(),
{
    if args.len() == 0 {
        Some(seq![])
    } else {
        match agg_args(args.drop_last(), group_by, relation, alias, bindings) {
            Some(prev) => match agg_arg(args.last().id, group_by, relation, alias, bindings) {
                Some(t) => Some(prev.push(t)),
                None => None,
            },
            None => None,
        }
    }
}

/// What one positive term of a body becomes: a search or an aggregation,
/// complete but for the version that a search reads and for the operation
/// nested in it.
pub enum TermMetadata {
    Search { id: RelationId, alias: Option<AliasId>, by_cid: bool, when: Vec<Formula>, is_dynamic: bool },
    Aggregation {
        id: RelationId,
        alias: Option<AliasId>,
        when: Vec<Formula>,
        group_by_cols: Vec<Attr>,
        args: Vec<Term>,
        init: Option<Value>,
        target: Var,
        reducer: Reducer,
    },
}

/// The mathematical content of a [`TermMetadata`].
pub enum TermMetadataView {
    Search {
        id: Seq<char>,
        alias: Option<AliasId>,
        by_cid: bool,
        when: Seq<FormulaView>,
        is_dynamic: bool,
    },
    Aggregation {
        id: Seq<char>,
        alias: Option<AliasId>,
        when: Seq<FormulaView>,
        group_by_cols: Seq<AttrView>,
        args: Seq<TermView>,
        init: Option<ValueView>,
        target: VarView,
        reducer: Reducer,
    },
}

impl View for TermMetadata {
    type V = TermMetadataView;

    open spec fn view(&self) -> TermMetadataView {
        match self {
            TermMetadata::Search { id, alias, by_cid, when, is_dynamic } => TermMetadataView::Search {
                id: id@,
                alias: *alias,
                by_cid: *by_cid,
                when: views(when@),
                is_dynamic: *is_dynamic,
            },
            TermMetadata::Aggregation {
                id,
                alias,
                when,
                group_by_cols,
                args,
                init,
                target,
                reducer,
            } => TermMetadataView::Aggregation {
                id: id@,
                alias: *alias,
                when: views(when@),
                group_by_cols: views(group_by_cols@),
                args: views(args@),
                init: opt_value_view(*init),
                target: target@,
                reducer: *reducer,
            },
        }
    }
}

/// Whether the term is a search of a relation that changes while its
/// stratum is evaluated.
pub open spec fn is_dynamic(meta: TermMetadataView) -> bool {
    meta matches TermMetadataView::Search { is_dynamic, .. } && is_dynamic
}

/// The number of dynamic searches among `metas`.
pub open spec fn count_dynamic(metas: Seq<TermMetadataView>) -> nat
    decreases metas.len(),
{
    if metas.len() == 0 {
        0
    } else {
        count_dynamic(metas.drop_first()) + if is_dynamic(metas[0]) {
            1nat
        } else {
            0nat
        }
    }
}

/// The positive terms of a body as they are lowered, and what its variables
/// stand for.
pub struct Analysis {
    pub metas: Seq<TermMetadataView>,
    pub bindings: Seq<BoundVarView>,
}

/// The analysis of a body extended by one term.
pub open spec fn analyse_term(
    prev: Analysis,
    before: Seq<BodyTermView>,
    term: BodyTermView,
    stratum: StratumView,
) -> Option<Analysis> {
    let alias = alias_after(occurrences(before, term_relation(term)));
    match term {
        BodyTermView::Predicate(p) => {
            let bindings = bind_args(bind_cid(prev.bindings, p.cid, p.id, alias), p.args, p.id, alias);
            Some(
                Analysis {
                    metas: prev.metas.push(
                        TermMetadataView::Search {
                            id: p.id,
                            alias,
                            by_cid: p.cid.is_some(),
                            when: cid_when(p.cid, p.id, alias, bindings) + args_when(
                                p.args,
                                p.id,
                                alias,
                                bindings,
                            ),
                            is_dynamic: stratum.is_recursive && stratum.relations.contains(p.id),
                        },
                    ),
                    bindings,
                },
            )
        },
        BodyTermView::Negation(n) => if attrs_of(n.args, prev.bindings) is Ok {
            Some(prev)
        } else {
            None
        },
        BodyTermView::Aggregation(g) => match agg_args(
            g.args,
            g.group_by,
            g.over,
            alias,
            prev.bindings,
        ) {
            Some(args) => Some(
                Analysis {
                    metas: prev.metas.push(
                        TermMetadataView::Aggregation {
                            id: g.over,
                            alias,
                            when: seq![],
                            group_by_cols: group_key(g.group_by, prev.bindings),
                            args,
                            init: g.init,
                            target: g.target,
                            reducer: g.reducer,
                        },
                    ),
                    bindings: if lookup(prev.bindings, g.target.id).is_none() {
                        prev.bindings.push(
                            BoundVarView {
                                var: g.target.id,
                                term: TermView::Agg { relation: g.over, alias, var: g.target },
                            },
                        )
                    } else {
                        prev.bindings
                    },
                },
            ),
            None => None,
        },
    }
}

/// The analysis of a body: its positive terms in order, each with its alias
/// and its conditions, and the term that each variable stands for. `None`
/// where a variable of a negation or an argument of a reducer stands for
/// nothing at the place of its term.
pub open spec fn analyse(body: Seq<BodyTermView>, stratum: StratumView) -> Option<Analysis>
    decreases body.len(),
{
    if body.len() == 0 {
        Some(Analysis { metas: seq![], bindings: seq![] })
    } else {
        match analyse(body.drop_last(), stratum) {
            Some(prev) => analyse_term(prev, body.drop_last(), body.last(), stratum),
            None => None,
        }
    }
}

/// The attributes that the columns `args` of a negation or of a head are
/// made of: each literal, and what each variable stands for. `Err` names the
/// first variable that stands for nothing.
pub open spec fn attrs_of(args: Seq<ColBindingView>, bindings: Seq<BoundVarView>) -> Result<
    Seq<AttrView>,
    Seq<char>,
>
    decreases args.len(),
{
    if args.len() == 0 {
        Ok(seq![])
    } else {
        match attrs_of(args.drop_last(), bindings) {
            Ok(prev) => match args.last().val {
                ColValView::Lit(v) => Ok(
                    prev.push(AttrView { col: args.last().col, term: TermView::Literal(v) }),
                ),
                ColValView::Binding(v) => match lookup(bindings, v.id) {
                    Some(t) => Ok(prev.push(AttrView { col: args.last().col, term: t })),
                    None => Err(v.id),
                },
            },
            Err(v) => Err(v),
        }
    }
}

/// The conditions that the negations of `body` lower to, in order: that no
/// tuple of the negated relation, in its `Total` version, has the values of
/// the negation's columns. `None` where a variable of a negation stands for
/// nothing.
pub open spec fn negations_when(body: Seq<BodyTermView>, bindings: Seq<BoundVarView>) -> Option<
    Seq<FormulaView>,
>
    decreases body.len(),
{
    if body.len() == 0 {
        Some(seq![])
    } else {
        match negations_when(body.drop_last(), bindings) {
            Some(prev) => match body.last() {
                BodyTermView::Negation(n) => match attrs_of(n.args, bindings) {
                    Ok(attributes) => Some(
                        prev.push(
                            FormulaView::NotIn {
                                attributes,
                                relation: RelationView { id: n.id, version: Version::Total },
                            },
                        ),
                    ),
                    Err(_) => None,
                },
                _ => Some(prev),
            },
            None => None,
        }
    }
}

/// `meta` with `extra` added at the end of its conditions.
pub open spec fn with_conditions(meta: TermMetadataView, extra: Seq<FormulaView>) -> TermMetadataView {
    match meta {
        TermMetadataView::Search { id, alias, by_cid, when, is_dynamic } => TermMetadataView::Search {
            id,
            alias,
            by_cid,
            when: when + extra,
            is_dynamic,
        },
        TermMetadataView::Aggregation {
            id,
            alias,
            when,
            group_by_cols,
            args,
            init,
            target,
            reducer,
        } => TermMetadataView::Aggregation {
            id,
            alias,
            when: when + extra,
            group_by_cols,
            args,
            init,
            target,
            reducer,
        },
    }
}

/// `count` halved `times` times.
pub open spec fn halved(count: nat, times: nat) -> nat
    decreases times,
{
    if times == 0 {
        count
    } else {
        halved(count, (times - 1) as nat) / 2
    }
}

/// Bit `index` of `mask`.
pub open spec fn mask_bit(mask: nat, index: nat) -> bool {
    halved(mask, index) % 2 == 1
}

/// Two to the power `exponent`.
pub open spec fn pow2(exponent: nat) -> nat
    decreases exponent,
{
    if exponent == 0 {
        1
    } else {
        2 * pow2((exponent - 1) as nat)
    }
}

/// `inner` with the term `meta` around it. A dynamic search reads `Delta`
/// where `delta` is set; every other search and every aggregation reads
/// `Total`.
pub open spec fn wrap(meta: TermMetadataView, delta: bool, inner: OperationView) -> OperationView {
    match meta {
        TermMetadataView::Search { id, alias, by_cid, when, is_dynamic } => OperationView::Search {
            relation: RelationView {
                id,
                version: if is_dynamic && delta {
                    Version::Delta
                } else {
                    Version::Total
                },
            },
            alias,
            by_cid,
            when,
            operation: Box::new(inner),
        },
        TermMetadataView::Aggregation {
            id,
            alias,
            when,
            group_by_cols,
            args,
            init,
            target,
            reducer,
        } => OperationView::Aggregation {
            relation: RelationView { id, version: Version::Total },
            alias,
            when,
            group_by_cols,
            args,
            init,
            target,
            reducer,
            operation: Box::new(inner),
        },
    }
}

/// The rewrite of a rule under `mask`: the terms `metas` nested from the
/// first, outermost, to the last, around `core`. The dynamic searches are
/// numbered from the innermost, which is 0, outwards, and the search of
/// number `i` reads `Delta` where bit `i` of `mask` is set.
pub open spec fn rewrite(metas: Seq<TermMetadataView>, core: OperationView, mask: nat) -> OperationView
    decreases metas.len(),
{
    if metas.len() == 0 {
        core
    } else {
        wrap(
            metas[0],
            mask_bit(mask, count_dynamic(metas.drop_first())),
            rewrite(metas.drop_first(), core, mask),
        )
    }
}

/// The number of rewrites of a rule with `dynamic` dynamic searches: one for
/// each non-empty set of them, and one where there is none.
pub open spec fn rewrite_count(dynamic: nat) -> nat {
    if dynamic == 0 {
        1
    } else {
        (pow2(dynamic) - 1) as nat
    }
}

/// What a rule lowers to.
pub open spec fn lower_rule(rule: RuleView, stratum: StratumView, version: Version) -> Result<
    Seq<StatementView>,
    ErrorView,
> {
    match analyse(rule.body, stratum) {
        None => Err(ErrorView::ClauseNotRangeRestricted(rule.head)),
        Some(analysis) => match negations_when(rule.body, analysis.bindings) {
            None => Err(ErrorView::ClauseNotRangeRestricted(rule.head)),
            Some(negations) => if analysis.metas.len() == 0 && negations.len() > 0 {
                Err(ErrorView::ClauseNotRangeRestricted(rule.head))
            } else {
                match attrs_of(rule.args, analysis.bindings) {
                    Err(v) => Err(ErrorView::UnboundVariable(v)),
                    Ok(attributes) => {
                        let dynamic = count_dynamic(analysis.metas);
                        if pow2(dynamic) > usize::MAX {
                            Err(ErrorView::InternalError)
                        } else {
                            let metas = if analysis.metas.len() == 0 {
                                analysis.metas
                            } else {
                                analysis.metas.drop_last().push(
                                    with_conditions(analysis.metas.last(), negations),
                                )
                            };
                            let core = OperationView::Project {
                                attributes,
                                into: RelationView { id: rule.head, version },
                            };
                            Ok(
                                Seq::new(
                                    rewrite_count(dynamic),
                                    |offset: int|
                                        StatementView::Insert {
                                            operation: rewrite(
                                                metas,
                                                core,
                                                (pow2(dynamic) - 1 - offset) as nat,
                                            ),
                                            is_ground: false,
                                        },
                                ),
                            )
                        }
                    },
                }
            },
        },
    }
}


/// The view of an optional term.
pub open spec fn opt_term_view(term: Option<&Term>) -> Option<TermView> {
    match term {
        Some(t) => Some(t@),
        None => None,
    }
}

/// The term that `bindings` holds for `var`.
pub fn lookup_term<'a>(bindings: &'a Vec<BoundVar>, var: &VarId) -> (r: Option<&'a Term>)
    ensures
        opt_term_view(r) == lookup(views(bindings@), var@),
{
    let mut i: usize = bindings.len();
    let ghost all = views(bindings@);
    assert(all.take(i as int) =~= all);
    while i > 0
        invariant
            i <= bindings.len(),
            all == views(bindings@),
            lookup(all, var@) == lookup(all.take(i as int), var@),
        decreases i,
    {
        proof {
            let prefix = all.take(i as int);
            assert(prefix.last() == bindings@[i - 1]@);
            assert(prefix.drop_last() =~= all.take(i - 1));
        }
        if bindings[i - 1].var.same(var) {
            return Some(&bindings[i - 1].term);
        }
        i -= 1;
    }
    None
}

/// The number of positive terms among the first `upto` of `body` that read
/// `relation`.
fn count_occurrences(body: &Vec<BodyTerm>, upto: usize, relation: &RelationId) -> (n: usize)
    requires
        upto <= body.len(),
    ensures
        n == occurrences(views(body@).take(upto as int), relation@),
        n <= upto,
{
    let mut n: usize = 0;
    let mut i: usize = 0;
    let ghost all = views(body@);
    while i < upto
        invariant
            i <= upto <= body.len(),
            all == views(body@),
            n == occurrences(all.take(i as int), relation@),
            n <= i,
        decreases upto - i,
    {
        proof {
            assert(all.take(i + 1).drop_last() =~= all.take(i as int));
            assert(all.take(i + 1).last() == body@[i as int]@);
        }
        let positive = match &body[i] {
            BodyTerm::Negation(_) => false,
            _ => true,
        };
        if positive && body[i].relation().same(relation) {
            n += 1;
        }
        i += 1;
    }
    n
}

/// The alias of a term that `earlier` positive terms of its relation precede.
fn alias_for(earlier: usize) -> (alias: Option<AliasId>)
    ensures
        alias == alias_after(earlier as nat),
{
    if earlier == 0 {
        None
    } else {
        Some(AliasId::new(earlier - 1))
    }
}

/// Binds the variables of a predicate that are not bound yet.
fn bind_predicate(bindings: &mut Vec<BoundVar>, predicate: &Predicate, alias: Option<AliasId>)
    ensures
        views(final(bindings)@) == bind_args(
            bind_cid(views(old(bindings)@), predicate@.cid, predicate@.id, alias),
            predicate@.args,
            predicate@.id,
            alias,
        ),
{
    if let Some(CidValue::Var(v)) = &predicate.cid {
        if lookup_term(bindings, &v.id).is_none() {
            bindings.push(
                BoundVar {
                    var: v.id.clone(),
                    term: Term::Cid { relation: predicate.id.clone(), alias },
                },
            );
            assert(views(bindings@) =~= views(old(bindings)@).push(bindings@.last()@));
        }
    }
    let ghost args = predicate@.args;
    let ghost start = views(bindings@);
    let mut i: usize = 0;
    assert(args.take(0) =~= seq![]);
    while i < predicate.args.len()
        invariant
            i <= predicate.args.len(),
            args == views(predicate.args@),
            views(bindings@) == bind_args(start, args.take(i as int), predicate@.id, alias),
        decreases predicate.args.len() - i,
    {
        let arg = &predicate.args[i];
        proof {
            assert(args.take(i + 1).drop_last() =~= args.take(i as int));
            assert(args.take(i + 1).last() == arg@);
        }
        if let ColVal::Binding(v) = &arg.val {
            if lookup_term(bindings, &v.id).is_none() {
                let ghost before = views(bindings@);
                bindings.push(
                    BoundVar {
                        var: v.id.clone(),
                        term: Term::Attribute {
                            col: arg.col.clone(),
                            relation: predicate.id.clone(),
                            alias,
                        },
                    },
                );
                assert(views(bindings@) =~= before.push(bindings@.last()@));
            }
        }
        i += 1;
    }
    assert(args.take(i as int) =~= args);
}

/// Whether two terms are the same.
pub fn same_term(a: &Term, b: &Term) -> (eq: bool)
    ensures
        eq == (a@ == b@),
{
    match (a, b) {
        (Term::Literal(x), Term::Literal(y)) => x.same(y),
        (
            Term::Attribute { col: c1, relation: r1, alias: a1 },
            Term::Attribute { col: c2, relation: r2, alias: a2 },
        ) => c1.same(c2) && r1.same(r2) && same_alias(a1, a2),
        (Term::Cid { relation: r1, alias: a1 }, Term::Cid { relation: r2, alias: a2 }) => r1.same(
            r2,
        ) && same_alias(a1, a2),
        (
            Term::Agg { relation: r1, alias: a1, var: v1 },
            Term::Agg { relation: r2, alias: a2, var: v2 },
        ) => r1.same(r2) && same_alias(a1, a2) && v1.id.same(&v2.id) && v1.typ == v2.typ,
        _ => false,
    }
}

/// Whether two aliases are the same.
pub fn same_alias(a: &Option<AliasId>, b: &Option<AliasId>) -> (eq: bool)
    ensures
        eq == (*a == *b),
{
    match (a, b) {
        (Some(x), Some(y)) => x.index == y.index,
        (None, None) => true,
        _ => false,
    }
}

/// The conditions of a predicate, once its variables are bound.
fn predicate_conditions(
    predicate: &Predicate,
    alias: Option<AliasId>,
    bindings: &Vec<BoundVar>,
) -> (when: Vec<Formula>)
    ensures
        views(when@) == cid_when(predicate@.cid, predicate@.id, alias, views(bindings@))
            + args_when(predicate@.args, predicate@.id, alias, views(bindings@)),
{
    let mut when: Vec<Formula> = Vec::new();
    let ghost bs = views(bindings@);
    match &predicate.cid {
        Some(CidValue::Cid(c)) => {
            when.push(
                Formula::Equality(
                    Term::Cid { relation: predicate.id.clone(), alias },
                    Term::Literal(Value::Cid(c.clone())),
                ),
            );
        },
        Some(CidValue::Var(v)) => {
            let own = Term::Cid { relation: predicate.id.clone(), alias };
            if let Some(t) = lookup_term(bindings, &v.id) {
                if !same_term(t, &own) {
                    when.push(Formula::Equality(own, t.clone()));
                }
            }
        },
        None => {},
    }
    let ghost from_cid = cid_when(predicate@.cid, predicate@.id, alias, bs);
    assert(views(when@) =~= from_cid);
    let ghost args = predicate@.args;
    let mut i: usize = 0;
    assert(args.take(0) =~= seq![]);
    while i < predicate.args.len()
        invariant
            i <= predicate.args.len(),
            args == views(predicate.args@),
            bs == views(bindings@),
            views(when@) =~= from_cid + args_when(args.take(i as int), predicate@.id, alias, bs),
        decreases predicate.args.len() - i,
    {
        let arg = &predicate.args[i];
        proof {
            assert(args.take(i + 1).drop_last() =~= args.take(i as int));
            assert(args.take(i + 1).last() == arg@);
        }
        let own = Term::Attribute { col: arg.col.clone(), relation: predicate.id.clone(), alias };
        let ghost before = views(when@);
        match &arg.val {
            ColVal::Lit(v) => {
                when.push(Formula::Equality(own, Term::Literal(v.clone())));
                assert(views(when@) =~= before.push(when@.last()@));
            },
            ColVal::Binding(v) => {
                if let Some(t) = lookup_term(bindings, &v.id) {
                    if !same_term(t, &own) {
                        when.push(Formula::Equality(own, t.clone()));
                        assert(views(when@) =~= before.push(when@.last()@));
                    }
                }
            },
        }
        i += 1;
    }
    assert(args.take(i as int) =~= args);
    when
}

/// The key of an aggregation.
fn group_key_of(group_by: &Vec<ColBinding>, bindings: &Vec<BoundVar>) -> (key: Vec<Attr>)
    ensures
        views(key@) == group_key(views(group_by@), views(bindings@)),
{
    let mut key: Vec<Attr> = Vec::new();
    let ghost all = views(group_by@);
    let ghost bs = views(bindings@);
    let mut i: usize = 0;
    assert(all.take(0) =~= seq![]);
    while i < group_by.len()
        invariant
            i <= group_by.len(),
            all == views(group_by@),
            bs == views(bindings@),
            views(key@) =~= group_key(all.take(i as int), bs),
        decreases group_by.len() - i,
    {
        let entry = &group_by[i];
        proof {
            assert(all.take(i + 1).drop_last() =~= all.take(i as int));
            assert(all.take(i + 1).last() == entry@);
        }
        match &entry.val {
            ColVal::Lit(v) => {
                key.push(Attr { col: entry.col.clone(), term: Term::Literal(v.clone()) });
            },
            ColVal::Binding(v) => {
                if let Some(t) = lookup_term(bindings, &v.id) {
                    key.push(Attr { col: entry.col.clone(), term: t.clone() });
                }
            },
        }
        i += 1;
    }
    assert(all.take(i as int) =~= all);
    key
}

/// The column that `group_by` names `var` for.
fn local_col_of<'a>(group_by: &'a Vec<ColBinding>, var: &VarId) -> (r: Option<&'a ColId>)
    ensures
        r.is_some() == local_col(views(group_by@), var@).is_some(),
        r matches Some(c) ==> local_col(views(group_by@), var@) == Some(c@),
{
    let mut i: usize = group_by.len();
    let ghost all = views(group_by@);
    assert(all.take(i as int) =~= all);
    while i > 0
        invariant
            i <= group_by.len(),
            all == views(group_by@),
            local_col(all, var@) == local_col(all.take(i as int), var@),
        decreases i,
    {
        proof {
            let prefix = all.take(i as int);
            assert(prefix.last() == group_by@[i - 1]@);
            assert(prefix.drop_last() =~= all.take(i - 1));
        }
        if let ColVal::Binding(v) = &group_by[i - 1].val {
            if v.id.same(var) {
                return Some(&group_by[i - 1].col);
            }
        }
        i -= 1;
    }
    None
}

/// The terms of the arguments of an aggregation's reducer.
fn agg_args_of(
    aggregation: &Aggregation,
    alias: Option<AliasId>,
    bindings: &Vec<BoundVar>,
) -> (r: Option<Vec<Term>>)
    ensures
        r.is_some() == agg_args(
            aggregation@.args,
            aggregation@.group_by,
            aggregation@.over,
            alias,
            views(bindings@),
        ).is_some(),
        r matches Some(terms) ==> Some(views(terms@)) == agg_args(
            aggregation@.args,
            aggregation@.group_by,
            aggregation@.over,
            alias,
            views(bindings@),
        ),
{
    let mut terms: Vec<Term> = Vec::new();
    let ghost all = aggregation@.args;
    let ghost bs = views(bindings@);
    let mut i: usize = 0;
    assert(all.take(0) =~= seq![]);
    assert(views(terms@) =~= seq![]);
    while i < aggregation.args.len()
        invariant
            i <= aggregation.args.len(),
            all == views(aggregation.args@),
            all == aggregation@.args,
            bs == views(bindings@),
            agg_args(all.take(i as int), aggregation@.group_by, aggregation@.over, alias, bs)
                == Some(views(terms@)),
        decreases aggregation.args.len() - i,
    {
        let var = &aggregation.args[i];
        proof {
            assert(all.take(i + 1).drop_last() =~= all.take(i as int));
            assert(all.take(i + 1).last() == var@);
        }
        let ghost before = views(terms@);
        match lookup_term(bindings, &var.id) {
            Some(t) => {
                terms.push(t.clone());
            },
            None => match local_col_of(&aggregation.group_by, &var.id) {
                Some(col) => {
                    terms.push(
                        Term::Attribute {
                            col: col.clone(),
                            relation: aggregation.over.clone(),
                            alias,
                        },
                    );
                },
                None => {
                    proof {
                        lemma_agg_args_fail(
                            all,
                            i as int,
                            aggregation@.group_by,
                            aggregation@.over,
                            alias,
                            bs,
                        );
                    }
                    return None;
                },
            },
        }
        assert(views(terms@) =~= before.push(terms@.last()@));
        i += 1;
    }
    assert(all.take(i as int) =~= all);
    Some(terms)
}

/// Where the arguments up to one fail, all of them fail.
proof fn lemma_agg_args_fail(
    args: Seq<VarView>,
    upto: int,
    group_by: Seq<ColBindingView>,
    relation: Seq<char>,
    alias: Option<AliasId>,
    bindings: Seq<BoundVarView>,
)
    requires
        0 <= upto < args.len(),
        agg_args(args.take(upto + 1), group_by, relation, alias, bindings).is_none(),
    ensures
        agg_args(args, group_by, relation, alias, bindings).is_none(),
    decreases args.len(),
{
    if upto + 1 < args.len() {
        assert(args.drop_last().take(upto + 1) =~= args.take(upto + 1));
        lemma_agg_args_fail(args.drop_last(), upto, group_by, relation, alias, bindings);
    } else {
        assert(args.take(upto + 1) =~= args);
    }
}

/// The attributes that the columns `args` are made of.
fn attrs_for(args: &Vec<ColBinding>, bindings: &Vec<BoundVar>) -> (r: Result<Vec<Attr>, VarId>)
    ensures
        r matches Ok(attrs) ==> attrs_of(views(args@), views(bindings@)) == Ok::<
            Seq<AttrView>,
            Seq<char>,
        >(views(attrs@)),
        r matches Err(v) ==> attrs_of(views(args@), views(bindings@)) == Err::<
            Seq<AttrView>,
            Seq<char>,
        >(v@),
{
    let mut attrs: Vec<Attr> = Vec::new();
    let ghost all = views(args@);
    let ghost bs = views(bindings@);
    let mut i: usize = 0;
    assert(all.take(0) =~= seq![]);
    assert(views(attrs@) =~= seq![]);
    while i < args.len()
        invariant
            i <= args.len(),
            all == views(args@),
            bs == views(bindings@),
            attrs_of(all.take(i as int), bs) == Ok::<Seq<AttrView>, Seq<char>>(views(attrs@)),
        decreases args.len() - i,
    {
        let arg = &args[i];
        proof {
            assert(all.take(i + 1).drop_last() =~= all.take(i as int));
            assert(all.take(i + 1).last() == arg@);
        }
        let ghost before = views(attrs@);
        match &arg.val {
            ColVal::Lit(v) => {
                attrs.push(Attr { col: arg.col.clone(), term: Term::Literal(v.clone()) });
            },
            ColVal::Binding(v) => match lookup_term(bindings, &v.id) {
                Some(t) => {
                    attrs.push(Attr { col: arg.col.clone(), term: t.clone() });
                },
                None => {
                    proof {
                        lemma_attrs_fail(all, i as int, bs);
                    }
                    return Err(v.id.clone());
                },
            },
        }
        assert(views(attrs@) =~= before.push(attrs@.last()@));
        i += 1;
    }
    assert(all.take(i as int) =~= all);
    Ok(attrs)
}

/// Where the columns up to one fail on a variable, all of them fail on it.
proof fn lemma_attrs_fail(args: Seq<ColBindingView>, upto: int, bindings: Seq<BoundVarView>)
    requires
        0 <= upto < args.len(),
        attrs_of(args.take(upto + 1), bindings) is Err,
    ensures
        attrs_of(args, bindings) == attrs_of(args.take(upto + 1), bindings),
    decreases args.len(),
{
    if upto + 1 < args.len() {
        assert(args.drop_last().take(upto + 1) =~= args.take(upto + 1));
        lemma_attrs_fail(args.drop_last(), upto, bindings);
    } else {
        assert(args.take(upto + 1) =~= args);
    }
}

/// The conditions that the negations of `body` lower to.
fn negation_conditions(body: &Vec<BodyTerm>, bindings: &Vec<BoundVar>) -> (r: Option<Vec<Formula>>)
    ensures
        r.is_some() == negations_when(views(body@), views(bindings@)).is_some(),
        r matches Some(when) ==> negations_when(views(body@), views(bindings@)) == Some(
            views(when@),
        ),
{
    let mut when: Vec<Formula> = Vec::new();
    let ghost all = views(body@);
    let ghost bs = views(bindings@);
    let mut i: usize = 0;
    assert(all.take(0) =~= seq![]);
    assert(views(when@) =~= seq![]);
    while i < body.len()
        invariant
            i <= body.len(),
            all == views(body@),
            bs == views(bindings@),
            negations_when(all.take(i as int), bs) == Some(views(when@)),
        decreases body.len() - i,
    {
        proof {
            assert(all.take(i + 1).drop_last() =~= all.take(i as int));
            assert(all.take(i + 1).last() == body@[i as int]@);
        }
        if let BodyTerm::Negation(n) = &body[i] {
            let ghost before = views(when@);
            match attrs_for(&n.args, bindings) {
                Ok(attributes) => {
                    when.push(
                        Formula::NotIn {
                            attributes,
                            relation: Relation::new(n.id.clone(), Version::Total),
                        },
                    );
                    assert(views(when@) =~= before.push(when@.last()@));
                },
                Err(_) => {
                    proof {
                        lemma_negations_fail(all, i as int, bs);
                    }
                    return None;
                },
            }
        }
        i += 1;
    }
    assert(all.take(i as int) =~= all);
    Some(when)
}

/// Where the negations up to one fail, all of them fail.
proof fn lemma_negations_fail(body: Seq<BodyTermView>, upto: int, bindings: Seq<BoundVarView>)
    requires
        0 <= upto < body.len(),
        negations_when(body.take(upto + 1), bindings).is_none(),
    ensures
        negations_when(body, bindings).is_none(),
    decreases body.len(),
{
    if upto + 1 < body.len() {
        assert(body.drop_last().take(upto + 1) =~= body.take(upto + 1));
        lemma_negations_fail(body.drop_last(), upto, bindings);
    } else {
        assert(body.take(upto + 1) =~= body);
    }
}


impl TermMetadata {
    /// The search that a predicate of the relation `id` under `alias`
    /// becomes.
    pub fn new(
        id: RelationId,
        alias: Option<AliasId>,
        by_cid: bool,
        when: Vec<Formula>,
        is_dynamic: bool,
    ) -> (meta: TermMetadata)
        ensures
            meta@ == (TermMetadataView::Search {
                id: id@,
                alias,
                by_cid,
                when: views(when@),
                is_dynamic,
            }),
    {
        TermMetadata::Search { id, alias, by_cid, when, is_dynamic }
    }

    /// Whether the term is a search of a relation that changes while its
    /// stratum is evaluated.
    pub fn is_dynamic(&self) -> (b: bool)
        ensures
            b == is_dynamic(self@),
    {
        match self {
            TermMetadata::Search { is_dynamic, .. } => *is_dynamic,
            TermMetadata::Aggregation { .. } => false,
        }
    }
}

/// Where the body up to one term has no analysis, the whole body has none.
proof fn lemma_analyse_fail(body: Seq<BodyTermView>, upto: int, stratum: StratumView)
    requires
        0 <= upto < body.len(),
        analyse(body.take(upto + 1), stratum).is_none(),
    ensures
        analyse(body, stratum).is_none(),
    decreases body.len(),
{
    if upto + 1 < body.len() {
        assert(body.drop_last().take(upto + 1) =~= body.take(upto + 1));
        lemma_analyse_fail(body.drop_last(), upto, stratum);
    } else {
        assert(body.take(upto + 1) =~= body);
    }
}

/// Walks the body: gives each positive term its alias and its conditions,
/// and each variable the term that stands for it.
fn analyse_body(body: &Vec<BodyTerm>, stratum: &Stratum) -> (r: Option<
    (Vec<TermMetadata>, Vec<BoundVar>),
>)
    ensures
        r.is_some() == analyse(views(body@), stratum@).is_some(),
        r matches Some((metas, bindings)) ==> analyse(views(body@), stratum@) == Some(
            Analysis { metas: views(metas@), bindings: views(bindings@) },
        ),
{
    let mut metas: Vec<TermMetadata> = Vec::new();
    let mut bindings: Vec<BoundVar> = Vec::new();
    let ghost all = views(body@);
    let mut i: usize = 0;
    assert(all.take(0) =~= seq![]);
    assert(views(metas@) =~= seq![]);
    assert(views(bindings@) =~= seq![]);
    while i < body.len()
        invariant
            i <= body.len(),
            all == views(body@),
            analyse(all.take(i as int), stratum@) == Some(
                Analysis { metas: views(metas@), bindings: views(bindings@) },
            ),
        decreases body.len() - i,
    {
        let term = &body[i];
        proof {
            assert(all.take(i + 1).drop_last() =~= all.take(i as int));
            assert(all.take(i + 1).last() == term@);
        }
        let ghost before_metas = views(metas@);
        let ghost before_bindings = views(bindings@);
        match term {
            BodyTerm::Predicate(p) => {
                let alias = alias_for(count_occurrences(body, i, &p.id));
                bind_predicate(&mut bindings, p, alias);
                let when = predicate_conditions(p, alias, &bindings);
                let dynamic = stratum.is_recursive && stratum.contains(&p.id);
                metas.push(
                    TermMetadata::new(p.id.clone(), alias, p.cid.is_some(), when, dynamic),
                );
                assert(views(metas@) =~= before_metas.push(metas@.last()@));
            },
            BodyTerm::Negation(n) => {
                if attrs_for(&n.args, &bindings).is_err() {
                    proof {
                        lemma_analyse_fail(all, i as int, stratum@);
                    }
                    return None;
                }
            },
            BodyTerm::Aggregation(g) => {
                let alias = alias_for(count_occurrences(body, i, &g.over));
                match agg_args_of(g, alias, &bindings) {
                    None => {
                        proof {
                            lemma_analyse_fail(all, i as int, stratum@);
                        }
                        return None;
                    },
                    Some(args) => {
                        let group_by_cols = group_key_of(&g.group_by, &bindings);
                        let init = match &g.init {
                            Some(v) => Some(v.clone()),
                            None => None,
                        };
                        metas.push(
                            TermMetadata::Aggregation {
                                id: g.over.clone(),
                                alias,
                                when: Vec::new(),
                                group_by_cols,
                                args,
                                init,
                                target: g.target.clone(),
                                reducer: g.reducer,
                            },
                        );
                        assert(metas@.last()@->Aggregation_when =~= seq![]);
                        assert(views(metas@) =~= before_metas.push(metas@.last()@));
                        if lookup_term(&bindings, &g.target.id).is_none() {
                            bindings.push(
                                BoundVar {
                                    var: g.target.id.clone(),
                                    term: Term::Agg {
                                        relation: g.over.clone(),
                                        alias,
                                        var: g.target.clone(),
                                    },
                                },
                            );
                            assert(views(bindings@) =~= before_bindings.push(bindings@.last()@));
                        }
                    },
                }
            },
        }
        i += 1;
    }
    assert(all.take(i as int) =~= all);
    Some((metas, bindings))
}

/// Puts the term `meta` around `inner`.
fn wrap_term(meta: &TermMetadata, delta: bool, inner: Operation) -> (op: Operation)
    ensures
        op@ == wrap(meta@, delta, inner@),
{
    match meta {
        TermMetadata::Search { id, alias, by_cid, when, is_dynamic } => {
            let version = if *is_dynamic && delta {
                Version::Delta
            } else {
                Version::Total
            };
            let conditions = when.clone();
            assert(views(conditions@) =~= views(when@));
            Operation::Search {
                relation: Relation::new(id.clone(), version),
                alias: *alias,
                by_cid: *by_cid,
                when: conditions,
                operation: Box::new(inner),
            }
        },
        TermMetadata::Aggregation {
            id,
            alias,
            when,
            group_by_cols,
            args,
            init,
            target,
            reducer,
        } => {
            let conditions = when.clone();
            assert(views(conditions@) =~= views(when@));
            let key = group_by_cols.clone();
            assert(views(key@) =~= views(group_by_cols@));
            let terms = args.clone();
            assert(views(terms@) =~= views(args@));
            let start = match init {
                Some(v) => Some(v.clone()),
                None => None,
            };
            Operation::Aggregation {
                relation: Relation::new(id.clone(), Version::Total),
                alias: *alias,
                when: conditions,
                group_by_cols: key,
                args: terms,
                init: start,
                target: target.clone(),
                reducer: *reducer,
                operation: Box::new(inner),
            }
        },
    }
}

/// Builds the rewrite of a rule under `mask`, from the projection outwards.
fn rewrite_rule(metas: &Vec<TermMetadata>, core: Operation, mask: usize) -> (op: Operation)
    ensures
        op@ == rewrite(views(metas@), core@, mask as nat),
{
    let ghost all = views(metas@);
    let ghost core_view = core@;
    let mut previous = core;
    let mut rest: usize = mask;
    let mut k: usize = metas.len();
    assert(all.skip(k as int) =~= seq![]);
    while k > 0
        invariant
            k <= metas.len(),
            all == views(metas@),
            rest == halved(mask as nat, count_dynamic(all.skip(k as int))),
            previous@ == rewrite(all.skip(k as int), core_view, mask as nat),
        decreases k,
    {
        let meta = &metas[k - 1];
        proof {
            assert(all.skip(k - 1)[0] == meta@);
            assert(all.skip(k - 1).drop_first() =~= all.skip(k as int));
        }
        let delta = rest % 2 == 1;
        previous = wrap_term(meta, delta, previous);
        if meta.is_dynamic() {
            rest = rest / 2;
        }
        k -= 1;
    }
    assert(all.skip(0) =~= all);
    previous
}

/// Two to the power `exponent` is positive and grows with it.
proof fn lemma_pow2_grows(a: nat, b: nat)
    requires
        a <= b,
    ensures
        0 < pow2(a) <= pow2(b),
    decreases b,
{
    if a < b {
        lemma_pow2_grows(a, (b - 1) as nat);
    } else if a > 0 {
        lemma_pow2_grows((a - 1) as nat, (a - 1) as nat);
    }
}

/// Counts the dynamic searches among `metas`.
fn count_dynamic_of(metas: &Vec<TermMetadata>) -> (n: usize)
    ensures
        n == count_dynamic(views(metas@)),
{
    let ghost all = views(metas@);
    let mut n: usize = 0;
    let mut k: usize = metas.len();
    assert(all.skip(k as int) =~= seq![]);
    while k > 0
        invariant
            k <= metas.len(),
            all == views(metas@),
            n == count_dynamic(all.skip(k as int)),
            n <= metas.len() - k,
        decreases k,
    {
        proof {
            assert(all.skip(k - 1)[0] == metas@[k - 1]@);
            assert(all.skip(k - 1).drop_first() =~= all.skip(k as int));
        }
        if metas[k - 1].is_dynamic() {
            n += 1;
        }
        k -= 1;
    }
    assert(all.skip(0) =~= all);
    n
}

/// Two to the power `exponent`, less one, where the machine can hold the
/// power.
fn full_mask(exponent: usize) -> (r: Option<usize>)
    ensures
        r.is_some() == (pow2(exponent as nat) <= usize::MAX),
        r matches Some(m) ==> m == pow2(exponent as nat) - 1,
{
    let mut full: usize = 0;
    let mut k: usize = 0;
    while k < exponent
        invariant
            k <= exponent,
            full == pow2(k as nat) - 1,
            pow2(k as nat) <= usize::MAX,
        decreases exponent - k,
    {
        if full > (usize::MAX - 2) / 2 {
            proof {
                lemma_pow2_grows((k + 1) as nat, exponent as nat);
            }
            return None;
        }
        full = 2 * full + 1;
        k += 1;
    }
    Some(full)
}

/// Adds `extra` at the end of the conditions of the last of `metas`.
fn add_conditions(metas: &mut Vec<TermMetadata>, extra: Vec<Formula>)
    requires
        old(metas).len() > 0,
    ensures
        views(final(metas)@) == views(old(metas)@).drop_last().push(
            with_conditions(views(old(metas)@).last(), views(extra@)),
        ),
{
    let ghost before = views(metas@);
    let last = metas.pop().unwrap();
    assert(views(metas@) =~= before.drop_last());
    let mut extra = extra;
    let ghost added = views(extra@);
    let extended = match last {
        TermMetadata::Search { id, alias, by_cid, when, is_dynamic } => {
            let mut when = when;
            let ghost had = views(when@);
            when.append(&mut extra);
            assert(views(when@) =~= had + added);
            TermMetadata::Search { id, alias, by_cid, when, is_dynamic }
        },
        TermMetadata::Aggregation {
            id,
            alias,
            when,
            group_by_cols,
            args,
            init,
            target,
            reducer,
        } => {
            let mut when = when;
            let ghost had = views(when@);
            when.append(&mut extra);
            assert(views(when@) =~= had + added);
            TermMetadata::Aggregation {
                id,
                alias,
                when,
                group_by_cols,
                args,
                init,
                target,
                reducer,
            }
        },
    };
    metas.push(extended);
    assert(views(metas@) =~= before.drop_last().push(metas@.last()@));
}

/// Lowers a rule to its insertions into `version` of its head. A rule with
/// `d` searches of relations that change in its stratum gives one rewrite for
/// each non-empty set of them, `2^d - 1` in all, in decreasing order of the
/// mask that tells which of them read `Delta`; a rule with none gives one.
///
/// Fails with `ClauseNotRangeRestricted` where a variable of a negation or an
/// argument of a reducer stands for nothing, or where negations have no
/// positive term to go with; with `UnboundVariable` where a variable of the
/// head stands for nothing; and with `InternalError` where the machine cannot
/// count the rewrites.
pub fn lower_rule_to_ram(rule: &Rule, stratum: &Stratum, version: Version) -> (r: Result<
    Vec<Statement>,
    Error,
>)
    ensures
        r matches Ok(statements) ==> lower_rule(rule@, stratum@, version) == Ok::<
            Seq<StatementView>,
            ErrorView,
        >(statement_views(statements@)),
        r matches Err(e) ==> lower_rule(rule@, stratum@, version) == Err::<
            Seq<StatementView>,
            ErrorView,
        >(e@),
{
    let (mut metas, bindings) = match analyse_body(&rule.body, stratum) {
        Some(found) => found,
        None => {
            return Err(Error::ClauseNotRangeRestricted(rule.head.clone()));
        },
    };
    let ghost analysis = Analysis { metas: views(metas@), bindings: views(bindings@) };
    let negations = match negation_conditions(&rule.body, &bindings) {
        Some(when) => when,
        None => {
            return Err(Error::ClauseNotRangeRestricted(rule.head.clone()));
        },
    };
    if metas.len() == 0 && negations.len() > 0 {
        return Err(Error::ClauseNotRangeRestricted(rule.head.clone()));
    }
    let attributes = match attrs_for(&rule.args, &bindings) {
        Ok(attributes) => attributes,
        Err(v) => {
            return Err(Error::UnboundVariable(v));
        },
    };
    let dynamic = count_dynamic_of(&metas);
    let full = match full_mask(dynamic) {
        Some(full) => full,
        None => {
            return Err(Error::internal("too many rewrites"));
        },
    };
    if metas.len() > 0 {
        proof {
            lemma_count_dynamic_last(analysis.metas, views(negations@));
        }
        add_conditions(&mut metas, negations);
    }
    let count = if dynamic == 0 {
        1
    } else {
        full
    };
    let ghost core = OperationView::Project {
        attributes: views(attributes@),
        into: RelationView { id: rule@.head, version },
    };
    let ghost want = lower_rule(rule@, stratum@, version)->Ok_0;
    let mut statements: Vec<Statement> = Vec::new();
    let mut offset: usize = 0;
    while offset < count
        invariant
            offset <= count,
            count == rewrite_count(dynamic as nat),
            full == pow2(dynamic as nat) - 1,
            count <= full + 1,
            core == (OperationView::Project {
                attributes: views(attributes@),
                into: RelationView { id: rule@.head, version },
            }),
            want.len() == count,
            forall|j: int|
                0 <= j < count ==> #[trigger] want[j] == (StatementView::Insert {
                    operation: rewrite(views(metas@), core, (full - j) as nat),
                    is_ground: false,
                }),
            statement_views(statements@) =~= want.take(offset as int),
        decreases count - offset,
    {
        let copied = attributes.clone();
        assert(views(copied@) =~= views(attributes@));
        let projection = Operation::Project {
            attributes: copied,
            into: Relation::new(rule.head.clone(), version),
        };
        let operation = rewrite_rule(&metas, projection, full - offset);
        let ghost before = statement_views(statements@);
        statements.push(Statement::Insert { operation, is_ground: false });
        assert(statements@.last()@ == want[offset as int]);
        assert(statement_views(statements@) =~= before.push(statements@.last()@));
        offset += 1;
    }
    assert(want.take(offset as int) =~= want);
    Ok(statements)
}

/// Adding conditions to the last term leaves the number of dynamic searches
/// as it is, in every tail of the terms.
proof fn lemma_count_dynamic_last(metas: Seq<TermMetadataView>, extra: Seq<FormulaView>)
    requires
        metas.len() > 0,
    ensures
        count_dynamic(metas.drop_last().push(with_conditions(metas.last(), extra)))
            == count_dynamic(metas),
    decreases metas.len(),
{
    let changed = metas.drop_last().push(with_conditions(metas.last(), extra));
    if metas.len() == 1 {
        assert(changed.drop_first() =~= metas.drop_first());
    } else {
        let rest = metas.drop_first();
        lemma_count_dynamic_last(rest, extra);
        assert(changed.drop_first() =~= rest.drop_last().push(
            with_conditions(rest.last(), extra),
        ));
        assert(changed[0] == metas[0]);
    }
}


/// Whether a rule reads, in a positive predicate, a relation of the stratum.
pub open spec fn rule_is_dynamic(rule: RuleView, stratum: StratumView) -> bool {
    exists|i: int|
        0 <= i < rule.body.len() && (#[trigger] rule.body[i]) is Predicate
            && stratum.relations.contains(term_relation(rule.body[i]))
}

/// The rules among `rules` that are dynamic, or those that are not, in order.
pub open spec fn select_rules(rules: Seq<RuleView>, stratum: StratumView, dynamic: bool) -> Seq<
    RuleView,
>
    decreases rules.len(),
{
    if rules.len() == 0 {
        seq![]
    } else {
        let rest = select_rules(rules.drop_last(), stratum, dynamic);
        if rule_is_dynamic(rules.last(), stratum) == dynamic {
            rest.push(rules.last())
        } else {
            rest
        }
    }
}

/// The heads of `rules`, each once, in the order in which they first occur.
pub open spec fn distinct_heads(rules: Seq<RuleView>) -> Seq<Seq<char>>
    decreases rules.len(),
{
    if rules.len() == 0 {
        seq![]
    } else {
        let rest = distinct_heads(rules.drop_last());
        if rest.contains(rules.last().head) {
            rest
        } else {
            rest.push(rules.last().head)
        }
    }
}

/// What the rules lower to, one after the other; the first error where one
/// of them fails.
pub open spec fn lower_rules(rules: Seq<RuleView>, stratum: StratumView, version: Version) -> Result<
    Seq<StatementView>,
    ErrorView,
>
    decreases rules.len(),
{
    if rules.len() == 0 {
        Ok(seq![])
    } else {
        match lower_rules(rules.drop_last(), stratum, version) {
            Ok(prev) => match lower_rule(rules.last(), stratum, version) {
                Ok(more) => Ok(prev + more),
                Err(e) => Err(e),
            },
            Err(e) => Err(e),
        }
    }
}

/// The merge of one version of a relation into another.
pub open spec fn merge_statement(id: Seq<char>, from: Version, into: Version) -> StatementView {
    StatementView::Merge {
        from: RelationView { id, version: from },
        into: RelationView { id, version: into },
    }
}

/// What ends one round of a loop, for each relation in order: the merge of
/// `New` into `Total`, then the exchange of `New` and `Delta`.
pub open spec fn round_end(relations: Seq<Seq<char>>) -> Seq<StatementView>
    decreases relations.len(),
{
    if relations.len() == 0 {
        seq![]
    } else {
        round_end(relations.drop_last()).push(
            merge_statement(relations.last(), Version::New, Version::Total),
        ).push(
            StatementView::Swap {
                left: RelationView { id: relations.last(), version: Version::New },
                right: RelationView { id: relations.last(), version: Version::Delta },
            },
        )
    }
}

/// The body of the loop of a recursive stratum: the purge of `New` of every
/// relation, the rewrites of the dynamic rules into `New`, the exit on all
/// `New` being empty, and the end of the round.
pub open spec fn loop_body(relations: Seq<Seq<char>>, rewrites: Seq<StatementView>) -> Seq<
    StatementView,
> {
    relations.map_values(
        |id: Seq<char>| StatementView::Purge { relation: RelationView { id, version: Version::New } },
    ) + rewrites + seq![
        StatementView::Exit {
            relations: relations.map_values(
                |id: Seq<char>| RelationView { id, version: Version::New },
            ),
        },
    ] + round_end(relations)
}

/// What a stratum lowers to.
///
/// A stratum that is not recursive: its facts into `Total`, then its rules
/// into `Total`. A recursive one: its facts into `Delta`; its static rules
/// into `Total`; the merge of `Total` into `Delta` for the head of each
/// static rule; and the loop.
pub open spec fn lower_stratum(stratum: StratumView) -> Result<Seq<StatementView>, ErrorView> {
    let facts = crate::logic::ast::facts_of(stratum.clauses);
    let rules = crate::logic::ast::rules_of(stratum.clauses);
    if stratum.is_recursive {
        let static_rules = select_rules(rules, stratum, false);
        let dynamic_rules = select_rules(rules, stratum, true);
        match lower_rules(static_rules, stratum, Version::Total) {
            Err(e) => Err(e),
            Ok(fixed) => match lower_rules(dynamic_rules, stratum, Version::New) {
                Err(e) => Err(e),
                Ok(rewrites) => Ok(
                    facts.map_values(|f: FactView| fact_statement(f, Version::Delta)) + fixed
                        + distinct_heads(static_rules).map_values(
                        |id: Seq<char>| merge_statement(id, Version::Total, Version::Delta),
                    ) + seq![
                        StatementView::Loop { body: loop_body(stratum.relations, rewrites) },
                    ],
                ),
            },
        }
    } else {
        match lower_rules(rules, stratum, Version::Total) {
            Err(e) => Err(e),
            Ok(lowered) => Ok(
                facts.map_values(|f: FactView| fact_statement(f, Version::Total)) + lowered,
            ),
        }
    }
}

/// Whether the rule reads, in a positive predicate, a relation of the
/// stratum.
fn is_dynamic_rule(rule: &Rule, stratum: &Stratum) -> (b: bool)
    ensures
        b == rule_is_dynamic(rule@, stratum@),
{
    let mut i: usize = 0;
    while i < rule.body.len()
        invariant
            i <= rule.body.len(),
            forall|j: int|
                0 <= j < i ==> !((#[trigger] rule@.body[j]) is Predicate
                    && stratum@.relations.contains(term_relation(rule@.body[j]))),
        decreases rule.body.len() - i,
    {
        assert(rule@.body[i as int] == rule.body@[i as int]@);
        if let BodyTerm::Predicate(p) = &rule.body[i] {
            if stratum.contains(&p.id) {
                return true;
            }
        }
        i += 1;
    }
    false
}

/// Splits the rules into the dynamic and the static ones.
fn partition_rules(rules: &Vec<Rule>, stratum: &Stratum) -> (r: (Vec<Rule>, Vec<Rule>))
    ensures
        views(r.0@) == select_rules(views(rules@), stratum@, true),
        views(r.1@) == select_rules(views(rules@), stratum@, false),
{
    let mut dynamic_rules: Vec<Rule> = Vec::new();
    let mut static_rules: Vec<Rule> = Vec::new();
    let ghost all = views(rules@);
    let mut i: usize = 0;
    assert(all.take(0) =~= seq![]);
    while i < rules.len()
        invariant
            i <= rules.len(),
            all == views(rules@),
            views(dynamic_rules@) =~= select_rules(all.take(i as int), stratum@, true),
            views(static_rules@) =~= select_rules(all.take(i as int), stratum@, false),
        decreases rules.len() - i,
    {
        proof {
            assert(all.take(i + 1).drop_last() =~= all.take(i as int));
            assert(all.take(i + 1).last() == rules@[i as int]@);
        }
        if is_dynamic_rule(&rules[i], stratum) {
            dynamic_rules.push(rules[i].clone());
        } else {
            static_rules.push(rules[i].clone());
        }
        i += 1;
    }
    assert(all.take(i as int) =~= all);
    (dynamic_rules, static_rules)
}

/// Where the rules up to one fail, all of them fail in the same way.
proof fn lemma_lower_rules_fail(rules: Seq<RuleView>, upto: int, stratum: StratumView, version: Version)
    requires
        0 <= upto < rules.len(),
        lower_rules(rules.take(upto + 1), stratum, version) is Err,
    ensures
        lower_rules(rules, stratum, version) == lower_rules(rules.take(upto + 1), stratum, version),
    decreases rules.len(),
{
    if upto + 1 < rules.len() {
        assert(rules.drop_last().take(upto + 1) =~= rules.take(upto + 1));
        lemma_lower_rules_fail(rules.drop_last(), upto, stratum, version);
    } else {
        assert(rules.take(upto + 1) =~= rules);
    }
}

/// Lowers the rules one after the other and adds what they give to
/// `statements`.
fn lower_rules_into(
    statements: &mut Vec<Statement>,
    rules: &Vec<Rule>,
    stratum: &Stratum,
    version: Version,
) -> (r: Result<(), Error>)
    ensures
        r is Ok ==> lower_rules(views(rules@), stratum@, version) is Ok && statement_views(
            final(statements)@,
        ) == statement_views(old(statements)@) + lower_rules(
            views(rules@),
            stratum@,
            version,
        )->Ok_0,
        r matches Err(e) ==> lower_rules(views(rules@), stratum@, version) == Err::<
            Seq<StatementView>,
            ErrorView,
        >(e@),
{
    let ghost all = views(rules@);
    let ghost start = statement_views(statements@);
    let mut i: usize = 0;
    assert(all.take(0) =~= seq![]);
    while i < rules.len()
        invariant
            i <= rules.len(),
            all == views(rules@),
            lower_rules(all.take(i as int), stratum@, version) is Ok,
            statement_views(statements@) =~= start + lower_rules(
                all.take(i as int),
                stratum@,
                version,
            )->Ok_0,
        decreases rules.len() - i,
    {
        proof {
            assert(all.take(i + 1).drop_last() =~= all.take(i as int));
            assert(all.take(i + 1).last() == rules@[i as int]@);
        }
        match lower_rule_to_ram(&rules[i], stratum, version) {
            Ok(lowered) => {
                let mut lowered = lowered;
                let ghost before = statement_views(statements@);
                let ghost more = statement_views(lowered@);
                statements.append(&mut lowered);
                assert(statement_views(statements@) =~= before + more);
            },
            Err(e) => {
                proof {
                    lemma_lower_rules_fail(all, i as int, stratum@, version);
                }
                return Err(e);
            },
        }
        i += 1;
    }
    assert(all.take(i as int) =~= all);
    Ok(())
}

/// The heads of `rules`, each once, in the order in which they first occur.
fn heads_of(rules: &Vec<Rule>) -> (heads: Vec<RelationId>)
    ensures
        views(heads@) == distinct_heads(views(rules@)),
{
    let mut heads: Vec<RelationId> = Vec::new();
    let ghost all = views(rules@);
    let mut i: usize = 0;
    assert(all.take(0) =~= seq![]);
    while i < rules.len()
        invariant
            i <= rules.len(),
            all == views(rules@),
            views(heads@) =~= distinct_heads(all.take(i as int)),
        decreases rules.len() - i,
    {
        proof {
            assert(all.take(i + 1).drop_last() =~= all.take(i as int));
            assert(all.take(i + 1).last() == rules@[i as int]@);
        }
        if !crate::logic::ast::contains_relation(&heads, &rules[i].head) {
            heads.push(rules[i].head.clone());
        }
        i += 1;
    }
    assert(all.take(i as int) =~= all);
    heads
}

/// Adds the lowering of each fact into `version` to `statements`.
fn lower_facts_into(statements: &mut Vec<Statement>, facts: &Vec<Fact>, version: Version)
    ensures
        statement_views(final(statements)@) == statement_views(old(statements)@) + views(
            facts@,
        ).map_values(|f: FactView| fact_statement(f, version)),
{
    let ghost start = statement_views(statements@);
    let ghost want = views(facts@).map_values(|f: FactView| fact_statement(f, version));
    let mut i: usize = 0;
    while i < facts.len()
        invariant
            i <= facts.len(),
            want == views(facts@).map_values(|f: FactView| fact_statement(f, version)),
            statement_views(statements@) =~= start + want.take(i as int),
        decreases facts.len() - i,
    {
        let ghost before = statement_views(statements@);
        match lower_fact_to_ram(&facts[i], version) {
            Ok(lowered) => {
                statements.push(lowered);
            },
            Err(_) => {},
        }
        proof {
            assert(views(facts@)[i as int] == facts@[i as int]@);
            assert(statement_views(statements@) =~= before.push(want[i as int]));
            assert(want.take(i + 1) =~= want.take(i as int).push(want[i as int]));
        }
        i += 1;
    }
    assert(want.take(i as int) =~= want);
}

/// Builds the body of the loop of a recursive stratum around the rewrites of
/// its dynamic rules.
fn build_loop_body(relations: &Vec<RelationId>, rewrites: Vec<Statement>) -> (body: Vec<Statement>)
    ensures
        statement_views(body@) == loop_body(views(relations@), statement_views(rewrites@)),
{
    let ghost ids = views(relations@);
    let ghost purges = ids.map_values(
        |id: Seq<char>| StatementView::Purge { relation: RelationView { id, version: Version::New } },
    );
    let ghost news = ids.map_values(|id: Seq<char>| RelationView { id, version: Version::New });
    let mut body: Vec<Statement> = Vec::new();
    let mut exits: Vec<Relation> = Vec::new();
    let mut i: usize = 0;
    while i < relations.len()
        invariant
            i <= relations.len(),
            ids == views(relations@),
            purges == ids.map_values(
                |id: Seq<char>|
                    StatementView::Purge { relation: RelationView { id, version: Version::New } },
            ),
            news == ids.map_values(|id: Seq<char>| RelationView { id, version: Version::New }),
            statement_views(body@) =~= purges.take(i as int),
            views(exits@) =~= news.take(i as int),
        decreases relations.len() - i,
    {
        let ghost before = statement_views(body@);
        assert(ids[i as int] == relations@[i as int]@);
        body.push(Statement::Purge { relation: Relation::new(relations[i].clone(), Version::New) });
        exits.push(Relation::new(relations[i].clone(), Version::New));
        proof {
            assert(statement_views(body@) =~= before.push(purges[i as int]));
            assert(purges.take(i + 1) =~= purges.take(i as int).push(purges[i as int]));
            assert(news.take(i + 1) =~= news.take(i as int).push(news[i as int]));
        }
        i += 1;
    }
    assert(purges.take(i as int) =~= purges);
    assert(news.take(i as int) =~= news);
    let mut rewrites = rewrites;
    let ghost middle = statement_views(rewrites@);
    let ghost before = statement_views(body@);
    body.append(&mut rewrites);
    assert(statement_views(body@) =~= before + middle);
    let ghost before = statement_views(body@);
    body.push(Statement::Exit { relations: exits });
    assert(statement_views(body@) =~= before.push(StatementView::Exit { relations: news }));
    let ghost head = statement_views(body@);
    assert(head =~= purges + middle + seq![StatementView::Exit { relations: news }]);
    let mut k: usize = 0;
    assert(ids.take(0) =~= seq![]);
    while k < relations.len()
        invariant
            k <= relations.len(),
            ids == views(relations@),
            statement_views(body@) =~= head + round_end(ids.take(k as int)),
        decreases relations.len() - k,
    {
        proof {
            assert(ids.take(k + 1).drop_last() =~= ids.take(k as int));
            assert(ids.take(k + 1).last() == relations@[k as int]@);
        }
        let ghost before = statement_views(body@);
        body.push(
            Statement::Merge {
                from: Relation::new(relations[k].clone(), Version::New),
                into: Relation::new(relations[k].clone(), Version::Total),
            },
        );
        let ghost merged = statement_views(body@);
        assert(merged =~= before.push(body@.last()@));
        body.push(
            Statement::Swap {
                left: Relation::new(relations[k].clone(), Version::New),
                right: Relation::new(relations[k].clone(), Version::Delta),
            },
        );
        assert(statement_views(body@) =~= merged.push(body@.last()@));
        k += 1;
    }
    assert(ids.take(k as int) =~= ids);
    body
}

/// Lowers a stratum.
///
/// A stratum that is not recursive gives the insertion of its facts into
/// `Total` and then the insertions of its rules into `Total`. A recursive one
/// gives the insertion of its facts into `Delta`, its static rules into
/// `Total`, the merge of `Total` into `Delta` for each head of a static rule,
/// and one loop: the purge of `New`, the rewrites of the dynamic rules into
/// `New`, the exit, and for each relation the merge of `New` into `Total` and
/// the exchange of `New` and `Delta`. Fails where one of its rules fails.
pub fn lower_stratum_to_ram(stratum: &Stratum) -> (r: Result<Vec<Statement>, Error>)
    ensures
        r matches Ok(statements) ==> lower_stratum(stratum@) == Ok::<
            Seq<StatementView>,
            ErrorView,
        >(statement_views(statements@)),
        r matches Err(e) ==> lower_stratum(stratum@) == Err::<Seq<StatementView>, ErrorView>(e@),
{
    let mut statements: Vec<Statement> = Vec::new();
    let facts = stratum.facts();
    let rules = stratum.rules();
    assert(statement_views(statements@) =~= seq![]);
    if stratum.is_recursive {
        lower_facts_into(&mut statements, &facts, Version::Delta);
        let (dynamic_rules, static_rules) = partition_rules(&rules, stratum);
        match lower_rules_into(&mut statements, &static_rules, stratum, Version::Total) {
            Ok(()) => {},
            Err(e) => {
                return Err(e);
            },
        }
        let heads = heads_of(&static_rules);
        let ghost merges = views(heads@).map_values(
            |id: Seq<char>| merge_statement(id, Version::Total, Version::Delta),
        );
        let ghost start = statement_views(statements@);
        let mut i: usize = 0;
        while i < heads.len()
            invariant
                i <= heads.len(),
                merges == views(heads@).map_values(
                    |id: Seq<char>| merge_statement(id, Version::Total, Version::Delta),
                ),
                statement_views(statements@) =~= start + merges.take(i as int),
            decreases heads.len() - i,
        {
            let ghost before = statement_views(statements@);
            assert(views(heads@)[i as int] == heads@[i as int]@);
            statements.push(
                Statement::Merge {
                    from: Relation::new(heads[i].clone(), Version::Total),
                    into: Relation::new(heads[i].clone(), Version::Delta),
                },
            );
            proof {
                assert(statement_views(statements@) =~= before.push(merges[i as int]));
                assert(merges.take(i + 1) =~= merges.take(i as int).push(merges[i as int]));
            }
            i += 1;
        }
        assert(merges.take(i as int) =~= merges);
        let mut rewrites: Vec<Statement> = Vec::new();
        assert(statement_views(rewrites@) =~= seq![]);
        match lower_rules_into(&mut rewrites, &dynamic_rules, stratum, Version::New) {
            Ok(()) => {},
            Err(e) => {
                return Err(e);
            },
        }
        assert(statement_views(rewrites@) =~= lower_rules(
            views(dynamic_rules@),
            stratum@,
            Version::New,
        )->Ok_0);
        let body = build_loop_body(&stratum.relations, rewrites);
        let ghost before = statement_views(statements@);
        proof {
            crate::ram::loop_view(body);
        }
        statements.push(Statement::Loop { body });
        assert(statement_views(statements@) =~= before.push(statements@.last()@));
        assert(lower_stratum(stratum@) is Ok);
        assert(statement_views(statements@) =~= lower_stratum(stratum@)->Ok_0);
        Ok(statements)
    } else {
        lower_facts_into(&mut statements, &facts, Version::Total);
        match lower_rules_into(&mut statements, &rules, stratum, Version::Total) {
            Ok(()) => {
                assert(lower_stratum(stratum@) is Ok);
                assert(statement_views(statements@) =~= lower_stratum(stratum@)->Ok_0);
                Ok(statements)
            },
            Err(e) => Err(e),
        }
    }
}


/// What the strata lower to, one after the other; the first error where one
/// of them fails.
pub open spec fn lower_strata(strata: Seq<StratumView>) -> Result<Seq<StatementView>, ErrorView>
    decreases strata.len(),
{
    if strata.len() == 0 {
        Ok(seq![])
    } else {
        match lower_strata(strata.drop_last()) {
            Ok(prev) => match lower_stratum(strata.last()) {
                Ok(more) => Ok(prev + more),
                Err(e) => Err(e),
            },
            Err(e) => Err(e),
        }
    }
}

/// What takes the input of an epoch into the relations: for each input
/// relation, in the order of the declarations, the merge of `Delta`, where
/// the sources put it, into `Total`, and the purge of `Delta`.
pub open spec fn intake(declarations: Seq<crate::logic::ast::DeclarationView>) -> Seq<StatementView>
    decreases declarations.len(),
{
    if declarations.len() == 0 {
        seq![]
    } else {
        let rest = intake(declarations.drop_last());
        let last = declarations.last();
        if last.source == crate::logic::ast::Source::Edb {
            rest.push(merge_statement(last.id, Version::Delta, Version::Total)).push(
                StatementView::Purge { relation: RelationView { id: last.id, version: Version::Delta } },
            )
        } else {
            rest
        }
    }
}

/// The program that the strata of a logical program lower to: the sources,
/// the intake of the input relations, the strata in order, and the sinks.
pub open spec fn lower_program(
    program: crate::logic::ast::ProgramView,
    strata: Seq<StratumView>,
) -> Result<crate::ram::ProgramView, ErrorView> {
    match lower_strata(strata) {
        Ok(lowered) => Ok(
            crate::ram::ProgramView {
                declarations: program.declarations,
                statements: seq![StatementView::Sources] + intake(program.declarations) + lowered
                    + seq![StatementView::Sinks],
            },
        ),
        Err(e) => Err(e),
    }
}

/// Where the strata up to one fail, all of them fail in the same way.
proof fn lemma_lower_strata_fail(strata: Seq<StratumView>, upto: int)
    requires
        0 <= upto < strata.len(),
        lower_strata(strata.take(upto + 1)) is Err,
    ensures
        lower_strata(strata) == lower_strata(strata.take(upto + 1)),
    decreases strata.len(),
{
    if upto + 1 < strata.len() {
        assert(strata.drop_last().take(upto + 1) =~= strata.take(upto + 1));
        lemma_lower_strata_fail(strata.drop_last(), upto);
    } else {
        assert(strata.take(upto + 1) =~= strata);
    }
}

/// Lowers the strata of a program, in order, into one program of relational
/// algebra.
pub fn lower_strata_to_ram(program: &crate::logic::ast::Program, strata: &Vec<Stratum>) -> (r:
    Result<crate::ram::Program, Error>)
    ensures
        r matches Ok(lowered) ==> lower_program(program@, views(strata@)) == Ok::<
            crate::ram::ProgramView,
            ErrorView,
        >(lowered@),
        r matches Err(e) ==> lower_program(program@, views(strata@)) == Err::<
            crate::ram::ProgramView,
            ErrorView,
        >(e@),
{
    let mut statements: Vec<Statement> = Vec::new();
    statements.push(Statement::Sources);
    let ghost declared = program@.declarations;
    let mut d: usize = 0;
    assert(declared.take(0) =~= seq![]);
    assert(statement_views(statements@) =~= seq![StatementView::Sources]);
    while d < program.declarations.len()
        invariant
            d <= program.declarations.len(),
            declared == views(program.declarations@),
            statement_views(statements@) =~= seq![StatementView::Sources] + intake(
                declared.take(d as int),
            ),
        decreases program.declarations.len() - d,
    {
        let declaration = &program.declarations[d];
        proof {
            assert(declared.take(d + 1).drop_last() =~= declared.take(d as int));
            assert(declared.take(d + 1).last() == declaration@);
        }
        match declaration.source {
            crate::logic::ast::Source::Edb => {
                let ghost before = statement_views(statements@);
                statements.push(
                    Statement::Merge {
                        from: Relation::new(declaration.id.clone(), Version::Delta),
                        into: Relation::new(declaration.id.clone(), Version::Total),
                    },
                );
                let ghost merged = statement_views(statements@);
                assert(merged =~= before.push(statements@.last()@));
                statements.push(
                    Statement::Purge {
                        relation: Relation::new(declaration.id.clone(), Version::Delta),
                    },
                );
                assert(statement_views(statements@) =~= merged.push(statements@.last()@));
            },
            crate::logic::ast::Source::Idb => {},
        }
        d += 1;
    }
    assert(declared.take(d as int) =~= declared);
    let ghost head = statement_views(statements@);
    let ghost all = views(strata@);
    let mut i: usize = 0;
    assert(all.take(0) =~= seq![]);
    while i < strata.len()
        invariant
            i <= strata.len(),
            all == views(strata@),
            lower_strata(all.take(i as int)) is Ok,
            statement_views(statements@) =~= head + lower_strata(all.take(i as int))->Ok_0,
        decreases strata.len() - i,
    {
        proof {
            assert(all.take(i + 1).drop_last() =~= all.take(i as int));
            assert(all.take(i + 1).last() == strata@[i as int]@);
        }
        match lower_stratum_to_ram(&strata[i]) {
            Ok(lowered) => {
                let mut lowered = lowered;
                let ghost before = statement_views(statements@);
                let ghost more = statement_views(lowered@);
                statements.append(&mut lowered);
                assert(statement_views(statements@) =~= before + more);
            },
            Err(e) => {
                proof {
                    lemma_lower_strata_fail(all, i as int);
                }
                return Err(e);
            },
        }
        i += 1;
    }
    assert(all.take(i as int) =~= all);
    let ghost before = statement_views(statements@);
    statements.push(Statement::Sinks);
    assert(statement_views(statements@) =~= before.push(StatementView::Sinks));
    let declarations = program.declarations.clone();
    assert(views(declarations@) =~= views(program.declarations@));
    let lowered = crate::ram::Program::new(declarations, statements);
    assert(lowered@.statements =~= lower_program(program@, all)->Ok_0.statements);
    Ok(lowered)
}

/// Compiles a program: stratifies it and lowers its strata in order.
///
/// Fails with `ProgramUnstratifiable` exactly when the program recurses
/// through negation or aggregation, and otherwise gives the program that its
/// strata lower to, or the error of the first rule that cannot be lowered.
pub fn lower_to_ram(program: &crate::logic::ast::Program) -> (r: Result<crate::ram::Program, Error>)
    ensures
        crate::logic::graph::dependency_graph(program@.clauses).is_none() ==> (r matches Err(e)
            && e@ == ErrorView::InternalError),
        crate::logic::graph::dependency_graph(program@.clauses) matches Some(graph) ==> {
            let components = crate::logic::graph::kosaraju_components(
                graph.nodes.len(),
                graph.edges,
            );
            let strata = crate::logic::stratify::strata_of(program@.clauses, graph, components);
            &&& crate::logic::stratify::has_negative_cycle(graph.edges) ==> (r matches Err(e)
                && e@ == ErrorView::ProgramUnstratifiable)
            &&& !crate::logic::stratify::has_negative_cycle(graph.edges) ==> {
                &&& r matches Ok(lowered) ==> lower_program(program@, strata) == Ok::<
                    crate::ram::ProgramView,
                    ErrorView,
                >(lowered@)
                &&& r matches Err(e) ==> lower_program(program@, strata) == Err::<
                    crate::ram::ProgramView,
                    ErrorView,
                >(e@)
            }
        },
{
    match crate::logic::stratify::stratify(program) {
        Ok(strata) => lower_strata_to_ram(program, &strata),
        Err(e) => Err(e),
    }
}


/// A stratum without relations, in which every search is static.
pub open spec fn no_stratum() -> StratumView {
    StratumView { relations: seq![], clauses: seq![], is_recursive: false }
}

/// What is wrong with a rule, if anything: `ClauseNotRangeRestricted` where a
/// variable of a negation is not bound by a positive term before it, where an
/// argument of a reducer is neither bound before its aggregation nor named
/// in it, or where negations have no positive term to go with;
/// `UnboundVariable` where a variable of the head is bound by no positive
/// term.
pub open spec fn rule_fault(rule: RuleView) -> Option<ErrorView> {
    match analyse(rule.body, no_stratum()) {
        None => Some(ErrorView::ClauseNotRangeRestricted(rule.head)),
        Some(analysis) => match negations_when(rule.body, analysis.bindings) {
            None => Some(ErrorView::ClauseNotRangeRestricted(rule.head)),
            Some(negations) => if analysis.metas.len() == 0 && negations.len() > 0 {
                Some(ErrorView::ClauseNotRangeRestricted(rule.head))
            } else {
                match attrs_of(rule.args, analysis.bindings) {
                    Err(v) => Some(ErrorView::UnboundVariable(v)),
                    Ok(_) => None,
                }
            },
        },
    }
}

impl Rule {
    /// A rule of the given head, columns and body, if it is range-restricted.
    pub fn new(head: &str, args: Vec<ColBinding>, body: Vec<BodyTerm>) -> (r: Result<Rule, Error>)
        ensures
            r matches Ok(rule) ==> rule@ == (RuleView {
                head: head@,
                args: views(args@),
                body: views(body@),
            }) && rule_fault(rule@).is_none(),
            r matches Err(e) ==> rule_fault(
                RuleView { head: head@, args: views(args@), body: views(body@) },
            ) == Some(e@),
    {
        let rule = Rule { head: RelationId::new(head), args, body };
        let nowhere = Stratum::new(Vec::new(), Vec::new(), false);
        assert(nowhere@.relations =~= seq![]);
        assert(nowhere@.clauses =~= seq![]);
        let (metas, bindings) = match analyse_body(&rule.body, &nowhere) {
            Some(found) => found,
            None => {
                return Err(Error::ClauseNotRangeRestricted(rule.head.clone()));
            },
        };
        let negations = match negation_conditions(&rule.body, &bindings) {
            Some(when) => when,
            None => {
                return Err(Error::ClauseNotRangeRestricted(rule.head.clone()));
            },
        };
        if metas.len() == 0 && negations.len() > 0 {
            return Err(Error::ClauseNotRangeRestricted(rule.head.clone()));
        }
        match attrs_for(&rule.args, &bindings) {
            Ok(_) => Ok(rule),
            Err(v) => Err(Error::UnboundVariable(v)),
        }
    }
}

} // verus!
