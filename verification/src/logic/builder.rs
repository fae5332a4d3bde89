//! Builders of body terms: they collect the column bindings of a term and
//! check them against the declaration of its relation.

use vstd::prelude::*;
use crate::error::{Error, ErrorView};
use crate::id::{ColId, VarId};
use crate::logic::ast::{
    cid_value_view, col_index, col_index_sound, opt_value_view, Aggregation, AggregationView,
    CidValue, CidValueView, Declaration, DeclarationView, Negation, NegationView, Predicate,
    PredicateView, Reducer, Source,
};
use crate::types::{admits, unified, ColType};
use crate::value::{views, Value};
use crate::var::{ColBinding, ColBindingView, ColVal, ColValView, Var, VarView};

verus! {

/// A variable with the type inferred for it.
pub struct VarType {
    pub var: VarId,
    pub typ: ColType,
}

/// The type that `entries` holds for `var`: that of the last entry for it.
pub open spec fn type_lookup(entries: Seq<VarType>, var: Seq<char>) -> Option<ColType>
    decreases entries.len(),
{
    if entries.len() == 0 {
        None
    } else if entries.last().var@ == var {
        Some(entries.last().typ)
    } else {
        type_lookup(entries.drop_last(), var)
    }
}

/// The types inferred for the variables of a rule while its body is built.
pub struct VarTypes {
    entries: Vec<VarType>,
}

impl View for VarTypes {
    type V = Map<Seq<char>, ColType>;

    closed spec fn view(&self) -> Map<Seq<char>, ColType> {
        Map::new(
            |var: Seq<char>| type_lookup(self.entries@, var).is_some(),
            |var: Seq<char>| type_lookup(self.entries@, var).unwrap(),
        )
    }
}

impl VarTypes {
    /// No variable has a type yet.
    pub fn new() -> (types: VarTypes)
        ensures
            types@ == Map::<Seq<char>, ColType>::empty(),
    {
        let types = VarTypes { entries: Vec::new() };
        assert(types@ =~= Map::<Seq<char>, ColType>::empty());
        types
    }

    /// The type inferred for `var`, if there is one.
    pub fn get(&self, var: &VarId) -> (r: Option<ColType>)
        ensures
            r.is_some() == self@.contains_key(var@),
            r matches Some(t) ==> self@[var@] == t,
    {
        let mut i: usize = self.entries.len();
        let ghost all = self.entries@;
        assert(all.take(i as int) =~= all);
        while i > 0
            invariant
                i <= self.entries.len(),
                all == self.entries@,
                type_lookup(all, var@) == type_lookup(all.take(i as int), var@),
            decreases i,
        {
            proof {
                let prefix = all.take(i as int);
                assert(prefix.last() == all[i - 1]);
                assert(prefix.drop_last() =~= all.take(i - 1));
            }
            if self.entries[i - 1].var.same(var) {
                return Some(self.entries[i - 1].typ);
            }
            i -= 1;
        }
        None
    }

    /// Gives `var` the type `typ`, and returns the type it had.
    pub fn insert(&mut self, var: VarId, typ: ColType) -> (r: Option<ColType>)
        ensures
            final(self)@ == old(self)@.insert(var@, typ),
            r.is_some() == old(self)@.contains_key(var@),
            r matches Some(t) ==> old(self)@[var@] == t,
    {
        let had = self.get(&var);
        let ghost before = self.entries@;
        let ghost name = var@;
        self.entries.push(VarType { var, typ });
        proof {
            assert(self.entries@.drop_last() =~= before);
            assert forall|v: Seq<char>|
                type_lookup(self.entries@, v) == (if v == name {
                    Some(typ)
                } else {
                    type_lookup(before, v)
                }) by {}
            assert(self@ =~= old(self)@.insert(name, typ));
        }
        had
    }
}

/// Whether one of `bindings` binds the column `col`.
pub open spec fn binds_col(bindings: Seq<ColBindingView>, col: Seq<char>) -> bool {
    exists|i: int| 0 <= i < bindings.len() && (#[trigger] bindings[i]).col == col
}

/// The check of one binding of a term of `relation`, after the bindings
/// `before` of the same term: the column must be declared and not bound
/// before, a literal must be of the column's type, and the type of a variable
/// must unify with the column's. Where `track` is set, the variable's type
/// must also unify with the type inferred for it so far, and the result of
/// the unification becomes its inferred type.
pub open spec fn check_binding(
    before: Seq<ColBindingView>,
    binding: ColBindingView,
    relation: DeclarationView,
    types: Map<Seq<char>, ColType>,
    track: bool,
) -> Result<Map<Seq<char>, ColType>, ErrorView> {
    match col_index(relation.schema, binding.col) {
        None => Err(ErrorView::UnrecognizedColumnBinding(relation.id, binding.col)),
        Some(i) => if binds_col(before, binding.col) {
            Err(ErrorView::ConflictingColumnBinding(relation.id, binding.col))
        } else {
            let typ = relation.schema[i].typ;
            let conflict = ErrorView::ColumnValueTypeConflict(
                relation.id,
                binding.col,
                binding.val,
                typ,
            );
            match binding.val {
                ColValView::Lit(v) => if admits(typ, v) {
                    Ok(types)
                } else {
                    Err(conflict)
                },
                ColValView::Binding(var) => match unified(typ, var.typ) {
                    None => Err(conflict),
                    Some(t) => if !track {
                        Ok(types)
                    } else if types.contains_key(var.id) {
                        match unified(types[var.id], t) {
                            Some(u) => Ok(types.insert(var.id, u)),
                            None => Err(conflict),
                        }
                    } else {
                        Ok(types.insert(var.id, t))
                    },
                },
            }
        },
    }
}

/// The check of the bindings of a term, in order: the first error, or the
/// types inferred for the variables after all of them.
pub open spec fn check_bindings(
    bindings: Seq<ColBindingView>,
    relation: DeclarationView,
    types: Map<Seq<char>, ColType>,
    track: bool,
) -> Result<Map<Seq<char>, ColType>, ErrorView>
    decreases bindings.len(),
{
    if bindings.len() == 0 {
        Ok(types)
    } else {
        match check_bindings(bindings.drop_last(), relation, types, track) {
            Ok(inferred) => check_binding(
                bindings.drop_last(),
                bindings.last(),
                relation,
                inferred,
                track,
            ),
            Err(e) => Err(e),
        }
    }
}

/// The types inferred while the bindings of a term are checked, in order,
/// up to the first that fails its check: those that the bindings before it
/// infer. Where none fails, they are the types inferred after all of them.
pub open spec fn inferred_until_fault(
    bindings: Seq<ColBindingView>,
    relation: DeclarationView,
    types: Map<Seq<char>, ColType>,
    track: bool,
) -> Map<Seq<char>, ColType>
    decreases bindings.len(),
{
    if bindings.len() == 0 {
        types
    } else {
        match check_bindings(bindings.drop_last(), relation, types, track) {
            Ok(inferred) => match check_binding(
                bindings.drop_last(),
                bindings.last(),
                relation,
                inferred,
                track,
            ) {
                Ok(more) => more,
                Err(_) => inferred,
            },
            Err(_) => inferred_until_fault(bindings.drop_last(), relation, types, track),
        }
    }
}

/// Where the bindings up to one fail, all of them fail in the same way.
proof fn lemma_check_bindings_fail(
    bindings: Seq<ColBindingView>,
    upto: int,
    relation: DeclarationView,
    types: Map<Seq<char>, ColType>,
    track: bool,
)
    requires
        0 <= upto < bindings.len(),
        check_bindings(bindings.take(upto + 1), relation, types, track) is Err,
    ensures
        check_bindings(bindings, relation, types, track) == check_bindings(
            bindings.take(upto + 1),
            relation,
            types,
            track,
        ),
        inferred_until_fault(bindings, relation, types, track) == inferred_until_fault(
            bindings.take(upto + 1),
            relation,
            types,
            track,
        ),
    decreases bindings.len(),
{
    if upto + 1 < bindings.len() {
        assert(bindings.drop_last().take(upto + 1) =~= bindings.take(upto + 1));
        lemma_check_bindings_fail(bindings.drop_last(), upto, relation, types, track);
    } else {
        assert(bindings.take(upto + 1) =~= bindings);
    }
}

/// Whether one of the first `upto` of `bindings` binds the column `col`.
pub fn bound_before(bindings: &Vec<ColBinding>, upto: usize, col: &ColId) -> (b: bool)
    requires
        upto <= bindings.len(),
    ensures
        b == binds_col(views(bindings@).take(upto as int), col@),
{
    let ghost prefix = views(bindings@).take(upto as int);
    let mut i: usize = 0;
    while i < upto
        invariant
            i <= upto <= bindings.len(),
            prefix == views(bindings@).take(upto as int),
            forall|j: int| 0 <= j < i ==> (#[trigger] prefix[j]).col != col@,
        decreases upto - i,
    {
        assert(prefix[i as int] == bindings@[i as int]@);
        if bindings[i].col.same(col) {
            return true;
        }
        i += 1;
    }
    false
}

/// Checks the bindings of a term against the declaration of its relation.
fn check_all(
    bindings: &Vec<ColBinding>,
    relation: &Declaration,
    bound_vars: &mut VarTypes,
    track: bool,
) -> (r: Result<(), Error>)
    ensures
        r is Ok ==> check_bindings(views(bindings@), relation@, old(bound_vars)@, track) == Ok::<
            Map<Seq<char>, ColType>,
            ErrorView,
        >(final(bound_vars)@),
        r matches Err(e) ==> check_bindings(views(bindings@), relation@, old(bound_vars)@, track)
            == Err::<Map<Seq<char>, ColType>, ErrorView>(e@),
        final(bound_vars)@ == inferred_until_fault(
            views(bindings@),
            relation@,
            old(bound_vars)@,
            track,
        ),
        !track ==> final(bound_vars)@ == old(bound_vars)@,
{
    let ghost all = views(bindings@);
    let ghost start = bound_vars@;
    let mut i: usize = 0;
    assert(all.take(0) =~= seq![]);
    while i < bindings.len()
        invariant
            i <= bindings.len(),
            all == views(bindings@),
            start == old(bound_vars)@,
            check_bindings(all.take(i as int), relation@, start, track) == Ok::<
                Map<Seq<char>, ColType>,
                ErrorView,
            >(bound_vars@),
            !track ==> bound_vars@ == start,
        decreases bindings.len() - i,
    {
        let binding = &bindings[i];
        proof {
            assert(all.take(i + 1).drop_last() =~= all.take(i as int));
            assert(all.take(i + 1).last() == binding@);
            col_index_sound(relation@.schema, binding@.col);
        }
        let column = match relation.get_col(&binding.col) {
            Some(column) => column,
            None => {
                proof {
                    lemma_check_bindings_fail(all, i as int, relation@, start, track);
                }
                return Err(
                    Error::UnrecognizedColumnBinding(relation.id.clone(), binding.col.clone()),
                );
            },
        };
        if bound_before(bindings, i, &binding.col) {
            proof {
                lemma_check_bindings_fail(all, i as int, relation@, start, track);
            }
            return Err(Error::ConflictingColumnBinding(relation.id.clone(), binding.col.clone()));
        }
        let typ = column.typ;
        match &binding.val {
            ColVal::Lit(v) => {
                if typ.check(v).is_err() {
                    proof {
                        lemma_check_bindings_fail(all, i as int, relation@, start, track);
                    }
                    return Err(
                        Error::ColumnValueTypeConflict(
                            relation.id.clone(),
                            binding.col.clone(),
                            binding.val.clone(),
                            typ,
                        ),
                    );
                }
            },
            ColVal::Binding(var) => {
                let candidate = match typ.unify(&var.typ) {
                    Ok(t) => t,
                    Err(_) => {
                        proof {
                            lemma_check_bindings_fail(all, i as int, relation@, start, track);
                        }
                        return Err(
                            Error::ColumnValueTypeConflict(
                                relation.id.clone(),
                                binding.col.clone(),
                                binding.val.clone(),
                                typ,
                            ),
                        );
                    },
                };
                if track {
                    let inferred = match bound_vars.get(&var.id) {
                        Some(existing) => match existing.unify(&candidate) {
                            Ok(u) => u,
                            Err(_) => {
                                proof {
                                    lemma_check_bindings_fail(
                                        all,
                                        i as int,
                                        relation@,
                                        start,
                                        track,
                                    );
                                }
                                return Err(
                                    Error::ColumnValueTypeConflict(
                                        relation.id.clone(),
                                        binding.col.clone(),
                                        binding.val.clone(),
                                        typ,
                                    ),
                                );
                            },
                        },
                        None => candidate,
                    };
                    bound_vars.insert(var.id.clone(), inferred);
                }
            },
        }
        i += 1;
    }
    assert(all.take(i as int) =~= all);
    Ok(())
}

/// Collects the column bindings of a positive predicate.
#[derive(Debug)]
pub struct RelPredicateBuilder {
    pub cid: Option<CidValue>,
    pub bindings: Vec<ColBinding>,
}

/// The types inferred once the content identifier asked of a predicate is
/// taken in: a variable in its place is of type `Cid`.
pub open spec fn types_with_cid(cid: Option<CidValueView>, types: Map<Seq<char>, ColType>) -> Map<
    Seq<char>,
    ColType,
> {
    match cid {
        Some(CidValueView::Var(v)) => types.insert(v.id, ColType::Cid),
        _ => types,
    }
}

/// The check of a predicate against the declaration of its relation: only an
/// input relation may be asked for a content identifier, and the bindings
/// must pass their check.
pub open spec fn check_predicate(
    cid: Option<CidValueView>,
    bindings: Seq<ColBindingView>,
    relation: DeclarationView,
    types: Map<Seq<char>, ColType>,
) -> Result<Map<Seq<char>, ColType>, ErrorView> {
    if cid.is_some() && relation.source != Source::Edb {
        Err(ErrorView::ContentAddressedIDB(relation.id))
    } else {
        check_bindings(bindings, relation, types_with_cid(cid, types), true)
    }
}

/// The types inferred once a predicate is checked: those of before where
/// a relation that is no input is asked for a content identifier; otherwise
/// those that the content identifier and the bindings infer, up to the first
/// binding that fails its check.
pub open spec fn types_after_predicate(
    cid: Option<CidValueView>,
    bindings: Seq<ColBindingView>,
    relation: DeclarationView,
    types: Map<Seq<char>, ColType>,
) -> Map<Seq<char>, ColType> {
    if cid.is_some() && relation.source != Source::Edb {
        types
    } else {
        inferred_until_fault(bindings, relation, types_with_cid(cid, types), true)
    }
}

impl RelPredicateBuilder {
    /// A builder without bindings, for a predicate that asks for the given
    /// content identifier, if any.
    pub fn new(cid: Option<CidValue>) -> (b: RelPredicateBuilder)
        ensures
            cid_value_view(b.cid) == cid_value_view(cid),
            views(b.bindings@) == Seq::<ColBindingView>::empty(),
    {
        let b = RelPredicateBuilder { cid, bindings: Vec::new() };
        assert(views(b.bindings@) =~= Seq::<ColBindingView>::empty());
        b
    }

    /// Adds one binding after those that are there.
    pub fn bind_one(&mut self, binding: ColBinding) -> (r: Result<(), Error>)
        ensures
            r is Ok,
            views(final(self).bindings@) == views(old(self).bindings@).push(binding@),
            cid_value_view(final(self).cid) == cid_value_view(old(self).cid),
    {
        let ghost before = views(self.bindings@);
        self.bindings.push(binding);
        assert(views(self.bindings@) =~= before.push(binding@));
        Ok(())
    }

    /// Checks the bindings against the declaration of the relation and gives
    /// the predicate. The types inferred for the variables are taken from
    /// `bound_vars` and left there. After an error `bound_vars` holds what
    /// was inferred before the fault: nothing new where a relation that is no
    /// input is asked for a content identifier.
    pub fn finalize(self, relation: &Declaration, bound_vars: &mut VarTypes) -> (r: Result<
        Predicate,
        Error,
    >)
        ensures
            r matches Ok(p) ==> p@ == (PredicateView {
                id: relation@.id,
                cid: cid_value_view(self.cid),
                args: views(self.bindings@),
            }) && check_predicate(
                cid_value_view(self.cid),
                views(self.bindings@),
                relation@,
                old(bound_vars)@,
            ) == Ok::<Map<Seq<char>, ColType>, ErrorView>(final(bound_vars)@),
            r matches Err(e) ==> check_predicate(
                cid_value_view(self.cid),
                views(self.bindings@),
                relation@,
                old(bound_vars)@,
            ) == Err::<Map<Seq<char>, ColType>, ErrorView>(e@),
            final(bound_vars)@ == types_after_predicate(
                cid_value_view(self.cid),
                views(self.bindings@),
                relation@,
                old(bound_vars)@,
            ),
    {
        if let Some(cid) = &self.cid {
            if !matches!(relation.source, Source::Edb) {
                return Err(Error::ContentAddressedIDB(relation.id.clone()));
            }
            if let CidValue::Var(var) = cid {
                bound_vars.insert(var.id.clone(), ColType::Cid);
            }
        }
        match check_all(&self.bindings, relation, bound_vars, true) {
            Ok(()) => Ok(Predicate { id: relation.id.clone(), cid: self.cid, args: self.bindings }),
            Err(e) => Err(e),
        }
    }
}

/// Collects the column bindings of a negation.
#[derive(Debug)]
pub struct NegationBuilder {
    pub bindings: Vec<ColBinding>,
}

impl NegationBuilder {
    /// A builder without bindings.
    pub fn new() -> (b: NegationBuilder)
        ensures
            views(b.bindings@) == Seq::<ColBindingView>::empty(),
    {
        let b = NegationBuilder { bindings: Vec::new() };
        assert(views(b.bindings@) =~= Seq::<ColBindingView>::empty());
        b
    }

    /// Adds one binding after those that are there.
    pub fn bind_one(&mut self, binding: ColBinding) -> (r: Result<(), Error>)
        ensures
            r is Ok,
            views(final(self).bindings@) == views(old(self).bindings@).push(binding@),
    {
        let ghost before = views(self.bindings@);
        self.bindings.push(binding);
        assert(views(self.bindings@) =~= before.push(binding@));
        Ok(())
    }

    /// Checks the bindings against the declaration of the relation and gives
    /// the negation. A negation infers no types.
    pub fn finalize(self, relation: &Declaration, bound_vars: &mut VarTypes) -> (r: Result<
        Negation,
        Error,
    >)
        ensures
            final(bound_vars)@ == old(bound_vars)@,
            r matches Ok(n) ==> n@ == (NegationView {
                id: relation@.id,
                args: views(self.bindings@),
            }) && check_bindings(views(self.bindings@), relation@, old(bound_vars)@, false) is Ok,
            r matches Err(e) ==> check_bindings(
                views(self.bindings@),
                relation@,
                old(bound_vars)@,
                false,
            ) == Err::<Map<Seq<char>, ColType>, ErrorView>(e@),
    {
        let mut scratch = VarTypes::new();
        proof {
            lemma_untracked(views(self.bindings@), relation@, old(bound_vars)@, scratch@);
        }
        match check_all(&self.bindings, relation, &mut scratch, false) {
            Ok(()) => Ok(Negation { id: relation.id.clone(), args: self.bindings }),
            Err(e) => Err(e),
        }
    }
}

/// A check that does not track types gives back the types it was given, and
/// fails or not whatever they are.
proof fn lemma_untracked(
    bindings: Seq<ColBindingView>,
    relation: DeclarationView,
    a: Map<Seq<char>, ColType>,
    b: Map<Seq<char>, ColType>,
)
    ensures
        check_bindings(bindings, relation, a, false) is Ok ==> check_bindings(
            bindings,
            relation,
            a,
            false,
        ) == Ok::<Map<Seq<char>, ColType>, ErrorView>(a),
        check_bindings(bindings, relation, a, false) is Ok <==> check_bindings(
            bindings,
            relation,
            b,
            false,
        ) is Ok,
        check_bindings(bindings, relation, a, false) matches Err(e) ==> check_bindings(
            bindings,
            relation,
            b,
            false,
        ) == Err::<Map<Seq<char>, ColType>, ErrorView>(e),
    decreases bindings.len(),
{
    if bindings.len() > 0 {
        lemma_untracked(bindings.drop_last(), relation, a, b);
    }
}

/// Collects the target, the arguments and the column bindings of an
/// aggregation.
#[derive(Debug)]
pub struct AggregationBuilder {
    pub target: Var,
    pub vars: Vec<Var>,
    pub bindings: Vec<ColBinding>,
    pub init: Option<Value>,
    pub reducer: Reducer,
}

/// The check of an aggregation against the declaration of its relation: its
/// target must have no type yet, and takes its own; the bindings must pass
/// their check, which infers no types.
pub open spec fn check_aggregation(
    target: VarView,
    bindings: Seq<ColBindingView>,
    relation: DeclarationView,
    types: Map<Seq<char>, ColType>,
) -> Result<Map<Seq<char>, ColType>, ErrorView> {
    if types.contains_key(target.id) {
        Err(ErrorView::AggregationBoundTarget(target.id))
    } else {
        check_bindings(bindings, relation, types.insert(target.id, target.typ), false)
    }
}

impl AggregationBuilder {
    /// A builder that binds `target` to the fold of `reducer`, which starts
    /// from `init` where there is one.
    pub fn new(target: Var, reducer: Reducer, init: Option<Value>) -> (b: AggregationBuilder)
        ensures
            b.target@ == target@,
            b.reducer == reducer,
            opt_value_view(b.init) == opt_value_view(init),
            views(b.vars@) == Seq::<VarView>::empty(),
            views(b.bindings@) == Seq::<ColBindingView>::empty(),
    {
        let b = AggregationBuilder {
            target,
            vars: Vec::new(),
            bindings: Vec::new(),
            init,
            reducer,
        };
        assert(views(b.vars@) =~= Seq::<VarView>::empty());
        assert(views(b.bindings@) =~= Seq::<ColBindingView>::empty());
        b
    }

    /// Adds one argument of the reducer after those that are there.
    pub fn arg(&mut self, var: Var)
        ensures
            views(final(self).vars@) == views(old(self).vars@).push(var@),
            views(final(self).bindings@) == views(old(self).bindings@),
            final(self).target@ == old(self).target@,
            final(self).reducer == old(self).reducer,
            opt_value_view(final(self).init) == opt_value_view(old(self).init),
    {
        let ghost before = views(self.vars@);
        self.vars.push(var);
        assert(views(self.vars@) =~= before.push(var@));
    }

    /// Adds one binding after those that are there.
    pub fn bind_one(&mut self, binding: ColBinding) -> (r: Result<(), Error>)
        ensures
            r is Ok,
            views(final(self).bindings@) == views(old(self).bindings@).push(binding@),
            views(final(self).vars@) == views(old(self).vars@),
            final(self).target@ == old(self).target@,
            final(self).reducer == old(self).reducer,
            opt_value_view(final(self).init) == opt_value_view(old(self).init),
    {
        let ghost before = views(self.bindings@);
        self.bindings.push(binding);
        assert(views(self.bindings@) =~= before.push(binding@));
        Ok(())
    }

    /// Checks the target and the bindings against the declaration of the
    /// relation and gives the aggregation. Whatever the result, `bound_vars`
    /// holds the type of the target afterwards, and is otherwise as it was:
    /// after an error too, the variables that have a type are those that had
    /// one.
    pub fn finalize(self, relation: &Declaration, bound_vars: &mut VarTypes) -> (r: Result<
        Aggregation,
        Error,
    >)
        ensures
            r matches Ok(a) ==> a@ == (AggregationView {
                target: self.target@,
                group_by: views(self.bindings@),
                over: relation@.id,
                args: views(self.vars@),
                init: opt_value_view(self.init),
                reducer: self.reducer,
            }) && check_aggregation(
                self.target@,
                views(self.bindings@),
                relation@,
                old(bound_vars)@,
            ) == Ok::<Map<Seq<char>, ColType>, ErrorView>(final(bound_vars)@),
            r matches Err(e) ==> check_aggregation(
                self.target@,
                views(self.bindings@),
                relation@,
                old(bound_vars)@,
            ) == Err::<Map<Seq<char>, ColType>, ErrorView>(e@),
            final(bound_vars)@ == old(bound_vars)@.insert(self.target@.id, self.target@.typ),
            old(bound_vars)@.contains_key(self.target@.id) ==> final(bound_vars)@.dom() == old(
                bound_vars,
            )@.dom(),
    {
        proof {
            if bound_vars@.contains_key(self.target@.id) {
                assert(bound_vars@.insert(self.target@.id, self.target@.typ).dom() =~= bound_vars@.dom());
            }
        }
        if bound_vars.insert(self.target.id.clone(), self.target.typ).is_some() {
            return Err(Error::AggregationBoundTarget(self.target.id.clone()));
        }
        match check_all(&self.bindings, relation, bound_vars, false) {
            Ok(()) => Ok(
                Aggregation {
                    target: self.target,
                    group_by: self.bindings,
                    over: relation.id.clone(),
                    args: self.vars,
                    init: self.init,
                    reducer: self.reducer,
                },
            ),
            Err(e) => Err(e),
        }
    }
}

} // verus!
