//! Variables of rules, and the values that a column of a term is bound to.

use vstd::prelude::*;
use crate::id::VarId;
use crate::types::ColType;
use crate::value::{Value, ValueView};

verus! {

/// A variable of a rule, with the type it was declared with.
#[derive(Debug, PartialEq, Eq)]
pub struct Var {
    pub id: VarId,
    pub typ: ColType,
}

/// The mathematical content of a [`Var`].
pub struct VarView {
    pub id: Seq<char>,
    pub typ: ColType,
}

impl View for Var {
    type V = VarView;

    open spec fn view(&self) -> VarView {
        VarView { id: self.id@, typ: self.typ }
    }
}

impl Var {
    /// A variable that admits every value.
    pub fn new(name: &str) -> (v: Var)
        ensures
            v@ == (VarView { id: name@, typ: ColType::Any }),
    {
        Var { id: VarId::new(name), typ: ColType::Any }
    }

    /// A variable of the given type.
    pub fn typed(name: &str, typ: ColType) -> (v: Var)
        ensures
            v@ == (VarView { id: name@, typ }),
    {
        Var { id: VarId::new(name), typ }
    }

    pub fn id(&self) -> (id: &VarId)
        ensures
            id@ == self@.id,
    {
        &self.id
    }

    pub fn typ(&self) -> (typ: ColType)
        ensures
            typ == self@.typ,
    {
        self.typ
    }
}

impl Clone for Var {
    fn clone(&self) -> (v: Self)
        ensures
            v@ == self@,
    {
        Var { id: self.id.clone(), typ: self.typ }
    }
}

/// What a column of a term is bound to: a literal value or a variable.
#[derive(Debug, PartialEq, Eq)]
pub enum ColVal {
    Lit(Value),
    Binding(Var),
}

/// The mathematical content of a [`ColVal`].
pub enum ColValView {
    Lit(ValueView),
    Binding(VarView),
}

impl View for ColVal {
    type V = ColValView;

    open spec fn view(&self) -> ColValView {
        match self {
            ColVal::Lit(v) => ColValView::Lit(v@),
            ColVal::Binding(v) => ColValView::Binding(v@),
        }
    }
}

impl Clone for ColVal {
    fn clone(&self) -> (v: Self)
        ensures
            v@ == self@,
    {
        match self {
            ColVal::Lit(v) => ColVal::Lit(v.clone()),
            ColVal::Binding(v) => ColVal::Binding(v.clone()),
        }
    }
}

/// One column of a term together with what it is bound to.
#[derive(Debug, PartialEq, Eq)]
pub struct ColBinding {
    pub col: crate::id::ColId,
    pub val: ColVal,
}

/// The mathematical content of a [`ColBinding`].
pub struct ColBindingView {
    pub col: Seq<char>,
    pub val: ColValView,
}

impl View for ColBinding {
    type V = ColBindingView;

    open spec fn view(&self) -> ColBindingView {
        ColBindingView { col: self.col@, val: self.val@ }
    }
}

impl ColBinding {
    /// Binds the column `col` to the literal `value`.
    pub fn lit(col: &str, value: Value) -> (b: ColBinding)
        ensures
            b@ == (ColBindingView { col: col@, val: ColValView::Lit(value@) }),
    {
        ColBinding { col: crate::id::ColId::new(col), val: ColVal::Lit(value) }
    }

    /// Binds the column `col` to the variable `var`.
    pub fn var(col: &str, var: Var) -> (b: ColBinding)
        ensures
            b@ == (ColBindingView { col: col@, val: ColValView::Binding(var@) }),
    {
        ColBinding { col: crate::id::ColId::new(col), val: ColVal::Binding(var) }
    }
}

impl Clone for ColBinding {
    fn clone(&self) -> (b: Self)
        ensures
            b@ == self@,
    {
        ColBinding { col: self.col.clone(), val: self.val.clone() }
    }
}

} // verus!
