//! Column types, with checking and unification.

use vstd::prelude::*;
use crate::value::{Value, ValueView};

verus! {

/// The type of a column: one of the scalar types, or `Any`, which admits
/// every value.
#[derive(Debug, Clone, Copy, PartialEq, Eq, Structural, Hash)]
pub enum ColType {
    Bool,
    I64,
    Str,
    Cid,
    Any,
}

/// A value or a type that does not fit the type expected of it.
#[derive(Debug, Clone, Copy, PartialEq, Eq, Structural)]
pub struct TypeMismatch {
    pub expected: ColType,
    pub got: ColType,
}

/// The scalar type that a value carries as its tag.
pub open spec fn tag_of(value: ValueView) -> ColType {
    match value {
        ValueView::Bool(_) => ColType::Bool,
        ValueView::I64(_) => ColType::I64,
        ValueView::Str(_) => ColType::Str,
        ValueView::Cid(_) => ColType::Cid,
    }
}

/// Whether a column of type `typ` admits `value`.
pub open spec fn admits(typ: ColType, value: ValueView) -> bool {
    typ == ColType::Any || typ == tag_of(value)
}

/// The unification of two column types, where there is one: `Any` is the
/// identity, and two scalar types unify only if they are equal.
pub open spec fn unified(a: ColType, b: ColType) -> Option<ColType> {
    if a == b {
        Some(a)
    } else if b == ColType::Any {
        Some(a)
    } else if a == ColType::Any {
        Some(b)
    } else {
        None
    }
}

impl ColType {
    /// The tag of `value`.
    pub fn of(value: &Value) -> (typ: ColType)
        ensures
            typ == tag_of(value@),
    {
        match value {
            Value::Bool(_) => ColType::Bool,
            Value::I64(_) => ColType::I64,
            Value::Str(_) => ColType::Str,
            Value::Cid(_) => ColType::Cid,
        }
    }

    /// Succeeds when this type is `Any` or equals the tag of `value`.
    pub fn check(&self, value: &Value) -> (r: Result<(), TypeMismatch>)
        ensures
            r is Ok <==> admits(*self, value@),
            r matches Err(e) ==> e == (TypeMismatch { expected: *self, got: tag_of(value@) }),
    {
        let got = ColType::of(value);
        if *self == ColType::Any || *self == got {
            Ok(())
        } else {
            Err(TypeMismatch { expected: *self, got })
        }
    }

    /// The unification of this type with `other`.
    pub fn unify(&self, other: &ColType) -> (r: Result<ColType, TypeMismatch>)
        ensures
            r matches Ok(t) ==> unified(*self, *other) == Some(t),
            r matches Err(e) ==> unified(*self, *other).is_none() && e == (TypeMismatch {
                expected: *self,
                got: *other,
            }),
    {
        if *self == *other {
            Ok(*self)
        } else if *other == ColType::Any {
            Ok(*self)
        } else if *self == ColType::Any {
            Ok(*other)
        } else {
            Err(TypeMismatch { expected: *self, got: *other })
        }
    }
}

/// Unification does not depend on the order of its arguments.
pub proof fn unify_commutative(a: ColType, b: ColType)
    ensures
        unified(a, b) == unified(b, a),
{
}

/// Unifying three types gives the same result however they are grouped.
pub proof fn unify_associative(a: ColType, b: ColType, c: ColType)
    ensures
        (match unified(a, b) {
            Some(ab) => unified(ab, c),
            None => None,
        }) == (match unified(b, c) {
            Some(bc) => unified(a, bc),
            None => None,
        }),
{
}

/// `Any` is the identity of unification.
pub proof fn unify_any_identity(a: ColType)
    ensures
        unified(a, ColType::Any) == Some(a),
        unified(ColType::Any, a) == Some(a),
{
}

/// A value is admitted by the unification of two types exactly when both
/// types admit it.
pub proof fn unified_admits_both(a: ColType, b: ColType, value: ValueView)
    requires
        unified(a, b).is_some(),
    ensures
        admits(unified(a, b).unwrap(), value) <==> admits(a, value) && admits(b, value),
{
}

} // verus!
