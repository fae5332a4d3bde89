//! Identifiers of relations, columns, variables and aliases.

use vstd::prelude::*;

verus! {

/// The name of a relation.
#[derive(Debug, PartialEq, Eq, Hash, PartialOrd, Ord)]
pub struct RelationId {
    name: String,
}

/// The name of a column of a relation.
#[derive(Debug, PartialEq, Eq, Hash, PartialOrd, Ord)]
pub struct ColId {
    name: String,
}

/// The identity of a variable of a rule.
#[derive(Debug, PartialEq, Eq, Hash, PartialOrd, Ord)]
pub struct VarId {
    name: String,
}

/// Tells apart the occurrences of one relation in one rule body: the first
/// occurrence carries no alias, the second alias 0, the third alias 1.
#[derive(Debug, Clone, Copy, PartialEq, Eq, Structural, Hash, PartialOrd, Ord)]
pub struct AliasId {
    pub index: usize,
}

impl View for RelationId {
    type V = Seq<char>;

    closed spec fn view(&self) -> Seq<char> {
        self.name@
    }
}

impl View for ColId {
    type V = Seq<char>;

    closed spec fn view(&self) -> Seq<char> {
        self.name@
    }
}

impl View for VarId {
    type V = Seq<char>;

    closed spec fn view(&self) -> Seq<char> {
        self.name@
    }
}

impl RelationId {
    pub fn new(name: &str) -> (id: Self)
        ensures
            id@ == name@,
    {
        RelationId { name: name.to_owned() }
    }

    pub fn as_str(&self) -> (name: &str)
        ensures
            name@ == self@,
    {
        self.name.as_str()
    }

    /// Whether the two identifiers name the same relation.
    pub fn same(&self, other: &RelationId) -> (eq: bool)
        ensures
            eq == (self@ == other@),
    {
        self.name == other.name
    }
}

impl Clone for RelationId {
    fn clone(&self) -> (id: Self)
        ensures
            id@ == self@,
    {
        RelationId { name: self.name.clone() }
    }
}

impl ColId {
    pub fn new(name: &str) -> (id: Self)
        ensures
            id@ == name@,
    {
        ColId { name: name.to_owned() }
    }

    pub fn as_str(&self) -> (name: &str)
        ensures
            name@ == self@,
    {
        self.name.as_str()
    }

    /// Whether the two identifiers name the same column.
    pub fn same(&self, other: &ColId) -> (eq: bool)
        ensures
            eq == (self@ == other@),
    {
        self.name == other.name
    }
}

impl Clone for ColId {
    fn clone(&self) -> (id: Self)
        ensures
            id@ == self@,
    {
        ColId { name: self.name.clone() }
    }
}

impl VarId {
    pub fn new(name: &str) -> (id: Self)
        ensures
            id@ == name@,
    {
        VarId { name: name.to_owned() }
    }

    pub fn as_str(&self) -> (name: &str)
        ensures
            name@ == self@,
    {
        self.name.as_str()
    }

    /// Whether the two identifiers name the same variable.
    pub fn same(&self, other: &VarId) -> (eq: bool)
        ensures
            eq == (self@ == other@),
    {
        self.name == other.name
    }
}

impl Clone for VarId {
    fn clone(&self) -> (id: Self)
        ensures
            id@ == self@,
    {
        VarId { name: self.name.clone() }
    }
}

impl AliasId {
    pub fn new(index: usize) -> (id: Self)
        ensures
            id.index == index,
    {
        AliasId { index }
    }

    /// The alias of the next occurrence, if the machine can count it.
    pub fn next(&self) -> (id: Option<AliasId>)
        ensures
            id == (if self.index < usize::MAX {
                Some(AliasId { index: (self.index + 1) as usize })
            } else {
                None
            }),
    {
        if self.index < usize::MAX {
            Some(AliasId { index: self.index + 1 })
        } else {
            None
        }
    }
}

} // verus!
