//! Tuples: the facts that the machine takes in and gives out, and the input
//! facts that they are made from.

use vstd::prelude::*;
use crate::id::{ColId, RelationId};
use crate::logic::ast::{FactArg, FactArgView};
use crate::value::{views, Cid, Value, ValueView};

verus! {

/// The view of an optional content identifier.
pub open spec fn opt_cid_view(cid: Option<Cid>) -> Option<Seq<u8>> {
    match cid {
        Some(c) => Some(c@),
        None => None,
    }
}

/// A fact of a relation: a value for each of its columns and, for an input
/// fact, the content identifier of its source.
#[derive(Debug, PartialEq, Eq, Hash, PartialOrd, Ord)]
pub struct Tuple {
    pub id: RelationId,
    pub cols: Vec<FactArg>,
    pub cid: Option<Cid>,
}

/// The mathematical content of a [`Tuple`].
pub struct TupleView {
    pub id: Seq<char>,
    pub cols: Seq<FactArgView>,
    pub cid: Option<Seq<u8>>,
}

impl View for Tuple {
    type V = TupleView;

    open spec fn view(&self) -> TupleView {
        TupleView { id: self.id@, cols: views(self.cols@), cid: opt_cid_view(self.cid) }
    }
}

/// The value that `cols` gives the column `col`: that of the last entry for
/// it.
pub open spec fn field_value(cols: Seq<FactArgView>, col: Seq<char>) -> Option<ValueView>
    decreases cols.len(),
{
    if cols.len() == 0 {
        None
    } else if cols.last().col == col {
        Some(cols.last().value)
    } else {
        field_value(cols.drop_last(), col)
    }
}

/// The view of an optional borrowed value.
pub open spec fn opt_ref_view(value: Option<&Value>) -> Option<ValueView> {
    match value {
        Some(v) => Some(v@),
        None => None,
    }
}

impl Tuple {
    pub fn new(id: &str, cols: Vec<FactArg>, cid: Option<Cid>) -> (t: Tuple)
        ensures
            t@ == (TupleView { id: id@, cols: views(cols@), cid: opt_cid_view(cid) }),
    {
        Tuple { id: RelationId::new(id), cols, cid }
    }

    /// The relation of the tuple.
    pub fn id(&self) -> (id: &RelationId)
        ensures
            id@ == self@.id,
    {
        &self.id
    }

    /// The content identifier of the tuple's source, if it has one.
    pub fn cid(&self) -> (cid: &Option<Cid>)
        ensures
            opt_cid_view(*cid) == self@.cid,
    {
        &self.cid
    }

    /// The value of the column `col`, if the tuple has it.
    pub fn col(&self, col: &ColId) -> (r: Option<&Value>)
        ensures
            opt_ref_view(r) == field_value(self@.cols, col@),
    {
        let mut i: usize = self.cols.len();
        let ghost all = self@.cols;
        assert(all.take(i as int) =~= all);
        while i > 0
            invariant
                i <= self.cols.len(),
                all == views(self.cols@),
                field_value(all, col@) == field_value(all.take(i as int), col@),
            decreases i,
        {
            proof {
                let prefix = all.take(i as int);
                assert(prefix.last() == self.cols@[i - 1]@);
                assert(prefix.drop_last() =~= all.take(i - 1));
            }
            if self.cols[i - 1].col.same(col) {
                return Some(&self.cols[i - 1].value);
            }
            i -= 1;
        }
        None
    }
}

impl Clone for Tuple {
    fn clone(&self) -> (t: Self)
        ensures
            t@ == self@,
    {
        let cols = self.cols.clone();
        assert(views(cols@) =~= views(self.cols@));
        let cid = match &self.cid {
            Some(c) => Some(c.clone()),
            None => None,
        };
        Tuple { id: self.id.clone(), cols, cid }
    }
}

/// An input fact: an entity, an attribute of it and the attribute's value,
/// with the content identifiers of the facts that it follows, in the order
/// in which they were given.
#[derive(Debug, PartialEq, Eq)]
pub struct InputTuple {
    pub entity: Value,
    pub attribute: Value,
    pub value: Value,
    pub links: Vec<Cid>,
}

/// The mathematical content of an [`InputTuple`].
pub struct InputTupleView {
    pub entity: ValueView,
    pub attribute: ValueView,
    pub value: ValueView,
    pub links: Seq<Seq<u8>>,
}

impl View for InputTuple {
    type V = InputTupleView;

    open spec fn view(&self) -> InputTupleView {
        InputTupleView {
            entity: self.entity@,
            attribute: self.attribute@,
            value: self.value@,
            links: views(self.links@),
        }
    }
}

impl InputTuple {
    pub fn new(entity: Value, attribute: Value, value: Value, links: Vec<Cid>) -> (t: InputTuple)
        ensures
            t@ == (InputTupleView {
                entity: entity@,
                attribute: attribute@,
                value: value@,
                links: views(links@),
            }),
    {
        InputTuple { entity, attribute, value, links }
    }

    pub fn entity(&self) -> (v: &Value)
        ensures
            v@ == self@.entity,
    {
        &self.entity
    }

    pub fn attr(&self) -> (v: &Value)
        ensures
            v@ == self@.attribute,
    {
        &self.attribute
    }

    pub fn val(&self) -> (v: &Value)
        ensures
            v@ == self@.value,
    {
        &self.value
    }

    pub fn links(&self) -> (links: &Vec<Cid>)
        ensures
            views(links@) == self@.links,
    {
        &self.links
    }
}

impl Clone for InputTuple {
    fn clone(&self) -> (t: Self)
        ensures
            t@ == self@,
    {
        let links = self.links.clone();
        assert(views(links@) =~= views(self.links@));
        InputTuple {
            entity: self.entity.clone(),
            attribute: self.attribute.clone(),
            value: self.value.clone(),
            links,
        }
    }
}


/// The tuple that an input fact is pushed as: a tuple of the relation
/// `evac`, with the fact's entity, attribute and value, and with the fact's
/// content identifier as its source.
pub open spec fn evac_tuple(fact: InputTupleView, cid: Seq<u8>) -> TupleView {
    TupleView {
        id: "evac"@,
        cols: seq![
            FactArgView { col: "entity"@, value: fact.entity },
            FactArgView { col: "attribute"@, value: fact.attribute },
            FactArgView { col: "value"@, value: fact.value },
        ],
        cid: Some(cid),
    }
}

/// The tuple that a link of an input fact is pushed as: a tuple of the
/// relation `links`, from the fact's content identifier to the link's.
pub open spec fn link_tuple(from: Seq<u8>, to: Seq<u8>) -> TupleView {
    TupleView {
        id: "links"@,
        cols: seq![
            FactArgView { col: "from"@, value: ValueView::Cid(from) },
            FactArgView { col: "to"@, value: ValueView::Cid(to) },
        ],
        cid: None,
    }
}

/// The tuples that an input fact is pushed as: its `evac` tuple, and a
/// `links` tuple for each of its links, in their order.
pub open spec fn pushed_as(fact: InputTupleView, cid: Seq<u8>) -> Seq<TupleView> {
    seq![evac_tuple(fact, cid)] + fact.links.map_values(|to: Seq<u8>| link_tuple(cid, to))
}

impl InputTuple {
    /// The tuples that the fact is pushed as, where `cid` is its content
    /// identifier.
    pub fn to_tuples(&self, cid: &Cid) -> (tuples: Vec<Tuple>)
        ensures
            views(tuples@) == pushed_as(self@, cid@),
    {
        let ghost want = pushed_as(self@, cid@);
        let ghost links = self@.links.map_values(|to: Seq<u8>| link_tuple(cid@, to));
        let mut tuples: Vec<Tuple> = Vec::new();
        let mut cols: Vec<FactArg> = Vec::new();
        cols.push(FactArg::new("entity", self.entity.clone()));
        cols.push(FactArg::new("attribute", self.attribute.clone()));
        cols.push(FactArg::new("value", self.value.clone()));
        assert(views(cols@) =~= evac_tuple(self@, cid@).cols);
        tuples.push(Tuple::new("evac", cols, Some(cid.clone())));
        assert(views(tuples@) =~= seq![evac_tuple(self@, cid@)]);
        let mut i: usize = 0;
        while i < self.links.len()
            invariant
                i <= self.links.len(),
                links == self@.links.map_values(|to: Seq<u8>| link_tuple(cid@, to)),
                views(tuples@) =~= seq![evac_tuple(self@, cid@)] + links.take(i as int),
            decreases self.links.len() - i,
        {
            let ghost before = views(tuples@);
            assert(self@.links[i as int] == self.links@[i as int]@);
            let mut pair: Vec<FactArg> = Vec::new();
            pair.push(FactArg::new("from", Value::Cid(cid.clone())));
            pair.push(FactArg::new("to", Value::Cid(self.links[i].clone())));
            assert(views(pair@) =~= links[i as int].cols);
            tuples.push(Tuple::new("links", pair, None));
            proof {
                assert(views(tuples@) =~= before.push(links[i as int]));
                assert(links.take(i + 1) =~= links.take(i as int).push(links[i as int]));
            }
            i += 1;
        }
        assert(links.take(i as int) =~= links);
        tuples
    }
}

} // verus!
