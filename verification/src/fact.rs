//! The facts as a host hands them in and takes them out.

use std::rc::Rc;
use vstd::prelude::*;
use crate::tuple::{InputTuple, InputTupleView, Tuple, TupleView};
use crate::value::{views, Cid, Value, ValueView};

verus! {

/// An input fact as a host hands it in.
#[derive(Debug)]
pub struct InputFact(pub InputTuple);

/// A derived fact as a host takes it out.
#[derive(Debug)]
pub struct OutputFact(pub Rc<Tuple>);

impl View for InputFact {
    type V = InputTupleView;

    open spec fn view(&self) -> InputTupleView {
        self.0@
    }
}

impl View for OutputFact {
    type V = TupleView;

    open spec fn view(&self) -> TupleView {
        (*self.0)@
    }
}

impl InputFact {
    /// The fact that the attribute `attribute` of the entity `entity` has the
    /// value `value`, after the facts that `links` name, in their order.
    pub fn new(entity: &str, attribute: &str, value: Value, links: Vec<Cid>) -> (fact: InputFact)
        ensures
            fact@ == (InputTupleView {
                entity: ValueView::Str(entity@),
                attribute: ValueView::Str(attribute@),
                value: value@,
                links: views(links@),
            }),
    {
        InputFact(
            InputTuple::new(Value::from_str(entity), Value::from_str(attribute), value, links),
        )
    }

    /// The input tuple that the fact holds.
    pub fn into_inner(self) -> (tuple: InputTuple)
        ensures
            tuple == self.0,
    {
        self.0
    }
}

impl OutputFact {
    /// The output fact that holds `tuple`.
    pub fn new(tuple: Tuple) -> (fact: OutputFact)
        ensures
            fact@ == tuple@,
    {
        OutputFact(Rc::new(tuple))
    }

    /// A copy of the tuple that the fact holds.
    pub fn tuple(&self) -> (tuple: Tuple)
        ensures
            tuple@ == self@,
    {
        let inner: &Tuple = &self.0;
        inner.clone()
    }
}

} // verus!
