use vstd::prelude::*;
use crate::value::Value;

verus! {

/// A scratch stack of values, apart from the variable slots.
#[derive(Debug)]
pub struct Stack {
    items: Vec<Value>,
}

impl View for Stack {
    type V = Seq<Value>;

    closed spec fn view(&self) -> Seq<Value> {
        self.items@
    }
}

impl Stack {
    pub fn new() -> (r: Stack)
        ensures
            r@ == Seq::<Value>::empty(),
    {
        Stack { items: Vec::new() }
    }

    pub fn push(&mut self, value: Value)
        ensures
            final(self)@ == old(self)@.push(value),
    {
        self.items.push(value);
    }

    pub fn pop(&mut self) -> (r: Value)
        requires
            old(self)@.len() > 0,
        ensures
            r == old(self)@.last(),
            final(self)@ == old(self)@.drop_last(),
    {
        self.items.pop().unwrap()
    }
}

} // verus!
