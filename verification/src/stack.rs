//! A quantity-tagged item reference: an item name paired with a count.

use vstd::prelude::*;

verus! {

/// The number of items in a stack.
pub type Count = usize;

/// The mathematical value of a [`Stack`]: an item name (as a character
/// sequence) and a count.
pub ghost struct StackView {
    pub item: Seq<char>,
    pub count: nat,
}

/// A stack of some number of all the same item.
#[derive(Debug, PartialEq, Eq)]
pub struct Stack {
    name: String,
    count: Count,
}

impl View for Stack {
    type V = StackView;

    closed spec fn view(&self) -> StackView {
        StackView { item: self.name@, count: self.count as nat }
    }
}

impl Stack {
    /// Makes a new stack of `name` containing `count` items.
    pub fn new(name: &str, count: Count) -> (r: Self)
        ensures
            r@.item == name@,
            r@.count == count,
    {
        Stack { name: String::from_str(name), count }
    }

    /// The item in the stack.
    pub fn item(&self) -> (r: &str)
        ensures
            r@ == self@.item,
    {
        self.name.as_str()
    }

    /// The number of items in the stack.
    pub fn count(&self) -> (r: Count)
        ensures
            r == self@.count,
    {
        self.count
    }

    /// Makes an exact copy of this stack.
    pub fn duplicate(&self) -> (r: Self)
        ensures
            r@ == self@,
    {
        Stack { name: self.name.clone(), count: self.count }
    }
}

} // verus!
