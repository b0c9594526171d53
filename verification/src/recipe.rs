//! A named conversion rule: one result stack, a production-method label, and
//! an ordered list of ingredient stacks.

use vstd::prelude::*;

use crate::stack::Stack;
use crate::stack::StackView;

verus! {

/// The mathematical value of a [`Recipe`].
pub ghost struct RecipeView {
    pub result: StackView,
    pub method: Seq<char>,
    pub ingredients: Seq<StackView>,
}

/// A known way to produce a stack from a set of other stacks.
#[derive(Debug, PartialEq, Eq)]
pub struct Recipe {
    result: Stack,
    method: String,
    ingredients: Vec<Stack>,
}

impl View for Recipe {
    type V = RecipeView;

    closed spec fn view(&self) -> RecipeView {
        RecipeView {
            result: self.result@,
            method: self.method@,
            ingredients: self.ingredients@.map_values(|s: Stack| s@),
        }
    }
}

/// Compares two string slices by their character sequences.
pub(crate) fn str_equal(a: &str, b: &str) -> (r: bool)
    ensures
        r == (a@ == b@),
{
    String::from_str(a) == String::from_str(b)
}

impl Recipe {
    /// Creates a new recipe representing the ability to convert `ingredients`
    /// into `result` using `method`.
    pub fn new(result: Stack, method: &str, ingredients: Vec<Stack>) -> (r: Self)
        ensures
            r@.result == result@,
            r@.method == method@,
            r@.ingredients.len() == ingredients@.len(),
            forall|i: int|
                0 <= i < ingredients@.len() ==> r@.ingredients[i] == #[trigger] ingredients@[i]@,
    {
        let r = Recipe { result, method: String::from_str(method), ingredients };
        proof {
            assert(r@.ingredients =~= r.ingredients@.map_values(|s: Stack| s@));
        }
        r
    }

    /// The stack that is produced by executing this recipe once.
    pub fn result(&self) -> (r: &Stack)
        ensures
            r@ == self@.result,
    {
        &self.result
    }

    /// The method by which the ingredients are turned into the result.
    pub fn method(&self) -> (r: &str)
        ensures
            r@ == self@.method,
    {
        self.method.as_str()
    }

    /// The stacks that are required to execute this recipe once.
    pub fn ingredients(&self) -> (r: &Vec<Stack>)
        ensures
            r@.len() == self@.ingredients.len(),
            forall|i: int| 0 <= i < r@.len() ==> (#[trigger] r@[i])@ == self@.ingredients[i],
    {
        &self.ingredients
    }

    /// Makes an exact copy of this recipe.
    pub fn duplicate(&self) -> (r: Self)
        ensures
            r@ == self@,
    {
        let mut ingredients: Vec<Stack> = Vec::new();
        let mut i: usize = 0;
        while i < self.ingredients.len()
            invariant
                i <= self.ingredients.len(),
                ingredients@.len() == i,
                forall|j: int| 0 <= j < i ==> ingredients@[j]@ == #[trigger] self.ingredients@[j]@,
            decreases self.ingredients.len() - i,
        {
            ingredients.push(self.ingredients[i].duplicate());
            i += 1;
        }
        let r = Recipe {
            result: self.result.duplicate(),
            method: self.method.clone(),
            ingredients,
        };
        proof {
            assert(r@.ingredients =~= self@.ingredients);
        }
        r
    }

    /// Tells whether this recipe's method label equals `m`.
    pub(crate) fn method_is(&self, m: &str) -> (r: bool)
        ensures
            r == (self@.method == m@),
    {
        str_equal(self.method.as_str(), m)
    }

    /// Builds the pseudo-recipe that marks `item` as a raw material: it is
    /// self-producing with method label "Raw Material".
    pub(crate) fn raw_material(item: &str) -> (r: Self)
        ensures
            r@ == raw_material_view(item@),
    {
        let r = Recipe {
            result: Stack::new(item, 1),
            method: String::from_str("Raw Material"),
            ingredients: vec![Stack::new(item, 1)],
        };
        proof {
            assert(r@.ingredients =~= raw_material_view(item@).ingredients);
        }
        r
    }

    /// Builds the pseudo-recipe that marks `item` as drawn from the
    /// pre-supplied resource pool, with method label "In Storage".
    pub(crate) fn in_storage(item: &str) -> (r: Self)
        ensures
            r@ == in_storage_view(item@),
    {
        let r = Recipe {
            result: Stack::new(item, 1),
            method: String::from_str("In Storage"),
            ingredients: vec![Stack::new(item, 1)],
        };
        proof {
            assert(r@.ingredients =~= in_storage_view(item@).ingredients);
        }
        r
    }
}

/// The value of the self-producing "Raw Material" pseudo-recipe for `item`.
pub open spec fn raw_material_view(item: Seq<char>) -> RecipeView {
    RecipeView {
        result: StackView { item, count: 1 },
        method: "Raw Material"@,
        ingredients: seq![StackView { item, count: 1 }],
    }
}

/// The value of the self-producing "In Storage" pseudo-recipe for `item`.
pub open spec fn in_storage_view(item: Seq<char>) -> RecipeView {
    RecipeView {
        result: StackView { item, count: 1 },
        method: "In Storage"@,
        ingredients: seq![StackView { item, count: 1 }],
    }
}

} // verus!
