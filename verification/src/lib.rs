//! A crafting calculator: given a catalog of recipes, a target stack, and a
//! pool of already-available resources, it derives an ordered plan of
//! `(recipe, repeat-count)` steps that produces the target, never using an
//! ingredient before a strictly earlier step has produced it.

pub mod stack;
pub mod recipe;
pub mod pool;
pub mod queue;
pub mod calculator;
pub mod parse;
pub mod render;

pub use stack::Count;
pub use stack::Stack;
pub use stack::StackView;
pub use recipe::Recipe;
pub use recipe::RecipeView;
pub use calculator::Calculator;
pub use calculator::CalcError;
pub use parse::RecipesParser;
