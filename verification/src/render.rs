//! The textual form of stacks, recipes and plan steps: a stack prints as
//! `item (count)`; a recipe scaled by a repeat count prints as
//! `item (count*repeats) (method):` followed by one indented
//! `item (count*repeats)` line per ingredient.

use vstd::prelude::*;

use crate::stack::Count;
use crate::stack::Stack;
use crate::stack::StackView;
use crate::recipe::Recipe;
use crate::recipe::RecipeView;
use crate::parse::to_chars;
use crate::parse::from_chars;

verus! {

/// The character for the decimal digit `d`.
pub open spec fn digit_char(d: nat) -> char {
    if d == 0 {
        '0'
    } else if d == 1 {
        '1'
    } else if d == 2 {
        '2'
    } else if d == 3 {
        '3'
    } else if d == 4 {
        '4'
    } else if d == 5 {
        '5'
    } else if d == 6 {
        '6'
    } else if d == 7 {
        '7'
    } else if d == 8 {
        '8'
    } else {
        '9'
    }
}

/// The decimal digits of `n`, most significant first.
pub open spec fn dec_digits(n: nat) -> Seq<char>
    decreases n,
{
    if n < 10 {
        seq![digit_char(n)]
    } else {
        dec_digits(n / 10).push(digit_char(n % 10))
    }
}

/// The text of a stack: the item name, then its count in parentheses.
pub open spec fn spec_render_stack(item: Seq<char>, count: nat) -> Seq<char> {
    item + seq![' ', '('] + dec_digits(count) + seq![')']
}

/// One indented ingredient line, scaled by `repeats`.
pub open spec fn ingredient_line(ing: StackView, repeats: nat) -> Seq<char> {
    seq![' ', ' ', ' ', ' '] + spec_render_stack(ing.item, ing.count * repeats) + seq!['\n']
}

/// The indented ingredient lines of `ings`, scaled by `repeats`, in order.
pub open spec fn ingredient_lines(ings: Seq<StackView>, repeats: nat) -> Seq<char>
    decreases ings.len(),
{
    if ings.len() == 0 {
        Seq::empty()
    } else {
        ingredient_line(ings[0], repeats) + ingredient_lines(ings.drop_first(), repeats)
    }
}

/// The text of a recipe scaled by `repeats`: the header line with the
/// result count multiplied out and the method label, then one line per
/// ingredient.
pub open spec fn spec_render_recipe(r: RecipeView, repeats: nat) -> Seq<char> {
    r.result.item + seq![' ', '('] + dec_digits(r.result.count * repeats) + seq![')', ' ', '(']
        + r.method + seq![')', ':', '\n'] + ingredient_lines(r.ingredients, repeats)
}

/// Whether every scaled count of the recipe fits in the count type.
pub open spec fn renderable(r: RecipeView, repeats: nat) -> bool {
    &&& r.result.count * repeats <= Count::MAX
    &&& forall|i: int|
        0 <= i < r.ingredients.len() ==> (#[trigger] r.ingredients[i]).count * repeats
            <= Count::MAX
}

proof fn lemma_ingredient_lines_snoc(ings: Seq<StackView>, i: int, repeats: nat)
    requires
        0 <= i < ings.len(),
    ensures
        ingredient_lines(ings.take(i + 1), repeats) == ingredient_lines(ings.take(i), repeats)
            + ingredient_line(ings[i], repeats),
    decreases i,
{
    let a = ings.take(i + 1);
    let b = ings.take(i);
    if i == 0 {
        assert(a[0] == ings[0]);
        assert(a.drop_first() =~= Seq::<StackView>::empty());
        assert(b =~= Seq::<StackView>::empty());
        assert(ingredient_lines(a, repeats) =~= ingredient_line(ings[0], repeats));
        assert(ingredient_lines(b, repeats) + ingredient_line(ings[0], repeats)
            =~= ingredient_line(ings[0], repeats));
    } else {
        assert(a[0] == ings[0]);
        assert(b[0] == ings[0]);
        assert(a.drop_first() =~= ings.drop_first().take(i));
        assert(b.drop_first() =~= ings.drop_first().take(i - 1));
        assert(ings.drop_first()[i - 1] == ings[i]);
        lemma_ingredient_lines_snoc(ings.drop_first(), i - 1, repeats);
        assert(ingredient_lines(a, repeats) =~= ingredient_line(ings[0], repeats)
            + ingredient_lines(ings.drop_first().take(i), repeats));
        assert(ingredient_lines(b, repeats) + ingredient_line(ings[i], repeats)
            =~= ingredient_line(ings[0], repeats) + (ingredient_lines(
            ings.drop_first().take(i - 1),
            repeats,
        ) + ingredient_line(ings[i], repeats)));
    }
}

/// Appends the characters of `s` to `out`.
#[verifier::loop_isolation(false)]
fn push_str_chars(out: &mut Vec<char>, s: &str)
    ensures
        final(out)@ == old(out)@ + s@,
{
    let cs = to_chars(s);
    let mut i: usize = 0;
    while i < cs.len()
        invariant
            i <= cs@.len(),
            out@ =~= old(out)@ + cs@.take(i as int),
        decreases cs@.len() - i,
    {
        out.push(cs[i]);
        proof {
            assert(out@ =~= old(out)@ + cs@.take(i + 1));
        }
        i += 1;
    }
    proof {
        assert(out@ =~= old(out)@ + s@);
    }
}

/// The character for the decimal digit `d`.
fn digit_char_of(d: Count) -> (r: char)
    requires
        d < 10,
    ensures
        r == digit_char(d as nat),
{
    if d == 0 {
        '0'
    } else if d == 1 {
        '1'
    } else if d == 2 {
        '2'
    } else if d == 3 {
        '3'
    } else if d == 4 {
        '4'
    } else if d == 5 {
        '5'
    } else if d == 6 {
        '6'
    } else if d == 7 {
        '7'
    } else if d == 8 {
        '8'
    } else {
        '9'
    }
}

/// Appends the decimal digits of `n` to `out`.
fn push_decimal(out: &mut Vec<char>, n: Count)
    ensures
        final(out)@ == old(out)@ + dec_digits(n as nat),
    decreases n,
{
    if n < 10 {
        out.push(digit_char_of(n));
        proof {
            assert(out@ =~= old(out)@ + dec_digits(n as nat));
        }
    } else {
        proof {
            assert(n / 10 < n) by (nonlinear_arith)
                requires
                    n >= 10,
            ;
        }
        push_decimal(out, n / 10);
        out.push(digit_char_of(n % 10));
        proof {
            assert(out@ =~= old(out)@ + dec_digits(n as nat));
        }
    }
}

impl Stack {
    /// The textual form of this stack: `item (count)`.
    pub fn render(&self) -> (r: String)
        ensures
            r@ == spec_render_stack(self@.item, self@.count),
    {
        let mut out: Vec<char> = Vec::new();
        push_str_chars(&mut out, self.item());
        out.push(' ');
        out.push('(');
        push_decimal(&mut out, self.count());
        out.push(')');
        proof {
            assert(out@ =~= spec_render_stack(self@.item, self@.count));
        }
        from_chars(out.as_slice())
    }
}

impl Recipe {
    /// The textual form of this recipe scaled by `repeats`, or nothing when
    /// a scaled count does not fit in the count type.
    #[verifier::loop_isolation(false)]
    pub fn render(&self, repeats: Count) -> (r: Option<String>)
        ensures
            r is Some <==> renderable(self@, repeats as nat),
            r matches Some(text) ==> text@ == spec_render_recipe(self@, repeats as nat),
    {
        let mut out: Vec<char> = Vec::new();
        push_str_chars(&mut out, self.result().item());
        out.push(' ');
        out.push('(');
        let scaled = match self.result().count().checked_mul(repeats) {
            Some(v) => v,
            None => {
                return None;
            },
        };
        push_decimal(&mut out, scaled);
        out.push(')');
        out.push(' ');
        out.push('(');
        push_str_chars(&mut out, self.method());
        out.push(')');
        out.push(':');
        out.push('\n');
        let ghost header = self@.result.item + seq![' ', '('] + dec_digits(
            self@.result.count * repeats as nat,
        ) + seq![')', ' ', '('] + self@.method + seq![')', ':', '\n'];
        proof {
            assert(out@ =~= header);
        }
        let ings = self.ingredients();
        let mut i: usize = 0;
        while i < ings.len()
            invariant
                i <= ings@.len(),
                out@ =~= header + ingredient_lines(self@.ingredients.take(i as int), repeats as nat),
                forall|j: int|
                    0 <= j < i ==> (#[trigger] self@.ingredients[j]).count * repeats <= Count::MAX,
            decreases ings@.len() - i,
        {
            let ghost out0 = out@;
            let ing = &ings[i];
            out.push(' ');
            out.push(' ');
            out.push(' ');
            out.push(' ');
            push_str_chars(&mut out, ing.item());
            out.push(' ');
            out.push('(');
            let sc = match ing.count().checked_mul(repeats) {
                Some(v) => v,
                None => {
                    return None;
                },
            };
            push_decimal(&mut out, sc);
            out.push(')');
            out.push('\n');
            proof {
                assert(out@ =~= out0 + ingredient_line(self@.ingredients[i as int], repeats as nat));
                lemma_ingredient_lines_snoc(self@.ingredients, i as int, repeats as nat);
                assert(out@ =~= header + ingredient_lines(
                    self@.ingredients.take(i + 1),
                    repeats as nat,
                ));
            }
            i += 1;
        }
        proof {
            assert(self@.ingredients.take(ings@.len() as int) =~= self@.ingredients);
            assert(out@ =~= spec_render_recipe(self@, repeats as nat));
        }
        Some(from_chars(out.as_slice()))
    }
}

} // verus!
