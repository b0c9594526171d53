//! The textual recipe format: a sequence of recipe blocks. Each block's
//! first line is `<result-item> (<result-count>)[ (<method>)]:` followed
//! either by a single ingredient ` <item> (<count>)` on the same line, or by
//! one or more indented ingredient lines. Item names may contain any
//! character except `(`; counts are unsigned decimal integers whose digits
//! may be grouped with `_` separators. Every ingredient line, and every
//! block, is terminated by a line ending.
//!
//! The grammar is written once as specification functions over character
//! sequences, and the executable parser is proved to return exactly what
//! they describe.

use vstd::prelude::*;

use crate::stack::Count;
use crate::stack::Stack;
use crate::stack::StackView;
use crate::recipe::Recipe;
use crate::recipe::RecipeView;

verus! {

/// Whether `c` is one of the blank characters stripped around item names.
pub open spec fn is_space_char(c: char) -> bool {
    c == ' ' || c == '\t' || c == '\n' || c == '\r'
}

/// Whether `c` is a decimal digit.
pub open spec fn is_digit_char(c: char) -> bool {
    48 <= c as u32 && c as u32 <= 57
}

/// The numeric value of the digit `c`.
pub open spec fn digit_value(c: char) -> nat {
    (c as u32 - 48) as nat
}

/// The first position at or after `i` that does not hold a digit or an
/// underscore.
pub open spec fn digits_end(s: Seq<char>, i: int) -> int
    decreases s.len() - i when 0 <= i <= s.len()
{
    if i < s.len() && (is_digit_char(s[i]) || s[i] == '_') {
        digits_end(s, i + 1)
    } else {
        i
    }
}

/// The value of the digit group from `i` up to `j`, accumulated left to
/// right onto `acc`, skipping underscores.
pub open spec fn digits_value(s: Seq<char>, i: int, j: int, acc: nat) -> nat
    decreases j - i when i <= j <= s.len()
{
    if i < j {
        if s[i] == '_' {
            digits_value(s, i + 1, j, acc)
        } else {
            digits_value(s, i + 1, j, acc * 10 + digit_value(s[i]))
        }
    } else {
        acc
    }
}

/// Parses a count at position `i`: one or more digits, each optionally
/// followed by `_` separators. Yields the value and the next position, or
/// nothing when no digit starts at `i` or the value does not fit in the
/// count type.
pub open spec fn spec_parse_count(s: Seq<char>, i: int) -> Option<(nat, int)> {
    if 0 <= i < s.len() && is_digit_char(s[i]) {
        let j = digits_end(s, i);
        let v = digits_value(s, i, j, 0);
        if v <= Count::MAX as nat {
            Some((v, j))
        } else {
            None
        }
    } else {
        None
    }
}

/// The first position at or after `i` whose character is `c` (or the end).
pub open spec fn scan_to(s: Seq<char>, i: int, c: char) -> int
    decreases s.len() - i when 0 <= i <= s.len()
{
    if i < s.len() && s[i] != c {
        scan_to(s, i + 1, c)
    } else {
        i
    }
}

/// The first position at or after `i` (bounded by `j`) that is not blank.
pub open spec fn skip_spaces(s: Seq<char>, i: int, j: int) -> int
    decreases j - i when i <= j <= s.len()
{
    if i < j && is_space_char(s[i]) {
        skip_spaces(s, i + 1, j)
    } else {
        i
    }
}

/// The position after the last non-blank character in `s[i..j]` (or `i`).
pub open spec fn trim_end_at(s: Seq<char>, i: int, j: int) -> int
    decreases j - i when 0 <= i <= j <= s.len()
{
    if i < j && is_space_char(s[j - 1]) {
        trim_end_at(s, i, j - 1)
    } else {
        j
    }
}

/// `s[i..j]` with blank characters stripped from both ends.
pub open spec fn spec_trim(s: Seq<char>, i: int, j: int) -> Seq<char> {
    let a = skip_spaces(s, i, j);
    let b = trim_end_at(s, a, j);
    s.subrange(a, b)
}

/// Parses a stack at position `i`: a non-empty item name (any characters but
/// `(`, stripped of surrounding blanks), then the count in parentheses.
pub open spec fn spec_parse_stack(s: Seq<char>, i: int) -> Option<(StackView, int)> {
    let j = scan_to(s, i, '(');
    if 0 <= i < j && j < s.len() {
        match spec_parse_count(s, j + 1) {
            Some((v, k)) => if k < s.len() && s[k] == ')' {
                Some((StackView { item: spec_trim(s, i, j), count: v }, k + 1))
            } else {
                None
            },
            None => None,
        }
    } else {
        None
    }
}

/// The position after a line ending at `i` (`\n` or `\r\n`), if one is
/// there.
pub open spec fn spec_line_ending(s: Seq<char>, i: int) -> Option<int> {
    if 0 <= i < s.len() && s[i] == '\n' {
        Some(i + 1)
    } else if 0 <= i && i + 1 < s.len() && s[i] == '\r' && s[i + 1] == '\n' {
        Some(i + 2)
    } else {
        None
    }
}

/// The first position at or after `i` that is not a space or a tab.
pub open spec fn indent_end(s: Seq<char>, i: int) -> int
    decreases s.len() - i when 0 <= i <= s.len()
{
    if i < s.len() && (s[i] == ' ' || s[i] == '\t') {
        indent_end(s, i + 1)
    } else {
        i
    }
}

/// Parses indented ingredient lines from position `i`: each is a line
/// ending, one or more spaces or tabs, and a stack. Returns the stacks in
/// order and the next position.
pub open spec fn spec_parse_indented(s: Seq<char>, i: int) -> (Seq<StackView>, int)
    decreases s.len() - i when 0 <= i <= s.len()
{
    match spec_line_ending(s, i) {
        Some(p) => {
            let q = indent_end(s, p);
            if q > p {
                match spec_parse_stack(s, q) {
                    Some((ing, r)) => if i < r <= s.len() {
                        let rest = spec_parse_indented(s, r);
                        (seq![ing] + rest.0, rest.1)
                    } else {
                        (Seq::empty(), i)
                    },
                    None => (Seq::empty(), i),
                }
            } else {
                (Seq::empty(), i)
            }
        },
        None => (Seq::empty(), i),
    }
}

/// Parses one recipe block at position `i`: the result stack, an optional
/// ` (<method>)` label (`default_method` when absent), a `:`, then either a
/// single ingredient on the same line or one or more indented ingredient
/// lines, terminated by a line ending.
pub open spec fn spec_parse_recipe(s: Seq<char>, i: int, default_method: Seq<char>) -> Option<
    (RecipeView, int),
> {
    match spec_parse_stack(s, i) {
        Some((result, p)) => {
            let has_method = p + 1 < s.len() && s[p] == ' ' && s[p + 1] == '(' && scan_to(
                s,
                p + 2,
                ')',
            ) > p + 2 && scan_to(s, p + 2, ')') < s.len();
            let method = if has_method {
                s.subrange(p + 2, scan_to(s, p + 2, ')'))
            } else {
                default_method
            };
            let p2 = if has_method {
                scan_to(s, p + 2, ')') + 1
            } else {
                p
            };
            if p2 < s.len() && s[p2] == ':' {
                let p3 = p2 + 1;
                let single = if p3 < s.len() && s[p3] == ' ' {
                    spec_parse_stack(s, p3 + 1)
                } else {
                    None
                };
                let body = match single {
                    Some((ing, p4)) => Some((seq![ing], p4)),
                    None => {
                        let multi = spec_parse_indented(s, p3);
                        if multi.0.len() > 0 {
                            Some(multi)
                        } else {
                            None
                        }
                    },
                };
                match body {
                    Some((ingredients, p5)) => match spec_line_ending(s, p5) {
                        Some(p6) => Some(
                            (RecipeView { result, method, ingredients }, p6),
                        ),
                        None => None,
                    },
                    None => None,
                }
            } else {
                None
            }
        },
        None => None,
    }
}

/// How many recipes `spec_parse_recipes` reads from position `i`: blocks are
/// parsed greedily until one fails to parse.
pub open spec fn spec_parse_recipes(s: Seq<char>, i: int, default_method: Seq<char>) -> (
    Seq<RecipeView>,
    int,
)
    decreases s.len() - i when 0 <= i <= s.len()
{
    match spec_parse_recipe(s, i, default_method) {
        Some((r, j)) => if i < j <= s.len() {
            let rest = spec_parse_recipes(s, j, default_method);
            (seq![r] + rest.0, rest.1)
        } else {
            (Seq::empty(), i)
        },
        None => (Seq::empty(), i),
    }
}

/// Relies on str::chars: the characters of the string, in order, which are
/// exactly its view.
#[verifier::external_body]
pub(crate) fn to_chars(s: &str) -> (r: Vec<char>)
    ensures
        r@ == s@,
{
    s.chars().collect()
}

/// Relies on String::from_iter over the characters: builds the string whose
/// view is exactly the given character sequence.
#[verifier::external_body]
pub(crate) fn from_chars(s: &[char]) -> (r: String)
    ensures
        r@ == s@,
{
    s.iter().collect()
}


/// The views of a sequence of stacks.
pub open spec fn stacks_view(v: Seq<Stack>) -> Seq<StackView> {
    v.map_values(|x: Stack| x@)
}

proof fn lemma_digits_end_lb(s: Seq<char>, i: int)
    requires
        0 <= i <= s.len(),
    ensures
        digits_end(s, i) >= i,
    decreases s.len() - i,
{
    if i < s.len() && (is_digit_char(s[i]) || s[i] == '_') {
        lemma_digits_end_lb(s, i + 1);
    }
}

proof fn lemma_digits_value_lb(s: Seq<char>, i: int, j: int, acc: nat)
    requires
        0 <= i <= j <= s.len(),
    ensures
        digits_value(s, i, j, acc) >= acc,
    decreases j - i,
{
    if i < j {
        if s[i] == '_' {
            lemma_digits_value_lb(s, i + 1, j, acc);
        } else {
            lemma_digits_value_lb(s, i + 1, j, acc * 10 + digit_value(s[i]));
        }
    }
}

/// The first position at or after `i` whose character is `c`, or the end.
#[verifier::loop_isolation(false)]
fn find_char(s: &Vec<char>, i: usize, c: char) -> (r: usize)
    requires
        i <= s@.len(),
    ensures
        r as int == scan_to(s@, i as int, c),
        i <= r <= s@.len(),
{
    let mut j = i;
    while j < s.len() && s[j] != c
        invariant
            i <= j <= s@.len(),
            scan_to(s@, i as int, c) == scan_to(s@, j as int, c),
        decreases s@.len() - j,
    {
        j += 1;
    }
    j
}

/// The first position at or after `i` that is not a digit or an underscore.
/// Every position before it holds a digit or an underscore.
#[verifier::loop_isolation(false)]
fn find_digits_end(s: &Vec<char>, i: usize) -> (r: usize)
    requires
        i <= s@.len(),
    ensures
        r as int == digits_end(s@, i as int),
        i <= r <= s@.len(),
        forall|t: int| i <= t < r ==> is_digit_char(s@[t]) || s@[t] == '_',
{
    let mut j = i;
    while j < s.len() && (48 <= s[j] as u32 && s[j] as u32 <= 57 || s[j] == '_')
        invariant
            i <= j <= s@.len(),
            digits_end(s@, i as int) == digits_end(s@, j as int),
            forall|t: int| i <= t < j ==> is_digit_char(s@[t]) || s@[t] == '_',
        decreases s@.len() - j,
    {
        j += 1;
    }
    j
}

/// Parses a count at position `i`, per [`spec_parse_count`].
#[verifier::loop_isolation(false)]
fn parse_count(s: &Vec<char>, i: usize) -> (r: Option<(Count, usize)>)
    requires
        i <= s@.len(),
    ensures
        match r {
            Some(vp) => spec_parse_count(s@, i as int) == Some((vp.0 as nat, vp.1 as int)) && i
                < vp.1 <= s@.len(),
            None => spec_parse_count(s@, i as int) is None,
        },
{
    if i < s.len() && 48 <= s[i] as u32 && s[i] as u32 <= 57 {
        let j = find_digits_end(s, i);
        proof {
            assert(digits_end(s@, i as int) == digits_end(s@, i as int + 1));
            lemma_digits_end_lb(s@, i as int + 1);
        }
        let mut acc: Count = 0;
        let mut t = i;
        while t < j
            invariant
                i <= t <= j <= s@.len(),
                digits_value(s@, i as int, j as int, 0) == digits_value(
                    s@,
                    t as int,
                    j as int,
                    acc as nat,
                ),
                forall|t2: int| i <= t2 < j ==> is_digit_char(s@[t2]) || s@[t2] == '_',
            decreases j - t,
        {
            let c = s[t];
            if c != '_' {
                let d: Count = (c as u32 - 48) as Count;
                if acc <= (Count::MAX - d) / 10 {
                    proof {
                        assert(acc * 10 + d <= Count::MAX) by (nonlinear_arith)
                            requires
                                acc <= (Count::MAX - d) as int / 10,
                                d <= 9,
                        ;
                    }
                    acc = acc * 10 + d;
                } else {
                    proof {
                        assert(acc * 10 + d > Count::MAX) by (nonlinear_arith)
                            requires
                                acc > (Count::MAX - d) as int / 10,
                                d <= 9,
                        ;
                        lemma_digits_value_lb(s@, t + 1, j as int, acc as nat * 10 + digit_value(s@[t as int]));
                    }
                    return None;
                }
            }
            t += 1;
        }
        Some((acc, j))
    } else {
        None
    }
}

/// Parses a stack at position `i`, per [`spec_parse_stack`].
#[verifier::loop_isolation(false)]
fn parse_stack_at(s: &Vec<char>, i: usize) -> (r: Option<(Stack, usize)>)
    requires
        i <= s@.len(),
    ensures
        match r {
            Some(sp) => spec_parse_stack(s@, i as int) == Some((sp.0@, sp.1 as int)) && i < sp.1
                <= s@.len(),
            None => spec_parse_stack(s@, i as int) is None,
        },
{
    let j = find_char(s, i, '(');
    if j == i || j == s.len() {
        return None;
    }
    match parse_count(s, j + 1) {
        Some((v, k)) => {
            if k < s.len() && s[k] == ')' {
                let mut a = i;
                while a < j && (s[a] == ' ' || s[a] == '\t' || s[a] == '\n' || s[a] == '\r')
                    invariant
                        i <= a <= j,
                        skip_spaces(s@, i as int, j as int) == skip_spaces(s@, a as int, j as int),
                    decreases j - a,
                {
                    a += 1;
                }
                let mut b = j;
                while b > a && (s[b - 1] == ' ' || s[b - 1] == '\t' || s[b - 1] == '\n' || s[b - 1]
                    == '\r')
                    invariant
                        a <= b <= j,
                        trim_end_at(s@, a as int, j as int) == trim_end_at(s@, a as int, b as int),
                    decreases b,
                {
                    b -= 1;
                }
                let mut name_chars: Vec<char> = Vec::new();
                let mut t = a;
                while t < b
                    invariant
                        a <= t <= b <= s@.len(),
                        name_chars@ =~= s@.subrange(a as int, t as int),
                    decreases b - t,
                {
                    name_chars.push(s[t]);
                    proof {
                        assert(name_chars@ =~= s@.subrange(a as int, t + 1));
                    }
                    t += 1;
                }
                let name = from_chars(name_chars.as_slice());
                let stack = Stack::new(name.as_str(), v);
                proof {
                    assert(stack@ == (StackView {
                        item: spec_trim(s@, i as int, j as int),
                        count: v as nat,
                    }));
                }
                Some((stack, k + 1))
            } else {
                None
            }
        },
        None => None,
    }
}

/// Parses a line ending at position `i`, per [`spec_line_ending`].
fn parse_line_ending(s: &Vec<char>, i: usize) -> (r: Option<usize>)
    requires
        i <= s@.len(),
    ensures
        match r {
            Some(p) => spec_line_ending(s@, i as int) == Some(p as int) && i < p <= s@.len(),
            None => spec_line_ending(s@, i as int) is None,
        },
{
    if i < s.len() && s[i] == '\n' {
        Some(i + 1)
    } else if i < s.len() && s.len() - i >= 2 && s[i] == '\r' && s[i + 1] == '\n' {
        Some(i + 2)
    } else {
        None
    }
}

/// Parses one indented ingredient line at position `i`: a line ending, one
/// or more spaces or tabs, and a stack. The returned facts unfold one step
/// of [`spec_parse_indented`].
#[verifier::loop_isolation(false)]
fn parse_one_indented(s: &Vec<char>, i: usize) -> (r: Option<(Stack, usize)>)
    requires
        i <= s@.len(),
    ensures
        match r {
            Some(sp) => i < sp.1 <= s@.len() && spec_parse_indented(s@, i as int)
                == (seq![sp.0@] + spec_parse_indented(s@, sp.1 as int).0, spec_parse_indented(
                s@,
                sp.1 as int,
            ).1),
            None => spec_parse_indented(s@, i as int) == (Seq::<StackView>::empty(), i as int),
        },
{
    match parse_line_ending(s, i) {
        Some(p) => {
            let mut q = p;
            while q < s.len() && (s[q] == ' ' || s[q] == '\t')
                invariant
                    p <= q <= s@.len(),
                    indent_end(s@, p as int) == indent_end(s@, q as int),
                decreases s@.len() - q,
            {
                q += 1;
            }
            if q == p {
                return None;
            }
            match parse_stack_at(s, q) {
                Some((ing, r2)) => Some((ing, r2)),
                None => None,
            }
        },
        None => None,
    }
}

/// Parses the indented ingredient lines at position `i`, per
/// [`spec_parse_indented`].
#[verifier::loop_isolation(false)]
fn parse_indented(s: &Vec<char>, i: usize) -> (r: (Vec<Stack>, usize))
    requires
        i <= s@.len(),
    ensures
        stacks_view(r.0@) == spec_parse_indented(s@, i as int).0,
        r.1 as int == spec_parse_indented(s@, i as int).1,
        i <= r.1 <= s@.len(),
{
    let mut acc: Vec<Stack> = Vec::new();
    let mut cur = i;
    let mut done = false;
    while !done
        invariant
            i <= cur <= s@.len(),
            spec_parse_indented(s@, i as int).0 =~= stacks_view(acc@) + spec_parse_indented(
                s@,
                cur as int,
            ).0,
            spec_parse_indented(s@, i as int).1 == spec_parse_indented(s@, cur as int).1,
            done ==> spec_parse_indented(s@, cur as int) == (
                Seq::<StackView>::empty(),
                cur as int,
            ),
        decreases s@.len() - cur + (if done {
            0int
        } else {
            1int
        }),
    {
        let ghost acc0 = acc@;
        match parse_one_indented(s, cur) {
            Some((ing, p)) => {
                acc.push(ing);
                proof {
                    assert(stacks_view(acc@) =~= stacks_view(acc0).push(ing@));
                    assert(spec_parse_indented(s@, i as int).0 =~= stacks_view(acc@)
                        + spec_parse_indented(s@, p as int).0);
                }
                cur = p;
            },
            None => {
                done = true;
            },
        }
    }
    proof {
        assert(spec_parse_indented(s@, i as int).0 =~= stacks_view(acc@));
    }
    (acc, cur)
}

/// Parses one recipe block at position `i`, per [`spec_parse_recipe`].
#[verifier::loop_isolation(false)]
fn parse_recipe_at(s: &Vec<char>, i: usize, default_method: &str) -> (r: Option<(Recipe, usize)>)
    requires
        i <= s@.len(),
    ensures
        match r {
            Some(rp) => spec_parse_recipe(s@, i as int, default_method@) == Some(
                (rp.0@, rp.1 as int),
            ) && i < rp.1 <= s@.len(),
            None => spec_parse_recipe(s@, i as int, default_method@) is None,
        },
{
    let (result, p) = match parse_stack_at(s, i) {
        Some(v) => v,
        None => {
            return None;
        },
    };
    let mut has_method = false;
    let mut q: usize = 0;
    if p < s.len() && s.len() - p >= 2 && s[p] == ' ' && s[p + 1] == '(' {
        q = find_char(s, p + 2, ')');
        if q > p + 2 && q < s.len() {
            has_method = true;
        }
    }
    let method: String = if has_method {
        let mut mchars: Vec<char> = Vec::new();
        let mut t = p + 2;
        while t < q
            invariant
                p + 2 <= t <= q <= s@.len(),
                mchars@ =~= s@.subrange(p + 2, t as int),
            decreases q - t,
        {
            mchars.push(s[t]);
            proof {
                assert(mchars@ =~= s@.subrange(p + 2, t + 1));
            }
            t += 1;
        }
        from_chars(mchars.as_slice())
    } else {
        String::from_str(default_method)
    };
    let p2 = if has_method {
        q + 1
    } else {
        p
    };
    if !(p2 < s.len() && s[p2] == ':') {
        return None;
    }
    let p3 = p2 + 1;
    let single = if p3 < s.len() && s[p3] == ' ' {
        parse_stack_at(s, p3 + 1)
    } else {
        None
    };
    let (ingredients, p5) = match single {
        Some((ing, p4)) => {
            let ghost gv = ing@;
            let v2 = vec![ing];
            proof {
                assert(stacks_view(v2@) =~= seq![gv]);
            }
            (v2, p4)
        },
        None => {
            let multi = parse_indented(s, p3);
            if multi.0.len() == 0 {
                return None;
            }
            multi
        },
    };
    let p6 = match parse_line_ending(s, p5) {
        Some(v) => v,
        None => {
            return None;
        },
    };
    let ghost iview = stacks_view(ingredients@);
    let recipe = Recipe::new(result, method.as_str(), ingredients);
    proof {
        assert(recipe@.ingredients =~= iview);
        let expect = spec_parse_recipe(s@, i as int, default_method@);
        assert(expect matches Some(rp) && rp.1 == p6 as int && rp.0.result == recipe@.result
            && rp.0.method == recipe@.method && rp.0.ingredients =~= recipe@.ingredients);
        assert(expect == Some((recipe@, p6 as int)));
    }
    Some((recipe, p6))
}

/// A parser for a list of recipes; recipes whose block names no method get
/// the parser's default method label.
#[derive(Debug)]
pub struct RecipesParser {
    default_method: String,
}

impl Recipe {
    /// Makes a parser for a list of recipe blocks, using `default_method`
    /// for any block that names no method.
    pub fn parse_recipes(default_method: &str) -> (r: RecipesParser)
        ensures
            r.method_label() == default_method@,
    {
        RecipesParser { default_method: String::from_str(default_method) }
    }
}

impl RecipesParser {
    /// The method label given to recipes that name none.
    pub closed spec fn method_label(self) -> Seq<char> {
        self.default_method@
    }

    /// Parses as many recipe blocks as possible from the front of `input`,
    /// returning them together with the unconsumed rest of the input.
    #[verifier::loop_isolation(false)]
    pub fn parse(&self, input: &str) -> (r: (Vec<Recipe>, String))
        ensures
            crate::calculator::recipes_view(r.0@) == spec_parse_recipes(
                input@,
                0,
                self.method_label(),
            ).0,
            r.1@ == input@.subrange(
                spec_parse_recipes(input@, 0, self.method_label()).1,
                input@.len() as int,
            ),
    {
        let s = to_chars(input);
        let mut acc: Vec<Recipe> = Vec::new();
        let mut cur: usize = 0;
        let mut done = false;
        while !done
            invariant
                cur <= s@.len(),
                spec_parse_recipes(s@, 0, self.method_label()).0 =~= crate::calculator::recipes_view(
                    acc@,
                ) + spec_parse_recipes(s@, cur as int, self.method_label()).0,
                spec_parse_recipes(s@, 0, self.method_label()).1 == spec_parse_recipes(
                    s@,
                    cur as int,
                    self.method_label(),
                ).1,
                done ==> spec_parse_recipes(s@, cur as int, self.method_label()) == (
                    Seq::<RecipeView>::empty(),
                    cur as int,
                ),
            decreases s@.len() - cur + (if done {
                0int
            } else {
                1int
            }),
        {
            let ghost acc0 = acc@;
            match parse_recipe_at(&s, cur, self.default_method.as_str()) {
                Some((recipe, p)) => {
                    let ghost rv = recipe@;
                    acc.push(recipe);
                    proof {
                        assert(crate::calculator::recipes_view(acc@)
                            =~= crate::calculator::recipes_view(acc0).push(rv));
                        assert(spec_parse_recipes(s@, 0, self.method_label()).0
                            =~= crate::calculator::recipes_view(acc@) + spec_parse_recipes(
                            s@,
                            p as int,
                            self.method_label(),
                        ).0);
                    }
                    cur = p;
                },
                None => {
                    done = true;
                },
            }
        }
        let mut rest_chars: Vec<char> = Vec::new();
        let mut t = cur;
        while t < s.len()
            invariant
                cur <= t <= s@.len(),
                rest_chars@ =~= s@.subrange(cur as int, t as int),
            decreases s@.len() - t,
        {
            rest_chars.push(s[t]);
            proof {
                assert(rest_chars@ =~= s@.subrange(cur as int, t + 1));
            }
            t += 1;
        }
        let rest = from_chars(rest_chars.as_slice());
        proof {
            assert(spec_parse_recipes(s@, 0, self.method_label()).0
                =~= crate::calculator::recipes_view(acc@));
        }
        (acc, rest)
    }
}

/// Parses the stack at the front of `text`, ignoring anything after it.
pub fn parse_stack_text(text: &str) -> (r: Option<Stack>)
    ensures
        match r {
            Some(st) => spec_parse_stack(text@, 0) matches Some(sp) && sp.0 == st@,
            None => spec_parse_stack(text@, 0) is None,
        },
{
    let s = to_chars(text);
    match parse_stack_at(&s, 0) {
        Some((st, _)) => Some(st),
        None => None,
    }
}


} // verus!
