//! The resolution engine: owns the recipe catalog, the current target and the
//! pool of pre-supplied resources, and derives from them, on every mutation,
//! a fully ordered plan of `(recipe, repeat-count)` steps.

use vstd::prelude::*;

use crate::stack::Count;
use crate::stack::Stack;
use crate::stack::StackView;
use crate::recipe::Recipe;
use crate::recipe::RecipeView;
use crate::recipe::raw_material_view;
use crate::recipe::in_storage_view;
use crate::pool::Pool;
use crate::queue::queue_entries;

verus! {

/// An error reported by a calculator operation.
#[derive(Debug, PartialEq, Eq, Clone, Copy)]
pub enum CalcError {
    /// A count accumulation or repeat computation did not fit in the count
    /// type.
    Overflow,
    /// Resolution could not make progress, which only a cyclic recipe graph
    /// causes: some item directly or transitively requires itself.
    Cycle,
}

/// Whether some recipe in the catalog sequence produces item `k`.
pub open spec fn catalog_has(s: Seq<RecipeView>, k: Seq<char>) -> bool {
    exists|i: int| 0 <= i < s.len() && s[i].result.item == k
}

/// The recipe that the catalog sequence holds for item `k`: the first entry
/// whose result item is `k` (the catalog keeps at most one entry per item).
pub open spec fn catalog_get(s: Seq<RecipeView>, k: Seq<char>) -> RecipeView
    decreases s.len(),
{
    if s.len() == 0 {
        arbitrary()
    } else if s[0].result.item == k {
        s[0]
    } else {
        catalog_get(s.drop_first(), k)
    }
}

/// The last recipe for item `k` in a sequence of registrations (later
/// registrations override earlier ones).
pub open spec fn catalog_last(s: Seq<RecipeView>, k: Seq<char>) -> RecipeView
    decreases s.len(),
{
    if s.len() == 0 {
        arbitrary()
    } else if s.last().result.item == k {
        s.last()
    } else {
        catalog_last(s.drop_last(), k)
    }
}

/// The views of a sequence of recipes.
pub open spec fn recipes_view(s: Seq<Recipe>) -> Seq<RecipeView> {
    s.map_values(|r: Recipe| r@)
}

/// The view of a step list: each step as (recipe value, repeat count).
pub open spec fn steps_view(s: Seq<(Recipe, Count)>) -> Seq<(RecipeView, nat)> {
    s.map_values(|p: (Recipe, Count)| (p.0@, p.1 as nat))
}

proof fn lemma_catalog_get_first(s: Seq<RecipeView>, i: int, k: Seq<char>)
    requires
        0 <= i < s.len(),
        s[i].result.item == k,
        forall|j: int| 0 <= j < i ==> s[j].result.item != k,
    ensures
        catalog_get(s, k) == s[i],
    decreases s.len(),
{
    if i == 0 {
    } else {
        assert(s.drop_first()[i - 1] == s[i]);
        assert forall|j: int| 0 <= j < i - 1 implies (#[trigger] s.drop_first()[j]).result.item
            != k by {
            assert(s.drop_first()[j] == s[j + 1]);
        }
        lemma_catalog_get_first(s.drop_first(), i - 1, k);
    }
}

proof fn lemma_catalog_update(s: Seq<RecipeView>, i: int, e: RecipeView, k: Seq<char>)
    requires
        0 <= i < s.len(),
        e.result.item == s[i].result.item,
        forall|j: int| 0 <= j < i ==> s[j].result.item != s[i].result.item,
    ensures
        catalog_has(s.update(i, e), k) == catalog_has(s, k),
        catalog_has(s, k) ==> catalog_get(s.update(i, e), k) == if k == e.result.item {
            e
        } else {
            catalog_get(s, k)
        },
    decreases s.len(),
{
    let s2 = s.update(i, e);
    assert(catalog_has(s2, k) == catalog_has(s, k)) by {
        if catalog_has(s2, k) {
            let j = choose|j: int| 0 <= j < s2.len() && s2[j].result.item == k;
            if j == i {
                assert(s[i].result.item == k);
            } else {
                assert(s[j].result.item == k);
            }
        }
        if catalog_has(s, k) {
            let j = choose|j: int| 0 <= j < s.len() && s[j].result.item == k;
            if j == i {
                assert(s2[i].result.item == k);
            } else {
                assert(s2[j].result.item == k);
            }
        }
    }
    if catalog_has(s, k) {
        if k == e.result.item {
            assert(s2[i].result.item == k);
            assert(forall|j: int| 0 <= j < i ==> s2[j] == s[j]);
            lemma_catalog_get_first(s2, i, k);
        } else {
            if i == 0 {
                assert(s2[0] == e);
                assert(s2.drop_first() =~= s.drop_first());
                assert(s[0].result.item != k);
            } else {
                assert(s2[0] == s[0]);
                if s[0].result.item == k {
                } else {
                    assert(s2.drop_first() =~= s.drop_first().update(i - 1, e));
                    assert(s.drop_first()[i - 1] == s[i]);
                    assert forall|j: int| 0 <= j < i - 1 implies (#[trigger] s.drop_first()[j])
                        .result.item != s.drop_first()[i - 1].result.item by {
                        assert(s.drop_first()[j] == s[j + 1]);
                    }
                    assert(catalog_has(s.drop_first(), k)) by {
                        let j = choose|j: int| 0 <= j < s.len() && s[j].result.item == k;
                        assert(s.drop_first()[j - 1].result.item == k);
                    }
                    lemma_catalog_update(s.drop_first(), i - 1, e, k);
                }
            }
        }
    }
}

proof fn lemma_catalog_push(s: Seq<RecipeView>, e: RecipeView, k: Seq<char>)
    ensures
        catalog_has(s.push(e), k) == (catalog_has(s, k) || k == e.result.item),
        catalog_has(s, k) ==> catalog_get(s.push(e), k) == catalog_get(s, k),
        !catalog_has(s, k) && k == e.result.item ==> catalog_get(s.push(e), k) == e,
    decreases s.len(),
{
    let s2 = s.push(e);
    assert(catalog_has(s2, k) == (catalog_has(s, k) || k == e.result.item)) by {
        if catalog_has(s2, k) {
            let j = choose|j: int| 0 <= j < s2.len() && s2[j].result.item == k;
            if j < s.len() {
                assert(s[j].result.item == k);
            } else {
                assert(s2[j] == e);
            }
        }
        if catalog_has(s, k) {
            let j = choose|j: int| 0 <= j < s.len() && s[j].result.item == k;
            assert(s2[j].result.item == k);
        }
        if k == e.result.item {
            assert(s2[s.len() as int].result.item == k);
        }
    }
    if s.len() == 0 {
        assert(s2[0] == e);
        if k == e.result.item {
            assert(catalog_get(s2, k) == e);
        }
    } else {
        assert(s2[0] == s[0]);
        if s[0].result.item == k {
            assert(catalog_has(s, k));
        } else {
            assert(s2.drop_first() =~= s.drop_first().push(e));
            lemma_catalog_push(s.drop_first(), e, k);
            assert(catalog_has(s.drop_first(), k) == catalog_has(s, k)) by {
                if catalog_has(s.drop_first(), k) {
                    let j = choose|j: int|
                        0 <= j < s.drop_first().len() && s.drop_first()[j].result.item == k;
                    assert(s[j + 1].result.item == k);
                }
                if catalog_has(s, k) {
                    let j = choose|j: int| 0 <= j < s.len() && s[j].result.item == k;
                    assert(s.drop_first()[j - 1].result.item == k);
                }
            }
            assert(catalog_get(s2, k) == catalog_get(s2.drop_first(), k));
            if catalog_has(s, k) {
                assert(catalog_get(s, k) == catalog_get(s.drop_first(), k));
            }
        }
    }
}

/// The resolution engine.
pub struct Calculator {
    recipes: Vec<Recipe>,
    target: Stack,
    initial_materials: Pool,
    steps: Vec<(Recipe, Count)>,
}

impl Calculator {
    /// The catalog: the recipes this calculator knows, at most one per
    /// produced item.
    pub closed spec fn catalog(self) -> Seq<RecipeView> {
        recipes_view(self.recipes@)
    }

    /// Whether the catalog has a recipe that produces item `k`.
    pub open spec fn has_recipe(self, k: Seq<char>) -> bool {
        catalog_has(self.catalog(), k)
    }

    /// The catalog's recipe for item `k`.
    pub open spec fn recipe_for(self, k: Seq<char>) -> RecipeView {
        catalog_get(self.catalog(), k)
    }

    /// How many units of item `k` the pre-supplied resource pool holds.
    pub closed spec fn resource_amt(self, k: Seq<char>) -> nat {
        self.initial_materials.amt(k)
    }

    /// The current target.
    pub closed spec fn spec_target(self) -> StackView {
        self.target@
    }

    /// The current plan.
    pub closed spec fn spec_steps(self) -> Seq<(RecipeView, nat)> {
        steps_view(self.steps@)
    }

    /// Creates a calculator that doesn't know about any recipes.
    pub fn new() -> (r: Self)
        ensures
            forall|k: Seq<char>| !r.has_recipe(k),
            forall|k: Seq<char>| r.resource_amt(k) == 0,
            r.spec_target() == (StackView { item: "Air"@, count: 1 }),
            r.spec_steps() == Seq::<(RecipeView, nat)>::empty(),
    {
        Self::with_recipes(Vec::new())
    }

    /// Creates a calculator that knows about the given recipes, keyed by
    /// their result items; a later recipe for the same item overrides an
    /// earlier one. The target starts as a placeholder and no plan is
    /// computed yet.
    pub fn with_recipes(recipes: Vec<Recipe>) -> (r: Self)
        ensures
            forall|k: Seq<char>| r.has_recipe(k) == catalog_has(recipes_view(recipes@), k),
            forall|k: Seq<char>|
                r.has_recipe(k) ==> r.recipe_for(k) == catalog_last(recipes_view(recipes@), k),
            forall|k: Seq<char>| r.resource_amt(k) == 0,
            r.spec_target() == (StackView { item: "Air"@, count: 1 }),
            r.spec_steps() == Seq::<(RecipeView, nat)>::empty(),
    {
        let mut c = Calculator {
            recipes: Vec::new(),
            target: Stack::new("Air", 1),
            initial_materials: Pool::new(),
            steps: Vec::new(),
        };
        proof {
            assert(c.catalog() =~= Seq::<RecipeView>::empty());
            assert(c.spec_steps() =~= Seq::<(RecipeView, nat)>::empty());
        }
        c.merge_recipes(recipes);
        proof {
            assert(c.spec_steps() =~= Seq::<(RecipeView, nat)>::empty());
        }
        c
    }

    /// Inserts one recipe into the catalog, keyed by its result item:
    /// replaces the existing entry for that item or appends a new one.
    #[verifier::loop_isolation(false)]
    fn insert_recipe(&mut self, recipe: Recipe)
        ensures
            forall|k: Seq<char>|
                final(self).has_recipe(k) == (old(self).has_recipe(k) || k
                    == recipe@.result.item),
            forall|k: Seq<char>|
                #[trigger] final(self).has_recipe(k) ==> final(self).recipe_for(k) == (if k
                    == recipe@.result.item {
                    recipe@
                } else {
                    old(self).recipe_for(k)
                }),
            final(self).initial_materials == old(self).initial_materials,
            final(self).target == old(self).target,
            final(self).steps == old(self).steps,
    {
        let ghost oldcat = self.catalog();
        let n = self.recipes.len();
        let mut i: usize = 0;
        while i < n
            invariant
                n == self.recipes@.len(),
                i <= n,
                *self == *old(self),
                forall|j: int|
                    0 <= j < i ==> (#[trigger] self.catalog()[j]).result.item
                        != recipe@.result.item,
            decreases n - i,
        {
            proof {
                assert(self.catalog()[i as int] == self.recipes@[i as int]@);
            }
            if crate::recipe::str_equal(
                self.recipes[i].result().item(),
                recipe.result().item(),
            ) {
                let ghost e = recipe@;
                let _replaced = self.recipes.remove(i);
                self.recipes.insert(i, recipe);
                proof {
                    assert(self.recipes@ =~= old(self).recipes@.update(i as int, recipe));
                    let newcat = self.catalog();
                    assert(newcat =~= oldcat.update(i as int, e)) by {
                        assert forall|j: int| 0 <= j < newcat.len() implies #[trigger] newcat[j]
                            == oldcat.update(i as int, e)[j] by {
                            assert(newcat[j] == self.recipes@[j]@);
                            assert(oldcat[j] == old(self).recipes@[j]@);
                        }
                    }
                    assert(e.result.item == oldcat[i as int].result.item);
                    assert forall|k: Seq<char>| true implies (final(self).has_recipe(k) == (
                    old(self).has_recipe(k) || k == e.result.item)
                        && (final(self).has_recipe(k) ==> final(self).recipe_for(k) == (if k
                        == e.result.item {
                        e
                    } else {
                        old(self).recipe_for(k)
                    }))) by {
                        lemma_catalog_update(oldcat, i as int, e, k);
                        if k == e.result.item {
                            assert(oldcat[i as int].result.item == k);
                            assert(old(self).has_recipe(k));
                        }
                    }
                }
                return ;
            }
            i += 1;
        }
        let ghost e = recipe@;
        self.recipes.push(recipe);
        proof {
            let newcat = self.catalog();
            assert(newcat =~= oldcat.push(e));
            assert forall|k: Seq<char>| true implies (final(self).has_recipe(k)
                == (old(self).has_recipe(k) || k == e.result.item)
                && (final(self).has_recipe(k) ==> final(self).recipe_for(k) == (if k
                == e.result.item {
                e
            } else {
                old(self).recipe_for(k)
            }))) by {
                lemma_catalog_push(oldcat, e, k);
                if final(self).has_recipe(k) && k != e.result.item {
                    assert(catalog_has(oldcat, k));
                }
                if final(self).has_recipe(k) && k == e.result.item {
                    if catalog_has(oldcat, k) {
                        let j = choose|j: int| 0 <= j < oldcat.len() && oldcat[j].result.item == k;
                        assert(self.catalog()[j].result.item != k);
                        assert(false);
                    }
                }
            }
        }
    }

    /// Inserts every given recipe into the catalog, in order, without
    /// recomputing the plan.
    #[verifier::loop_isolation(false)]
    fn merge_recipes(&mut self, recipes: Vec<Recipe>)
        ensures
            forall|k: Seq<char>|
                final(self).has_recipe(k) == (old(self).has_recipe(k) || catalog_has(
                    recipes_view(recipes@),
                    k,
                )),
            forall|k: Seq<char>|
                #[trigger] final(self).has_recipe(k) ==> final(self).recipe_for(k) == (
                if catalog_has(recipes_view(recipes@), k) {
                    catalog_last(recipes_view(recipes@), k)
                } else {
                    old(self).recipe_for(k)
                }),
            final(self).initial_materials == old(self).initial_materials,
            final(self).target == old(self).target,
            final(self).steps == old(self).steps,
    {
        let ghost rv = recipes_view(recipes@);
        let mut recipes = recipes;
        let n = recipes.len();
        let mut i: usize = 0;
        while i < n
            invariant
                n == rv.len(),
                recipes@.len() == n - i,
                forall|j: int| 0 <= j < n - i ==> (#[trigger] recipes@[j])@ == rv[i + j],
                forall|k: Seq<char>|
                    self.has_recipe(k) == (old(self).has_recipe(k) || catalog_has(
                        rv.take(i as int),
                        k,
                    )),
                forall|k: Seq<char>|
                    #[trigger] self.has_recipe(k) ==> self.recipe_for(k) == (if catalog_has(
                        rv.take(i as int),
                        k,
                    ) {
                        catalog_last(rv.take(i as int), k)
                    } else {
                        old(self).recipe_for(k)
                    }),
                self.initial_materials == old(self).initial_materials,
                self.target == old(self).target,
                self.steps == old(self).steps,
            decreases n - i,
        {
            let ghost pre = *self;
            let recipe = recipes.remove(0);
            proof {
                assert(recipe@ == rv[i as int]);
            }
            self.insert_recipe(recipe);
            proof {
                let p = rv.take(i as int);
                let p2 = rv.take(i + 1);
                assert(p2.drop_last() =~= p);
                assert(p2.last() == rv[i as int]);
                assert forall|k: Seq<char>| true implies (self.has_recipe(k)
                    == (old(self).has_recipe(k) || catalog_has(p2, k)) && (self.has_recipe(k)
                    ==> self.recipe_for(k) == (if catalog_has(p2, k) {
                    catalog_last(p2, k)
                } else {
                    old(self).recipe_for(k)
                }))) by {
                    assert(catalog_has(p2, k) == (catalog_has(p, k) || k
                        == rv[i as int].result.item)) by {
                        if catalog_has(p2, k) {
                            let j = choose|j: int| 0 <= j < p2.len() && p2[j].result.item == k;
                            if j < p.len() {
                                assert(p[j].result.item == k);
                            }
                        }
                        if catalog_has(p, k) {
                            let j = choose|j: int| 0 <= j < p.len() && p[j].result.item == k;
                            assert(p2[j].result.item == k);
                        }
                        if k == rv[i as int].result.item {
                            assert(p2[i as int].result.item == k);
                        }
                    }
                }
            }
            i += 1;
        }
        proof {
            assert(rv.take(n as int) =~= rv);
        }
    }

    /// Gets the recipes that the calculator knows about.
    pub fn recipes(&self) -> (r: &Vec<Recipe>)
        ensures
            recipes_view(r@) == self.catalog(),
    {
        &self.recipes
    }

    /// Gets the calculator's current target.
    pub fn target(&self) -> (r: &Stack)
        ensures
            r@ == self.spec_target(),
    {
        &self.target
    }

    /// Gets the steps to convert the available materials into the target:
    /// the ordered plan that the last recomputation derived.
    pub fn steps(&self) -> (r: &Vec<(Recipe, Count)>)
        ensures
            steps_view(r@) == self.spec_steps(),
    {
        &self.steps
    }

    /// Finds the catalog's recipe for item `k`, if any.
    #[verifier::loop_isolation(false)]
    fn catalog_find(&self, k: &str) -> (r: Option<&Recipe>)
        ensures
            match r {
                Some(rec) => self.has_recipe(k@) && rec@ == self.recipe_for(k@),
                None => !self.has_recipe(k@),
            },
    {
        let n = self.recipes.len();
        let mut i: usize = 0;
        while i < n
            invariant
                n == self.recipes@.len(),
                i <= n,
                forall|j: int|
                    0 <= j < i ==> (#[trigger] self.catalog()[j]).result.item != k@,
            decreases n - i,
        {
            proof {
                assert(self.catalog()[i as int] == self.recipes@[i as int]@);
            }
            if crate::recipe::str_equal(self.recipes[i].result().item(), k) {
                proof {
                    lemma_catalog_get_first(self.catalog(), i as int, k@);
                }
                return Some(&self.recipes[i]);
            }
            i += 1;
        }
        None
    }
}


/// The number of recipe executions needed to produce at least `c` items in
/// batches of `y`: the ceiling of `c / y`.
pub open spec fn batches(c: nat, y: nat) -> nat
    recommends
        c >= 1,
        y >= 1,
{
    (((c - 1) / (y as int)) + 1) as nat
}

/// Law: [`batches`] is the smallest repeat count whose total yield covers
/// the requested count, so a request that is not a multiple of the yield
/// over-produces exactly `batches(c, y) * y - c`, which the engine banks as
/// reusable surplus for the rest of the computation.
pub proof fn law_batches_minimal(c: nat, y: nat)
    requires
        c >= 1,
        y >= 1,
    ensures
        batches(c, y) * y >= c,
        forall|r: nat| r < batches(c, y) ==> #[trigger] (r * y) < c,
{
    let b = batches(c, y);
    assert(b * y >= c && (b - 1) * y < c) by (nonlinear_arith)
        requires
            c >= 1,
            y >= 1,
            b == (c - 1) / (y as int) + 1,
    ;
    assert forall|r: nat| r < b implies #[trigger] (r * y) < c by {
        assert(r * y <= (b - 1) * y) by (nonlinear_arith)
            requires
                r <= b - 1,
                y >= 1,
        ;
    }
}

/// Computes [`batches`]: the smallest repeat count whose total yield covers
/// `count`.
fn craft_repeats(count: Count, per_run: Count) -> (r: Count)
    requires
        count >= 1,
        per_run >= 1,
    ensures
        r as nat == batches(count as nat, per_run as nat),
        r >= 1,
        r * per_run + per_run > count,
{
    proof {
        assert((count - 1) / (per_run as int) <= count - 1 && (count - 1) / (per_run as int) >= 0
            && ((count - 1) / (per_run as int)) * per_run <= count - 1) by (nonlinear_arith)
            requires
                count >= 1,
                per_run >= 1,
        ;
    }
    let r = (count - 1) / per_run + 1;
    proof {
        assert(r * per_run + per_run > count) by (nonlinear_arith)
            requires
                per_run >= 1,
                count >= 1,
                r == (count - 1) / (per_run as int) + 1,
        ;
    }
    r
}

impl Calculator {
    /// The target has no recipe and no pre-supplied stock: its whole count
    /// must arrive as raw material.
    pub open spec fn lone_raw_target(self) -> bool {
        &&& !self.has_recipe(self.spec_target().item)
        &&& self.resource_amt(self.spec_target().item) == 0
        &&& self.spec_target().count > 0
    }

    /// The target has a recipe with no ingredients and no pre-supplied
    /// stock: the plan is that recipe alone, run `batches` times (and the
    /// total yield fits in the count type).
    pub open spec fn lone_batch_target(self) -> bool {
        &&& self.has_recipe(self.spec_target().item)
        &&& self.recipe_for(self.spec_target().item).method != "In Storage"@
        &&& self.recipe_for(self.spec_target().item).ingredients.len() == 0
        &&& self.recipe_for(self.spec_target().item).result.count >= 1
        &&& self.resource_amt(self.spec_target().item) == 0
        &&& self.spec_target().count > 0
        &&& batches(self.spec_target().count, self.recipe_for(self.spec_target().item).result.count)
            * self.recipe_for(self.spec_target().item).result.count <= Count::MAX
    }

    /// The pre-supplied pool alone covers the whole target count.
    pub open spec fn stored_target(self) -> bool {
        &&& self.resource_amt(self.spec_target().item) >= self.spec_target().count
        &&& self.spec_target().count > 0
    }

    /// The target's recipe has exactly one ingredient, which is a raw
    /// material, and no stock is pre-supplied: the plan is that ingredient
    /// as raw material (its count multiplied by the batch count), then the
    /// recipe run `batches` times (and every scaled count fits in the count
    /// type).
    pub open spec fn chain_target(self) -> bool {
        let t = self.spec_target();
        let r = self.recipe_for(t.item);
        let b = batches(t.count, r.result.count);
        &&& self.has_recipe(t.item)
        &&& is_craft(r)
        &&& r.ingredients.len() == 1
        &&& r.result.count >= 1
        &&& r.ingredients[0].count >= 1
        &&& r.ingredients[0].item != t.item
        &&& !self.has_recipe(r.ingredients[0].item)
        &&& self.resource_amt(t.item) == 0
        &&& self.resource_amt(r.ingredients[0].item) == 0
        &&& t.count > 0
        &&& b * r.result.count <= Count::MAX
        &&& r.ingredients[0].count * b <= Count::MAX
    }

    /// The target's recipe has exactly one ingredient, and the pre-supplied
    /// pool covers that ingredient's whole propagated demand: the plan draws
    /// the ingredient from storage and crafts nothing else for it, whether
    /// or not a recipe for the ingredient exists. The drawn amount is scaled
    /// by the consuming step's repeat count when it is emitted.
    pub open spec fn stored_chain_target(self) -> bool {
        let t = self.spec_target();
        let r = self.recipe_for(t.item);
        let b = batches(t.count, r.result.count);
        &&& self.has_recipe(t.item)
        &&& is_craft(r)
        &&& r.ingredients.len() == 1
        &&& r.result.count >= 1
        &&& r.ingredients[0].count >= 1
        &&& r.ingredients[0].item != t.item
        &&& self.resource_amt(t.item) == 0
        &&& self.resource_amt(r.ingredients[0].item) >= r.ingredients[0].count * b
        &&& t.count > 0
        &&& b * r.result.count <= Count::MAX
        &&& r.ingredients[0].count * b <= Count::MAX
        &&& (r.ingredients[0].count * b) * b <= Count::MAX
    }

    /// Phase A, demand propagation: converts the target quantity into an
    /// unordered list of steps (in discovery order), drawing first from
    /// crafted surplus, then from the pre-supplied pool, and finally from the
    /// catalog, exploring the recipe graph breadth-first by depth.
    #[verifier::loop_isolation(false)]
    fn propagate(&self) -> (r: Result<Vec<(Recipe, Count)>, CalcError>)
        ensures
            self.lone_raw_target() ==> (r matches Ok(v) && steps_view(v@) == seq![
                (raw_material_view(self.spec_target().item), self.spec_target().count),
            ]),
            self.lone_batch_target() ==> (r matches Ok(v) && steps_view(v@) == seq![
                (
                    self.recipe_for(self.spec_target().item),
                    batches(
                        self.spec_target().count,
                        self.recipe_for(self.spec_target().item).result.count,
                    ),
                ),
            ]),
            self.stored_target() ==> (r matches Ok(v) && steps_view(v@) == seq![
                (in_storage_view(self.spec_target().item), self.spec_target().count),
            ]),
            self.chain_target() ==> (r matches Ok(v) && steps_view(v@) == seq![
                (
                    self.recipe_for(self.spec_target().item),
                    batches(
                        self.spec_target().count,
                        self.recipe_for(self.spec_target().item).result.count,
                    ),
                ),
                (
                    raw_material_view(self.recipe_for(self.spec_target().item).ingredients[0].item),
                    self.recipe_for(self.spec_target().item).ingredients[0].count * batches(
                        self.spec_target().count,
                        self.recipe_for(self.spec_target().item).result.count,
                    ),
                ),
            ]),
            self.stored_chain_target() ==> (r matches Ok(v) && steps_view(v@) == seq![
                (
                    self.recipe_for(self.spec_target().item),
                    batches(
                        self.spec_target().count,
                        self.recipe_for(self.spec_target().item).result.count,
                    ),
                ),
                (
                    in_storage_view(self.recipe_for(self.spec_target().item).ingredients[0].item),
                    self.recipe_for(self.spec_target().item).ingredients[0].count * batches(
                        self.spec_target().count,
                        self.recipe_for(self.spec_target().item).result.count,
                    ),
                ),
            ]),
    {
        let ghost t_item = self.spec_target().item;
        let ghost t_count = self.spec_target().count;
        let ghost h1 = self.lone_raw_target();
        let ghost h2 = self.lone_batch_target();
        let ghost h3 = self.stored_target();
        let ghost h4 = self.chain_target();
        let ghost h5 = self.stored_chain_target();
        let ghost rec = self.recipe_for(t_item);
        let ghost nb = batches(t_count, rec.result.count);
        let ghost x_item = rec.ingredients[0].item;
        let ghost x_amount = rec.ingredients[0].count * nb;
        let ghost expected: Seq<(RecipeView, nat)> = if h1 {
            seq![(raw_material_view(t_item), t_count)]
        } else if h3 {
            seq![(in_storage_view(t_item), t_count)]
        } else {
            seq![
                (
                    self.recipe_for(t_item),
                    batches(t_count, self.recipe_for(t_item).result.count),
                ),
            ]
        };
        let mut out: Vec<(Recipe, Count)> = Vec::new();
        let mut materials = self.initial_materials.duplicate();
        let mut crafted = Pool::new();
        let mut to_craft = Pool::new();
        let ok0 = to_craft.add(self.target.item(), self.target.count());
        let mut q = crate::queue::queue_new();
        crate::queue::queue_push_increase(&mut q, String::from_str(self.target.item()), 0);
        // A work budget that an acyclic recipe graph cannot exhaust: an item
        // is popped at most once per distinct depth, depths are bounded by
        // the longest dependency chain, and only catalog recipes extend
        // chains.
        let mut occ: usize = 1;
        let mut ri: usize = 0;
        while ri < self.recipes.len()
            invariant
                ri <= self.recipes@.len(),
                occ >= 1,
            decreases self.recipes@.len() - ri,
        {
            occ = occ.saturating_add(self.recipes[ri].ingredients().len());
            ri += 1;
        }
        let depth_bound: usize = if self.recipes.len() <= Count::MAX - 2 {
            self.recipes.len() + 2
        } else {
            Count::MAX
        };
        let mut budget: usize = if occ <= Count::MAX / depth_bound {
            proof {
                assert(occ * depth_bound <= Count::MAX) by (nonlinear_arith)
                    requires
                        depth_bound >= 1,
                        occ <= Count::MAX as int / depth_bound as int,
                ;
            }
            occ * depth_bound
        } else {
            Count::MAX
        };
        proof {
            assert(budget >= 2) by (nonlinear_arith)
                requires
                    budget == occ * depth_bound || budget == Count::MAX,
                    occ >= 1,
                    depth_bound >= 2,
            ;
        }
        proof {
            if h4 || h5 {
                assert(nb >= 1 && x_amount >= 1) by (nonlinear_arith)
                    requires
                        nb == (t_count - 1) / (rec.result.count as int) + 1,
                        x_amount == rec.ingredients[0].count * nb,
                        t_count >= 1,
                        rec.result.count >= 1,
                        rec.ingredients[0].count >= 1,
                ;
            }
        }
        let mut done = false;
        while !done
            invariant
                queue_entries(q).dom().finite(),
                forall|k: Seq<char>|
                    to_craft.amt(k) > 0 ==> queue_entries(q).contains_key(k),
                done ==> forall|k: Seq<char>| !queue_entries(q).contains_key(k),
                (h1 || h2 || h3 || h4 || h5) && out@.len() == 0 ==> {
                    &&& queue_entries(q).contains_key(t_item)
                    &&& queue_entries(q)[t_item] == 0
                    &&& forall|k: Seq<char>|
                        k != t_item ==> !queue_entries(q).contains_key(k)
                    &&& to_craft.amt(t_item) == t_count
                    &&& forall|k: Seq<char>| k != t_item ==> to_craft.amt(k) == 0
                    &&& forall|k: Seq<char>| materials.amt(k) == self.resource_amt(k)
                    &&& forall|k: Seq<char>| crafted.amt(k) == 0
                    &&& budget >= 2
                    &&& !done
                },
                (h1 || h2 || h3) && out@.len() != 0 ==> {
                    &&& steps_view(out@) == expected
                    &&& forall|k: Seq<char>| !queue_entries(q).contains_key(k)
                    &&& forall|k: Seq<char>| to_craft.amt(k) == 0
                },
                (h4 || h5) && out@.len() == 1 ==> {
                    &&& steps_view(out@) == seq![(rec, nb)]
                    &&& queue_entries(q).contains_key(x_item)
                    &&& queue_entries(q)[x_item] == 1
                    &&& forall|k: Seq<char>|
                        k != x_item ==> !queue_entries(q).contains_key(k)
                    &&& to_craft.amt(x_item) == x_amount
                    &&& forall|k: Seq<char>| k != x_item ==> to_craft.amt(k) == 0
                    &&& forall|k: Seq<char>| materials.amt(k) == self.resource_amt(k)
                    &&& forall|k: Seq<char>| k != t_item ==> crafted.amt(k) == 0
                    &&& budget >= 1
                    &&& !done
                },
                h4 && out@.len() != 1 && out@.len() != 0 ==> {
                    &&& steps_view(out@) == seq![(rec, nb), (raw_material_view(x_item), x_amount)]
                    &&& forall|k: Seq<char>| !queue_entries(q).contains_key(k)
                    &&& forall|k: Seq<char>| to_craft.amt(k) == 0
                },
                h5 && out@.len() != 1 && out@.len() != 0 ==> {
                    &&& steps_view(out@) == seq![(rec, nb), (in_storage_view(x_item), x_amount)]
                    &&& forall|k: Seq<char>| !queue_entries(q).contains_key(k)
                    &&& forall|k: Seq<char>| to_craft.amt(k) == 0
                },
            decreases 2 * budget + (if done {
                0int
            } else {
                1int
            }),
        {
            match crate::queue::queue_pop_min(&mut q) {
                None => {
                    done = true;
                },
                Some(popped) => {
                    let ghost out_pre = out@;
                    if budget == 0 {
                        return Err(CalcError::Cycle);
                    }
                    budget -= 1;
                    let item: String = popped.0;
                    let depth: usize = popped.1;
                    let demand = to_craft.take_all(item.as_str());
                    if demand > 0 {
                        let mut count = demand;
                        let from_surplus = crafted.take(item.as_str(), count);
                        count -= from_surplus;
                        let from_stock = materials.take(item.as_str(), count);
                        if from_stock > 0 {
                            out.push((Recipe::in_storage(item.as_str()), from_stock));
                            count -= from_stock;
                        }
                        if count > 0 {
                            match self.catalog_find(item.as_str()) {
                                Some(recipe) => {
                                    let per_run = recipe.result().count();
                                    if per_run == 0 {
                                        return Err(CalcError::Overflow);
                                    }
                                    let repeats = craft_repeats(count, per_run);
                                    let produced = match repeats.checked_mul(per_run) {
                                        Some(p) => p,
                                        None => return Err(CalcError::Overflow),
                                    };
                                    out.push((recipe.duplicate(), repeats));
                                    proof {
                                        if (h4 || h5) && out@.len() == 1 {
                                            assert(steps_view(out@) =~= seq![(rec, nb)]);
                                        }
                                    }
                                    if produced > count {
                                        let banked = crafted.add(item.as_str(), produced - count);
                                        proof {
                                            assert(banked);
                                        }
                                    }
                                    let ings = recipe.ingredients();
                                    let mut t: usize = 0;
                                    let mut depth_cur = depth;
                                    while t < ings.len()
                                        invariant
                                            t <= ings@.len(),
                                            queue_entries(q).dom().finite(),
                                            forall|k: Seq<char>|
                                                to_craft.amt(k) > 0 ==> queue_entries(
                                                    q,
                                                ).contains_key(k),
                                            !h1,
                                            !h3,
                                            h2 ==> {
                                                &&& ings@.len() == 0
                                                &&& steps_view(out@) == expected
                                                &&& forall|k: Seq<char>|
                                                    !queue_entries(q).contains_key(k)
                                                &&& forall|k: Seq<char>| to_craft.amt(k) == 0
                                            },
                                            (h4 || h5) && out@.len() == 1 ==> {
                                                &&& ings@.len() == 1
                                                &&& ings@[0]@ == rec.ingredients[0]
                                                &&& depth_cur == 0
                                                &&& repeats == nb
                                                &&& steps_view(out@) == seq![(rec, nb)]
                                                &&& forall|k: Seq<char>|
                                                    materials.amt(k) == self.resource_amt(k)
                                                &&& forall|k: Seq<char>|
                                                    k != t_item ==> crafted.amt(k) == 0
                                                &&& budget >= 1
                                                &&& (if t == 0 {
                                                    (forall|k: Seq<char>|
                                                        !queue_entries(q).contains_key(k))
                                                        && (forall|k: Seq<char>|
                                                        to_craft.amt(k) == 0)
                                                } else {
                                                    queue_entries(q).contains_key(x_item)
                                                        && queue_entries(q)[x_item] == 1 && (forall|
                                                        k: Seq<char>,
                                                    |
                                                        k != x_item ==> !queue_entries(
                                                            q,
                                                        ).contains_key(k)) && to_craft.amt(x_item)
                                                        == x_amount && (forall|k: Seq<char>|
                                                        k != x_item ==> to_craft.amt(k) == 0)
                                                })
                                            },
                                        decreases ings@.len() - t,
                                    {
                                        let ghost tc_pre = to_craft;
                                        let ghost q_pre = queue_entries(q);
                                        let ing = &ings[t];
                                        if depth_cur == Count::MAX {
                                            let pair = crate::queue::queue_compact(q);
                                            q = pair.0;
                                            depth_cur = if pair.1 > 0 {
                                                pair.1 - 1
                                            } else {
                                                0
                                            };
                                        }
                                        let d2 = depth_cur + 1;
                                        crate::queue::queue_push_increase(
                                            &mut q,
                                            String::from_str(ing.item()),
                                            d2,
                                        );
                                        let amount = match ing.count().checked_mul(repeats) {
                                            Some(a) => a,
                                            None => return Err(CalcError::Overflow),
                                        };
                                        let ok2 = to_craft.add(ing.item(), amount);
                                        if !ok2 {
                                            return Err(CalcError::Overflow);
                                        }
                                        proof {
                                            assert forall|k: Seq<char>| to_craft.amt(k) > 0
                                                implies queue_entries(q).contains_key(k) by {
                                                if k != ing@.item {
                                                    assert(to_craft.amt(k) == tc_pre.amt(k));
                                                    assert(q_pre.contains_key(k));
                                                }
                                            }
                                        }
                                        t += 1;
                                    }
                                },
                                None => {
                                    out.push((Recipe::raw_material(item.as_str()), count));
                                },
                            }
                        }
                    }
                    proof {
                        if (h1 || h2 || h3) && out@.len() != 0 {
                            assert(steps_view(out@) =~= expected);
                        }
                        if h5 && out@.len() == 2 {
                            assert(item@ == x_item);
                            assert(out@[1].0@ == in_storage_view(x_item));
                            assert(out@[1].1 as nat == x_amount);
                            assert(out@[0] == out_pre[0]);
                            assert(steps_view(out_pre)[0] == (rec, nb));
                            assert(steps_view(out@)[0] == (out@[0].0@, out@[0].1 as nat));
                            assert(steps_view(out@)[0] == (rec, nb));
                            assert(steps_view(out@) =~= seq![
                                (rec, nb),
                                (in_storage_view(x_item), x_amount),
                            ]);
                        }
                        if h4 && out@.len() == 2 {
                            assert(item@ == x_item);
                            assert(out@[1].0@ == raw_material_view(x_item));
                            assert(out@[1].1 as nat == x_amount);
                            assert(out@[0] == out_pre[0]);
                            assert(steps_view(out_pre)[0] == (rec, nb));
                            assert(steps_view(out@)[0] == (out@[0].0@, out@[0].1 as nat));
                            assert(steps_view(out@)[0] == (rec, nb));
                            assert(steps_view(out@) =~= seq![
                                (rec, nb),
                                (raw_material_view(x_item), x_amount),
                            ]);
                        }
                    }
                },
            }
        }
        proof {
            assert forall|k: Seq<char>| to_craft.amt(k) == 0 by {
                if to_craft.amt(k) > 0 {
                    assert(queue_entries(q).contains_key(k));
                }
            }
            if h1 || h2 || h3 {
                assert(out@.len() != 0);
                assert(steps_view(out@) == expected);
            }
            if h4 || h5 {
                assert(out@.len() != 0 && out@.len() != 1);
            }
        }
        Ok(out)
    }
}



/// Whether a plan step's recipe is a genuine catalog recipe rather than one
/// of the two pseudo-recipes.
pub open spec fn is_craft(r: RecipeView) -> bool {
    r.method != "Raw Material"@ && r.method != "In Storage"@
}

/// Whether some step of the plan `p` produces item `x`.
pub open spec fn produced_in(p: Seq<(RecipeView, nat)>, x: Seq<char>) -> bool {
    exists|i: int| 0 <= i < p.len() && (#[trigger] p[i]).0.result.item == x
}

/// Whether ingredient `t` of step `j` of the plan `p` is produced by some
/// strictly earlier step.
pub open spec fn step_covered(p: Seq<(RecipeView, nat)>, j: int, t: int) -> bool {
    exists|i: int| 0 <= i < j && (#[trigger] p[i]).0.result.item == p[j].0.ingredients[t].item
}

/// The plan's ordering invariant: every catalog step's ingredients are each
/// produced by some strictly earlier step of the plan.
pub open spec fn plan_ordered(p: Seq<(RecipeView, nat)>) -> bool {
    forall|j: int, t: int|
        0 <= j < p.len() && is_craft(p[j].0) && 0 <= t < p[j].0.ingredients.len()
            ==> #[trigger] step_covered(p, j, t)
}

/// The raw-material steps of a plan form a prefix: no step after a
/// non-raw-material step is a raw-material step.
pub open spec fn raws_first(p: Seq<(RecipeView, nat)>) -> bool {
    forall|i: int, j: int|
        0 <= i < j < p.len() && (#[trigger] p[j]).0.method == "Raw Material"@ ==> (
        #[trigger] p[i]).0.method == "Raw Material"@
}

/// Whether `x` is one of the names in `av`.
pub open spec fn in_avail(av: Seq<String>, x: Seq<char>) -> bool {
    exists|j: int| 0 <= j < av.len() && (#[trigger] av[j])@ == x
}

/// Whether some step of `s` produces item `k`.
pub open spec fn steps_produce(s: Seq<(Recipe, Count)>, k: Seq<char>) -> bool {
    exists|j: int| 0 <= j < s.len() && (#[trigger] s[j]).0@.result.item == k
}

/// Every name in `av` is produced by some step of the plan `p`.
pub open spec fn avail_sound(p: Seq<(RecipeView, nat)>, av: Seq<String>) -> bool {
    forall|j: int| 0 <= j < av.len() ==> produced_in(p, (#[trigger] av[j])@)
}

/// The two pseudo-recipe method labels are distinct.
proof fn lemma_methods_differ()
    ensures
        "Raw Material"@ != "In Storage"@,
{
    reveal_strlit("Raw Material");
    reveal_strlit("In Storage");
    assert("Raw Material"@.len() == 12);
    assert("In Storage"@.len() == 10);
}

proof fn lemma_produced_push(p: Seq<(RecipeView, nat)>, e: (RecipeView, nat), x: Seq<char>)
    ensures
        produced_in(p, x) ==> produced_in(p.push(e), x),
        e.0.result.item == x ==> produced_in(p.push(e), x),
{
    if produced_in(p, x) {
        let i = choose|i: int| 0 <= i < p.len() && (#[trigger] p[i]).0.result.item == x;
        assert(p.push(e)[i] == p[i]);
        assert(produced_in(p.push(e), x));
    }
    if e.0.result.item == x {
        assert(p.push(e)[p.len() as int] == e);
        assert(produced_in(p.push(e), x));
    }
}

proof fn lemma_avail_push(av: Seq<String>, e: String, x: Seq<char>)
    ensures
        in_avail(av, x) ==> in_avail(av.push(e), x),
        e@ == x ==> in_avail(av.push(e), x),
{
    if in_avail(av, x) {
        let j = choose|j: int| 0 <= j < av.len() && (#[trigger] av[j])@ == x;
        assert(av.push(e)[j] == av[j]);
        assert(in_avail(av.push(e), x));
    }
    if e@ == x {
        assert(av.push(e)[av.len() as int] == e);
        assert(in_avail(av.push(e), x));
    }
}

/// Appends `step` to the plan being built and marks its produced item
/// available, keeping the ordering invariant: the step must either be one of
/// the pseudo-recipes (which have no ordering dependency) or have every
/// ingredient already produced by an earlier step.
fn emit_step(
    out: &mut Vec<(Recipe, Count)>,
    available: &mut Vec<String>,
    step: (Recipe, Count),
    name: String,
)
    requires
        name@ == step.0@.result.item,
        plan_ordered(steps_view(old(out)@)),
        avail_sound(steps_view(old(out)@), old(available)@),
        is_craft(step.0@) ==> forall|t: int|
            0 <= t < step.0@.ingredients.len() ==> produced_in(
                steps_view(old(out)@),
                (#[trigger] step.0@.ingredients[t]).item,
            ),
    ensures
        final(out)@ == old(out)@.push(step),
        final(available)@ == old(available)@.push(name),
        steps_view(final(out)@) == steps_view(old(out)@).push((step.0@, step.1 as nat)),
        plan_ordered(steps_view(final(out)@)),
        avail_sound(steps_view(final(out)@), final(available)@),
        forall|x: Seq<char>| in_avail(old(available)@, x) ==> in_avail(final(available)@, x),
        in_avail(final(available)@, step.0@.result.item),
        raws_first(steps_view(old(out)@)) && step.0@.method != "Raw Material"@ ==> raws_first(
            steps_view(final(out)@),
        ),
        (forall|j: int|
            0 <= j < old(out)@.len() ==> (#[trigger] old(out)@[j]).0@.method == "Raw Material"@)
            && step.0@.method == "Raw Material"@ ==> forall|j: int|
            0 <= j < final(out)@.len() ==> (#[trigger] final(out)@[j]).0@.method
                == "Raw Material"@,
{
    let ghost p0 = steps_view(out@);
    let ghost av0 = available@;
    let ghost e = (step.0@, step.1 as nat);
    out.push(step);
    available.push(name);
    proof {
        let p2 = steps_view(out@);
        assert(p2 =~= p0.push(e));
        assert(plan_ordered(p2)) by {
            assert forall|j: int, t: int|
                0 <= j < p2.len() && is_craft(p2[j].0) && 0 <= t < p2[j].0.ingredients.len()
                implies #[trigger] step_covered(p2, j, t) by {
                if j < p0.len() {
                    assert(p2[j] == p0[j]);
                    assert(step_covered(p0, j, t));
                    let i = choose|i: int|
                        0 <= i < j && (#[trigger] p0[i]).0.result.item == p0[j].0.ingredients[t].item;
                    assert(p2[i] == p0[i]);
                    assert(p2[i].0.result.item == p2[j].0.ingredients[t].item);
                } else {
                    assert(p2[j] == e);
                    assert(produced_in(p0, e.0.ingredients[t].item));
                    let i = choose|i: int|
                        0 <= i < p0.len() && (#[trigger] p0[i]).0.result.item
                            == e.0.ingredients[t].item;
                    assert(p2[i] == p0[i]);
                    assert(p2[i].0.result.item == p2[j].0.ingredients[t].item);
                }
            }
        }
        assert forall|x: Seq<char>| in_avail(av0, x) implies in_avail(available@, x) by {
            lemma_avail_push(av0, name, x);
        }
        assert(in_avail(available@, step.0@.result.item)) by {
            lemma_avail_push(av0, name, name@);
        }
        if raws_first(p0) && e.0.method != "Raw Material"@ {
            assert forall|i2: int, j2: int|
                0 <= i2 < j2 < p2.len() && (#[trigger] p2[j2]).0.method == "Raw Material"@
                implies (#[trigger] p2[i2]).0.method == "Raw Material"@ by {
                assert(p2[j2] == p0[j2]);
                assert(p2[i2] == p0[i2]);
            }
        }
        assert(avail_sound(p2, available@)) by {
            assert forall|j: int| 0 <= j < available@.len() implies produced_in(
                p2,
                (#[trigger] available@[j])@,
            ) by {
                if j < av0.len() {
                    assert(available@[j] == av0[j]);
                    assert(produced_in(p0, av0[j]@));
                    lemma_produced_push(p0, e, av0[j]@);
                } else {
                    assert(available@[j] == name);
                    lemma_produced_push(p0, e, name@);
                }
            }
        }
    }
}

/// Tells whether any of the names in `av` equals `k`.
#[verifier::loop_isolation(false)]
fn avail_contains(av: &Vec<String>, k: &str) -> (r: bool)
    ensures
        r == in_avail(av@, k@),
{
    let mut j: usize = 0;
    while j < av.len()
        invariant
            j <= av@.len(),
            forall|j2: int| 0 <= j2 < j ==> (#[trigger] av@[j2])@ != k@,
        decreases av@.len() - j,
    {
        if crate::recipe::str_equal(av[j].as_str(), k) {
            return true;
        }
        j += 1;
    }
    false
}

/// Finds the first step of `list` whose recipe produces item `k`.
#[verifier::loop_isolation(false)]
fn find_producer(list: &Vec<(Recipe, Count)>, k: &str) -> (r: Option<usize>)
    ensures
        match r {
            Some(j) => j < list@.len() && list@[j as int].0@.result.item == k@,
            None => !steps_produce(list@, k@),
        },
{
    let mut j: usize = 0;
    while j < list.len()
        invariant
            j <= list@.len(),
            forall|j2: int| 0 <= j2 < j ==> (#[trigger] list@[j2]).0@.result.item != k@,
        decreases list@.len() - j,
    {
        if crate::recipe::str_equal(list[j].0.result().item(), k) {
            return Some(j);
        }
        j += 1;
    }
    None
}

/// Merges `step` into `list`, which is keyed by produced item: adds the
/// repeat counts when an entry for the same item exists, and appends the
/// step otherwise. Returns `false`, changing nothing, when the combined
/// repeat count would not fit in the count type.
#[verifier::loop_isolation(false)]
fn merge_step(list: &mut Vec<(Recipe, Count)>, step: (Recipe, Count)) -> (ok: bool)
    ensures
        ok ==> forall|j: int|
            0 <= j < final(list)@.len() ==> ((#[trigger] final(list)@[j]).0@ == step.0@
                || exists|j2: int|
                0 <= j2 < old(list)@.len() && (#[trigger] old(list)@[j2]).0@ == final(list)@[j].0@),
        ok && old(list)@.len() == 0 ==> final(list)@.len() == 1 && final(list)@[0].0@ == step.0@
            && final(list)@[0].1 == step.1,
        !steps_produce(old(list)@, step.0@.result.item) ==> ok,
        !ok ==> final(list)@ == old(list)@,
{
    match find_producer(list, step.0.result().item()) {
        Some(j) => {
            let e = list.remove(j);
            match e.1.checked_add(step.1) {
                Some(c2) => {
                    list.insert(j, (e.0, c2));
                    proof {
                        assert(list@ =~= old(list)@.update(j as int, list@[j as int]));
                        assert(list@[j as int].0@ == old(list)@[j as int].0@);
                        assert forall|j2: int| 0 <= j2 < list@.len() implies (
                        (#[trigger] list@[j2]).0@ == step.0@ || exists|j3: int|
                            0 <= j3 < old(list)@.len() && (#[trigger] old(list)@[j3]).0@
                                == list@[j2].0@) by {
                            assert(old(list)@[j2].0@ == list@[j2].0@);
                        }
                    }
                    true
                },
                None => {
                    list.insert(j, (e.0, e.1));
                    proof {
                        assert(list@ =~= old(list)@);
                    }
                    false
                },
            }
        },
        None => {
            let ghost sv = step.0@;
            list.push(step);
            proof {
                assert forall|j2: int| 0 <= j2 < list@.len() implies ((#[trigger] list@[j2]).0@
                    == sv || exists|j3: int|
                    0 <= j3 < old(list)@.len() && (#[trigger] old(list)@[j3]).0@
                        == list@[j2].0@) by {
                    if j2 < old(list)@.len() {
                        assert(old(list)@[j2].0@ == list@[j2].0@);
                    }
                }
            }
            true
        },
    }
}

/// Whether every ingredient of `step` is already available or covered by a
/// stocked storage entry with enough quantity (the stocked yield times the
/// stocked repeats covers the ingredient count times this step's repeats).
/// Fails when a coverage product does not fit in the count type.
#[verifier::loop_isolation(false)]
fn step_eligible(
    step: &(Recipe, Count),
    available: &Vec<String>,
    stored: &Vec<(Recipe, Count)>,
) -> (r: Result<bool, CalcError>)
    ensures
        r matches Ok(b) && b ==> forall|t: int|
            0 <= t < step.0@.ingredients.len() ==> in_avail(
                available@,
                (#[trigger] step.0@.ingredients[t]).item,
            ) || steps_produce(stored@, step.0@.ingredients[t].item),
        step.0@.ingredients.len() == 0 ==> (r matches Ok(b2) && b2),
        (forall|t: int|
            0 <= t < step.0@.ingredients.len() ==> in_avail(
                available@,
                (#[trigger] step.0@.ingredients[t]).item,
            )) ==> (r matches Ok(b3) && b3),
        (stored@.len() == 1 && (forall|t: int|
            0 <= t < step.0@.ingredients.len() ==> (#[trigger] step.0@.ingredients[t]).item
                == stored@[0].0@.result.item && step.0@.ingredients[t].count * step.1
                <= Count::MAX && stored@[0].0@.result.count * stored@[0].1
                >= step.0@.ingredients[t].count * step.1) && stored@[0].0@.result.count
            * stored@[0].1 <= Count::MAX) ==> (r matches Ok(b4) && b4),
{
    let ings = step.0.ingredients();
    let mut t: usize = 0;
    while t < ings.len()
        invariant
            t <= ings@.len(),
            forall|t2: int|
                0 <= t2 < t ==> in_avail(available@, (#[trigger] step.0@.ingredients[t2]).item)
                    || steps_produce(stored@, step.0@.ingredients[t2].item),
        decreases ings@.len() - t,
    {
        let ing = &ings[t];
        proof {
            assert(ing@ == step.0@.ingredients[t as int]);
        }
        if !avail_contains(available, ing.item()) {
            match find_producer(stored, ing.item()) {
                Some(j) => {
                    let lhs = match stored[j].0.result().count().checked_mul(stored[j].1) {
                        Some(v) => v,
                        None => return Err(CalcError::Overflow),
                    };
                    let rhs = match ing.count().checked_mul(step.1) {
                        Some(v) => v,
                        None => return Err(CalcError::Overflow),
                    };
                    if lhs < rhs {
                        return Ok(false);
                    }
                    proof {
                        assert(steps_produce(stored@, step.0@.ingredients[t as int].item));
                    }
                },
                None => {
                    return Ok(false);
                },
            }
        }
        t += 1;
    }
    Ok(true)
}

/// Phase B, topological compaction: reorders phase A's steps (which are in
/// discovery order) into a plan that satisfies the ordering invariant,
/// merging duplicate steps per produced item. Raw-material steps come first;
/// an "In Storage" step is emitted just before the first step that consumes
/// it, and dropped when nothing does; catalog steps are emitted in staged
/// passes once every ingredient is available. A pass in which no step
/// becomes eligible means the recipe graph is cyclic, and fails.
#[verifier::loop_isolation(false)]
fn reorder(input: Vec<(Recipe, Count)>) -> (r: Result<Vec<(Recipe, Count)>, CalcError>)
    ensures
        r matches Ok(v) ==> plan_ordered(steps_view(v@)),
        r matches Ok(v) ==> raws_first(steps_view(v@)),
        (input@.len() == 1 && input@[0].0@.method == "Raw Material"@) ==> (r matches Ok(v)
            && steps_view(v@) == steps_view(input@)),
        (input@.len() == 1 && is_craft(input@[0].0@) && input@[0].0@.ingredients.len() == 0) ==> (
        r matches Ok(v) && steps_view(v@) == steps_view(input@)),
        (input@.len() == 1 && input@[0].0@.method == "In Storage"@) ==> (r matches Ok(v)
            && v@.len() == 0),
        (input@.len() == 2 && is_craft(input@[0].0@) && input@[1].0@.method == "Raw Material"@
            && input@[0].0@.ingredients.len() == 1 && input@[1].0@.result.item
            == input@[0].0@.ingredients[0].item) ==> (r matches Ok(v) && steps_view(v@) == seq![
            steps_view(input@)[1],
            steps_view(input@)[0],
        ]),
        (input@.len() == 2 && is_craft(input@[0].0@) && input@[1].0@.method == "In Storage"@
            && input@[0].0@.ingredients.len() == 1 && input@[1].0@.result.item
            == input@[0].0@.ingredients[0].item && input@[1].0@.result.count * input@[1].1
            <= Count::MAX && input@[0].0@.ingredients[0].count * input@[0].1 <= Count::MAX
            && input@[1].0@.result.count * input@[1].1 >= input@[0].0@.ingredients[0].count
            * input@[0].1 && input@[1].1 * input@[0].1 <= Count::MAX) ==> (r matches Ok(v)
            && steps_view(v@) == seq![
            (steps_view(input@)[1].0, steps_view(input@)[1].1 * steps_view(input@)[0].1),
            steps_view(input@)[0],
        ]),
{
    let ghost iv = steps_view(input@);
    let ghost s1raw = input@.len() == 1 && input@[0].0@.method == "Raw Material"@;
    let ghost s1craft = input@.len() == 1 && is_craft(input@[0].0@)
        && input@[0].0@.ingredients.len() == 0;
    let ghost s1stored = input@.len() == 1 && input@[0].0@.method == "In Storage"@;
    let ghost s2chain = input@.len() == 2 && is_craft(input@[0].0@) && input@[1].0@.method
        == "Raw Material"@ && input@[0].0@.ingredients.len() == 1 && input@[1].0@.result.item
        == input@[0].0@.ingredients[0].item;
    let ghost s2stored = input@.len() == 2 && is_craft(input@[0].0@) && input@[1].0@.method
        == "In Storage"@ && input@[0].0@.ingredients.len() == 1 && input@[1].0@.result.item
        == input@[0].0@.ingredients[0].item && input@[1].0@.result.count * input@[1].1
        <= Count::MAX && input@[0].0@.ingredients[0].count * input@[0].1 <= Count::MAX
        && input@[1].0@.result.count * input@[1].1 >= input@[0].0@.ingredients[0].count
        * input@[0].1 && input@[1].1 * input@[0].1 <= Count::MAX;
    let ghost scaled_draw = (steps_view(input@)[1].0, steps_view(input@)[1].1 * steps_view(
        input@,
    )[0].1);
    let mut work = input;
    // Separate out the raw materials, merged per item.
    let mut raws: Vec<(Recipe, Count)> = Vec::new();
    let mut rest: Vec<(Recipe, Count)> = Vec::new();
    while !work.is_empty()
        invariant
            forall|j: int|
                0 <= j < raws@.len() ==> (#[trigger] raws@[j]).0@.method == "Raw Material"@,
            forall|j: int|
                0 <= j < rest@.len() ==> (#[trigger] rest@[j]).0@.method != "Raw Material"@,
            s1raw ==> (if work@.len() > 0 {
                work@ == input@ && raws@.len() == 0 && rest@.len() == 0
            } else {
                steps_view(raws@) == iv && rest@.len() == 0
            }),
            (s1craft || s1stored) ==> (if work@.len() > 0 {
                work@ == input@ && raws@.len() == 0 && rest@.len() == 0
            } else {
                steps_view(rest@) == iv && raws@.len() == 0
            }),
            s2chain ==> (if work@.len() == 2 {
                work@ == input@ && raws@.len() == 0 && rest@.len() == 0
            } else if work@.len() == 1 {
                work@[0] == input@[1] && steps_view(rest@) == seq![iv[0]] && raws@.len() == 0
            } else {
                work@.len() == 0 && steps_view(rest@) == seq![iv[0]] && steps_view(raws@)
                    == seq![iv[1]]
            }),
            s2stored ==> (if work@.len() == 2 {
                work@ == input@ && raws@.len() == 0 && rest@.len() == 0
            } else if work@.len() == 1 {
                work@[0] == input@[1] && steps_view(rest@) == seq![iv[0]] && raws@.len() == 0
            } else {
                work@.len() == 0 && steps_view(rest@) == seq![iv[0], iv[1]] && raws@.len() == 0
            }),
        decreases work@.len(),
    {
        let ghost raws0 = raws@;
        let ghost rest_b = rest@;
        let step = work.remove(0);
        if step.0.method_is("Raw Material") {
            let ok = merge_step(&mut raws, step);
            if !ok {
                return Err(CalcError::Overflow);
            }
        } else {
            rest.push(step);
        }
        proof {
            assert forall|j: int| 0 <= j < raws@.len() implies (#[trigger] raws@[j]).0@.method
                == "Raw Material"@ by {
                if exists|j2: int| 0 <= j2 < raws0.len() && (#[trigger] raws0[j2]).0@ == raws@[j].0@ {
                    let j2 = choose|j2: int|
                        0 <= j2 < raws0.len() && (#[trigger] raws0[j2]).0@ == raws@[j].0@;
                }
            }
            lemma_methods_differ();
            if s1raw && work@.len() == 0 {
                assert(steps_view(raws@) =~= iv);
            }
            if (s1craft || s1stored) && work@.len() == 0 {
                assert(steps_view(rest@) =~= iv);
            }
            if (s2chain || s2stored) && work@.len() == 1 {
                assert(work@ =~= input@.subrange(1, input@.len() as int));
                assert(work@[0] == input@[1]);
                assert((step.0@, step.1 as nat) == iv[0]);
                assert(steps_view(rest@) =~= seq![iv[0]]);
            }
            if s2chain && work@.len() == 0 {
                assert((step.0@, step.1 as nat) == iv[1]);
                assert(steps_view(raws@) =~= seq![iv[1]]);
            }
            if s2stored && work@.len() == 0 {
                assert((step.0@, step.1 as nat) == iv[1]);
                assert(steps_view(rest_b)[0] == (rest_b[0].0@, rest_b[0].1 as nat));
                assert(rest@[0] == rest_b[0]);
                assert(steps_view(rest@) =~= seq![iv[0], iv[1]]);
            }
        }
    }
    // Separate out the materials drawn from storage, merged per item.
    let mut stored: Vec<(Recipe, Count)> = Vec::new();
    let mut remaining: Vec<(Recipe, Count)> = Vec::new();
    while !rest.is_empty()
        invariant
            forall|j: int|
                0 <= j < stored@.len() ==> (#[trigger] stored@[j]).0@.method == "In Storage"@,
            forall|j: int| 0 <= j < remaining@.len() ==> is_craft((#[trigger] remaining@[j]).0@),
            forall|j: int|
                0 <= j < rest@.len() ==> (#[trigger] rest@[j]).0@.method != "Raw Material"@,
            s1raw ==> rest@.len() == 0 && stored@.len() == 0 && remaining@.len() == 0,
            s1craft ==> (if rest@.len() > 0 {
                steps_view(rest@) == iv && stored@.len() == 0 && remaining@.len() == 0
            } else {
                steps_view(remaining@) == iv && stored@.len() == 0
            }),
            s1stored ==> (if rest@.len() > 0 {
                steps_view(rest@) == iv && stored@.len() == 0 && remaining@.len() == 0
            } else {
                remaining@.len() == 0
            }),
            s2chain ==> (if rest@.len() > 0 {
                steps_view(rest@) == seq![iv[0]] && stored@.len() == 0 && remaining@.len() == 0
            } else {
                steps_view(remaining@) == seq![iv[0]] && stored@.len() == 0
            }),
            s2stored ==> (if rest@.len() == 2 {
                steps_view(rest@) == seq![iv[0], iv[1]] && stored@.len() == 0 && remaining@.len()
                    == 0
            } else if rest@.len() == 1 {
                steps_view(rest@) == seq![iv[1]] && steps_view(remaining@) == seq![iv[0]]
                    && stored@.len() == 0
            } else {
                rest@.len() == 0 && steps_view(remaining@) == seq![iv[0]] && steps_view(stored@)
                    == seq![iv[1]]
            }),
        decreases rest@.len(),
    {
        let ghost stored0 = stored@;
        let ghost rest0 = rest@;
        let step = rest.remove(0);
        proof {
            lemma_methods_differ();
            if s1craft || s1stored {
                assert((step.0@, step.1 as nat) == steps_view(rest0)[0]);
                assert((step.0@, step.1 as nat) == iv[0]);
            }
            if s2chain {
                assert((step.0@, step.1 as nat) == steps_view(rest0)[0]);
                assert((step.0@, step.1 as nat) == iv[0]);
            }
            if s2stored && rest0.len() == 2 {
                assert((step.0@, step.1 as nat) == steps_view(rest0)[0]);
                assert((step.0@, step.1 as nat) == iv[0]);
                assert(steps_view(rest@) =~= seq![iv[1]]);
            }
            if s2stored && rest0.len() == 1 {
                assert((step.0@, step.1 as nat) == steps_view(rest0)[0]);
                assert((step.0@, step.1 as nat) == iv[1]);
            }
        }
        if step.0.method_is("In Storage") {
            let ok = merge_step(&mut stored, step);
            if !ok {
                return Err(CalcError::Overflow);
            }
        } else {
            remaining.push(step);
        }
        proof {
            assert forall|j: int| 0 <= j < stored@.len() implies (#[trigger] stored@[j]).0@.method
                == "In Storage"@ by {
                if exists|j2: int|
                    0 <= j2 < stored0.len() && (#[trigger] stored0[j2]).0@ == stored@[j].0@ {
                    let j2 = choose|j2: int|
                        0 <= j2 < stored0.len() && (#[trigger] stored0[j2]).0@ == stored@[j].0@;
                }
            }
            lemma_methods_differ();
            if s1craft && rest@.len() == 0 && remaining@.len() > 0 {
                assert(steps_view(remaining@) =~= iv);
            }
            if s2chain && rest@.len() == 0 {
                assert(steps_view(remaining@) =~= seq![iv[0]]);
            }
            if s2stored && rest@.len() == 1 {
                assert(steps_view(remaining@) =~= seq![iv[0]]);
            }
            if s2stored && rest@.len() == 0 {
                assert(steps_view(stored@) =~= seq![iv[1]]);
            }
        }
    }
    // Emit the raw materials first: they have no ordering dependency.
    let mut out: Vec<(Recipe, Count)> = Vec::new();
    let mut available: Vec<String> = Vec::new();
    proof {
        assert(steps_view(out@) =~= Seq::<(RecipeView, nat)>::empty());
    }
    while !raws.is_empty()
        invariant
            plan_ordered(steps_view(out@)),
            avail_sound(steps_view(out@), available@),
            forall|j: int|
                0 <= j < raws@.len() ==> (#[trigger] raws@[j]).0@.method == "Raw Material"@,
            forall|j: int|
                0 <= j < out@.len() ==> (#[trigger] out@[j]).0@.method == "Raw Material"@,
            s1raw ==> (if raws@.len() > 0 {
                steps_view(raws@) == iv && out@.len() == 0
            } else {
                steps_view(out@) == iv
            }),
            (s1craft || s1stored) ==> raws@.len() == 0 && out@.len() == 0,
            s2chain ==> (if raws@.len() > 0 {
                steps_view(raws@) == seq![iv[1]] && out@.len() == 0
            } else {
                steps_view(out@) == seq![iv[1]] && in_avail(available@, iv[1].0.result.item)
            }),
            s2stored ==> raws@.len() == 0 && out@.len() == 0,
        decreases raws@.len(),
    {
        let ghost out0 = steps_view(out@);
        let step = raws.remove(0);
        let name = String::from_str(step.0.result().item());
        let ghost e = (step.0@, step.1 as nat);
        emit_step(&mut out, &mut available, step, name);
        proof {
            if s1raw && raws@.len() == 0 {
                assert(steps_view(out@) =~= iv);
            }
            if s2chain && raws@.len() == 0 {
                assert(steps_view(out@) =~= seq![iv[1]]);
            }
        }
    }
    proof {
        assert forall|i2: int, j2: int|
            0 <= i2 < j2 < steps_view(out@).len() && (#[trigger] steps_view(out@)[j2]).0.method
                == "Raw Material"@ implies (#[trigger] steps_view(out@)[i2]).0.method
            == "Raw Material"@ by {
            assert(out@[i2].0@.method == "Raw Material"@);
        }
        assert(raws_first(steps_view(out@)));
    }
    // Staged passes over the catalog steps.
    while !remaining.is_empty()
        invariant
            plan_ordered(steps_view(out@)),
            avail_sound(steps_view(out@), available@),
            raws_first(steps_view(out@)),
            forall|j: int| 0 <= j < remaining@.len() ==> is_craft((#[trigger] remaining@[j]).0@),
            forall|j: int|
                0 <= j < stored@.len() ==> (#[trigger] stored@[j]).0@.method == "In Storage"@,
            s1craft ==> (if remaining@.len() > 0 {
                steps_view(remaining@) == iv && out@.len() == 0
            } else {
                steps_view(out@) == iv
            }),
            s1raw ==> (remaining@.len() == 0 && steps_view(out@) == iv),
            s1stored ==> (remaining@.len() == 0 && out@.len() == 0),
            s2chain ==> (if remaining@.len() > 0 {
                steps_view(remaining@) == seq![iv[0]] && steps_view(out@) == seq![iv[1]]
                    && in_avail(available@, iv[1].0.result.item) && stored@.len() == 0
            } else {
                steps_view(out@) == seq![iv[1], iv[0]]
            }),
            s2stored ==> (if remaining@.len() > 0 {
                steps_view(remaining@) == seq![iv[0]] && out@.len() == 0 && steps_view(stored@)
                    == seq![iv[1]]
            } else {
                steps_view(out@) == seq![scaled_draw, iv[0]]
            }),
        decreases remaining@.len(),
    {
        let ghost rem0 = remaining@.len();
        let mut stage: Vec<(Recipe, Count)> = Vec::new();
        let mut carry: Vec<(Recipe, Count)> = Vec::new();
        let mut advanced = false;
        while !remaining.is_empty()
            invariant
                plan_ordered(steps_view(out@)),
                avail_sound(steps_view(out@), available@),
                raws_first(steps_view(out@)),
                forall|j: int|
                    0 <= j < remaining@.len() ==> is_craft((#[trigger] remaining@[j]).0@),
                forall|j: int| 0 <= j < carry@.len() ==> is_craft((#[trigger] carry@[j]).0@),
                forall|j: int| 0 <= j < stage@.len() ==> is_craft((#[trigger] stage@[j]).0@),
                forall|j: int|
                    0 <= j < stored@.len() ==> (#[trigger] stored@[j]).0@.method == "In Storage"@,
                forall|j: int, t2: int|
                    0 <= j < stage@.len() && 0 <= t2 < (#[trigger] stage@[j]).0@.ingredients.len()
                        ==> in_avail(available@, (#[trigger] stage@[j].0@.ingredients[t2]).item),
                remaining@.len() + carry@.len() + (if advanced {
                    1int
                } else {
                    0int
                }) <= rem0,
                !advanced ==> stage@.len() == 0,
                s1craft ==> (if remaining@.len() > 0 {
                    steps_view(remaining@) == iv && out@.len() == 0 && stage@.len() == 0
                        && carry@.len() == 0
                } else {
                    steps_view(stage@) == iv && out@.len() == 0 && carry@.len() == 0
                }),
                s2chain ==> (stored@.len() == 0 && steps_view(out@) == seq![iv[1]] && in_avail(
                    available@,
                    iv[1].0.result.item,
                ) && (if remaining@.len() > 0 {
                    steps_view(remaining@) == seq![iv[0]] && stage@.len() == 0 && carry@.len() == 0
                } else {
                    steps_view(stage@) == seq![iv[0]] && carry@.len() == 0
                })),
                s2stored ==> (if remaining@.len() > 0 {
                    steps_view(remaining@) == seq![iv[0]] && out@.len() == 0 && steps_view(stored@)
                        == seq![iv[1]] && stage@.len() == 0 && carry@.len() == 0
                } else {
                    steps_view(stage@) == seq![iv[0]] && steps_view(out@) == seq![scaled_draw]
                        && stored@.len() == 0 && carry@.len() == 0
                }),
            decreases remaining@.len(),
        {
            let ghost remaining0 = remaining@;
            let step = remaining.remove(0);
            proof {
                lemma_methods_differ();
                if s1craft {
                    assert((step.0@, step.1 as nat) == steps_view(remaining0)[0]);
                    assert((step.0@, step.1 as nat) == iv[0]);
                    assert(step.0@.ingredients.len() == 0);
                }
            }
            proof {
                if s2chain {
                    assert((step.0@, step.1 as nat) == steps_view(remaining0)[0]);
                    assert((step.0@, step.1 as nat) == iv[0]);
                    assert forall|t2: int| 0 <= t2 < step.0@.ingredients.len() implies in_avail(
                        available@,
                        (#[trigger] step.0@.ingredients[t2]).item,
                    ) by {
                        assert(step.0@.ingredients[t2] == iv[0].0.ingredients[0]);
                    }
                }
                if s2stored {
                    assert((step.0@, step.1 as nat) == steps_view(remaining0)[0]);
                    assert((step.0@, step.1 as nat) == iv[0]);
                    assert(steps_view(stored@)[0] == (stored@[0].0@, stored@[0].1 as nat));
                    assert(stored@[0].0@ == iv[1].0);
                    assert forall|t2: int| 0 <= t2 < step.0@.ingredients.len() implies (
                    #[trigger] step.0@.ingredients[t2]).item == stored@[0].0@.result.item
                        && step.0@.ingredients[t2].count * step.1 <= Count::MAX
                        && stored@[0].0@.result.count * stored@[0].1 >= step.0@.ingredients[t2].count
                        * step.1 by {
                        assert(step.0@.ingredients[t2] == iv[0].0.ingredients[0]);
                    }
                }
            }
            let elig = match step_eligible(&step, &available, &stored) {
                Ok(b) => b,
                Err(e) => return Err(e),
            };
            if elig {
                advanced = true;
                let n_ings = step.0.ingredients().len();
                let mut t: usize = 0;
                while t < n_ings
                    invariant
                        n_ings == step.0@.ingredients.len(),
                        t <= n_ings,
                        plan_ordered(steps_view(out@)),
                        avail_sound(steps_view(out@), available@),
                        raws_first(steps_view(out@)),
                        is_craft(step.0@),
                        forall|j: int| 0 <= j < stage@.len() ==> is_craft((#[trigger] stage@[j]).0@),
                        forall|j: int|
                            0 <= j < stored@.len() ==> (#[trigger] stored@[j]).0@.method
                                == "In Storage"@,
                        forall|t2: int|
                            0 <= t2 < t ==> in_avail(
                                available@,
                                (#[trigger] step.0@.ingredients[t2]).item,
                            ),
                        forall|t2: int|
                            t <= t2 < n_ings ==> in_avail(
                                available@,
                                (#[trigger] step.0@.ingredients[t2]).item,
                            ) || steps_produce(stored@, step.0@.ingredients[t2].item),
                        forall|j: int, t2: int|
                            0 <= j < stage@.len() && 0 <= t2 < (
                            #[trigger] stage@[j]).0@.ingredients.len() ==> in_avail(
                                available@,
                                (#[trigger] stage@[j].0@.ingredients[t2]).item,
                            ),
                        s1craft ==> out@.len() == 0 && stage@.len() == 0 && carry@.len() == 0
                            && n_ings == 0,
                        s2chain ==> (stored@.len() == 0 && steps_view(out@) == seq![iv[1]]
                            && in_avail(available@, iv[1].0.result.item) && stage@.len() == 0
                            && carry@.len() == 0),
                        s2stored ==> (stage@.len() == 0 && carry@.len() == 0 && n_ings == 1
                            && (step.0@, step.1 as nat) == iv[0] && (if t == 0 {
                            steps_view(stored@) == seq![iv[1]] && out@.len() == 0
                        } else {
                            stored@.len() == 0 && steps_view(out@) == seq![scaled_draw]
                        })),
                    decreases n_ings - t,
                {
                    let ghost av0 = available@;
                    let ghost st0 = stored@;
                    let name = String::from_str(step.0.ingredients()[t].item());
                    let ghost ing_item = step.0@.ingredients[t as int].item;
                    match find_producer(&stored, name.as_str()) {
                        Some(j) => {
                            proof {
                                if s2stored {
                                    assert(j == 0);
                                    assert(steps_view(stored@)[0] == (
                                        stored@[0].0@,
                                        stored@[0].1 as nat,
                                    ));
                                    assert((stored@[0].0@, stored@[0].1 as nat) == iv[1]);
                                }
                            }
                            let se = stored.remove(j);
                            let scaled = match se.1.checked_mul(step.1) {
                                Some(v) => v,
                                None => return Err(CalcError::Overflow),
                            };
                            proof {
                                assert(se.0@.method == "In Storage"@);
                                assert(!is_craft(se.0@));
                                lemma_methods_differ();
                            }
                            emit_step(&mut out, &mut available, (se.0, scaled), name);
                            proof {
                                if s2stored {
                                    assert(steps_view(out@) =~= seq![scaled_draw]);
                                }
                                assert forall|j2: int| 0 <= j2 < stored@.len() implies (
                                #[trigger] stored@[j2]).0@.method == "In Storage"@ by {
                                    assert(stored@ == st0.remove(j as int));
                                    if j2 < j {
                                        assert(stored@[j2] == st0[j2]);
                                    } else {
                                        assert(stored@[j2] == st0[j2 + 1]);
                                    }
                                }
                                assert(in_avail(available@, ing_item));
                                assert forall|t2: int| t + 1 <= t2 < n_ings implies in_avail(
                                    available@,
                                    (#[trigger] step.0@.ingredients[t2]).item,
                                ) || steps_produce(stored@, step.0@.ingredients[t2].item) by {
                                    let x = step.0@.ingredients[t2].item;
                                    if in_avail(av0, x) {
                                    } else if x == ing_item {
                                        assert(in_avail(available@, x));
                                    } else if steps_produce(st0, x) {
                                        let j3 = choose|j3: int|
                                            0 <= j3 < st0.len() && (#[trigger] st0[j3]).0@.result.item
                                                == x;
                                        assert(j3 != j);
                                        if j3 < j {
                                            assert(stored@[j3] == st0[j3]);
                                            assert(steps_produce(stored@, x));
                                        } else {
                                            assert(stored@[j3 - 1] == st0[j3]);
                                            assert(steps_produce(stored@, x));
                                        }
                                    }
                                }
                            }
                        },
                        None => {
                            proof {
                                assert(!steps_produce(stored@, ing_item));
                                assert(in_avail(available@, ing_item));
                            }
                        },
                    }
                    t += 1;
                }
                let ghost stage0 = stage@;
                let ghost step_view = step.0@;
                let ok = merge_step(&mut stage, step);
                if !ok {
                    return Err(CalcError::Overflow);
                }
                proof {
                    assert forall|j: int| 0 <= j < stage@.len() implies is_craft(
                        (#[trigger] stage@[j]).0@,
                    ) by {
                        if stage@[j].0@ != step_view {
                            let j2 = choose|j2: int|
                                0 <= j2 < stage0.len() && (#[trigger] stage0[j2]).0@
                                    == stage@[j].0@;
                        }
                    }
                    if s1craft {
                        assert(steps_view(stage@) =~= iv);
                    }
                    if s2chain {
                        assert(steps_view(stage@) =~= seq![iv[0]]);
                    }
                    if s2stored {
                        assert(steps_view(stage@) =~= seq![iv[0]]);
                    }
                }
            } else {
                carry.push(step);
            }
        }
        if !advanced {
            return Err(CalcError::Cycle);
        }
        // Emit this stage's merged steps; each one's ingredients are
        // available, hence produced by a strictly earlier emitted step.
        while !stage.is_empty()
            invariant
                plan_ordered(steps_view(out@)),
                avail_sound(steps_view(out@), available@),
                raws_first(steps_view(out@)),
                forall|j: int| 0 <= j < stage@.len() ==> is_craft((#[trigger] stage@[j]).0@),
                forall|j: int|
                    0 <= j < stored@.len() ==> (#[trigger] stored@[j]).0@.method == "In Storage"@,
                forall|j: int, t2: int|
                    0 <= j < stage@.len() && 0 <= t2 < (#[trigger] stage@[j]).0@.ingredients.len()
                        ==> in_avail(available@, (#[trigger] stage@[j].0@.ingredients[t2]).item),
                s1craft ==> (if stage@.len() > 0 {
                    steps_view(stage@) == iv && out@.len() == 0
                } else {
                    steps_view(out@) == iv
                }),
                s1raw ==> steps_view(out@) == iv && stage@.len() == 0,
                s1stored ==> out@.len() == 0 && stage@.len() == 0,
                s2chain ==> (if stage@.len() > 0 {
                    steps_view(stage@) == seq![iv[0]] && steps_view(out@) == seq![iv[1]]
                } else {
                    steps_view(out@) == seq![iv[1], iv[0]]
                }),
                s2stored ==> (if stage@.len() > 0 {
                    steps_view(stage@) == seq![iv[0]] && steps_view(out@) == seq![scaled_draw]
                } else {
                    steps_view(out@) == seq![scaled_draw, iv[0]]
                }),
            decreases stage@.len(),
        {
            let ghost stage_pre = stage@;
            let step = stage.remove(0);
            proof {
                if s2chain || s2stored {
                    assert((step.0@, step.1 as nat) == steps_view(stage_pre)[0]);
                    assert((step.0@, step.1 as nat) == iv[0]);
                }
            }
            let name = String::from_str(step.0.result().item());
            proof {
                assert forall|t2: int| 0 <= t2 < step.0@.ingredients.len() implies produced_in(
                    steps_view(out@),
                    (#[trigger] step.0@.ingredients[t2]).item,
                ) by {
                    assert(in_avail(available@, step.0@.ingredients[t2].item));
                    let j = choose|j: int|
                        0 <= j < available@.len() && (#[trigger] available@[j])@
                            == step.0@.ingredients[t2].item;
                    assert(produced_in(steps_view(out@), available@[j]@));
                }
            }
            emit_step(&mut out, &mut available, step, name);
            proof {
                if s1craft && stage@.len() == 0 {
                    assert(steps_view(out@) =~= iv);
                }
                if s2chain && stage@.len() == 0 {
                    assert(steps_view(out@) =~= seq![iv[1], iv[0]]);
                }
                if s2stored && stage@.len() == 0 {
                    assert(steps_view(out@) =~= seq![scaled_draw, iv[0]]);
                }
            }
        }
        remaining = carry;
    }
    Ok(out)
}


/// Everything a recomputation promises of the plan, in terms of the state it
/// was computed from. `ok` tells whether the recomputation succeeded.
///
/// - A successful plan satisfies the ordering invariant, with its
///   raw-material steps forming a prefix; a failed recomputation leaves the
///   plan empty.
/// - A target with no recipe and no stock becomes exactly one Raw Material
///   step for the full target count.
/// - A target whose recipe has no ingredients (and no stock) becomes exactly
///   that recipe, repeated the smallest number of times whose yield covers
///   the target count.
/// - A target fully covered by pre-supplied stock yields an empty plan: the
///   storage draw is emitted only ahead of a step that consumes it.
/// - A target whose recipe's single ingredient is a raw material becomes
///   exactly that ingredient as a raw-material step, its count multiplied by
///   the batch count, followed by the recipe.
/// - A target whose recipe's single ingredient is covered by the
///   pre-supplied pool becomes an In Storage step for that ingredient
///   (the drawn amount scaled once more by the consuming step's repeat
///   count) followed by the recipe, and no raw-material or catalog step for
///   the ingredient appears, whether or not a recipe for it exists.
pub open spec fn plan_outcome(c: Calculator, ok: bool) -> bool {
    &&& (ok ==> plan_ordered(c.spec_steps()))
    &&& (ok ==> raws_first(c.spec_steps()))
    &&& (!ok ==> c.spec_steps().len() == 0)
    &&& (c.lone_raw_target() ==> (ok && c.spec_steps() == seq![
        (raw_material_view(c.spec_target().item), c.spec_target().count),
    ]))
    &&& (c.lone_batch_target() ==> (ok && c.spec_steps() == seq![
        (
            c.recipe_for(c.spec_target().item),
            batches(c.spec_target().count, c.recipe_for(c.spec_target().item).result.count),
        ),
    ]))
    &&& (c.stored_target() ==> (ok && c.spec_steps().len() == 0))
    &&& (c.chain_target() ==> (ok && c.spec_steps() == seq![
        (
            raw_material_view(c.recipe_for(c.spec_target().item).ingredients[0].item),
            c.recipe_for(c.spec_target().item).ingredients[0].count * batches(
                c.spec_target().count,
                c.recipe_for(c.spec_target().item).result.count,
            ),
        ),
        (
            c.recipe_for(c.spec_target().item),
            batches(c.spec_target().count, c.recipe_for(c.spec_target().item).result.count),
        ),
    ]))
    &&& (c.stored_chain_target() ==> (ok && c.spec_steps() == seq![
        (
            in_storage_view(c.recipe_for(c.spec_target().item).ingredients[0].item),
            (c.recipe_for(c.spec_target().item).ingredients[0].count * batches(
                c.spec_target().count,
                c.recipe_for(c.spec_target().item).result.count,
            )) * batches(c.spec_target().count, c.recipe_for(c.spec_target().item).result.count),
        ),
        (
            c.recipe_for(c.spec_target().item),
            batches(c.spec_target().count, c.recipe_for(c.spec_target().item).result.count),
        ),
    ]))
}

/// For the target shapes whose plan [`plan_outcome`] pins down exactly, the
/// plan is a function of the catalog, the resource pool and the target
/// alone: two recomputations from equal state yield the identical plan, so
/// repeating a mutation that leaves the state equal (setting the same target
/// or registering the same recipe twice) yields the identical plan too.
pub proof fn law_outcome_deterministic(a: Calculator, b: Calculator, oka: bool, okb: bool)
    requires
        plan_outcome(a, oka),
        plan_outcome(b, okb),
        a.catalog() == b.catalog(),
        a.spec_target() == b.spec_target(),
        forall|k: Seq<char>| a.resource_amt(k) == b.resource_amt(k),
        a.lone_raw_target() || a.lone_batch_target() || a.stored_target() || a.chain_target()
            || a.stored_chain_target(),
    ensures
        a.spec_steps() == b.spec_steps(),
{
    if a.lone_raw_target() {
        assert(b.lone_raw_target());
    } else if a.lone_batch_target() {
        assert(b.lone_batch_target());
    } else if a.stored_target() {
        assert(b.stored_target());
        assert(a.spec_steps() =~= b.spec_steps());
    } else if a.chain_target() {
        assert(b.chain_target());
    } else {
        assert(b.stored_chain_target());
    }
}

impl Default for Calculator {
    /// Same as [`Calculator::new`]: a calculator that knows no recipes.
    fn default() -> (r: Self)
        ensures
            forall|k: Seq<char>| !r.has_recipe(k),
            forall|k: Seq<char>| r.resource_amt(k) == 0,
            r.spec_target() == (StackView { item: "Air"@, count: 1 }),
            r.spec_steps() == Seq::<(RecipeView, nat)>::empty(),
    {
        Self::new()
    }
}

impl Calculator {
    /// Recomputes the plan from scratch out of the current catalog, target
    /// and resource pool: demand propagation, then topological compaction.
    /// On failure the plan is left empty.
    fn recompute(&mut self) -> (r: Result<(), CalcError>)
        ensures
            final(self).catalog() == old(self).catalog(),
            forall|k: Seq<char>| final(self).resource_amt(k) == old(self).resource_amt(k),
            final(self).spec_target() == old(self).spec_target(),
            plan_outcome(*final(self), r is Ok),
    {
        self.steps = Vec::new();
        proof {
            assert(steps_view(self.steps@) =~= Seq::<(RecipeView, nat)>::empty());
        }
        let phase_a = match self.propagate() {
            Ok(v) => v,
            Err(e) => {
                return Err(e);
            },
        };
        let ghost pv = steps_view(phase_a@);
        proof {
            if self.lone_raw_target() || self.stored_target() || self.lone_batch_target() {
                assert(pv.len() == 1);
                assert(steps_view(phase_a@)[0] == (phase_a@[0].0@, phase_a@[0].1 as nat));
                assert(phase_a@[0].0@ == pv[0].0);
            }
            if self.chain_target() {
                assert(pv.len() == 2);
                assert(steps_view(phase_a@)[0] == (phase_a@[0].0@, phase_a@[0].1 as nat));
                assert(steps_view(phase_a@)[1] == (phase_a@[1].0@, phase_a@[1].1 as nat));
                assert(phase_a@[0].0@ == pv[0].0);
                assert(phase_a@[1].0@ == pv[1].0);
                assert(is_craft(phase_a@[0].0@));
                assert(phase_a@[1].0@.method == "Raw Material"@);
                assert(phase_a@[0].0@.ingredients.len() == 1);
                assert(phase_a@[1].0@.result.item == phase_a@[0].0@.ingredients[0].item);
            }
            if self.stored_chain_target() {
                let t = self.spec_target();
                let r = self.recipe_for(t.item);
                let b = batches(t.count, r.result.count);
                assert(pv.len() == 2);
                assert(steps_view(phase_a@)[0] == (phase_a@[0].0@, phase_a@[0].1 as nat));
                assert(steps_view(phase_a@)[1] == (phase_a@[1].0@, phase_a@[1].1 as nat));
                assert(phase_a@[0].0@ == pv[0].0);
                assert(phase_a@[1].0@ == pv[1].0);
                assert(is_craft(phase_a@[0].0@));
                assert(phase_a@[1].0@.method == "In Storage"@);
                assert(phase_a@[0].0@.ingredients.len() == 1);
                assert(phase_a@[1].0@.result.item == phase_a@[0].0@.ingredients[0].item);
                assert(pv[1].0.result.count == 1);
                assert(pv[1].1 == r.ingredients[0].count * b);
                assert(pv[0].1 == b);
                assert(pv[1].0.result.count * pv[1].1 <= Count::MAX);
                assert(pv[0].0.ingredients[0].count * pv[0].1 <= Count::MAX);
                assert(pv[1].0.result.count * pv[1].1 >= pv[0].0.ingredients[0].count * pv[0].1);
                assert(pv[1].1 * pv[0].1 <= Count::MAX);
            }
        }
        match reorder(phase_a) {
            Ok(plan) => {
                self.steps = plan;
                proof {
                    if self.lone_raw_target() || self.lone_batch_target() {
                        assert(self.spec_steps() =~= pv);
                    }
                    if self.chain_target() {
                        assert(self.spec_steps() =~= seq![pv[1], pv[0]]);
                    }
                    if self.stored_chain_target() {
                        assert(self.spec_steps() =~= seq![(pv[1].0, pv[1].1 * pv[0].1), pv[0]]);
                    }
                }
                Ok(())
            },
            Err(e) => Err(e),
        }
    }

    /// Adds the given stack to the set of resources that are already
    /// available and do not need to be crafted (additive for an item the
    /// pool already holds), then recomputes the plan. Fails, changing
    /// nothing, when the new pool count would not fit in the count type, and
    /// fails with an empty plan when the recomputation overflows.
    pub fn add_resource(&mut self, resource: Stack) -> (r: Result<(), CalcError>)
        ensures
            final(self).catalog() == old(self).catalog(),
            final(self).spec_target() == old(self).spec_target(),
            old(self).resource_amt(resource@.item) + resource@.count > Count::MAX ==> (r
                == Err::<(), CalcError>(CalcError::Overflow) && (forall|k: Seq<char>|
                final(self).resource_amt(k) == old(self).resource_amt(k)) && final(self).spec_steps()
                == old(self).spec_steps()),
            old(self).resource_amt(resource@.item) + resource@.count <= Count::MAX ==> ((forall|
                k: Seq<char>,
            |
                final(self).resource_amt(k) as int == (if k == resource@.item {
                    old(self).resource_amt(resource@.item) as int + resource@.count as int
                } else {
                    old(self).resource_amt(k) as int
                })) && plan_outcome(*final(self), r is Ok)),
    {
        let ok = self.initial_materials.add(resource.item(), resource.count());
        if !ok {
            return Err(CalcError::Overflow);
        }
        self.recompute()
    }

    /// Sets the recipe for creating `recipe.result().item()`, replacing any
    /// earlier recipe for that item, then recomputes the plan.
    pub fn set_recipe(&mut self, recipe: Recipe) -> (r: Result<(), CalcError>)
        ensures
            forall|k: Seq<char>|
                final(self).has_recipe(k) == (old(self).has_recipe(k) || k
                    == recipe@.result.item),
            forall|k: Seq<char>|
                #[trigger] final(self).has_recipe(k) ==> final(self).recipe_for(k) == (if k
                    == recipe@.result.item {
                    recipe@
                } else {
                    old(self).recipe_for(k)
                }),
            forall|k: Seq<char>| final(self).resource_amt(k) == old(self).resource_amt(k),
            final(self).spec_target() == old(self).spec_target(),
            plan_outcome(*final(self), r is Ok),
    {
        self.insert_recipe(recipe);
        let ghost mid = *self;
        let r = self.recompute();
        proof {
            assert forall|k: Seq<char>| #[trigger] self.has_recipe(k) implies self.recipe_for(k)
                == (if k == recipe@.result.item {
                recipe@
            } else {
                old(self).recipe_for(k)
            }) by {
                assert(mid.has_recipe(k) == self.has_recipe(k));
                assert(mid.recipe_for(k) == self.recipe_for(k));
            }
            assert forall|k: Seq<char>| true implies self.has_recipe(k) == (old(self).has_recipe(k)
                || k == recipe@.result.item) by {
                assert(mid.has_recipe(k) == self.has_recipe(k));
            }
        }
        r
    }

    /// Sets the calculator to use the specified recipes for creating their
    /// results, then recomputes the plan. If multiple recipes produce the
    /// same item, the later recipe overrides the earlier one(s).
    pub fn add_recipes(&mut self, recipes: Vec<Recipe>) -> (r: Result<(), CalcError>)
        ensures
            forall|k: Seq<char>|
                final(self).has_recipe(k) == (old(self).has_recipe(k) || catalog_has(
                    recipes_view(recipes@),
                    k,
                )),
            forall|k: Seq<char>|
                #[trigger] final(self).has_recipe(k) ==> final(self).recipe_for(k) == (
                if catalog_has(recipes_view(recipes@), k) {
                    catalog_last(recipes_view(recipes@), k)
                } else {
                    old(self).recipe_for(k)
                }),
            forall|k: Seq<char>| final(self).resource_amt(k) == old(self).resource_amt(k),
            final(self).spec_target() == old(self).spec_target(),
            plan_outcome(*final(self), r is Ok),
    {
        let ghost rv = recipes_view(recipes@);
        self.merge_recipes(recipes);
        let ghost mid = *self;
        let r = self.recompute();
        proof {
            assert forall|k: Seq<char>| #[trigger] self.has_recipe(k) implies self.recipe_for(k)
                == (if catalog_has(rv, k) {
                catalog_last(rv, k)
            } else {
                old(self).recipe_for(k)
            }) by {
                assert(mid.has_recipe(k) == self.has_recipe(k));
                assert(mid.recipe_for(k) == self.recipe_for(k));
            }
            assert forall|k: Seq<char>| true implies self.has_recipe(k) == (old(self).has_recipe(k)
                || catalog_has(rv, k)) by {
                assert(mid.has_recipe(k) == self.has_recipe(k));
            }
        }
        r
    }

    /// Sets the target for the calculator, then recomputes the plan.
    pub fn set_target(&mut self, target: Stack) -> (r: Result<(), CalcError>)
        ensures
            final(self).catalog() == old(self).catalog(),
            forall|k: Seq<char>| final(self).resource_amt(k) == old(self).resource_amt(k),
            final(self).spec_target() == target@,
            plan_outcome(*final(self), r is Ok),
    {
        self.target = target;
        self.recompute()
    }
}


} // verus!
