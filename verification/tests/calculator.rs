use crafting_calculator::CalcError;
use crafting_calculator::Calculator;
use crafting_calculator::Recipe;
use crafting_calculator::Stack;

#[test]
fn calculate_raw_material() {
    let expected = [(
        Recipe::new(
            Stack::new("Oak Log", 1),
            "Raw Material",
            vec![Stack::new("Oak Log", 1)],
        ),
        1,
    )];
    let mut calculator = Calculator::new();
    calculator.set_target(Stack::new("Oak Log", 1)).unwrap();
    let actual = calculator.steps();
    assert_eq!(&expected[..], &actual[..]);
}

#[test]
fn calculate_one_step() {
    let expected = [
        (
            Recipe::new(
                Stack::new("Oak Log", 1),
                "Raw Material",
                vec![Stack::new("Oak Log", 1)],
            ),
            1,
        ),
        (
            Recipe::new(
                Stack::new("Charcoal", 1),
                "Furnace",
                vec![Stack::new("Oak Log", 1)],
            ),
            1,
        ),
    ];
    let mut calculator = Calculator::new();
    calculator
        .set_recipe(Recipe::new(
            Stack::new("Charcoal", 1),
            "Furnace",
            vec![Stack::new("Oak Log", 1)],
        ))
        .unwrap();
    calculator.set_target(Stack::new("Charcoal", 1)).unwrap();
    let actual = calculator.steps();
    assert_eq!(&expected[..], &actual[..]);
}

#[test]
fn calculate_leftovers() {
    let expected = [
        (
            Recipe::new(
                Stack::new("Oak Log", 1),
                "Raw Material",
                vec![Stack::new("Oak Log", 1)],
            ),
            1,
        ),
        (
            Recipe::new(
                Stack::new("Oak Wood Planks", 4),
                "Crafting Table",
                vec![Stack::new("Oak Log", 1)],
            ),
            1,
        ),
    ];
    let mut calculator = Calculator::new();
    calculator
        .set_recipe(Recipe::new(
            Stack::new("Oak Wood Planks", 4),
            "Crafting Table",
            vec![Stack::new("Oak Log", 1)],
        ))
        .unwrap();
    calculator
        .set_target(Stack::new("Oak Wood Planks", 1))
        .unwrap();
    let actual = calculator.steps();
    assert_eq!(&expected[..], &actual[..]);
}

fn shovel_recipes() -> Vec<Recipe> {
    vec![
        Recipe::new(
            Stack::new("Oak Wood Planks", 4),
            "Crafting Table",
            vec![Stack::new("Oak Log", 1)],
        ),
        Recipe::new(
            Stack::new("Stick", 4),
            "Crafting Table",
            vec![Stack::new("Oak Wood Planks", 2)],
        ),
        Recipe::new(
            Stack::new("Wooden Shovel", 1),
            "Crafting Table",
            vec![Stack::new("Oak Wood Planks", 1), Stack::new("Stick", 2)],
        ),
    ]
}

#[test]
fn calculate_leftover_reuse() {
    let expected = [
        (
            Recipe::new(
                Stack::new("Oak Log", 1),
                "Raw Material",
                vec![Stack::new("Oak Log", 1)],
            ),
            1,
        ),
        (
            Recipe::new(
                Stack::new("Oak Wood Planks", 4),
                "Crafting Table",
                vec![Stack::new("Oak Log", 1)],
            ),
            1,
        ),
        (
            Recipe::new(
                Stack::new("Stick", 4),
                "Crafting Table",
                vec![Stack::new("Oak Wood Planks", 2)],
            ),
            1,
        ),
        (
            Recipe::new(
                Stack::new("Wooden Shovel", 1),
                "Crafting Table",
                vec![Stack::new("Oak Wood Planks", 1), Stack::new("Stick", 2)],
            ),
            1,
        ),
    ];
    let mut calculator = Calculator::with_recipes(shovel_recipes());
    calculator.set_target(Stack::new("Wooden Shovel", 1)).unwrap();
    let actual = calculator.steps();
    assert_eq!(&expected[..], &actual[..]);
}

#[test]
fn calculate_storage_use() {
    let expected = [
        (
            Recipe::new(
                Stack::new("Oak Log", 1),
                "Raw Material",
                vec![Stack::new("Oak Log", 1)],
            ),
            1,
        ),
        (
            Recipe::new(
                Stack::new("Oak Wood Planks", 4),
                "Crafting Table",
                vec![Stack::new("Oak Log", 1)],
            ),
            1,
        ),
        (
            Recipe::new(
                Stack::new("Stick", 4),
                "Crafting Table",
                vec![Stack::new("Oak Wood Planks", 2)],
            ),
            1,
        ),
        (
            Recipe::new(
                Stack::new("Stick", 1),
                "In Storage",
                vec![Stack::new("Stick", 1)],
            ),
            1,
        ),
        (
            Recipe::new(
                Stack::new("Wooden Shovel", 1),
                "Crafting Table",
                vec![Stack::new("Oak Wood Planks", 1), Stack::new("Stick", 2)],
            ),
            1,
        ),
    ];
    let mut calculator = Calculator::with_recipes(shovel_recipes());
    calculator.set_target(Stack::new("Wooden Shovel", 1)).unwrap();
    calculator.add_resource(Stack::new("Stick", 1)).unwrap();
    let actual = calculator.steps();
    assert_eq!(&expected[..], &actual[..]);
}

#[test]
fn repeats_round_up_to_whole_batches() {
    let expected = [
        (
            Recipe::new(
                Stack::new("Oak Log", 1),
                "Raw Material",
                vec![Stack::new("Oak Log", 1)],
            ),
            3,
        ),
        (
            Recipe::new(
                Stack::new("Oak Wood Planks", 4),
                "Crafting Table",
                vec![Stack::new("Oak Log", 1)],
            ),
            3,
        ),
    ];
    let mut calculator = Calculator::new();
    calculator
        .set_recipe(Recipe::new(
            Stack::new("Oak Wood Planks", 4),
            "Crafting Table",
            vec![Stack::new("Oak Log", 1)],
        ))
        .unwrap();
    calculator
        .set_target(Stack::new("Oak Wood Planks", 9))
        .unwrap();
    let actual = calculator.steps();
    assert_eq!(&expected[..], &actual[..]);
}

#[test]
fn storage_covering_the_target_leaves_no_steps() {
    let mut calculator = Calculator::new();
    calculator.add_resource(Stack::new("Stick", 5)).unwrap();
    calculator.set_target(Stack::new("Stick", 3)).unwrap();
    assert!(calculator.steps().is_empty());
}

#[test]
fn zero_count_target_needs_no_steps() {
    let mut calculator = Calculator::new();
    calculator.set_target(Stack::new("Oak Log", 0)).unwrap();
    assert!(calculator.steps().is_empty());
}

#[test]
fn repeated_mutation_yields_identical_plan() {
    let mut calculator = Calculator::with_recipes(shovel_recipes());
    calculator.set_target(Stack::new("Wooden Shovel", 1)).unwrap();
    let first = format!("{:?}", calculator.steps());
    calculator.set_target(Stack::new("Wooden Shovel", 1)).unwrap();
    let second = format!("{:?}", calculator.steps());
    assert_eq!(first, second);
    calculator
        .set_recipe(Recipe::new(
            Stack::new("Stick", 4),
            "Crafting Table",
            vec![Stack::new("Oak Wood Planks", 2)],
        ))
        .unwrap();
    let third = format!("{:?}", calculator.steps());
    assert_eq!(first, third);
}

#[test]
fn resource_overflow_is_reported() {
    let mut calculator = Calculator::new();
    calculator
        .add_resource(Stack::new("Stick", usize::MAX))
        .unwrap();
    let r = calculator.add_resource(Stack::new("Stick", 1));
    assert_eq!(r, Err(CalcError::Overflow));
}

#[test]
fn cyclic_recipes_fail_the_computation() {
    let mut calculator = Calculator::new();
    calculator
        .set_recipe(Recipe::new(
            Stack::new("A", 1),
            "Crafting Table",
            vec![Stack::new("B", 1)],
        ))
        .unwrap();
    calculator
        .set_recipe(Recipe::new(
            Stack::new("B", 1),
            "Crafting Table",
            vec![Stack::new("A", 1)],
        ))
        .unwrap();
    let r = calculator.set_target(Stack::new("A", 1));
    assert_eq!(r, Err(CalcError::Cycle));
    assert!(calculator.steps().is_empty());
}

#[test]
fn later_recipe_overrides_earlier_one() {
    let mut calculator = Calculator::new();
    calculator
        .add_recipes(vec![
            Recipe::new(
                Stack::new("Charcoal", 1),
                "Furnace",
                vec![Stack::new("Oak Log", 1)],
            ),
            Recipe::new(
                Stack::new("Charcoal", 2),
                "Blast Furnace",
                vec![Stack::new("Birch Log", 1)],
            ),
        ])
        .unwrap();
    calculator.set_target(Stack::new("Charcoal", 1)).unwrap();
    let expected = [
        (
            Recipe::new(
                Stack::new("Birch Log", 1),
                "Raw Material",
                vec![Stack::new("Birch Log", 1)],
            ),
            1,
        ),
        (
            Recipe::new(
                Stack::new("Charcoal", 2),
                "Blast Furnace",
                vec![Stack::new("Birch Log", 1)],
            ),
            1,
        ),
    ];
    let actual = calculator.steps();
    assert_eq!(&expected[..], &actual[..]);
}

#[test]
fn getters_reflect_state() {
    let mut calculator = Calculator::new();
    assert_eq!(calculator.target(), &Stack::new("Air", 1));
    assert!(calculator.recipes().is_empty());
    calculator
        .set_recipe(Recipe::new(
            Stack::new("Charcoal", 1),
            "Furnace",
            vec![Stack::new("Oak Log", 1)],
        ))
        .unwrap();
    assert_eq!(calculator.recipes().len(), 1);
    assert_eq!(calculator.recipes()[0].method(), "Furnace");
    assert_eq!(calculator.recipes()[0].result(), &Stack::new("Charcoal", 1));
    assert_eq!(
        calculator.recipes()[0].ingredients(),
        &vec![Stack::new("Oak Log", 1)]
    );
}

#[test]
fn two_raw_ingredients_come_first() {
    let mut calculator = Calculator::new();
    calculator
        .set_recipe(Recipe::new(
            Stack::new("Cake", 1),
            "Crafting Table",
            vec![Stack::new("Milk", 3), Stack::new("Wheat", 3)],
        ))
        .unwrap();
    calculator.set_target(Stack::new("Cake", 2)).unwrap();
    // The two raw-material steps precede the crafting step; their relative
    // order between each other is not part of the contract.
    let steps = calculator.steps();
    assert_eq!(steps.len(), 3);
    assert_eq!(steps[0].0.method(), "Raw Material");
    assert_eq!(steps[1].0.method(), "Raw Material");
    assert_eq!(steps[0].1, 6);
    assert_eq!(steps[1].1, 6);
    let mut raw_items = vec![steps[0].0.result().item(), steps[1].0.result().item()];
    raw_items.sort();
    assert_eq!(raw_items, vec!["Milk", "Wheat"]);
    assert_eq!(
        steps[2],
        (
            Recipe::new(
                Stack::new("Cake", 1),
                "Crafting Table",
                vec![Stack::new("Milk", 3), Stack::new("Wheat", 3)],
            ),
            2,
        )
    );
}

#[test]
fn shared_raw_material_is_merged() {
    let mut calculator = Calculator::new();
    calculator
        .add_recipes(vec![
            Recipe::new(
                Stack::new("Glass", 1),
                "Furnace",
                vec![Stack::new("Sand", 1), Stack::new("Coal", 1)],
            ),
            Recipe::new(
                Stack::new("Iron Ingot", 1),
                "Furnace",
                vec![Stack::new("Iron Ore", 1), Stack::new("Coal", 1)],
            ),
            Recipe::new(
                Stack::new("Lantern", 1),
                "Crafting Table",
                vec![Stack::new("Glass", 1), Stack::new("Iron Ingot", 1)],
            ),
        ])
        .unwrap();
    calculator.set_target(Stack::new("Lantern", 1)).unwrap();
    let steps = calculator.steps();
    let coal_steps: Vec<_> = steps
        .iter()
        .filter(|(r, _)| r.result().item() == "Coal")
        .collect();
    assert_eq!(coal_steps.len(), 1);
    assert_eq!(coal_steps[0].1, 2);
    assert_eq!(coal_steps[0].0.method(), "Raw Material");
}

#[test]
fn storage_draw_is_scaled_by_consumer_repeats() {
    let mut calculator = Calculator::new();
    calculator
        .set_recipe(Recipe::new(
            Stack::new("Charcoal", 1),
            "Furnace",
            vec![Stack::new("Coal", 2)],
        ))
        .unwrap();
    calculator.add_resource(Stack::new("Coal", 4)).unwrap();
    calculator.set_target(Stack::new("Charcoal", 2)).unwrap();
    let expected = [
        (
            Recipe::new(
                Stack::new("Coal", 1),
                "In Storage",
                vec![Stack::new("Coal", 1)],
            ),
            8,
        ),
        (
            Recipe::new(
                Stack::new("Charcoal", 1),
                "Furnace",
                vec![Stack::new("Coal", 2)],
            ),
            2,
        ),
    ];
    let actual = calculator.steps();
    assert_eq!(&expected[..], &actual[..]);
}
