use crafting_calculator::Recipe;
use crafting_calculator::Stack;
use crafting_calculator::parse::parse_stack_text;

const ONE_LINE_NO_METHOD: &str = "Oak Wood Planks (4): Oak Log (1)\n";
const ONE_LINE_WITH_METHOD: &str = "Charcoal (1) (Furnace): Oak Log (1)\n";
const MULTI_LINE: &str = "Wooden Shovel (1):\n Oak Wood Planks (1)\n Stick (2)\n";

#[test]
fn parse_one_line_recipe_implicit_method() {
    let expected = Recipe::new(
        Stack::new("Oak Wood Planks", 4),
        "Crafting Table",
        vec![Stack::new("Oak Log", 1)],
    );
    let (recipes, rest) = Recipe::parse_recipes("Crafting Table").parse(ONE_LINE_NO_METHOD);
    assert_eq!(rest, "");
    assert_eq!(recipes, vec![expected]);
}

#[test]
fn parse_one_line_recipe_explicit_method() {
    let expected = Recipe::new(
        Stack::new("Charcoal", 1),
        "Furnace",
        vec![Stack::new("Oak Log", 1)],
    );
    let (recipes, rest) = Recipe::parse_recipes("Crafting Table").parse(ONE_LINE_WITH_METHOD);
    assert_eq!(rest, "");
    assert_eq!(recipes, vec![expected]);
}

#[test]
fn parse_multi_line_recipe() {
    let expected = Recipe::new(
        Stack::new("Wooden Shovel", 1),
        "Crafting Table",
        vec![Stack::new("Oak Wood Planks", 1), Stack::new("Stick", 2)],
    );
    let (recipes, rest) = Recipe::parse_recipes("Crafting Table").parse(MULTI_LINE);
    assert_eq!(rest, "");
    assert_eq!(recipes, vec![expected]);
}

#[test]
fn parse_several_recipes_with_blank_line() {
    let text = "Oak Wood Planks (4): Oak Log (1)\n\nCharcoal (1) (Furnace): Oak Log (1)\n";
    let (recipes, rest) = Recipe::parse_recipes("Crafting Table").parse(text);
    assert_eq!(rest, "");
    assert_eq!(
        recipes,
        vec![
            Recipe::new(
                Stack::new("Oak Wood Planks", 4),
                "Crafting Table",
                vec![Stack::new("Oak Log", 1)],
            ),
            Recipe::new(
                Stack::new("Charcoal", 1),
                "Furnace",
                vec![Stack::new("Oak Log", 1)],
            ),
        ]
    );
}

#[test]
fn parse_count_with_separators() {
    let text = "Gold Ingot (1_000): Gold Ore (2_5)\n";
    let (recipes, rest) = Recipe::parse_recipes("Furnace").parse(text);
    assert_eq!(rest, "");
    assert_eq!(
        recipes,
        vec![Recipe::new(
            Stack::new("Gold Ingot", 1000),
            "Furnace",
            vec![Stack::new("Gold Ore", 25)],
        )]
    );
}

#[test]
fn malformed_input_is_left_unconsumed() {
    let text = "no parenthesised count here\n";
    let (recipes, rest) = Recipe::parse_recipes("Crafting Table").parse(text);
    assert!(recipes.is_empty());
    assert_eq!(rest, text);
}

#[test]
fn parse_single_stack() {
    assert_eq!(
        parse_stack_text("Oak Log (3)"),
        Some(Stack::new("Oak Log", 3))
    );
    assert_eq!(parse_stack_text("Iron (1_0)"), Some(Stack::new("Iron", 10)));
    assert_eq!(parse_stack_text("Oak Log"), None);
    assert_eq!(parse_stack_text("(3)"), None);
}

#[test]
fn render_stack_and_recipe() {
    assert_eq!(Stack::new("Oak Log", 3).render(), "Oak Log (3)");
    let recipe = Recipe::new(
        Stack::new("Oak Wood Planks", 4),
        "Crafting Table",
        vec![Stack::new("Oak Log", 1)],
    );
    assert_eq!(
        recipe.render(2),
        Some("Oak Wood Planks (8) (Crafting Table):\n    Oak Log (2)\n".to_string())
    );
    assert_eq!(recipe.render(usize::MAX), None);
}

#[test]
fn parse_then_render_round_trips() {
    let text = "Wooden Shovel (1) (Crafting Table):\n    Oak Wood Planks (1)\n    Stick (2)\n";
    let (recipes, rest) = Recipe::parse_recipes("Crafting Table").parse(text);
    assert_eq!(rest, "");
    assert_eq!(recipes.len(), 1);
    assert_eq!(recipes[0].render(1), Some(text.to_string()));
}
