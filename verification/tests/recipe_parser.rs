use mod_recipes::recipe_parser::parse_recipe;

#[test]
fn test_shaped_recipe() {
    let json = r####"{
            "type": "minecraft:crafting_shaped",
            "pattern": ["###", " | ", " | "],
            "key": {
                "#": {"item": "minecraft:iron_ingot"},
                "|": {"item": "minecraft:stick"}
            },
            "result": {"item": "minecraft:iron_pickaxe", "count": 1}
        }"####;

    let parsed = parse_recipe(json).unwrap();
    assert_eq!(parsed.recipe_type, "minecraft:crafting_shaped");
    assert_eq!(parsed.result_item, Some("minecraft:iron_pickaxe".to_string()));
    assert_eq!(parsed.result_count, Some(1));
    assert!(parsed.ingredients.contains(&"minecraft:iron_ingot".to_string()));
    assert!(parsed.ingredients.contains(&"minecraft:stick".to_string()));
}

#[test]
fn test_shapeless_recipe() {
    let json = r#"{
            "type": "minecraft:crafting_shapeless",
            "ingredients": [
                {"item": "minecraft:red_dye"},
                {"item": "minecraft:white_dye"}
            ],
            "result": {"item": "minecraft:pink_dye", "count": 2}
        }"#;

    let parsed = parse_recipe(json).unwrap();
    assert_eq!(parsed.recipe_type, "minecraft:crafting_shapeless");
    assert_eq!(parsed.result_item, Some("minecraft:pink_dye".to_string()));
    assert_eq!(parsed.result_count, Some(2));
}

#[test]
fn test_smelting_recipe() {
    let json = r#"{
            "type": "minecraft:smelting",
            "ingredient": {"item": "minecraft:iron_ore"},
            "result": "minecraft:iron_ingot",
            "experience": 0.7,
            "cookingtime": 200
        }"#;

    let parsed = parse_recipe(json).unwrap();
    assert_eq!(parsed.recipe_type, "minecraft:smelting");
    assert!(parsed.ingredients.contains(&"minecraft:iron_ore".to_string()));
}

#[test]
fn test_tag_ingredient() {
    let json = r####"{
            "type": "minecraft:crafting_shaped",
            "pattern": ["###"],
            "key": {
                "#": {"tag": "forge:ingots/iron"}
            },
            "result": {"item": "minecraft:iron_block"}
        }"####;

    let parsed = parse_recipe(json).unwrap();
    assert!(parsed.ingredients.contains(&"#forge:ingots/iron".to_string()));
}

fn texts(list: &[&str]) -> Vec<String> {
    list.iter().map(|s| s.to_string()).collect()
}

#[test]
fn shaped_key_with_bare_string_result() {
    let json = r##"{
        "type": "crafting_shaped",
        "key": {"#": {"item": "minecraft:planks"}, "|": "minecraft:stick"},
        "result": "minecraft:wooden_sword"
    }"##;
    let parsed = parse_recipe(json).unwrap();
    assert_eq!(parsed.recipe_type, "crafting_shaped");
    assert_eq!(parsed.result_item, Some("minecraft:wooden_sword".to_string()));
    assert_eq!(parsed.result_count, Some(1));
    assert_eq!(parsed.ingredients, texts(&["minecraft:planks", "minecraft:stick"]));
}

#[test]
fn shapeless_list_gives_exactly_its_items() {
    let json = r#"{
        "type": "minecraft:crafting_shapeless",
        "ingredients": [{"item": "minecraft:red_dye"}, {"item": "minecraft:white_dye"}],
        "result": {"item": "minecraft:pink_dye", "count": 2}
    }"#;
    let parsed = parse_recipe(json).unwrap();
    assert_eq!(parsed.ingredients, texts(&["minecraft:red_dye", "minecraft:white_dye"]));
}

#[test]
fn shapeless_ingredients_that_are_no_list_give_nothing() {
    let json = r#"{"type": "crafting_shapeless", "ingredients": {"item": "a"}, "result": "b"}"#;
    let parsed = parse_recipe(json).unwrap();
    assert!(parsed.ingredients.is_empty());
    assert_eq!(parsed.result_item, Some("b".to_string()));
}

#[test]
fn cooking_family_reads_the_single_ingredient() {
    for kind in [
        "minecraft:smelting",
        "minecraft:blasting",
        "minecraft:smoking",
        "minecraft:campfire_cooking",
        "smelting",
        "blasting",
        "smoking",
        "campfire_cooking",
    ] {
        let json = format!(
            r#"{{"type": "{}", "ingredient": {{"item": "minecraft:beef"}}, "ingredients": ["x"], "result": "minecraft:cooked_beef"}}"#,
            kind
        );
        let parsed = parse_recipe(&json).unwrap();
        assert_eq!(parsed.recipe_type, kind);
        assert_eq!(parsed.ingredients, texts(&["minecraft:beef"]));
        assert_eq!(parsed.result_item, Some("minecraft:cooked_beef".to_string()));
        assert_eq!(parsed.result_count, Some(1));
    }
}

#[test]
fn stonecutting_with_bare_string_result() {
    let json = r#"{"type": "minecraft:stonecutting", "ingredient": {"item": "minecraft:stone"}, "result": "minecraft:stone_slab", "count": 2}"#;
    let parsed = parse_recipe(json).unwrap();
    assert_eq!(parsed.result_item, Some("minecraft:stone_slab".to_string()));
    assert_eq!(parsed.result_count, Some(1));
    assert_eq!(parsed.ingredients, texts(&["minecraft:stone"]));
}

#[test]
fn modern_smithing_reads_template_base_and_addition() {
    for kind in ["minecraft:smithing_transform", "minecraft:smithing_trim", "smithing_transform", "smithing_trim"] {
        let json = format!(
            r#"{{"type": "{}", "template": {{"item": "t"}}, "base": {{"item": "b"}}, "addition": {{"tag": "a"}}, "result": {{"id": "r"}}}}"#,
            kind
        );
        let parsed = parse_recipe(&json).unwrap();
        assert_eq!(parsed.ingredients, texts(&["#a", "b", "t"]));
        assert_eq!(parsed.result_item, Some("r".to_string()));
        assert_eq!(parsed.result_count, Some(1));
    }
}

#[test]
fn legacy_smithing_leaves_the_template_out() {
    for kind in ["minecraft:smithing", "smithing"] {
        let json = format!(
            r#"{{"type": "{}", "template": "t", "base": "b", "addition": "a", "result": "r"}}"#,
            kind
        );
        let parsed = parse_recipe(&json).unwrap();
        assert_eq!(parsed.ingredients, texts(&["a", "b"]));
    }
}

#[test]
fn special_type_has_no_ingredients_and_no_result() {
    let json = r#"{"type": "minecraft:crafting_special_firework_rocket", "ingredients": ["minecraft:paper"], "key": {"a": "b"}, "result": "minecraft:firework_rocket"}"#;
    let parsed = parse_recipe(json).unwrap();
    assert_eq!(parsed.recipe_type, "minecraft:crafting_special_firework_rocket");
    assert_eq!(parsed.result_item, None);
    assert_eq!(parsed.result_count, None);
    assert!(parsed.ingredients.is_empty());
}

#[test]
fn unrecognized_type_tries_the_usual_places() {
    let json = r#"{
        "type": "create:mixing",
        "ingredients": [{"item": "b"}, {"tag": "c:ores"}, ["z", {"item": "y"}]],
        "ingredient": "never",
        "key": {"k": {"item": "a"}},
        "input": {"item": "i"},
        "inputs": ["never"],
        "result": {"item": "out", "count": 3}
    }"#;
    let parsed = parse_recipe(json).unwrap();
    assert_eq!(parsed.recipe_type, "create:mixing");
    assert_eq!(parsed.ingredients, texts(&["#c:ores", "a", "b", "i", "y", "z"]));
    assert_eq!(parsed.result_item, Some("out".to_string()));
    assert_eq!(parsed.result_count, Some(3));
}

#[test]
fn unrecognized_type_falls_back_to_the_second_names() {
    let json = r#"{"type": "modded", "ingredient": "one", "inputs": ["two", "three"]}"#;
    let parsed = parse_recipe(json).unwrap();
    assert_eq!(parsed.ingredients, texts(&["one", "three", "two"]));
    assert_eq!(parsed.result_item, None);
    assert_eq!(parsed.result_count, None);
}

#[test]
fn missing_or_odd_type_is_unknown() {
    let parsed = parse_recipe(r#"{"ingredients": ["a"]}"#).unwrap();
    assert_eq!(parsed.recipe_type, "unknown");
    assert_eq!(parsed.ingredients, texts(&["a"]));
    let parsed = parse_recipe(r#"{"type": 7, "input": "b"}"#).unwrap();
    assert_eq!(parsed.recipe_type, "unknown");
    assert_eq!(parsed.ingredients, texts(&["b"]));
}

#[test]
fn a_document_that_is_no_object_gives_an_empty_recipe() {
    for json in ["[1, 2]", "\"text\"", "null", "12", "true"] {
        let parsed = parse_recipe(json).unwrap();
        assert_eq!(parsed.recipe_type, "unknown");
        assert_eq!(parsed.result_item, None);
        assert_eq!(parsed.result_count, None);
        assert!(parsed.ingredients.is_empty());
    }
}

#[test]
fn ingredients_are_sorted_and_stand_once() {
    let json = r#"{"type": "crafting_shapeless", "ingredients": ["b", "a", "b", {"item": "a"}, "B", "ab", "", "a"], "result": "x"}"#;
    let parsed = parse_recipe(json).unwrap();
    assert_eq!(parsed.ingredients, texts(&["", "B", "a", "ab", "b"]));
}

#[test]
fn ingredient_order_in_the_source_does_not_matter() {
    let one = parse_recipe(r#"{"type": "crafting_shapeless", "ingredients": ["c", "a", "b"]}"#).unwrap();
    let two = parse_recipe(r#"{"type": "crafting_shapeless", "ingredients": ["b", "b", "c", "a"]}"#).unwrap();
    assert_eq!(one.ingredients, two.ingredients);
}

#[test]
fn the_same_text_gives_the_same_recipe() {
    let json = r#"{"type": "x", "ingredients": ["q", {"tag": "t"}], "result": {"id": "r", "count": 9}}"#;
    let one = parse_recipe(json).unwrap();
    let two = parse_recipe(json).unwrap();
    assert_eq!(one.recipe_type, two.recipe_type);
    assert_eq!(one.result_item, two.result_item);
    assert_eq!(one.result_count, two.result_count);
    assert_eq!(one.ingredients, two.ingredients);
}

#[test]
fn a_tag_differs_from_the_item_of_its_name() {
    let json = r#"{"type": "crafting_shapeless", "ingredients": [{"tag": "forge:ingots/iron"}, {"item": "forge:ingots/iron"}]}"#;
    let parsed = parse_recipe(json).unwrap();
    assert_eq!(parsed.ingredients, texts(&["#forge:ingots/iron", "forge:ingots/iron"]));
}

#[test]
fn an_item_goes_before_a_tag_in_one_object() {
    let json = r#"{"type": "crafting_shapeless", "ingredients": [{"tag": "t", "item": "i"}, {"item": 5, "tag": "u"}, {"other": 1}, 4, null]}"#;
    let parsed = parse_recipe(json).unwrap();
    assert_eq!(parsed.ingredients, texts(&["#u", "i"]));
}

#[test]
fn result_object_prefers_item_over_id() {
    let parsed = parse_recipe(r#"{"type": "x", "result": {"item": "a", "id": "b"}}"#).unwrap();
    assert_eq!(parsed.result_item, Some("a".to_string()));
    let parsed = parse_recipe(r#"{"type": "x", "result": {"item": 1, "id": "b"}}"#).unwrap();
    assert_eq!(parsed.result_item, None);
    assert_eq!(parsed.result_count, Some(1));
}

#[test]
fn result_count_defaults_and_is_cut_to_32_bits() {
    let parsed = parse_recipe(r#"{"type": "x", "result": {"item": "a", "count": "3"}}"#).unwrap();
    assert_eq!(parsed.result_count, Some(1));
    let parsed = parse_recipe(r#"{"type": "x", "result": {"item": "a", "count": 2.5}}"#).unwrap();
    assert_eq!(parsed.result_count, Some(1));
    let parsed = parse_recipe(r#"{"type": "x", "result": {"item": "a", "count": -4}}"#).unwrap();
    assert_eq!(parsed.result_count, Some(-4));
    let parsed = parse_recipe(r#"{"type": "x", "result": {"item": "a", "count": 4294967298}}"#).unwrap();
    assert_eq!(parsed.result_count, Some(2));
    let parsed = parse_recipe(r#"{"type": "x", "result": {"item": "a", "count": 18446744073709551615}}"#).unwrap();
    assert_eq!(parsed.result_count, Some(1));
}

#[test]
fn result_of_another_shape_gives_nothing() {
    for result in ["[\"a\"]", "5", "null", "true"] {
        let json = format!(r#"{{"type": "x", "result": {}}}"#, result);
        let parsed = parse_recipe(&json).unwrap();
        assert_eq!(parsed.result_item, None);
        assert_eq!(parsed.result_count, None);
    }
}

#[test]
fn malformed_text_is_the_only_failure() {
    for json in ["", "{", r#"{"type": }"#, "{'type': 'x'}", r#"{"a": 1} trailing"#] {
        let message = match parse_recipe(json) {
            Ok(_) => panic!("a recipe from malformed text"),
            Err(message) => message,
        };
        assert!(message.starts_with("Invalid JSON: "));
        assert!(message.len() > "Invalid JSON: ".len());
    }
}
