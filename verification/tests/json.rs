use mod_recipes::json::{parse_json, JsonValue};
use mod_recipes::recipe_parser::{classify, extract_ingredients_from_value, extract_item_and_count, recipe_from_json, RecipeKind};

fn text(s: &str) -> JsonValue {
    JsonValue::String(s.to_string())
}

fn object(members: Vec<(&str, JsonValue)>) -> JsonValue {
    JsonValue::Object(members.into_iter().map(|(k, v)| (k.to_string(), v)).collect())
}

#[test]
fn parse_json_reads_every_kind_of_value() {
    let value = parse_json(r#"{"a": null, "b": true, "c": -7, "d": "s", "e": [1.5, "x"], "f": {"g": 9223372036854775808}}"#).unwrap();
    assert!(matches!(value.get("a"), Some(JsonValue::Null)));
    assert!(matches!(value.get("b"), Some(JsonValue::Bool(true))));
    assert_eq!(value.get("c").unwrap().as_i64(), Some(-7));
    assert_eq!(value.get("d").unwrap().as_str(), Some("s"));
    match value.get("e") {
        Some(JsonValue::Array(items)) => {
            assert_eq!(items.len(), 2);
            assert!(matches!(items[0], JsonValue::Number(None)));
            assert_eq!(items[1].as_str(), Some("x"));
        }
        _ => panic!("no array"),
    }
    let inner = value.get("f").unwrap();
    assert!(matches!(inner.get("g"), Some(JsonValue::Number(None))));
    assert!(value.get("g").is_none());
    assert!(value.get("c").unwrap().as_str().is_none());
    assert!(value.get("d").unwrap().as_i64().is_none());
    assert!(value.get("d").unwrap().get("a").is_none());
}

#[test]
fn parse_json_fails_on_malformed_text() {
    assert!(parse_json("{\"a\": ").is_err());
    assert!(parse_json("").is_err());
    assert!(!parse_json("nul").unwrap_err().is_empty());
}

#[test]
fn get_finds_the_first_member_of_a_key() {
    let value = object(vec![("k", text("first")), ("other", text("x")), ("k", text("second"))]);
    assert_eq!(value.get("k").unwrap().as_str(), Some("first"));
    assert!(value.get("K").is_none());
    assert!(value.get("").is_none());
}

#[test]
fn extract_ingredients_appends_in_order() {
    let value = JsonValue::Array(vec![
        text("b"),
        object(vec![("tag", text("t"))]),
        JsonValue::Array(vec![text("a"), JsonValue::Null, text("b")]),
        object(vec![("item", text("i")), ("tag", text("u"))]),
        JsonValue::Number(Some(3)),
    ]);
    let mut found = vec!["start".to_string()];
    extract_ingredients_from_value(&value, &mut found);
    assert_eq!(found, vec!["start", "b", "#t", "a", "b", "i"]);
}

#[test]
fn extract_item_and_count_on_built_values() {
    assert_eq!(extract_item_and_count(&text("x")), (Some("x".to_string()), Some(1)));
    let value = object(vec![("id", text("y")), ("count", JsonValue::Number(Some(64)))]);
    assert_eq!(extract_item_and_count(&value), (Some("y".to_string()), Some(64)));
    let value = object(vec![("count", JsonValue::Number(Some(i64::MAX)))]);
    assert_eq!(extract_item_and_count(&value), (None, Some(-1)));
    let value = object(vec![("item", text("z")), ("count", JsonValue::Number(None))]);
    assert_eq!(extract_item_and_count(&value), (Some("z".to_string()), Some(1)));
    assert_eq!(extract_item_and_count(&JsonValue::Bool(false)), (None, None));
}

#[test]
fn recipe_from_json_on_a_built_document() {
    let doc = object(vec![
        ("type", text("minecraft:crafting_shaped")),
        ("key", object(vec![("a", text("z")), ("b", object(vec![("tag", text("m"))])), ("c", text("z"))])),
        ("ingredients", JsonValue::Array(vec![text("never")])),
        ("result", object(vec![("item", text("out"))])),
    ]);
    let recipe = recipe_from_json(&doc);
    assert_eq!(recipe.recipe_type, "minecraft:crafting_shaped");
    assert_eq!(recipe.result_item, Some("out".to_string()));
    assert_eq!(recipe.result_count, Some(1));
    assert_eq!(recipe.ingredients, vec!["#m", "z"]);
}

#[test]
fn classify_knows_each_family() {
    assert!(matches!(classify("minecraft:crafting_shaped"), RecipeKind::Shaped));
    assert!(matches!(classify("crafting_shapeless"), RecipeKind::Shapeless));
    assert!(matches!(classify("blasting"), RecipeKind::Cooking));
    assert!(matches!(classify("minecraft:stonecutting"), RecipeKind::Stonecutting));
    assert!(matches!(classify("smithing_trim"), RecipeKind::SmithingModern));
    assert!(matches!(classify("minecraft:smithing"), RecipeKind::SmithingLegacy));
    assert!(matches!(classify("crafting_special_mapcloning"), RecipeKind::Special));
    assert!(matches!(classify("special"), RecipeKind::Special));
    assert!(matches!(classify("Special"), RecipeKind::Unrecognized));
    assert!(matches!(classify("minecraft:Crafting_Shaped"), RecipeKind::Unrecognized));
    assert!(matches!(classify("mod:crafting_shaped"), RecipeKind::Unrecognized));
    assert!(matches!(classify(""), RecipeKind::Unrecognized));
}
