use mod_recipes::clock::{chrono_lite_now, decimal_text, reading_text};
use mod_recipes::database::Database;
use mod_recipes::records::Recipe;
use mod_recipes::store::StoreError;

fn texts(list: &[&str]) -> Vec<String> {
    list.iter().map(|s| s.to_string()).collect()
}

fn store(db: &mut Database, mod_id: i64, path: &str, item: Option<&str>, ingredients: &[&str]) -> i64 {
    db.insert_recipe(mod_id, path, "minecraft:crafting_shaped", item, item.map(|_| 1), "{}", &texts(ingredients)).unwrap()
}

fn paths(recipes: &[Recipe]) -> Vec<String> {
    recipes.iter().map(|r| r.path.clone()).collect()
}

#[test]
fn a_new_store_is_empty() {
    let db = Database::new();
    assert_eq!(db.get_recipe_count(), 0);
    assert!(db.list_recipes(0, 10).is_empty());
    assert!(db.search_by_output("").is_empty());
    assert!(db.search_by_ingredient("").is_empty());
}

#[test]
fn ids_are_handed_out_from_one() {
    let mut db = Database::new();
    assert_eq!(db.insert_mod_at("a.jar", "/mods/a.jar", "10").unwrap(), 1);
    assert_eq!(db.insert_mod_at("b.jar", "/mods/b.jar", "11").unwrap(), 2);
    assert_eq!(store(&mut db, 1, "data/a/recipes/x.json", Some("x"), &[]), 1);
    assert_eq!(store(&mut db, 2, "data/b/recipes/x.json", Some("x"), &[]), 2);
    assert_eq!(store(&mut db, 1, "data/a/recipes/y.json", None, &[]), 3);
    assert_eq!(db.get_recipe_count(), 3);
}

#[test]
fn insert_mod_uses_the_clock() {
    let mut db = Database::new();
    assert_eq!(db.insert_mod("a.jar", "/mods/a.jar").unwrap(), 1);
    assert_eq!(store(&mut db, 1, "p", Some("x"), &[]), 1);
    let listed = db.list_recipes(0, -1);
    assert_eq!(listed[0].mod_name, "a.jar");
}

#[test]
fn a_recipe_needs_its_mod() {
    let mut db = Database::new();
    let refused = db.insert_recipe(1, "p", "t", None, None, "{}", &[]);
    assert!(matches!(refused, Err(StoreError::UnknownMod)));
    db.insert_mod_at("a", "/a", "0").unwrap();
    let refused = db.insert_recipe(2, "p", "t", None, None, "{}", &[]);
    assert!(matches!(refused, Err(StoreError::UnknownMod)));
    assert_eq!(db.get_recipe_count(), 0);
    assert_eq!(StoreError::UnknownMod.message(), "the mod of the recipe is not in the store");
    assert_eq!(StoreError::IdsExhausted.message(), "the store has no id left");
    assert_eq!(StoreError::IdTaken.message(), "the id was handed out before");
    assert_eq!(StoreError::PlaceTaken.message(), "the path is in use");
}

#[test]
fn a_second_import_leaves_the_second_set_alone() {
    let mut db = Database::new();
    let m = db.insert_mod_at("a.jar", "/a.jar", "1").unwrap();
    let first = store(&mut db, m, "data/a/recipes/tool.json", Some("minecraft:iron_pickaxe"), &["minecraft:stick", "minecraft:iron_ingot"]);
    let other = store(&mut db, m, "data/a/recipes/other.json", Some("minecraft:torch"), &["minecraft:stick", "minecraft:coal"]);
    let second = db
        .insert_recipe(m, "data/a/recipes/tool.json", "minecraft:smelting", Some("minecraft:gold_pickaxe"), Some(2), "{\"v\": 2}", &texts(&["minecraft:gold_ingot", "minecraft:gold_ingot"]))
        .unwrap();
    assert!(second > first && second > other);
    assert_eq!(db.get_recipe_count(), 2);
    let listed = db.list_recipes(0, -1);
    assert_eq!(paths(&listed), vec!["data/a/recipes/other.json", "data/a/recipes/tool.json"]);
    let tool = &listed[1];
    assert_eq!(tool.id, second);
    assert_eq!(tool.recipe_type, "minecraft:smelting");
    assert_eq!(tool.result_item, Some("minecraft:gold_pickaxe".to_string()));
    assert_eq!(tool.result_count, Some(2));
    assert_eq!(tool.raw_json, "{\"v\": 2}");
    assert_eq!(tool.ingredients, vec!["minecraft:gold_ingot"]);
    assert!(db.search_by_ingredient("iron_ingot").is_empty());
    assert!(db.search_by_output("iron_pickaxe").is_empty());
    assert_eq!(db.search_by_ingredient("stick").len(), 1);
}

#[test]
fn a_second_import_after_other_writes_still_replaces() {
    let mut db = Database::new();
    let m = db.insert_mod_at("a.jar", "/a.jar", "1").unwrap();
    let n = db.insert_mod_at("b.jar", "/b.jar", "1").unwrap();
    let first = store(&mut db, m, "data/a/recipes/tool.json", Some("x"), &["one", "two", "three"]);
    store(&mut db, m, "data/a/recipes/other.json", Some("y"), &["one"]);
    store(&mut db, n, "data/a/recipes/tool.json", Some("z"), &["two"]);
    store(&mut db, m, "data/a/recipes/other.json", Some("y"), &["one", "four"]);
    let second = store(&mut db, m, "data/a/recipes/tool.json", Some("x"), &["three", "five", "three"]);
    let listed = db.list_recipes(0, -1);
    assert_eq!(listed.len(), 3);
    assert!(listed.iter().all(|r| r.id != first));
    let at_place: Vec<&Recipe> = listed.iter().filter(|r| r.mod_name == "a.jar" && r.path == "data/a/recipes/tool.json").collect();
    assert_eq!(at_place.len(), 1);
    assert_eq!(at_place[0].id, second);
    assert_eq!(at_place[0].ingredients, vec!["five", "three"]);
    let other: Vec<&Recipe> = listed.iter().filter(|r| r.path == "data/a/recipes/other.json").collect();
    assert_eq!(other[0].ingredients, vec!["four", "one"]);
    let twin: Vec<&Recipe> = listed.iter().filter(|r| r.mod_name == "b.jar").collect();
    assert_eq!(twin[0].ingredients, vec!["two"]);
    assert_eq!(db.search_by_ingredient("one").len(), 1);
    assert_eq!(db.search_by_ingredient("two").len(), 1);
    assert_eq!(db.search_by_ingredient("five")[0].id, second);
}

#[test]
fn a_second_import_without_an_id_left_is_refused_and_the_first_stays() {
    let mut db = Database::new();
    let m = db.insert_mod_at("a.jar", "/a.jar", "1").unwrap();
    db.restore_recipe(i64::MAX - 2, m, "q", "t", None, None, "{}", &[]).unwrap();
    let first = store(&mut db, m, "p", Some("x"), &["one"]);
    assert_eq!(first, i64::MAX - 1);
    let refused = db.insert_recipe(m, "p", "t", Some("y"), Some(1), "{}", &texts(&["two"]));
    assert!(matches!(refused, Err(StoreError::IdsExhausted)));
    let kept = db.recipe_at(m, "p").unwrap();
    assert_eq!(kept.id, first);
    assert_eq!(kept.ingredients, vec!["one"]);
    assert_eq!(db.get_recipe_count(), 2);
}

#[test]
fn the_same_path_in_two_mods_is_two_recipes() {
    let mut db = Database::new();
    let a = db.insert_mod_at("a.jar", "/a.jar", "1").unwrap();
    let b = db.insert_mod_at("b.jar", "/b.jar", "1").unwrap();
    store(&mut db, a, "data/x/recipes/r.json", Some("one"), &["i"]);
    store(&mut db, b, "data/x/recipes/r.json", Some("two"), &["j"]);
    assert_eq!(db.get_recipe_count(), 2);
}

#[test]
fn a_mod_registered_again_loses_its_recipes() {
    let mut db = Database::new();
    let a = db.insert_mod_at("a.jar", "/a.jar", "1").unwrap();
    let b = db.insert_mod_at("b.jar", "/b.jar", "1").unwrap();
    store(&mut db, a, "r1", Some("one"), &["i"]);
    store(&mut db, b, "r2", Some("two"), &["j"]);
    store(&mut db, a, "r3", Some("three"), &["k"]);
    let again = db.insert_mod_at("renamed.jar", "/a.jar", "2").unwrap();
    assert_eq!(again, 3);
    assert_eq!(paths(&db.list_recipes(0, -1)), vec!["r2"]);
    let refused = db.insert_recipe(a, "r4", "t", None, None, "{}", &[]);
    assert!(matches!(refused, Err(StoreError::UnknownMod)));
    store(&mut db, again, "r5", Some("five"), &[]);
    let listed = db.list_recipes(0, -1);
    assert_eq!(paths(&listed), vec!["r2", "r5"]);
    assert_eq!(listed[1].mod_name, "renamed.jar");
}

#[test]
fn clear_all_empties_the_store_and_starts_ids_again() {
    let mut db = Database::new();
    let a = db.insert_mod_at("a.jar", "/a.jar", "1").unwrap();
    store(&mut db, a, "r1", Some("one"), &["i"]);
    db.clear_all();
    assert_eq!(db.get_recipe_count(), 0);
    assert!(db.list_recipes(0, -1).is_empty());
    assert!(matches!(db.insert_recipe(a, "r", "t", None, None, "{}", &[]), Err(StoreError::UnknownMod)));
    assert_eq!(db.insert_mod_at("a.jar", "/a.jar", "1").unwrap(), 1);
    assert_eq!(store(&mut db, 1, "r1", Some("one"), &["i"]), 1);
}

fn sample() -> Database {
    let mut db = Database::new();
    let zeta = db.insert_mod_at("zeta.jar", "/mods/zeta.jar", "1").unwrap();
    let alpha = db.insert_mod_at("alpha.jar", "/mods/alpha.jar", "1").unwrap();
    let twin = db.insert_mod_at("alpha.jar", "/other/alpha.jar", "1").unwrap();
    store(&mut db, zeta, "data/z/recipes/pick.json", Some("minecraft:iron_pickaxe"), &["minecraft:iron_ingot", "minecraft:stick"]);
    store(&mut db, alpha, "data/a/recipes/bars.json", Some("minecraft:IRON_bars"), &["minecraft:iron_ingot"]);
    store(&mut db, alpha, "data/a/recipes/torch.json", Some("minecraft:torch"), &["minecraft:coal", "minecraft:STICK"]);
    store(&mut db, twin, "data/a/recipes/bars.json", Some("minecraft:iron_pickaxe"), &["#forge:rods/wooden", "minecraft:iron_ingot"]);
    store(&mut db, zeta, "data/z/recipes/special.json", None, &["minecraft:sticky_piston"]);
    store(&mut db, zeta, "data/z/recipes/gold.json", Some("minecraft:gold_ingot"), &["minecraft:gold_nugget"]);
    db
}

#[test]
fn listing_goes_by_mod_name_then_path_then_id() {
    let db = sample();
    let listed = db.list_recipes(0, -1);
    let shown: Vec<(String, String, i64)> = listed.iter().map(|r| (r.mod_name.clone(), r.path.clone(), r.id)).collect();
    assert_eq!(
        shown,
        vec![
            ("alpha.jar".to_string(), "data/a/recipes/bars.json".to_string(), 2),
            ("alpha.jar".to_string(), "data/a/recipes/bars.json".to_string(), 4),
            ("alpha.jar".to_string(), "data/a/recipes/torch.json".to_string(), 3),
            ("zeta.jar".to_string(), "data/z/recipes/gold.json".to_string(), 6),
            ("zeta.jar".to_string(), "data/z/recipes/pick.json".to_string(), 1),
            ("zeta.jar".to_string(), "data/z/recipes/special.json".to_string(), 5),
        ]
    );
    assert_eq!(listed[1].ingredients, vec!["#forge:rods/wooden", "minecraft:iron_ingot"]);
}

#[test]
fn search_by_output_finds_every_match_in_order() {
    let db = sample();
    let found = db.search_by_output("iron");
    let shown: Vec<(Option<String>, String, i64)> = found.iter().map(|r| (r.result_item.clone(), r.mod_name.clone(), r.id)).collect();
    assert_eq!(
        shown,
        vec![
            (Some("minecraft:IRON_bars".to_string()), "alpha.jar".to_string(), 2),
            (Some("minecraft:iron_pickaxe".to_string()), "alpha.jar".to_string(), 4),
            (Some("minecraft:iron_pickaxe".to_string()), "zeta.jar".to_string(), 1),
        ]
    );
    assert_eq!(db.search_by_output("IRON_P").len(), 2);
    assert_eq!(db.search_by_output("").len(), 5);
    assert!(db.search_by_output("diamond").is_empty());
    assert!(db.search_by_output("iron%").is_empty());
    assert!(db.search_by_output("iron_p_ckaxe").is_empty());
}

#[test]
fn search_by_ingredient_shows_each_recipe_once() {
    let mut db = sample();
    let zeta = 1;
    store(&mut db, zeta, "data/z/recipes/ladder.json", Some("minecraft:ladder"), &["minecraft:stick", "minecraft:stick_bundle", "mod:sticks"]);
    let found = db.search_by_ingredient("stick");
    let ids: Vec<i64> = found.iter().map(|r| r.id).collect();
    assert_eq!(ids, vec![5, 1, 7, 3]);
    assert_eq!(found[0].result_item, None);
    assert_eq!(db.search_by_ingredient("#forge").len(), 1);
    assert_eq!(db.search_by_ingredient("").len(), 7);
    assert!(db.search_by_ingredient("netherite").is_empty());
}

#[test]
fn a_recipe_without_ingredients_is_not_found_by_ingredient() {
    let mut db = Database::new();
    let m = db.insert_mod_at("a", "/a", "1").unwrap();
    store(&mut db, m, "p", Some("x"), &[]);
    assert!(db.search_by_ingredient("").is_empty());
    assert_eq!(db.search_by_output("").len(), 1);
}

#[test]
fn pages_partition_the_listing() {
    for total in [0usize, 1, 9, 10, 11, 19, 20, 21, 35] {
        let mut db = Database::new();
        let m = db.insert_mod_at("a", "/a", "1").unwrap();
        for i in 0..total {
            store(&mut db, m, &format!("data/a/recipes/{:03}.json", (i * 7) % 101), Some("x"), &[]);
        }
        let all = db.list_recipes(0, -1);
        assert_eq!(all.len(), total);
        assert_eq!(db.get_recipe_count(), total as i64);
        let first = db.list_recipes(0, 10);
        let second = db.list_recipes(10, 10);
        let both = db.list_recipes(0, 20);
        assert_eq!(first.len(), total.min(10));
        assert_eq!(second.len(), total.saturating_sub(10).min(10));
        let mut joined = paths(&first);
        joined.extend(paths(&second));
        assert_eq!(joined, paths(&both));
        let mut sorted = joined.clone();
        sorted.sort();
        sorted.dedup();
        assert_eq!(sorted, joined);
        let mut paged = Vec::new();
        let mut offset = 0;
        loop {
            let page = db.list_recipes(offset, 4);
            if page.is_empty() {
                break;
            }
            paged.extend(paths(&page));
            offset += 4;
        }
        assert_eq!(paged, paths(&all));
    }
}

#[test]
fn windows_at_the_edges() {
    let db = sample();
    assert_eq!(db.list_recipes(-5, 2).len(), 2);
    assert_eq!(db.list_recipes(0, 0).len(), 0);
    assert_eq!(db.list_recipes(4, 10).len(), 2);
    assert_eq!(db.list_recipes(6, 10).len(), 0);
    assert_eq!(db.list_recipes(7, -1).len(), 0);
    assert_eq!(db.list_recipes(2, -1).len(), 4);
    assert_eq!(db.list_recipes(i64::MAX, i64::MAX).len(), 0);
    assert_eq!(db.list_recipes(i64::MIN, i64::MIN).len(), 6);
    assert_eq!(db.list_recipes(1, i64::MAX).len(), 5);
    assert_eq!(db.list_recipes(3, 1)[0].id, 6);
}

#[test]
fn restoring_keeps_the_ids() {
    let mut db = Database::new();
    db.restore_mod(4, "a.jar", "/a.jar", "100").unwrap();
    db.restore_mod(9, "b.jar", "/b.jar", "101").unwrap();
    assert!(matches!(db.restore_mod(9, "c.jar", "/c.jar", "1"), Err(StoreError::IdTaken)));
    assert!(matches!(db.restore_mod(5, "c.jar", "/c.jar", "1"), Err(StoreError::IdTaken)));
    assert!(matches!(db.restore_mod(0, "c.jar", "/c.jar", "1"), Err(StoreError::IdTaken)));
    assert!(matches!(db.restore_mod(10, "c.jar", "/a.jar", "1"), Err(StoreError::PlaceTaken)));
    assert!(matches!(db.restore_mod(i64::MAX, "c.jar", "/c.jar", "1"), Err(StoreError::IdsExhausted)));
    db.restore_recipe(7, 9, "p", "t", Some("out"), Some(2), "{}", &texts(&["b", "a", "b"])).unwrap();
    assert!(matches!(db.restore_recipe(8, 5, "q", "t", None, None, "{}", &[]), Err(StoreError::UnknownMod)));
    assert!(matches!(db.restore_recipe(7, 9, "q", "t", None, None, "{}", &[]), Err(StoreError::IdTaken)));
    assert!(matches!(db.restore_recipe(8, 9, "p", "t", None, None, "{}", &[]), Err(StoreError::PlaceTaken)));
    assert!(matches!(db.restore_recipe(i64::MAX, 9, "q", "t", None, None, "{}", &[]), Err(StoreError::IdsExhausted)));
    db.restore_recipe(20, 4, "p", "t", None, None, "{}", &[]).unwrap();
    let listed = db.list_recipes(0, -1);
    let ids: Vec<i64> = listed.iter().map(|r| r.id).collect();
    assert_eq!(ids, vec![20, 7]);
    assert_eq!(listed[1].ingredients, vec!["a", "b"]);
    assert_eq!(listed[1].mod_name, "b.jar");
    assert_eq!(db.insert_mod_at("d.jar", "/d.jar", "1").unwrap(), 10);
    assert_eq!(db.insert_recipe(10, "p", "t", None, None, "{}", &[]).unwrap(), 21);
}

#[test]
fn the_last_id_is_never_handed_out() {
    let mut db = Database::new();
    db.restore_mod(i64::MAX - 1, "a", "/a", "1").unwrap();
    assert!(matches!(db.insert_mod_at("b", "/b", "1"), Err(StoreError::IdsExhausted)));
    assert!(matches!(db.insert_mod("b", "/b"), Err(StoreError::IdsExhausted)));
    db.restore_recipe(i64::MAX - 1, i64::MAX - 1, "p", "t", None, None, "{}", &[]).unwrap();
    assert!(matches!(db.insert_recipe(i64::MAX - 1, "q", "t", None, None, "{}", &[]), Err(StoreError::IdsExhausted)));
    assert!(matches!(db.insert_recipe(3, "q", "t", None, None, "{}", &[]), Err(StoreError::UnknownMod)));
    assert_eq!(db.get_recipe_count(), 1);
}

#[test]
fn decimal_text_writes_numbers() {
    assert_eq!(decimal_text(0), "0");
    assert_eq!(decimal_text(7), "7");
    assert_eq!(decimal_text(10), "10");
    assert_eq!(decimal_text(1234567890), "1234567890");
    assert_eq!(decimal_text(1700000000), "1700000000");
    assert_eq!(decimal_text(u64::MAX), "18446744073709551615");
    for n in [9u64, 99, 100, 101, 4096, 1_000_000_007] {
        assert_eq!(decimal_text(n), n.to_string());
    }
}

#[test]
fn a_reading_of_the_clock_is_its_seconds() {
    assert_eq!(reading_text(Some(1700000000)), "1700000000");
    assert_eq!(reading_text(Some(0)), "0");
    assert_eq!(reading_text(None), "0");
}

#[test]
fn chrono_lite_now_is_a_number_of_seconds() {
    let now = chrono_lite_now();
    assert!(!now.is_empty());
    assert!(now.chars().all(|c| c.is_ascii_digit()));
    let seconds: u64 = now.parse().unwrap();
    assert!(seconds > 1_600_000_000);
    assert_eq!(decimal_text(seconds), now);
}

#[test]
fn a_copy_of_a_recipe_is_the_same() {
    let db = sample();
    let listed = db.list_recipes(0, 1);
    let copy = listed[0].clone();
    assert_eq!(copy.id, listed[0].id);
    assert_eq!(copy.mod_name, listed[0].mod_name);
    assert_eq!(copy.path, listed[0].path);
    assert_eq!(copy.recipe_type, listed[0].recipe_type);
    assert_eq!(copy.result_item, listed[0].result_item);
    assert_eq!(copy.result_count, listed[0].result_count);
    assert_eq!(copy.ingredients, listed[0].ingredients);
    assert_eq!(copy.raw_json, listed[0].raw_json);
}
