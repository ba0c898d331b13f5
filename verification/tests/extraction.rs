use mod_recipes::database::Database;
use mod_recipes::extraction::{mod_name_for, mod_name_of, progress_for, ExtractionResult};
use mod_recipes::recipe_parser::parse_recipe;

#[test]
fn begin_empties_the_store() {
    let mut db = Database::new();
    let m = db.insert_mod_at("old.jar", "/old.jar", "1").unwrap();
    db.insert_recipe(m, "p", "t", None, None, "{}", &[]).unwrap();
    let run = ExtractionResult::begin(&mut db);
    assert_eq!(run.mods_processed, 0);
    assert_eq!(run.recipes_extracted, 0);
    assert!(run.errors.is_empty());
    assert_eq!(db.get_recipe_count(), 0);
}

#[test]
fn a_run_counts_and_records() {
    let mut db = Database::new();
    let mut run = ExtractionResult::begin(&mut db);
    run.archive_failed("/mods/broken.jar", "invalid Zip archive");
    let id = run.register_mod(&mut db, "good.jar", "/mods/good.jar").unwrap();
    assert_eq!(id, 1);
    run.record_entry(&mut db, id, "good.jar", "data/g/recipes/a.json", r#"{"type": "smelting", "ingredient": "ore", "result": "ingot"}"#);
    run.record_entry(&mut db, id, "good.jar", "data/g/recipes/bad.json", "{ not json");
    run.record_entry(&mut db, 99, "ghost.jar", "data/g/recipes/c.json", "{}");
    run.record_entry(&mut db, id, "good.jar", "data/g/recipes/a.json", r#"{"type": "smelting", "ingredient": "ore2", "result": "ingot2"}"#);
    assert_eq!(run.mods_processed, 1);
    assert_eq!(run.recipes_extracted, 2);
    assert_eq!(run.errors.len(), 3);
    assert_eq!(run.errors[0], "/mods/broken.jar: invalid Zip archive");
    assert!(run.errors[1].starts_with("good.jar:data/g/recipes/bad.json: Invalid JSON: "));
    assert_eq!(run.errors[2], "ghost.jar:data/g/recipes/c.json: the mod of the recipe is not in the store");
    assert_eq!(db.get_recipe_count(), 1);
    let listed = db.list_recipes(0, -1);
    assert_eq!(listed[0].mod_name, "good.jar");
    assert_eq!(listed[0].path, "data/g/recipes/a.json");
    assert_eq!(listed[0].recipe_type, "smelting");
    assert_eq!(listed[0].result_item, Some("ingot2".to_string()));
    assert_eq!(listed[0].result_count, Some(1));
    assert_eq!(listed[0].ingredients, vec!["ore2"]);
    assert_eq!(listed[0].raw_json, r#"{"type": "smelting", "ingredient": "ore2", "result": "ingot2"}"#);
}

#[test]
fn store_parsed_takes_what_the_reading_gave() {
    let mut db = Database::new();
    let mut run = ExtractionResult::begin(&mut db);
    let id = run.register_mod(&mut db, "m.jar", "/m.jar").unwrap();
    run.store_parsed(&mut db, id, "m.jar", "e.json", "raw", Err("went wrong".to_string()));
    assert_eq!(run.errors, vec!["m.jar:e.json: went wrong"]);
    assert_eq!(run.recipes_extracted, 0);
    let parsed = parse_recipe(r#"{"type": "crafting_shapeless", "ingredients": ["b", "a"], "result": {"item": "c", "count": 5}}"#);
    run.store_parsed(&mut db, id, "m.jar", "e.json", "raw", parsed);
    assert_eq!(run.recipes_extracted, 1);
    let listed = db.list_recipes(0, -1);
    assert_eq!(listed[0].raw_json, "raw");
    assert_eq!(listed[0].ingredients, vec!["a", "b"]);
    assert_eq!(listed[0].result_count, Some(5));
}

#[test]
fn a_refused_mod_is_recorded() {
    let mut db = Database::new();
    let mut run = ExtractionResult::begin(&mut db);
    db.restore_mod(i64::MAX - 1, "last.jar", "/last.jar", "1").unwrap();
    assert_eq!(run.register_mod(&mut db, "late.jar", "/late.jar"), None);
    assert_eq!(run.mods_processed, 0);
    assert_eq!(run.errors, vec!["late.jar: Failed to insert mod: the store has no id left"]);
}

#[test]
fn a_write_that_could_not_be_kept_is_taken_back() {
    let mut db = Database::new();
    let mut run = ExtractionResult::begin(&mut db);
    let id = run.register_mod(&mut db, "m.jar", "/m.jar").unwrap();
    run.record_entry(&mut db, id, "m.jar", "e.json", "{}");
    run.record_entry(&mut db, id, "m.jar", "f.json", "{}");
    assert_eq!((run.mods_processed, run.recipes_extracted), (1, 2));
    run.entry_refused("m.jar", "f.json", "disk full");
    assert_eq!((run.mods_processed, run.recipes_extracted), (1, 1));
    run.mod_refused("m.jar", "disk full");
    assert_eq!((run.mods_processed, run.recipes_extracted), (0, 1));
    assert_eq!(run.errors, vec!["m.jar:f.json: disk full", "m.jar: Failed to insert mod: disk full"]);
}

#[test]
fn the_mod_name_is_the_file_name() {
    assert_eq!(mod_name_of("/home/user/mods/create-1.20.jar"), "create-1.20.jar");
    assert_eq!(mod_name_of("plain.jar"), "plain.jar");
    assert_eq!(mod_name_of("mods/.."), "mods/..");
    assert_eq!(mod_name_of(""), "");
    assert_eq!(mod_name_of("/mods/deep/"), "deep");
    for path in ["/home/user/mods/create-1.20.jar", "a/b", "x", "/", "", "..", "a/./b/.", "dir//file.jar"] {
        let name = mod_name_of(path);
        assert!(name == path || (!name.is_empty() && path.contains(name.as_str())));
    }
    assert_eq!(mod_name_for(Some("x.jar".to_string()), "/a/x.jar"), "x.jar");
    assert_eq!(mod_name_for(None, "/a/.."), "/a/..");
}

#[test]
fn progress_counts_from_one() {
    let progress = progress_for(0, 3, "a.jar");
    assert_eq!((progress.current, progress.total), (1, 3));
    assert_eq!(progress.current_mod, "a.jar");
    let progress = progress_for(2, 3, "c.jar");
    assert_eq!((progress.current, progress.total), (3, 3));
}
