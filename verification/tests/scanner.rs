use mod_recipes::scanner::{arrange, is_recipe_file, jar_files, lies_in_recipe_folder, recipe_entries, DirectoryEntry, JarEntry};

fn entry(name: &str, is_file: bool) -> DirectoryEntry {
    DirectoryEntry { name: name.to_string(), path: format!("/mods/{}", name), is_file }
}

#[test]
fn recipe_file_filter() {
    assert!(is_recipe_file("data/minecraft/recipes/iron_pickaxe.json"));
    assert!(is_recipe_file("data/mymod/recipe/sub/dir/x.json"));
    assert!(is_recipe_file("data//recipe/.json"));
    assert!(!is_recipe_file("data/minecraft/recipes"));
    assert!(!is_recipe_file("data/minecraft/recipes.json"));
    assert!(!is_recipe_file("data/minecraft/recipes/x.txt"));
    assert!(!is_recipe_file("data/minecraft/recipes/x.JSON"));
    assert!(!is_recipe_file("assets/minecraft/recipes/x.json"));
    assert!(!is_recipe_file("data/minecraft/advancements/x.json"));
    assert!(!is_recipe_file("data/minecraft/Recipes/x.json"));
    assert!(!is_recipe_file("Data/minecraft/recipes/x.json"));
    assert!(!is_recipe_file("/data/minecraft/recipes/x.json"));
    assert!(!is_recipe_file("data/recipes/x.json"));
    assert!(!is_recipe_file(""));
}

#[test]
fn recipe_folder_filter() {
    assert!(lies_in_recipe_folder("data/minecraft/recipes"));
    assert!(lies_in_recipe_folder("data/minecraft/recipe/"));
    assert!(lies_in_recipe_folder("data/minecraft/recipes/x.txt"));
    assert!(!lies_in_recipe_folder("data/minecraft"));
    assert!(!lies_in_recipe_folder("data/minecraft/recipes.json"));
    assert!(!lies_in_recipe_folder("META-INF/mods.toml"));
}

#[test]
fn jar_files_keeps_archives_sorted_without_case() {
    let entries = vec![
        entry("Zeta.jar", true),
        entry("readme.txt", true),
        entry("alpha.JAR", true),
        entry("folder.jar", false),
        entry("beta.jar", true),
        entry("ALPHA.jar", true),
        entry("jar", true),
        entry(".jar", true),
        entry("mod.jar.disabled", true),
    ];
    let files = jar_files(&entries);
    let names: Vec<&str> = files.iter().map(|f| f.name.as_str()).collect();
    assert_eq!(names, vec![".jar", "alpha.JAR", "ALPHA.jar", "beta.jar", "Zeta.jar"]);
    assert_eq!(files[1].path, "/mods/alpha.JAR");
    assert!(jar_files(&vec![]).is_empty());
}

#[test]
fn recipe_entries_keeps_recipe_folders_sorted_without_case() {
    let entries = vec![
        JarEntry { name: "data/m/recipes/b.json".to_string(), is_dir: false },
        JarEntry { name: "META-INF/mods.toml".to_string(), is_dir: false },
        JarEntry { name: "data/m/recipes/".to_string(), is_dir: true },
        JarEntry { name: "data/M/recipes/A.json".to_string(), is_dir: false },
        JarEntry { name: "data/m/recipe/a.json".to_string(), is_dir: false },
        JarEntry { name: "data/m/loot/a.json".to_string(), is_dir: false },
        JarEntry { name: "data/m/recipes/a.json".to_string(), is_dir: false },
    ];
    let kept = recipe_entries(&entries);
    let names: Vec<(&str, bool)> = kept.iter().map(|e| (e.name.as_str(), e.is_dir)).collect();
    assert_eq!(
        names,
        vec![
            ("data/m/recipe/a.json", false),
            ("data/m/recipes/", true),
            ("data/M/recipes/A.json", false),
            ("data/m/recipes/a.json", false),
            ("data/m/recipes/b.json", false),
        ]
    );
}

#[test]
fn arrange_keeps_the_first_order_of_equal_keys() {
    let keys: Vec<String> = ["b", "a", "b", "c", "a", "b"].iter().map(|s| s.to_string()).collect();
    let keep = vec![true, true, true, false, true, true];
    assert_eq!(arrange(&keys, &keep), vec![1, 4, 0, 2, 5]);
    assert!(arrange(&vec![], &vec![]).is_empty());
    assert!(arrange(&keys, &vec![false; 6]).is_empty());
}
