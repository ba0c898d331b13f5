use mod_recipes::ranking::sorted_distinct;
use mod_recipes::text::{chars_of, contains, contains_ignoring_case, ends_with, precedes, same_chars, same_folded, same_text, split_segments};

#[test]
fn chars_of_gives_every_character() {
    assert_eq!(chars_of("aé✓"), vec!['a', 'é', '✓']);
    assert!(chars_of("").is_empty());
}

#[test]
fn precedes_is_the_order_of_str() {
    let samples = ["", "a", "A", "ab", "b", "aa", "é", "z", "#tag", "minecraft:stick", "𝄞", "~", "a\u{0}"];
    for a in samples {
        for b in samples {
            assert_eq!(precedes(a, b), a < b, "{:?} {:?}", a, b);
            assert_eq!(same_text(a, b), a == b);
        }
    }
}

#[test]
fn contains_finds_a_piece_anywhere() {
    assert!(contains("minecraft:crafting_special_armordye", "special"));
    assert!(contains("special", "special"));
    assert!(contains("abc", ""));
    assert!(contains("", ""));
    assert!(!contains("", "a"));
    assert!(!contains("specia", "special"));
    assert!(!contains("Special", "special"));
    assert!(contains("aab", "ab"));
}

#[test]
fn contains_ignoring_case_folds_ascii_letters_alone() {
    assert!(contains_ignoring_case("minecraft:Iron_Ingot", &chars_of("iRON")));
    assert!(contains_ignoring_case("iron", &chars_of("")));
    assert!(!contains_ignoring_case("iro", &chars_of("iron")));
    assert!(!contains_ignoring_case("É", &chars_of("é")));
    assert!(!contains_ignoring_case("a[b", &chars_of("a{b")));
    assert!(!contains_ignoring_case("a@b", &chars_of("a`b")));
    assert!(contains_ignoring_case("100%_pure", &chars_of("%_P")));
    assert!(!contains_ignoring_case("abc", &chars_of("a%c")));
    assert!(!contains_ignoring_case("abc", &chars_of("a_c")));
}

#[test]
fn same_folded_on_single_characters() {
    assert!(same_folded('a', 'A'));
    assert!(same_folded('Z', 'z'));
    assert!(same_folded('1', '1'));
    assert!(!same_folded('a', 'b'));
    assert!(!same_folded('@', '`'));
    assert!(!same_folded('[', '{'));
}

#[test]
fn ends_with_looks_at_the_end_alone() {
    assert!(ends_with("a/b.json", ".json"));
    assert!(ends_with(".json", ".json"));
    assert!(ends_with("x", ""));
    assert!(!ends_with("json", ".json"));
    assert!(!ends_with("a.json.bak", ".json"));
    assert!(!ends_with("a.JSON", ".json"));
}

#[test]
fn split_segments_cuts_at_every_slash() {
    let pieces = |s: &str| -> Vec<String> {
        split_segments(s).into_iter().map(|p| p.into_iter().collect()).collect()
    };
    assert_eq!(pieces("data/mod/recipes/a.json"), vec!["data", "mod", "recipes", "a.json"]);
    assert_eq!(pieces(""), vec![""]);
    assert_eq!(pieces("/"), vec!["", ""]);
    assert_eq!(pieces("a//b/"), vec!["a", "", "b", ""]);
    assert_eq!(pieces("plain"), vec!["plain"]);
    for s in ["data/mod/recipes/a.json", "", "/", "a//b/", "plain", "/x"] {
        let std_pieces: Vec<String> = s.split('/').map(|p| p.to_string()).collect();
        assert_eq!(pieces(s), std_pieces);
    }
}

#[test]
fn same_chars_compares_with_a_text() {
    assert!(same_chars(&vec!['d', 'a', 't', 'a'], "data"));
    assert!(!same_chars(&vec!['d', 'a', 't'], "data"));
    assert!(!same_chars(&vec!['d', 'a', 't', 'A'], "data"));
    assert!(same_chars(&vec![], ""));
}

#[test]
fn sorted_distinct_sorts_and_drops_repeats() {
    let list: Vec<String> = ["pear", "apple", "pear", "Apple", "", "apple", "fig"].iter().map(|s| s.to_string()).collect();
    assert_eq!(sorted_distinct(&list), vec!["", "Apple", "apple", "fig", "pear"]);
    assert!(sorted_distinct(&[]).is_empty());
    let mut expected = list.clone();
    expected.sort();
    expected.dedup();
    assert_eq!(sorted_distinct(&list), expected);
}
