use uliab::digest::{hex_digest, Hasher};
use uliab::json::{str_list, Json};
use uliab::text::{
    chars_of, compare_str, contains, copy_texts, decimal, dir_of, ends_with, extend_texts, find,
    from_chars, hex, is_absolute, is_blank, is_same_path, join, join_path, position, replace,
    split, starts_with, str_eq, to_lower, trim, Relation,
};
use uliab::text_map::TextMap;

fn strings(list: &[&str]) -> Vec<String> {
    list.iter().map(|s| (*s).to_owned()).collect()
}

#[test]
fn texts_are_taken_apart_and_put_together() {
    assert_eq!(split("a:b::c", ':'), strings(&["a", "b", "", "c"]));
    assert_eq!(split("", ':'), strings(&[""]));
    assert_eq!(join(&split("a:b::c", ':'), ":"), "a:b::c");
    assert_eq!(join(&vec![], ", "), "");
    assert_eq!(replace("a.b.c", '.', '/'), "a/b/c");
    assert_eq!(trim(" \t\u{3000}x y\n"), "x y");
    assert!(is_blank(" \n"));
    assert!(!is_blank(" x"));
    assert_eq!(to_lower("AbC-É"), "abc-É");
    let chars = chars_of("héllo");
    assert_eq!(from_chars(&chars, 1, 3), "él");
}

#[test]
fn texts_are_searched() {
    assert!(str_eq("é", "é"));
    assert!(!str_eq("a", "b"));
    assert!(starts_with("https://x", "https://"));
    assert!(!starts_with("x", "xy"));
    assert!(ends_with("a.jar", ".jar"));
    assert_eq!(find("éabab", "ab"), Some(1));
    assert_eq!(find("abc", "d"), None);
    assert!(contains("a..b", ".."));
    assert_eq!(position(&strings(&["a", "b", "b"]), "b"), Some(1));
    assert_eq!(position(&strings(&["a"]), "c"), None);
}

#[test]
fn numbers_and_bytes_are_shown() {
    assert_eq!(decimal(0), "0");
    assert_eq!(decimal(268_435_456), "268435456");
    assert_eq!(decimal(u64::MAX), "18446744073709551615");
    assert_eq!(hex(&[0, 15, 255]), "000fff");
}

#[test]
fn texts_are_ordered_character_by_character() {
    assert_eq!(compare_str("a", "b"), Relation::Less);
    assert_eq!(compare_str("ab", "a"), Relation::Greater);
    assert_eq!(compare_str("", ""), Relation::Equal);
    assert_eq!(compare_str("é", "z"), Relation::Greater);
}

#[test]
fn paths_are_joined() {
    assert_eq!(join_path("/a", "b/c"), "/a/b/c");
    assert_eq!(join_path("/a/", "b"), "/a/b");
    assert_eq!(join_path("/a", "/b"), "/b");
    assert_eq!(join_path("", "b"), "b");
    assert_eq!(dir_of("/a/b.jar"), "/a");
    assert_eq!(dir_of("/b.jar"), "/");
    assert_eq!(dir_of("index.json"), "");
    assert!(is_absolute("/a"));
    assert!(!is_absolute("a"));
}

#[test]
fn lists_are_copied_and_extended() {
    let mut list = copy_texts(&strings(&["a"]));
    extend_texts(&mut list, &strings(&["b", "a"]));
    assert_eq!(list, strings(&["a", "b", "a"]));
    assert_eq!(
        str_list(&strings(&["a"])),
        Json::Array(vec![Json::Str("a".to_owned())])
    );
}

#[test]
fn maps_keep_their_keys_in_order() {
    let mut map = TextMap::new();
    assert!(map.is_empty());
    for (key, value) in [("b", 1), ("a", 2), ("c", 3), ("b", 4)] {
        map.insert(key.to_owned(), value);
    }
    let entries: Vec<(&str, i32)> = map
        .entries
        .iter()
        .map(|(key, value)| (key.as_str(), *value))
        .collect();
    assert_eq!(entries, vec![("a", 2), ("b", 4), ("c", 3)]);
    assert_eq!(map.get("b"), Some(&4));
    assert_eq!(map.get("d"), None);
    assert!(map.contains_key("a"));
    assert_eq!(map.len(), 3);
    let mut other = TextMap::new();
    for (key, value) in [("c", 3), ("b", 4), ("a", 2)] {
        other.insert(key.to_owned(), value);
    }
    assert_eq!(map, other);
}

#[test]
fn digests_are_those_of_sha_256() {
    assert_eq!(
        hex_digest(b""),
        "e3b0c44298fc1c149afbf4c8996fb92427ae41e4649b934ca495991b7852b855"
    );
    let mut hasher = Hasher::new();
    hasher.update(b"a");
    hasher.update(b"bc");
    assert_eq!(
        hex(&hasher.finish()),
        "ba7816bf8f01cfea414140de5dae2223b00361a396177a9cb410ff61f20015ad"
    );
}

#[test]
fn paths_compare_by_their_components() {
    assert!(is_same_path("a//b", "a/b"));
    assert!(is_same_path("/a/./b/", "/a/b"));
    assert!(is_same_path("./a", "./a"));
    assert!(!is_same_path("./a", "a"));
    assert!(!is_same_path("/a", "a"));
    assert!(!is_same_path("a/../b", "b"));
}
