use jmap_dumper::pathmap::PathMap;
use jmap_dumper::text::{
    basename, copy_text, eq_ignore_ascii_case, join, relate, same_text, split_outer, starts_with,
    Relation,
};

#[test]
fn file_names_stand_behind_the_last_slash_or_backslash() {
    assert_eq!(basename("C:\\Games\\Bin/Game.exe"), "Game.exe");
    assert_eq!(basename("/usr/lib/libgame.so"), "libgame.so");
    assert_eq!(basename("Game.exe"), "Game.exe");
    assert_eq!(basename("dir/"), "");
    assert_eq!(basename(""), "");
}

#[test]
fn paths_split_at_the_last_dot_or_colon() {
    assert_eq!(split_outer("/Script/Engine.Actor"), Some(("/Script/Engine", "Actor")));
    assert_eq!(
        split_outer("/Script/Engine.Actor:Tick"),
        Some(("/Script/Engine.Actor", "Tick"))
    );
    assert_eq!(split_outer("/Script/Engine"), None);
    assert_eq!(split_outer("a."), Some(("a", "")));
    assert_eq!(split_outer(".a"), Some(("", "a")));
    assert_eq!(split_outer("\u{e4}\u{f6}.\u{fc}"), Some(("\u{e4}\u{f6}", "\u{fc}")));
}

#[test]
fn only_ascii_letters_match_in_any_case() {
    assert!(eq_ignore_ascii_case("Game.EXE", "gAME.exe"));
    assert!(!eq_ignore_ascii_case("game", "games"));
    assert!(!eq_ignore_ascii_case("\u{c4}", "\u{e4}"));
    assert!(!eq_ignore_ascii_case("@", "`"));
    assert!(!eq_ignore_ascii_case("[", "{"));
    assert!(eq_ignore_ascii_case("", ""));
}

#[test]
fn prefixes_are_found() {
    assert!(starts_with("/Script/Engine", "/Script/"));
    assert!(starts_with("/Script/", "/Script/"));
    assert!(!starts_with("/Script", "/Script/"));
    assert!(!starts_with("/script/Engine", "/Script/"));
    assert!(starts_with("x", ""));
}

#[test]
fn strings_are_ordered_by_their_bytes() {
    assert_eq!(relate("a", "b"), Relation::Before);
    assert_eq!(relate("b", "a"), Relation::After);
    assert_eq!(relate("a", "a"), Relation::Same);
    assert_eq!(relate("a", "aa"), Relation::Before);
    assert_eq!(relate("Z", "a"), Relation::Before);
    assert_eq!(relate("z", "\u{e4}"), Relation::Before);
    let mut words = vec!["\u{1f600}", "\u{ffff}", "b", "a.b", "a:b", "a", "", "\u{e4}"];
    words.sort();
    for i in 0..words.len() {
        for j in i + 1..words.len() {
            assert_eq!(relate(words[i], words[j]), Relation::Before);
            assert_eq!(relate(words[j], words[i]), Relation::After);
        }
    }
    assert!(same_text("abc", "abc"));
    assert!(!same_text("abc", "abd"));
}

#[test]
fn texts_are_joined() {
    assert_eq!(join(&vec![], ", "), "");
    assert_eq!(join(&vec!["a"], ", "), "a");
    assert_eq!(join(&vec!["a", "", "c"], ", "), "a, , c");
    assert_eq!(copy_text(&Some("x".to_string())), Some("x".to_string()));
    assert_eq!(copy_text(&None), None);
}

#[test]
fn maps_keep_one_value_for_each_key_in_order() {
    let mut map = PathMap::new();
    for (key, value) in [("m", 1), ("a", 2), ("z", 3), ("m", 4), ("b", 5)] {
        map.insert(key.to_string(), value);
    }
    assert_eq!(map.len(), 4);
    let mut entries = vec![];
    for i in 0..map.len() {
        let (key, value) = map.entry(i);
        entries.push((key.to_string(), *value));
    }
    let expected = vec![
        ("a".to_string(), 2),
        ("b".to_string(), 5),
        ("m".to_string(), 4),
        ("z".to_string(), 3),
    ];
    assert_eq!(entries, expected);
    assert_eq!(map.get("m"), Some(&4));
    assert_eq!(map.get("n"), None);
    assert_eq!(map.replace("b", 50), Some(5));
    assert_eq!(map.replace("c", 60), None);
    assert_eq!(map.get("b"), Some(&50));
    assert_eq!(map.get("c"), None);
    assert_eq!(map.into_entries().len(), 4);
}

#[test]
fn maps_order_their_keys_as_the_standard_library_does() {
    let mut map = PathMap::new();
    let mut reference = std::collections::BTreeMap::new();
    let mut x: u32 = 12345;
    for i in 0..300 {
        x = x.wrapping_mul(1664525).wrapping_add(1013904223);
        let key = format!("/Script/P{}.O{}:\u{e4}{}", x % 7, x % 31, x % 13);
        map.insert(key.clone(), i);
        reference.insert(key, i);
    }
    assert_eq!(map.len(), reference.len());
    for (i, (key, value)) in reference.iter().enumerate() {
        assert_eq!(map.entry(i), (key.as_str(), value));
    }
}
