//! Texts, names and numbers in text.

use telemetry_edge::name_set::{insert_name, is_before};
use telemetry_edge::text::{decimal_text, hex_text, is_blank, is_word, parse_integer, same_text};
use telemetry_edge::text_map::TextMap;

#[test]
fn integers_match_the_standard_library() {
    for i in [0, 1, -1, 10, -128, 65_535, i128::from(u64::MAX), i128::MAX, i128::MIN] {
        assert_eq!(decimal_text(i), i.to_string());
        assert_eq!(parse_integer(&decimal_text(i)), Some(i));
    }
    for text in [
        "", "+", "-", "+5", "-5", "007", "-0", " 5", "5 ", "5a", "0x5", "1_000", "--5", "+-5",
        "170141183460469231731687303715884105727",
        "170141183460469231731687303715884105728",
        "-170141183460469231731687303715884105728",
        "-170141183460469231731687303715884105729",
        "٣",
    ] {
        assert_eq!(parse_integer(text), text.parse::<i128>().ok(), "{text}");
    }
}

#[test]
fn hexadecimal_has_four_digits() {
    for n in [0, 1, 0x45, 0xdead, 0xffff] {
        assert_eq!(hex_text(n), format!("{n:04x}"));
    }
}

#[test]
fn blanks() {
    for text in ["", " ", "\t\n", "\u{a0}\u{2003}", "\u{feff}", "a", " a ", "\u{200b}"] {
        assert_eq!(is_blank(text), text.trim().is_empty(), "{text:?}");
    }
}

#[test]
fn words() {
    assert!(is_word("abc_123"));
    assert!(!is_word("Abc"));
    assert!(!is_word("a-b"));
    assert!(!is_word("é"));
}

#[test]
fn texts_compare_by_content() {
    assert!(same_text("naïve", "naïve"));
    assert!(!same_text("a", "ab"));
    assert!(!same_text("a", "b"));
}

#[test]
fn names_are_kept_in_order() {
    let mut names = Vec::new();
    let given = ["gear", "motor_temp", "a", "gear", "ab", "b", "a", "é", "z"];
    for name in given {
        insert_name(&mut names, &name.to_owned());
    }
    let mut expected: Vec<String> = given.iter().map(|n| (*n).to_owned()).collect();
    expected.sort();
    expected.dedup();
    assert_eq!(names, expected);
    for a in given {
        for b in given {
            assert_eq!(is_before(a, b), a < b, "{a} {b}");
        }
    }
}

#[test]
fn maps_hold_the_latest_value() {
    let mut map = TextMap::new();
    map.insert("a".to_owned(), 1);
    map.insert("b".to_owned(), 2);
    map.insert("a".to_owned(), 3);
    assert_eq!(map.len(), 2);
    assert_eq!(map.get("a"), Some(&3));
    assert_eq!(map.get("b"), Some(&2));
    assert_eq!(map.get("c"), None);
    assert_eq!((map.key_at(0), *map.value_at(0)), ("a", 3));
    assert_eq!((map.key_at(1), *map.value_at(1)), ("b", 2));
}
