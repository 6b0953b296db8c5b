use std::collections::BTreeMap;

use llmtrim::text::{
    chars_of, last_position_of, lowered, place, position_of, replaced, same_text, white_space, Place,
};
use llmtrim::text_map::TextMap;

#[test]
fn white_space_is_what_unicode_says_it_is() {
    for code in 0..0x11_0000u32 {
        if let Some(c) = char::from_u32(code) {
            assert_eq!(white_space(c), c.is_whitespace(), "{code:x}");
        }
    }
}

#[test]
fn only_ascii_letters_are_lowered() {
    assert_eq!(lowered("AZaz@[É"), "azaz@[É");
    assert_eq!(lowered(&lowered("AbC")), lowered("AbC"));
}

#[test]
fn texts_are_ordered_by_their_bytes() {
    let samples = ["", "a", "ab", "b", "B", "é", "\u{ffff}", "\u{10000}", "aé"];
    for a in samples {
        for b in samples {
            let expected = if a < b {
                Place::Before
            } else if a == b {
                Place::Same
            } else {
                Place::After
            };
            assert_eq!(place(a, b), expected, "{a:?} {b:?}");
            assert_eq!(same_text(a, b), a == b);
        }
    }
}

#[test]
fn replacing_is_left_to_right_and_never_overlaps() {
    let replace = |text: &str, from: &str, to: &str| -> String {
        replaced(&chars_of(text), &chars_of(from), &chars_of(to)).into_iter().collect()
    };
    for (text, from, to) in [
        ("aaa", "aa", "b"),
        ("~~/~/", "~/", "/h/"),
        ("", "a", "b"),
        ("abc", "x", "y"),
        ("abab", "ab", ""),
        ("ab", "abc", "x"),
    ] {
        assert_eq!(replace(text, from, to), text.replace(from, to), "{text:?} {from:?}");
    }
}

#[test]
fn positions_are_the_first_and_the_last() {
    let chars = chars_of("a/b/c");
    assert_eq!(position_of(&chars, 0, '/'), 1);
    assert_eq!(position_of(&chars, 2, '/'), 3);
    assert_eq!(position_of(&chars, 4, '/'), 5);
    assert_eq!(last_position_of(&chars, 5, '/'), Some(3));
    assert_eq!(last_position_of(&chars, 3, '/'), Some(1));
    assert_eq!(last_position_of(&chars, 1, '/'), None);
}

#[test]
fn a_text_map_holds_each_name_once_and_in_order() {
    let mut map = TextMap::new();
    let mut model: BTreeMap<String, String> = BTreeMap::new();
    for (step, name) in ["m", "b", "é", "", "b", "z", "a", "m"].iter().enumerate() {
        map.insert(name.to_string(), step.to_string());
        model.insert(name.to_string(), step.to_string());
    }
    map.insert_if_absent("a".to_string(), "late".to_string());
    map.insert_if_absent("new".to_string(), "late".to_string());
    model.insert("new".to_string(), "late".to_string());
    map.remove("z");
    model.remove("z");
    map.remove("not there");
    assert_eq!(map.len(), model.len());
    for (at, (name, value)) in model.iter().enumerate() {
        assert_eq!(map.entry(at), (name, value));
        assert_eq!(map.get(name), Some(value));
    }
    assert_eq!(map.get("z"), None);
    assert!(!map.contains_key("z"));
    assert_eq!(map.clone(), map);
}
