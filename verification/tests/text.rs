use programming_game::text::{chars_of, is_whitespace, push_decimal, same, to_lower};

#[test]
fn white_space_is_that_of_unicode() {
    for c in '\u{0}'..=char::MAX {
        assert_eq!(is_whitespace(c), c.is_whitespace(), "{:x}", c as u32);
    }
}

#[test]
fn only_ascii_capitals_are_lowered() {
    for c in '\u{0}'..='\u{ffff}' {
        assert_eq!(to_lower(c), c.to_ascii_lowercase());
    }
}

#[test]
fn numbers_are_written_in_decimal() {
    for n in [0, 7, 9, 10, 11, 99, 100, 1234567890, u64::MAX] {
        let mut s = String::from("x");
        push_decimal(&mut s, n);
        assert_eq!(s, format!("x{n}"));
    }
}

#[test]
fn texts_are_the_same_if_all_characters_are() {
    assert!(same("", ""));
    assert!(same("é🎮", "é🎮"));
    assert!(!same("a", "b"));
    assert!(!same("a", "aa"));
    assert_eq!(chars_of("aé🎮"), vec!['a', 'é', '🎮']);
}
