use programming_game::lexer::{code_range, find_from, split_words};
use programming_game::text::chars_of;

fn code(line: &str) -> String {
    let chars = chars_of(line);
    let (lo, hi) = code_range(&chars, 0, chars.len());
    chars[lo..hi].iter().collect()
}

fn words(line: &str) -> Vec<String> {
    let chars = chars_of(line);
    split_words(&chars, 0, chars.len())
}

#[test]
fn code_is_trimmed_and_without_comment() {
    for line in ["", "  ", "#", " # x # y", "a", "  a b \t", "a#b", "a # b#c", "\u{a0}x\u{2003}"] {
        let expected = line.split('#').next().unwrap_or("").trim();
        assert_eq!(code(line), expected, "{line:?}");
    }
    assert_eq!(code("drop # the load"), code("drop"));
}

#[test]
fn words_are_cut_at_gaps_and_braces() {
    for line in ["", "Drop", "a b", "IF carrying(Energy){", "}else{", "x,(y)z", "{{}}", " É a "] {
        let normal = line
            .replace(['(', ')', ','], " ")
            .replace('{', " { ")
            .replace('}', " } ")
            .to_ascii_lowercase();
        let expected: Vec<&str> = normal.split_whitespace().collect();
        assert_eq!(words(line), expected, "{line:?}");
    }
    assert_eq!(words("GOTO(Closest,base)"), words("goto closest base "));
}

#[test]
fn searching_starts_where_it_is_told() {
    let chars = chars_of("a\nb\nc");
    assert_eq!(find_from(&chars, 0, '\n'), 1);
    assert_eq!(find_from(&chars, 2, '\n'), 3);
    assert_eq!(find_from(&chars, 4, '\n'), 5);
    assert_eq!(find_from(&chars, 5, '\n'), 5);
}
