use programming_game::editor::DEFAULT_PROGRAM;
use programming_game::highlight::{
    classify_identifier, color_for, highlight_layout, tokenize, Color, TokenKind,
};
use programming_game::parser::parse_program;

#[test]
fn classify_identifier_recognizes_keywords() {
    for kw in ["if", "else", "while", "break", "continue", "not"] {
        assert_eq!(classify_identifier(kw), TokenKind::Keyword, "{kw}");
    }
}

#[test]
fn classify_identifier_recognizes_verbs() {
    for v in [
        "pickup",
        "grab",
        "take",
        "drop",
        "deposit",
        "deliver",
        "wait",
        "noop",
        "navigate_to",
        "goto",
        "nav",
    ] {
        assert_eq!(classify_identifier(v), TokenKind::Verb, "{v}");
    }
}

#[test]
fn classify_identifier_recognizes_arg_identifiers() {
    for id in [
        "energy", "grass", "wood", "base", "carrying", "closest", "n", "s", "e", "w", "north",
        "south", "east", "west", "up", "down", "left", "right",
    ] {
        assert_eq!(classify_identifier(id), TokenKind::Identifier, "{id}");
    }
}

#[test]
fn classify_identifier_is_case_insensitive() {
    assert_eq!(classify_identifier("IF"), TokenKind::Keyword);
    assert_eq!(classify_identifier("PickUp"), TokenKind::Verb);
    assert_eq!(classify_identifier("Energy"), TokenKind::Identifier);
}

#[test]
fn classify_identifier_unknown_for_random_word() {
    assert_eq!(classify_identifier("foo_bar"), TokenKind::Unknown);
}

#[test]
fn tokenize_classifies_a_full_if_line() {
    let toks = tokenize("if carrying(energy) {");
    let kinds: Vec<TokenKind> = toks.iter().map(|(_, k)| *k).collect();
    assert_eq!(
        kinds,
        vec![
            TokenKind::Keyword,
            TokenKind::Whitespace,
            TokenKind::Identifier,
            TokenKind::Punctuation,// (
            TokenKind::Identifier,
            TokenKind::Punctuation,// )
            TokenKind::Whitespace,
            TokenKind::Punctuation,// {
        ]
    );
}

#[test]
fn tokenize_treats_hash_to_eol_as_comment() {
    let toks = tokenize("pickup(energy) # grab one\nnext");
    let comment = toks.iter().find(|(_, k)| *k == TokenKind::Comment).unwrap();
    assert_eq!(comment.0, "# grab one");
    let post: Vec<_> = toks
        .iter()
        .skip_while(|(_, k)| *k != TokenKind::Comment)
        .skip(1)
        .collect();
    assert!(post.first().is_some_and(|(_, k)| *k == TokenKind::Whitespace));
}

#[test]
fn tokenize_handles_navigate_to_underscore_as_one_token() {
    let toks = tokenize("navigate_to(closest, base)");
    assert_eq!(toks[0].0, "navigate_to");
    assert_eq!(toks[0].1, TokenKind::Verb);
}

#[test]
fn tokenize_does_not_panic_on_non_ascii_input() {
    let toks = tokenize("# café 🎮\npickup");
    assert!(toks.iter().any(|(_, k)| *k == TokenKind::Comment));
    assert!(toks.iter().any(|(t, k)| *t == "pickup" && *k == TokenKind::Verb));
}

#[test]
fn pieces_put_together_are_the_text() {
    for src in [
        "",
        "\n",
        "# only a comment",
        "##\n#\n\n",
        "if carrying(energy) {\r\n\tdrop # é\n}",
        "a:b;c é🎮 x\u{b}y\u{3000}z",
        DEFAULT_PROGRAM,
    ] {
        let glued: String = tokenize(src).iter().map(|(t, _)| *t).collect();
        assert_eq!(glued, src);
    }
}

#[test]
fn pieces_are_as_long_as_can_be() {
    let toks = tokenize("a1_B  \t\n#x # y\n,,é:");
    let texts: Vec<&str> = toks.iter().map(|(t, _)| *t).collect();
    assert_eq!(
        texts,
        vec!["a1_B", "  \t\n", "#x # y", "\n", ",", ",", "é", ":"]
    );
    let kinds: Vec<TokenKind> = toks.iter().map(|(_, k)| *k).collect();
    assert_eq!(
        kinds,
        vec![
            TokenKind::Unknown,
            TokenKind::Whitespace,
            TokenKind::Comment,
            TokenKind::Whitespace,
            TokenKind::Punctuation,
            TokenKind::Punctuation,
            TokenKind::Unknown,
            TokenKind::Unknown,
        ]
    );
}

#[test]
fn blanks_are_the_ascii_ones() {
    for c in 0u8..128 {
        let text = (c as char).to_string();
        let blank = tokenize(&text)[0].1 == TokenKind::Whitespace;
        assert_eq!(blank, c.is_ascii_whitespace(), "{c}");
    }
}

#[test]
fn colours_follow_the_kind() {
    let default = Color { r: 1, g: 2, b: 3, a: 4 };
    assert_eq!(
        color_for(TokenKind::Keyword, default),
        Color::from_rgb(198, 120, 221)
    );
    assert_eq!(
        color_for(TokenKind::Verb, default),
        Color::from_rgb(97, 175, 239)
    );
    assert_eq!(
        color_for(TokenKind::Identifier, default),
        Color::from_rgb(229, 192, 123)
    );
    assert_eq!(
        color_for(TokenKind::Comment, default),
        Color::from_rgb(120, 120, 120)
    );
    for kind in [
        TokenKind::Punctuation,
        TokenKind::Whitespace,
        TokenKind::Unknown,
    ] {
        assert_eq!(color_for(kind, default), default);
    }
}

#[test]
fn layout_slants_comments_only() {
    let default = Color::from_rgb(9, 9, 9);
    let spans = highlight_layout("drop # x\n", default);
    let seen: Vec<(&str, Color, bool)> =
        spans.iter().map(|s| (s.text, s.color, s.italics)).collect();
    assert_eq!(
        seen,
        vec![
            ("drop", Color::from_rgb(97, 175, 239), false),
            (" ", default, false),
            ("# x", Color::from_rgb(120, 120, 120), true),
            ("\n", default, false),
        ]
    );
}

#[test]
fn words_of_accepted_lines_are_known() {
    for line in [
        "if not carrying(energy) {",
        "} else {",
        "while carrying(wood) {",
        "break",
        "continue",
        "navigate_to(closest, grass)",
        "goto(closest, base)",
        "take(wood)",
        "UP",
    ] {
        for (text, kind) in tokenize(line) {
            assert_ne!(kind, TokenKind::Unknown, "{text}");
        }
    }
}

#[test]
fn accepted_programs_have_no_unknown_pieces() {
    let programs = [
        DEFAULT_PROGRAM,
        "# start # {\nWhile NOT carrying(energy) {\r\n\tgoto,closest(energy)\n grab energy\n}\n",
        "if carrying(wood){\u{c}\nup\n}else{\nw # \u{7f}?!\n}\n",
    ];
    for src in programs {
        assert!(parse_program(src).is_ok(), "{src}");
        for (text, kind) in tokenize(src) {
            assert_ne!(kind, TokenKind::Unknown, "{text}");
        }
    }
    let tabbed = "wait\u{b}";
    assert!(parse_program(tabbed).is_ok());
    assert!(tokenize(tabbed).contains(&("\u{b}", TokenKind::Unknown)));
}
