//! Colours for program text.

use vstd::prelude::*;
use crate::inventory;
use crate::lexer;
use crate::lexer::find_from;
use crate::parser;
use crate::parser::Partial;
use crate::text;
use crate::text::{chars_of, same, to_lower};

verus! {

/// What a piece of program text is.
#[derive(Copy, Clone, Debug, PartialEq, Eq, Structural)]
pub enum TokenKind {
    Keyword,
    Verb,
    Identifier,
    Comment,
    Punctuation,
    Whitespace,
    Unknown,
}

/// True of the words of control flow.
pub open spec fn is_keyword(w: Seq<char>) -> bool {
    w == "if"@ || w == "else"@ || w == "while"@ || w == "break"@ || w == "continue"@ || w == "not"@
}

/// True of the words for actions.
pub open spec fn is_verb(w: Seq<char>) -> bool {
    w == "pickup"@ || w == "grab"@ || w == "take"@ || w == "drop"@ || w == "deposit"@ || w
        == "deliver"@ || w == "wait"@ || w == "noop"@ || w == "navigate_to"@ || w == "goto"@ || w
        == "nav"@
}

/// True of the words for what actions and conditions are about.
pub open spec fn is_argument(w: Seq<char>) -> bool {
    w == "energy"@ || w == "grass"@ || w == "wood"@ || w == "base"@ || w == "carrying"@ || w
        == "closest"@ || w == "n"@ || w == "s"@ || w == "e"@ || w == "w"@ || w == "north"@ || w
        == "south"@ || w == "east"@ || w == "west"@ || w == "up"@ || w == "down"@ || w == "left"@
        || w == "right"@
}

/// What a word is; capitals do not matter.
pub open spec fn classified(ident: Seq<char>) -> TokenKind {
    let w = text::lowercase(ident);
    if is_keyword(w) {
        TokenKind::Keyword
    } else if is_verb(w) {
        TokenKind::Verb
    } else if is_argument(w) {
        TokenKind::Identifier
    } else {
        TokenKind::Unknown
    }
}

/// True of the white space that is ASCII.
pub open spec fn is_blank(c: char) -> bool {
    c == ' ' || c == '\t' || c == '\n' || c == '\r' || c as int == 0xc
}

/// True of what words are made of.
pub open spec fn is_word_char(c: char) -> bool {
    'a' <= c <= 'z' || 'A' <= c <= 'Z' || '0' <= c <= '9' || c == '_'
}

/// True of the punctuation.
pub open spec fn is_punctuation(c: char) -> bool {
    c == '{' || c == '}' || c == '(' || c == ')' || c == ','
}

/// How many blanks there are in front.
pub open spec fn blank_run(s: Seq<char>) -> int
    decreases s.len(),
{
    if s.len() > 0 && is_blank(s[0]) {
        1 + blank_run(s.drop_first())
    } else {
        0
    }
}

/// How many characters of a word there are in front.
pub open spec fn word_run(s: Seq<char>) -> int
    decreases s.len(),
{
    if s.len() > 0 && is_word_char(s[0]) {
        1 + word_run(s.drop_first())
    } else {
        0
    }
}

/// The length of the piece in front: a comment up to the end of the line, all blanks, a word, or
/// one character.
pub open spec fn piece_len(s: Seq<char>) -> int {
    if s[0] == '#' {
        lexer::find(s, '\n')
    } else if is_blank(s[0]) {
        blank_run(s)
    } else if is_word_char(s[0]) {
        word_run(s)
    } else {
        1
    }
}

/// What a piece is.
pub open spec fn piece_kind(piece: Seq<char>) -> TokenKind {
    if piece[0] == '#' {
        TokenKind::Comment
    } else if is_blank(piece[0]) {
        TokenKind::Whitespace
    } else if is_word_char(piece[0]) {
        classified(piece)
    } else if is_punctuation(piece[0]) {
        TokenKind::Punctuation
    } else {
        TokenKind::Unknown
    }
}

/// The pieces of a text, and what each of them is.
pub open spec fn pieces(s: Seq<char>) -> Seq<(Seq<char>, TokenKind)>
    decreases s.len(),
{
    if s.len() == 0 {
        Seq::empty()
    } else {
        proof {
            lemma_piece_len(s);
        }
        let n = piece_len(s);
        seq![(s.take(n), piece_kind(s.take(n)))] + pieces(s.skip(n))
    }
}

proof fn lemma_blank_run(s: Seq<char>)
    ensures
        0 <= blank_run(s) <= s.len(),
    decreases s.len(),
{
    if s.len() > 0 && is_blank(s[0]) {
        lemma_blank_run(s.drop_first());
    }
}

proof fn lemma_word_run(s: Seq<char>)
    ensures
        0 <= word_run(s) <= s.len(),
    decreases s.len(),
{
    if s.len() > 0 && is_word_char(s[0]) {
        lemma_word_run(s.drop_first());
    }
}

/// A piece has at least one character, and lies within the text.
pub proof fn lemma_piece_len(s: Seq<char>)
    requires
        s.len() > 0,
    ensures
        1 <= piece_len(s) <= s.len(),
{
    lexer::lemma_find(s, '\n');
    lemma_blank_run(s);
    lemma_word_run(s);
    lemma_blank_run(s.drop_first());
    lemma_word_run(s.drop_first());
}

/// The pieces put together again.
pub open spec fn glued(tokens: Seq<(Seq<char>, TokenKind)>) -> Seq<char>
    decreases tokens.len(),
{
    if tokens.len() == 0 {
        Seq::empty()
    } else {
        tokens[0].0 + glued(tokens.drop_first())
    }
}

/// Nothing of a text is lost: its pieces, put together, are the text.
pub proof fn law_pieces_are_lossless(s: Seq<char>)
    ensures
        glued(pieces(s)) == s,
    decreases s.len(),
{
    if s.len() > 0 {
        lemma_piece_len(s);
        let n = piece_len(s);
        law_pieces_are_lossless(s.skip(n));
        assert(pieces(s).drop_first() =~= pieces(s.skip(n)));
        assert(s.take(n) + s.skip(n) =~= s);
    }
}

/// The text with ASCII capitals as small letters.
fn to_lowercase(ident: &str) -> (w: String)
    ensures
        w@ == text::lowercase(ident@),
{
    let mut w = String::new();
    for c in it: ident.chars()
        invariant
            it.seq() == ident@,
            w@ == text::lowercase(ident@.take(it.index() as int)),
    {
        w.push(to_lower(c));
        assert(w@ =~= text::lowercase(ident@.take(it.index() + 1)));
    }
    assert(ident@.take(ident@.len() as int) =~= ident@);
    w
}

fn keyword(w: &str) -> (b: bool)
    ensures
        b == is_keyword(w@),
{
    same(w, "if") || same(w, "else") || same(w, "while") || same(w, "break")
        || same(w, "continue") || same(w, "not")
}

fn verb(w: &str) -> (b: bool)
    ensures
        b == is_verb(w@),
{
    same(w, "pickup") || same(w, "grab") || same(w, "take") || same(w, "drop")
        || same(w, "deposit") || same(w, "deliver") || same(w, "wait") || same(w, "noop")
        || same(w, "navigate_to") || same(w, "goto") || same(w, "nav")
}

fn argument(w: &str) -> (b: bool)
    ensures
        b == is_argument(w@),
{
    same(w, "energy") || same(w, "grass") || same(w, "wood") || same(w, "base")
        || same(w, "carrying") || same(w, "closest") || same(w, "n") || same(w, "s")
        || same(w, "e") || same(w, "w") || same(w, "north") || same(w, "south")
        || same(w, "east") || same(w, "west") || same(w, "up") || same(w, "down")
        || same(w, "left") || same(w, "right")
}

/// What a word is; capitals do not matter.
pub fn classify_identifier(ident: &str) -> (kind: TokenKind)
    ensures
        kind == classified(ident@),
{
    let w = to_lowercase(ident);
    if keyword(w.as_str()) {
        TokenKind::Keyword
    } else if verb(w.as_str()) {
        TokenKind::Verb
    } else if argument(w.as_str()) {
        TokenKind::Identifier
    } else {
        TokenKind::Unknown
    }
}

fn blank(c: char) -> (b: bool)
    ensures
        b == is_blank(c),
{
    c == ' ' || c == '\t' || c == '\n' || c == '\r' || c as u32 == 0xc
}

fn word_char(c: char) -> (b: bool)
    ensures
        b == is_word_char(c),
{
    ('a' <= c && c <= 'z') || ('A' <= c && c <= 'Z') || ('0' <= c && c <= '9') || c == '_'
}

/// Where the blanks from `from` on end.
fn blanks_end(chars: &Vec<char>, from: usize) -> (end: usize)
    requires
        from <= chars@.len(),
    ensures
        from <= end <= chars@.len(),
        end == from + blank_run(chars@.skip(from as int)),
{
    let mut end: usize = from;
    while end < chars.len() && blank(chars[end])
        invariant
            from <= end <= chars@.len(),
            from + blank_run(chars@.skip(from as int)) == end + blank_run(chars@.skip(end as int)),
        decreases chars@.len() - end,
    {
        assert(chars@.skip(end as int).drop_first() =~= chars@.skip(end + 1));
        end += 1;
    }
    end
}

/// Where the word from `from` on ends.
fn word_end(chars: &Vec<char>, from: usize) -> (end: usize)
    requires
        from <= chars@.len(),
    ensures
        from <= end <= chars@.len(),
        end == from + word_run(chars@.skip(from as int)),
{
    let mut end: usize = from;
    while end < chars.len() && word_char(chars[end])
        invariant
            from <= end <= chars@.len(),
            from + word_run(chars@.skip(from as int)) == end + word_run(chars@.skip(end as int)),
        decreases chars@.len() - end,
    {
        assert(chars@.skip(end as int).drop_first() =~= chars@.skip(end + 1));
        end += 1;
    }
    end
}

/// The texts and kinds of a list of pieces.
pub open spec fn token_views(tokens: Seq<(&str, TokenKind)>) -> Seq<(Seq<char>, TokenKind)> {
    Seq::new(tokens.len(), |i: int| (tokens[i].0@, tokens[i].1))
}

/// The pieces of a text, and what each of them is.
pub fn tokenize<'a>(src: &'a str) -> (tokens: Vec<(&'a str, TokenKind)>)
    ensures
        token_views(tokens@) == pieces(src@),
{
    let chars = chars_of(src);
    let mut tokens: Vec<(&'a str, TokenKind)> = Vec::new();
    let mut i: usize = 0;
    assert(chars@.skip(0) =~= chars@);
    assert(token_views(tokens@) + pieces(chars@) =~= pieces(chars@));
    while i < chars.len()
        invariant
            chars@ == src@,
            i <= chars@.len(),
            token_views(tokens@) + pieces(chars@.skip(i as int)) == pieces(chars@),
        decreases chars@.len() - i,
    {
        let ghost rest = chars@.skip(i as int);
        let ghost before = token_views(tokens@);
        proof {
            lemma_piece_len(rest);
        }
        let c = chars[i];
        let end: usize = if c == '#' {
            find_from(&chars, i, '\n')
        } else if blank(c) {
            blanks_end(&chars, i)
        } else if word_char(c) {
            word_end(&chars, i)
        } else {
            i + 1
        };
        let piece = src.substring_char(i, end);
        assert(piece@ =~= rest.take(end - i));
        let kind = if c == '#' {
            TokenKind::Comment
        } else if blank(c) {
            TokenKind::Whitespace
        } else if word_char(c) {
            classify_identifier(piece)
        } else if c == '{' || c == '}' || c == '(' || c == ')' || c == ',' {
            TokenKind::Punctuation
        } else {
            TokenKind::Unknown
        };
        tokens.push((piece, kind));
        proof {
            assert(rest.skip(end - i) =~= chars@.skip(end as int));
            assert(token_views(tokens@) =~= before + seq![(piece@, kind)]);
            assert(token_views(tokens@) + pieces(chars@.skip(end as int)) =~= before + pieces(rest));
        }
        i = end;
    }
    assert(token_views(tokens@) =~= token_views(tokens@) + pieces(chars@.skip(i as int)));
    tokens
}

/// A colour, with its components premultiplied by the opacity.
#[derive(Copy, Clone, Debug, PartialEq, Eq, Structural)]
pub struct Color {
    pub r: u8,
    pub g: u8,
    pub b: u8,
    pub a: u8,
}

impl Color {
    /// An opaque colour.
    pub fn from_rgb(r: u8, g: u8, b: u8) -> (color: Color)
        ensures
            color == (Color { r, g, b, a: 255 }),
    {
        Color { r, g, b, a: 255 }
    }
}

/// The colour of a piece: purple for control flow, blue for actions, gold for arguments, gray for
/// comments, and the default for all else.
pub open spec fn color_of(kind: TokenKind, default: Color) -> Color {
    match kind {
        TokenKind::Keyword => Color { r: 198, g: 120, b: 221, a: 255 },
        TokenKind::Verb => Color { r: 97, g: 175, b: 239, a: 255 },
        TokenKind::Identifier => Color { r: 229, g: 192, b: 123, a: 255 },
        TokenKind::Comment => Color { r: 120, g: 120, b: 120, a: 255 },
        _ => default,
    }
}

/// The colour of a piece.
pub fn color_for(kind: TokenKind, default: Color) -> (color: Color)
    ensures
        color == color_of(kind, default),
{
    match kind {
        TokenKind::Keyword => Color::from_rgb(198, 120, 221),
        TokenKind::Verb => Color::from_rgb(97, 175, 239),
        TokenKind::Identifier => Color::from_rgb(229, 192, 123),
        TokenKind::Comment => Color::from_rgb(120, 120, 120),
        _ => default,
    }
}

/// A stretch of text in one style.
pub struct Span<'a> {
    pub text: &'a str,
    pub color: Color,
    pub italics: bool,
}

/// The stretches of a text in which a piece each is shown; comments are slanted.
pub fn highlight_layout<'a>(src: &'a str, default: Color) -> (spans: Vec<Span<'a>>)
    ensures
        spans@.len() == pieces(src@).len(),
        forall|i: int|
            0 <= i < spans@.len() ==> {
                let (text, kind) = pieces(src@)[i];
                &&& (#[trigger] spans@[i]).text@ == text
                &&& spans@[i].color == color_of(kind, default)
                &&& spans@[i].italics == (kind == TokenKind::Comment)
            },
{
    let tokens = tokenize(src);
    let mut spans: Vec<Span<'a>> = Vec::new();
    let mut i: usize = 0;
    while i < tokens.len()
        invariant
            token_views(tokens@) == pieces(src@),
            i <= tokens@.len(),
            spans@.len() == i,
            forall|j: int|
                0 <= j < i ==> {
                    let (text, kind) = pieces(src@)[j];
                    &&& (#[trigger] spans@[j]).text@ == text
                    &&& spans@[j].color == color_of(kind, default)
                    &&& spans@[j].italics == (kind == TokenKind::Comment)
                },
        decreases tokens@.len() - i,
    {
        let (text, kind) = tokens[i];
        assert(token_views(tokens@)[i as int] == (text@, kind));
        let color = color_for(kind, default);
        spans.push(Span { text, color, italics: kind == TokenKind::Comment });
        i += 1;
    }
    spans
}

/// Words are in small letters already.
proof fn lemma_words_are_lowercase(s: Seq<char>, i: int)
    requires
        0 <= i < lexer::words_of(s).len(),
    ensures
        text::lowercase(lexer::words_of(s)[i]) == lexer::words_of(s)[i],
    decreases s.len(),
{
    if s.len() > 0 {
        let n = if lexer::is_gap(s[0]) || lexer::is_brace(s[0]) {
            1
        } else {
            1 + lexer::run(s.drop_first())
        };
        lexer::lemma_run(s.drop_first());
        let rest = s.skip(n);
        assert(s.skip(1) =~= s.drop_first());
        let w = lexer::words_of(s)[i];
        if lexer::is_gap(s[0]) {
            lemma_words_are_lowercase(rest, i);
        } else if i > 0 {
            assert(w == lexer::words_of(rest)[i - 1]);
            lemma_words_are_lowercase(rest, i - 1);
        } else {
            assert(text::lowercase(w) =~= w);
        }
    }
}

/// A word that is the name of a kind.
proof fn lemma_names_are_arguments(w: Seq<char>)
    ensures
        inventory::kind_named(w) is Some ==> is_argument(w),
{
}

/// Whatever the compiler accepts is coloured: every word of a statement that it takes, but for
/// the braces, is a keyword, a verb or an argument.
pub proof fn law_accepted_words_are_known(p: Partial, code: Seq<char>, line: nat, i: int)
    requires
        parser::statement(p, lexer::words_of(code), code, line) is Ok,
        0 <= i < lexer::words_of(code).len(),
    ensures
        ({
            let w = lexer::words_of(code)[i];
            w == "{"@ || w == "}"@ || classified(w) != TokenKind::Unknown
        }),
{
    let words = lexer::words_of(code);
    let w = words[i];
    let n = words.len() as int;
    lemma_words_are_lowercase(code, i);
    lemma_names_are_arguments(w);
    if parser::opens(words, "if"@) || parser::opens(words, "while"@) {
        let cond = words.subrange(1, n - 1);
        if 0 < i < n - 1 {
            assert(cond[i - 1] == w);
            if cond[0] == "not"@ {
                if i > 1 {
                    assert(cond.drop_first()[i - 2] == w);
                }
            }
        }
    }
}

/// True of what is made of letters, digits and underscores.
spec fn of_word_chars(w: Seq<char>) -> bool {
    forall|i: int| 0 <= i < w.len() ==> is_word_char(#[trigger] w[i])
}

/// A short text, character by character.
proof fn lemma_of_word_chars(w: Seq<char>)
    requires
        0 < w.len() <= 11,
        is_word_char(w[0]),
        w.len() > 1 ==> is_word_char(w[1]),
        w.len() > 2 ==> is_word_char(w[2]),
        w.len() > 3 ==> is_word_char(w[3]),
        w.len() > 4 ==> is_word_char(w[4]),
        w.len() > 5 ==> is_word_char(w[5]),
        w.len() > 6 ==> is_word_char(w[6]),
        w.len() > 7 ==> is_word_char(w[7]),
        w.len() > 8 ==> is_word_char(w[8]),
        w.len() > 9 ==> is_word_char(w[9]),
        w.len() > 10 ==> is_word_char(w[10]),
    ensures
        of_word_chars(w),
{
    assert forall|i: int| 0 <= i < w.len() implies is_word_char(#[trigger] w[i]) by {
        assert(i == 0 || i == 1 || i == 2 || i == 3 || i == 4 || i == 5 || i == 6 || i == 7 || i
            == 8 || i == 9 || i == 10);
    }
}

/// Words of control flow are made of letters.
proof fn lemma_keyword_chars(w: Seq<char>)
    requires
        is_keyword(w),
    ensures
        of_word_chars(w),
{
    if w == "if"@ {
        reveal_strlit("if");
        lemma_of_word_chars(w);
    } else if w == "else"@ {
        reveal_strlit("else");
        lemma_of_word_chars(w);
    } else if w == "while"@ {
        reveal_strlit("while");
        lemma_of_word_chars(w);
    } else if w == "break"@ {
        reveal_strlit("break");
        lemma_of_word_chars(w);
    } else if w == "continue"@ {
        reveal_strlit("continue");
        lemma_of_word_chars(w);
    } else {
        reveal_strlit("not");
        lemma_of_word_chars(w);
    }
}

/// Words for actions are made of letters and underscores.
proof fn lemma_verb_chars(w: Seq<char>)
    requires
        is_verb(w),
    ensures
        of_word_chars(w),
{
    if w == "pickup"@ {
        reveal_strlit("pickup");
        lemma_of_word_chars(w);
    } else if w == "grab"@ {
        reveal_strlit("grab");
        lemma_of_word_chars(w);
    } else if w == "take"@ {
        reveal_strlit("take");
        lemma_of_word_chars(w);
    } else if w == "drop"@ {
        reveal_strlit("drop");
        lemma_of_word_chars(w);
    } else if w == "deposit"@ {
        reveal_strlit("deposit");
        lemma_of_word_chars(w);
    } else if w == "deliver"@ {
        reveal_strlit("deliver");
        lemma_of_word_chars(w);
    } else if w == "wait"@ {
        reveal_strlit("wait");
        lemma_of_word_chars(w);
    } else if w == "noop"@ {
        reveal_strlit("noop");
        lemma_of_word_chars(w);
    } else if w == "navigate_to"@ {
        reveal_strlit("navigate_to");
        lemma_of_word_chars(w);
    } else if w == "goto"@ {
        reveal_strlit("goto");
        lemma_of_word_chars(w);
    } else {
        reveal_strlit("nav");
        lemma_of_word_chars(w);
    }
}

/// Words for what actions and conditions are about are made of letters.
proof fn lemma_argument_chars(w: Seq<char>)
    requires
        is_argument(w),
    ensures
        of_word_chars(w),
{
    if w == "energy"@ {
        reveal_strlit("energy");
        lemma_of_word_chars(w);
    } else if w == "grass"@ {
        reveal_strlit("grass");
        lemma_of_word_chars(w);
    } else if w == "wood"@ {
        reveal_strlit("wood");
        lemma_of_word_chars(w);
    } else if w == "base"@ {
        reveal_strlit("base");
        lemma_of_word_chars(w);
    } else if w == "carrying"@ {
        reveal_strlit("carrying");
        lemma_of_word_chars(w);
    } else if w == "closest"@ {
        reveal_strlit("closest");
        lemma_of_word_chars(w);
    } else if w == "n"@ {
        reveal_strlit("n");
        lemma_of_word_chars(w);
    } else if w == "s"@ {
        reveal_strlit("s");
        lemma_of_word_chars(w);
    } else if w == "e"@ {
        reveal_strlit("e");
        lemma_of_word_chars(w);
    } else if w == "w"@ {
        reveal_strlit("w");
        lemma_of_word_chars(w);
    } else if w == "north"@ {
        reveal_strlit("north");
        lemma_of_word_chars(w);
    } else if w == "south"@ {
        reveal_strlit("south");
        lemma_of_word_chars(w);
    } else if w == "east"@ {
        reveal_strlit("east");
        lemma_of_word_chars(w);
    } else if w == "west"@ {
        reveal_strlit("west");
        lemma_of_word_chars(w);
    } else if w == "up"@ {
        reveal_strlit("up");
        lemma_of_word_chars(w);
    } else if w == "down"@ {
        reveal_strlit("down");
        lemma_of_word_chars(w);
    } else if w == "left"@ {
        reveal_strlit("left");
        lemma_of_word_chars(w);
    } else {
        reveal_strlit("right");
        lemma_of_word_chars(w);
    }
}

/// True of a brace, and of a word that has a colour.
spec fn is_known(w: Seq<char>) -> bool {
    w == "{"@ || w == "}"@ || classified(w) != TokenKind::Unknown
}

/// True if every word is known.
spec fn all_known(words: Seq<Seq<char>>) -> bool {
    forall|i: int| 0 <= i < words.len() ==> is_known(#[trigger] words[i])
}

/// What of the first line stands before its comment.
spec fn first_code(s: Seq<char>) -> Seq<char> {
    let line = s.take(lexer::find(s, '\n'));
    line.take(lexer::find(line, '#'))
}

/// True if every word before a comment is known.
spec fn words_known(s: Seq<char>) -> bool
    decreases s.len(),
{
    let end = lexer::find(s, '\n');
    &&& all_known(lexer::words_of(first_code(s)))
    &&& 0 <= end < s.len() ==> words_known(s.skip(end + 1))
}

/// In lines that the compiler takes, every word is known.
proof fn lemma_taken_words_are_known(p: Partial, s: Seq<char>, n: nat)
    requires
        parser::lines_parsed(p, s, n) is Ok,
    ensures
        words_known(s),
    decreases s.len(),
{
    let end = lexer::find(s, '\n');
    lexer::lemma_find(s, '\n');
    let line = s.take(end);
    let code = lexer::code_of(line);
    let words = lexer::words_of(code);
    lexer::lemma_words_of_code(line);
    assert forall|i: int| 0 <= i < words.len() implies is_known(#[trigger] words[i]) by {
        law_accepted_words_are_known(p, code, n, i);
    }
    if end < s.len() {
        lemma_taken_words_are_known(parser::line_parsed(p, line, n)->Ok_0, s.skip(end + 1), n + 1);
    }
}

/// What is left of the first line once its first `k` characters are gone.
proof fn lemma_first_code_skip(s: Seq<char>, k: int)
    requires
        0 <= k <= s.len(),
        forall|i: int| 0 <= i < k ==> s[i] != '\n' && s[i] != '#',
    ensures
        k <= first_code(s).len(),
        first_code(s.skip(k)) == first_code(s).skip(k),
        lexer::find(s.skip(k), '\n') == lexer::find(s, '\n') - k,
{
    let t = s.skip(k);
    let end = lexer::find(s, '\n');
    lexer::lemma_find(s, '\n');
    assert(k <= end);
    assert(end < s.len() ==> t[end - k] == s[end]);
    assert(forall|i: int| 0 <= i < end - k ==> t[i] == s[i + k]);
    lexer::lemma_find_is(t, '\n', end - k);
    let (line, rest) = (s.take(end), t.take(end - k));
    assert(rest =~= line.skip(k));
    let cut = lexer::find(line, '#');
    lexer::lemma_find(line, '#');
    assert(k <= cut) by {
        if cut < k {
            assert(line[cut] == s[cut]);
        }
    }
    assert(cut < line.len() ==> rest[cut - k] == line[cut]);
    assert(forall|i: int| 0 <= i < cut - k ==> rest[i] == line[i + k]);
    lexer::lemma_find_is(rest, '#', cut - k);
    assert(rest.take(cut - k) =~= line.take(cut).skip(k));
}

/// What is left of a text of known words once its first characters are gone.
proof fn lemma_known_skip(s: Seq<char>, k: int)
    requires
        words_known(s),
        0 <= k <= s.len(),
        forall|i: int| 0 <= i < k ==> s[i] != '\n' && s[i] != '#',
        all_known(lexer::words_of(first_code(s).skip(k))),
    ensures
        words_known(s.skip(k)),
{
    let end = lexer::find(s, '\n');
    lexer::lemma_find(s, '\n');
    lemma_first_code_skip(s, k);
    if end < s.len() {
        assert(s.skip(k).skip(end - k + 1) =~= s.skip(end + 1));
    }
}

/// A separator or a brace in front.
proof fn lemma_known_after_one(s: Seq<char>)
    requires
        words_known(s),
        s.len() > 0,
        s[0] == '\n' || s[0] != '#' && (lexer::is_gap(s[0]) || lexer::is_brace(s[0])),
    ensures
        words_known(s.skip(1)),
{
    if s[0] == '\n' {
        assert(lexer::find(s, '\n') == 0);
    } else {
        let code = first_code(s);
        lemma_first_code_skip(s, 1);
        assert(code[0] == s[0]) by {
            lexer::lemma_find(s, '\n');
            lexer::lemma_find(s.take(lexer::find(s, '\n')), '#');
        }
        assert(code.skip(1) =~= code.drop_first());
        let words = lexer::words_of(code);
        let rest = lexer::words_of(code.drop_first());
        assert forall|i: int| 0 <= i < rest.len() implies is_known(#[trigger] rest[i]) by {
            if lexer::is_gap(s[0]) {
                assert(words[i] == rest[i]);
            } else {
                assert(words[i + 1] == rest[i]);
            }
        }
        lemma_known_skip(s, 1);
    }
}

/// Blanks in front.
proof fn lemma_known_after_blanks(s: Seq<char>)
    requires
        words_known(s),
    ensures
        words_known(s.skip(blank_run(s))),
    decreases s.len(),
{
    if s.len() > 0 && is_blank(s[0]) {
        lemma_known_after_one(s);
        assert(s.skip(1) =~= s.drop_first());
        lemma_known_after_blanks(s.drop_first());
        lemma_blank_run(s.drop_first());
        assert(s.skip(blank_run(s)) =~= s.drop_first().skip(blank_run(s.drop_first())));
    } else {
        assert(s.skip(0) =~= s);
    }
}

/// A comment in front.
proof fn lemma_known_after_comment(s: Seq<char>)
    requires
        words_known(s),
        s.len() > 0,
        s[0] == '#',
    ensures
        words_known(s.skip(lexer::find(s, '\n'))),
{
    let end = lexer::find(s, '\n');
    lexer::lemma_find(s, '\n');
    let t = s.skip(end);
    assert(end < s.len() ==> t[0] == '\n');
    lexer::lemma_find_is(t, '\n', 0);
    assert(first_code(t) =~= Seq::<char>::empty());
    if end < s.len() {
        assert(t.skip(1) =~= s.skip(end + 1));
    }
}

/// How far a run of word characters goes.
proof fn lemma_word_run_is(s: Seq<char>, k: int)
    requires
        0 <= k <= s.len(),
        forall|i: int| 0 <= i < k ==> is_word_char(#[trigger] s[i]),
        k < s.len() ==> !is_word_char(s[k]),
    ensures
        word_run(s) == k,
    decreases k,
{
    if k > 0 {
        let t = s.drop_first();
        assert(is_word_char(s[0]));
        assert forall|i: int| 0 <= i < k - 1 implies is_word_char(#[trigger] t[i]) by {
            assert(is_word_char(s[i + 1]));
        }
        lemma_word_run_is(t, k - 1);
    }
}

/// A known word that is no brace is made of word characters.
proof fn lemma_known_chars(w: Seq<char>)
    requires
        classified(w) != TokenKind::Unknown,
    ensures
        of_word_chars(w),
{
    let low = text::lowercase(w);
    if is_keyword(low) {
        lemma_keyword_chars(low);
    } else if is_verb(low) {
        lemma_verb_chars(low);
    } else {
        lemma_argument_chars(low);
    }
    assert forall|i: int| 0 <= i < w.len() implies is_word_char(#[trigger] w[i]) by {
        assert(is_word_char(low[i]));
        assert(low[i] == text::lowered(w[i]));
    }
}

/// A word in front: it is known, and the piece in front is that word.
proof fn lemma_known_word(s: Seq<char>)
    requires
        words_known(s),
        s.len() > 0,
        s[0] != '\n',
        s[0] != '#',
        !lexer::is_gap(s[0]),
        !lexer::is_brace(s[0]),
    ensures
        is_word_char(s[0]),
        classified(s.take(word_run(s))) != TokenKind::Unknown,
        words_known(s.skip(word_run(s))),
{
    let code = first_code(s);
    let end = lexer::find(s, '\n');
    let line = s.take(end);
    let cut = lexer::find(line, '#');
    lexer::lemma_find(s, '\n');
    lexer::lemma_find(line, '#');
    assert(code =~= s.take(cut));
    assert(cut > 0);
    lexer::lemma_run(code.drop_first());
    let m = 1 + lexer::run(code.drop_first());
    let words = lexer::words_of(code);
    let w = text::lowercase(code.take(m));
    assert(words[0] == w);
    assert(is_known(words[0]));
    assert(w[0] == text::lowered(s[0]));
    reveal_strlit("{");
    reveal_strlit("}");
    assert("{"@[0] == '{' && "}"@[0] == '}');
    assert(classified(w) != TokenKind::Unknown);
    assert(text::lowercase(w) =~= w);
    assert(s.take(m) =~= code.take(m));
    assert(classified(s.take(m)) == classified(w));
    lemma_known_chars(s.take(m));
    assert forall|i: int| 0 <= i < m implies is_word_char(#[trigger] s[i]) by {
        assert(s.take(m)[i] == s[i]);
    }
    if m < s.len() {
        if m < cut {
            assert(code.drop_first()[m - 1] == s[m]);
        } else if cut < line.len() {
            assert(line[cut] == s[m]);
        }
        assert(!is_word_char(s[m]));
    }
    lemma_word_run_is(s, m);
    let rest = lexer::words_of(code.skip(m));
    assert forall|i: int| 0 <= i < rest.len() implies is_known(#[trigger] rest[i]) by {
        assert(words[i + 1] == rest[i]);
    }
    lemma_known_skip(s, m);
}

/// True of ASCII texts without vertical tabs.
pub open spec fn is_plain(s: Seq<char>) -> bool {
    forall|i: int| 0 <= i < s.len() ==> (#[trigger] s[i]) as int != 0xb && (s[i] as int) < 0x80
}

/// Pieces of a text of known words are known.
proof fn lemma_pieces_known(s: Seq<char>, i: int)
    requires
        words_known(s),
        is_plain(s),
        0 <= i < pieces(s).len(),
    ensures
        pieces(s)[i].1 != TokenKind::Unknown,
    decreases s.len(),
{
    lemma_piece_len(s);
    let n = piece_len(s);
    let c = s[0];
    assert(s.take(n)[0] == c);
    if c == '#' {
        lemma_known_after_comment(s);
    } else if is_blank(c) {
        lemma_known_after_blanks(s);
    } else if lexer::is_gap(c) || lexer::is_brace(c) {
        lemma_known_after_one(s);
    } else {
        lemma_known_word(s);
    }
    if i > 0 {
        assert(pieces(s)[i] == pieces(s.skip(n))[i - 1]);
        lemma_pieces_known(s.skip(n), i - 1);
    }
}

/// A program in ASCII, without vertical tabs, is coloured throughout: no piece of it is unknown.
pub proof fn law_programs_have_no_unknown_pieces(source: Seq<char>, i: int)
    requires
        parser::parsed(source) is Ok,
        is_plain(source),
        0 <= i < pieces(source).len(),
    ensures
        pieces(source)[i].1 != TokenKind::Unknown,
{
    let start = Partial { out: Seq::empty(), frames: Seq::empty() };
    lemma_taken_words_are_known(start, source, 1);
    lemma_pieces_known(source, i);
}

/// The first piece of a text: a comment goes on to the end of the line, white space as far as it
/// goes, a word as far as letters, digits and underscores go; anything else is a piece by itself.
/// The other pieces are those of what is left.
pub proof fn law_pieces_go_as_far_as_they_can(s: Seq<char>)
    requires
        s.len() > 0,
    ensures
        ({
            let (piece, kind) = pieces(s)[0];
            let n = piece.len() as int;
            let blank = |c: char|
                c == ' ' || c == '\t' || c == '\n' || c == '\r' || c == '\u{c}';
            let word = |c: char|
                'a' <= c <= 'z' || 'A' <= c <= 'Z' || '0' <= c <= '9' || c == '_';
            let mark = |c: char| c == '{' || c == '}' || c == '(' || c == ')' || c == ',';
            &&& 0 < n <= s.len()
            &&& piece == s.take(n)
            &&& pieces(s).drop_first() == pieces(s.skip(n))
            &&& if s[0] == '#' {
                &&& kind == TokenKind::Comment
                &&& forall|i: int| 0 <= i < n ==> s[i] != '\n'
                &&& n < s.len() ==> s[n] == '\n'
            } else if blank(s[0]) {
                &&& kind == TokenKind::Whitespace
                &&& forall|i: int| 0 <= i < n ==> blank(s[i])
                &&& n < s.len() ==> !blank(s[n])
            } else if word(s[0]) {
                &&& kind == classified(piece)
                &&& forall|i: int| 0 <= i < n ==> word(s[i])
                &&& n < s.len() ==> !word(s[n])
            } else {
                &&& n == 1
                &&& kind == (if mark(s[0]) {
                    TokenKind::Punctuation
                } else {
                    TokenKind::Unknown
                })
            }
        }),
{
    lemma_piece_len(s);
    let n = piece_len(s);
    assert(pieces(s).drop_first() =~= pieces(s.skip(n)));
    lexer::lemma_find(s, '\n');
    lemma_blanks(s);
    lemma_letters(s);
}

/// How far blanks go.
proof fn lemma_blanks(s: Seq<char>)
    ensures
        0 <= blank_run(s) <= s.len(),
        forall|i: int| 0 <= i < blank_run(s) ==> is_blank(#[trigger] s[i]),
        blank_run(s) < s.len() ==> !is_blank(s[blank_run(s)]),
    decreases s.len(),
{
    if s.len() > 0 && is_blank(s[0]) {
        let t = s.drop_first();
        lemma_blanks(t);
        assert forall|i: int| 0 <= i < blank_run(s) implies is_blank(#[trigger] s[i]) by {
            if i > 0 {
                assert(is_blank(t[i - 1]));
            }
        }
    }
}

/// How far a word goes.
proof fn lemma_letters(s: Seq<char>)
    ensures
        0 <= word_run(s) <= s.len(),
        forall|i: int| 0 <= i < word_run(s) ==> is_word_char(#[trigger] s[i]),
        word_run(s) < s.len() ==> !is_word_char(s[word_run(s)]),
    decreases s.len(),
{
    if s.len() > 0 && is_word_char(s[0]) {
        let t = s.drop_first();
        lemma_letters(t);
        assert forall|i: int| 0 <= i < word_run(s) implies is_word_char(#[trigger] s[i]) by {
            if i > 0 {
                assert(is_word_char(t[i - 1]));
            }
        }
    }
}

/// What words are, capitals or not: six of control flow, eleven for actions, eighteen for what
/// those are about, and all others unknown.
pub proof fn law_words_are_classified(ident: Seq<char>, w: Seq<char>)
    requires
        w == text::lowercase(ident),
    ensures
        ({
            let one = |a: Seq<char>, b: Seq<char>, c: Seq<char>| w == a || w == b || w == c;
            let control = one("if"@, "else"@, "while"@) || one("break"@, "continue"@, "not"@);
            let action = one("pickup"@, "grab"@, "take"@) || one("drop"@, "deposit"@, "deliver"@)
                || one("navigate_to"@, "goto"@, "nav"@) || w == "wait"@ || w == "noop"@;
            let direction = one("n"@, "north"@, "up"@) || one("s"@, "south"@, "down"@) || one(
                "e"@,
                "east"@,
                "right"@,
            ) || one("w"@, "west"@, "left"@);
            let thing = one("energy"@, "grass"@, "wood"@) || one("base"@, "carrying"@, "closest"@);
            classified(ident) == (if control {
                TokenKind::Keyword
            } else if action {
                TokenKind::Verb
            } else if direction || thing {
                TokenKind::Identifier
            } else {
                TokenKind::Unknown
            })
        }),
{
}

/// Every kind of piece that is not shown in the default colour has an opaque one of its own.
pub proof fn law_colours(kind: TokenKind, default: Color)
    ensures
        match kind {
            TokenKind::Keyword => color_of(kind, default) == (Color {
                r: 198,
                g: 120,
                b: 221,
                a: 255,
            }),
            TokenKind::Verb => color_of(kind, default) == (Color { r: 97, g: 175, b: 239, a: 255 }),
            TokenKind::Identifier => color_of(kind, default) == (Color {
                r: 229,
                g: 192,
                b: 123,
                a: 255,
            }),
            TokenKind::Comment => color_of(kind, default) == (Color {
                r: 120,
                g: 120,
                b: 120,
                a: 255,
            }),
            TokenKind::Punctuation => color_of(kind, default) == default,
            TokenKind::Whitespace => color_of(kind, default) == default,
            TokenKind::Unknown => color_of(kind, default) == default,
        },
{
}

} // verus!
