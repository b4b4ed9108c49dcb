//! What of a program's text counts.

use vstd::prelude::*;
use crate::blocks;
use crate::blocks::Line;
use crate::lexer;
use crate::parser;
use crate::parser::{Frame, Partial};
use crate::program::Action;
use crate::text;

verus! {

/// A block without the number of the line on which it was opened.
spec fn unnumbered(f: Frame) -> Frame {
    match f {
        Frame::If { jump, .. } => Frame::If { jump, line: 0 },
        Frame::Else { jump, .. } => Frame::Else { jump, line: 0 },
        Frame::Loop { top, breaks, .. } => Frame::Loop { top, line: 0, breaks },
    }
}

/// True if nothing differs but the numbers of lines.
spec fn same_but_lines(p: Partial, q: Partial) -> bool {
    &&& p.out == q.out
    &&& p.frames.len() == q.frames.len()
    &&& forall|i: int|
        0 <= i < p.frames.len() ==> unnumbered(#[trigger] p.frames[i]) == unnumbered(q.frames[i])
}

/// True if both results are good and nothing differs but the numbers of lines, or neither is.
spec fn same_results(
    a: Result<Partial, Seq<char>>,
    b: Result<Partial, Seq<char>>,
) -> bool {
    match (a, b) {
        (Ok(p), Ok(q)) => same_but_lines(p, q),
        (Err(_), Err(_)) => true,
        _ => false,
    }
}

/// What a block is closed with does not depend on the number of its line.
proof fn lemma_landed_same(out: Seq<Action>, f: Frame, g: Frame)
    requires
        unnumbered(f) == unnumbered(g),
    ensures
        parser::landed(out, f) == parser::landed(out, g),
{
    assert forall|i: int| parser::awaits(f, i) == parser::awaits(g, i) by {}
    assert(parser::landed(out, f) =~= parser::landed(out, g));
}

/// A line adds the same, whatever its number and however its words are written.
proof fn lemma_step_same(p: Partial, q: Partial, a: Line, b: Line)
    requires
        same_but_lines(p, q),
        a.words == b.words,
    ensures
        same_results(blocks::step(p, a), blocks::step(q, b)),
{
    reveal(blocks::step);
    let n = p.frames.len() as int;
    let words = a.words;
    blocks::lemma_innermost_alike(p.frames, q.frames, n);
    parser::lemma_innermost_loop(p.frames, n);
    if words.len() == 1 && (words[0] == "break"@ || words[0] == "continue"@) {
        if let Some(k) = parser::innermost_loop(p.frames, n) {
            assert(unnumbered(p.frames[k]) == unnumbered(q.frames[k]));
        }
    }
    if n > 0 {
        let (f, g) = (p.frames[n - 1], q.frames[n - 1]);
        assert(unnumbered(f) == unnumbered(g));
        assert(p.frames.last() == f && q.frames.last() == g);
        if f is Loop {
            lemma_landed_same(p.out.push(Action::Jump(f->top as usize)), f, g);
        } else {
            lemma_landed_same(p.out.push(Action::Jump(usize::MAX)), f, g);
            lemma_landed_same(p.out, f, g);
        }
    }
}

/// Lines with the same words add the same.
proof fn lemma_folded_same(p: Partial, q: Partial, a: Seq<Line>, b: Seq<Line>)
    requires
        same_but_lines(p, q),
        blocks::words_in(a) == blocks::words_in(b),
    ensures
        same_results(blocks::folded(p, a), blocks::folded(q, b)),
    decreases a.len(),
{
    assert(a.len() == blocks::words_in(a).len() == blocks::words_in(b).len() == b.len());
    if a.len() > 0 {
        assert(blocks::words_in(a)[0] == a[0].words);
        assert(blocks::words_in(b)[0] == b[0].words);
        lemma_step_same(p, q, a[0], b[0]);
        if blocks::step(p, a[0]) is Ok {
            let (a1, b1) = (a.drop_first(), b.drop_first());
            assert(blocks::words_in(a1) =~= blocks::words_in(a).drop_first());
            assert(blocks::words_in(b1) =~= blocks::words_in(b).drop_first());
            lemma_folded_same(blocks::step(p, a[0])->Ok_0, blocks::step(q, b[0])->Ok_0, a1, b1);
        }
    }
}

/// The words of the lines of a text that have code.
pub open spec fn spelled(source: Seq<char>) -> Seq<Seq<Seq<char>>> {
    blocks::words_in(blocks::code_lines(source, 1))
}

/// True if two texts are the same program, or neither is a program.
pub open spec fn same_program(a: Seq<char>, b: Seq<char>) -> bool {
    parser::parsed(a) is Ok || parser::parsed(b) is Ok ==> parser::parsed(a) == parser::parsed(b)
}

/// Only the words of lines with code count.
pub proof fn law_only_words_count(a: Seq<char>, b: Seq<char>)
    requires
        spelled(a) == spelled(b),
    ensures
        same_program(a, b),
{
    let p = Partial { out: Seq::empty(), frames: Seq::empty() };
    blocks::lemma_folded(p, a, 1);
    blocks::lemma_folded(p, b, 1);
    lemma_folded_same(p, p, blocks::code_lines(a, 1), blocks::code_lines(b, 1));
}

/// True if `line` is a line of its own between the lines of `before` and those of `after`.
pub open spec fn is_line(before: Seq<char>, line: Seq<char>, after: Seq<char>) -> bool {
    &&& before.len() == 0 || before.last() == '\n'
    &&& after.len() == 0 || after[0] == '\n'
    &&& forall|i: int| 0 <= i < line.len() ==> line[i] != '\n'
}

/// Of a line nothing but its code matters.
proof fn lemma_only_code_counts(
    p: Partial,
    before: Seq<char>,
    one: Seq<char>,
    two: Seq<char>,
    after: Seq<char>,
    n: nat,
)
    requires
        is_line(before, one, after),
        is_line(before, two, after),
        lexer::code_of(one) == lexer::code_of(two),
    ensures
        parser::lines_parsed(p, before + one + after, n) == parser::lines_parsed(
            p,
            before + two + after,
            n,
        ),
    decreases before.len(),
{
    let (a, b) = (before + one + after, before + two + after);
    if before.len() == 0 {
        let (k, m) = (one.len() as int, two.len() as int);
        assert(after.len() > 0 ==> a[k] == after[0] && b[m] == after[0]);
        lexer::lemma_find_is(a, '\n', k);
        lexer::lemma_find_is(b, '\n', m);
        assert(a.take(k) =~= one);
        assert(b.take(m) =~= two);
        if after.len() > 0 {
            assert(a.skip(k + 1) =~= after.skip(1));
            assert(b.skip(m + 1) =~= after.skip(1));
        }
    } else {
        let end = lexer::find(before, '\n');
        lexer::lemma_find(before, '\n');
        assert(end < before.len()) by {
            assert(before[before.len() - 1] == '\n');
        }
        assert(forall|i: int| 0 <= i < before.len() ==> a[i] == before[i] && b[i] == before[i]);
        lexer::lemma_find_is(a, '\n', end);
        lexer::lemma_find_is(b, '\n', end);
        assert(a.take(end) =~= before.take(end));
        assert(b.take(end) =~= before.take(end));
        let rest = before.skip(end + 1);
        assert(a.skip(end + 1) =~= rest + one + after);
        assert(b.skip(end + 1) =~= rest + two + after);
        if let Ok(q) = parser::line_parsed(p, before.take(end), n) {
            lemma_only_code_counts(q, rest, one, two, after, n + 1);
        }
    }
}

/// A comment at the end of a line changes nothing.
pub proof fn law_comments_change_nothing(
    before: Seq<char>,
    line: Seq<char>,
    comment: Seq<char>,
    after: Seq<char>,
)
    requires
        is_line(before, line, after),
        is_line(before, comment, after),
    ensures
        parser::parsed(before + (line + seq!['#'] + comment) + after) == parser::parsed(
            before + line + after,
        ),
{
    let commented = line + seq!['#'] + comment;
    let start = Partial { out: Seq::empty(), frames: Seq::empty() };
    lexer::law_comments_do_not_count(line, comment);
    lemma_only_code_counts(start, before, commented, line, after, 1);
}

/// White space in front of a line, or behind it, changes nothing.
pub proof fn law_indentation_changes_nothing(
    before: Seq<char>,
    front: Seq<char>,
    line: Seq<char>,
    back: Seq<char>,
    after: Seq<char>,
)
    requires
        is_line(before, front, after),
        is_line(before, line, after),
        is_line(before, back, after),
        lexer::all_space(front),
        lexer::all_space(back),
    ensures
        parser::parsed(before + (front + line + back) + after) == parser::parsed(
            before + line + after,
        ),
{
    let padded = front + line + back;
    let start = Partial { out: Seq::empty(), frames: Seq::empty() };
    lexer::law_padding_does_not_count(front, line, back);
    lemma_only_code_counts(start, before, padded, line, after, 1);
}

/// A line without code has no words.
proof fn lemma_no_code(line: Seq<char>)
    requires
        forall|i: int| 0 <= i < line.len() ==> line[i] != '\n',
        lexer::code_of(line).len() == 0,
    ensures
        spelled(line) == Seq::<Seq<Seq<char>>>::empty(),
{
    lexer::lemma_find_is(line, '\n', line.len() as int);
    assert(line.take(line.len() as int) =~= line);
    blocks::lemma_words_in_first(line, 1);
    assert(spelled(line) =~= Seq::<Seq<Seq<char>>>::empty());
}

/// A line without code can stand between any two lines, in front of the first, and behind the
/// last. Whatever is accepted, and what becomes of it, stays the same.
pub proof fn law_lines_without_code_do_not_count(
    before: Seq<char>,
    line: Seq<char>,
    after: Seq<char>,
)
    requires
        forall|i: int| 0 <= i < line.len() ==> line[i] != '\n',
        lexer::code_of(line).len() == 0,
    ensures
        same_program(
            before + seq!['\n'] + (line + seq!['\n'] + after),
            before + seq!['\n'] + after,
        ),
        same_program(line + seq!['\n'] + after, after),
        same_program(before + seq!['\n'] + line, before),
{
    let newline = seq!['\n'];
    let none = Seq::<Seq<Seq<char>>>::empty();
    lemma_no_code(line);
    blocks::lemma_words_in_both(before, line + newline + after, 1);
    blocks::lemma_words_in_both(line, after, 1);
    blocks::lemma_words_in_both(before, after, 1);
    blocks::lemma_words_in_both(before, line, 1);
    assert(none + spelled(after) =~= spelled(after));
    assert(spelled(before) + none =~= spelled(before));
    law_only_words_count(
        before + newline + (line + newline + after),
        before + newline + after,
    );
    law_only_words_count(line + newline + after, after);
    law_only_words_count(before + newline + line, before);
}

/// True if every line has a word.
pub open spec fn none_empty(lines: Seq<Seq<Seq<char>>>) -> bool {
    forall|i: int| 0 <= i < lines.len() ==> (#[trigger] lines[i]).len() > 0
}

/// True if every line with code has a word.
pub open spec fn worded(source: Seq<char>) -> bool {
    none_empty(spelled(source))
}

/// Lines that are taken have words.
proof fn lemma_taken_lines_have_words(p: Partial, lines: Seq<Line>, i: int)
    requires
        blocks::folded(p, lines) is Ok,
        0 <= i < lines.len(),
    ensures
        lines[i].words.len() > 0,
    decreases lines.len(),
{
    reveal(blocks::step);
    if i > 0 {
        let q = blocks::step(p, lines[0])->Ok_0;
        lemma_taken_lines_have_words(q, lines.drop_first(), i - 1);
    }
}

/// In a program every line with code has a word.
pub proof fn law_programs_are_worded(source: Seq<char>)
    requires
        parser::parsed(source) is Ok,
    ensures
        worded(source),
{
    let p = Partial { out: Seq::empty(), frames: Seq::empty() };
    let lines = blocks::code_lines(source, 1);
    blocks::lemma_folded(p, source, 1);
    let words = spelled(source);
    assert forall|i: int| 0 <= i < words.len() implies (#[trigger] words[i]).len() > 0 by {
        lemma_taken_lines_have_words(p, lines, i);
    }
}

/// True if two characters count as the same in a program: neither or both end a line, neither or
/// both begin a comment, and both separate words or are one letter, small or capital.
pub open spec fn alike(c: char, d: char) -> bool {
    &&& (c == '\n') == (d == '\n')
    &&& (c == '#') == (d == '#')
    &&& lexer::alike(c, d)
}

/// True if two texts are alike, character for character.
pub open spec fn all_alike(a: Seq<char>, b: Seq<char>) -> bool {
    &&& a.len() == b.len()
    &&& forall|i: int| 0 <= i < a.len() ==> alike(#[trigger] a[i], b[i])
}

/// Lines that are alike have the same words.
proof fn lemma_line_alike(a: Seq<char>, b: Seq<char>)
    requires
        all_alike(a, b),
    ensures
        lexer::words_of(lexer::code_of(a)) == lexer::words_of(lexer::code_of(b)),
{
    let k = lexer::find(a, '#');
    lexer::lemma_find(a, '#');
    assert(forall|i: int| 0 <= i < a.len() ==> alike(a[i], b[i]));
    lexer::lemma_find_is(b, '#', k);
    lexer::lemma_words_of_code(a);
    lexer::lemma_words_of_code(b);
    let (a1, b1) = (a.take(k), b.take(k));
    assert forall|i: int| 0 <= i < a1.len() implies lexer::alike(#[trigger] a1[i], b1[i]) by {
        assert(alike(a[i], b[i]));
    }
    lexer::law_words_ignore_case_and_punctuation(a1, b1);
}

/// Texts that are alike have the same words, if no line has code and no word.
proof fn lemma_spelled_alike(a: Seq<char>, b: Seq<char>, n: nat)
    requires
        all_alike(a, b),
        none_empty(blocks::words_in(blocks::code_lines(a, n))),
        none_empty(blocks::words_in(blocks::code_lines(b, n))),
    ensures
        blocks::words_in(blocks::code_lines(a, n)) == blocks::words_in(blocks::code_lines(b, n)),
    decreases a.len(),
{
    let wa = blocks::words_in(blocks::code_lines(a, n));
    let wb = blocks::words_in(blocks::code_lines(b, n));
    let end = lexer::find(a, '\n');
    lexer::lemma_find(a, '\n');
    assert(forall|i: int| 0 <= i < a.len() ==> alike(a[i], b[i]));
    lexer::lemma_find_is(b, '\n', end);
    let (la, lb) = (a.take(end), b.take(end));
    assert forall|i: int| 0 <= i < la.len() implies alike(#[trigger] la[i], lb[i]) by {
        assert(alike(a[i], b[i]));
    }
    lemma_line_alike(la, lb);
    blocks::lemma_words_in_first(a, n);
    blocks::lemma_words_in_first(b, n);
    let (fa, fb) = (blocks::first_words(la), blocks::first_words(lb));
    assert(fa == fb) by {
        if fa.len() > 0 {
            assert(wa[0] == fa[0]);
        }
        if fb.len() > 0 {
            assert(wb[0] == fb[0]);
        }
    }
    if end < a.len() {
        let (ra, rb) = (a.skip(end + 1), b.skip(end + 1));
        let va = blocks::words_in(blocks::code_lines(ra, n + 1));
        let vb = blocks::words_in(blocks::code_lines(rb, n + 1));
        assert forall|i: int| 0 <= i < ra.len() implies alike(#[trigger] ra[i], rb[i]) by {
            assert(alike(a[i + end + 1], b[i + end + 1]));
        }
        assert forall|i: int| 0 <= i < va.len() implies (#[trigger] va[i]).len() > 0 by {
            assert(wa[i + fa.len()] == va[i]);
        }
        assert forall|i: int| 0 <= i < vb.len() implies (#[trigger] vb[i]).len() > 0 by {
            assert(wb[i + fb.len()] == vb[i]);
        }
        lemma_spelled_alike(ra, rb, n + 1);
    }
}

/// Capitals do not matter, and parentheses, commas and white space are one: a text that differs
/// from a program in nothing else is the same program, unless a line is left with nothing but
/// parentheses and commas.
pub proof fn law_case_and_punctuation_do_not_count(a: Seq<char>, b: Seq<char>)
    requires
        all_alike(a, b),
        parser::parsed(a) is Ok,
        worded(b),
    ensures
        parser::parsed(b) == parser::parsed(a),
{
    law_programs_are_worded(a);
    lemma_spelled_alike(a, b, 1);
    law_only_words_count(a, b);
}

/// How many lines end within a text.
pub open spec fn newlines(s: Seq<char>) -> nat
    decreases s.len(),
{
    if s.len() == 0 {
        0
    } else {
        newlines(s.drop_last()) + (if s.last() == '\n' {
            1nat
        } else {
            0nat
        })
    }
}

proof fn lemma_newlines_add(a: Seq<char>, b: Seq<char>)
    ensures
        newlines(a + b) == newlines(a) + newlines(b),
    decreases b.len(),
{
    if b.len() == 0 {
        assert(a + b =~= a);
    } else {
        lemma_newlines_add(a, b.drop_last());
        assert((a + b).drop_last() =~= a + b.drop_last());
    }
}

proof fn lemma_no_newlines(s: Seq<char>)
    requires
        forall|i: int| 0 <= i < s.len() ==> s[i] != '\n',
    ensures
        newlines(s) == 0,
    decreases s.len(),
{
    if s.len() > 0 {
        lemma_no_newlines(s.drop_last());
    }
}

/// The first bad line, among lines of which the first has number `n`.
proof fn lemma_first_bad_line(p: Partial, source: Seq<char>, n: nat) -> (r: (
    Seq<char>,
    Seq<char>,
    Seq<char>,
))
    requires
        parser::lines_parsed(p, source, n) is Err,
    ensures
        source == r.0 + r.1 + r.2,
        is_line(r.0, r.1, r.2),
        parser::lines_parsed(p, r.0, n) matches Ok(q) && parser::line_parsed(
            q,
            r.1,
            n + newlines(r.0),
        ) == parser::lines_parsed(p, source, n),
    decreases source.len(),
{
    let end = lexer::find(source, '\n');
    lexer::lemma_find(source, '\n');
    let line = source.take(end);
    match parser::line_parsed(p, line, n) {
        Err(_) => {
            let none = Seq::<char>::empty();
            parser::lemma_empty_line(p, n);
            assert(source =~= none + line + source.skip(end));
            (none, line, source.skip(end))
        },
        Ok(q) => {
            let rest = source.skip(end + 1);
            let (b, l, a) = lemma_first_bad_line(q, rest, n + 1);
            let before = source.take(end + 1) + b;
            assert(source =~= source.take(end + 1) + rest);
            assert(before + l + a =~= source.take(end + 1) + (b + l + a));
            assert(forall|i: int| 0 <= i <= end ==> before[i] == source[i]);
            lexer::lemma_find_is(before, '\n', end);
            assert(before.take(end) =~= line);
            assert(before.skip(end + 1) =~= b);
            lemma_newlines_add(source.take(end + 1), b);
            lemma_no_newlines(line);
            assert(source.take(end + 1).drop_last() =~= line);
            if b.len() == 0 {
                assert(before.last() == source[end]);
            } else {
                assert(before.last() == b.last());
            }
            (before, l, a)
        },
    }
}

/// What is wrong with a text is said of the first line that is wrong, and begins with its number:
/// one more than lines end before it. All lines before it are taken.
pub proof fn law_messages_name_the_first_bad_line(source: Seq<char>) -> (r: (
    Seq<char>,
    Seq<char>,
    Seq<char>,
))
    requires
        parser::lines_parsed(
            Partial { out: Seq::empty(), frames: Seq::empty() },
            source,
            1,
        ) is Err,
    ensures
        source == r.0 + r.1 + r.2,
        is_line(r.0, r.1, r.2),
        ({
            let start = Partial { out: Seq::empty(), frames: Seq::empty() };
            let n = 1 + newlines(r.0);
            let code = lexer::code_of(r.1);
            &&& parser::lines_parsed(start, r.0, 1) matches Ok(q)
            &&& parser::statement(q, lexer::words_of(code), code, n) matches Err(m)
            &&& parser::parsed(source) == Err::<Seq<Action>, Seq<char>>(
                "line "@ + text::decimal(n) + ": "@ + m,
            )
        }),
{
    lemma_first_bad_line(Partial { out: Seq::empty(), frames: Seq::empty() }, source, 1)
}

/// A line, however long, is spelled by the words of its code, if it has any.
pub proof fn law_lines_are_spelled_by_their_words(line: Seq<char>)
    requires
        forall|i: int| 0 <= i < line.len() ==> line[i] != '\n',
    ensures
        lexer::code_of(line).len() == 0 ==> spelled(line).len() == 0,
        lexer::code_of(line).len() > 0 ==> spelled(line) == seq![
            lexer::words_of(lexer::code_of(line)),
        ],
{
    lexer::lemma_find_is(line, '\n', line.len() as int);
    assert(line.take(line.len() as int) =~= line);
    blocks::lemma_words_in_first(line, 1);
    if lexer::code_of(line).len() > 0 {
        assert(spelled(line) =~= seq![lexer::words_of(lexer::code_of(line))]);
    }
}

/// Lines one after the other are spelled one after the other, however many there are.
pub proof fn law_texts_are_spelled_line_by_line(a: Seq<char>, b: Seq<char>)
    ensures
        spelled(a + seq!['\n'] + b) == spelled(a) + spelled(b),
{
    blocks::lemma_words_in_both(a, b, 1);
}

} // verus!
