//! Programs as nested blocks, and the instructions that they become.

use vstd::prelude::*;
use crate::lexer;
use crate::parser;
use crate::parser::{Frame, Partial};
use crate::program::Action;

verus! {

/// A list of statements, first to last. Instructions and conditions are given by their words.
pub ghost enum Block {
    End,
    Do { words: Seq<Seq<char>>, rest: Box<Block> },
    If { cond: Seq<Seq<char>>, body: Box<Block>, rest: Box<Block> },
    IfElse { cond: Seq<Seq<char>>, body: Box<Block>, other: Box<Block>, rest: Box<Block> },
    While { cond: Seq<Seq<char>>, body: Box<Block>, rest: Box<Block> },
    Break { rest: Box<Block> },
    Continue { rest: Box<Block> },
}

/// True if every instruction and condition is one, and `break` and `continue` are in loops. For a
/// list that is itself in a loop, `in_loop` holds.
pub open spec fn proper(b: Block, in_loop: bool) -> bool
    decreases b,
{
    match b {
        Block::End => true,
        Block::Do { words, rest } => is_instruction(words) && proper(
            *rest,
            in_loop,
        ),
        Block::If { cond, body, rest } => is_condition(cond) && proper(*body, in_loop)
            && proper(*rest, in_loop),
        Block::IfElse { cond, body, other, rest } => is_condition(cond) && proper(
            *body,
            in_loop,
        ) && proper(*other, in_loop) && proper(*rest, in_loop),
        Block::While { cond, body, rest } => is_condition(cond) && proper(*body, true)
            && proper(*rest, in_loop),
        Block::Break { rest } => in_loop && proper(*rest, in_loop),
        Block::Continue { rest } => in_loop && proper(*rest, in_loop),
    }
}

/// The first line of a block with a condition.
pub open spec fn opening(word: Seq<char>, cond: Seq<Seq<char>>) -> Seq<Seq<char>> {
    seq![word] + cond + seq!["{"@]
}

/// The words of the lines that the statements are written in.
pub open spec fn written(b: Block) -> Seq<Seq<Seq<char>>>
    decreases b,
{
    match b {
        Block::End => Seq::empty(),
        Block::Do { words, rest } => seq![words] + written(*rest),
        Block::If { cond, body, rest } => seq![opening("if"@, cond)] + written(*body) + seq![
            seq!["}"@],
        ] + written(*rest),
        Block::IfElse { cond, body, other, rest } => seq![opening("if"@, cond)] + written(*body)
            + seq![seq!["}"@, "else"@, "{"@]] + written(*other) + seq![seq!["}"@]] + written(*rest),
        Block::While { cond, body, rest } => seq![opening("while"@, cond)] + written(*body) + seq![
            seq!["}"@],
        ] + written(*rest),
        Block::Break { rest } => seq![seq!["break"@]] + written(*rest),
        Block::Continue { rest } => seq![seq!["continue"@]] + written(*rest),
    }
}

/// The number of instructions that the statements become.
pub open spec fn size(b: Block) -> nat
    decreases b,
{
    match b {
        Block::End => 0,
        Block::Do { rest, .. } => 1 + size(*rest),
        Block::If { body, rest, .. } => 1 + size(*body) + size(*rest),
        Block::IfElse { body, other, rest, .. } => 1 + size(*body) + 1 + size(*other) + size(*rest),
        Block::While { body, rest, .. } => 1 + size(*body) + 1 + size(*rest),
        Block::Break { rest } => 1 + size(*rest),
        Block::Continue { rest } => 1 + size(*rest),
    }
}

/// The instruction that the words make.
#[verifier::opaque]
pub open spec fn instruction(words: Seq<Seq<char>>) -> Action {
    parser::action_of(words, Seq::empty())->Ok_0
}

/// True if the words make an instruction.
#[verifier::opaque]
pub open spec fn is_instruction(words: Seq<Seq<char>>) -> bool {
    parser::action_of(words, Seq::empty()) is Ok
}

/// True if the words make a condition.
#[verifier::opaque]
pub open spec fn is_condition(words: Seq<Seq<char>>) -> bool {
    parser::cond_expr_of(words) is Ok
}

/// The jump over or out of a block: to a place, if the condition as written does not hold.
#[verifier::opaque]
pub open spec fn jump_unless_held(cond: Seq<Seq<char>>, to: int) -> Action {
    parser::skip_jump(parser::cond_expr_of(cond)->Ok_0).retargeted(to as usize)
}

/// The instructions that the statements become when the first of them gets place `at`. In a loop,
/// `top` is the place of its condition and `end` the place behind it.
/// - `if`: the condition; the body. If the condition does not hold, on behind the body.
/// - `if` with `else`: the condition; the one body; a jump over the other; the other body. If the
///   condition does not hold, on with the other body.
/// - `while`: the condition; the body; a jump back to the condition. If it does not hold, on
///   behind the jump.
/// - `break` and `continue`: jumps behind the innermost loop and to its condition.
pub open spec fn compiled(b: Block, at: int, top: int, end: int) -> Seq<Action>
    decreases b,
{
    match b {
        Block::End => Seq::empty(),
        Block::Do { words, rest } => seq![instruction(words)] + compiled(
            *rest,
            at + 1,
            top,
            end,
        ),
        Block::If { cond, body, rest } => {
            let behind = at + 1 + size(*body);
            seq![jump_unless_held(cond, behind)] + compiled(*body, at + 1, top, end) + compiled(
                *rest,
                behind,
                top,
                end,
            )
        },
        Block::IfElse { cond, body, other, rest } => {
            let second = at + 1 + size(*body) + 1;
            let behind = second + size(*other);
            seq![jump_unless_held(cond, second)] + compiled(*body, at + 1, top, end) + seq![
                Action::Jump(behind as usize),
            ] + compiled(*other, second, top, end) + compiled(*rest, behind, top, end)
        },
        Block::While { cond, body, rest } => {
            let behind = at + 1 + size(*body) + 1;
            seq![jump_unless_held(cond, behind)] + compiled(*body, at + 1, at, behind) + seq![
                Action::Jump(at as usize),
            ] + compiled(*rest, behind, top, end)
        },
        Block::Break { rest } => seq![Action::Jump(end as usize)] + compiled(
            *rest,
            at + 1,
            top,
            end,
        ),
        Block::Continue { rest } => seq![Action::Jump(top as usize)] + compiled(
            *rest,
            at + 1,
            top,
            end,
        ),
    }
}

/// The places of the `break`s that leave the loop around the statements.
spec fn breaks_of(b: Block, at: int) -> Seq<usize>
    decreases b,
{
    match b {
        Block::End => Seq::empty(),
        Block::Do { rest, .. } => breaks_of(*rest, at + 1),
        Block::If { body, rest, .. } => breaks_of(*body, at + 1) + breaks_of(
            *rest,
            at + 1 + size(*body),
        ),
        Block::IfElse { body, other, rest, .. } => breaks_of(*body, at + 1) + breaks_of(
            *other,
            at + 2 + size(*body),
        ) + breaks_of(*rest, at + 2 + size(*body) + size(*other)),
        Block::While { body, rest, .. } => breaks_of(*rest, at + 2 + size(*body)),
        Block::Break { rest } => seq![at as usize] + breaks_of(*rest, at + 1),
        Block::Continue { rest } => breaks_of(*rest, at + 1),
    }
}

pub proof fn lemma_compiled_len(b: Block, at: int, top: int, end: int)
    ensures
        compiled(b, at, top, end).len() == size(b),
    decreases b,
{
    match b {
        Block::End => {},
        Block::Do { rest, .. } => {
            lemma_compiled_len(*rest, at + 1, top, end);
        },
        Block::If { body, rest, .. } => {
            lemma_compiled_len(*body, at + 1, top, end);
            lemma_compiled_len(*rest, at + 1 + size(*body), top, end);
        },
        Block::IfElse { body, other, rest, .. } => {
            let second = at + 1 + size(*body) + 1;
            lemma_compiled_len(*body, at + 1, top, end);
            lemma_compiled_len(*other, second, top, end);
            lemma_compiled_len(*rest, second + size(*other), top, end);
        },
        Block::While { body, rest, .. } => {
            let behind = at + 1 + size(*body) + 1;
            lemma_compiled_len(*body, at + 1, at, behind);
            lemma_compiled_len(*rest, behind, top, end);
        },
        Block::Break { rest } => {
            lemma_compiled_len(*rest, at + 1, top, end);
        },
        Block::Continue { rest } => {
            lemma_compiled_len(*rest, at + 1, top, end);
        },
    }
}

/// A line with code: its number, its words and the code itself.
pub ghost struct Line {
    pub number: nat,
    pub words: Seq<Seq<char>>,
    pub code: Seq<char>,
}

/// The lines of a text that have code; the first line of the text has number `n`.
pub open spec fn code_lines(text: Seq<char>, n: nat) -> Seq<Line>
    decreases text.len(),
{
    let end = lexer::find(text, '\n');
    let code = lexer::code_of(text.take(end));
    let here = if code.len() == 0 {
        Seq::empty()
    } else {
        seq![Line { number: n, words: lexer::words_of(code), code }]
    };
    if 0 <= end < text.len() {
        here + code_lines(text.skip(end + 1), n + 1)
    } else {
        here
    }
}

/// The words of lines.
pub open spec fn words_in(lines: Seq<Line>) -> Seq<Seq<Seq<char>>> {
    Seq::new(lines.len(), |i: int| lines[i].words)
}

/// What a line with code adds.
#[verifier::opaque]
pub open spec fn step(p: Partial, line: Line) -> Result<Partial, Seq<char>> {
    parser::statement(p, line.words, line.code, line.number)
}

/// What lines with code add.
pub open spec fn folded(p: Partial, lines: Seq<Line>) -> Result<Partial, Seq<char>>
    decreases lines.len(),
{
    if lines.len() == 0 {
        Ok(p)
    } else {
        match step(p, lines[0]) {
            Ok(q) => folded(q, lines.drop_first()),
            Err(e) => Err(parser::at_line(lines[0].number, e)),
        }
    }
}

/// Only lines with code matter.
pub proof fn lemma_folded(p: Partial, text: Seq<char>, n: nat)
    ensures
        parser::lines_parsed(p, text, n) == folded(p, code_lines(text, n)),
    decreases text.len(),
{
    let end = lexer::find(text, '\n');
    let code = lexer::code_of(text.take(end));
    let lines = code_lines(text, n);
    lexer::lemma_find(text, '\n');
    reveal_with_fuel(folded, 2);
    reveal(step);
    if code.len() == 0 {
        if end < text.len() {
            assert(lines =~= code_lines(text.skip(end + 1), n + 1));
            lemma_folded(p, text.skip(end + 1), n + 1);
        }
    } else {
        let words = lexer::words_of(code);
        if let Ok(q) = parser::statement(p, words, code, n) {
            if end < text.len() {
                lemma_folded(q, text.skip(end + 1), n + 1);
                assert(lines.drop_first() =~= code_lines(text.skip(end + 1), n + 1));
            } else {
                assert(lines.drop_first() =~= Seq::<Line>::empty());
            }
        }
    }
}

/// Lines can be taken in two goes.
proof fn lemma_folded_add(p: Partial, a: Seq<Line>, b: Seq<Line>)
    ensures
        folded(p, a + b) == (match folded(p, a) {
            Ok(q) => folded(q, b),
            Err(e) => Err(e),
        }),
    decreases a.len(),
{
    if a.len() == 0 {
        assert(a + b =~= b);
    } else {
        assert((a + b).drop_first() =~= a.drop_first() + b);
        if let Ok(q) = step(p, a[0]) {
            lemma_folded_add(q, a.drop_first(), b);
        }
    }
}

/// True if a place is in a list.
spec fn among(s: Seq<usize>, i: int) -> bool {
    exists|k: int| 0 <= k < s.len() && #[trigger] s[k] == i
}

proof fn lemma_among_add(a: Seq<usize>, b: Seq<usize>, i: int)
    ensures
        among(a + b, i) == (among(a, i) || among(b, i)),
{
    if among(a, i) {
        let k = choose|k: int| 0 <= k < a.len() && #[trigger] a[k] == i;
        assert((a + b)[k] == i);
    }
    if among(b, i) {
        let k = choose|k: int| 0 <= k < b.len() && #[trigger] b[k] == i;
        assert((a + b)[a.len() + k] == i);
    }
    if among(a + b, i) {
        let k = choose|k: int| 0 <= k < (a + b).len() && #[trigger] (a + b)[k] == i;
        if k < a.len() {
            assert(a[k] == i);
        } else {
            assert(b[k - a.len()] == i);
        }
    }
}

/// True if two lists of instructions, both from place `at` on, differ in nothing but the targets
/// of the jumps at the given places.
#[verifier::opaque]
spec fn agree(
    one: Seq<Action>,
    two: Seq<Action>,
    places: Seq<usize>,
    at: int,
    end1: int,
    end2: int,
) -> bool {
    &&& one.len() == two.len()
    &&& forall|i: int| #[trigger] among(places, i) ==> at <= i < at + one.len()
    &&& forall|i: int|
        0 <= i < one.len() ==> if among(places, at + i) {
            #[trigger] one[i] == Action::Jump(end1 as usize) && two[i] == Action::Jump(
                end2 as usize,
            )
        } else {
            one[i] == two[i]
        }
}

proof fn lemma_agree_same(s: Seq<Action>, at: int, end1: int, end2: int)
    ensures
        agree(s, s, Seq::empty(), at, end1, end2),
{
    reveal(agree);
}

proof fn lemma_agree_break(at: int, end1: int, end2: int)
    requires
        0 <= at <= usize::MAX,
    ensures
        agree(
            seq![Action::Jump(end1 as usize)],
            seq![Action::Jump(end2 as usize)],
            seq![at as usize],
            at,
            end1,
            end2,
        ),
{
    reveal(agree);
    let places = seq![at as usize];
    assert(places[0] == at);
    assert(among(places, at));
}

proof fn lemma_agree_add(
    a1: Seq<Action>,
    a2: Seq<Action>,
    pa: Seq<usize>,
    b1: Seq<Action>,
    b2: Seq<Action>,
    pb: Seq<usize>,
    at: int,
    end1: int,
    end2: int,
)
    requires
        agree(a1, a2, pa, at, end1, end2),
        agree(b1, b2, pb, at + a1.len(), end1, end2),
    ensures
        agree(a1 + b1, a2 + b2, pa + pb, at, end1, end2),
{
    reveal(agree);
    let (one, two, places) = (a1 + b1, a2 + b2, pa + pb);
    assert forall|i: int| #[trigger] among(places, i) implies at <= i < at + one.len() by {
        lemma_among_add(pa, pb, i);
    }
    assert forall|i: int| 0 <= i < one.len() implies if among(places, at + i) {
        #[trigger] one[i] == Action::Jump(end1 as usize) && two[i] == Action::Jump(end2 as usize)
    } else {
        one[i] == two[i]
    } by {
        lemma_among_add(pa, pb, at + i);
        if i < a1.len() {
            assert(one[i] == a1[i]);
            assert(!among(pb, at + i));
        } else {
            let k = i - a1.len();
            assert(one[i] == b1[k]);
            assert(!among(pa, at + i));
            assert(at + i == at + a1.len() + k);
        }
    }
}

/// Instructions in front that do not differ.
proof fn lemma_agree_after(
    first: Seq<Action>,
    one: Seq<Action>,
    two: Seq<Action>,
    places: Seq<usize>,
    at: int,
    end1: int,
    end2: int,
)
    requires
        agree(one, two, places, at + first.len(), end1, end2),
    ensures
        agree(first + one, first + two, places, at, end1, end2),
{
    let none = Seq::<usize>::empty();
    lemma_agree_same(first, at, end1, end2);
    lemma_agree_add(first, first, none, one, two, places, at, end1, end2);
    assert(none + places =~= places);
}

/// Where a loop ends matters to its `break`s only.
proof fn lemma_end_matters_to_breaks(b: Block, at: int, top: int, end1: int, end2: int)
    requires
        0 <= at,
        at + size(b) <= usize::MAX,
    ensures
        agree(
            compiled(b, at, top, end1),
            compiled(b, at, top, end2),
            breaks_of(b, at),
            at,
            end1,
            end2,
        ),
    decreases b,
{
    match b {
        Block::End => {
            lemma_agree_same(Seq::empty(), at, end1, end2);
        },
        Block::Do { words, rest } => {
            let first = seq![instruction(words)];
            let (r1, r2) = (compiled(*rest, at + 1, top, end1), compiled(*rest, at + 1, top, end2));
            lemma_end_matters_to_breaks(*rest, at + 1, top, end1, end2);
            lemma_agree_after(first, r1, r2, breaks_of(*rest, at + 1), at, end1, end2);
        },
        Block::If { cond, body, rest } => {
            let behind = at + 1 + size(*body);
            let first = seq![jump_unless_held(cond, behind)];
            let (b1, b2) = (compiled(*body, at + 1, top, end1), compiled(*body, at + 1, top, end2));
            let (r1, r2) = (compiled(*rest, behind, top, end1), compiled(*rest, behind, top, end2));
            let (pb, pr) = (breaks_of(*body, at + 1), breaks_of(*rest, behind));
            lemma_compiled_len(*body, at + 1, top, end1);
            lemma_end_matters_to_breaks(*body, at + 1, top, end1, end2);
            lemma_end_matters_to_breaks(*rest, behind, top, end1, end2);
            lemma_agree_add(b1, b2, pb, r1, r2, pr, at + 1, end1, end2);
            lemma_agree_after(first, b1 + r1, b2 + r2, pb + pr, at, end1, end2);
            assert(compiled(b, at, top, end1) =~= first + (b1 + r1));
            assert(compiled(b, at, top, end2) =~= first + (b2 + r2));
        },
        Block::IfElse { cond, body, other, rest } => {
            let second = at + 1 + size(*body) + 1;
            let behind = second + size(*other);
            let first = seq![jump_unless_held(cond, second)];
            let over = seq![Action::Jump(behind as usize)];
            let (b1, b2) = (compiled(*body, at + 1, top, end1), compiled(*body, at + 1, top, end2));
            let (o1, o2) = (
                compiled(*other, second, top, end1),
                compiled(*other, second, top, end2),
            );
            let (r1, r2) = (compiled(*rest, behind, top, end1), compiled(*rest, behind, top, end2));
            let pb = breaks_of(*body, at + 1);
            let po = breaks_of(*other, at + 2 + size(*body));
            let pr = breaks_of(*rest, at + 2 + size(*body) + size(*other));
            lemma_compiled_len(*body, at + 1, top, end1);
            lemma_compiled_len(*other, second, top, end1);
            lemma_end_matters_to_breaks(*body, at + 1, top, end1, end2);
            lemma_end_matters_to_breaks(*other, second, top, end1, end2);
            lemma_end_matters_to_breaks(*rest, behind, top, end1, end2);
            lemma_agree_add(o1, o2, po, r1, r2, pr, second, end1, end2);
            lemma_agree_after(over, o1 + r1, o2 + r2, po + pr, second - 1, end1, end2);
            lemma_agree_add(
                b1,
                b2,
                pb,
                over + (o1 + r1),
                over + (o2 + r2),
                po + pr,
                at + 1,
                end1,
                end2,
            );
            lemma_agree_after(
                first,
                b1 + (over + (o1 + r1)),
                b2 + (over + (o2 + r2)),
                pb + (po + pr),
                at,
                end1,
                end2,
            );
            assert(compiled(b, at, top, end1) =~= first + (b1 + (over + (o1 + r1))));
            assert(compiled(b, at, top, end2) =~= first + (b2 + (over + (o2 + r2))));
            assert(breaks_of(b, at) =~= pb + (po + pr));
        },
        Block::While { cond, body, rest } => {
            let behind = at + 1 + size(*body) + 1;
            let first = seq![jump_unless_held(cond, behind)] + compiled(*body, at + 1, at, behind)
                + seq![Action::Jump(at as usize)];
            let (r1, r2) = (compiled(*rest, behind, top, end1), compiled(*rest, behind, top, end2));
            lemma_compiled_len(*body, at + 1, at, behind);
            lemma_end_matters_to_breaks(*rest, behind, top, end1, end2);
            lemma_agree_after(first, r1, r2, breaks_of(*rest, behind), at, end1, end2);
        },
        Block::Break { rest } => {
            let (f1, f2) = (
                seq![Action::Jump(end1 as usize)],
                seq![Action::Jump(end2 as usize)],
            );
            let pf = seq![at as usize];
            let (r1, r2) = (compiled(*rest, at + 1, top, end1), compiled(*rest, at + 1, top, end2));
            lemma_agree_break(at, end1, end2);
            lemma_end_matters_to_breaks(*rest, at + 1, top, end1, end2);
            lemma_agree_add(f1, f2, pf, r1, r2, breaks_of(*rest, at + 1), at, end1, end2);
        },
        Block::Continue { rest } => {
            let first = seq![Action::Jump(top as usize)];
            let (r1, r2) = (compiled(*rest, at + 1, top, end1), compiled(*rest, at + 1, top, end2));
            lemma_end_matters_to_breaks(*rest, at + 1, top, end1, end2);
            lemma_agree_after(first, r1, r2, breaks_of(*rest, at + 1), at, end1, end2);
        },
    }
}

/// A loop with more `break`s.
spec fn more_breaks(f: Frame, places: Seq<usize>) -> Frame {
    match f {
        Frame::Loop { top, line, breaks } => Frame::Loop { top, line, breaks: breaks + places },
        _ => f,
    }
}

/// The place of the innermost loop.
spec fn inner(frames: Seq<Frame>) -> Option<int> {
    parser::innermost_loop(frames, frames.len() as int)
}

/// The open blocks with more `break`s of the innermost loop.
spec fn with_breaks(frames: Seq<Frame>, places: Seq<usize>) -> Seq<Frame> {
    match inner(frames) {
        Some(k) => frames.update(k, more_breaks(frames[k], places)),
        None => frames,
    }
}

/// Which block is the innermost loop depends on which of them are loops.
pub proof fn lemma_innermost_alike(a: Seq<Frame>, b: Seq<Frame>, n: int)
    requires
        n <= a.len(),
        n <= b.len(),
        forall|i: int| 0 <= i < n ==> (#[trigger] a[i] is Loop) == (b[i] is Loop),
    ensures
        parser::innermost_loop(a, n) == parser::innermost_loop(b, n),
    decreases n,
{
    if n > 0 {
        assert((a[n - 1] is Loop) == (b[n - 1] is Loop));
        lemma_innermost_alike(a, b, n - 1);
    }
}

/// The innermost loop stays where it is.
proof fn lemma_with_breaks(frames: Seq<Frame>, places: Seq<usize>)
    ensures
        with_breaks(frames, places).len() == frames.len(),
        inner(with_breaks(frames, places)) == inner(frames),
        inner(frames) matches Some(k) ==> 0 <= k < frames.len() && frames[k] is Loop
            && with_breaks(frames, places)[k] is Loop && with_breaks(frames, places)[k]->top
            == frames[k]->top,
{
    parser::lemma_innermost_loop(frames, frames.len() as int);
    lemma_innermost_alike(with_breaks(frames, places), frames, frames.len() as int);
}

proof fn lemma_with_no_breaks(frames: Seq<Frame>)
    ensures
        with_breaks(frames, Seq::empty()) == frames,
{
    parser::lemma_innermost_loop(frames, frames.len() as int);
    if let Some(k) = inner(frames) {
        assert(frames[k]->breaks + Seq::<usize>::empty() =~= frames[k]->breaks);
        assert(with_breaks(frames, Seq::empty()) =~= frames);
    }
}

proof fn lemma_with_breaks_twice(frames: Seq<Frame>, a: Seq<usize>, b: Seq<usize>)
    ensures
        with_breaks(with_breaks(frames, a), b) == with_breaks(frames, a + b),
{
    lemma_with_breaks(frames, a);
    if let Some(k) = inner(frames) {
        assert(frames[k]->breaks + a + b =~= frames[k]->breaks + (a + b));
        assert(with_breaks(with_breaks(frames, a), b) =~= with_breaks(frames, a + b));
    }
}

/// Within a block that is no loop, `break`s leave the loop around it.
proof fn lemma_with_breaks_under(frames: Seq<Frame>, f: Frame, places: Seq<usize>)
    requires
        !(f is Loop),
    ensures
        inner(frames.push(f)) == inner(frames),
        with_breaks(frames.push(f), places) == with_breaks(frames, places).push(f),
        inner(frames) matches Some(k) ==> frames.push(f)[k] == frames[k],
{
    let n = frames.len() as int;
    parser::lemma_innermost_loop(frames, n);
    lemma_innermost_alike(frames.push(f), frames, n);
    assert(with_breaks(frames.push(f), places) =~= with_breaks(frames, places).push(f));
}

/// Within a loop, `break`s leave that loop.
proof fn lemma_with_breaks_in_loop(frames: Seq<Frame>, f: Frame, places: Seq<usize>)
    requires
        f is Loop,
    ensures
        inner(frames.push(f)) == Some(frames.len() as int),
        with_breaks(frames.push(f), places) == frames.push(more_breaks(f, places)),
{
    assert(with_breaks(frames.push(f), places) =~= frames.push(more_breaks(f, places)));
}

/// No word that an instruction begins with is one that a block begins or ends with, or a jump.
proof fn lemma_instruction_words(w: Seq<char>)
    requires
        parser::word_action(w) is Some || parser::is_pickup_word(w) || parser::is_nav_word(w),
    ensures
        w != "if"@,
        w != "while"@,
        w != "break"@,
        w != "continue"@,
        w != "}"@,
{
    reveal_strlit("if");
    reveal_strlit("while");
    reveal_strlit("break");
    reveal_strlit("continue");
    reveal_strlit("}");
    reveal_strlit("n");
    reveal_strlit("north");
    reveal_strlit("up");
    reveal_strlit("s");
    reveal_strlit("south");
    reveal_strlit("down");
    reveal_strlit("e");
    reveal_strlit("east");
    reveal_strlit("right");
    reveal_strlit("w");
    reveal_strlit("west");
    reveal_strlit("left");
    reveal_strlit("wait");
    reveal_strlit("noop");
    reveal_strlit("pickup");
    reveal_strlit("grab");
    reveal_strlit("take");
    reveal_strlit("drop");
    reveal_strlit("deposit");
    reveal_strlit("deliver");
    reveal_strlit("navigate_to");
    reveal_strlit("goto");
    reveal_strlit("nav");
    assert("if"@.len() == 2 && "if"@[0] == 'i');
    assert("while"@.len() == 5 && "while"@[0] == 'w');
    assert("break"@.len() == 5 && "break"@[0] == 'b');
    assert("continue"@.len() == 8);
    assert("}"@.len() == 1 && "}"@[0] == '}');
    assert("n"@.len() == 1 && "n"@[0] == 'n');
    assert("north"@.len() == 5 && "north"@[0] == 'n');
    assert("up"@.len() == 2 && "up"@[0] == 'u');
    assert("s"@.len() == 1 && "s"@[0] == 's');
    assert("south"@.len() == 5 && "south"@[0] == 's');
    assert("down"@.len() == 4);
    assert("e"@.len() == 1 && "e"@[0] == 'e');
    assert("east"@.len() == 4);
    assert("right"@.len() == 5 && "right"@[0] == 'r');
    assert("w"@.len() == 1 && "w"@[0] == 'w');
    assert("west"@.len() == 4);
    assert("left"@.len() == 4);
    assert("wait"@.len() == 4);
    assert("noop"@.len() == 4);
    assert("pickup"@.len() == 6);
    assert("grab"@.len() == 4);
    assert("take"@.len() == 4);
    assert("drop"@.len() == 4);
    assert("deposit"@.len() == 7);
    assert("deliver"@.len() == 7);
    assert("navigate_to"@.len() == 11);
    assert("goto"@.len() == 4);
    assert("nav"@.len() == 3);
}

/// The line of an instruction.
proof fn lemma_line_do(p: Partial, line: Line)
    requires
        is_instruction(line.words),
    ensures
        step(p, line) == Ok::<Partial, Seq<char>>(
            Partial { out: p.out.push(instruction(line.words)), ..p },
        ),
{
    reveal(step);
    reveal(is_instruction);
    reveal(instruction);
    lemma_instruction_words(line.words[0]);
}

/// The first line of a block with a condition.
proof fn lemma_line_open(p: Partial, line: Line, cond: Seq<Seq<char>>, is_loop: bool)
    requires
        is_condition(cond),
        line.words == opening(
            if is_loop {
                "while"@
            } else {
                "if"@
            },
            cond,
        ),
    ensures
        ({
            let jump = parser::skip_jump(parser::cond_expr_of(cond)->Ok_0);
            let n = p.out.len() as int;
            let f = if is_loop {
                Frame::Loop { top: n, line: line.number, breaks: Seq::empty() }
            } else {
                Frame::If { jump: n, line: line.number }
            };
            step(p, line) == Ok::<Partial, Seq<char>>(
                Partial { out: p.out.push(jump), frames: p.frames.push(f) },
            )
        }),
{
    reveal(step);
    reveal(is_condition);
    reveal_strlit("if");
    reveal_strlit("while");
    assert("if"@.len() == 2 && "while"@.len() == 5);
    let words = line.words;
    assert(words.last() == "{"@);
    assert(words.subrange(1, words.len() - 1) =~= cond);
}

/// The last line of a block.
proof fn lemma_line_close(p: Partial, line: Line)
    requires
        p.frames.len() > 0,
        line.words == seq!["}"@],
    ensures
        step(p, line) == Ok::<Partial, Seq<char>>(
            parser::closed_block(p),
        ),
{
    reveal(step);
    reveal_strlit("break");
    reveal_strlit("continue");
    reveal_strlit("}");
    assert("break"@.len() == 5 && "continue"@.len() == 8 && "}"@.len() == 1);
}

/// The line between the two bodies.
proof fn lemma_line_else(p: Partial, line: Line)
    requires
        p.frames.len() > 0,
        p.frames.last() is If,
        line.words == seq!["}"@, "else"@, "{"@],
    ensures
        step(p, line) == Ok::<Partial, Seq<char>>(
            parser::turned_to_else(p, line.number),
        ),
{
    reveal(step);
    reveal_strlit("if");
    reveal_strlit("while");
    reveal_strlit("}");
    assert("if"@.len() == 2 && "while"@.len() == 5 && "}"@.len() == 1);
}

/// The lines of the jumps within a loop.
proof fn lemma_line_jumps(p: Partial, line: Line)
    requires
        inner(p.frames) is Some,
    ensures
        line.words == seq!["break"@] ==> step(p, line)
            == Ok::<Partial, Seq<char>>(
            Partial {
                out: p.out.push(Action::Jump(usize::MAX)),
                frames: with_breaks(p.frames, seq![p.out.len() as usize]),
            },
        ),
        line.words == seq!["continue"@] ==> step(p, line)
            == Ok::<Partial, Seq<char>>(
            Partial {
                out: p.out.push(Action::Jump(p.frames[inner(p.frames)->0]->top as usize)),
                ..p
            },
        ),
{
    reveal(step);
    reveal_strlit("break");
    reveal_strlit("continue");
    assert("break"@.len() == 5 && "continue"@.len() == 8);
    parser::lemma_innermost_loop(p.frames, p.frames.len() as int);
    let f = p.frames[inner(p.frames)->0];
    let n = p.out.len() as usize;
    assert(parser::with_break(f, n) =~= more_breaks(f, seq![n])) by {
        assert(f->breaks.push(n) =~= f->breaks + seq![n]);
    }
}

/// Landing one jump.
proof fn lemma_land_one(out: Seq<Action>, f: Frame, at: int)
    requires
        0 <= at < out.len(),
        !(f is Loop),
        parser::awaits(f, at),
    ensures
        parser::landed(out, f) == out.update(at, out[at].retargeted(out.len() as usize)),
{
    assert(parser::landed(out, f) =~= out.update(at, out[at].retargeted(out.len() as usize)));
}

/// Closing an `if` without `else`.
proof fn lemma_close_if(
    before: Seq<Action>,
    jump: Action,
    body: Seq<Action>,
    frames: Seq<Frame>,
    f: Frame,
)
    requires
        f is If,
        parser::awaits(f, before.len() as int),
    ensures
        parser::closed_block(
            Partial { out: before.push(jump) + body, frames: frames.push(f) },
        ) == (Partial {
            out: before + (seq![jump.retargeted((before.len() + 1 + body.len()) as usize)] + body),
            frames,
        }),
{
    let out = before.push(jump) + body;
    let n = before.len() as int;
    lemma_land_one(out, f, n);
    assert(out[n] == jump);
    assert(parser::landed(out, f) =~= before + (seq![
        jump.retargeted((before.len() + 1 + body.len()) as usize),
    ] + body));
    assert(frames.push(f).drop_last() =~= frames);
}

/// Turning from the one body to the other.
proof fn lemma_turn(
    before: Seq<Action>,
    jump: Action,
    body: Seq<Action>,
    frames: Seq<Frame>,
    f: Frame,
    line: nat,
)
    requires
        f is If,
        parser::awaits(f, before.len() as int),
    ensures
        parser::turned_to_else(
            Partial { out: before.push(jump) + body, frames: frames.push(f) },
            line,
        ) == (Partial {
            out: (before + (seq![jump.retargeted((before.len() + 1 + body.len() + 1) as usize)]
                + body)).push(Action::Jump(usize::MAX)),
            frames: frames.push(
                Frame::Else { jump: (before.len() + 1 + body.len()) as int, line },
            ),
        }),
{
    let out = (before.push(jump) + body).push(Action::Jump(usize::MAX));
    let n = before.len() as int;
    lemma_land_one(out, f, n);
    assert(out[n] == jump);
    assert(parser::landed(out, f) =~= (before + (seq![
        jump.retargeted((before.len() + 1 + body.len() + 1) as usize),
    ] + body)).push(Action::Jump(usize::MAX)));
    assert(frames.push(f).drop_last() =~= frames);
}

/// Closing an `else`.
proof fn lemma_close_else(before: Seq<Action>, other: Seq<Action>, frames: Seq<Frame>, f: Frame)
    requires
        f is Else,
        parser::awaits(f, before.len() as int),
    ensures
        parser::closed_block(
            Partial {
                out: before.push(Action::Jump(usize::MAX)) + other,
                frames: frames.push(f),
            },
        ) == (Partial {
            out: before + (seq![Action::Jump((before.len() + 1 + other.len()) as usize)] + other),
            frames,
        }),
{
    let out = before.push(Action::Jump(usize::MAX)) + other;
    let n = before.len() as int;
    lemma_land_one(out, f, n);
    assert(out[n] == Action::Jump(usize::MAX));
    assert(parser::landed(out, f) =~= before + (seq![
        Action::Jump((before.len() + 1 + other.len()) as usize),
    ] + other));
    assert(frames.push(f).drop_last() =~= frames);
}

/// What waits for a loop: the jump at its top, and its `break`s.
proof fn lemma_loop_awaits(top: int, line: nat, places: Seq<usize>, i: int)
    ensures
        parser::awaits(Frame::Loop { top, line, breaks: places }, i) == (i == top || among(
            places,
            i,
        )),
{
    let f = Frame::Loop { top, line, breaks: places };
    if among(places, i) {
        let k = choose|k: int| 0 <= k < places.len() && #[trigger] places[k] == i;
        assert(f->breaks[k] == i);
    }
    if parser::awaits(f, i) && i != top {
        let k = choose|k: int| 0 <= k < f->breaks.len() && #[trigger] f->breaks[k] == i;
        assert(places[k] == i);
    }
}

/// Closing a `while`.
proof fn lemma_close_while(
    before: Seq<Action>,
    jump: Action,
    raw: Seq<Action>,
    body: Seq<Action>,
    places: Seq<usize>,
    frames: Seq<Frame>,
    line: nat,
)
    requires
        agree(
            raw,
            body,
            places,
            before.len() as int + 1,
            usize::MAX as int,
            before.len() as int + 1 + raw.len() + 1,
        ),
        before.len() + 1 + raw.len() + 1 <= usize::MAX,
    ensures
        ({
            let n = before.len() as int;
            let f = Frame::Loop { top: n, line, breaks: places };
            parser::closed_block(
                Partial { out: before.push(jump) + raw, frames: frames.push(f) },
            ) == (Partial {
                out: before + (seq![jump.retargeted((n + 1 + raw.len() + 1) as usize)] + body
                    + seq![Action::Jump(n as usize)]),
                frames,
            })
        }),
{
    reveal(agree);
    let n = before.len() as int;
    let f = Frame::Loop { top: n, line, breaks: places };
    let out = (before.push(jump) + raw).push(Action::Jump(n as usize));
    let end = n + 1 + raw.len() + 1;
    let expected = before + (seq![jump.retargeted(end as usize)] + body + seq![
        Action::Jump(n as usize),
    ]);
    assert forall|i: int| 0 <= i < out.len() implies #[trigger] parser::landed(out, f)[i]
        == expected[i] by {
        lemma_loop_awaits(n, line, places, i);
        if n < i <= n + raw.len() {
            let k = i - n - 1;
            assert(out[i] == raw[k]);
            assert(expected[i] == body[k]);
            assert(n + 1 + k == i);
        }
    }
    assert(parser::landed(out, f) =~= expected);
    assert(frames.push(f).drop_last() =~= frames);
}

/// True if the lines have the given words.
pub open spec fn spells(lines: Seq<Line>, texts: Seq<Seq<Seq<char>>>) -> bool {
    &&& lines.len() == texts.len()
    &&& forall|i: int| 0 <= i < lines.len() ==> (#[trigger] lines[i]).words == texts[i]
}

/// Lines that spell two texts are taken in two goes.
proof fn lemma_part(
    p: Partial,
    lines: Seq<Line>,
    a: Seq<Seq<Seq<char>>>,
    b: Seq<Seq<Seq<char>>>,
) -> (parts: (Seq<Line>, Seq<Line>))
    requires
        spells(lines, a + b),
    ensures
        spells(parts.0, a),
        spells(parts.1, b),
        folded(p, lines) == (match folded(p, parts.0) {
            Ok(q) => folded(q, parts.1),
            Err(e) => Err(e),
        }),
{
    let n = a.len() as int;
    let parts = (lines.take(n), lines.skip(n));
    assert(parts.0 + parts.1 =~= lines);
    lemma_folded_add(p, parts.0, parts.1);
    assert forall|i: int| 0 <= i < parts.1.len() implies (#[trigger] parts.1[i]).words == b[i] by {
        assert(lines[i + n].words == (a + b)[i + n]);
    }
    parts
}

/// One line.
proof fn lemma_one(p: Partial, lines: Seq<Line>, words: Seq<Seq<char>>)
    requires
        spells(lines, seq![words]),
    ensures
        lines[0].words == words,
        step(p, lines[0]) matches Ok(q) ==> folded(p, lines) == Ok::<Partial, Seq<char>>(q),
{
    reveal_with_fuel(folded, 2);
    assert(lines[0].words == seq![words][0]);
}

/// What is made of the statements while the loop around them is open.
spec fn done(p: Partial, b: Block, top: int) -> Partial {
    Partial {
        out: p.out + compiled(b, p.out.len() as int, top, usize::MAX as int),
        frames: with_breaks(p.frames, breaks_of(b, p.out.len() as int)),
    }
}

/// What the induction is about: lines that spell proper statements become the instructions of
/// these. In a loop, `top` is its place.
spec fn compiles(p: Partial, b: Block, in_loop: bool, top: int, lines: Seq<Line>) -> bool {
    &&& spells(lines, written(b))
    &&& proper(b, in_loop)
    &&& in_loop ==> (inner(p.frames) matches Some(k) && p.frames[k]->top == top)
    &&& p.out.len() + size(b) <= usize::MAX
}

/// The case of an `if` without `else`.
proof fn lemma_block_if(p: Partial, b: Block, in_loop: bool, top: int, lines: Seq<Line>)
    requires
        compiles(p, b, in_loop, top, lines),
        b is If,
    ensures
        folded(p, lines) == Ok::<Partial, Seq<char>>(done(p, b, top)),
    decreases b, 0int,
{
    let n = p.out.len() as int;
    let max = usize::MAX as int;
    let cond = b->If_cond;
    let body = *b->If_body;
    let rest = *b->If_rest;
    let open = seq![opening("if"@, cond)];
    let close = seq![seq!["}"@]];
    let (l012, l3) = lemma_part(p, lines, open + written(body) + close, written(rest));
    let (l01, l2) = lemma_part(p, l012, open + written(body), close);
    let (l0, l1) = lemma_part(p, l01, open, written(body));
    lemma_one(p, l0, opening("if"@, cond));
    lemma_line_open(p, l0[0], cond, false);
    let jump = parser::skip_jump(parser::cond_expr_of(cond)->Ok_0);
    let f = Frame::If { jump: n, line: l0[0].number };
    let p1 = Partial { out: p.out.push(jump), frames: p.frames.push(f) };
    let places = breaks_of(body, n + 1);
    lemma_with_breaks_under(p.frames, f, places);
    lemma_block(p1, body, in_loop, top, l1);
    let q1 = done(p1, body, top);
    let code = compiled(body, n + 1, top, max);
    lemma_compiled_len(body, n + 1, top, max);
    let frames = with_breaks(p.frames, places);
    lemma_one(q1, l2, seq!["}"@]);
    lemma_line_close(q1, l2[0]);
    lemma_close_if(p.out, jump, code, frames, f);
    let p2 = parser::closed_block(q1);
    lemma_with_breaks(p.frames, places);
    lemma_block(p2, rest, in_loop, top, l3);
    reveal(jump_unless_held);
    lemma_with_breaks_twice(p.frames, places, breaks_of(rest, n + 1 + size(body)));
    assert(done(p2, rest, top).out =~= done(p, b, top).out);
}

/// The case of an `if` with `else`.
#[verifier::rlimit(30)]
proof fn lemma_block_if_else(p: Partial, b: Block, in_loop: bool, top: int, lines: Seq<Line>)
    requires
        compiles(p, b, in_loop, top, lines),
        b is IfElse,
    ensures
        folded(p, lines) == Ok::<Partial, Seq<char>>(done(p, b, top)),
    decreases b, 0int,
{
    let n = p.out.len() as int;
    let max = usize::MAX as int;
    let cond = b->IfElse_cond;
    let body = *b->IfElse_body;
    let other = *b->IfElse_other;
    let rest = *b->IfElse_rest;
    let open = seq![opening("if"@, cond)];
    let turn = seq![seq!["}"@, "else"@, "{"@]];
    let close = seq![seq!["}"@]];
    let (l01234, l5) = lemma_part(
        p,
        lines,
        open + written(body) + turn + written(other) + close,
        written(rest),
    );
    let (l0123, l4) = lemma_part(p, l01234, open + written(body) + turn + written(other), close);
    let (l012, l3) = lemma_part(p, l0123, open + written(body) + turn, written(other));
    let (l01, l2) = lemma_part(p, l012, open + written(body), turn);
    let (l0, l1) = lemma_part(p, l01, open, written(body));
    lemma_one(p, l0, opening("if"@, cond));
    lemma_line_open(p, l0[0], cond, false);
    let jump = parser::skip_jump(parser::cond_expr_of(cond)->Ok_0);
    let f = Frame::If { jump: n, line: l0[0].number };
    let p1 = Partial { out: p.out.push(jump), frames: p.frames.push(f) };
    let places1 = breaks_of(body, n + 1);
    lemma_with_breaks_under(p.frames, f, places1);
    lemma_block(p1, body, in_loop, top, l1);
    let q1 = done(p1, body, top);
    let code1 = compiled(body, n + 1, top, max);
    lemma_compiled_len(body, n + 1, top, max);
    let frames1 = with_breaks(p.frames, places1);
    lemma_with_breaks(p.frames, places1);
    lemma_one(q1, l2, seq!["}"@, "else"@, "{"@]);
    lemma_line_else(q1, l2[0]);
    lemma_turn(p.out, jump, code1, frames1, f, l2[0].number);
    let p2 = parser::turned_to_else(q1, l2[0].number);
    let m = n + 1 + size(body);
    let g = Frame::Else { jump: m, line: l2[0].number };
    let places2 = breaks_of(other, m + 1);
    lemma_with_breaks_under(frames1, g, places2);
    lemma_block(p2, other, in_loop, top, l3);
    let q2 = done(p2, other, top);
    let code2 = compiled(other, m + 1, top, max);
    lemma_compiled_len(other, m + 1, top, max);
    let frames2 = with_breaks(frames1, places2);
    lemma_with_breaks(frames1, places2);
    lemma_one(q2, l4, seq!["}"@]);
    lemma_line_close(q2, l4[0]);
    let front = p.out + (seq![jump.retargeted((m + 1) as usize)] + code1);
    lemma_close_else(front, code2, frames2, g);
    let p3 = parser::closed_block(q2);
    lemma_block(p3, rest, in_loop, top, l5);
    reveal(jump_unless_held);
    let places3 = breaks_of(rest, m + 1 + size(other));
    lemma_with_breaks_twice(p.frames, places1, places2);
    lemma_with_breaks_twice(p.frames, places1 + places2, places3);
    assert(done(p3, rest, top).out =~= done(p, b, top).out);
}

/// The case of a `while`.
proof fn lemma_block_while(p: Partial, b: Block, in_loop: bool, top: int, lines: Seq<Line>)
    requires
        compiles(p, b, in_loop, top, lines),
        b is While,
    ensures
        folded(p, lines) == Ok::<Partial, Seq<char>>(done(p, b, top)),
    decreases b, 0int,
{
    let n = p.out.len() as int;
    let max = usize::MAX as int;
    let cond = b->While_cond;
    let body = *b->While_body;
    let rest = *b->While_rest;
    let open = seq![opening("while"@, cond)];
    let close = seq![seq!["}"@]];
    let (l012, l3) = lemma_part(p, lines, open + written(body) + close, written(rest));
    let (l01, l2) = lemma_part(p, l012, open + written(body), close);
    let (l0, l1) = lemma_part(p, l01, open, written(body));
    lemma_one(p, l0, opening("while"@, cond));
    lemma_line_open(p, l0[0], cond, true);
    let jump = parser::skip_jump(parser::cond_expr_of(cond)->Ok_0);
    let none = Seq::<usize>::empty();
    let f = Frame::Loop { top: n, line: l0[0].number, breaks: none };
    let p1 = Partial { out: p.out.push(jump), frames: p.frames.push(f) };
    let places = breaks_of(body, n + 1);
    lemma_with_breaks_in_loop(p.frames, f, places);
    lemma_block(p1, body, true, n, l1);
    let q1 = done(p1, body, n);
    assert(none + places =~= places);
    let behind = n + 1 + size(body) + 1;
    let raw = compiled(body, n + 1, n, max);
    let code = compiled(body, n + 1, n, behind);
    lemma_compiled_len(body, n + 1, n, max);
    lemma_compiled_len(body, n + 1, n, behind);
    lemma_end_matters_to_breaks(body, n + 1, n, max, behind);
    lemma_one(q1, l2, seq!["}"@]);
    lemma_line_close(q1, l2[0]);
    lemma_close_while(p.out, jump, raw, code, places, p.frames, l0[0].number);
    let p2 = parser::closed_block(q1);
    lemma_block(p2, rest, in_loop, top, l3);
    reveal(jump_unless_held);
    assert(done(p2, rest, top).out =~= done(p, b, top).out);
}

proof fn lemma_block(p: Partial, b: Block, in_loop: bool, top: int, lines: Seq<Line>)
    requires
        compiles(p, b, in_loop, top, lines),
    ensures
        folded(p, lines) == Ok::<Partial, Seq<char>>(done(p, b, top)),
    decreases b, 1int,
{
    let n = p.out.len() as int;
    let max = usize::MAX as int;
    match b {
        Block::End => {
            lemma_with_no_breaks(p.frames);
            assert(p.out + compiled(b, n, top, max) =~= p.out);
        },
        Block::Do { words, rest } => {
            let (l0, l1) = lemma_part(p, lines, seq![words], written(*rest));
            lemma_one(p, l0, words);
            lemma_line_do(p, l0[0]);
            let q = Partial { out: p.out.push(instruction(words)), ..p };
            lemma_block(q, *rest, in_loop, top, l1);
            assert(done(q, *rest, top).out =~= done(p, b, top).out);
        },
        Block::Break { rest } => {
            let (l0, l1) = lemma_part(p, lines, seq![seq!["break"@]], written(*rest));
            lemma_one(p, l0, seq!["break"@]);
            lemma_line_jumps(p, l0[0]);
            let here = seq![n as usize];
            let q = Partial {
                out: p.out.push(Action::Jump(usize::MAX)),
                frames: with_breaks(p.frames, here),
            };
            lemma_with_breaks(p.frames, here);
            lemma_block(q, *rest, in_loop, top, l1);
            lemma_with_breaks_twice(p.frames, here, breaks_of(*rest, n + 1));
            assert(done(q, *rest, top).out =~= done(p, b, top).out);
        },
        Block::Continue { rest } => {
            let (l0, l1) = lemma_part(p, lines, seq![seq!["continue"@]], written(*rest));
            lemma_one(p, l0, seq!["continue"@]);
            lemma_line_jumps(p, l0[0]);
            let q = Partial { out: p.out.push(Action::Jump(top as usize)), ..p };
            lemma_block(q, *rest, in_loop, top, l1);
            assert(done(q, *rest, top).out =~= done(p, b, top).out);
        },
        Block::If { .. } => {
            lemma_block_if(p, b, in_loop, top, lines);
        },
        Block::IfElse { .. } => {
            lemma_block_if_else(p, b, in_loop, top, lines);
        },
        Block::While { .. } => {
            lemma_block_while(p, b, in_loop, top, lines);
        },
    }
}

/// Without a loop around them, proper statements have no `break`s to leave it, and it does not
/// matter where it would begin and end.
proof fn lemma_no_breaks(b: Block, at: int, top1: int, end1: int, top2: int, end2: int)
    requires
        proper(b, false),
    ensures
        breaks_of(b, at) == Seq::<usize>::empty(),
        compiled(b, at, top1, end1) == compiled(b, at, top2, end2),
    decreases b,
{
    match b {
        Block::End => {},
        Block::Do { rest, .. } => {
            lemma_no_breaks(*rest, at + 1, top1, end1, top2, end2);
        },
        Block::If { body, rest, .. } => {
            lemma_no_breaks(*body, at + 1, top1, end1, top2, end2);
            lemma_no_breaks(*rest, at + 1 + size(*body), top1, end1, top2, end2);
        },
        Block::IfElse { body, other, rest, .. } => {
            let second = at + 1 + size(*body) + 1;
            lemma_no_breaks(*body, at + 1, top1, end1, top2, end2);
            lemma_no_breaks(*other, second, top1, end1, top2, end2);
            lemma_no_breaks(*rest, second + size(*other), top1, end1, top2, end2);
        },
        Block::While { body, rest, .. } => {
            lemma_no_breaks(*rest, at + 1 + size(*body) + 1, top1, end1, top2, end2);
        },
        _ => {},
    }
}

/// A text whose lines with code spell proper statements is a program, and its instructions are
/// those of the statements.
pub proof fn law_blocks_become_jumps(source: Seq<char>, b: Block)
    requires
        spells(code_lines(source, 1), written(b)),
        proper(b, false),
        0 < size(b) <= usize::MAX,
    ensures
        parser::parsed(source) == Ok::<Seq<Action>, Seq<char>>(compiled(b, 0, 0, 0)),
{
    let p = Partial { out: Seq::empty(), frames: Seq::empty() };
    let max = usize::MAX as int;
    lemma_folded(p, source, 1);
    lemma_block(p, b, false, 0, code_lines(source, 1));
    lemma_no_breaks(b, 0, 0, max, 0, 0);
    lemma_compiled_len(b, 0, 0, 0);
    assert(p.out + compiled(b, 0, 0, max) =~= compiled(b, 0, 0, 0));
}

/// A list of statements, followed by another.
spec fn joined(a: Block, b: Block) -> Block
    decreases a,
{
    match a {
        Block::End => b,
        Block::Do { words, rest } => Block::Do { words, rest: Box::new(joined(*rest, b)) },
        Block::If { cond, body, rest } => Block::If {
            cond,
            body,
            rest: Box::new(joined(*rest, b)),
        },
        Block::IfElse { cond, body, other, rest } => Block::IfElse {
            cond,
            body,
            other,
            rest: Box::new(joined(*rest, b)),
        },
        Block::While { cond, body, rest } => Block::While {
            cond,
            body,
            rest: Box::new(joined(*rest, b)),
        },
        Block::Break { rest } => Block::Break { rest: Box::new(joined(*rest, b)) },
        Block::Continue { rest } => Block::Continue { rest: Box::new(joined(*rest, b)) },
    }
}

proof fn lemma_joined(a: Block, b: Block, in_loop: bool)
    ensures
        written(joined(a, b)) == written(a) + written(b),
        proper(joined(a, b), in_loop) == (proper(a, in_loop) && proper(b, in_loop)),
        size(joined(a, b)) == size(a) + size(b),
    decreases a,
{
    match a {
        Block::End => {
            assert(written(a) + written(b) =~= written(b));
        },
        Block::Do { rest, .. } => {
            lemma_joined(*rest, b, in_loop);
        },
        Block::If { rest, .. } => {
            lemma_joined(*rest, b, in_loop);
        },
        Block::IfElse { rest, .. } => {
            lemma_joined(*rest, b, in_loop);
        },
        Block::While { rest, .. } => {
            lemma_joined(*rest, b, in_loop);
        },
        Block::Break { rest } => {
            lemma_joined(*rest, b, in_loop);
        },
        Block::Continue { rest } => {
            lemma_joined(*rest, b, in_loop);
        },
    }
    assert(written(joined(a, b)) =~= written(a) + written(b));
}

/// A block that is open: the statements in front of it, its condition, and, in an `else`, the
/// body that was closed before it.
ghost enum Open {
    If { before: Block, cond: Seq<Seq<char>> },
    Else { before: Block, cond: Seq<Seq<char>>, body: Block },
    Loop { before: Block, cond: Seq<Seq<char>> },
}

/// The lines of an open block, up to where its statements begin.
spec fn head(o: Open) -> Seq<Seq<Seq<char>>> {
    match o {
        Open::If { before, cond } => written(before) + seq![opening("if"@, cond)],
        Open::Else { before, cond, body } => written(before) + seq![opening("if"@, cond)] + written(
            body,
        ) + seq![seq!["}"@, "else"@, "{"@]],
        Open::Loop { before, cond } => written(before) + seq![opening("while"@, cond)],
    }
}

/// The lines of open blocks.
spec fn heads(open: Seq<Open>) -> Seq<Seq<Seq<char>>>
    decreases open.len(),
{
    if open.len() == 0 {
        Seq::empty()
    } else {
        heads(open.drop_last()) + head(open.last())
    }
}

/// The number of instructions that open blocks have become, up to where their statements begin.
spec fn heads_size(open: Seq<Open>) -> nat
    decreases open.len(),
{
    if open.len() == 0 {
        0
    } else {
        heads_size(open.drop_last()) + match open.last() {
            Open::If { before, .. } => size(before) + 1,
            Open::Else { before, body, .. } => size(before) + 1 + size(body) + 1,
            Open::Loop { before, .. } => size(before) + 1,
        }
    }
}

/// True if one of the open blocks is a loop.
spec fn looped(open: Seq<Open>) -> bool
    decreases open.len(),
{
    open.len() > 0 && (open.last() is Loop || looped(open.drop_last()))
}

/// True if what the open blocks hold is proper.
spec fn all_proper(open: Seq<Open>) -> bool
    decreases open.len(),
{
    open.len() > 0 ==> {
        let outer = looped(open.drop_last());
        &&& all_proper(open.drop_last())
        &&& match open.last() {
            Open::If { before, cond } => proper(before, outer) && is_condition(cond),
            Open::Else { before, cond, body } => proper(before, outer) && is_condition(cond)
                && proper(body, outer),
            Open::Loop { before, cond } => proper(before, outer) && is_condition(cond),
        }
    }
}

/// True if the open blocks are those that the compiler keeps.
spec fn same_kinds(open: Seq<Open>, frames: Seq<Frame>) -> bool {
    &&& open.len() == frames.len()
    &&& forall|i: int|
        0 <= i < open.len() ==> match #[trigger] open[i] {
            Open::If { .. } => frames[i] is If,
            Open::Else { .. } => frames[i] is Else,
            Open::Loop { .. } => frames[i] is Loop,
        }
}

/// True if the compiler, with the given blocks open, has taken lines that spell proper statements.
spec fn taken(p: Partial, open: Seq<Open>, now: Block, texts: Seq<Seq<Seq<char>>>) -> bool {
    &&& same_kinds(open, p.frames)
    &&& all_proper(open)
    &&& proper(now, looped(open))
    &&& texts == heads(open) + written(now)
    &&& p.out.len() == heads_size(open) + size(now)
}

/// There is an innermost loop if one of the open blocks is a loop.
proof fn lemma_looped(open: Seq<Open>, frames: Seq<Frame>, n: int)
    requires
        same_kinds(open, frames),
        0 <= n <= open.len(),
    ensures
        (parser::innermost_loop(frames, n) is Some) == looped(open.take(n)),
    decreases n,
{
    if n > 0 {
        lemma_looped(open, frames, n - 1);
        assert(open.take(n).drop_last() =~= open.take(n - 1));
        assert(open.take(n).last() == open[n - 1]);
    }
}

/// One more statement.
proof fn lemma_take_statement(
    p: Partial,
    q: Partial,
    open: Seq<Open>,
    now: Block,
    texts: Seq<Seq<Seq<char>>>,
    one: Block,
    words: Seq<Seq<char>>,
)
    requires
        taken(p, open, now, texts),
        same_kinds(open, q.frames),
        proper(one, looped(open)),
        written(one) == seq![words],
        size(one) == 1,
        q.out.len() == p.out.len() + 1,
    ensures
        taken(q, open, joined(now, one), texts.push(words)),
{
    lemma_joined(now, one, looped(open));
    assert(texts.push(words) =~= heads(open) + written(joined(now, one)));
}

/// One more open block.
proof fn lemma_take_opening(
    p: Partial,
    q: Partial,
    open: Seq<Open>,
    now: Block,
    texts: Seq<Seq<Seq<char>>>,
    o: Open,
    words: Seq<Seq<char>>,
)
    requires
        taken(p, open, now, texts),
        same_kinds(open.push(o), q.frames),
        all_proper(open.push(o)),
        head(o) == written(now).push(words),
        o matches Open::If { before, .. } ==> before == now,
        o matches Open::Loop { before, .. } ==> before == now,
        !(o is Else),
        q.out.len() == p.out.len() + 1,
    ensures
        taken(q, open.push(o), Block::End, texts.push(words)),
{
    assert(open.push(o).drop_last() =~= open);
    assert(texts.push(words) =~= heads(open.push(o)) + written(Block::End));
}

/// The innermost block closed.
proof fn lemma_take_closing(
    p: Partial,
    q: Partial,
    open: Seq<Open>,
    now: Block,
    texts: Seq<Seq<Seq<char>>>,
) -> (after: Block)
    requires
        taken(p, open, now, texts),
        open.len() > 0,
        same_kinds(open.drop_last(), q.frames),
        q.out.len() == p.out.len() + (if open.last() is Loop {
            1nat
        } else {
            0
        }),
    ensures
        taken(q, open.drop_last(), after, texts.push(seq!["}"@])),
{
    let outer = open.drop_last();
    let end = Box::new(Block::End);
    let (before, one) = match open.last() {
        Open::If { before, cond } => (
            before,
            Block::If { cond, body: Box::new(now), rest: end },
        ),
        Open::Else { before, cond, body } => (
            before,
            Block::IfElse { cond, body: Box::new(body), other: Box::new(now), rest: end },
        ),
        Open::Loop { before, cond } => (
            before,
            Block::While { cond, body: Box::new(now), rest: end },
        ),
    };
    reveal_with_fuel(written, 2);
    reveal_with_fuel(proper, 2);
    reveal_with_fuel(size, 2);
    lemma_joined(before, one, looped(outer));
    assert(texts.push(seq!["}"@]) =~= heads(outer) + written(joined(before, one)));
    joined(before, one)
}

/// A line that the compiler takes goes on with proper statements.
proof fn lemma_take_line(
    p: Partial,
    line: Line,
    open: Seq<Open>,
    now: Block,
    texts: Seq<Seq<Seq<char>>>,
) -> (r: (Seq<Open>, Block))
    requires
        taken(p, open, now, texts),
        step(p, line) is Ok,
    ensures
        taken(step(p, line)->Ok_0, r.0, r.1, texts.push(line.words)),
{
    reveal(step);
    reveal(is_instruction);
    reveal(is_condition);
    let words = line.words;
    let q = step(p, line)->Ok_0;
    let n = open.len() as int;
    let end = Box::new(Block::End);
    lemma_looped(open, p.frames, n);
    assert(open.take(n) =~= open);
    parser::lemma_innermost_loop(p.frames, p.frames.len() as int);
    if parser::opens(words, "if"@) || parser::opens(words, "while"@) {
        let cond = words.subrange(1, words.len() - 1);
        let o = if parser::opens(words, "if"@) {
            assert(words =~= opening("if"@, cond));
            Open::If { before: now, cond }
        } else {
            assert(words =~= opening("while"@, cond));
            Open::Loop { before: now, cond }
        };
        assert(open.push(o).drop_last() =~= open);
        assert(head(o) =~= written(now).push(words));
        lemma_take_opening(p, q, open, now, texts, o, words);
        (open.push(o), Block::End)
    } else if words.len() == 1 && words[0] == "break"@ {
        let one = Block::Break { rest: end };
        assert(words =~= seq!["break"@]);
        reveal_with_fuel(written, 2);
        reveal_with_fuel(proper, 2);
        reveal_with_fuel(size, 2);
        assert(written(one) =~= seq![words]);
        lemma_take_statement(p, q, open, now, texts, one, words);
        (open, joined(now, one))
    } else if words.len() == 1 && words[0] == "continue"@ {
        let one = Block::Continue { rest: end };
        assert(words =~= seq!["continue"@]);
        reveal_with_fuel(written, 2);
        reveal_with_fuel(proper, 2);
        reveal_with_fuel(size, 2);
        assert(written(one) =~= seq![words]);
        lemma_take_statement(p, q, open, now, texts, one, words);
        (open, joined(now, one))
    } else if words.len() == 3 && words[0] == "}"@ && words[1] == "else"@ && words[2] == "{"@ {
        assert(words =~= seq!["}"@, "else"@, "{"@]);
        let last = open.last();
        assert(last == open[n - 1]);
        let outer = open.drop_last();
        let o = Open::Else { before: last->If_before, cond: last->If_cond, body: now };
        assert(outer.push(o).drop_last() =~= outer);
        assert(texts.push(words) =~= heads(outer.push(o)) + written(Block::End));
        (outer.push(o), Block::End)
    } else if words.len() == 1 && words[0] == "}"@ {
        assert(words =~= seq!["}"@]);
        assert(open[n - 1] == open.last());
        let after = lemma_take_closing(p, q, open, now, texts);
        (open.drop_last(), after)
    } else {
        let one = Block::Do { words, rest: end };
        reveal_with_fuel(written, 2);
        reveal_with_fuel(proper, 2);
        reveal_with_fuel(size, 2);
        assert(written(one) =~= seq![words]);
        lemma_take_statement(p, q, open, now, texts, one, words);
        (open, joined(now, one))
    }
}

/// Lines that the compiler takes, up to where no block is open, spell proper statements.
proof fn lemma_take_lines(
    p: Partial,
    lines: Seq<Line>,
    open: Seq<Open>,
    now: Block,
    texts: Seq<Seq<Seq<char>>>,
) -> (b: Block)
    requires
        taken(p, open, now, texts),
        folded(p, lines) matches Ok(q) && q.frames.len() == 0,
    ensures
        proper(b, false),
        written(b) == texts + words_in(lines),
        size(b) == folded(p, lines)->Ok_0.out.len(),
    decreases lines.len(),
{
    if lines.len() == 0 {
        assert(texts + words_in(lines) =~= texts);
        assert(heads(open) + written(now) =~= written(now));
        now
    } else {
        let (open1, now1) = lemma_take_line(p, lines[0], open, now, texts);
        let q = step(p, lines[0])->Ok_0;
        let b = lemma_take_lines(q, lines.drop_first(), open1, now1, texts.push(lines[0].words));
        assert(texts.push(lines[0].words) + words_in(lines.drop_first()) =~= texts + words_in(
            lines,
        ));
        b
    }
}

/// Only proper statements are accepted: the lines with code of a program spell some, of the same
/// number of instructions.
pub proof fn law_programs_are_blocks(source: Seq<char>) -> (b: Block)
    requires
        parser::parsed(source) is Ok,
    ensures
        proper(b, false),
        spells(code_lines(source, 1), written(b)),
        size(b) == parser::parsed(source)->Ok_0.len(),
{
    let p = Partial { out: Seq::empty(), frames: Seq::empty() };
    let lines = code_lines(source, 1);
    let none = Seq::<Seq<Seq<char>>>::empty();
    lemma_folded(p, source, 1);
    assert(taken(p, Seq::empty(), Block::End, none)) by {
        assert(heads(Seq::empty()) + written(Block::End) =~= none);
    }
    let b = lemma_take_lines(p, lines, Seq::empty(), Block::End, none);
    assert(none + words_in(lines) =~= words_in(lines));
    b
}

/// The words of lines do not depend on their numbers.
pub proof fn lemma_words_in(text: Seq<char>, m: nat, n: nat)
    ensures
        words_in(code_lines(text, m)) == words_in(code_lines(text, n)),
    decreases text.len(),
{
    let end = lexer::find(text, '\n');
    lexer::lemma_find(text, '\n');
    if end < text.len() {
        let rest = text.skip(end + 1);
        lemma_words_in(rest, m + 1, n + 1);
        lemma_words_in_first(text, m);
        lemma_words_in_first(text, n);
    } else {
        assert(words_in(code_lines(text, m)) =~= words_in(code_lines(text, n)));
    }
}

/// The words of a line, if it has code.
pub open spec fn first_words(line: Seq<char>) -> Seq<Seq<Seq<char>>> {
    let code = lexer::code_of(line);
    if code.len() == 0 {
        Seq::empty()
    } else {
        seq![lexer::words_of(code)]
    }
}

/// The words of a text are those of its first line and those of the others.
pub proof fn lemma_words_in_first(text: Seq<char>, n: nat)
    ensures
        ({
            let end = lexer::find(text, '\n');
            words_in(code_lines(text, n)) == first_words(text.take(end)) + (if end < text.len() {
                words_in(code_lines(text.skip(end + 1), n + 1))
            } else {
                Seq::empty()
            })
        }),
{
    let end = lexer::find(text, '\n');
    lexer::lemma_find(text, '\n');
    let first = first_words(text.take(end));
    if end < text.len() {
        let rest = code_lines(text.skip(end + 1), n + 1);
        assert(words_in(code_lines(text, n)) =~= first + words_in(rest));
    } else {
        assert(words_in(code_lines(text, n)) =~= first + Seq::<Seq<Seq<char>>>::empty());
    }
}

/// The words of two texts, one after the other.
pub proof fn lemma_words_in_both(a: Seq<char>, b: Seq<char>, n: nat)
    ensures
        words_in(code_lines(a + seq!['\n'] + b, n)) == words_in(code_lines(a, n)) + words_in(
            code_lines(b, n),
        ),
    decreases a.len(),
{
    let text = a + seq!['\n'] + b;
    let end = lexer::find(a, '\n');
    lexer::lemma_find(a, '\n');
    assert(forall|i: int| 0 <= i < a.len() ==> text[i] == a[i]);
    assert(text[a.len() as int] == '\n');
    lexer::lemma_find_is(text, '\n', end);
    assert(text.take(end) =~= a.take(end));
    lemma_words_in_first(text, n);
    lemma_words_in_first(a, n);
    if end < a.len() {
        let rest = a.skip(end + 1);
        assert(text.skip(end + 1) =~= rest + seq!['\n'] + b);
        lemma_words_in_both(rest, b, n + 1);
        lemma_words_in(b, n, n + 1);
    } else {
        assert(text.skip(end + 1) =~= b);
        lemma_words_in(b, n, n + 1);
    }
    assert(words_in(code_lines(text, n)) =~= words_in(code_lines(a, n)) + words_in(
        code_lines(b, n),
    ));
}

/// The same instruction, with a jump leading `k` places further on.
pub open spec fn shifted(action: Action, k: int) -> Action {
    match action.jump_target() {
        Some(t) => action.retargeted((t + k) as usize),
        None => action,
    }
}

/// The same instructions, with every jump leading `k` places further on.
pub open spec fn all_shifted(out: Seq<Action>, k: int) -> Seq<Action> {
    Seq::new(out.len(), |i: int| shifted(out[i], k))
}

/// The jump over or out of a block, further on.
proof fn lemma_jump_shifted(cond: Seq<Seq<char>>, to: int, k: int)
    requires
        0 <= to <= usize::MAX,
    ensures
        jump_unless_held(cond, to + k) == shifted(jump_unless_held(cond, to), k),
{
    reveal(jump_unless_held);
}

/// Instructions that are no jumps are the same wherever they stand.
proof fn lemma_instruction_shifted(words: Seq<Seq<char>>, k: int)
    requires
        is_instruction(words),
    ensures
        shifted(instruction(words), k) == instruction(words),
{
    reveal(is_instruction);
    reveal(instruction);
}

/// Statements that begin `k` places further on become the same instructions, with every jump
/// leading `k` places further on.
proof fn lemma_compiled_shifted(b: Block, in_loop: bool, at: int, top: int, end: int, k: int)
    requires
        proper(b, in_loop),
        0 <= at,
        at + size(b) <= usize::MAX,
        0 <= top <= usize::MAX,
        0 <= end <= usize::MAX,
    ensures
        compiled(b, at + k, top + k, end + k) == all_shifted(compiled(b, at, top, end), k),
    decreases b,
{
    let now = compiled(b, at, top, end);
    let then = compiled(b, at + k, top + k, end + k);
    match b {
        Block::End => {},
        Block::Do { words, rest } => {
            lemma_instruction_shifted(words, k);
            lemma_compiled_shifted(*rest, in_loop, at + 1, top, end, k);
        },
        Block::If { cond, body, rest } => {
            let behind = at + 1 + size(*body);
            lemma_jump_shifted(cond, behind, k);
            lemma_compiled_shifted(*body, in_loop, at + 1, top, end, k);
            lemma_compiled_shifted(*rest, in_loop, behind, top, end, k);
        },
        Block::IfElse { cond, body, other, rest } => {
            let second = at + 1 + size(*body) + 1;
            let behind = second + size(*other);
            lemma_jump_shifted(cond, second, k);
            lemma_compiled_shifted(*body, in_loop, at + 1, top, end, k);
            lemma_compiled_shifted(*other, in_loop, second, top, end, k);
            lemma_compiled_shifted(*rest, in_loop, behind, top, end, k);
        },
        Block::While { cond, body, rest } => {
            let behind = at + 1 + size(*body) + 1;
            lemma_jump_shifted(cond, behind, k);
            lemma_compiled_shifted(*body, true, at + 1, at, behind, k);
            lemma_compiled_shifted(*rest, in_loop, behind, top, end, k);
        },
        Block::Break { rest } => {
            lemma_compiled_shifted(*rest, in_loop, at + 1, top, end, k);
        },
        Block::Continue { rest } => {
            lemma_compiled_shifted(*rest, in_loop, at + 1, top, end, k);
        },
    }
    assert(then =~= all_shifted(now, k));
}

/// Statements followed by others become the instructions of the ones, followed by those of the
/// others.
proof fn lemma_compiled_joined(a: Block, b: Block, at: int, top: int, end: int)
    ensures
        compiled(joined(a, b), at, top, end) == compiled(a, at, top, end) + compiled(
            b,
            at + size(a),
            top,
            end,
        ),
    decreases a,
{
    match a {
        Block::End => {},
        Block::Do { rest, .. } => {
            lemma_compiled_joined(*rest, b, at + 1, top, end);
        },
        Block::If { body, rest, .. } => {
            lemma_compiled_joined(*rest, b, at + 1 + size(*body), top, end);
        },
        Block::IfElse { body, other, rest, .. } => {
            lemma_compiled_joined(*rest, b, at + 1 + size(*body) + 1 + size(*other), top, end);
        },
        Block::While { body, rest, .. } => {
            lemma_compiled_joined(*rest, b, at + 1 + size(*body) + 1, top, end);
        },
        Block::Break { rest } => {
            lemma_compiled_joined(*rest, b, at + 1, top, end);
        },
        Block::Continue { rest } => {
            lemma_compiled_joined(*rest, b, at + 1, top, end);
        },
    }
    assert(compiled(joined(a, b), at, top, end) =~= compiled(a, at, top, end) + compiled(
        b,
        at + size(a),
        top,
        end,
    ));
}

/// Two programs, one after the other, are a program: the instructions of the one, followed by
/// those of the other with every jump leading as much further on.
pub proof fn law_programs_join(a: Seq<char>, b: Seq<char>)
    requires
        parser::parsed(a) matches Ok(first) && parser::parsed(b) matches Ok(second) && first.len()
            + second.len() <= usize::MAX,
    ensures
        ({
            let first = parser::parsed(a)->Ok_0;
            let second = parser::parsed(b)->Ok_0;
            parser::parsed(a + seq!['\n'] + b) == Ok::<Seq<Action>, Seq<char>>(
                first + all_shifted(second, first.len() as int),
            )
        }),
{
    let text = a + seq!['\n'] + b;
    let one = law_programs_are_blocks(a);
    let two = law_programs_are_blocks(b);
    let k = size(one) as int;
    law_blocks_become_jumps(a, one);
    law_blocks_become_jumps(b, two);
    lemma_joined(one, two, false);
    lemma_words_in_both(a, b, 1);
    let lines = code_lines(text, 1);
    assert(words_in(code_lines(a, 1)) =~= written(one));
    assert(words_in(code_lines(b, 1)) =~= written(two));
    assert(words_in(lines) == written(joined(one, two)));
    assert forall|i: int| 0 <= i < lines.len() implies (#[trigger] lines[i]).words == written(
        joined(one, two),
    )[i] by {
        assert(words_in(lines)[i] == lines[i].words);
    }
    law_blocks_become_jumps(text, joined(one, two));
    lemma_compiled_joined(one, two, 0, 0, 0);
    lemma_no_breaks(two, k, 0, 0, k, k);
    lemma_compiled_shifted(two, false, 0, 0, 0, k);
}

} // verus!
