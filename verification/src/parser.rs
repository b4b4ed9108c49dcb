//! From program text to instructions.
//!
//! A line holds one statement. Blocks become jumps: a jump whose target is not yet known holds a
//! placeholder, and the block that waits for it is kept open until its closing brace.

use vstd::prelude::*;
use vstd::slice::slice_subrange;
use crate::grid::Direction;
use crate::inventory;
use crate::inventory::ResourceKind;
use crate::lexer;
use crate::lexer::{code_range, find_from, split_words};
use crate::program::{Action, Condition, NavQualifier, Target};
use crate::text;
use crate::text::{chars_of, push_decimal, same};

verus! {

/// A condition, and whether it was written with `not`.
#[derive(Copy, Clone, Debug, PartialEq, Eq, Structural)]
pub struct CondExpr {
    pub condition: Condition,
    pub negated: bool,
}

/// A block that has not been closed yet.
#[verifier::ext_equal]
pub ghost enum Frame {
    /// An `if`; `jump` is the place of the jump over its body.
    If { jump: int, line: nat },
    /// An `else`; `jump` is the place of the jump over its body.
    Else { jump: int, line: nat },
    /// A `while`; `top` is the place of the jump out of it, `breaks` those of the `break`s.
    Loop { top: int, line: nat, breaks: Seq<usize> },
}

/// What has been made of the lines so far.
#[verifier::ext_equal]
pub ghost struct Partial {
    pub out: Seq<Action>,
    pub frames: Seq<Frame>,
}

/// True if the jump at place `i` waits for the block to be closed.
pub open spec fn awaits(f: Frame, i: int) -> bool {
    match f {
        Frame::If { jump, .. } => i == jump,
        Frame::Else { jump, .. } => i == jump,
        Frame::Loop { top, breaks, .. } => i == top || exists|k: int|
            0 <= k < breaks.len() && #[trigger] breaks[k] == i,
    }
}

/// The instructions with every jump that waits for the block landing behind the last of them.
pub open spec fn landed(out: Seq<Action>, f: Frame) -> Seq<Action> {
    Seq::new(
        out.len(),
        |i: int|
            if awaits(f, i) {
                out[i].retargeted(out.len() as usize)
            } else {
                out[i]
            },
    )
}

/// The words with a space between each two.
pub open spec fn joined(words: Seq<Seq<char>>) -> Seq<char>
    decreases words.len(),
{
    if words.len() == 0 {
        Seq::empty()
    } else if words.len() == 1 {
        words[0]
    } else {
        joined(words.drop_last()) + " "@ + words.last()
    }
}

/// The condition that the words make, or what is wrong with them.
pub open spec fn condition_of(words: Seq<Seq<char>>) -> Result<Condition, Seq<char>> {
    if words.len() == 2 && words[0] == "carrying"@ {
        match inventory::kind_named(words[1]) {
            Some(kind) => Ok(Condition::Carrying(kind)),
            None => Err("unknown resource kind '"@ + words[1] + "' in condition"@),
        }
    } else {
        Err("unknown condition: `"@ + joined(words) + "`"@)
    }
}

/// The condition that the words make, with or without `not` in front.
pub open spec fn cond_expr_of(words: Seq<Seq<char>>) -> Result<CondExpr, Seq<char>> {
    if words.len() > 0 && words[0] == "not"@ {
        match condition_of(words.drop_first()) {
            Ok(condition) => Ok(CondExpr { condition, negated: true }),
            Err(e) => Err(e),
        }
    } else {
        match condition_of(words) {
            Ok(condition) => Ok(CondExpr { condition, negated: false }),
            Err(e) => Err(e),
        }
    }
}

/// The jump that leaves or skips a block: taken when the condition, as written, does not hold.
pub open spec fn skip_jump(expr: CondExpr) -> Action {
    if expr.negated {
        Action::JumpIf(expr.condition, usize::MAX)
    } else {
        Action::JumpUnless(expr.condition, usize::MAX)
    }
}

/// The instruction that is written in one word.
pub open spec fn word_action(w: Seq<char>) -> Option<Action> {
    if w == "n"@ || w == "north"@ || w == "up"@ {
        Some(Action::Move(Direction::North))
    } else if w == "s"@ || w == "south"@ || w == "down"@ {
        Some(Action::Move(Direction::South))
    } else if w == "e"@ || w == "east"@ || w == "right"@ {
        Some(Action::Move(Direction::East))
    } else if w == "w"@ || w == "west"@ || w == "left"@ {
        Some(Action::Move(Direction::West))
    } else if w == "wait"@ || w == "noop"@ {
        Some(Action::Wait)
    } else if is_pickup_word(w) {
        Some(Action::Pickup(None))
    } else if w == "drop"@ || w == "deposit"@ || w == "deliver"@ {
        Some(Action::Drop)
    } else {
        None
    }
}

/// True of the words for picking up.
pub open spec fn is_pickup_word(w: Seq<char>) -> bool {
    w == "pickup"@ || w == "grab"@ || w == "take"@
}

/// True of the words for going somewhere.
pub open spec fn is_nav_word(w: Seq<char>) -> bool {
    w == "navigate_to"@ || w == "goto"@ || w == "nav"@
}

/// The place that a word names.
pub open spec fn target_named(w: Seq<char>) -> Option<Target> {
    if w == "base"@ {
        Some(Target::Base)
    } else {
        match inventory::kind_named(w) {
            Some(kind) => Some(Target::Resource(kind)),
            None => None,
        }
    }
}

/// The instruction that the words make, or what is wrong with them.
pub open spec fn action_of(words: Seq<Seq<char>>, code: Seq<char>) -> Result<Action, Seq<char>> {
    let unknown = Err("unknown instruction '"@ + code + "'"@);
    if words.len() == 1 {
        match word_action(words[0]) {
            Some(action) => Ok(action),
            None => unknown,
        }
    } else if words.len() == 2 && is_pickup_word(words[0]) {
        match inventory::kind_named(words[1]) {
            Some(kind) => Ok(Action::Pickup(Some(kind))),
            None => Err("unknown resource kind '"@ + words[1] + "'"@),
        }
    } else if words.len() == 3 && is_nav_word(words[0]) {
        if words[1] != "closest"@ {
            Err("unknown nav qualifier '"@ + words[1] + "'"@)
        } else {
            match target_named(words[2]) {
                Some(target) => Ok(Action::NavigateTo(NavQualifier::Closest, target)),
                None => Err("unknown nav target '"@ + words[2] + "'"@),
            }
        }
    } else {
        unknown
    }
}

/// The place of the innermost of the first `n` blocks that is a loop.
pub open spec fn innermost_loop(frames: Seq<Frame>, n: int) -> Option<int>
    decreases n,
{
    if n <= 0 {
        None
    } else if frames[n - 1] is Loop {
        Some(n - 1)
    } else {
        innermost_loop(frames, n - 1)
    }
}

/// A `break` added to a loop.
pub open spec fn with_break(f: Frame, i: usize) -> Frame {
    match f {
        Frame::Loop { top, line, breaks } => Frame::Loop { top, line, breaks: breaks.push(i) },
        _ => f,
    }
}

/// True of the first line of a block: the word, a condition, and an opening brace.
pub open spec fn opens(words: Seq<Seq<char>>, word: Seq<char>) -> bool {
    words.len() >= 2 && words[0] == word && words.last() == "{"@
}

/// A block of a kind is opened.
pub open spec fn opened(p: Partial, words: Seq<Seq<char>>, is_loop: bool, line: nat) -> Result<
    Partial,
    Seq<char>,
> {
    match cond_expr_of(words.subrange(1, words.len() - 1)) {
        Err(e) => Err(e),
        Ok(expr) => Ok(
            Partial {
                out: p.out.push(skip_jump(expr)),
                frames: p.frames.push(
                    if is_loop {
                        Frame::Loop { top: p.out.len() as int, line, breaks: Seq::empty() }
                    } else {
                        Frame::If { jump: p.out.len() as int, line }
                    },
                ),
            },
        ),
    }
}

/// The innermost block is closed. A loop jumps back to its top first; then all jumps that wait
/// for the block land behind it.
pub open spec fn closed_block(p: Partial) -> Partial {
    let f = p.frames.last();
    Partial {
        out: match f {
            Frame::Loop { top, .. } => landed(p.out.push(Action::Jump(top as usize)), f),
            _ => landed(p.out, f),
        },
        frames: p.frames.drop_last(),
    }
}

/// The innermost block is closed and its `else` opened: the body of the one ends with a jump over
/// the body of the other.
pub open spec fn turned_to_else(p: Partial, line: nat) -> Partial {
    Partial {
        out: landed(p.out.push(Action::Jump(usize::MAX)), p.frames.last()),
        frames: p.frames.drop_last().push(Frame::Else { jump: p.out.len() as int, line }),
    }
}

/// What a statement adds, or what is wrong with it.
pub open spec fn statement(
    p: Partial,
    words: Seq<Seq<char>>,
    code: Seq<char>,
    line: nat,
) -> Result<Partial, Seq<char>> {
    if opens(words, "if"@) {
        opened(p, words, false, line)
    } else if opens(words, "while"@) {
        opened(p, words, true, line)
    } else if words.len() == 1 && words[0] == "break"@ {
        match innermost_loop(p.frames, p.frames.len() as int) {
            Some(k) => Ok(
                Partial {
                    out: p.out.push(Action::Jump(usize::MAX)),
                    frames: p.frames.update(k, with_break(p.frames[k], p.out.len() as usize)),
                },
            ),
            None => Err("`break` outside a loop"@),
        }
    } else if words.len() == 1 && words[0] == "continue"@ {
        match innermost_loop(p.frames, p.frames.len() as int) {
            Some(k) => Ok(
                Partial { out: p.out.push(Action::Jump(p.frames[k]->top as usize)), ..p },
            ),
            None => Err("`continue` outside a loop"@),
        }
    } else if words.len() == 3 && words[0] == "}"@ && words[1] == "else"@ && words[2] == "{"@ {
        if p.frames.len() > 0 && p.frames.last() is If {
            Ok(turned_to_else(p, line))
        } else {
            Err("`else` without a matching `if`"@)
        }
    } else if words.len() == 1 && words[0] == "}"@ {
        if p.frames.len() > 0 {
            Ok(closed_block(p))
        } else {
            Err("unmatched `}`"@)
        }
    } else {
        match action_of(words, code) {
            Ok(action) => Ok(Partial { out: p.out.push(action), ..p }),
            Err(e) => Err(e),
        }
    }
}

/// A message about a line.
pub open spec fn at_line(line: nat, message: Seq<char>) -> Seq<char> {
    "line "@ + text::decimal(line) + ": "@ + message
}

/// What a line adds. Nothing is made of one without code.
pub open spec fn line_parsed(p: Partial, text: Seq<char>, line: nat) -> Result<
    Partial,
    Seq<char>,
> {
    let code = lexer::code_of(text);
    if code.len() == 0 {
        Ok(p)
    } else {
        match statement(p, lexer::words_of(code), code, line) {
            Ok(q) => Ok(q),
            Err(e) => Err(at_line(line, e)),
        }
    }
}

/// What the lines of a text add; the first of them has number `line`.
pub open spec fn lines_parsed(p: Partial, text: Seq<char>, line: nat) -> Result<
    Partial,
    Seq<char>,
>
    decreases text.len(),
{
    let end = lexer::find(text, '\n');
    match line_parsed(p, text.take(end), line) {
        Err(e) => Err(e),
        Ok(q) => if 0 <= end < text.len() {
            lines_parsed(q, text.skip(end + 1), line + 1)
        } else {
            Ok(q)
        },
    }
}

/// The word that opened a block.
pub open spec fn frame_word(f: Frame) -> Seq<char> {
    match f {
        Frame::If { .. } => "if"@,
        Frame::Else { .. } => "else"@,
        Frame::Loop { .. } => "while"@,
    }
}

/// The line on which a block was opened.
pub open spec fn frame_line(f: Frame) -> nat {
    match f {
        Frame::If { line, .. } => line,
        Frame::Else { line, .. } => line,
        Frame::Loop { line, .. } => line,
    }
}

/// The instructions of a program, or what is wrong with it: the first bad line; else the
/// outermost block that is not closed; else that there is nothing to do.
pub open spec fn parsed(source: Seq<char>) -> Result<Seq<Action>, Seq<char>> {
    match lines_parsed(Partial { out: Seq::empty(), frames: Seq::empty() }, source, 1) {
        Err(e) => Err(e),
        Ok(p) => if p.frames.len() > 0 {
            Err(
                "unclosed `"@ + frame_word(p.frames[0]) + "` block opened on line "@
                    + text::decimal(frame_line(p.frames[0])),
            )
        } else if p.out.len() == 0 {
            Err("program is empty"@)
        } else {
            Ok(p.out)
        },
    }
}

/// True if the jump at place `i` waits for one of the blocks.
pub open spec fn waited(frames: Seq<Frame>, i: int) -> bool {
    exists|k: int| 0 <= k < frames.len() && awaits(#[trigger] frames[k], i)
}

/// True if the instruction at place `i`, if it is a jump, has its target or waits for it, and
/// leads ahead if it depends on a condition.
pub open spec fn target_known(p: Partial, i: int) -> bool {
    p.out[i].jump_target() matches Some(t) ==> (t <= p.out.len() || waited(p.frames, i)) && (
    !(p.out[i] is Jump) ==> i < t)
}

/// True if what waits for a block is a jump, and every jump that waits for none has its target.
pub open spec fn sound(p: Partial) -> bool {
    &&& forall|i: int| #[trigger]
        waited(p.frames, i) ==> 0 <= i < p.out.len() && p.out[i].jump_target() is Some
    &&& forall|i: int|
        #![trigger p.out[i]]
        #![trigger target_known(p, i)]
        0 <= i < p.out.len() ==> target_known(p, i)
}

/// Blocks that are open under another set of blocks wait for no more.
proof fn lemma_waited_push(frames: Seq<Frame>, f: Frame, i: int)
    ensures
        waited(frames.push(f), i) == (waited(frames, i) || awaits(f, i)),
{
    let more = frames.push(f);
    if waited(frames, i) {
        let k = choose|k: int| 0 <= k < frames.len() && awaits(#[trigger] frames[k], i);
        assert(awaits(more[k], i));
    }
    if awaits(f, i) {
        assert(awaits(more[frames.len() as int], i));
    }
    if waited(more, i) {
        let k = choose|k: int| 0 <= k < more.len() && awaits(#[trigger] more[k], i);
        if k < frames.len() {
            assert(awaits(frames[k], i));
        }
    }
}

/// An instruction that waits for nothing.
proof fn lemma_sound_add(p: Partial, action: Action)
    requires
        sound(p),
        action.jump_target() matches Some(t) ==> action is Jump && t <= p.out.len(),
    ensures
        sound(Partial { out: p.out.push(action), ..p }),
{
    let q = Partial { out: p.out.push(action), ..p };
    assert forall|i: int| 0 <= i < q.out.len() implies target_known(q, i) by {
        if i < p.out.len() {
            assert(q.out[i] == p.out[i]);
        }
    }
}

/// A jump that waits for a new block.
proof fn lemma_sound_open(p: Partial, jump: Action, f: Frame)
    requires
        sound(p),
        jump.jump_target() matches Some(t) && p.out.len() < t,
        forall|i: int| awaits(f, i) <==> i == p.out.len(),
    ensures
        sound(Partial { out: p.out.push(jump), frames: p.frames.push(f) }),
{
    let q = Partial { out: p.out.push(jump), frames: p.frames.push(f) };
    assert forall|i: int| #[trigger] waited(q.frames, i) implies 0 <= i < q.out.len()
        && q.out[i].jump_target() is Some by {
        lemma_waited_push(p.frames, f, i);
    }
    assert forall|i: int| 0 <= i < q.out.len() implies target_known(q, i) by {
        lemma_waited_push(p.frames, f, i);
        if i < p.out.len() {
            assert(q.out[i] == p.out[i]);
        }
    }
}

/// The innermost block is closed after an instruction of its own, if it has one.
proof fn lemma_sound_land(p: Partial, out: Seq<Action>)
    requires
        sound(p),
        p.frames.len() > 0,
        p.out.len() <= out.len() <= usize::MAX,
        forall|i: int| 0 <= i < p.out.len() ==> #[trigger] out[i] == p.out[i],
        forall|i: int|
            p.out.len() <= i < out.len() ==> ((#[trigger] out[i]).jump_target() matches Some(t)
                ==> out[i] is Jump && t <= out.len()),
    ensures
        sound(Partial { out: landed(out, p.frames.last()), frames: p.frames.drop_last() }),
{
    let f = p.frames.last();
    let q = Partial { out: landed(out, f), frames: p.frames.drop_last() };
    assert(p.frames =~= q.frames.push(f));
    assert forall|i: int| #[trigger] waited(q.frames, i) implies 0 <= i < q.out.len()
        && q.out[i].jump_target() is Some by {
        lemma_waited_push(q.frames, f, i);
        assert(waited(p.frames, i));
        assert(out[i] == p.out[i]);
    }
    assert forall|i: int| 0 <= i < q.out.len() implies target_known(q, i) by {
        lemma_waited_push(q.frames, f, i);
        if i < p.out.len() {
            assert(out[i] == p.out[i]);
        }
    }
}

/// The innermost block is closed and its `else` opened.
proof fn lemma_sound_else(p: Partial, line: nat)
    requires
        sound(p),
        p.frames.len() > 0,
        p.out.len() < usize::MAX,
    ensures
        sound(turned_to_else(p, line)),
{
    let f = p.frames.last();
    let q = turned_to_else(p, line);
    let g = q.frames.last();
    let kept = p.frames.drop_last();
    let out = p.out.push(Action::Jump(usize::MAX));
    assert(p.frames =~= kept.push(f));
    assert(q.frames =~= kept.push(g));
    assert forall|i: int| #[trigger] waited(q.frames, i) implies 0 <= i < q.out.len()
        && q.out[i].jump_target() is Some by {
        lemma_waited_push(kept, f, i);
        lemma_waited_push(kept, g, i);
        if waited(p.frames, i) {
            assert(out[i] == p.out[i]);
        }
    }
    assert forall|i: int| 0 <= i < q.out.len() implies target_known(q, i) by {
        lemma_waited_push(kept, f, i);
        lemma_waited_push(kept, g, i);
        if i < p.out.len() {
            assert(out[i] == p.out[i]);
        }
    }
}

/// The innermost loop is one of the blocks.
pub proof fn lemma_innermost_loop(frames: Seq<Frame>, n: int)
    requires
        n <= frames.len(),
    ensures
        innermost_loop(frames, n) matches Some(k) ==> 0 <= k < n && frames[k] is Loop,
    decreases n,
{
    if n > 0 && !(frames[n - 1] is Loop) {
        lemma_innermost_loop(frames, n - 1);
    }
}

/// What waits for a loop once a `break` has been added.
proof fn lemma_waited_break(frames: Seq<Frame>, k: int, n: usize, i: int)
    requires
        0 <= k < frames.len(),
        frames[k] is Loop,
    ensures
        waited(frames.update(k, with_break(frames[k], n)), i) == (waited(frames, i) || i == n),
{
    let f = frames[k];
    let g = with_break(f, n);
    let after = frames.update(k, g);
    assert(awaits(g, i) == (awaits(f, i) || i == n)) by {
        let b0 = f->breaks;
        let b1 = g->breaks;
        assert(b1[b0.len() as int] == n);
        if awaits(f, i) && i != f->top {
            let j = choose|j: int| 0 <= j < b0.len() && #[trigger] b0[j] == i;
            assert(b1[j] == i);
        }
        if awaits(g, i) && i != g->top {
            let j = choose|j: int| 0 <= j < b1.len() && #[trigger] b1[j] == i;
            if j < b0.len() {
                assert(b0[j] == i);
            }
        }
    }
    if waited(frames, i) {
        let j = choose|j: int| 0 <= j < frames.len() && awaits(#[trigger] frames[j], i);
        assert(awaits(after[j], i));
    }
    if i == n {
        assert(awaits(after[k], i));
    }
    if waited(after, i) {
        let j = choose|j: int| 0 <= j < after.len() && awaits(#[trigger] after[j], i);
        if j != k || i != n {
            assert(awaits(frames[j], i));
        }
    }
}

/// A `break` waits for the loop that it leaves.
proof fn lemma_sound_break(p: Partial, k: int)
    requires
        sound(p),
        p.out.len() < usize::MAX,
        0 <= k < p.frames.len(),
        p.frames[k] is Loop,
    ensures
        sound(
            Partial {
                out: p.out.push(Action::Jump(usize::MAX)),
                frames: p.frames.update(k, with_break(p.frames[k], p.out.len() as usize)),
            },
        ),
{
    let n = p.out.len() as usize;
    let q = Partial {
        out: p.out.push(Action::Jump(usize::MAX)),
        frames: p.frames.update(k, with_break(p.frames[k], n)),
    };
    assert forall|i: int| #[trigger] waited(q.frames, i) implies 0 <= i < q.out.len()
        && q.out[i].jump_target() is Some by {
        lemma_waited_break(p.frames, k, n, i);
    }
    assert forall|i: int| 0 <= i < q.out.len() implies target_known(q, i) by {
        lemma_waited_break(p.frames, k, n, i);
        if i < p.out.len() {
            assert(q.out[i] == p.out[i]);
        }
    }
}

/// A statement leaves what has been made sound, and adds at most one instruction.
proof fn lemma_statement_sound(p: Partial, words: Seq<Seq<char>>, code: Seq<char>, line: nat)
    requires
        sound(p),
        p.out.len() < usize::MAX,
    ensures
        statement(p, words, code, line) matches Ok(q) ==> sound(q) && q.out.len() <= p.out.len()
            + 1,
{
    let n = p.out.len() as int;
    let inner = innermost_loop(p.frames, p.frames.len() as int);
    lemma_innermost_loop(p.frames, p.frames.len() as int);
    if inner is Some {
        let k = inner->0;
        assert(awaits(p.frames[k], p.frames[k]->top));
        assert(waited(p.frames, p.frames[k]->top));
    }
    if opens(words, "if"@) || opens(words, "while"@) {
        let is_loop = !opens(words, "if"@);
        if let Ok(expr) = cond_expr_of(words.subrange(1, words.len() - 1)) {
            let f = if is_loop {
                Frame::Loop { top: n, line, breaks: Seq::empty() }
            } else {
                Frame::If { jump: n, line }
            };
            lemma_sound_open(p, skip_jump(expr), f);
        }
    } else if words.len() == 1 && words[0] == "break"@ {
        if inner is Some {
            lemma_sound_break(p, inner->0);
        }
    } else if words.len() == 1 && words[0] == "continue"@ {
        if inner is Some {
            lemma_sound_add(p, Action::Jump(p.frames[inner->0]->top as usize));
        }
    } else if words.len() == 3 && words[0] == "}"@ && words[1] == "else"@ && words[2] == "{"@ {
        if p.frames.len() > 0 && p.frames.last() is If {
            lemma_sound_else(p, line);
        }
    } else if words.len() == 1 && words[0] == "}"@ {
        if p.frames.len() > 0 {
            let f = p.frames.last();
            if f is Loop {
                assert(awaits(p.frames[p.frames.len() - 1], f->top));
                assert(waited(p.frames, f->top));
                lemma_sound_land(p, p.out.push(Action::Jump(f->top as usize)));
            } else {
                lemma_sound_land(p, p.out);
            }
        }
    } else if let Ok(action) = action_of(words, code) {
        lemma_sound_add(p, action);
    }
}

/// Three texts, one after the other.
fn concat3(a: &str, b: &str, c: &str) -> (s: String)
    ensures
        s@ == a@ + b@ + c@,
{
    let mut s = String::from_str(a);
    s.append(b);
    s.append(c);
    s
}

/// A message about a line.
fn line_message(line: usize, message: &str) -> (s: String)
    ensures
        s@ == at_line(line as nat, message@),
{
    let mut s = String::from_str("line ");
    push_decimal(&mut s, line as u64);
    s.append(": ");
    s.append(message);
    s
}

/// The words with a space between each two.
fn join_words(words: &[String]) -> (s: String)
    ensures
        s@ == joined(lexer::texts(words@)),
{
    let ghost all = lexer::texts(words@);
    let mut s = String::new();
    let mut i: usize = 0;
    assert(all.take(0) =~= Seq::<Seq<char>>::empty());
    assert(s@ =~= joined(all.take(0)));
    while i < words.len()
        invariant
            all == lexer::texts(words@),
            i <= words@.len(),
            s@ == joined(all.take(i as int)),
        decreases words@.len() - i,
    {
        assert(all.take(i + 1).drop_last() =~= all.take(i as int));
        if i > 0 {
            s.append(" ");
        }
        s.append(words[i].as_str());
        assert(s@ =~= joined(all.take(i + 1)));
        i += 1;
    }
    assert(all.take(i as int) =~= all);
    s
}

/// The condition that the words make, or what is wrong with them.
pub fn parse_condition(words: &[String]) -> (r: Result<Condition, String>)
    ensures
        match condition_of(lexer::texts(words@)) {
            Ok(condition) => r == Ok::<Condition, String>(condition),
            Err(e) => r matches Err(m) && m@ == e,
        },
{
    if words.len() == 2 && same(words[0].as_str(), "carrying") {
        match ResourceKind::from_token(words[1].as_str()) {
            Some(kind) => Ok(Condition::Carrying(kind)),
            None => Err(concat3("unknown resource kind '", words[1].as_str(), "' in condition")),
        }
    } else {
        let all = join_words(words);
        Err(concat3("unknown condition: `", all.as_str(), "`"))
    }
}

/// The condition that the words make, with or without `not` in front.
pub fn parse_cond_expr(words: &[String]) -> (r: Result<CondExpr, String>)
    ensures
        match cond_expr_of(lexer::texts(words@)) {
            Ok(expr) => r == Ok::<CondExpr, String>(expr),
            Err(e) => r matches Err(m) && m@ == e,
        },
{
    let negated = words.len() > 0 && same(words[0].as_str(), "not");
    let rest = if negated {
        slice_subrange(words, 1, words.len())
    } else {
        words
    };
    proof {
        if negated {
            assert(lexer::texts(rest@) =~= lexer::texts(words@).drop_first());
        }
    }
    match parse_condition(rest) {
        Ok(condition) => Ok(CondExpr { condition, negated }),
        Err(e) => Err(e),
    }
}

/// The jump that leaves or skips a block: taken when the condition, as written, does not hold.
pub fn cond_jump(expr: CondExpr) -> (jump: Action)
    ensures
        jump == skip_jump(expr),
{
    if expr.negated {
        Action::JumpIf(expr.condition, usize::MAX)
    } else {
        Action::JumpUnless(expr.condition, usize::MAX)
    }
}

/// Gives a jump its target.
pub fn patch_jump_target(action: &mut Action, target: usize)
    requires
        old(action).jump_target() is Some,
    ensures
        *final(action) == old(action).retargeted(target),
{
    *action = match *action {
        Action::Jump(_) => Action::Jump(target),
        Action::JumpIf(c, _) => Action::JumpIf(c, target),
        Action::JumpUnless(c, _) => Action::JumpUnless(c, target),
        other => other,
    };
}

/// True if a word is one of three.
fn is_any(word: &str, a: &str, b: &str, c: &str) -> (r: bool)
    ensures
        r == (word@ == a@ || word@ == b@ || word@ == c@),
{
    same(word, a) || same(word, b) || same(word, c)
}

/// The instruction that is written in one word.
fn parse_word(word: &str) -> (action: Option<Action>)
    ensures
        action == word_action(word@),
{
    if is_any(word, "n", "north", "up") {
        Some(Action::Move(Direction::North))
    } else if is_any(word, "s", "south", "down") {
        Some(Action::Move(Direction::South))
    } else if is_any(word, "e", "east", "right") {
        Some(Action::Move(Direction::East))
    } else if is_any(word, "w", "west", "left") {
        Some(Action::Move(Direction::West))
    } else if same(word, "wait") || same(word, "noop") {
        Some(Action::Wait)
    } else if is_any(word, "pickup", "grab", "take") {
        Some(Action::Pickup(None))
    } else if is_any(word, "drop", "deposit", "deliver") {
        Some(Action::Drop)
    } else {
        None
    }
}

/// The instruction that the words make, or what is wrong with them.
fn parse_action(words: &Vec<String>, code: &str) -> (r: Result<Action, String>)
    ensures
        match action_of(lexer::texts(words@), code@) {
            Ok(action) => r == Ok::<Action, String>(action),
            Err(e) => r matches Err(m) && m@ == e,
        },
{
    if words.len() == 1 {
        if let Some(action) = parse_word(words[0].as_str()) {
            return Ok(action);
        }
    } else if words.len() == 2 && is_any(words[0].as_str(), "pickup", "grab", "take") {
        return match ResourceKind::from_token(words[1].as_str()) {
            Some(kind) => Ok(Action::Pickup(Some(kind))),
            None => Err(concat3("unknown resource kind '", words[1].as_str(), "'")),
        };
    } else if words.len() == 3 && is_any(words[0].as_str(), "navigate_to", "goto", "nav") {
        if !same(words[1].as_str(), "closest") {
            return Err(concat3("unknown nav qualifier '", words[1].as_str(), "'"));
        }
        if same(words[2].as_str(), "base") {
            return Ok(Action::NavigateTo(NavQualifier::Closest, Target::Base));
        }
        return match ResourceKind::from_token(words[2].as_str()) {
            Some(kind) => Ok(Action::NavigateTo(NavQualifier::Closest, Target::Resource(kind))),
            None => Err(concat3("unknown nav target '", words[2].as_str(), "'")),
        };
    }
    Err(concat3("unknown instruction '", code, "'"))
}

/// A block that has not been closed yet, and the line on which it was opened. The places are
/// those of jumps whose targets are not known before it is.
enum BlockFrame {
    If { skip_body_jump: usize, line: usize },
    Else { skip_else_jump: usize, line: usize },
    Loop { exit_jump: usize, line: usize, pending_breaks: Vec<usize> },
}

impl View for BlockFrame {
    type V = Frame;

    closed spec fn view(&self) -> Frame {
        match self {
            BlockFrame::If { skip_body_jump, line } => Frame::If {
                jump: *skip_body_jump as int,
                line: *line as nat,
            },
            BlockFrame::Else { skip_else_jump, line } => Frame::Else {
                jump: *skip_else_jump as int,
                line: *line as nat,
            },
            BlockFrame::Loop { exit_jump, line, pending_breaks } => Frame::Loop {
                top: *exit_jump as int,
                line: *line as nat,
                breaks: pending_breaks@,
            },
        }
    }
}

impl BlockFrame {
    /// The line on which the block was opened.
    fn opened_at(&self) -> (line: usize)
        ensures
            line == frame_line(self@),
    {
        match self {
            BlockFrame::If { line, .. } => *line,
            BlockFrame::Else { line, .. } => *line,
            BlockFrame::Loop { line, .. } => *line,
        }
    }

    /// The word that opened the block.
    fn kind(&self) -> (word: &'static str)
        ensures
            word@ == frame_word(self@),
    {
        match self {
            BlockFrame::If { .. } => "if",
            BlockFrame::Else { .. } => "else",
            BlockFrame::Loop { .. } => "while",
        }
    }
}

/// The instructions made so far, and the blocks that are open.
struct Compiler {
    out: Vec<Action>,
    frames: Vec<BlockFrame>,
}

impl Compiler {
    spec fn seen(&self) -> Partial {
        Partial { out: self.out@, frames: Seq::new(self.frames@.len(), |i: int| self.frames@[i]@) }
    }

    /// Gives every jump that waits for a block the place behind the last instruction as target.
    fn land(&mut self, frame: &BlockFrame)
        requires
            forall|i: int| #[trigger]
                awaits(frame@, i) ==> 0 <= i < old(self).out@.len()
                    && old(self).out@[i].jump_target() is Some,
        ensures
            final(self).out@ == landed(old(self).out@, frame@),
            final(self).frames == old(self).frames,
    {
        let ghost before = self.out@;
        let target = self.out.len();
        match frame {
            BlockFrame::If { skip_body_jump, .. } => {
                assert(awaits(frame@, *skip_body_jump as int));
                patch_jump_target(&mut self.out[*skip_body_jump], target);
            },
            BlockFrame::Else { skip_else_jump, .. } => {
                assert(awaits(frame@, *skip_else_jump as int));
                patch_jump_target(&mut self.out[*skip_else_jump], target);
            },
            BlockFrame::Loop { exit_jump, pending_breaks, .. } => {
                assert(awaits(frame@, *exit_jump as int));
                patch_jump_target(&mut self.out[*exit_jump], target);
                let mut k: usize = 0;
                while k < pending_breaks.len()
                    invariant
                        k <= pending_breaks@.len(),
                        frame@ == (Frame::Loop {
                            top: *exit_jump as int,
                            line: frame_line(frame@),
                            breaks: pending_breaks@,
                        }),
                        self.out@.len() == before.len() == target,
                        self.frames == old(self).frames,
                        forall|i: int| #[trigger]
                            awaits(frame@, i) ==> 0 <= i < before.len()
                                && before[i].jump_target() is Some,
                        forall|i: int|
                            0 <= i < before.len() ==> #[trigger] self.out@[i] == if i == exit_jump
                                || exists|j: int| 0 <= j < k && #[trigger] pending_breaks@[j] == i {
                                before[i].retargeted(target)
                            } else {
                                before[i]
                            },
                    decreases pending_breaks@.len() - k,
                {
                    let ghost b = pending_breaks@[k as int] as int;
                    let ghost out1 = self.out@;
                    assert(frame@->breaks[k as int] == b);
                    assert(awaits(frame@, b));
                    assert(before[b].jump_target() is Some);
                    assert(out1[b] == before[b] || out1[b] == before[b].retargeted(target));
                    patch_jump_target(&mut self.out[pending_breaks[k]], target);
                    assert forall|i: int| 0 <= i < before.len() implies #[trigger] self.out@[i]
                        == if i == exit_jump || exists|j: int|
                        0 <= j < k + 1 && #[trigger] pending_breaks@[j] == i {
                        before[i].retargeted(target)
                    } else {
                        before[i]
                    } by {
                        assert(out1[i] == out1[i]);
                        if i == b {
                            assert(pending_breaks@[k as int] == i);
                        }
                    }
                    k += 1;
                }
                assert forall|i: int| 0 <= i < before.len() implies #[trigger] self.out@[i]
                    == landed(before, frame@)[i] by {
                    assert(awaits(frame@, i) == (i == exit_jump || exists|j: int|
                        0 <= j < k && #[trigger] pending_breaks@[j] == i)) by {
                        let breaks = frame@->breaks;
                        if awaits(frame@, i) && i != exit_jump {
                            let j = choose|j: int|
                                0 <= j < breaks.len() && #[trigger] breaks[j] == i;
                            assert(pending_breaks@[j] == i);
                        }
                    }
                }
            },
        }
        assert(self.out@ =~= landed(before, frame@));
    }

    /// The place of the innermost block that is a loop.
    fn find_loop(&self) -> (at: Option<usize>)
        ensures
            match innermost_loop(self.seen().frames, self.seen().frames.len() as int) {
                Some(k) => at matches Some(i) && i == k && i < self.frames@.len(),
                None => at is None,
            },
    {
        let mut n: usize = self.frames.len();
        while n > 0
            invariant
                n <= self.frames@.len(),
                innermost_loop(self.seen().frames, self.seen().frames.len() as int)
                    == innermost_loop(self.seen().frames, n as int),
            decreases n,
        {
            if let BlockFrame::Loop { .. } = self.frames[n - 1] {
                return Some(n - 1);
            }
            n -= 1;
        }
        None
    }

    /// Opens a block with a condition.
    fn open_block(&mut self, words: &Vec<String>, is_loop: bool, line: usize) -> (r: Result<
        (),
        String,
    >)
        requires
            words@.len() >= 2,
        ensures
            match opened(old(self).seen(), lexer::texts(words@), is_loop, line as nat) {
                Ok(q) => r is Ok && final(self).seen() == q,
                Err(e) => r matches Err(m) && m@ == e,
            },
    {
        let ghost p = self.seen();
        let cond_words = slice_subrange(words.as_slice(), 1, words.len() - 1);
        assert(lexer::texts(cond_words@) =~= lexer::texts(words@).subrange(1, words@.len() - 1));
        let expr = match parse_cond_expr(cond_words) {
            Ok(expr) => expr,
            Err(e) => {
                return Err(e);
            },
        };
        let at = self.out.len();
        self.out.push(cond_jump(expr));
        if is_loop {
            let breaks: Vec<usize> = Vec::new();
            assert(breaks@ =~= Seq::<usize>::empty());
            self.frames.push(BlockFrame::Loop { exit_jump: at, line, pending_breaks: breaks });
        } else {
            self.frames.push(BlockFrame::If { skip_body_jump: at, line });
        }
        assert(self.seen() =~= opened(p, lexer::texts(words@), is_loop, line as nat)->Ok_0);
        Ok(())
    }

    /// Leaves the innermost loop.
    fn add_break(&mut self) -> (r: Result<(), String>)
        ensures
            match innermost_loop(old(self).seen().frames, old(self).seen().frames.len() as int) {
                Some(k) => r is Ok && final(self).seen() == (Partial {
                    out: old(self).out@.push(Action::Jump(usize::MAX)),
                    frames: old(self).seen().frames.update(
                        k,
                        with_break(old(self).seen().frames[k], old(self).out@.len() as usize),
                    ),
                }),
                None => r matches Err(m) && m@ == "`break` outside a loop"@,
            },
    {
        let ghost p = self.seen();
        proof {
            lemma_innermost_loop(p.frames, p.frames.len() as int);
        }
        match self.find_loop() {
            Some(k) => {
                let at = self.out.len();
                self.out.push(Action::Jump(usize::MAX));
                if let BlockFrame::Loop { pending_breaks, .. } = &mut self.frames[k] {
                    pending_breaks.push(at);
                }
                assert(self.seen().frames =~= p.frames.update(
                    k as int,
                    with_break(p.frames[k as int], at),
                ));
                Ok(())
            },
            None => Err(String::from_str("`break` outside a loop")),
        }
    }

    /// Goes back to the top of the innermost loop.
    fn add_continue(&mut self) -> (r: Result<(), String>)
        requires
            sound(old(self).seen()),
        ensures
            match innermost_loop(old(self).seen().frames, old(self).seen().frames.len() as int) {
                Some(k) => r is Ok && final(self).seen() == (Partial {
                    out: old(self).out@.push(
                        Action::Jump(old(self).seen().frames[k]->top as usize),
                    ),
                    ..old(self).seen()
                }),
                None => r matches Err(m) && m@ == "`continue` outside a loop"@,
            },
    {
        let ghost p = self.seen();
        proof {
            lemma_innermost_loop(p.frames, p.frames.len() as int);
        }
        if let Some(k) = self.find_loop() {
            if let BlockFrame::Loop { exit_jump, .. } = &self.frames[k] {
                let top = *exit_jump;
                self.out.push(Action::Jump(top));
                assert(self.seen().frames =~= p.frames);
            }
            return Ok(());
        }
        Err(String::from_str("`continue` outside a loop"))
    }

    /// Closes the innermost block and opens its `else`.
    fn turn_to_else(&mut self, line: usize) -> (r: Result<(), String>)
        requires
            sound(old(self).seen()),
        ensures
            if old(self).seen().frames.len() > 0 && old(self).seen().frames.last() is If {
                r is Ok && final(self).seen() == turned_to_else(old(self).seen(), line as nat)
            } else {
                r matches Err(m) && m@ == "`else` without a matching `if`"@
            },
    {
        let ghost p = self.seen();
        if let Some(frame) = self.frames.pop() {
            if let BlockFrame::If { .. } = frame {
                let at = self.out.len();
                self.out.push(Action::Jump(usize::MAX));
                proof {
                    lemma_last_waits(p, frame@, self.out@);
                }
                self.land(&frame);
                self.frames.push(BlockFrame::Else { skip_else_jump: at, line });
                assert(self.seen() =~= turned_to_else(p, line as nat));
                return Ok(());
            }
        }
        Err(String::from_str("`else` without a matching `if`"))
    }

    /// Closes the innermost block.
    fn close_block(&mut self) -> (r: Result<(), String>)
        requires
            sound(old(self).seen()),
        ensures
            if old(self).seen().frames.len() > 0 {
                r is Ok && final(self).seen() == closed_block(old(self).seen())
            } else {
                r matches Err(m) && m@ == "unmatched `}`"@
            },
    {
        let ghost p = self.seen();
        if let Some(frame) = self.frames.pop() {
            if let BlockFrame::Loop { exit_jump, .. } = &frame {
                let top = *exit_jump;
                self.out.push(Action::Jump(top));
            }
            proof {
                lemma_last_waits(p, frame@, self.out@);
            }
            self.land(&frame);
            assert(self.seen() =~= closed_block(p));
            return Ok(());
        }
        Err(String::from_str("unmatched `}`"))
    }

    /// Adds what a statement makes.
    fn add_statement(&mut self, words: &Vec<String>, code: &str, line: usize) -> (r: Result<
        (),
        String,
    >)
        requires
            sound(old(self).seen()),
        ensures
            match statement(old(self).seen(), lexer::texts(words@), code@, line as nat) {
                Ok(q) => r is Ok && final(self).seen() == q,
                Err(e) => r matches Err(m) && m@ == e,
            },
    {
        let ghost p = self.seen();
        let n = words.len();
        if n >= 2 && same(words[0].as_str(), "if") && same(words[n - 1].as_str(), "{") {
            return self.open_block(words, false, line);
        }
        if n >= 2 && same(words[0].as_str(), "while") && same(words[n - 1].as_str(), "{") {
            return self.open_block(words, true, line);
        }
        if n == 1 && same(words[0].as_str(), "break") {
            return self.add_break();
        }
        if n == 1 && same(words[0].as_str(), "continue") {
            return self.add_continue();
        }
        if n == 3 && same(words[0].as_str(), "}") && same(words[1].as_str(), "else") && same(
            words[2].as_str(),
            "{",
        ) {
            return self.turn_to_else(line);
        }
        if n == 1 && same(words[0].as_str(), "}") {
            return self.close_block();
        }
        match parse_action(words, code) {
            Ok(action) => {
                self.out.push(action);
                assert(self.seen().frames =~= p.frames);
                Ok(())
            },
            Err(e) => Err(e),
        }
    }
}

/// What waits for the innermost block is a jump, whatever comes behind.
proof fn lemma_last_waits(p: Partial, f: Frame, out: Seq<Action>)
    requires
        sound(p),
        p.frames.len() > 0,
        f == p.frames.last(),
        p.out.len() <= out.len(),
        forall|i: int| 0 <= i < p.out.len() ==> #[trigger] out[i] == p.out[i],
    ensures
        forall|i: int| #[trigger]
            awaits(f, i) ==> 0 <= i < out.len() && out[i].jump_target() is Some,
{
    assert forall|i: int| #[trigger] awaits(f, i) implies 0 <= i < out.len()
        && out[i].jump_target() is Some by {
        assert(awaits(p.frames[p.frames.len() - 1], i));
        assert(waited(p.frames, i));
        assert(out[i] == p.out[i]);
    }
}

/// True if every jump leads to an instruction or to the end, and ahead if it depends on a
/// condition.
pub open spec fn jumps_within(out: Seq<Action>) -> bool {
    forall|i: int|
        0 <= i < out.len() ==> ((#[trigger] out[i]).jump_target() matches Some(t) ==> t
            <= out.len() && (!(out[i] is Jump) ==> i < t))
}

/// A line without code adds nothing.
pub proof fn lemma_empty_line(p: Partial, line: nat)
    ensures
        lines_parsed(p, Seq::empty(), line) == Ok::<Partial, Seq<char>>(p),
{
    let nothing = Seq::<char>::empty();
    assert(nothing.take(0) =~= nothing);
}

/// The text between two places.
fn text_between(chars: &Vec<char>, from: usize, to: usize) -> (s: String)
    requires
        from <= to <= chars@.len(),
    ensures
        s@ == chars@.subrange(from as int, to as int),
{
    let mut s = String::new();
    let mut i: usize = from;
    while i < to
        invariant
            from <= i <= to <= chars@.len(),
            s@ == chars@.subrange(from as int, i as int),
        decreases to - i,
    {
        s.push(chars[i]);
        i += 1;
        assert(s@ =~= chars@.subrange(from as int, i as int));
    }
    assert(s@ =~= chars@.subrange(from as int, to as int));
    s
}

/// The instructions of a program, or what is wrong with it. Every jump of a program that is
/// accepted leads to an instruction or to the end, and those that depend on a condition lead
/// ahead.
pub fn parse_program(src: &str) -> (r: Result<Vec<Action>, String>)
    ensures
        match parsed(src@) {
            Ok(out) => r matches Ok(v) && v@ == out,
            Err(e) => r matches Err(m) && m@ == e,
        },
        r matches Ok(v) ==> v@.len() > 0 && jumps_within(v@),
{
    let chars = chars_of(src);
    let mut compiler = Compiler { out: Vec::new(), frames: Vec::new() };
    let ghost start = Partial { out: Seq::empty(), frames: Seq::empty() };
    assert(compiler.seen() =~= start);
    let mut i: usize = 0;
    let mut line: usize = 1;
    assert(chars@.skip(0) =~= chars@);
    while i < chars.len()
        invariant
            chars@ == src@,
            i <= chars@.len(),
            i < chars@.len() ==> compiler.out@.len() < line,
            line <= i + 1,
            sound(compiler.seen()),
            lines_parsed(start, chars@, 1) == lines_parsed(
                compiler.seen(),
                chars@.skip(i as int),
                line as nat,
            ),
            start == (Partial { out: Seq::empty(), frames: Seq::empty() }),
        decreases chars@.len() - i,
    {
        let ghost p = compiler.seen();
        let ghost rest = chars@.skip(i as int);
        let end = find_from(&chars, i, '\n');
        assert(rest.take(end - i) =~= chars@.subrange(i as int, end as int));
        let (lo, hi) = code_range(&chars, i, end);
        if lo < hi {
            let words = split_words(&chars, lo, hi);
            let code = text_between(&chars, lo, hi);
            proof {
                lemma_statement_sound(p, lexer::texts(words@), code@, line as nat);
            }
            if let Err(e) = compiler.add_statement(&words, code.as_str(), line) {
                return Err(line_message(line, e.as_str()));
            }
        }
        if end < chars.len() {
            assert(rest.skip(end - i + 1) =~= chars@.skip(end + 1));
            i = end + 1;
            if i < chars.len() {
                line += 1;
            } else {
                proof {
                    lemma_empty_line(compiler.seen(), line as nat + 1);
                    lemma_empty_line(compiler.seen(), line as nat);
                    assert(chars@.skip(i as int) =~= Seq::<char>::empty());
                }
            }
        } else {
            i = end;
            proof {
                lemma_empty_line(compiler.seen(), line as nat);
                assert(chars@.skip(i as int) =~= Seq::<char>::empty());
            }
        }
    }
    proof {
        lemma_empty_line(compiler.seen(), line as nat);
        assert(chars@.skip(i as int) =~= Seq::<char>::empty());
    }
    if compiler.frames.len() > 0 {
        let frame = &compiler.frames[0];
        let mut message = concat3("unclosed `", frame.kind(), "` block opened on line ");
        push_decimal(&mut message, frame.opened_at() as u64);
        return Err(message);
    }
    if compiler.out.len() == 0 {
        return Err(String::from_str("program is empty"));
    }
    Ok(compiler.out)
}

} // verus!
