//! What programs mean, and that the instructions they become do just that.

use vstd::prelude::*;
use crate::blocks;
use crate::blocks::Block;
use crate::inventory;
use crate::inventory::ResourceKind;
use crate::parser;
use crate::parser::CondExpr;
use crate::program::{Action, Condition, NavQualifier, Target};
use crate::grid::Direction;

verus! {

/// One thing that happens while a program runs.
pub ghost enum Event {
    /// An instruction other than a jump is run.
    Did(Action),
    /// It is asked whether an item of a kind is carried, and this is the answer.
    Asked(ResourceKind, bool),
}

/// How a list of statements is left.
pub ghost enum How {
    /// By its end.
    Through,
    /// By a `break`.
    Left,
    /// By a `continue`.
    Again,
}

/// Whether an item of a kind is carried, after what has happened so far.
pub type Load = spec_fn(Seq<Event>, ResourceKind) -> bool;

/// The kind that a condition asks for: the one that its last word names.
pub open spec fn kind_asked(cond: Seq<Seq<char>>) -> ResourceKind {
    if cond.last() == "energy"@ {
        ResourceKind::Energy
    } else if cond.last() == "grass"@ {
        ResourceKind::Grass
    } else {
        ResourceKind::Wood
    }
}

/// True if a condition, as it is written, holds when the answer is `answer`.
pub open spec fn holds(cond: Seq<Seq<char>>, answer: bool) -> bool {
    if cond[0] == "not"@ {
        !answer
    } else {
        answer
    }
}

/// What has happened once the condition has been asked for.
pub open spec fn after_asking(cond: Seq<Seq<char>>, load: Load, past: Seq<Event>) -> Seq<Event> {
    past.push(Event::Asked(kind_asked(cond), load(past, kind_asked(cond))))
}

/// True if a condition, as it is written, holds after what has happened.
pub open spec fn holds_now(cond: Seq<Seq<char>>, load: Load, past: Seq<Event>) -> bool {
    holds(cond, load(past, kind_asked(cond)))
}

/// What has happened, after `past`, once the statements have been run, and how they are left;
/// nothing if that takes more than `fuel` statements one after the other or within each other.
pub open spec fn meaning(b: Block, load: Load, past: Seq<Event>, fuel: nat) -> Option<
    (Seq<Event>, How),
>
    decreases fuel,
{
    if fuel == 0 {
        None
    } else {
        let less = (fuel - 1) as nat;
        match b {
            Block::End => Some((past, How::Through)),
            Block::Do { words, rest } => meaning(
                *rest,
                load,
                past.push(Event::Did(blocks::instruction(words))),
                less,
            ),
            Block::If { cond, body, rest } => {
                let now = after_asking(cond, load, past);
                if holds_now(cond, load, past) {
                    match meaning(*body, load, now, less) {
                        Some((then, How::Through)) => meaning(*rest, load, then, less),
                        other => other,
                    }
                } else {
                    meaning(*rest, load, now, less)
                }
            },
            Block::IfElse { cond, body, other, rest } => {
                let now = after_asking(cond, load, past);
                let chosen = if holds_now(cond, load, past) {
                    *body
                } else {
                    *other
                };
                match meaning(chosen, load, now, less) {
                    Some((then, How::Through)) => meaning(*rest, load, then, less),
                    early => early,
                }
            },
            Block::While { cond, body, rest } => {
                let now = after_asking(cond, load, past);
                if holds_now(cond, load, past) {
                    match meaning(*body, load, now, less) {
                        Some((then, How::Left)) => meaning(*rest, load, then, less),
                        Some((then, _)) => meaning(b, load, then, less),
                        None => None,
                    }
                } else {
                    meaning(*rest, load, now, less)
                }
            },
            Block::Break { .. } => Some((past, How::Left)),
            Block::Continue { .. } => Some((past, How::Again)),
        }
    }
}

/// The place of the next instruction, and what has happened, after one instruction. Behind the
/// last instruction nothing happens any more.
pub open spec fn one_step(code: Seq<Action>, load: Load, at: (int, Seq<Event>)) -> (
    int,
    Seq<Event>,
) {
    let (pc, past) = at;
    if 0 <= pc < code.len() {
        match code[pc] {
            Action::Jump(to) => (to as int, past),
            Action::JumpIf(Condition::Carrying(kind), to) => (
                if load(past, kind) {
                    to as int
                } else {
                    pc + 1
                },
                past.push(Event::Asked(kind, load(past, kind))),
            ),
            Action::JumpUnless(Condition::Carrying(kind), to) => (
                if load(past, kind) {
                    pc + 1
                } else {
                    to as int
                },
                past.push(Event::Asked(kind, load(past, kind))),
            ),
            action => (pc + 1, past.push(Event::Did(action))),
        }
    } else {
        at
    }
}

/// The place of the next instruction, and what has happened, after `n` instructions.
pub open spec fn steps(code: Seq<Action>, load: Load, at: (int, Seq<Event>), n: nat) -> (
    int,
    Seq<Event>,
)
    decreases n,
{
    if n == 0 {
        at
    } else {
        steps(code, load, one_step(code, load, at), (n - 1) as nat)
    }
}

proof fn lemma_steps_add(code: Seq<Action>, load: Load, at: (int, Seq<Event>), m: nat, n: nat)
    ensures
        steps(code, load, at, m + n) == steps(code, load, steps(code, load, at, m), n),
    decreases m,
{
    if m > 0 {
        lemma_steps_add(code, load, one_step(code, load, at), (m - 1) as nat, n);
    }
}

/// Conditions are read as they are written: `carrying` and the name of a kind, with `not` in front
/// or without.
pub proof fn law_conditions_are_read_as_written(words: Seq<Seq<char>>, kind: ResourceKind)
    ensures
        parser::cond_expr_of(words) == Ok::<CondExpr, Seq<char>>(
            CondExpr { condition: Condition::Carrying(kind), negated: false },
        ) <==> words == seq!["carrying"@, kind.name()],
        parser::cond_expr_of(words) == Ok::<CondExpr, Seq<char>>(
            CondExpr { condition: Condition::Carrying(kind), negated: true },
        ) <==> words == seq!["not"@, "carrying"@, kind.name()],
{
    reveal_strlit("not");
    reveal_strlit("carrying");
    assert("not"@.len() == 3 && "carrying"@.len() == 8);
    if words.len() > 0 && words[0] == "not"@ {
        let rest = words.drop_first();
        if rest.len() == 2 {
            inventory::law_names_tell_kinds_apart(rest[1], kind);
            assert(rest[0] == words[1] && rest[1] == words[2]);
        }
        if words == seq!["not"@, "carrying"@, kind.name()] {
            assert(rest =~= seq!["carrying"@, kind.name()]);
        }
        if rest.len() == 2 && rest[0] == "carrying"@ && rest[1] == kind.name() {
            assert(words =~= seq!["not"@, "carrying"@, kind.name()]);
        }
    } else {
        if words.len() == 2 {
            inventory::law_names_tell_kinds_apart(words[1], kind);
            if words[0] == "carrying"@ && words[1] == kind.name() {
                assert(words =~= seq!["carrying"@, kind.name()]);
            }
        }
    }
}

/// The words of instructions, told apart.
proof fn lemma_words_differ()
    ensures
        "n"@.len() == 1 && "n"@[0] == 'n',
        "north"@.len() == 5 && "north"@[0] == 'n' && "north"@[1] == 'o' && "north"@[2] == 'r',
        "up"@.len() == 2 && "up"@[0] == 'u' && "up"@[1] == 'p',
        "s"@.len() == 1 && "s"@[0] == 's',
        "south"@.len() == 5 && "south"@[0] == 's' && "south"@[1] == 'o' && "south"@[2] == 'u',
        "down"@.len() == 4 && "down"@[0] == 'd' && "down"@[1] == 'o' && "down"@[2] == 'w',
        "e"@.len() == 1 && "e"@[0] == 'e',
        "east"@.len() == 4 && "east"@[0] == 'e' && "east"@[1] == 'a' && "east"@[2] == 's',
        "right"@.len() == 5 && "right"@[0] == 'r' && "right"@[1] == 'i' && "right"@[2] == 'g',
        "w"@.len() == 1 && "w"@[0] == 'w',
        "west"@.len() == 4 && "west"@[0] == 'w' && "west"@[1] == 'e' && "west"@[2] == 's',
        "left"@.len() == 4 && "left"@[0] == 'l' && "left"@[1] == 'e' && "left"@[2] == 'f',
        "wait"@.len() == 4 && "wait"@[0] == 'w' && "wait"@[1] == 'a' && "wait"@[2] == 'i',
        "noop"@.len() == 4 && "noop"@[0] == 'n' && "noop"@[1] == 'o' && "noop"@[2] == 'o',
        "pickup"@.len() == 6 && "pickup"@[0] == 'p' && "pickup"@[1] == 'i' && "pickup"@[2] == 'c',
        "grab"@.len() == 4 && "grab"@[0] == 'g' && "grab"@[1] == 'r' && "grab"@[2] == 'a',
        "take"@.len() == 4 && "take"@[0] == 't' && "take"@[1] == 'a' && "take"@[2] == 'k',
        "drop"@.len() == 4 && "drop"@[0] == 'd' && "drop"@[1] == 'r' && "drop"@[2] == 'o',
        "deposit"@.len() == 7 && "deposit"@[0] == 'd'
            && "deposit"@[1] == 'e' && "deposit"@[2] == 'p',
        "deliver"@.len() == 7 && "deliver"@[0] == 'd'
            && "deliver"@[1] == 'e' && "deliver"@[2] == 'l',
        "navigate_to"@.len() == 11 && "navigate_to"@[0] == 'n'
            && "navigate_to"@[1] == 'a' && "navigate_to"@[2] == 'v',
        "goto"@.len() == 4 && "goto"@[0] == 'g' && "goto"@[1] == 'o' && "goto"@[2] == 't',
        "nav"@.len() == 3 && "nav"@[0] == 'n' && "nav"@[1] == 'a' && "nav"@[2] == 'v',
        "closest"@.len() == 7 && "closest"@[0] == 'c'
            && "closest"@[1] == 'l' && "closest"@[2] == 'o',
        "base"@.len() == 4 && "base"@[0] == 'b' && "base"@[1] == 'a' && "base"@[2] == 's',
        "energy"@.len() == 6 && "energy"@[0] == 'e' && "energy"@[1] == 'n' && "energy"@[2] == 'e',
        "grass"@.len() == 5 && "grass"@[0] == 'g' && "grass"@[1] == 'r' && "grass"@[2] == 'a',
        "wood"@.len() == 4 && "wood"@[0] == 'w' && "wood"@[1] == 'o' && "wood"@[2] == 'o',
{
    reveal_strlit("n");
    reveal_strlit("north");
    reveal_strlit("up");
    reveal_strlit("s");
    reveal_strlit("south");
    reveal_strlit("down");
    reveal_strlit("e");
    reveal_strlit("east");
    reveal_strlit("right");
    reveal_strlit("w");
    reveal_strlit("west");
    reveal_strlit("left");
    reveal_strlit("wait");
    reveal_strlit("noop");
    reveal_strlit("pickup");
    reveal_strlit("grab");
    reveal_strlit("take");
    reveal_strlit("drop");
    reveal_strlit("deposit");
    reveal_strlit("deliver");
    reveal_strlit("navigate_to");
    reveal_strlit("goto");
    reveal_strlit("nav");
    reveal_strlit("closest");
    reveal_strlit("base");
    reveal_strlit("energy");
    reveal_strlit("grass");
    reveal_strlit("wood");
}

/// Instructions are read as they are written: each instruction comes of its own words, and of no
/// others.
pub proof fn law_instructions_are_read_as_written(
    words: Seq<Seq<char>>,
    code: Seq<char>,
    kind: ResourceKind,
)
    ensures
        ({
            let read = parser::action_of(words, code);
            let named = |w: Seq<char>, a: Seq<char>, b: Seq<char>, c: Seq<char>|
                w == a || w == b || w == c;
            let alone = words.len() == 1;
            let pick = |w: Seq<char>| named(w, "pickup"@, "grab"@, "take"@);
            let go = words.len() == 3 && named(words[0], "navigate_to"@, "goto"@, "nav"@)
                && words[1] == "closest"@;
            let makes = |a: Action| read == Ok::<Action, Seq<char>>(a);
            &&& makes(Action::Move(Direction::North)) <==> alone && named(
                words[0],
                "n"@,
                "north"@,
                "up"@,
            )
            &&& makes(Action::Move(Direction::South)) <==> alone && named(
                words[0],
                "s"@,
                "south"@,
                "down"@,
            )
            &&& makes(Action::Move(Direction::East)) <==> alone && named(
                words[0],
                "e"@,
                "east"@,
                "right"@,
            )
            &&& makes(Action::Move(Direction::West)) <==> alone && named(
                words[0],
                "w"@,
                "west"@,
                "left"@,
            )
            &&& makes(Action::Wait) <==> alone && (words[0] == "wait"@ || words[0] == "noop"@)
            &&& makes(Action::Drop) <==> alone && named(
                words[0],
                "drop"@,
                "deposit"@,
                "deliver"@,
            )
            &&& makes(Action::Pickup(None)) <==> alone && pick(words[0])
            &&& makes(Action::Pickup(Some(kind))) <==> words.len() == 2 && pick(words[0])
                && words[1] == kind.name()
            &&& makes(Action::NavigateTo(NavQualifier::Closest, Target::Base)) <==> go && words[2]
                == "base"@
            &&& makes(Action::NavigateTo(NavQualifier::Closest, Target::Resource(kind))) <==> go
                && words[2] == kind.name()
            &&& read matches Ok(a) ==> !(a is Jump) && !(a is JumpIf) && !(a is JumpUnless)
        }),
{
    lemma_words_differ();
    if words.len() == 2 {
        inventory::law_names_tell_kinds_apart(words[1], kind);
    }
    if words.len() == 3 {
        inventory::law_names_tell_kinds_apart(words[2], kind);
    }
}

/// What the jump at the head of a block asks for, and when it is taken.
proof fn lemma_head(cond: Seq<Seq<char>>, to: int)
    requires
        blocks::is_condition(cond),
        0 <= to <= usize::MAX,
    ensures
        cond.len() > 0,
        blocks::jump_unless_held(cond, to) == (if cond[0] == "not"@ {
            Action::JumpIf(Condition::Carrying(kind_asked(cond)), to as usize)
        } else {
            Action::JumpUnless(Condition::Carrying(kind_asked(cond)), to as usize)
        }),
{
    reveal(blocks::is_condition);
    reveal(blocks::jump_unless_held);
    reveal_strlit("energy");
    reveal_strlit("grass");
    reveal_strlit("wood");
    assert("energy"@.len() == 6 && "grass"@.len() == 5 && "wood"@.len() == 4);
    let expr = parser::cond_expr_of(cond)->Ok_0;
    match expr.condition {
        Condition::Carrying(kind) => {
            law_conditions_are_read_as_written(cond, kind);
            reveal_strlit("not");
            reveal_strlit("carrying");
            assert("not"@.len() == 3 && "carrying"@.len() == 8);
            if expr.negated {
                assert(cond[0] == "not"@ && cond.last() == kind.name());
            } else {
                assert(cond[0] == "carrying"@ && cond.last() == kind.name());
            }
        },
    }
}

/// True if the instructions of the statements stand in the code from place `at` on.
spec fn stands(code: Seq<Action>, b: Block, at: int, top: int, end: int) -> bool {
    &&& 0 <= at
    &&& at + blocks::size(b) <= code.len() <= usize::MAX
    &&& code.subrange(at, at + blocks::size(b)) == blocks::compiled(b, at, top, end)
}

/// The instructions of a part of the statements stand where the part begins.
proof fn lemma_part(
    code: Seq<Action>,
    all: Seq<Action>,
    at: int,
    front: Seq<Action>,
    part: Seq<Action>,
    back: Seq<Action>,
)
    requires
        0 <= at,
        at + all.len() <= code.len(),
        code.subrange(at, at + all.len()) == all,
        all == front + part + back,
    ensures
        code.subrange(at + front.len(), at + front.len() + part.len()) == part,
{
    let n = front.len() as int;
    assert forall|i: int| 0 <= i < part.len() implies code[at + n + i] == part[i] by {
        assert(all[n + i] == part[i]);
        assert(code.subrange(at, at + all.len())[n + i] == code[at + n + i]);
    }
    assert(code.subrange(at + n, at + n + part.len()) =~= part);
}

/// Where the instructions go on once the statements have been run.
spec fn goes_on(b: Block, how: How, at: int, top: int, end: int) -> int {
    match how {
        How::Through => at + blocks::size(b),
        How::Left => end,
        How::Again => top,
    }
}

/// What is to be shown of statements: their instructions do what they mean.
spec fn does(
    code: Seq<Action>,
    b: Block,
    load: Load,
    past: Seq<Event>,
    fuel: nat,
    at: int,
    top: int,
    end: int,
    n: nat,
) -> bool {
    meaning(b, load, past, fuel) matches Some((then, how)) ==> steps(code, load, (at, past), n) == (
        goes_on(b, how, at, top, end),
        then,
    )
}

/// An instruction that is no jump.
proof fn lemma_instruction_is_no_jump(words: Seq<Seq<char>>)
    requires
        blocks::is_instruction(words),
    ensures
        blocks::instruction(words).jump_target() is None,
{
    reveal(blocks::is_instruction);
    reveal(blocks::instruction);
}

/// The case of an instruction.
proof fn lemma_does_do(
    code: Seq<Action>,
    b: Block,
    in_loop: bool,
    load: Load,
    past: Seq<Event>,
    fuel: nat,
    at: int,
    top: int,
    end: int,
) -> (n: nat)
    requires
        b is Do,
        fuel > 0,
        stands(code, b, at, top, end),
        blocks::proper(b, in_loop),
        0 <= top <= usize::MAX,
        0 <= end <= usize::MAX,
    ensures
        does(code, b, load, past, fuel, at, top, end, n),
    decreases fuel, 0int,
{
    let less = (fuel - 1) as nat;
    let words = b->Do_words;
    let rest = *b->Do_rest;
    let first = seq![blocks::instruction(words)];
    let code2 = blocks::compiled(rest, at + 1, top, end);
    let none = Seq::<Action>::empty();
    let all = blocks::compiled(b, at, top, end);
    blocks::lemma_compiled_len(rest, at + 1, top, end);
    assert(all =~= none + first + code2);
    assert(all =~= first + code2 + none);
    lemma_part(code, all, at, none, first, code2);
    lemma_part(code, all, at, first, code2, none);
    assert(code.subrange(at, at + 1)[0] == code[at]);
    lemma_instruction_is_no_jump(words);
    let now = past.push(Event::Did(blocks::instruction(words)));
    assert(one_step(code, load, (at, past)) == (at + 1, now));
    let n = lemma_does(code, rest, in_loop, load, now, less, at + 1, top, end);
    n + 1
}

/// The case of an `if` without `else`.
proof fn lemma_does_if(
    code: Seq<Action>,
    b: Block,
    in_loop: bool,
    load: Load,
    past: Seq<Event>,
    fuel: nat,
    at: int,
    top: int,
    end: int,
) -> (n: nat)
    requires
        b is If,
        fuel > 0,
        stands(code, b, at, top, end),
        blocks::proper(b, in_loop),
        0 <= top <= usize::MAX,
        0 <= end <= usize::MAX,
    ensures
        does(code, b, load, past, fuel, at, top, end, n),
    decreases fuel, 0int,
{
    let less = (fuel - 1) as nat;
    let cond = b->If_cond;
    let body = *b->If_body;
    let rest = *b->If_rest;
    let behind = at + 1 + blocks::size(body);
    let first = seq![blocks::jump_unless_held(cond, behind)];
    let code1 = blocks::compiled(body, at + 1, top, end);
    let code2 = blocks::compiled(rest, behind, top, end);
    let none = Seq::<Action>::empty();
    let all = blocks::compiled(b, at, top, end);
    blocks::lemma_compiled_len(body, at + 1, top, end);
    blocks::lemma_compiled_len(rest, behind, top, end);
    assert(all =~= none + first + (code1 + code2));
    assert(all =~= first + code1 + code2);
    assert(all =~= (first + code1) + code2 + none);
    lemma_part(code, all, at, none, first, code1 + code2);
    lemma_part(code, all, at, first, code1, code2);
    lemma_part(code, all, at, first + code1, code2, none);
    assert(code.subrange(at, at + 1)[0] == code[at]);
    lemma_head(cond, behind);
    let now = after_asking(cond, load, past);
    if holds_now(cond, load, past) {
        assert(one_step(code, load, (at, past)) == (at + 1, now));
        let n1 = lemma_does(code, body, in_loop, load, now, less, at + 1, top, end);
        match meaning(body, load, now, less) {
            Some((then, How::Through)) => {
                let n2 = lemma_does(code, rest, in_loop, load, then, less, behind, top, end);
                lemma_steps_add(code, load, (at + 1, now), n1, n2);
                1 + n1 + n2
            },
            _ => 1 + n1,
        }
    } else {
        assert(one_step(code, load, (at, past)) == (behind, now));
        let n2 = lemma_does(code, rest, in_loop, load, now, less, behind, top, end);
        1 + n2
    }
}

/// Where the parts of an `if` with `else` stand.
proof fn lemma_if_else_stands(code: Seq<Action>, b: Block, at: int, top: int, end: int)
    requires
        b is IfElse,
        stands(code, b, at, top, end),
    ensures
        ({
            let second = at + 1 + blocks::size(*b->IfElse_body) + 1;
            let behind = second + blocks::size(*b->IfElse_other);
            &&& code[at] == blocks::jump_unless_held(b->IfElse_cond, second)
            &&& code[second - 1] == Action::Jump(behind as usize)
            &&& stands(code, *b->IfElse_body, at + 1, top, end)
            &&& stands(code, *b->IfElse_other, second, top, end)
            &&& stands(code, *b->IfElse_rest, behind, top, end)
            &&& behind + blocks::size(*b->IfElse_rest) == at + blocks::size(b)
        }),
{
    let cond = b->IfElse_cond;
    let body = *b->IfElse_body;
    let other = *b->IfElse_other;
    let rest = *b->IfElse_rest;
    let second = at + 1 + blocks::size(body) + 1;
    let behind = second + blocks::size(other);
    let first = seq![blocks::jump_unless_held(cond, second)];
    let over = seq![Action::Jump(behind as usize)];
    let code1 = blocks::compiled(body, at + 1, top, end);
    let code2 = blocks::compiled(other, second, top, end);
    let code3 = blocks::compiled(rest, behind, top, end);
    let none = Seq::<Action>::empty();
    let all = blocks::compiled(b, at, top, end);
    blocks::lemma_compiled_len(body, at + 1, top, end);
    blocks::lemma_compiled_len(other, second, top, end);
    blocks::lemma_compiled_len(rest, behind, top, end);
    assert(all =~= none + first + (code1 + over + code2 + code3));
    assert(all =~= first + code1 + (over + code2 + code3));
    assert(all =~= (first + code1) + over + (code2 + code3));
    assert(all =~= (first + code1 + over) + code2 + code3);
    assert(all =~= (first + code1 + over + code2) + code3 + none);
    lemma_part(code, all, at, none, first, code1 + over + code2 + code3);
    lemma_part(code, all, at, first, code1, over + code2 + code3);
    lemma_part(code, all, at, first + code1, over, code2 + code3);
    lemma_part(code, all, at, first + code1 + over, code2, code3);
    lemma_part(code, all, at, first + code1 + over + code2, code3, none);
    assert(code.subrange(at, at + 1)[0] == code[at]);
    assert(code.subrange(second - 1, second)[0] == code[second - 1]);
}

/// Where the parts of a `while` stand.
proof fn lemma_while_stands(code: Seq<Action>, b: Block, at: int, top: int, end: int)
    requires
        b is While,
        stands(code, b, at, top, end),
    ensures
        ({
            let behind = at + 1 + blocks::size(*b->While_body) + 1;
            &&& code[at] == blocks::jump_unless_held(b->While_cond, behind)
            &&& code[behind - 1] == Action::Jump(at as usize)
            &&& stands(code, *b->While_body, at + 1, at, behind)
            &&& stands(code, *b->While_rest, behind, top, end)
            &&& behind + blocks::size(*b->While_rest) == at + blocks::size(b)
        }),
{
    let cond = b->While_cond;
    let body = *b->While_body;
    let rest = *b->While_rest;
    let behind = at + 1 + blocks::size(body) + 1;
    let first = seq![blocks::jump_unless_held(cond, behind)];
    let back = seq![Action::Jump(at as usize)];
    let code1 = blocks::compiled(body, at + 1, at, behind);
    let code2 = blocks::compiled(rest, behind, top, end);
    let none = Seq::<Action>::empty();
    let all = blocks::compiled(b, at, top, end);
    blocks::lemma_compiled_len(body, at + 1, at, behind);
    blocks::lemma_compiled_len(rest, behind, top, end);
    assert(all =~= none + first + (code1 + back + code2));
    assert(all =~= first + code1 + (back + code2));
    assert(all =~= (first + code1) + back + code2);
    assert(all =~= (first + code1 + back) + code2 + none);
    lemma_part(code, all, at, none, first, code1 + back + code2);
    lemma_part(code, all, at, first, code1, back + code2);
    lemma_part(code, all, at, first + code1, back, code2);
    lemma_part(code, all, at, first + code1 + back, code2, none);
    assert(code.subrange(at, at + 1)[0] == code[at]);
    assert(code.subrange(behind - 1, behind)[0] == code[behind - 1]);
}

/// The case of an `if` with `else`.
proof fn lemma_does_if_else(
    code: Seq<Action>,
    b: Block,
    in_loop: bool,
    load: Load,
    past: Seq<Event>,
    fuel: nat,
    at: int,
    top: int,
    end: int,
) -> (n: nat)
    requires
        b is IfElse,
        fuel > 0,
        stands(code, b, at, top, end),
        blocks::proper(b, in_loop),
        0 <= top <= usize::MAX,
        0 <= end <= usize::MAX,
    ensures
        does(code, b, load, past, fuel, at, top, end, n),
    decreases fuel, 0int,
{
    let less = (fuel - 1) as nat;
    let cond = b->IfElse_cond;
    let body = *b->IfElse_body;
    let other = *b->IfElse_other;
    let rest = *b->IfElse_rest;
    let second = at + 1 + blocks::size(body) + 1;
    let behind = second + blocks::size(other);
    lemma_if_else_stands(code, b, at, top, end);
    lemma_head(cond, second);
    let now = after_asking(cond, load, past);
    if holds_now(cond, load, past) {
        assert(one_step(code, load, (at, past)) == (at + 1, now));
        let n1 = lemma_does(code, body, in_loop, load, now, less, at + 1, top, end);
        match meaning(body, load, now, less) {
            Some((then, How::Through)) => {
                assert(one_step(code, load, (second - 1, then)) == (behind, then));
                let n2 = lemma_does(code, rest, in_loop, load, then, less, behind, top, end);
                lemma_steps_add(code, load, (at + 1, now), n1, 1 + n2);
                1 + n1 + (1 + n2)
            },
            _ => 1 + n1,
        }
    } else {
        assert(one_step(code, load, (at, past)) == (second, now));
        let n1 = lemma_does(code, other, in_loop, load, now, less, second, top, end);
        match meaning(other, load, now, less) {
            Some((then, How::Through)) => {
                let n2 = lemma_does(code, rest, in_loop, load, then, less, behind, top, end);
                lemma_steps_add(code, load, (second, now), n1, n2);
                1 + n1 + n2
            },
            _ => 1 + n1,
        }
    }
}

/// The case of a `while`.
proof fn lemma_does_while(
    code: Seq<Action>,
    b: Block,
    in_loop: bool,
    load: Load,
    past: Seq<Event>,
    fuel: nat,
    at: int,
    top: int,
    end: int,
) -> (n: nat)
    requires
        b is While,
        fuel > 0,
        stands(code, b, at, top, end),
        blocks::proper(b, in_loop),
        0 <= top <= usize::MAX,
        0 <= end <= usize::MAX,
    ensures
        does(code, b, load, past, fuel, at, top, end, n),
    decreases fuel, 0int,
{
    let less = (fuel - 1) as nat;
    let cond = b->While_cond;
    let body = *b->While_body;
    let rest = *b->While_rest;
    let behind = at + 1 + blocks::size(body) + 1;
    lemma_while_stands(code, b, at, top, end);
    lemma_head(cond, behind);
    let now = after_asking(cond, load, past);
    if holds_now(cond, load, past) {
        assert(one_step(code, load, (at, past)) == (at + 1, now));
        let n1 = lemma_does(code, body, true, load, now, less, at + 1, at, behind);
        match meaning(body, load, now, less) {
            Some((then, How::Left)) => {
                let n2 = lemma_does(code, rest, in_loop, load, then, less, behind, top, end);
                lemma_steps_add(code, load, (at + 1, now), n1, n2);
                1 + n1 + n2
            },
            Some((then, How::Through)) => {
                assert(one_step(code, load, (behind - 1, then)) == (at, then));
                let n2 = lemma_does(code, b, in_loop, load, then, less, at, top, end);
                lemma_steps_add(code, load, (at + 1, now), n1, 1 + n2);
                1 + n1 + (1 + n2)
            },
            Some((then, How::Again)) => {
                let n2 = lemma_does(code, b, in_loop, load, then, less, at, top, end);
                lemma_steps_add(code, load, (at + 1, now), n1, n2);
                1 + n1 + n2
            },
            None => 0,
        }
    } else {
        assert(one_step(code, load, (at, past)) == (behind, now));
        let n2 = lemma_does(code, rest, in_loop, load, now, less, behind, top, end);
        1 + n2
    }
}

proof fn lemma_does(
    code: Seq<Action>,
    b: Block,
    in_loop: bool,
    load: Load,
    past: Seq<Event>,
    fuel: nat,
    at: int,
    top: int,
    end: int,
) -> (n: nat)
    requires
        stands(code, b, at, top, end),
        blocks::proper(b, in_loop),
        0 <= top <= usize::MAX,
        0 <= end <= usize::MAX,
    ensures
        does(code, b, load, past, fuel, at, top, end, n),
    decreases fuel, 1int,
{
    if fuel == 0 {
        0
    } else {
        match b {
            Block::End => 0,
            Block::Do { .. } => lemma_does_do(code, b, in_loop, load, past, fuel, at, top, end),
            Block::If { .. } => lemma_does_if(code, b, in_loop, load, past, fuel, at, top, end),
            Block::IfElse { .. } => lemma_does_if_else(
                code,
                b,
                in_loop,
                load,
                past,
                fuel,
                at,
                top,
                end,
            ),
            Block::While { .. } => lemma_does_while(
                code,
                b,
                in_loop,
                load,
                past,
                fuel,
                at,
                top,
                end,
            ),
            Block::Break { rest } => {
                let all = blocks::compiled(b, at, top, end);
                blocks::lemma_compiled_len(b, at, top, end);
                assert(all[0] == Action::Jump(end as usize));
                assert(code.subrange(at, at + blocks::size(b))[0] == code[at]);
                assert(one_step(code, load, (at, past)) == (end, past));
                reveal_with_fuel(steps, 2);
                1
            },
            Block::Continue { rest } => {
                let all = blocks::compiled(b, at, top, end);
                blocks::lemma_compiled_len(b, at, top, end);
                assert(all[0] == Action::Jump(top as usize));
                assert(code.subrange(at, at + blocks::size(b))[0] == code[at]);
                assert(one_step(code, load, (at, past)) == (top, past));
                reveal_with_fuel(steps, 2);
                1
            },
        }
    }
}

/// Outside a loop, statements are left by their end only.
proof fn lemma_left_by_the_end(b: Block, load: Load, past: Seq<Event>, fuel: nat)
    requires
        blocks::proper(b, false),
    ensures
        meaning(b, load, past, fuel) matches Some((_, how)) ==> how is Through,
    decreases fuel,
{
    if fuel > 0 {
        let less = (fuel - 1) as nat;
        match b {
            Block::Do { words, rest } => {
                let now = past.push(Event::Did(blocks::instruction(words)));
                lemma_left_by_the_end(*rest, load, now, less);
            },
            Block::If { cond, body, rest } => {
                let now = after_asking(cond, load, past);
                lemma_left_by_the_end(*body, load, now, less);
                lemma_left_by_the_end(*rest, load, now, less);
                if let Some((then, _)) = meaning(*body, load, now, less) {
                    lemma_left_by_the_end(*rest, load, then, less);
                }
            },
            Block::IfElse { cond, body, other, rest } => {
                let now = after_asking(cond, load, past);
                lemma_left_by_the_end(*body, load, now, less);
                lemma_left_by_the_end(*other, load, now, less);
                if let Some((then, _)) = meaning(*body, load, now, less) {
                    lemma_left_by_the_end(*rest, load, then, less);
                }
                if let Some((then, _)) = meaning(*other, load, now, less) {
                    lemma_left_by_the_end(*rest, load, then, less);
                }
            },
            Block::While { cond, body, rest } => {
                let now = after_asking(cond, load, past);
                lemma_left_by_the_end(*rest, load, now, less);
                if let Some((then, _)) = meaning(*body, load, now, less) {
                    lemma_left_by_the_end(*rest, load, then, less);
                    lemma_left_by_the_end(b, load, then, less);
                }
            },
            _ => {},
        }
    }
}

/// Programs do what they say: whatever the worker comes to carry, running the instructions that a
/// text becomes does the same things and asks the same questions, in the same order, as running
/// the statements that the text spells; and when those are done, the end has been reached.
pub proof fn law_programs_do_what_they_say(source: Seq<char>, b: Block, load: Load, fuel: nat) -> (n:
    nat)
    requires
        blocks::spells(blocks::code_lines(source, 1), blocks::written(b)),
        blocks::proper(b, false),
        0 < blocks::size(b) <= usize::MAX,
        meaning(b, load, Seq::empty(), fuel) is Some,
    ensures
        parser::parsed(source) is Ok,
        ({
            let code = parser::parsed(source)->Ok_0;
            let (events, _) = meaning(b, load, Seq::empty(), fuel)->0;
            steps(code, load, (0, Seq::empty()), n) == (code.len() as int, events)
        }),
{
    blocks::law_blocks_become_jumps(source, b);
    let code = blocks::compiled(b, 0, 0, 0);
    blocks::lemma_compiled_len(b, 0, 0, 0);
    assert(code.subrange(0, code.len() as int) =~= code);
    lemma_left_by_the_end(b, load, Seq::empty(), fuel);
    lemma_does(code, b, false, load, Seq::empty(), fuel, 0, 0, 0)
}

/// What is said of words that make no instruction.
pub proof fn law_messages_for_instructions(words: Seq<Seq<char>>, code: Seq<char>, m: Seq<char>)
    requires
        parser::action_of(words, code) == Err::<Action, Seq<char>>(m),
    ensures
        ({
            let pick = words[0] == "pickup"@ || words[0] == "grab"@ || words[0] == "take"@;
            let go = words[0] == "navigate_to"@ || words[0] == "goto"@ || words[0] == "nav"@;
            m == (if words.len() == 2 && pick {
                "unknown resource kind '"@ + words[1] + "'"@
            } else if words.len() == 3 && go && words[1] != "closest"@ {
                "unknown nav qualifier '"@ + words[1] + "'"@
            } else if words.len() == 3 && go {
                "unknown nav target '"@ + words[2] + "'"@
            } else {
                "unknown instruction '"@ + code + "'"@
            })
        }),
{
}

/// What is said of words that make no condition.
pub proof fn law_messages_for_conditions(words: Seq<Seq<char>>, m: Seq<char>)
    requires
        parser::cond_expr_of(words) == Err::<CondExpr, Seq<char>>(m),
    ensures
        ({
            let bare = if words.len() > 0 && words[0] == "not"@ {
                words.skip(1)
            } else {
                words
            };
            m == (if bare.len() == 2 && bare[0] == "carrying"@ {
                "unknown resource kind '"@ + bare[1] + "' in condition"@
            } else {
                "unknown condition: `"@ + parser::joined(bare) + "`"@
            })
        }),
{
    assert(words.len() > 0 ==> words.drop_first() =~= words.skip(1));
}

/// Words are joined by single spaces.
pub proof fn law_words_are_joined_by_spaces(a: Seq<Seq<char>>, b: Seq<Seq<char>>, w: Seq<char>)
    ensures
        parser::joined(Seq::empty()) == Seq::<char>::empty(),
        parser::joined(seq![w]) == w,
        a.len() > 0 && b.len() > 0 ==> parser::joined(a + b) == parser::joined(a) + seq![' ']
            + parser::joined(b),
    decreases b.len(),
{
    reveal_with_fuel(parser::joined, 2);
    reveal_strlit(" ");
    assert(" "@ =~= seq![' ']);
    if a.len() > 0 && b.len() > 0 {
        assert((a + b).drop_last() =~= a + b.drop_last());
        assert((a + b).last() == b.last());
        if b.len() == 1 {
            assert(a + b.drop_last() =~= a);
        } else {
            law_words_are_joined_by_spaces(a, b.drop_last(), w);
        }
        assert(parser::joined(a + b) =~= parser::joined(a) + seq![' '] + parser::joined(b));
    }
}

/// What is said of lines that end or leave a block that is not open.
pub proof fn law_messages_for_stray_lines(
    p: parser::Partial,
    code: Seq<char>,
    line: nat,
)
    ensures
        ({
            let none = forall|i: int| 0 <= i < p.frames.len() ==> !(#[trigger] p.frames[i] is Loop);
            let said = |words: Seq<Seq<char>>, m: Seq<char>|
                parser::statement(p, words, code, line) == Err::<parser::Partial, Seq<char>>(m);
            &&& none ==> said(seq!["break"@], "`break` outside a loop"@)
            &&& none ==> said(seq!["continue"@], "`continue` outside a loop"@)
            &&& p.frames.len() == 0 ==> said(seq!["}"@], "unmatched `}`"@)
            &&& p.frames.len() == 0 || !(p.frames.last() is If) ==> said(
                seq!["}"@, "else"@, "{"@],
                "`else` without a matching `if`"@,
            )
        }),
{
    reveal_strlit("if");
    reveal_strlit("while");
    reveal_strlit("break");
    reveal_strlit("continue");
    reveal_strlit("}");
    assert("if"@.len() == 2 && "while"@.len() == 5 && "break"@.len() == 5 && "continue"@.len() == 8
        && "}"@.len() == 1);
    parser::lemma_innermost_loop(p.frames, p.frames.len() as int);
}

/// What is said of a text all of whose lines are good: which block is not closed, the outermost
/// if there are several, or that there is nothing to do.
pub proof fn law_messages_for_whole_texts(source: Seq<char>, p: parser::Partial)
    requires
        parser::lines_parsed(
            parser::Partial { out: Seq::empty(), frames: Seq::empty() },
            source,
            1,
        ) == Ok::<parser::Partial, Seq<char>>(p),
    ensures
        p.frames.len() == 0 && p.out.len() == 0 ==> parser::parsed(source) == Err::<
            Seq<Action>,
            Seq<char>,
        >("program is empty"@),
        p.frames.len() == 0 && p.out.len() > 0 ==> parser::parsed(source) == Ok::<
            Seq<Action>,
            Seq<char>,
        >(p.out),
        p.frames.len() > 0 ==> {
            let (word, line) = match p.frames[0] {
                parser::Frame::If { line, .. } => ("if"@, line),
                parser::Frame::Else { line, .. } => ("else"@, line),
                parser::Frame::Loop { line, .. } => ("while"@, line),
            };
            parser::parsed(source) == Err::<Seq<Action>, Seq<char>>(
                "unclosed `"@ + word + "` block opened on line "@ + crate::text::decimal(line),
            )
        },
{
}

} // verus!
