//! What a worker's program is made of.

use vstd::prelude::*;
use crate::grid::Direction;
use crate::inventory;
use crate::inventory::{Inventory, ResourceKind};

verus! {

/// Which of several targets to go to.
#[derive(Copy, Clone, Debug, PartialEq, Eq, Structural)]
pub enum NavQualifier {
    Closest,
}

/// Where to go.
#[derive(Copy, Clone, Debug, PartialEq, Eq, Structural)]
pub enum Target {
    Resource(ResourceKind),
    Base,
}

/// What a branch depends on.
#[derive(Copy, Clone, Debug, PartialEq, Eq, Structural)]
pub enum Condition {
    /// At least one item of the kind is carried.
    Carrying(ResourceKind),
}

/// One instruction. Jumps are written by the compiler only; their targets are places in the
/// same program.
#[derive(Copy, Clone, Debug, PartialEq, Eq, Structural)]
pub enum Action {
    Move(Direction),
    Wait,
    /// Pick up an item of the kind, or of any kind if none is given.
    Pickup(Option<ResourceKind>),
    Drop,
    NavigateTo(NavQualifier, Target),
    Jump(usize),
    JumpIf(Condition, usize),
    JumpUnless(Condition, usize),
}

impl Action {
    /// True of the instructions that may move the worker.
    pub open spec fn walks(self) -> bool {
        self is Move || self is NavigateTo
    }

    /// The target of a jump.
    pub open spec fn jump_target(self) -> Option<usize> {
        match self {
            Action::Jump(t) => Some(t),
            Action::JumpIf(_, t) => Some(t),
            Action::JumpUnless(_, t) => Some(t),
            _ => None,
        }
    }

    /// The same jump to another target.
    pub open spec fn retargeted(self, target: usize) -> Action {
        match self {
            Action::Jump(_) => Action::Jump(target),
            Action::JumpIf(c, _) => Action::JumpIf(c, target),
            Action::JumpUnless(c, _) => Action::JumpUnless(c, target),
            _ => self,
        }
    }
}

/// A worker's program and the place of the instruction to run next.
pub struct Program {
    pub instructions: Vec<Action>,
    pub pc: usize,
}

impl Program {
    /// True if there is nothing to run, or the place is one of the program.
    pub open spec fn wf(&self) -> bool {
        self.instructions@.len() == 0 || self.pc < self.instructions@.len()
    }
}

impl Default for Program {
    fn default() -> (p: Program)
        ensures
            p.instructions@.len() == 0,
            p.pc == 0,
    {
        Program { instructions: Vec::new(), pc: 0 }
    }
}

/// True if a condition holds of what is carried.
pub open spec fn condition_holds(cond: Condition, carried: Seq<ResourceKind>) -> bool {
    match cond {
        Condition::Carrying(kind) => carried.contains(kind),
    }
}

/// True if a condition holds of what is carried.
pub fn evaluate_condition(cond: Condition, inv: &Inventory) -> (b: bool)
    ensures
        b == condition_holds(cond, inv@),
        cond matches Condition::Carrying(kind) ==> b == exists|i: int|
            0 <= i < inv@.len() && #[trigger] inv@[i] == kind,
{
    match cond {
        Condition::Carrying(kind) => inv.carries(kind),
    }
}

/// A kind is carried if and only if the load holds at least one item of it, at whatever place.
pub proof fn law_carrying_is_having_some(kind: ResourceKind, carried: Seq<ResourceKind>)
    ensures
        condition_holds(Condition::Carrying(kind), carried) <==> inventory::occurrences(
            carried,
            kind,
        ) > 0,
        condition_holds(Condition::Carrying(kind), carried) <==> exists|i: int|
            0 <= i < carried.len() && #[trigger] carried[i] == kind,
{
    inventory::lemma_occurrences_contains(carried, kind);
}

/// Whether a kind is carried does not depend on the order of the load, and what is added to a load
/// is carried from then on, with all that was carried before.
pub proof fn law_carrying_grows_with_the_load(
    kind: ResourceKind,
    front: Seq<ResourceKind>,
    back: Seq<ResourceKind>,
)
    ensures
        condition_holds(Condition::Carrying(kind), front + back) == (condition_holds(
            Condition::Carrying(kind),
            front,
        ) || condition_holds(Condition::Carrying(kind), back)),
        condition_holds(Condition::Carrying(kind), front.push(kind)),
        !condition_holds(Condition::Carrying(kind), Seq::empty()),
{
    inventory::lemma_occurrences_add(front, back, kind);
    law_carrying_is_having_some(kind, front + back);
    law_carrying_is_having_some(kind, front);
    law_carrying_is_having_some(kind, back);
    assert(front.push(kind)[front.len() as int] == kind);
}

/// The yaw, in quarter turns, that a worker starts with: that of the first move of its program,
/// or north.
pub fn initial_yaw(instructions: &Vec<Action>) -> (q: i32)
    ensures
        match first_move(instructions@) {
            Some(d) => q == d.quarter_turns(),
            None => q == 0,
        },
{
    let mut i: usize = 0;
    assert(instructions@.skip(0) =~= instructions@);
    while i < instructions.len()
        invariant
            i <= instructions@.len(),
            first_move(instructions@) == first_move(instructions@.skip(i as int)),
        decreases instructions@.len() - i,
    {
        if let Action::Move(d) = instructions[i] {
            return d.yaw();
        }
        assert(instructions@.skip(i as int).drop_first() =~= instructions@.skip(i + 1));
        i += 1;
    }
    0
}

/// The direction of the first move, if there is one.
pub open spec fn first_move(instructions: Seq<Action>) -> Option<Direction>
    decreases instructions.len(),
{
    if instructions.len() == 0 {
        None
    } else if let Action::Move(d) = instructions[0] {
        Some(d)
    } else {
        first_move(instructions.drop_first())
    }
}

/// The first move is one of the instructions, and none before it is a move; where there is none,
/// no instruction is a move.
pub proof fn law_first_move_comes_first(instructions: Seq<Action>) -> (i: int)
    ensures
        match first_move(instructions) {
            Some(d) => {
                &&& 0 <= i < instructions.len()
                &&& instructions[i] == Action::Move(d)
                &&& forall|j: int| 0 <= j < i ==> !(#[trigger] instructions[j] is Move)
            },
            None => forall|j: int|
                0 <= j < instructions.len() ==> !(#[trigger] instructions[j] is Move),
        },
    decreases instructions.len(),
{
    if instructions.len() == 0 || instructions[0] is Move {
        0
    } else {
        let rest = instructions.drop_first();
        let i = law_first_move_comes_first(rest);
        assert forall|j: int|
            1 <= j < instructions.len() && !(rest[j - 1] is Move) implies !(
        #[trigger] instructions[j] is Move) by {}
        i + 1
    }
}

} // verus!
