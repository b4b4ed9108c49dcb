//! The program editor: what it shows, and what loading a program does.

use vstd::prelude::*;
use crate::inventory::ResourceKind;
use crate::parser;
use crate::parser::parse_program;
use crate::program::Action;
use crate::rules::WorkerView;
use crate::sim::{NavState, Worker};
use crate::text;
use crate::text::push_decimal;

verus! {

/// The program that workers begin with.
pub const DEFAULT_PROGRAM: &'static str = "\
# Gather one energy, then deliver. The outer pc still wraps at end-of-program,
# so this restarts forever. Comments start with '#'.
while not carrying(energy) {
  navigate_to(closest, energy)
  pickup(energy)
}
navigate_to(closest, base)
drop
";

/// The text in the editor, and what was said about it last.
pub struct Editor {
    pub source: String,
    pub status: String,
}

impl Default for Editor {
    fn default() -> (editor: Editor)
        ensures
            editor.source@ == DEFAULT_PROGRAM@,
            editor.status@ == "Compile a program to load it onto the worker."@,
    {
        Editor {
            source: String::from_str(DEFAULT_PROGRAM),
            status: String::from_str("Compile a program to load it onto the worker."),
        }
    }
}

/// What is said about a compiled text.
pub open spec fn status_of(source: Seq<char>) -> Seq<char> {
    match parser::parsed(source) {
        Ok(out) => "Loaded "@ + text::decimal(out.len()) + " instruction(s)."@,
        Err(e) => "Error: "@ + e,
    }
}

impl Editor {
    /// Compiles the text and says how that went; the instructions, if it is a program, are for
    /// all workers to load.
    pub fn compile(&mut self) -> (instructions: Option<Vec<Action>>)
        ensures
            final(self).source == old(self).source,
            final(self).status@ == status_of(old(self).source@),
            match parser::parsed(old(self).source@) {
                Ok(out) => instructions matches Some(v) && v@ == out,
                Err(_) => instructions is None,
            },
            instructions matches Some(v) ==> v@.len() > 0 && parser::jumps_within(v@),
    {
        match parse_program(self.source.as_str()) {
            Ok(out) => {
                let mut status = String::from_str("Loaded ");
                push_decimal(&mut status, out.len() as u64);
                status.append(" instruction(s).");
                self.status = status;
                Some(out)
            },
            Err(e) => {
                let mut status = String::from_str("Error: ");
                status.append(e.as_str());
                self.status = status;
                None
            },
        }
    }
}

/// A worker with a new program: it begins at the first instruction, and has forgotten its plan
/// and its reservation.
pub open spec fn reprogrammed(w: WorkerView, instructions: Seq<Action>) -> WorkerView {
    WorkerView { instructions, pc: 0, plan: Seq::empty(), reserved: None, ..w }
}

/// Gives a worker a new program.
pub fn load_program(worker: &mut Worker, instructions: Vec<Action>)
    ensures
        final(worker)@ == reprogrammed(old(worker)@, instructions@),
        final(worker).program.wf(),
{
    worker.program.instructions = instructions;
    worker.program.pc = 0;
    worker.nav = NavState::default();
    assert(worker@ =~= reprogrammed(old(worker)@, instructions@));
}

/// The line for the tick.
pub open spec fn tick_text(tick: nat) -> Seq<char> {
    "tick: "@ + text::decimal(tick)
}

/// The line for the number of workers.
pub open spec fn workers_text(count: nat) -> Seq<char> {
    "workers: "@ + text::decimal(count)
}

/// The line for the place in a program.
pub open spec fn pc_text(pc: nat, len: nat) -> Seq<char> {
    "pc: "@ + text::decimal(pc) + " / "@ + text::decimal(len)
}

/// The line for how much there is of a kind.
pub open spec fn count_text(kind: ResourceKind, count: nat) -> Seq<char> {
    "  "@ + kind.name() + ": "@ + text::decimal(count)
}

/// Lines say what they are about, then the numbers.
pub proof fn law_lines_say_what_they_are_about(a: nat, b: nat)
    ensures
        tick_text(a) == "tick: "@ + text::decimal(a),
        workers_text(a) == "workers: "@ + text::decimal(a),
        pc_text(a, b) == "pc: "@ + text::decimal(a) + " / "@ + text::decimal(b),
        count_text(ResourceKind::Energy, a) == "  "@ + "energy"@ + ": "@ + text::decimal(a),
        count_text(ResourceKind::Grass, a) == "  "@ + "grass"@ + ": "@ + text::decimal(a),
        count_text(ResourceKind::Wood, a) == "  "@ + "wood"@ + ": "@ + text::decimal(a),
{
}

/// The line for the tick.
pub fn tick_label(tick: u64) -> (s: String)
    ensures
        s@ == "tick: "@ + text::decimal(tick as nat),
        s@ == tick_text(tick as nat),
{
    let mut s = String::from_str("tick: ");
    push_decimal(&mut s, tick);
    s
}

/// The line for the number of workers.
pub fn workers_label(count: usize) -> (s: String)
    ensures
        s@ == "workers: "@ + text::decimal(count as nat),
        s@ == workers_text(count as nat),
{
    let mut s = String::from_str("workers: ");
    push_decimal(&mut s, count as u64);
    s
}

/// The line for the place in a program.
pub fn pc_label(pc: usize, len: usize) -> (s: String)
    ensures
        s@ == "pc: "@ + text::decimal(pc as nat) + " / "@ + text::decimal(len as nat),
        s@ == pc_text(pc as nat, len as nat),
{
    let mut s = String::from_str("pc: ");
    push_decimal(&mut s, pc as u64);
    s.append(" / ");
    push_decimal(&mut s, len as u64);
    s
}

/// The line for how much there is of a kind.
pub fn count_label(kind: ResourceKind, count: u32) -> (s: String)
    ensures
        s@ == "  "@ + kind.name() + ": "@ + text::decimal(count as nat),
        s@ == count_text(kind, count as nat),
{
    let mut s = String::from_str("  ");
    s.append(kind.label());
    s.append(": ");
    push_decimal(&mut s, count as u64);
    s
}

/// The number of ticks so far; after the last number it starts from zero again.
#[derive(Copy, Clone, Debug, PartialEq, Eq, Structural)]
pub struct Tick(pub u64);

impl Default for Tick {
    fn default() -> (tick: Tick)
        ensures
            tick.0 == 0,
    {
        Tick(0)
    }
}

/// One more tick.
pub fn advance_tick(tick: &mut Tick)
    ensures
        final(tick).0 == (if old(tick).0 == u64::MAX {
            0
        } else {
            old(tick).0 + 1
        }),
{
    tick.0 = tick.0.wrapping_add(1);
}

/// What is said of a program is how many instructions it has; of any other text, what is wrong.
pub proof fn law_status_tells_how_it_went(source: Seq<char>)
    ensures
        parser::parsed(source) matches Ok(out) ==> status_of(source) == "Loaded "@ + text::decimal(
            out.len(),
        ) + " instruction(s)."@,
        parser::parsed(source) matches Err(e) ==> status_of(source) == "Error: "@ + e,
{
}

/// A worker with a new program begins it, without a plan and a reservation; it stays where it is,
/// faces as before, and keeps what it carries and its count.
pub proof fn law_loading_starts_over(w: WorkerView, instructions: Seq<Action>)
    ensures
        ({
            let after = reprogrammed(w, instructions);
            &&& after.instructions == instructions
            &&& after.pc == 0
            &&& after.plan.len() == 0
            &&& after.reserved is None
            &&& after.pos == w.pos
            &&& after.yaw == w.yaw
            &&& after.prev_yaw == w.prev_yaw
            &&& after.carried == w.carried
            &&& after.bumps == w.bumps
        }),
{
}

} // verus!
