use programming_game::camera::{drag_mode, Drag};
use programming_game::editor::{
    advance_tick, count_label, load_program, pc_label, tick_label, workers_label, Editor, Tick,
    DEFAULT_PROGRAM,
};
use programming_game::grid::{Direction, GridPos};
use programming_game::inventory::ResourceKind;
use programming_game::parser::parse_program;
use programming_game::program::{Action, Condition, NavQualifier, Target};
use programming_game::setup::spawn_worker;

#[test]
fn the_first_program_gathers_and_delivers() {
    let energy = ResourceKind::Energy;
    assert_eq!(
        parse_program(DEFAULT_PROGRAM).unwrap(),
        vec![
            Action::JumpIf(Condition::Carrying(energy), 4),
            Action::NavigateTo(NavQualifier::Closest, Target::Resource(energy)),
            Action::Pickup(Some(energy)),
            Action::Jump(0),
            Action::NavigateTo(NavQualifier::Closest, Target::Base),
            Action::Drop,
        ]
    );
}

#[test]
fn compiling_reports_how_it_went() {
    let mut editor = Editor::default();
    assert_eq!(editor.source, DEFAULT_PROGRAM);
    assert_eq!(editor.status, "Compile a program to load it onto the worker.");
    assert_eq!(editor.compile().unwrap().len(), 6);
    assert_eq!(editor.status, "Loaded 6 instruction(s).");
    assert_eq!(editor.source, DEFAULT_PROGRAM);
    editor.source = String::from("drop\nfly\n");
    assert!(editor.compile().is_none());
    assert_eq!(editor.status, "Error: line 2: unknown instruction 'fly'");
}

#[test]
fn loading_starts_over_and_forgets_the_plan() {
    let mut w = spawn_worker(GridPos { x: 5, y: 5 }, vec![Action::Wait, Action::Wait], 1);
    w.program.pc = 1;
    w.nav.plan.push_back(Direction::North);
    w.nav.reserved_tile = Some(GridPos { x: 5, y: 4 });
    w.inventory.push(ResourceKind::Wood);
    load_program(&mut w, vec![Action::Drop]);
    assert_eq!(w.program.instructions, vec![Action::Drop]);
    assert_eq!(w.program.pc, 0);
    assert!(w.nav.plan.is_empty());
    assert_eq!(w.nav.reserved_tile, None);
    assert!(!w.inventory.is_empty());
    assert_eq!(w.pos, GridPos { x: 5, y: 5 });
}

#[test]
fn labels_read_as_shown() {
    assert_eq!(tick_label(42), "tick: 42");
    assert_eq!(workers_label(10), "workers: 10");
    assert_eq!(pc_label(3, 17), "pc: 3 / 17");
    assert_eq!(count_label(ResourceKind::Energy, 0), "  energy: 0");
    assert_eq!(count_label(ResourceKind::Grass, 305), "  grass: 305");
    assert_eq!(count_label(ResourceKind::Wood, u32::MAX), "  wood: 4294967295");
}

#[test]
fn ticks_wrap_around() {
    let mut tick = Tick::default();
    advance_tick(&mut tick);
    advance_tick(&mut tick);
    assert_eq!(tick.0, 2);
    let mut last = Tick(u64::MAX);
    advance_tick(&mut last);
    assert_eq!(last.0, 0);
}

#[test]
fn drags_pan_or_orbit() {
    assert_eq!(drag_mode(false, false, false), None);
    assert_eq!(drag_mode(false, false, true), None);
    assert_eq!(drag_mode(true, false, false), Some(Drag::Orbit));
    assert_eq!(drag_mode(true, false, true), Some(Drag::Pan));
    assert_eq!(drag_mode(false, true, false), Some(Drag::Pan));
    assert_eq!(drag_mode(true, true, false), Some(Drag::Pan));
}
