use programming_game::grid::Direction;
use programming_game::inventory::ResourceKind;
use programming_game::parser::parse_program;
use programming_game::program::{Action, Condition, NavQualifier, Target};

#[test]
fn parse_program_recognizes_navigate_to_each_resource_kind() {
    let src = "\
navigate_to(closest, energy)
navigate_to(closest, grass)
navigate_to(closest, wood)
navigate_to(closest, base)
";
    let actions = parse_program(src).unwrap();
    assert_eq!(
        actions,
        vec![
            Action::NavigateTo(NavQualifier::Closest, Target::Resource(ResourceKind::Energy)),
            Action::NavigateTo(NavQualifier::Closest, Target::Resource(ResourceKind::Grass)),
            Action::NavigateTo(NavQualifier::Closest, Target::Resource(ResourceKind::Wood)),
            Action::NavigateTo(NavQualifier::Closest, Target::Base),
        ]
    );
}

#[test]
fn parse_program_pickup_without_kind_is_any() {
    let actions = parse_program("pickup\n").unwrap();
    assert_eq!(actions, vec![Action::Pickup(None)]);
}

#[test]
fn parse_program_pickup_with_kind_filters() {
    let actions = parse_program(
        "pickup(energy)\npickup(grass)\npickup(wood)\n",
    )
    .unwrap();
    assert_eq!(
        actions,
        vec![
            Action::Pickup(Some(ResourceKind::Energy)),
            Action::Pickup(Some(ResourceKind::Grass)),
            Action::Pickup(Some(ResourceKind::Wood)),
        ]
    );
}

#[test]
fn parse_program_rejects_unknown_pickup_kind() {
    let err = parse_program("pickup(stone)").unwrap_err();
    assert!(err.contains("stone"), "error should mention the bad token: {err}");
}

#[test]
fn parse_program_rejects_unknown_resource_target() {
    let err = parse_program("navigate_to(closest, stone)").unwrap_err();
    assert!(
        err.contains("stone"),
        "error should mention the unknown token: {err}"
    );
}

#[test]
fn parse_program_compiles_bare_if_to_jump_ir() {
    let actions = parse_program("if carrying(energy) {\ndrop\n}\n").unwrap();
    assert_eq!(
        actions,
        vec![
            Action::JumpUnless(Condition::Carrying(ResourceKind::Energy), 2),
            Action::Drop,
        ]
    );
}

#[test]
fn parse_program_compiles_if_else_to_jump_ir() {
    let actions = parse_program(
        "if carrying(energy) {\ndrop\n} else {\npickup(energy)\n}\n",
    )
    .unwrap();
    assert_eq!(
        actions,
        vec![
            Action::JumpUnless(Condition::Carrying(ResourceKind::Energy), 3),
            Action::Drop,
            Action::Jump(4),
            Action::Pickup(Some(ResourceKind::Energy)),
        ]
    );
}

#[test]
fn parse_program_compiles_nested_if() {
    let actions =
        parse_program("if carrying(energy) {\nif carrying(grass) {\ndrop\n}\n}\n").unwrap();
    assert_eq!(
        actions,
        vec![
            Action::JumpUnless(Condition::Carrying(ResourceKind::Energy), 3),
            Action::JumpUnless(Condition::Carrying(ResourceKind::Grass), 3),
            Action::Drop,
        ]
    );
}

#[test]
fn parse_program_rejects_unclosed_if_block() {
    let err = parse_program("if carrying(energy) {\ndrop\n").unwrap_err();
    assert!(
        err.to_ascii_lowercase().contains("unclosed")
            || err.to_ascii_lowercase().contains("unmatched"),
        "error should mention the unclosed block: {err}"
    );
}

#[test]
fn parse_program_rejects_dangling_close_brace() {
    let err = parse_program("drop\n}\n").unwrap_err();
    assert!(
        err.contains('}') || err.to_ascii_lowercase().contains("unmatched"),
        "error should mention the stray brace: {err}"
    );
}

#[test]
fn parse_program_rejects_else_without_if() {
    let err = parse_program("drop\n} else {\ndrop\n}\n").unwrap_err();
    assert!(
        err.to_ascii_lowercase().contains("else") || err.contains('}'),
        "error should mention the unexpected else: {err}"
    );
}

#[test]
fn parse_program_rejects_unknown_condition() {
    let err = parse_program("if at_base {\ndrop\n}\n").unwrap_err();
    assert!(
        err.to_ascii_lowercase().contains("condition") || err.contains("at_base"),
        "error should mention the unknown condition: {err}"
    );
}

#[test]
fn parse_program_compiles_while_to_jump_ir() {
    let actions = parse_program("while carrying(energy) {\ndrop\n}\n").unwrap();
    assert_eq!(
        actions,
        vec![
            Action::JumpUnless(Condition::Carrying(ResourceKind::Energy), 3),
            Action::Drop,
            Action::Jump(0),
        ]
    );
}

#[test]
fn parse_program_compiles_while_not_to_jump_ir() {
    let actions = parse_program("while not carrying(energy) {\npickup(energy)\n}\n").unwrap();
    assert_eq!(
        actions,
        vec![
            Action::JumpIf(Condition::Carrying(ResourceKind::Energy), 3),
            Action::Pickup(Some(ResourceKind::Energy)),
            Action::Jump(0),
        ]
    );
}

#[test]
fn parse_program_compiles_if_not_to_jump_ir() {
    let actions = parse_program("if not carrying(energy) {\ndrop\n}\n").unwrap();
    assert_eq!(
        actions,
        vec![
            Action::JumpIf(Condition::Carrying(ResourceKind::Energy), 2),
            Action::Drop,
        ]
    );
}

#[test]
fn parse_program_rejects_until_keyword() {
    let err = parse_program("until carrying(energy) {\ndrop\n}\n").unwrap_err();
    assert!(
        err.to_ascii_lowercase().contains("until")
            || err.to_ascii_lowercase().contains("unknown"),
        "until should not parse: {err}"
    );
}

#[test]
fn parse_program_compiles_break_to_jump_past_loop() {
    let actions = parse_program("while carrying(energy) {\nbreak\n}\n").unwrap();
    assert_eq!(
        actions,
        vec![
            Action::JumpUnless(Condition::Carrying(ResourceKind::Energy), 3),
            Action::Jump(3),
            Action::Jump(0),
        ]
    );
}

#[test]
fn parse_program_compiles_continue_to_jump_to_loop_start() {
    let actions = parse_program("while carrying(energy) {\ncontinue\n}\n").unwrap();
    assert_eq!(
        actions,
        vec![
            Action::JumpUnless(Condition::Carrying(ResourceKind::Energy), 3),
            Action::Jump(0),
            Action::Jump(0),
        ]
    );
}

#[test]
fn parse_program_compiles_break_inside_nested_if_to_outer_loop_end() {
    let actions = parse_program(
        "while carrying(energy) {\nif carrying(grass) {\nbreak\n}\n}\n",
    )
    .unwrap();
    assert_eq!(
        actions,
        vec![
            Action::JumpUnless(Condition::Carrying(ResourceKind::Energy), 4),
            Action::JumpUnless(Condition::Carrying(ResourceKind::Grass), 3),
            Action::Jump(4),
            Action::Jump(0),
        ]
    );
}

#[test]
fn parse_program_rejects_break_outside_loop() {
    let err = parse_program("break\n").unwrap_err();
    assert!(
        err.to_ascii_lowercase().contains("break"),
        "error should mention break: {err}"
    );
}

#[test]
fn parse_program_rejects_continue_outside_loop() {
    let err = parse_program("continue\n").unwrap_err();
    assert!(
        err.to_ascii_lowercase().contains("continue"),
        "error should mention continue: {err}"
    );
}

#[test]
fn parse_program_rejects_break_inside_if_without_enclosing_loop() {
    let err = parse_program("if carrying(energy) {\nbreak\n}\n").unwrap_err();
    assert!(
        err.to_ascii_lowercase().contains("break"),
        "error should mention break: {err}"
    );
}

#[test]
fn parse_program_rejects_unclosed_while() {
    let err = parse_program("while carrying(energy) {\ndrop\n").unwrap_err();
    assert!(
        err.to_ascii_lowercase().contains("unclosed")
            || err.to_ascii_lowercase().contains("while"),
        "error should mention the unclosed loop: {err}"
    );
}

#[test]
fn parse_program_unclosed_if_reports_opening_line() {
    let err = parse_program("drop\nif carrying(energy) {\ndrop\n").unwrap_err();
    assert!(
        err.contains("line 2") || err.contains("2"),
        "error should mention line 2: {err}"
    );
}

fn error(src: &str) -> String {
    parse_program(src).unwrap_err()
}

#[test]
fn messages_name_the_line_and_the_fault() {
    assert_eq!(error("drop\n\njump\n"), "line 3: unknown instruction 'jump'");
    assert_eq!(
        error("  Fly, Away ( now )  # please\n"),
        "line 1: unknown instruction 'Fly, Away ( now )'"
    );
    assert_eq!(error("pickup(Stone)"), "line 1: unknown resource kind 'stone'");
    assert_eq!(
        error("goto(farthest, base)"),
        "line 1: unknown nav qualifier 'farthest'"
    );
    assert_eq!(
        error("nav(closest, lake)"),
        "line 1: unknown nav target 'lake'"
    );
    assert_eq!(
        error("drop\nif carrying(stone) {\n}\n"),
        "line 2: unknown resource kind 'stone' in condition"
    );
    assert_eq!(
        error("while not at base {\n}\n"),
        "line 1: unknown condition: `at base`"
    );
    assert_eq!(error("if {\n}\n"), "line 1: unknown condition: ``");
    assert_eq!(
        error("if not not carrying(wood) {\n}\n"),
        "line 1: unknown condition: `not carrying wood`"
    );
    assert_eq!(error("break"), "line 1: `break` outside a loop");
    assert_eq!(error("continue"), "line 1: `continue` outside a loop");
    assert_eq!(error("}"), "line 1: unmatched `}`");
    assert_eq!(error("} else {"), "line 1: `else` without a matching `if`");
    assert_eq!(
        error("while carrying(wood) {\n} else {\n}\n"),
        "line 2: `else` without a matching `if`"
    );
    assert_eq!(
        error("if carrying(wood) {\n} else {\n} else {\n}\n"),
        "line 3: `else` without a matching `if`"
    );
    assert_eq!(error(""), "program is empty");
    assert_eq!(error("# nothing\n\n   \n"), "program is empty");
    assert_eq!(error("("), "line 1: unknown instruction '('");
    assert_eq!(error("if"), "line 1: unknown instruction 'if'");
}

#[test]
fn unclosed_blocks_name_the_outermost() {
    assert_eq!(
        error("while carrying(wood) {\nif carrying(wood) {\n"),
        "unclosed `while` block opened on line 1"
    );
    assert_eq!(
        error("drop\nif carrying(wood) {\n} else {\n"),
        "unclosed `else` block opened on line 3"
    );
    assert_eq!(
        error("drop\nif carrying(wood) {"),
        "unclosed `if` block opened on line 2"
    );
    // A bad line is reported before an unclosed block.
    assert_eq!(
        error("if carrying(wood) {\nfly\n"),
        "line 2: unknown instruction 'fly'"
    );
}

#[test]
fn case_and_punctuation_do_not_matter() {
    let plain = parse_program("navigate_to closest energy").unwrap();
    for src in [
        "navigate_to(closest, energy)",
        "NAVIGATE_TO ( Closest,ENERGY )",
        "\tnavigate_to,closest,energy\r",
        "navigate_to(closest, energy) # go\r\n",
        "navigate_to\u{3000}closest\u{a0}energy",
    ] {
        assert_eq!(parse_program(src).unwrap(), plain, "{src:?}");
    }
}

#[test]
fn every_synonym_is_understood() {
    for (src, dir) in [
        ("n north up", Direction::North),
        ("s south down", Direction::South),
        ("e east right", Direction::East),
        ("w west left", Direction::West),
    ] {
        for word in src.split(' ') {
            assert_eq!(parse_program(word).unwrap(), vec![Action::Move(dir)]);
        }
    }
    for word in ["wait", "noop"] {
        assert_eq!(parse_program(word).unwrap(), vec![Action::Wait]);
    }
    for word in ["pickup", "grab", "take"] {
        assert_eq!(parse_program(word).unwrap(), vec![Action::Pickup(None)]);
        assert_eq!(
            parse_program(&format!("{word} wood")).unwrap(),
            vec![Action::Pickup(Some(ResourceKind::Wood))]
        );
    }
    for word in ["drop", "deposit", "deliver"] {
        assert_eq!(parse_program(word).unwrap(), vec![Action::Drop]);
    }
    for word in ["navigate_to", "goto", "nav"] {
        assert_eq!(
            parse_program(&format!("{word} closest base")).unwrap(),
            vec![Action::NavigateTo(NavQualifier::Closest, Target::Base)]
        );
    }
}

#[test]
fn braces_need_no_space() {
    assert_eq!(
        parse_program("if carrying(energy){\ndrop\n}else{\nwait\n}\n").unwrap(),
        vec![
            Action::JumpUnless(Condition::Carrying(ResourceKind::Energy), 3),
            Action::Drop,
            Action::Jump(4),
            Action::Wait,
        ]
    );
}

#[test]
fn several_breaks_leave_the_innermost_loop() {
    let src = "\
while carrying(energy) {
while not carrying(wood) {
break
if carrying(grass) {
break
}
continue
}
continue
break
}
";
    let energy = Condition::Carrying(ResourceKind::Energy);
    let wood = Condition::Carrying(ResourceKind::Wood);
    let grass = Condition::Carrying(ResourceKind::Grass);
    assert_eq!(
        parse_program(src).unwrap(),
        vec![
            Action::JumpUnless(energy, 10),
            Action::JumpIf(wood, 7),
            Action::Jump(7),
            Action::JumpUnless(grass, 5),
            Action::Jump(7),
            Action::Jump(1),
            Action::Jump(1),
            Action::Jump(0),
            Action::Jump(10),
            Action::Jump(0),
        ]
    );
}

#[test]
fn jumps_of_accepted_programs_stay_within() {
    for src in [
        "if carrying(energy) {\n}\n",
        "while carrying(wood) {\nbreak\ncontinue\n}\n",
        "if not carrying(wood) {\n} else {\n}\n",
    ] {
        let out = parse_program(src).unwrap();
        assert!(!out.is_empty());
        for (i, a) in out.iter().enumerate() {
            if let Action::Jump(t) | Action::JumpIf(_, t) | Action::JumpUnless(_, t) = a {
                assert!(*t <= out.len());
                assert!(matches!(a, Action::Jump(_)) || i < *t);
            }
        }
    }
}

const HAUL: &str = "\
while carrying(energy) {
if carrying(wood) {
drop
} else {
wait
}
}
pickup";

#[test]
fn comments_and_padding_change_nothing() {
    let plain = parse_program(HAUL).unwrap();
    let commented: Vec<String> =
        HAUL.lines().map(|l| format!("{l}# {{ go }} while")).collect();
    assert_eq!(parse_program(&commented.join("\n")).unwrap(), plain);
    let padded: Vec<String> = HAUL.lines().map(|l| format!("\t  {l} \r")).collect();
    assert_eq!(parse_program(&padded.join("\n")).unwrap(), plain);
    assert_eq!(
        parse_program("  fly  # up\n"),
        parse_program("fly\n"),
        "what is wrong stays the same too"
    );
}

#[test]
fn lines_without_code_do_not_count() {
    let plain = parse_program(HAUL).unwrap();
    let lines: Vec<&str> = HAUL.lines().collect();
    for blank in ["", "  \t", "# nothing", " # }"] {
        for i in 0..=lines.len() {
            let mut more = lines.clone();
            more.insert(i, blank);
            assert_eq!(parse_program(&more.join("\n")).unwrap(), plain);
        }
    }
    let with_blank = parse_program("wait\n \ndrop").unwrap();
    assert_eq!(with_blank, vec![Action::Wait, Action::Drop]);
    assert!(parse_program("wait\n,\ndrop").is_err());
}

#[test]
fn capitals_and_separators_do_not_count() {
    let plain = parse_program(HAUL).unwrap();
    assert_eq!(parse_program(&HAUL.to_uppercase()).unwrap(), plain);
    let spaced: String =
        HAUL.chars().map(|c| if c == '(' || c == ')' { ' ' } else { c }).collect();
    assert_eq!(parse_program(&spaced).unwrap(), plain);
    let commas: String =
        HAUL.chars().map(|c| if c == ' ' || c == '(' || c == ')' { ',' } else { c }).collect();
    assert_eq!(parse_program(&commas).unwrap(), plain);
}

#[test]
fn programs_join() {
    let second = "wait\nwhile not carrying(wood) {\nbreak\ncontinue\n}\nif carrying(energy) {\n}";
    let first = parse_program(HAUL).unwrap();
    let k = first.len();
    let mut expected = first.clone();
    for a in parse_program(second).unwrap() {
        expected.push(match a {
            Action::Jump(t) => Action::Jump(t + k),
            Action::JumpIf(c, t) => Action::JumpIf(c, t + k),
            Action::JumpUnless(c, t) => Action::JumpUnless(c, t + k),
            other => other,
        });
    }
    let both = parse_program(&format!("{HAUL}\n{second}")).unwrap();
    assert_eq!(both, expected);
    assert!(both.contains(&Action::Jump(k + 1)));
}
