use mcfunction_debugger::adapter::stack_trace::stack_trace_from_events;
use mcfunction_debugger::adapter::stepping::{
    create_step_in_breakpoints, create_step_out_breakpoint, create_step_over_breakpoints,
    find_first_target_line_number, find_step_target_line_number, get_function_command,
    breakpoints_move, get_move_breakpoint_commands, is_command, new_breakpoints, new_step_breakpoint,
    set_breakpoints, verify_breakpoint, BreakpointReply,
};
use mcfunction_debugger::adapter::utils::{BreakpointPosition, SourceLocation};
use mcfunction_debugger::generator::config::adapter::{
    BreakpointKind, BreakpointPositionInLine, LocalBreakpoint, LocalBreakpointPosition,
};
use mcfunction_debugger::parser::command::argument::ArgumentParser;
use mcfunction_debugger::parser::command::resource_location::ResourceLocation;
use mcfunction_debugger::parser::command::{CommandParser, CommandSpec, Node};
use mcfunction_debugger::parser::Line;

fn argument(name: &str, parser: ArgumentParser) -> (String, CommandSpec) {
    let node = Node { children: vec![], executable: true, redirect: vec![] };
    (name.to_string(), CommandSpec::Argument { node, parser })
}

fn literal(name: &str, child: (String, CommandSpec)) -> (String, CommandSpec) {
    let node = Node { children: vec![child], executable: false, redirect: vec![] };
    (name.to_string(), CommandSpec::Literal { node })
}

fn parser() -> CommandParser {
    CommandParser::new(vec![
        literal("function", argument("name", ArgumentParser::MinecraftFunction)),
        literal("say", argument("message", ArgumentParser::MinecraftMessage)),
    ])
}

const CONTENT: &str = "say a\n# comment\n\nfunction test:callee\nsay b";

fn location(function: &ResourceLocation, line_number: usize) -> SourceLocation {
    SourceLocation { function: function.clone(), line_number, column_number: 1 }
}

fn step(function: &ResourceLocation, line_number: usize, position_in_line: BreakpointPositionInLine, depth: usize) -> (ResourceLocation, LocalBreakpoint) {
    (
        function.clone(),
        LocalBreakpoint {
            kind: BreakpointKind::Step {
                condition: format!("if score current mcfd_depth matches {}", depth),
            },
            position: LocalBreakpointPosition { line_number, position_in_line },
        },
    )
}

#[test]
fn test_is_command() {
    assert!(!is_command(&Line::Empty));
    assert!(!is_command(&Line::Comment));
    assert!(!is_command(&Line::Breakpoint));
    assert!(is_command(&Line::OtherCommand { selectors: vec![], objectives: vec![] }));
}

#[test]
fn test_find_step_target_line_number() {
    let parser = parser();
    assert_eq!(find_step_target_line_number(&parser, CONTENT, 1, false), Some(4));
    assert_eq!(find_step_target_line_number(&parser, CONTENT, 4, false), Some(5));
    assert_eq!(find_step_target_line_number(&parser, CONTENT, 5, false), None);
    assert_eq!(find_step_target_line_number(&parser, CONTENT, 5, true), None);
    assert_eq!(find_step_target_line_number(&parser, "say a\r\n# c", 1, false), None);
    assert_eq!(find_step_target_line_number(&parser, "say a\r\n# c", 1, true), Some(2));
    assert_eq!(find_first_target_line_number(&parser, "# x\nsay a"), 2);
    assert_eq!(find_first_target_line_number(&parser, "# only"), 1);
}

#[test]
fn test_get_function_command_and_verify() {
    let parser = parser();
    assert_eq!(
        get_function_command(&parser, CONTENT, 4),
        Some(ResourceLocation::new("test", "callee"))
    );
    assert_eq!(get_function_command(&parser, CONTENT, 1), None);
    assert_eq!(get_function_command(&parser, CONTENT, 9), None);
    assert!(verify_breakpoint(&parser, CONTENT, 1));
    assert!(!verify_breakpoint(&parser, CONTENT, 2));
    assert!(!verify_breakpoint(&parser, CONTENT, 3));
    assert!(!verify_breakpoint(&parser, CONTENT, 9));
    let breakpoints = new_breakpoints(&parser, CONTENT, &[1, 2]);
    assert_eq!(breakpoints[0].kind, BreakpointKind::Normal);
    assert_eq!(breakpoints[1].kind, BreakpointKind::Invalid);
    assert_eq!(breakpoints[1].position.line_number, 2);
}

#[test]
fn test_new_step_breakpoint() {
    let f = ResourceLocation::new("ns", "f");
    let actual = new_step_breakpoint("mcfd", f.clone(), 3, BreakpointPositionInLine::Breakpoint, 2);
    assert_eq!(actual, step(&f, 3, BreakpointPositionInLine::Breakpoint, 2));
}

#[test]
fn test_step_over_in_and_out() {
    let parser = parser();
    let current = ResourceLocation::new("ns", "current");
    let caller = ResourceLocation::new("ns", "caller");
    let callee = ResourceLocation::new("test", "callee");
    let caller_content = "function ns:current\nsay after";
    let stack = [location(&current, 1), location(&caller, 1)];

    assert_eq!(
        create_step_over_breakpoints(&parser, "mcfd", &stack, CONTENT, caller_content),
        vec![step(&current, 4, BreakpointPositionInLine::Breakpoint, 1)]
    );
    let stack_at_end = [location(&current, 5), location(&caller, 1)];
    assert_eq!(
        create_step_over_breakpoints(&parser, "mcfd", &stack_at_end, CONTENT, caller_content),
        vec![
            step(&caller, 2, BreakpointPositionInLine::Breakpoint, 0),
            step(&current, 1, BreakpointPositionInLine::Breakpoint, 1),
        ]
    );
    assert_eq!(
        create_step_out_breakpoint(&parser, "mcfd", &stack, "function ns:current"),
        vec![step(&caller, 1, BreakpointPositionInLine::AfterFunction, 0)]
    );
    assert!(create_step_out_breakpoint(&parser, "mcfd", &stack[..1], "").is_empty());

    let stack_at_call = [location(&current, 4)];
    assert_eq!(
        create_step_in_breakpoints(&parser, "mcfd", &stack_at_call, CONTENT, "# c\nsay x", ""),
        vec![
            step(&callee, 2, BreakpointPositionInLine::Breakpoint, 1),
            step(&current, 5, BreakpointPositionInLine::Breakpoint, 0),
        ]
    );
}

#[test]
fn test_get_move_breakpoint_commands() {
    let f = ResourceLocation::new("ns", "dir/f");
    let old = BreakpointPosition {
        function: f.clone(),
        line_number: 1,
        position_in_line: BreakpointPositionInLine::Breakpoint,
    };
    let new = BreakpointPosition {
        function: f.clone(),
        line_number: 2,
        position_in_line: BreakpointPositionInLine::Breakpoint,
    };
    let same = BreakpointPosition {
        function: f.clone(),
        line_number: 1,
        position_in_line: BreakpointPositionInLine::Breakpoint,
    };
    assert_eq!(
        get_move_breakpoint_commands(&[old.clone()], &[new], "mcfd"),
        vec![
            "tag @e[tag=mcfd_breakpoint,tag=mcfd+ns+dir+f+1_breakpoint,tag=!mcfd_tmp] add mcfd+ns+dir+f+2_breakpoint",
            "tag @e[tag=mcfd_breakpoint,tag=mcfd+ns+dir+f+1_breakpoint] add mcfd_tmp",
            "tag @e[tag=mcfd_breakpoint,tag=mcfd+ns+dir+f+1_breakpoint,tag=mcfd+ns+dir+f+2_breakpoint] remove mcfd+ns+dir+f+1_breakpoint",
            "tag @e[tag=mcfd_breakpoint,tag=mcfd_tmp] remove mcfd_tmp",
        ]
    );
    assert_eq!(
        get_move_breakpoint_commands(&[old], &[same], "mcfd"),
        vec!["tag @e[tag=mcfd_breakpoint,tag=mcfd_tmp] remove mcfd_tmp"]
    );
}

#[test]
fn test_stack_trace_from_events() {
    let events = [
        ("ns:f:3", "Added 0 to [mcfd_depth] for @ (now 0)"),
        ("ns:g:5", "Added 0 to [mcfd_depth] for @ (now 1)"),
        ("ns:h:7", "Added tag 'mcfd_stack_trace' to x"),
        ("no location", "Added 0 to [mcfd_depth] for @ (now 4)"),
        ("ns:i:1", "Bla"),
        ("ns:j:2", "Added 0 to [other] for @ (now 9)"),
    ]
    .iter()
    .map(|(e, o)| (e.to_string(), o.to_string()))
    .collect::<Vec<_>>();
    let frames = stack_trace_from_events("mcfd", &events);
    let summary = frames
        .iter()
        .map(|f| (f.id, f.location.function.path().to_string(), f.location.line_number))
        .collect::<Vec<_>>();
    assert_eq!(
        summary,
        vec![(2, "h".to_string(), 7), (1, "g".to_string(), 5), (0, "f".to_string(), 3)]
    );
}

#[test]
fn set_breakpoints_numbers_valid_breakpoints_after_other_functions() {
    let parser = parser();
    let (breakpoints, replies) = set_breakpoints(&parser, CONTENT, &[0, 1, 3], 1, 2);
    assert_eq!(breakpoints.len(), 3);
    assert_eq!(breakpoints[0].position.line_number, 1);
    assert_eq!(breakpoints[0].kind, BreakpointKind::Normal);
    assert_eq!(breakpoints[1].kind, BreakpointKind::Invalid);
    assert_eq!(breakpoints[2].position.line_number, 4);
    assert_eq!(replies[0], BreakpointReply { id: Some(2), verified: true, line: 0 });
    assert_eq!(replies[1], BreakpointReply { id: None, verified: false, line: 1 });
    assert_eq!(replies[2], BreakpointReply { id: Some(4), verified: true, line: 3 });
}

#[test]
fn breakpoints_move_only_when_modified_and_same_count() {
    assert!(breakpoints_move(true, 2, 2));
    assert!(!breakpoints_move(true, 2, 3));
    assert!(!breakpoints_move(false, 2, 2));
}
