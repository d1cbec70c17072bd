use mcfunction_debugger::adapter::utils::BreakpointPosition;
use mcfunction_debugger::generator::config::adapter::{
    AdapterConfig, BreakpointKind, BreakpointPositionInLine, LocalBreakpoint,
    LocalBreakpointPosition,
};
use mcfunction_debugger::generator::config::{validate_namespace, Config};
use mcfunction_debugger::generator::partition::{partition, Position, PositionInLine, Terminator};
use mcfunction_debugger::parser::command::resource_location::ResourceLocation;
use mcfunction_debugger::parser::Line;

fn other() -> Line<'static> {
    Line::OtherCommand { selectors: vec![], objectives: vec![] }
}

fn call() -> Line<'static> {
    Line::FunctionCall {
        column_index: 0,
        name: ResourceLocation::new("ns", "f"),
        anchor: None,
        selectors: vec![],
        objectives: vec![],
    }
}

fn pos(line_number: usize, position_in_line: PositionInLine) -> Position {
    Position { line_number, position_in_line }
}

fn config(adapter: bool) -> Config<'static> {
    Config {
        namespace: "mcfd",
        shadow: false,
        adapter: if adapter {
            Some(AdapterConfig { adapter_listener_name: "listener", breakpoints: vec![] })
        } else {
            None
        },
    }
}

#[test]
fn test_partition_without_adapter() {
    let lines = vec![
        (1, "say a".to_string(), other()),
        (2, "# breakpoint".to_string(), Line::Breakpoint),
        (3, "function ns:f".to_string(), call()),
        (4, "say b".to_string(), other()),
    ];
    let partitions = partition(&lines, &config(false));
    let summary = partitions
        .iter()
        .map(|p| (p.start, p.end, p.regular_lines.len(), p.terminator.get_position_in_line()))
        .collect::<Vec<_>>();
    assert_eq!(
        summary,
        vec![
            (pos(0, PositionInLine::Entry), pos(2, PositionInLine::Breakpoint), 1, PositionInLine::Breakpoint),
            (pos(2, PositionInLine::Breakpoint), pos(3, PositionInLine::Function), 0, PositionInLine::Function),
            (pos(3, PositionInLine::Function), pos(4, PositionInLine::Return), 1, PositionInLine::Return),
        ]
    );
    assert_eq!(partitions[0].regular_lines[0].1, "say a");
    assert!(matches!(partitions[1].terminator, Terminator::FunctionCall { line: "function ns:f", .. }));
}

#[test]
fn test_partition_with_adapter() {
    let lines = vec![
        (1, "say a".to_string(), other()),
        (2, "".to_string(), Line::Empty),
        (3, "function ns:f".to_string(), call()),
        (4, "say b".to_string(), other()),
    ];
    let partitions = partition(&lines, &config(true));
    let summary = partitions
        .iter()
        .map(|p| (p.start, p.end, p.regular_lines.len(), p.terminator.get_position_in_line()))
        .collect::<Vec<_>>();
    assert_eq!(
        summary,
        vec![
            (pos(1, PositionInLine::Entry), pos(1, PositionInLine::Breakpoint), 0, PositionInLine::Breakpoint),
            (pos(1, PositionInLine::Breakpoint), pos(3, PositionInLine::Breakpoint), 2, PositionInLine::Breakpoint),
            (pos(3, PositionInLine::Breakpoint), pos(3, PositionInLine::Function), 0, PositionInLine::Function),
            (pos(3, PositionInLine::Function), pos(4, PositionInLine::Breakpoint), 0, PositionInLine::Breakpoint),
            (pos(4, PositionInLine::Breakpoint), pos(4, PositionInLine::Return), 1, PositionInLine::Return),
        ]
    );
}

#[test]
fn test_partition_call_on_last_line() {
    let lines = vec![(1, "function ns:f".to_string(), call())];
    let partitions = partition(&lines, &config(true));
    let last_two = partitions[partitions.len() - 2..]
        .iter()
        .map(|p| (p.start, p.end, p.terminator.get_position_in_line()))
        .collect::<Vec<_>>();
    assert_eq!(
        last_two,
        vec![
            (pos(1, PositionInLine::Function), pos(1, PositionInLine::AfterFunction), PositionInLine::AfterFunction),
            (pos(1, PositionInLine::AfterFunction), pos(1, PositionInLine::Return), PositionInLine::Return),
        ]
    );
}

#[test]
fn test_get_breakpoint_kind() {
    let f = ResourceLocation::new("ns", "f");
    let g = ResourceLocation::new("ns", "g");
    let breakpoint = LocalBreakpoint {
        kind: BreakpointKind::Normal,
        position: LocalBreakpointPosition {
            line_number: 3,
            position_in_line: BreakpointPositionInLine::Breakpoint,
        },
    };
    let config = Config {
        namespace: "mcfd",
        shadow: false,
        adapter: Some(AdapterConfig {
            adapter_listener_name: "listener",
            breakpoints: vec![(f.clone(), vec![breakpoint])],
        }),
    };
    assert_eq!(
        config.get_breakpoint_kind(&f, 3, BreakpointPositionInLine::Breakpoint),
        Some(&BreakpointKind::Normal)
    );
    assert_eq!(config.get_breakpoint_kind(&f, 3, BreakpointPositionInLine::AfterFunction), None);
    assert_eq!(config.get_breakpoint_kind(&g, 3, BreakpointPositionInLine::Breakpoint), None);
    assert_eq!(
        self::config(false).get_breakpoint_kind(&f, 3, BreakpointPositionInLine::Breakpoint),
        None
    );
}

#[test]
fn test_validate_namespace() {
    assert_eq!(validate_namespace("mcfd"), Ok(()));
    assert_eq!(validate_namespace("1234567"), Ok(()));
    assert_eq!(
        validate_namespace("12345678"),
        Err("string must have <= 7 characters".to_string())
    );
}

#[test]
fn test_from_breakpoint() {
    let f = ResourceLocation::new("ns", "f");
    let position = LocalBreakpointPosition {
        line_number: 7,
        position_in_line: BreakpointPositionInLine::AfterFunction,
    };
    let actual = BreakpointPosition::from_breakpoint(f.clone(), &position);
    assert_eq!(actual.function, f);
    assert_eq!(actual.line_number, 7);
    assert_eq!(actual.position_in_line, BreakpointPositionInLine::AfterFunction);
}
