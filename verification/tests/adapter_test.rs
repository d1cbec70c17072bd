use mcfunction_debugger::adapter::codec::{
    decode_message, frame, read_header, ProtocolMessageDecoder, ProtocolMessageEncoder,
};
use mcfunction_debugger::adapter::utils::{
    get_function_name, parse_resource_location, BreakpointPosition, SourceLocation, StoppedEvent,
};
use mcfunction_debugger::generator::config::adapter::{
    BreakpointPositionInLine, LocalBreakpointPosition,
};
use mcfunction_debugger::parser::command::resource_location::ResourceLocation;

#[test]
fn test_breakpoint_position_to_string() {
    let position = BreakpointPosition {
        function: ResourceLocation::new("my_ns", "dir/my_fn"),
        line_number: 12,
        position_in_line: BreakpointPositionInLine::AfterFunction,
    };
    assert_eq!(position.to_string(), "my_ns+dir+my_fn+12_after_function");
}

#[test]
fn test_breakpoint_position_roundtrip() {
    let position = BreakpointPosition {
        function: ResourceLocation::new("my_ns", "dir/sub/my_fn"),
        line_number: 3,
        position_in_line: BreakpointPositionInLine::Breakpoint,
    };
    let text = position.to_string();
    let parsed: BreakpointPosition = text.parse().unwrap();
    assert_eq!(parsed.function, position.function);
    assert_eq!(parsed.line_number, 3);
    assert_eq!(parsed.position_in_line, BreakpointPositionInLine::Breakpoint);
}

#[test]
fn test_breakpoint_position_parse_errors() {
    assert!(BreakpointPosition::parse("no_plus_here").is_none());
    assert!(BreakpointPosition::parse("ns+fn+x_breakpoint").is_none());
    assert!(BreakpointPosition::parse("ns+fn+1_entry").is_none());
    let parsed = BreakpointPosition::parse("fn+1_breakpoint").unwrap();
    assert_eq!(parsed.function, ResourceLocation::new("fn", ""));
}

#[test]
fn test_stopped_event() {
    let event: StoppedEvent = "stopped+ns+a+b+7_breakpoint".parse().unwrap();
    assert_eq!(event.position.function, ResourceLocation::new("ns", "a/b"));
    assert_eq!(event.position.line_number, 7);
    assert!(StoppedEvent::parse("ns+a+7_breakpoint").is_none());
}

#[test]
fn test_source_location() {
    let location = SourceLocation::parse("ns:a/b:7").unwrap();
    assert_eq!(location.function, ResourceLocation::new("ns", "a/b"));
    assert_eq!(location.line_number, 7);
    assert_eq!(location.column_number, 1);
    assert_eq!(location.get_name(), "ns:a/b:7");

    let location = SourceLocation::parse("ns:a:7:3").unwrap();
    assert_eq!(location.function, ResourceLocation::new("ns", "a"));
    assert_eq!(location.line_number, 7);
    assert_eq!(location.column_number, 3);

    assert!(SourceLocation::parse("ns:a:b:7").is_none());
    assert!(SourceLocation::parse("ns").is_none());
    assert!(SourceLocation::parse("ns:a:x").is_none());
    assert!(SourceLocation::parse("ns:a:7:x").is_none());
}

#[test]
fn test_parse_resource_location() {
    let location = parse_resource_location("ns+a+b", '+').unwrap();
    assert_eq!(location.namespace(), "ns");
    assert_eq!(location.path(), "a/b");
    let location = parse_resource_location("ns", '+').unwrap();
    assert_eq!(location.namespace(), "ns");
    assert_eq!(location.path(), "");
}

#[test]
fn test_get_function_name() {
    let name = get_function_name(&["ns", "functions", "dir", "my.fn.mcfunction"], "path").unwrap();
    assert_eq!(name, ResourceLocation::new("ns", "dir/my.fn"));
    let name = get_function_name(&["ns", "functions", ".hidden"], "path").unwrap();
    assert_eq!(name, ResourceLocation::new("ns", ".hidden"));
    assert_eq!(
        get_function_name(&["ns", "other", "f.mcfunction"], "/x/data/ns/other/f.mcfunction"),
        Err("contains an invalid path: /x/data/ns/other/f.mcfunction".to_string())
    );
    assert_eq!(
        get_function_name(&[], "p"),
        Err("contains an invalid path: p".to_string())
    );
}

#[test]
fn test_read_header() {
    assert_eq!(read_header("Content-Length: 12"), Ok(None));
    assert_eq!(read_header("Content-Length: 12\r\n\r\n{}"), Ok(Some((22, 12))));
    assert_eq!(
        read_header("A: b\r\nContent-Length: 1\r\nContent-Length: 5\r\n\r\n"),
        Ok(Some((46, 5)))
    );
    assert_eq!(
        read_header("Content-Length 12\r\n\r\n"),
        Err(
            "Key and value of header field not seperated by a colon and a space: 'Content-Length 12'"
                .to_string()
        )
    );
    assert_eq!(
        read_header("A: b\r\n\r\n"),
        Err("Missing header 'Content-Length'".to_string())
    );
    assert_eq!(
        read_header("Content-Length: x\r\n\r\n"),
        Err("Header 'Content-Length' does not have usize value: x".to_string())
    );
}

#[test]
fn test_frame() {
    assert_eq!(frame("{\"a\":1}"), "Content-Length: 7\r\n\r\n{\"a\":1}");
    let encoder = ProtocolMessageEncoder;
    let decoder = ProtocolMessageDecoder;
    let framed = encoder.encode("äb");
    assert_eq!(framed, "Content-Length: 3\r\n\r\näb");
    assert_eq!(decoder.read_header(&framed), Ok(Some((21, 3))));
}

#[test]
fn test_local_breakpoint_position() {
    let position = LocalBreakpointPosition {
        line_number: 5,
        position_in_line: BreakpointPositionInLine::AfterFunction,
    };
    assert_eq!(position.to_string(), "5_after_function");
    assert_eq!("5_after_function".parse::<LocalBreakpointPosition>(), Ok(position));
    assert_eq!("+5_breakpoint".parse::<LocalBreakpointPosition>().unwrap().line_number, 5);
    assert!("5_function".parse::<LocalBreakpointPosition>().is_err());
    assert!("5".parse::<LocalBreakpointPosition>().is_err());
    assert_eq!(
        "breakpoint".parse::<BreakpointPositionInLine>(),
        Ok(BreakpointPositionInLine::Breakpoint)
    );
}

#[test]
fn decode_message_takes_one_complete_message() {
    let framed = format!("{}rest", frame("{}"));
    assert_eq!(decode_message(&framed), Ok(Some(("{}".to_string(), framed.len() - 4))));
    assert_eq!(decode_message("Content-Length: 5\r\n\r\n{}"), Ok(None));
    assert_eq!(decode_message("Content-Length: 5"), Ok(None));
    assert_eq!(
        decode_message("Other: 1\r\n\r\n"),
        Err("Missing header 'Content-Length'".to_string())
    );
}

#[test]
fn parse_resource_location_with_any_separator() {
    let location = parse_resource_location("ns\u{e9}a\u{e9}b", '\u{e9}').unwrap();
    assert_eq!(location.to_string(), "ns:a/b");
    let location = parse_resource_location("ns:a:b", ':').unwrap();
    assert_eq!(location.namespace(), "ns");
    assert_eq!(location.path(), "a/b");
}
