use mcfunction_debugger::parser::command::argument::brigadier::{
    expect, find_unescaped, parse_bool, parse_double, parse_integer, parse_possibly_quoted_string,
    parse_quoted_string, parse_string, parse_unquoted_string, BrigadierStringType,
};
use mcfunction_debugger::parser::command::resource_location::{
    InvalidResourceLocation, ResourceLocation, ResourceLocationRef,
};

#[test]
fn test_expect_strips_prefix() {
    assert_eq!(expect("=abc", '='), Ok("abc"));
    assert_eq!(expect("abc", '='), Err("Expected '='".to_string()));
}

#[test]
fn test_unquoted_string_stops_at_space() {
    assert_eq!(parse_unquoted_string("ab_c.d-+e f"), ("ab_c.d-+e", 9));
    assert_eq!(parse_unquoted_string("äb"), ("", 0));
}

#[test]
fn test_quoted_strings() {
    assert_eq!(parse_quoted_string(r#""a\"b" c"#, '"'), Ok((r#"a\"b"#, 6)));
    assert_eq!(
        parse_possibly_quoted_string("'abc"),
        Err("Unclosed quoted string".to_string())
    );
    assert_eq!(parse_possibly_quoted_string("abc def"), Ok(("abc", 3)));
    assert_eq!(parse_possibly_quoted_string(""), Ok(("", 0)));
    assert_eq!(find_unescaped(r#"a\\"b"#, '"'), Some(3));
    assert_eq!(find_unescaped(r#"a\"b"#, '"'), None);
}

#[test]
fn test_parse_bool_and_numbers() {
    assert_eq!(parse_bool("true]"), Ok((true, 4)));
    assert_eq!(parse_bool("false"), Ok((false, 5)));
    assert_eq!(
        parse_bool("yes"),
        Err("Invalid bool, expected true or false but found 'yes'".to_string())
    );
    assert_eq!(parse_integer("-42 x"), Ok((-42, 3)));
    assert_eq!(parse_integer("x"), Err("Expected integer".to_string()));
    assert_eq!(parse_integer("1.5"), Err("Invalid integer '1.5'".to_string()));
    assert_eq!(parse_integer("2147483648"), Err("Invalid integer '2147483648'".to_string()));
    assert_eq!(parse_integer("-2147483648"), Ok((i32::MIN, 11)));
    assert_eq!(parse_double("-.5 "), Ok(("-.5", 3)));
    assert_eq!(parse_double("1.2.3"), Err("Invalid double '1.2.3'".to_string()));
}

#[test]
fn test_parse_string_types() {
    assert_eq!(parse_string("a b", BrigadierStringType::Greedy), Ok(("a b", 3)));
    assert_eq!(parse_string("a b", BrigadierStringType::Word), Ok(("a", 1)));
    assert!(parse_string("a b", BrigadierStringType::Phrase).is_err());
}

#[test]
fn test_resource_locations() {
    let rl = ResourceLocationRef::try_from("test:dir/func").unwrap();
    assert_eq!(rl.namespace(), "test");
    assert_eq!(rl.path(), "dir/func");
    let plain = ResourceLocationRef::try_from("stone").unwrap();
    assert_eq!(plain.namespace(), "minecraft");
    assert_eq!(plain.path(), "stone");
    assert_eq!(
        ResourceLocationRef::try_from("Test:x").unwrap_err(),
        InvalidResourceLocation::InvalidNamespace
    );
    assert_eq!(
        ResourceLocationRef::try_from("test:X").unwrap_err(),
        InvalidResourceLocation::InvalidPath
    );
    let owned = ResourceLocation::new("test", "dir/func");
    assert_eq!(owned, rl.to_owned());
    assert_eq!(owned.to_ref(), rl);
    let (parsed, len) = ResourceLocationRef::parse("test:func run").unwrap();
    assert_eq!(len, 9);
    assert_eq!(parsed.to_string(), "test:func");
    let (empty, empty_len) = ResourceLocationRef::parse("A").unwrap();
    assert_eq!(empty_len, 0);
    assert_eq!(empty.to_string(), "");
    assert_eq!(ResourceLocationRef::parse("a:b:c").unwrap_err(), "Invalid ID");
    let path = owned.mcfunction_path();
    assert!(path == "test/functions/dir/func.mcfunction" || path == "test\\functions\\dir\\func.mcfunction");
}
