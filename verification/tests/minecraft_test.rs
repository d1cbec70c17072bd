use mcfunction_debugger::adapter::minecraft::{is_added_tag_output, parse_scoreboard_value};

#[test]
fn test_is_added_tag_output_correct_tag() {
    // given:
    let output = "Added tag 'my_tag' to my_entity";
    let tag = "my_tag";

    // when:
    let actual = is_added_tag_output(output, tag);

    // then:
    assert_eq!(actual, true);
}

#[test]
fn test_is_added_tag_output_wrong_tag() {
    // given:
    let output = "Added tag 'not_my_tag' to my_entity";
    let tag = "my_tag";

    // when:
    let actual = is_added_tag_output(output, tag);

    // then:
    assert_eq!(actual, false);
}

#[test]
fn test_is_added_tag_output_wrong_output() {
    // given:
    let output = "Bla bla bla";
    let tag = "my_tag";

    // when:
    let actual = is_added_tag_output(output, tag);

    // then:
    assert_eq!(actual, false);
}

#[test]
fn test_added_tag_ends_at_first_separator() {
    assert!(is_added_tag_output("Added tag 'a' to b' to c", "a"));
    assert!(!is_added_tag_output("Added tag 'a' to b' to c", "a' to b"));
    assert!(!is_added_tag_output("Added tag 'a", "a"));
}

#[test]
fn test_parse_scoreboard_value() {
    let output = "Added 0 to [my_scoreboard] for my_entity (now 42)";
    assert_eq!(parse_scoreboard_value(output, "my_scoreboard"), Some(42));
    assert_eq!(parse_scoreboard_value(output, "other"), None);
    assert_eq!(
        parse_scoreboard_value("Added 0 to [s] for a (now 1) (now -7)", "s"),
        Some(-7)
    );
    assert_eq!(parse_scoreboard_value("Added 0 to [s] for a (now x)", "s"), None);
    assert_eq!(parse_scoreboard_value("Added 0 to [s] for a (now 1", "s"), None);
    assert_eq!(parse_scoreboard_value("Bla", "s"), None);
}
