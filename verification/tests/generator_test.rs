use mcfunction_debugger::generator::config::adapter::{
    BreakpointPositionInLine, LocalBreakpointPosition,
};
use mcfunction_debugger::generator::partition::{Position, PositionInLine};
use mcfunction_debugger::generator::files::{function_files, insert_function_file};
use mcfunction_debugger::generator::calls::{
    functions_txt,
    callers_of, create_call_tree, return_case, return_cases, sort_strings,
};
use mcfunction_debugger::generator::{debug_anchor, validate_commands, DebugDatapackMetadata};
use mcfunction_debugger::parser::command::argument::MinecraftEntityAnchor;
use mcfunction_debugger::parser::Line;
use mcfunction_debugger::parser::command::resource_location::ResourceLocation;
use mcfunction_debugger::parser::commands::{NamespacedName, NamespacedNameRef};
use mcfunction_debugger::template_engine::{
    exclude_internal_entites_from_selectors, TemplateEngine,
};
use mcfunction_debugger::utils::Map0;

#[test]
fn test_score_holders() {
    let short = ResourceLocation::new("ns", "f");
    let long = ResourceLocation::new("ns", "a_very_long_function_name_that_is_long");
    let missing = ResourceLocation::new("ns", "another_very_long_function_name_beyond");
    let metadata = DebugDatapackMetadata::new(vec![(short.clone(), 3), (long.clone(), 7)]);
    assert_eq!(metadata.get_id(&long), Some(7));
    assert_eq!(metadata.get_id(&missing), None);
    assert_eq!(metadata.get_fn_score_holder(&short), "ns:f");
    assert_eq!(metadata.get_fn_score_holder(&long), "fn_7");
    assert_eq!(
        metadata.get_fn_score_holder(&missing),
        "ns:another_very_long_function_name_beyond"
    );
    let position = LocalBreakpointPosition {
        line_number: 2,
        position_in_line: BreakpointPositionInLine::Breakpoint,
    };
    assert_eq!(
        metadata.get_breakpoint_score_holder(&short, &position),
        "ns:f_2_breakpoint"
    );
    assert_eq!(
        metadata.get_breakpoint_score_holder(&long, &position),
        "fn_7_2_breakpoint"
    );
}

#[test]
fn test_metadata_later_number_counts() {
    let f = ResourceLocation::new("ns", "a_very_long_function_name_that_is_long");
    let metadata = DebugDatapackMetadata::new(vec![(f.clone(), 1), (f.clone(), 2)]);
    assert_eq!(metadata.get_id(&f), Some(2));
}

#[test]
fn test_position_roundtrip() {
    let position = Position {
        line_number: 17,
        position_in_line: PositionInLine::AfterFunction,
    };
    assert_eq!(position.to_string(), "17_after_function");
    assert_eq!("17_after_function".parse::<Position>(), Ok(position));
    assert_eq!("0_entry".parse::<Position>().unwrap().position_in_line, PositionInLine::Entry);
    assert!("x_entry".parse::<Position>().is_err());
    assert!("1_exit".parse::<Position>().is_err());
}

#[test]
fn test_template_engine_expand() {
    let engine = TemplateEngine::new(vec![("-ns-", "debug"), ("-x-", "1"), ("-x-", "2")]);
    assert_eq!(engine.expand("function -ns-:a -x-"), "function debug:a 2");
}

#[test]
fn test_template_engine_extend_keeps_own_values() {
    let engine = TemplateEngine::new(vec![("-ns-", "debug")]);
    let extended = engine.extend(vec![("-ns-", "other"), ("-fn-", "f")]);
    assert_eq!(extended.expand("-ns-:-fn-"), "debug:f");
}

#[test]
fn test_template_engine_extend_orig_name() {
    let engine = TemplateEngine::new(vec![("-ns-", "debug")]);
    let name: NamespacedName = NamespacedNameRef::new("my_ns", "dir/my_fn");
    let extended = engine.extend_orig_name(&name);
    assert_eq!(
        extended.expand("-ns-:-orig_ns-/-orig/fn- -orig_fn-"),
        "debug:my_ns/dir/my_fn dir_my_fn"
    );
}

#[test]
fn test_template_engine_empty_placeholder() {
    let engine = TemplateEngine::new(vec![("", "-")]);
    assert_eq!(engine.expand("ab"), "-a-b-");
}

#[test]
fn test_exclude_internal_entities() {
    assert_eq!(
        exclude_internal_entites_from_selectors("say @e hi", &[4]),
        "say @e[tag=!-ns-] hi"
    );
    assert_eq!(
        exclude_internal_entites_from_selectors("kill @e[type=pig] @e", &[5, 18]),
        "kill @e[tag=!-ns-,type=pig] @e[tag=!-ns-]"
    );
    assert_eq!(exclude_internal_entites_from_selectors("say hi", &[]), "say hi");
}

#[test]
fn test_namespaced_name() {
    let name = NamespacedNameRef::from("ns:dir/f").unwrap();
    assert_eq!(name.namespace(), "ns");
    assert_eq!(name.name(), "dir/f");
    assert!(NamespacedNameRef::from("no_colon").is_none());
    let owned = name.to_owned();
    assert_eq!(owned.namespace(), "ns");
    assert_eq!(owned.to_string(), "ns:dir/f");
    let name = NamespacedNameRef::from("a:b:c").unwrap();
    assert_eq!(name.namespace(), "a");
    assert_eq!(name.name(), "b:c");
}

#[test]
fn test_map0() {
    assert_eq!((1, "a").map0(|x| x + 1), (2, "a"));
}

#[test]
fn test_validate_commands() {
    use_validate_commands();
}

fn use_validate_commands() {
    let lines = vec![
        (1, "  say hi".to_string(), Line::OtherCommand { selectors: vec![], objectives: vec![] }),
        (2, "# comment".to_string(), Line::Comment),
        (3, "".to_string(), Line::Empty),
    ];
    assert_eq!(
        validate_commands(&lines),
        "execute if score 1 -ns-_constant matches 0 run say hi\n# comment\n"
    );
    assert_eq!(validate_commands(&[]), "");
}

#[test]
fn test_debug_anchor() {
    assert_eq!(debug_anchor(None), "");
    assert_eq!(
        debug_anchor(Some(MinecraftEntityAnchor::EYES)),
        "execute if score -fn_score_holder- -ns-_valid matches 1 run scoreboard players set current -ns-_anchor 1"
    );
    assert_eq!(
        debug_anchor(Some(MinecraftEntityAnchor::FEET)),
        "execute if score -fn_score_holder- -ns-_valid matches 1 run scoreboard players set current -ns-_anchor 0"
    );
}

fn call_line(name: &str) -> Line<'static> {
    Line::FunctionCall {
        column_index: 0,
        name: ResourceLocation::new("ns", name),
        anchor: None,
        selectors: vec![],
        objectives: vec![],
    }
}

#[test]
fn test_call_tree() {
    let a = ResourceLocation::new("ns", "a");
    let b = ResourceLocation::new("ns", "b");
    let contents = vec![
        (a.clone(), vec![
            (1, "function ns:b".to_string(), call_line("b")),
            (2, "say hi".to_string(), Line::OtherCommand { selectors: vec![], objectives: vec![] }),
            (3, "function ns:c".to_string(), call_line("c")),
        ]),
        (b.clone(), vec![(4, "function ns:b".to_string(), call_line("b"))]),
    ];
    let tree = create_call_tree(&contents);
    let summary = tree
        .iter()
        .map(|(callee, caller, line)| (callee.path().to_string(), caller.path().to_string(), *line))
        .collect::<Vec<_>>();
    assert_eq!(
        summary,
        vec![
            ("b".to_string(), "a".to_string(), 1),
            ("c".to_string(), "a".to_string(), 3),
            ("b".to_string(), "b".to_string(), 4),
        ]
    );
    let callers = callers_of(&tree, &b);
    assert_eq!(callers, vec![(a.clone(), 1), (b.clone(), 4)]);
    assert!(callers_of(&tree, &a).is_empty());
}

#[test]
fn test_return_cases() {
    let engine = TemplateEngine::new(vec![("-ns-", "mcfd")]);
    let f = ResourceLocation::new("ns", "dir/f");
    let g = ResourceLocation::new("ns", "a");
    assert_eq!(
        return_case(&engine, &f, 3),
        "execute if entity @s[tag=mcfd+ns+dir+f+3] run function mcfd:ns/dir/f/continue_current_iteration_at_3_function"
    );
    assert_eq!(
        return_cases(&engine, &[(f.clone(), 3), (g.clone(), 12)]),
        "execute if entity @s[tag=mcfd+ns+a+12] run function mcfd:ns/a/continue_current_iteration_at_12_function\n\
         execute if entity @s[tag=mcfd+ns+dir+f+3] run function mcfd:ns/dir/f/continue_current_iteration_at_3_function"
    );
}

#[test]
fn test_sort_strings() {
    let sorted = sort_strings(vec!["b".to_string(), "a".to_string(), "ab".to_string(), "a".to_string()]);
    assert_eq!(sorted, vec!["a", "a", "ab", "b"]);
}

#[test]
fn functions_txt_lists_one_name_per_line() {
    let names = vec![ResourceLocation::new("ns", "main"), ResourceLocation::new("ns", "sub/inner")];
    assert_eq!(functions_txt(&names), "ns:main\nns:sub/inner");
    assert_eq!(functions_txt(&names[..1]), "ns:main");
    assert_eq!(functions_txt(&[]), "");
}

#[test]
fn function_files_are_ordered_by_namespace_then_path() {
    let found = vec![
        (ResourceLocation::new("b", "a"), 1),
        (ResourceLocation::new("a", "z"), 2),
        (ResourceLocation::new("a", "b/c"), 3),
        (ResourceLocation::new("a", "z"), 4),
    ];
    let files = function_files(found);
    let names: Vec<String> = files.iter().map(|(n, _)| n.to_string()).collect();
    assert_eq!(names, vec!["a:b/c", "a:z", "b:a"]);
    let values: Vec<i32> = files.iter().map(|(_, v)| *v).collect();
    assert_eq!(values, vec![3, 4, 1]);
}

#[test]
fn insert_function_file_replaces_the_file_of_a_known_name() {
    let mut files = vec![(ResourceLocation::new("a", "x"), "old")];
    insert_function_file(&mut files, ResourceLocation::new("a", "x"), "new");
    insert_function_file(&mut files, ResourceLocation::new("a", "w"), "first");
    assert_eq!(files.len(), 2);
    assert_eq!(files[0].0.to_string(), "a:w");
    assert_eq!(files[0].1, "first");
    assert_eq!(files[1].1, "new");
}

#[test]
fn resource_locations_are_ordered_by_namespace_first() {
    let a = ResourceLocation::new("a", "z");
    let b = ResourceLocation::new("b", "a");
    assert!(a.precedes(&b));
    assert!(!b.precedes(&a));
    assert!(!a.precedes(&a));
    assert!(ResourceLocation::new("a", "a").precedes(&a));
}
