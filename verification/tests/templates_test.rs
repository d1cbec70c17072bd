use mcfunction_debugger::adapter::utils::BreakpointPosition;
use mcfunction_debugger::generator::config::adapter::{BreakpointPositionInLine, LocalBreakpointPosition};
use mcfunction_debugger::generator::config::Config;
use mcfunction_debugger::generator::templates::{
    called_functions, collect_objectives, expand_function_templates, expand_global_templates,
    expand_line, expand_log_scores_template, expand_schedule_template,
    expand_show_skipped_template, expand_validate_all_functions_template, FunctionTemplates,
    LineTemplates,
};
use mcfunction_debugger::generator::DebugDatapackMetadata;
use mcfunction_debugger::parser::command::resource_location::ResourceLocation;
use mcfunction_debugger::parser::commands::NamespacedNameRef;
use mcfunction_debugger::parser::Line;
use mcfunction_debugger::template_engine::TemplateEngine;
use mcfunction_debugger::utils::{logged_command, logged_command_str, named_logged_command};

fn line_templates() -> LineTemplates<'static> {
    LineTemplates {
        set_breakpoint: "set -line_number- -ns-",
        call_function: "execute run function -call_ns-:-call/fn-\n# -debug_anchor-",
        schedule_append: "-ns- append -schedule_ns-:-schedule_fn- -ticks-",
        schedule_clear: "-ns- clear -schedule_ns-:-schedule_fn-",
        schedule_replace: "-ns- replace -schedule_ns-:-schedule_fn- -ticks-",
    }
}

#[test]
fn global_templates_expand_path_and_text() {
    let engine = TemplateEngine::new(vec![("-ns-", "dbg")]);
    let templates = vec![("data/-ns-/x.mcfunction".to_string(), "say -ns-".to_string())];
    let files = expand_global_templates(&engine, &templates);
    assert_eq!(files, vec![("data/dbg/x.mcfunction".to_string(), "say dbg".to_string())]);
}

#[test]
fn expand_line_excludes_internal_entities() {
    let engine = TemplateEngine::new(vec![("-ns-", "dbg")]);
    let line = (1, "say @e hi".to_string(), Line::OtherCommand { selectors: vec![4], objectives: vec![] });
    let text = expand_line(&engine, &line, &line_templates(), "");
    assert_eq!(text, "say @e[tag=!dbg] hi");
}

#[test]
fn expand_line_sets_breakpoint_with_line_number() {
    let engine = TemplateEngine::new(vec![("-ns-", "dbg")]);
    let line = (3, "# breakpoint".to_string(), Line::Breakpoint);
    assert_eq!(expand_line(&engine, &line, &line_templates(), ""), "set 3 dbg");
}

#[test]
fn expand_line_keeps_comments() {
    let engine = TemplateEngine::new(vec![("-ns-", "dbg")]);
    let line = (2, "# -ns- stays".to_string(), Line::Comment);
    assert_eq!(expand_line(&engine, &line, &line_templates(), ""), "# -ns- stays");
}

#[test]
fn expand_line_calls_function_with_anchor() {
    let engine = TemplateEngine::new(vec![("-ns-", "dbg")]);
    let text = "execute as @s run function ns:dir/f";
    let line = (
        1,
        text.to_string(),
        Line::FunctionCall {
            column_index: 18,
            name: ResourceLocation::new("ns", "dir/f"),
            anchor: None,
            selectors: vec![11],
            objectives: vec![],
        },
    );
    assert_eq!(
        expand_line(&engine, &line, &line_templates(), ""),
        "execute as @s[tag=!dbg] run function ns:dir/f\n"
    );
}

fn function_templates() -> FunctionTemplates<'static> {
    FunctionTemplates {
        next_iteration_or_return: ("-orig_ns-/-orig/fn-/next", "next -positions-"),
        continue_current_iteration_at: ("-orig_ns-/-orig/fn-/cci_-position-", "cci"),
        continue_at: ("-orig_ns-/-orig/fn-/continue_at_-position-", "continue -position-"),
        suspend_at: ("-orig_ns-/-orig/fn-/suspend_at_-position-", "suspend -line_number--optional_column-"),
        positions: ("-orig_ns-/-orig/fn-/-positions-", "# -content-"),
        breakpoint_configurable: "breakpoint -score_holder- -next_positions-",
        call_function: "call -call_ns-:-call/fn- -line_number-",
        return_command: "return -orig_fn-",
        fixed: vec![("-orig_ns-/-orig/fn-/start", "start -fn_score_holder-")],
        shadow: ("-orig_ns-/functions/-orig/fn-", "function debug:-orig_ns-/-orig/fn-"),
        return_self: ("-orig_ns-/-orig/fn-/return_self", "# -return_cases-"),
        validate: ("-orig_ns-/-orig/fn-/validate", "# -commands-"),
        lines: line_templates(),
    }
}

#[test]
fn function_templates_of_a_plain_function() {
    let engine = TemplateEngine::new(vec![("-ns-", "dbg")]);
    let name = ResourceLocation::new("ns", "dir/f");
    let metadata = DebugDatapackMetadata::new(vec![(name.clone(), 0)]);
    let config = Config { namespace: "dbg", shadow: false, adapter: None };
    let lines = vec![(1, "say hi".to_string(), Line::OtherCommand { selectors: vec![], objectives: vec![] })];
    let files = expand_function_templates(
        &engine,
        &metadata,
        &name,
        &lines,
        &config,
        &[],
        &function_templates(),
        &[],
    );
    let expected = vec![
        ("ns/dir/f/next".to_string(), "next 0_entry-1_return".to_string()),
        ("ns/dir/f/continue_at_0_entry".to_string(), "continue 0_entry".to_string()),
        ("ns/dir/f/0_entry-1_return".to_string(), "say hi\nreturn dir_f".to_string()),
        ("ns/dir/f/start".to_string(), "start ns:dir/f".to_string()),
        (
            "ns/dir/f/validate".to_string(),
            "execute if score 1 dbg_constant matches 0 run say hi".to_string(),
        ),
    ];
    assert_eq!(files, expected);
}

#[test]
fn function_templates_with_a_breakpoint_and_callers() {
    let engine = TemplateEngine::new(vec![("-ns-", "dbg")]);
    let name = ResourceLocation::new("ns", "f");
    let caller = ResourceLocation::new("ns", "main");
    let metadata = DebugDatapackMetadata::new(vec![(name.clone(), 0)]);
    let config = Config { namespace: "dbg", shadow: false, adapter: None };
    let lines = vec![
        (1, "# breakpoint".to_string(), Line::Breakpoint),
        (2, "say hi".to_string(), Line::OtherCommand { selectors: vec![], objectives: vec![] }),
    ];
    let files = expand_function_templates(
        &engine,
        &metadata,
        &name,
        &lines,
        &config,
        &[(caller, 4)],
        &function_templates(),
        &[],
    );
    let paths: Vec<&str> = files.iter().map(|(p, _)| p.as_str()).collect();
    assert_eq!(
        paths,
        vec![
            "ns/f/next",
            "ns/f/continue_at_0_entry",
            "ns/f/suspend_at_0_entry",
            "ns/f/0_entry-1_breakpoint",
            "ns/f/cci_1_breakpoint",
            "ns/f/continue_at_1_breakpoint",
            "ns/f/1_breakpoint-2_return",
            "ns/f/start",
            "ns/f/return_self",
            "ns/f/validate",
        ]
    );
    assert_eq!(files[2].1, "suspend 1:1");
    assert_eq!(files[3].1, "\nbreakpoint ns:f_1_breakpoint 1_breakpoint-2_return");
    assert_eq!(files[6].1, "say hi\nreturn f");
    assert_eq!(
        files[8].1,
        "execute if entity @s[tag=dbg+ns+main+4] run function dbg:ns/main/continue_current_iteration_at_4_function"
    );
}

#[test]
fn logged_commands_summon_a_command_block_minecart() {
    let prefix = "execute at @e[type=area_effect_cloud,tag=minect_connection,limit=1] run summon command_block_minecart ~ ~ ~ {";
    let suffix = "Tags:[minect,minect_impulse],LastExecution:1L,TrackOutput:false,}";
    assert_eq!(
        logged_command_str("say \"hi\""),
        format!("{}Command:\"say \\\"hi\\\"\",{}", prefix, suffix)
    );
    assert_eq!(logged_command("say a\\b".to_string()), format!("{}Command:\"say a\\\\b\",{}", prefix, suffix));
    assert_eq!(
        named_logged_command("n", "say x".to_string()),
        format!("{}CustomName:\"{{\\\"text\\\":\\\"n\\\"}}\",Command:\"say x\",{}", prefix, suffix)
    );
}

#[test]
fn namespaced_name_text_reads_back() {
    let name = NamespacedNameRef::<String>::new("ns", "dir/f");
    let back = NamespacedNameRef::from(name.to_string()).unwrap();
    assert!(back == name);
    assert_eq!(back.namespace(), "ns");
    assert_eq!(back.name(), "dir/f");
}

#[test]
fn engine_without_placeholders_in_text_keeps_it() {
    let engine = TemplateEngine::new(vec![("-ns-", "dbg"), ("-x-", "y")]);
    assert_eq!(engine.expand("say hello"), "say hello");
    let empty = TemplateEngine::new(vec![]);
    assert_eq!(empty.expand("say -ns-"), "say -ns-");
}

#[test]
fn breakpoint_position_reads_back_whole() {
    let p = BreakpointPosition::from_breakpoint(
        ResourceLocation::new("ns", "dir/f"),
        &LocalBreakpointPosition { line_number: 7, position_in_line: BreakpointPositionInLine::AfterFunction },
    );
    let back = BreakpointPosition::parse(&p.to_string()).unwrap();
    assert_eq!(back.function.to_string(), "ns:dir/f");
    assert!(back.function == p.function);
    assert_eq!(back.line_number, 7);
    assert_eq!(back.position_in_line, BreakpointPositionInLine::AfterFunction);
}

#[test]
fn resource_location_new_writes_namespace_and_path() {
    assert_eq!(ResourceLocation::new("ns", "a/b").to_string(), "ns:a/b");
}

#[test]
fn schedule_and_validate_all_functions_per_function() {
    let engine = TemplateEngine::new(vec![("-ns-", "dbg")]);
    let a = ResourceLocation::new("ns", "a/b");
    let b = ResourceLocation::new("ns", "c");
    let metadata = DebugDatapackMetadata::new(vec![(a.clone(), 0), (b.clone(), 1)]);
    let names = vec![a, b];
    assert_eq!(
        expand_schedule_template(&engine, &metadata, &names, "s -orig_ns-:-orig/fn- -orig_fn-;"),
        "s ns:a/b a_b;s ns:c c;"
    );
    assert_eq!(
        expand_validate_all_functions_template(&engine, &metadata, &names, "v -fn_score_holder- -ns-;"),
        "v ns:a/b dbg;v ns:c dbg;"
    );
}

fn other_with(objectives: &[&str]) -> Line<'static> {
    Line::OtherCommand { selectors: vec![], objectives: objectives.iter().map(|o| o.to_string()).collect() }
}

fn call_of(name: &ResourceLocation) -> Line<'static> {
    Line::FunctionCall { column_index: 0, name: name.clone(), anchor: None, selectors: vec![], objectives: vec![] }
}

#[test]
fn objectives_and_called_functions_are_collected_once_in_order() {
    let f = ResourceLocation::new("ns", "f");
    let z = ResourceLocation::new("z", "a");
    let a = ResourceLocation::new("a", "b");
    let contents = vec![
        (f.clone(), vec![(1, "x".to_string(), other_with(&["b", "a"])), (2, "y".to_string(), call_of(&z))]),
        (z.clone(), vec![(1, "x".to_string(), other_with(&["a", "c"])), (2, "y".to_string(), call_of(&a)), (3, "y".to_string(), call_of(&z))]),
    ];
    assert_eq!(collect_objectives(&contents), vec!["a".to_string(), "b".to_string(), "c".to_string()]);
    let called: Vec<String> = called_functions(&contents).iter().map(|n| n.to_string()).collect();
    assert_eq!(called, vec!["a:b".to_string(), "z:a".to_string()]);
}

#[test]
fn log_scores_per_objective() {
    let engine = TemplateEngine::new(vec![("-ns-", "dbg")]);
    let objectives = vec!["a".to_string(), "b".to_string()];
    assert_eq!(expand_log_scores_template(&engine, &objectives, "log -objective- -ns-\n"), "log a dbg\nlog b dbg\n");
}

#[test]
fn show_skipped_reports_missing_and_invalid_calls() {
    let engine = TemplateEngine::new(vec![("-ns-", "dbg")]);
    let f = ResourceLocation::new("ns", "f");
    let metadata = DebugDatapackMetadata::new(vec![(f.clone(), 0)]);
    let (path, text) = expand_show_skipped_template(
        &engine,
        &metadata,
        &[f],
        ("data/debug/show_skipped", "# -missing_functions-\n--\n# -invalid_functions-"),
    );
    assert_eq!(path, "data/debug/show_skipped");
    let tellraw = r#"tellraw @s [{"text":" - ns:f ("},{"score":{"name":"ns:f","objective":"dbg_skipped"}},{"text":"x)"}]"#;
    assert_eq!(
        text,
        format!(
            "execute if score ns:f dbg_skipped matches 1.. unless score ns:f dbg_valid matches 0 run {}\n--\nexecute if score ns:f dbg_skipped matches 1.. if score ns:f dbg_valid matches 0 run {}",
            tellraw, tellraw
        )
    );
}

#[test]
fn shadowing_adds_a_forwarding_function() {
    let engine = TemplateEngine::new(vec![("-ns-", "dbg")]);
    let name = ResourceLocation::new("ns", "dir/f");
    let metadata = DebugDatapackMetadata::new(vec![(name.clone(), 0)]);
    let lines = vec![(1, "say hi".to_string(), Line::OtherCommand { selectors: vec![], objectives: vec![] })];
    let shadowing = Config { namespace: "dbg", shadow: true, adapter: None };
    let files = expand_function_templates(&engine, &metadata, &name, &lines, &shadowing, &[], &function_templates(), &[]);
    assert_eq!(files.len(), 6);
    assert_eq!(
        files[4],
        ("ns/functions/dir/f".to_string(), "function debug:ns/dir/f".to_string())
    );
    let plain = Config { namespace: "dbg", shadow: false, adapter: None };
    let files = expand_function_templates(&engine, &metadata, &name, &lines, &plain, &[], &function_templates(), &[]);
    assert_eq!(files.len(), 5);
    assert!(files.iter().all(|(path, _)| path != "ns/functions/dir/f"));
}
