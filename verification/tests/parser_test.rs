use mcfunction_debugger::parser::command::argument::brigadier::BrigadierStringType;
use mcfunction_debugger::parser::command::argument::{
    ArgumentParser, MinecraftAmount, MinecraftEntityAnchor, MinecraftEntityType, MinecraftTime,
    MinecraftTimeUnit,
};
use mcfunction_debugger::parser::command::resource_location::{ResourceLocation, ResourceLocationRef};
use mcfunction_debugger::parser::command::{CommandParser, CommandSpec, Node};
use mcfunction_debugger::parser::{parse_line, parse_line_internal, Line, ScheduleOperation};

const EXECUTE: Option<&str> = Some("execute");

fn sorted(mut children: Vec<(String, CommandSpec)>) -> Vec<(String, CommandSpec)> {
    children.sort_by(|a, b| a.0.cmp(&b.0));
    children
}

fn node(children: Vec<(String, CommandSpec)>, executable: bool, redirect: Option<&str>) -> Node {
    Node {
        children: sorted(children),
        executable,
        redirect: redirect.iter().map(|it| it.to_string()).collect(),
    }
}

fn l(
    name: &str,
    executable: bool,
    redirect: Option<&str>,
    children: Vec<(String, CommandSpec)>,
) -> (String, CommandSpec) {
    let node = node(children, executable, redirect);
    (name.to_string(), CommandSpec::Literal { node })
}

fn a(
    name: &str,
    parser: ArgumentParser,
    executable: bool,
    redirect: Option<&str>,
    children: Vec<(String, CommandSpec)>,
) -> (String, CommandSpec) {
    let node = node(children, executable, redirect);
    (name.to_string(), CommandSpec::Argument { node, parser })
}

fn entities(amount: MinecraftAmount) -> ArgumentParser {
    let type_ = MinecraftEntityType::Entities;
    ArgumentParser::MinecraftEntity { type_, amount }
}

fn score_holder(amount: MinecraftAmount) -> ArgumentParser {
    ArgumentParser::MinecraftScoreHolder { amount }
}

fn conditions() -> Vec<(String, CommandSpec)> {
    let single = MinecraftAmount::Single;
    let multiple = MinecraftAmount::Multiple;
    let range = a("range", ArgumentParser::MinecraftIntRange, true, EXECUTE, vec![]);
    let mut comparisons = vec![l("matches", false, None, vec![range])];
    for op in ["<", "<=", "=", ">", ">="] {
        let objective = a("sourceObjective", ArgumentParser::MinecraftObjective, true, EXECUTE, vec![]);
        let source = a("source", score_holder(single), false, None, vec![objective]);
        comparisons.push(l(op, false, None, vec![source]));
    }
    let block = a("block", ArgumentParser::MinecraftBlockPredicate, true, EXECUTE, vec![]);
    let all = l("all", true, EXECUTE, vec![]);
    let masked = l("masked", true, EXECUTE, vec![]);
    let destination = a("destination", ArgumentParser::MinecraftBlockPos, false, None, vec![all, masked]);
    let end = a("end", ArgumentParser::MinecraftBlockPos, false, None, vec![destination]);
    let path = || a("path", ArgumentParser::MinecraftNbtPath, true, EXECUTE, vec![]);
    let data_block = a("sourcePos", ArgumentParser::MinecraftBlockPos, false, None, vec![path()]);
    let data_entity = a("source", entities(single), false, None, vec![path()]);
    let data_storage = a("source", ArgumentParser::MinecraftResourceLocation, false, None, vec![path()]);
    let target_objective = a("targetObjective", ArgumentParser::MinecraftObjective, false, None, comparisons);
    vec![
        l("block", false, None, vec![a("pos", ArgumentParser::MinecraftBlockPos, false, None, vec![block])]),
        l("blocks", false, None, vec![a("start", ArgumentParser::MinecraftBlockPos, false, None, vec![end])]),
        l(
            "data",
            false,
            None,
            vec![
                l("block", false, None, vec![data_block]),
                l("entity", false, None, vec![data_entity]),
                l("storage", false, None, vec![data_storage]),
            ],
        ),
        l("entity", false, None, vec![a("entities", entities(multiple), true, EXECUTE, vec![])]),
        l(
            "predicate",
            false,
            None,
            vec![a("predicate", ArgumentParser::MinecraftResourceLocation, true, EXECUTE, vec![])],
        ),
        l(
            "score",
            false,
            None,
            vec![a("target", score_holder(single), false, None, vec![target_objective])],
        ),
    ]
}

fn store_types() -> Vec<(String, CommandSpec)> {
    ["byte", "double", "float", "int", "long", "short"]
        .iter()
        .map(|t| {
            let scale = a("scale", ArgumentParser::BrigadierDouble, false, EXECUTE, vec![]);
            l(t, false, None, vec![scale])
        })
        .collect()
}

fn stores() -> Vec<(String, CommandSpec)> {
    let path = || a("path", ArgumentParser::MinecraftNbtPath, false, None, store_types());
    let max = l("max", false, EXECUTE, vec![]);
    let value = l("value", false, EXECUTE, vec![]);
    let objective = a("objective", ArgumentParser::MinecraftObjective, false, EXECUTE, vec![]);
    let single = MinecraftAmount::Single;
    let multiple = MinecraftAmount::Multiple;
    vec![
        l("block", false, None, vec![a("targetPos", ArgumentParser::MinecraftBlockPos, false, None, vec![path()])]),
        l(
            "bossbar",
            false,
            None,
            vec![a("id", ArgumentParser::MinecraftResourceLocation, false, None, vec![max, value])],
        ),
        l("entity", false, None, vec![a("target", entities(single), false, None, vec![path()])]),
        l(
            "score",
            false,
            None,
            vec![a("targets", score_holder(multiple), false, None, vec![objective])],
        ),
        l(
            "storage",
            false,
            None,
            vec![a("target", ArgumentParser::MinecraftResourceLocation, false, None, vec![path()])],
        ),
    ]
}

fn execute_tree() -> (String, CommandSpec) {
    let multiple = MinecraftAmount::Multiple;
    let targets = || a("targets", entities(multiple), false, EXECUTE, vec![]);
    let facing_anchor = a("anchor", ArgumentParser::MinecraftEntityAnchor, false, EXECUTE, vec![]);
    let facing_targets = a("targets", entities(multiple), false, None, vec![facing_anchor]);
    l(
        "execute",
        false,
        None,
        vec![
            l("align", false, None, vec![a("axes", ArgumentParser::MinecraftSwizzle, false, EXECUTE, vec![])]),
            l(
                "anchored",
                false,
                None,
                vec![a("anchor", ArgumentParser::MinecraftEntityAnchor, false, EXECUTE, vec![])],
            ),
            l("as", false, None, vec![targets()]),
            l("at", false, None, vec![targets()]),
            l(
                "facing",
                false,
                None,
                vec![
                    l("entity", false, None, vec![facing_targets]),
                    a("pos", ArgumentParser::MinecraftVec3, false, EXECUTE, vec![]),
                ],
            ),
            l("if", false, None, conditions()),
            l("in", false, None, vec![a("dimension", ArgumentParser::MinecraftDimension, false, EXECUTE, vec![])]),
            l(
                "positioned",
                false,
                None,
                vec![
                    l("as", false, None, vec![targets()]),
                    a("pos", ArgumentParser::MinecraftVec3, false, EXECUTE, vec![]),
                ],
            ),
            l(
                "rotated",
                false,
                None,
                vec![
                    l("as", false, None, vec![targets()]),
                    a("rot", ArgumentParser::MinecraftRotation, false, EXECUTE, vec![]),
                ],
            ),
            l("run", false, None, vec![]),
            l(
                "store",
                false,
                None,
                vec![l("result", false, None, stores()), l("success", false, None, stores())],
            ),
            l("unless", false, None, conditions()),
        ],
    )
}

/// The part of Minecraft's command tree that the tests use.
fn command_tree() -> CommandParser {
    let multiple = MinecraftAmount::Multiple;
    let greedy = ArgumentParser::BrigadierString { type_: BrigadierStringType::Greedy };
    let time = a(
        "time",
        ArgumentParser::MinecraftTime,
        true,
        None,
        vec![l("append", true, None, vec![]), l("replace", true, None, vec![])],
    );
    let source_objective = a("sourceObjective", ArgumentParser::MinecraftObjective, true, None, vec![]);
    let source = a("source", score_holder(multiple), false, None, vec![source_objective]);
    let operation = a("operation", ArgumentParser::MinecraftOperation, false, None, vec![source]);
    let target_objective = a("targetObjective", ArgumentParser::MinecraftObjective, false, None, vec![operation]);
    let targets = a("targets", score_holder(multiple), false, None, vec![target_objective]);
    let players = ArgumentParser::MinecraftEntity { type_: MinecraftEntityType::Players, amount: multiple };
    let message = a("message", ArgumentParser::MinecraftComponent, true, None, vec![]);
    let specs = vec![
        execute_tree(),
        l("function", false, None, vec![a("name", ArgumentParser::MinecraftFunction, true, None, vec![])]),
        l("say", false, None, vec![a("message", ArgumentParser::MinecraftMessage, true, None, vec![])]),
        l(
            "schedule",
            false,
            None,
            vec![
                l("clear", false, None, vec![a("function", greedy, true, None, vec![])]),
                l(
                    "function",
                    false,
                    None,
                    vec![a("function", ArgumentParser::MinecraftFunction, false, None, vec![time])],
                ),
            ],
        ),
        l(
            "scoreboard",
            false,
            None,
            vec![l("players", false, None, vec![l("operation", false, None, vec![targets])])],
        ),
        l("tellraw", false, None, vec![a("targets", players, false, None, vec![message])]),
    ];
    CommandParser::new(sorted(specs))
}

fn test_func() -> ResourceLocation {
    ResourceLocationRef::try_from("test:func").unwrap().to_owned()
}

fn strings(objectives: &[&str]) -> Vec<String> {
    objectives.iter().map(|it| it.to_string()).collect()
}

#[test]
fn tests_test_breakpoint() {
    // given:
    let parser = command_tree();
    let line = "# breakpoint";

    // when:
    let actual = parse_line_internal(&parser, line, true);

    // then:
    assert_eq!(actual, (Line::Breakpoint, None));
}

#[test]
fn tests_test_say() {
    // given:
    let parser = command_tree();
    let line = "say execute as @e run function test:func";

    // when:
    let actual = parse_line_internal(&parser, line, true);

    // then:
    let selectors = vec![15];
    let expected = Line::OtherCommand { selectors, objectives: strings(&[]) };
    assert_eq!(actual, (expected, None));
}

#[test]
fn test_tellraw() {
    // given:
    let parser = command_tree();
    let line = r#"tellraw @a {"text":"Hello World!"}"#;

    // when:
    let actual = parse_line_internal(&parser, line, true);

    // then:
    let selectors = vec![8];
    assert_eq!(actual.0, Line::OtherCommand { selectors, objectives: strings(&[]) });
}

#[test]
fn test_scoreboard_operation_selectors() {
    // given:
    let parser = command_tree();
    let line = "scoreboard players operation @s test = @e[tag=test] test";

    // when:
    let actual = parse_line_internal(&parser, line, true);

    // then:
    let selectors = vec![29, 39];
    let expected = Line::OtherCommand { selectors, objectives: strings(&["test"]) };
    assert_eq!(actual, (expected, None));
}

#[test]
fn test_scoreboard_operation_names() {
    // given:
    let parser = command_tree();
    let line = "scoreboard players operation var1 test = var2 test";

    // when:
    let actual = parse_line_internal(&parser, line, true);

    // then:
    let selectors = vec![];
    let expected = Line::OtherCommand { selectors, objectives: strings(&["test"]) };
    assert_eq!(actual, (expected, None));
}

#[test]
fn tests_test_execute() {
    // given:
    let parser = command_tree();
    let line = "execute run function test:func";

    // when:
    let actual = parse_line_internal(&parser, line, true);

    // then:
    let expected = Line::FunctionCall {
        column_index: 12,
        name: test_func(),
        anchor: None,
        selectors: vec![],
        objectives: strings(&[]),
    };
    assert_eq!(actual, (expected, None));
}

#[test]
fn tests_test_execute_align() {
    // given:
    let parser = command_tree();
    let line = "execute align xyz run function test:func";

    // when:
    let actual = parse_line_internal(&parser, line, true);

    // then:
    let expected = Line::FunctionCall {
        column_index: 22,
        name: test_func(),
        anchor: None,
        selectors: vec![],
        objectives: strings(&[]),
    };
    assert_eq!(actual, (expected, None));
}

#[test]
fn tests_test_execute_anchored() {
    // given:
    let parser = command_tree();
    let line = "execute anchored eyes run function test:func";

    // when:
    let actual = parse_line_internal(&parser, line, true);

    // then:
    let expected = Line::FunctionCall {
        column_index: 26,
        name: test_func(),
        anchor: Some(MinecraftEntityAnchor::EYES),
        selectors: vec![],
        objectives: strings(&[]),
    };
    assert_eq!(actual, (expected, None));
}

#[test]
fn tests_test_execute_multiple_anchored() {
    // given:
    let parser = command_tree();
    let line = "execute anchored feet anchored eyes run function test:func";

    // when:
    let actual = parse_line_internal(&parser, line, true);

    // then:
    let expected = Line::FunctionCall {
        column_index: 40,
        name: test_func(),
        anchor: Some(MinecraftEntityAnchor::EYES),
        selectors: vec![],
        objectives: strings(&[]),
    };
    assert_eq!(actual, (expected, None));
}

#[test]
fn test_multiple_execute_anchored() {
    // given:
    let parser = command_tree();
    let line = "execute anchored feet run execute anchored eyes run function test:func";

    // when:
    let actual = parse_line_internal(&parser, line, true);

    // then:
    let expected = Line::FunctionCall {
        column_index: 52,
        name: test_func(),
        anchor: Some(MinecraftEntityAnchor::EYES),
        selectors: vec![],
        objectives: strings(&[]),
    };
    assert_eq!(actual, (expected, None));
}

#[test]
fn test_multiple_execute_some_anchored() {
    // given:
    let parser = command_tree();
    let line = "execute anchored eyes run execute as @s run function test:func";

    // when:
    let actual = parse_line_internal(&parser, line, true);

    // then:
    let expected = Line::FunctionCall {
        column_index: 44,
        name: test_func(),
        anchor: Some(MinecraftEntityAnchor::EYES),
        selectors: vec![37],
        objectives: strings(&[]),
    };
    assert_eq!(actual, (expected, None));
}

#[test]
fn tests_test_execute_as() {
    // given:
    let parser = command_tree();
    let line = "execute as @e[type=area_effect_cloud] run function test:func";

    // when:
    let actual = parse_line_internal(&parser, line, true);

    // then:
    let expected = Line::FunctionCall {
        column_index: 42,
        name: test_func(),
        anchor: None,
        selectors: vec![11],
        objectives: strings(&[]),
    };
    assert_eq!(actual, (expected, None));
}

#[test]
fn tests_test_execute_at() {
    // given:
    let parser = command_tree();
    let line = "execute at @e[type=area_effect_cloud] run function test:func";

    // when:
    let actual = parse_line_internal(&parser, line, true);

    // then:
    let expected = Line::FunctionCall {
        column_index: 42,
        name: test_func(),
        anchor: None,
        selectors: vec![11],
        objectives: strings(&[]),
    };
    assert_eq!(actual, (expected, None));
}

#[test]
fn test_execute_facing_pos() {
    // given:
    let parser = command_tree();
    let line = "execute facing 1 ~2 -3 run function test:func";

    // when:
    let actual = parse_line_internal(&parser, line, true);

    // then:
    let expected = Line::FunctionCall {
        column_index: 27,
        name: test_func(),
        anchor: None,
        selectors: vec![],
        objectives: strings(&[]),
    };
    assert_eq!(actual, (expected, None));
}

#[test]
fn test_execute_facing_entity() {
    // given:
    let parser = command_tree();
    let line = "execute facing entity @e[type=area_effect_cloud] eyes run function test:func";

    // when:
    let actual = parse_line_internal(&parser, line, true);

    // then:
    let expected = Line::FunctionCall {
        column_index: 58,
        name: test_func(),
        anchor: None,
        selectors: vec![22],
        objectives: strings(&[]),
    };
    assert_eq!(actual, (expected, None));
}

#[test]
fn test_execute_in() {
    // given:
    let parser = command_tree();
    let line = "execute in the_nether run function test:func";

    // when:
    let actual = parse_line_internal(&parser, line, true);

    // then:
    let expected = Line::FunctionCall {
        column_index: 26,
        name: test_func(),
        anchor: None,
        selectors: vec![],
        objectives: strings(&[]),
    };
    assert_eq!(actual, (expected, None));
}

#[test]
fn test_execute_in_qualified() {
    // given:
    let parser = command_tree();
    let line = "execute in minecraft:the_end run function test:func";

    // when:
    let actual = parse_line_internal(&parser, line, true);

    // then:
    let expected = Line::FunctionCall {
        column_index: 33,
        name: test_func(),
        anchor: None,
        selectors: vec![],
        objectives: strings(&[]),
    };
    assert_eq!(actual, (expected, None));
}

#[test]
fn test_execute_positioned_absolute() {
    // given:
    let parser = command_tree();
    let line = "execute positioned -1 0 1 run function test:func";

    // when:
    let actual = parse_line_internal(&parser, line, true);

    // then:
    let expected = Line::FunctionCall {
        column_index: 30,
        name: test_func(),
        anchor: None,
        selectors: vec![],
        objectives: strings(&[]),
    };
    assert_eq!(actual, (expected, None));
}

#[test]
fn test_execute_positioned_local() {
    // given:
    let parser = command_tree();
    let line = "execute positioned ^-1 ^.3 ^-4.5 run function test:func";

    // when:
    let actual = parse_line_internal(&parser, line, true);

    // then:
    let expected = Line::FunctionCall {
        column_index: 37,
        name: test_func(),
        anchor: None,
        selectors: vec![],
        objectives: strings(&[]),
    };
    assert_eq!(actual, (expected, None));
}

#[test]
fn test_execute_positioned_relative() {
    // given:
    let parser = command_tree();
    let line = "execute positioned ~-1 ~.3 ~-4.5 run function test:func";

    // when:
    let actual = parse_line_internal(&parser, line, true);

    // then:
    let expected = Line::FunctionCall {
        column_index: 37,
        name: test_func(),
        anchor: None,
        selectors: vec![],
        objectives: strings(&[]),
    };
    assert_eq!(actual, (expected, None));
}

#[test]
fn test_execute_positioned_as() {
    // given:
    let parser = command_tree();
    let line = "execute positioned as @e[type=area_effect_cloud] run function test:func";

    // when:
    let actual = parse_line_internal(&parser, line, true);

    // then:
    let expected = Line::FunctionCall {
        column_index: 53,
        name: test_func(),
        anchor: None,
        selectors: vec![22],
        objectives: strings(&[]),
    };
    assert_eq!(actual, (expected, None));
}

#[test]
fn test_execute_rotated_absolute() {
    // given:
    let parser = command_tree();
    let line = "execute rotated 1 -5 run function test:func";

    // when:
    let actual = parse_line_internal(&parser, line, true);

    // then:
    let expected = Line::FunctionCall {
        column_index: 25,
        name: test_func(),
        anchor: None,
        selectors: vec![],
        objectives: strings(&[]),
    };
    assert_eq!(actual, (expected, None));
}

#[test]
fn test_execute_rotated_relative() {
    // given:
    let parser = command_tree();
    let line = "execute rotated ~ ~-.5 run function test:func";

    // when:
    let actual = parse_line_internal(&parser, line, true);

    // then:
    let expected = Line::FunctionCall {
        column_index: 27,
        name: test_func(),
        anchor: None,
        selectors: vec![],
        objectives: strings(&[]),
    };
    assert_eq!(actual, (expected, None));
}

#[test]
fn test_execute_rotated_as() {
    // given:
    let parser = command_tree();
    let line = "execute rotated as @e[type=area_effect_cloud] run function test:func";

    // when:
    let actual = parse_line_internal(&parser, line, true);

    // then:
    let expected = Line::FunctionCall {
        column_index: 50,
        name: test_func(),
        anchor: None,
        selectors: vec![19],
        objectives: strings(&[]),
    };
    assert_eq!(actual, (expected, None));
}

#[test]
fn test_execute_if_block() {
    // given:
    let parser = command_tree();
    let line = r#"execute if block ^1 ^.25 ^-.75 chest[facing=east]{Items:[{id:"minecraft:apple",Slot:13b,Count:1b}]} run function test:func"#;

    // when:
    let actual = parse_line_internal(&parser, line, true);

    // then:
    let expected = Line::FunctionCall {
        column_index: 104,
        name: test_func(),
        anchor: None,
        selectors: vec![],
        objectives: strings(&[]),
    };
    assert_eq!(actual, (expected, None));
}

#[test]
fn test_execute_if_block_tag() {
    // given:
    let parser = command_tree();
    let line = r#"execute if block ^1 ^.25 ^-.75 #minecraft:stairs[facing=east] run function test:func"#;

    // when:
    let actual = parse_line_internal(&parser, line, true);

    // then:
    let expected = Line::FunctionCall {
        column_index: 66,
        name: test_func(),
        anchor: None,
        selectors: vec![],
        objectives: strings(&[]),
    };
    assert_eq!(actual, (expected, None));
}

#[test]
fn test_execute_if_blocks() {
    // given:
    let parser = command_tree();
    let line = r#"execute if block -0 ~-.3 ~5 ^1 ^.25 ^-.75 ~-1 .5 -.75 all run function test:func"#;
    let blocks_line = r#"execute if blocks 0 ~-1 ~5 ^1 ^.25 ^-.75 ~-1 5 -3 all run function test:func"#;

    // when:
    let actual = parse_line_internal(&parser, line, true);
    let actual_blocks = parse_line_internal(&parser, blocks_line, true);

    // then:
    // `block` takes one position and a block: `^1` is no block.
    let (kind, error) = actual;
    assert_eq!(kind, Line::OtherCommand { selectors: vec![], objectives: strings(&[]) });
    let error = error.unwrap();
    assert_eq!(error.message, "Expected whitespace to end one argument, but found trailing data");
    assert_eq!(error.index, 28);
    let expected = Line::FunctionCall {
        column_index: 58,
        name: test_func(),
        anchor: None,
        selectors: vec![],
        objectives: strings(&[]),
    };
    assert_eq!(actual_blocks, (expected, None));
}

#[test]
fn test_execute_if_data_block() {
    // given:
    let parser = command_tree();
    let line = r#"execute if data block 1 2 3 Items[{Slot:13b}] run function test:func"#;

    // when:
    let actual = parse_line_internal(&parser, line, true);

    // then:
    let expected = Line::FunctionCall {
        column_index: 50,
        name: test_func(),
        anchor: None,
        selectors: vec![],
        objectives: strings(&[]),
    };
    assert_eq!(actual, (expected, None));
}

#[test]
fn test_execute_if_data_entity() {
    // given:
    let parser = command_tree();
    let line = r#"execute if data entity @p Inventory[0].tag.BlockEntityTag.Command run function test:func"#;

    // when:
    let actual = parse_line_internal(&parser, line, true);

    // then:
    let expected = Line::FunctionCall {
        column_index: 70,
        name: test_func(),
        anchor: None,
        selectors: vec![23],
        objectives: strings(&[]),
    };
    assert_eq!(actual, (expected, None));
}

#[test]
fn test_execute_if_data_storage() {
    // given:
    let parser = command_tree();
    let line = r#"execute if data storage test foo.bar[0][0].baz run function test:func"#;

    // when:
    let actual = parse_line_internal(&parser, line, true);

    // then:
    let expected = Line::FunctionCall {
        column_index: 51,
        name: test_func(),
        anchor: None,
        selectors: vec![],
        objectives: strings(&[]),
    };
    assert_eq!(actual, (expected, None));
}

#[test]
fn test_execute_if_entity() {
    // given:
    let parser = command_tree();
    let line = r#"execute if entity @e[type=area_effect_cloud] run function test:func"#;

    // when:
    let actual = parse_line_internal(&parser, line, true);

    // then:
    let expected = Line::FunctionCall {
        column_index: 49,
        name: test_func(),
        anchor: None,
        selectors: vec![18],
        objectives: strings(&[]),
    };
    assert_eq!(actual, (expected, None));
}

#[test]
fn test_execute_if_predicate() {
    // given:
    let parser = command_tree();
    let line = r#"execute if predicate mcfd:test_pred run function test:func"#;

    // when:
    let actual = parse_line_internal(&parser, line, true);

    // then:
    let expected = Line::FunctionCall {
        column_index: 40,
        name: test_func(),
        anchor: None,
        selectors: vec![],
        objectives: strings(&[]),
    };
    assert_eq!(actual, (expected, None));
}

#[test]
fn test_execute_if_score() {
    // given:
    let parser = command_tree();
    let line = r#"execute if score max test_global >= #min test_global run function test:func"#;

    // when:
    let actual = parse_line_internal(&parser, line, true);

    // then:
    let expected = Line::FunctionCall {
        column_index: 57,
        name: test_func(),
        anchor: None,
        selectors: vec![],
        objectives: strings(&["test_global"]),
    };
    assert_eq!(actual, (expected, None));
}

#[test]
fn test_execute_if_score_matches() {
    // given:
    let parser = command_tree();
    let line = r#"execute if score * test_global matches 0.. run function test:func"#;

    // when:
    let actual = parse_line_internal(&parser, line, true);

    // then:
    let expected = Line::FunctionCall {
        column_index: 47,
        name: test_func(),
        anchor: None,
        selectors: vec![],
        objectives: strings(&["test_global"]),
    };
    assert_eq!(actual, (expected, None));
}

#[test]
fn test_execute_store_block() {
    // given:
    let parser = command_tree();
    let line = r#"execute store success block 1 2 3 Items[0].Count byte 10 run function test:func"#;

    // when:
    let actual = parse_line_internal(&parser, line, true);

    // then:
    let expected = Line::FunctionCall {
        column_index: 61,
        name: test_func(),
        anchor: None,
        selectors: vec![],
        objectives: strings(&[]),
    };
    assert_eq!(actual, (expected, None));
}

#[test]
fn test_execute_store_bossbar() {
    // given:
    let parser = command_tree();
    let line = r#"execute store result bossbar test value run function test:func"#;

    // when:
    let actual = parse_line_internal(&parser, line, true);

    // then:
    let expected = Line::FunctionCall {
        column_index: 44,
        name: test_func(),
        anchor: None,
        selectors: vec![],
        objectives: strings(&[]),
    };
    assert_eq!(actual, (expected, None));
}

#[test]
fn test_execute_store_entity() {
    // given:
    let parser = command_tree();
    let line = r#"execute store success entity @e[type=minecraft:chest_minecart,sort=nearest,limit=1] Items[{id:"minecraft:apple"}].Count byte 10 run function test:func"#;

    // when:
    let actual = parse_line_internal(&parser, line, true);

    // then:
    let expected = Line::FunctionCall {
        column_index: 132,
        name: test_func(),
        anchor: None,
        selectors: vec![29],
        objectives: strings(&[]),
    };
    assert_eq!(actual, (expected, None));
}

#[test]
fn test_execute_store_score() {
    // given:
    let parser = command_tree();
    let line = r#"execute store success score @s test_global run function test:func"#;

    // when:
    let actual = parse_line_internal(&parser, line, true);

    // then:
    let expected = Line::FunctionCall {
        column_index: 47,
        name: test_func(),
        anchor: None,
        selectors: vec![28],
        objectives: strings(&["test_global"]),
    };
    assert_eq!(actual, (expected, None));
}

#[test]
fn test_execute_store_storage() {
    // given:
    let parser = command_tree();
    let line = r#"execute store result storage :test my_result long -.5 run function test:func"#;

    // when:
    let actual = parse_line_internal(&parser, line, true);

    // then:
    let expected = Line::FunctionCall {
        column_index: 58,
        name: test_func(),
        anchor: None,
        selectors: vec![],
        objectives: strings(&[]),
    };
    assert_eq!(actual, (expected, None));
}

#[test]
fn test_schedule() {
    // given:
    let parser = command_tree();
    let line = "schedule function test:func 1t";

    // when:
    let actual = parse_line_internal(&parser, line, true);

    // then:
    let expected = Line::Schedule {
        schedule_start: 0,
        function: test_func(),
        operation: ScheduleOperation::REPLACE {
            time: MinecraftTime { time: "1", unit: MinecraftTimeUnit::Tick },
        },
        selectors: vec![],
        objectives: strings(&[]),
    };
    assert_eq!(actual, (expected, None));
}

#[test]
fn test_schedule_append() {
    // given:
    let parser = command_tree();
    let line = "schedule function test:func 1t append";

    // when:
    let actual = parse_line_internal(&parser, line, true);

    // then:
    let expected = Line::Schedule {
        schedule_start: 0,
        function: test_func(),
        operation: ScheduleOperation::APPEND {
            time: MinecraftTime { time: "1", unit: MinecraftTimeUnit::Tick },
        },
        selectors: vec![],
        objectives: strings(&[]),
    };
    assert_eq!(actual, (expected, None));
}

#[test]
fn test_schedule_clear() {
    // given:
    let parser = command_tree();
    let line = "schedule clear test:func";

    // when:
    let actual = parse_line_internal(&parser, line, true);

    // then:
    let expected = Line::Schedule {
        schedule_start: 0,
        function: test_func(),
        operation: ScheduleOperation::CLEAR,
        selectors: vec![],
        objectives: strings(&[]),
    };
    assert_eq!(actual, (expected, None));
}

#[test]
fn test_schedule_replace() {
    // given:
    let parser = command_tree();
    let line = "schedule function test:func 1t replace";

    // when:
    let actual = parse_line_internal(&parser, line, true);

    // then:
    let expected = Line::Schedule {
        schedule_start: 0,
        function: test_func(),
        operation: ScheduleOperation::REPLACE {
            time: MinecraftTime { time: "1", unit: MinecraftTimeUnit::Tick },
        },
        selectors: vec![],
        objectives: strings(&[]),
    };
    assert_eq!(actual, (expected, None));
}

#[test]
fn test_execute_schedule() {
    // given:
    let parser = command_tree();
    let line = "execute at @e[type=area_effect_cloud] run schedule function test:func 1t";

    // when:
    let actual = parse_line_internal(&parser, line, true);

    // then:
    let expected = Line::Schedule {
        schedule_start: 42,
        function: test_func(),
        operation: ScheduleOperation::REPLACE {
            time: MinecraftTime { time: "1", unit: MinecraftTimeUnit::Tick },
        },
        selectors: vec![11],
        objectives: strings(&[]),
    };
    assert_eq!(actual, (expected, None));
}

#[test]
fn test_execute_schedule_clear() {
    // given:
    let parser = command_tree();
    let line = "execute at @e[type=area_effect_cloud] run schedule clear test:func";

    // when:
    let actual = parse_line_internal(&parser, line, true);

    // then:
    let expected = Line::Schedule {
        schedule_start: 42,
        function: test_func(),
        operation: ScheduleOperation::CLEAR,
        selectors: vec![11],
        objectives: strings(&[]),
    };
    assert_eq!(actual, (expected, None));
}

#[test]
fn test_line_kinds() {
    let parser = command_tree();
    assert_eq!(parse_line(&parser, "   ", true), Line::Empty);
    assert_eq!(parse_line(&parser, "# a comment", true), Line::Comment);
    assert_eq!(parse_line(&parser, "  # breakpoint  ", true), Line::Breakpoint);
    assert_eq!(parse_line(&parser, "# breakpoint", false), Line::Comment);
}

#[test]
fn test_unknown_command() {
    let parser = command_tree();
    let (line, error) = parse_line_internal(&parser, "frobnicate @e", true);
    assert_eq!(line, Line::OtherCommand { selectors: vec![], objectives: strings(&[]) });
    let error = error.unwrap();
    assert_eq!(error.message, "Incorrect argument for command");
    assert_eq!(error.command, "frobnicate @e");
    assert_eq!(error.index, 0);
}

#[test]
fn test_incomplete_command() {
    let parser = command_tree();
    let (line, error) = parse_line_internal(&parser, "execute as @e", true);
    assert_eq!(line, Line::OtherCommand { selectors: vec![11], objectives: strings(&[]) });
    assert_eq!(error.unwrap().message, "Incomplete command");
}

#[test]
fn test_objectives() {
    let parser = command_tree();
    let line = parse_line(&parser, "execute if score @s a >= @s b run function test:func", true);
    assert_eq!(line.objectives(), Some(&strings(&["a", "b"])));
    assert_eq!(parse_line(&parser, "# x", true).objectives(), None);
}

fn function_call(line: &str, anchor: Option<MinecraftEntityAnchor>, selectors: Vec<usize>) -> Line<'static> {
    Line::FunctionCall {
        column_index: line.rfind("function test:func").unwrap(),
        name: test_func(),
        anchor,
        selectors,
        objectives: strings(&[]),
    }
}

#[test]
fn parser_test_breakpoint() {
    let parser = command_tree();
    assert_eq!(parse_line(&parser, "# breakpoint", true), Line::Breakpoint);
}

#[test]
fn parser_test_say() {
    let parser = command_tree();
    let actual = parse_line(&parser, "say execute run function test:func", true);
    assert_eq!(actual, Line::OtherCommand { selectors: vec![], objectives: strings(&[]) });
}

#[test]
fn parser_test_execute() {
    let parser = command_tree();
    let line = "execute run function test:func";
    assert_eq!(parse_line(&parser, line, true), function_call(line, None, vec![]));
}

#[test]
fn parser_test_execute_align() {
    let parser = command_tree();
    let line = "execute align xyz run function test:func";
    assert_eq!(parse_line(&parser, line, true), function_call(line, None, vec![]));
}

#[test]
fn parser_test_execute_anchored() {
    let parser = command_tree();
    let line = "execute anchored eyes run function test:func";
    let expected = function_call(line, Some(MinecraftEntityAnchor::EYES), vec![]);
    assert_eq!(parse_line(&parser, line, true), expected);
}

#[test]
fn parser_test_execute_multiple_anchored() {
    let parser = command_tree();
    let line = "execute anchored feet anchored eyes run function test:func";
    let expected = function_call(line, Some(MinecraftEntityAnchor::EYES), vec![]);
    assert_eq!(parse_line(&parser, line, true), expected);
}

#[test]
fn parser_test_execute_as() {
    let parser = command_tree();
    let line = "execute as @e[type=area_effect_cloud] run function test:func";
    assert_eq!(parse_line(&parser, line, true), function_call(line, None, vec![11]));
}

#[test]
fn parser_test_execute_at() {
    let parser = command_tree();
    let line = "execute at @e[type=area_effect_cloud] run function test:func";
    assert_eq!(parse_line(&parser, line, true), function_call(line, None, vec![11]));
}

#[test]
fn scoreboard_operation_swap_is_parsed() {
    let parser = command_tree();
    let line = "scoreboard players operation @s test >< @e[tag=test] test";
    let actual = parse_line_internal(&parser, line, true);
    let expected = Line::OtherCommand { selectors: vec![29, 40], objectives: strings(&["test"]) };
    assert_eq!(actual, (expected, None));
}

#[test]
fn command_tree_names_must_be_ordered() {
    let leaf = |name: &str| {
        (name.to_string(), CommandSpec::Literal { node: Node { children: vec![], executable: true, redirect: vec![] } })
    };
    assert!(CommandParser::from_tree(vec![leaf("a"), leaf("b")]).is_some());
    assert!(CommandParser::from_tree(vec![leaf("b"), leaf("a")]).is_none());
    assert!(CommandParser::from_tree(vec![leaf("a"), leaf("a")]).is_none());
    let nested = (
        "x".to_string(),
        CommandSpec::Literal { node: Node { children: vec![leaf("z"), leaf("y")], executable: false, redirect: vec![] } },
    );
    assert!(CommandParser::from_tree(vec![nested]).is_none());
}
