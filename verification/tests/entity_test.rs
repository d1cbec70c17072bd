use mcfunction_debugger::parser::command::argument::minecraft::nbt::{CompoundNbt, NbtValue};
use mcfunction_debugger::parser::command::argument::minecraft::entity::{
    EntityType, MinecraftAdvancementProgress, MinecraftSelector, MinecraftSelectorType,
};
use mcfunction_debugger::parser::command::argument::minecraft::range::MinecraftRange;
use mcfunction_debugger::parser::command::resource_location::ResourceLocationRef;

#[test]
fn test_type_inverted() {
    // given:
    let line = r#"@e[ type = ! player ] bla"#;

    // when:
    let actual = MinecraftSelector::parse(line).unwrap();

    // then:
    let mut expected = MinecraftSelector::new(MinecraftSelectorType::E);
    expected.entity_type = Some(EntityType {
        inverted: true,
        tag: false,
        resource_location: ResourceLocationRef::try_from("minecraft:player").unwrap(),
    });
    assert_eq!(actual, (expected, 21));
}

#[test]
fn test_type_inverted_tag() {
    // given:
    let line = r#"@e[ type = ! # player ] bla"#;

    // when:
    let actual = MinecraftSelector::parse(line).unwrap();

    // then:
    let mut expected = MinecraftSelector::new(MinecraftSelectorType::E);
    expected.entity_type = Some(EntityType {
        inverted: true,
        tag: true,
        resource_location: ResourceLocationRef::try_from("minecraft:player").unwrap(),
    });
    assert_eq!(actual, (expected, 23));
}

#[test]
fn test_scores_no_comma() {
    // given:
    let line = r#"@e[ scores = { a = -4.. b = 5 } ] bla"#;

    // when:
    let actual = MinecraftSelector::parse(line).unwrap();

    // then:
    let mut expected = MinecraftSelector::new(MinecraftSelectorType::E);
    expected.scores = vec![
        ("a", MinecraftRange { min: Some(-4), max: None }),
        ("b", MinecraftRange { min: Some(5), max: Some(5) }),
    ];
    assert_eq!(actual, (expected, 33));
}

#[test]
fn test_advancements_no_comma() {
    // given:
    let line = r#"@e[ advancements = { a = true b = false } ] bla"#;

    // when:
    let actual = MinecraftSelector::parse(line).unwrap();

    // then:
    let mut expected = MinecraftSelector::new(MinecraftSelectorType::E);
    expected.advancements = vec![
        (
            ResourceLocationRef::try_from("minecraft:a").unwrap(),
            MinecraftAdvancementProgress::AdvancementProgress(true),
        ),
        (
            ResourceLocationRef::try_from("minecraft:b").unwrap(),
            MinecraftAdvancementProgress::AdvancementProgress(false),
        ),
    ];
    assert_eq!(actual, (expected, 43));
}

#[test]
fn test_advancement_criteria_no_comma() {
    // given:
    let line = r#"@e[ advancements = { a = { b = true c = false } } ] bla"#;

    // when:
    let actual = MinecraftSelector::parse(line).unwrap();

    // then:
    let mut expected = MinecraftSelector::new(MinecraftSelectorType::E);
    expected.advancements = vec![(
        ResourceLocationRef::try_from("minecraft:a").unwrap(),
        MinecraftAdvancementProgress::CriterionProgress(vec![("b", true), ("c", false)]),
    )];
    assert_eq!(actual, (expected, 51));
}

#[test]
fn test_unknown() {
    // given:
    let line = r#"@e[ unknown = ! abc .. 1234 + , limit = 4 ] bla"#;

    // when:
    let actual = MinecraftSelector::parse(line).unwrap();

    // then:
    let mut expected = MinecraftSelector::new(MinecraftSelectorType::E);
    expected.limit = Some(4);
    assert_eq!(actual, (expected, 43));
}

#[test]
fn selector_scores_are_kept_in_key_order() {
    let line = r#"@e[scores={b=1,a=2,b=3}] x"#;
    let actual = MinecraftSelector::parse(line).unwrap();
    let mut expected = MinecraftSelector::new(MinecraftSelectorType::E);
    expected.scores = vec![
        ("a", MinecraftRange { min: Some(2), max: Some(2) }),
        ("b", MinecraftRange { min: Some(3), max: Some(3) }),
    ];
    assert_eq!(actual, (expected, 24));
}

#[test]
fn selector_advancements_are_kept_in_key_order() {
    let line = r#"@e[advancements={z:b=true,a:c=false}] x"#;
    let actual = MinecraftSelector::parse(line).unwrap();
    let mut expected = MinecraftSelector::new(MinecraftSelectorType::E);
    expected.advancements = vec![
        (ResourceLocationRef::try_from("a:c").unwrap(), MinecraftAdvancementProgress::AdvancementProgress(false)),
        (ResourceLocationRef::try_from("z:b").unwrap(), MinecraftAdvancementProgress::AdvancementProgress(true)),
    ];
    assert_eq!(actual, (expected, 37));
}

#[test]
fn nbt_compounds_are_equal_whatever_the_order_of_their_entries() {
    let (a, _) = CompoundNbt::parse(r#"{b:1,a:"x"}"#).unwrap();
    let (b, _) = CompoundNbt::parse(r#"{a:"x",b:1}"#).unwrap();
    assert_eq!(a, b);
    assert_eq!(
        a,
        CompoundNbt(vec![("a".to_string(), NbtValue::String("x".to_string())), ("b".to_string(), NbtValue::String("1".to_string()))])
    );
    let (c, _) = CompoundNbt::parse("{a:1,a:2}").unwrap();
    assert_eq!(c, CompoundNbt(vec![("a".to_string(), NbtValue::String("2".to_string()))]));
}
