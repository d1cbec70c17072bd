//! Parsers for the argument types of Minecraft commands.

pub mod brigadier;
pub mod minecraft;

use crate::parser::command::argument::brigadier::{
    double_spec, integer_spec, parse_double_prefix, parse_integer_prefix, parse_unquoted_prefix,
    unquoted_len, BrigadierStringType,
};
use crate::parser::command::argument::minecraft::block::{
    block_predicate_spec, BlockPredicateModel, MinecraftBlockPredicate,
};
use crate::parser::command::argument::minecraft::coordinate::{
    rotation_spec, vec3_spec, CoordinateModel, MinecraftBlockPos, MinecraftRotation, MinecraftVec3,
    Vec3Model,
};
use crate::parser::command::argument::minecraft::entity::{
    entity_spec, selector_error_message, selector_spec, EntityModel, MinecraftEntity,
    MinecraftSelector, MinecraftSelectorParserError, SelectorErrorModel, SelectorModel,
};
use crate::parser::command::argument::minecraft::nbt::{path_spec, MinecraftNbtPath, NbtPathNodeModel};
use crate::parser::command::argument::minecraft::range::{int_range_spec, parse_int_range_prefix, MinecraftRange};
use crate::parser::command::resource_location::{
    location_model, resource_location_spec, ResourceLocationRef,
};
use crate::text::{
    after, byte_len, find_ascii, lemma_suffix_splittable, lemma_splittable_after_ascii, splittable, find_byte_from, is_suffix, lemma_after_suffix, lemma_find_byte,
    lemma_suffix_trans, lemma_view_text, push_char, skip_suffix, split_at_space, starts_with_at,
    str_eq, take_str, text,
};
use vstd::prelude::*;
use vstd::string::*;

verus! {

/// Which part of an entity an anchor refers to.
#[derive(Clone, Copy, Debug, Eq, PartialEq)]
pub enum MinecraftEntityAnchor {
    EYES,
    FEET,
}

/// A chat message and the target selectors in it, each with its start and end offset.
#[derive(Debug, PartialEq)]
pub struct MinecraftMessage<'l> {
    pub message: &'l str,
    pub selectors: Vec<(MinecraftSelector<'l>, usize, usize)>,
}

/// A scoreboard operation.
#[derive(Clone, Copy, Debug, Eq, PartialEq)]
pub enum MinecraftOperation {
    /// `=`
    Assignment,
    /// `+=`
    Addition,
    /// `-=`
    Subtraction,
    /// `*=`
    Multiplication,
    /// `/=`
    Division,
    /// `%=`
    Modulus,
    /// `><`
    Swapping,
    /// `<`
    Minimum,
    /// `>`
    Maximum,
}

/// What holds a score: the entities of a selector, every tracked entry (`*`), or a name.
#[derive(Debug, PartialEq)]
pub enum MinecraftScoreHolder<'l> {
    Selector(MinecraftSelector<'l>),
    Wildcard,
    String(&'l str),
}

/// A duration: the text of its number (digits) and its unit.
#[derive(Clone, Copy, Debug, PartialEq)]
pub struct MinecraftTime<'l> {
    pub time: &'l str,
    pub unit: MinecraftTimeUnit,
}

/// The unit of a duration.
#[derive(Copy, Clone, Debug, Eq, PartialEq)]
pub enum MinecraftTimeUnit {
    Tick,
    Second,
    Day,
}

/// The number of game ticks in a unit.
pub open spec fn unit_factor(unit: MinecraftTimeUnit) -> u32 {
    match unit {
        MinecraftTimeUnit::Tick => 1,
        MinecraftTimeUnit::Second => 20,
        MinecraftTimeUnit::Day => 24000,
    }
}

impl MinecraftTimeUnit {
    /// The number of game ticks in this unit.
    pub fn factor(&self) -> (res: u32)
        ensures
            res == unit_factor(*self),
    {
        match self {
            MinecraftTimeUnit::Tick => 1,
            MinecraftTimeUnit::Second => 20,
            MinecraftTimeUnit::Day => 24000,
        }
    }
}

/// A parsed argument. Decimal numbers are kept as their text.
#[derive(Debug, PartialEq)]
pub enum Argument<'l> {
    BrigadierDouble(&'l str),
    BrigadierInteger(i32),
    BrigadierString(&'l str),
    MinecraftBlockPos(MinecraftBlockPos<'l>),
    MinecraftBlockPredicate(MinecraftBlockPredicate<'l>),
    MinecraftDimension(ResourceLocationRef<&'l str>),
    MinecraftEntity(MinecraftEntity<'l>),
    MinecraftEntityAnchor(MinecraftEntityAnchor),
    MinecraftFunction(ResourceLocationRef<&'l str>),
    MinecraftIntRange(MinecraftRange<i32>),
    MinecraftMessage(MinecraftMessage<'l>),
    MinecraftNbtPath(MinecraftNbtPath<'l>),
    MinecraftObjective(&'l str),
    MinecraftObjectiveCriteria(&'l str),
    MinecraftOperation(MinecraftOperation),
    MinecraftResourceLocation(ResourceLocationRef<&'l str>),
    MinecraftRotation(MinecraftRotation<'l>),
    MinecraftScoreHolder(MinecraftScoreHolder<'l>),
    MinecraftScoreboardSlot(&'l str),
    MinecraftSwizzle(()),
    MinecraftTeam(&'l str),
    MinecraftTime(MinecraftTime<'l>),
    MinecraftVec3(MinecraftVec3<'l>),
    Unknown(&'l str),
}

/// The bounds of a `brigadier:integer` argument.
#[derive(Clone, Copy, Debug, Eq, PartialEq)]
pub struct BrigadierIntegerProperties {
    pub min: Option<i32>,
    pub max: Option<i32>,
}

/// Whether an entity argument takes players only or any entities.
#[derive(Clone, Copy, Debug, Eq, PartialEq)]
pub enum MinecraftEntityType {
    Players,
    Entities,
}

/// Whether an argument takes one or several entities.
#[derive(Clone, Copy, Debug, Eq, PartialEq)]
pub enum MinecraftAmount {
    Single,
    Multiple,
}

/// The parser of an argument node of the command tree.
#[derive(Clone, Copy, Debug, Eq, PartialEq)]
pub enum ArgumentParser {
    BrigadierBool,
    BrigadierDouble,
    BrigadierFloat,
    BrigadierInteger(Option<BrigadierIntegerProperties>),
    BrigadierString { type_: BrigadierStringType },
    MinecraftAngle,
    MinecraftBlockPos,
    MinecraftBlockPredicate,
    MinecraftBlockState,
    MinecraftColor,
    MinecraftColumnPos,
    MinecraftComponent,
    MinecraftDimension,
    MinecraftEntity { type_: MinecraftEntityType, amount: MinecraftAmount },
    MinecraftEntityAnchor,
    MinecraftEntitySummon,
    MinecraftFunction,
    MinecraftGameProfile,
    MinecraftIntRange,
    MinecraftItemEnchantment,
    MinecraftItemPredicate,
    MinecraftItemSlot,
    MinecraftItemStack,
    MinecraftMessage,
    MinecraftMobEffect,
    MinecraftNbtCompoundTag,
    MinecraftNbtPath,
    MinecraftNbtTag,
    MinecraftObjective,
    MinecraftObjectiveCriteria,
    MinecraftOperation,
    MinecraftParticle,
    MinecraftResourceLocation,
    MinecraftRotation,
    MinecraftScoreHolder { amount: MinecraftAmount },
    MinecraftScoreboardSlot,
    MinecraftSwizzle,
    MinecraftTeam,
    MinecraftTime,
    MinecraftUuid,
    MinecraftVec2,
    MinecraftVec3,
    Unknown,
}

/// The name of an argument parser in the command tree.
pub open spec fn parser_name(p: ArgumentParser) -> Seq<char> {
    match p {
        ArgumentParser::BrigadierBool => "brigadier:bool"@,
        ArgumentParser::BrigadierDouble => "brigadier:double"@,
        ArgumentParser::BrigadierFloat => "brigadier:float"@,
        ArgumentParser::BrigadierInteger(_) => "brigadier:integer"@,
        ArgumentParser::BrigadierString { .. } => "brigadier:string"@,
        ArgumentParser::MinecraftAngle => "minecraft:angle"@,
        ArgumentParser::MinecraftBlockPos => "minecraft:block_pos"@,
        ArgumentParser::MinecraftBlockPredicate => "minecraft:block_predicate"@,
        ArgumentParser::MinecraftBlockState => "minecraft:block_state"@,
        ArgumentParser::MinecraftColor => "minecraft:color"@,
        ArgumentParser::MinecraftColumnPos => "minecraft:column_pos"@,
        ArgumentParser::MinecraftComponent => "minecraft:component"@,
        ArgumentParser::MinecraftDimension => "minecraft:dimension"@,
        ArgumentParser::MinecraftEntity { .. } => "minecraft:entity"@,
        ArgumentParser::MinecraftEntityAnchor => "minecraft:entity_anchor"@,
        ArgumentParser::MinecraftEntitySummon => "minecraft:entity_summon"@,
        ArgumentParser::MinecraftFunction => "minecraft:function"@,
        ArgumentParser::MinecraftGameProfile => "minecraft:game_profile"@,
        ArgumentParser::MinecraftIntRange => "minecraft:int_range"@,
        ArgumentParser::MinecraftItemEnchantment => "minecraft:item_enchantment"@,
        ArgumentParser::MinecraftItemPredicate => "minecraft:item_predicate"@,
        ArgumentParser::MinecraftItemSlot => "minecraft:item_slot"@,
        ArgumentParser::MinecraftItemStack => "minecraft:item_stack"@,
        ArgumentParser::MinecraftMessage => "minecraft:message"@,
        ArgumentParser::MinecraftMobEffect => "minecraft:mob_effect"@,
        ArgumentParser::MinecraftNbtCompoundTag => "minecraft:nbt_compound_tag"@,
        ArgumentParser::MinecraftNbtPath => "minecraft:nbt_path"@,
        ArgumentParser::MinecraftNbtTag => "minecraft:nbt_tag"@,
        ArgumentParser::MinecraftObjective => "minecraft:objective"@,
        ArgumentParser::MinecraftObjectiveCriteria => "minecraft:objective_criteria"@,
        ArgumentParser::MinecraftOperation => "minecraft:operation"@,
        ArgumentParser::MinecraftParticle => "minecraft:particle"@,
        ArgumentParser::MinecraftResourceLocation => "minecraft:resource_location"@,
        ArgumentParser::MinecraftRotation => "minecraft:rotation"@,
        ArgumentParser::MinecraftScoreHolder { .. } => "minecraft:score_holder"@,
        ArgumentParser::MinecraftScoreboardSlot => "minecraft:scoreboard_slot"@,
        ArgumentParser::MinecraftSwizzle => "minecraft:swizzle"@,
        ArgumentParser::MinecraftTeam => "minecraft:team"@,
        ArgumentParser::MinecraftTime => "minecraft:time"@,
        ArgumentParser::MinecraftUuid => "minecraft:uuid"@,
        ArgumentParser::MinecraftVec2 => "minecraft:vec2"@,
        ArgumentParser::MinecraftVec3 => "minecraft:vec3"@,
        ArgumentParser::Unknown => "Unknown"@,
    }
}

impl ArgumentParser {
    /// The name of this parser in the command tree.
    pub fn name(&self) -> (res: &'static str)
        ensures
            res@ == parser_name(*self),
    {
        match self {
            ArgumentParser::BrigadierBool => "brigadier:bool",
            ArgumentParser::BrigadierDouble => "brigadier:double",
            ArgumentParser::BrigadierFloat => "brigadier:float",
            ArgumentParser::BrigadierInteger(_) => "brigadier:integer",
            ArgumentParser::BrigadierString { .. } => "brigadier:string",
            ArgumentParser::MinecraftAngle => "minecraft:angle",
            ArgumentParser::MinecraftBlockPos => "minecraft:block_pos",
            ArgumentParser::MinecraftBlockPredicate => "minecraft:block_predicate",
            ArgumentParser::MinecraftBlockState => "minecraft:block_state",
            ArgumentParser::MinecraftColor => "minecraft:color",
            ArgumentParser::MinecraftColumnPos => "minecraft:column_pos",
            ArgumentParser::MinecraftComponent => "minecraft:component",
            ArgumentParser::MinecraftDimension => "minecraft:dimension",
            ArgumentParser::MinecraftEntity { .. } => "minecraft:entity",
            ArgumentParser::MinecraftEntityAnchor => "minecraft:entity_anchor",
            ArgumentParser::MinecraftEntitySummon => "minecraft:entity_summon",
            ArgumentParser::MinecraftFunction => "minecraft:function",
            ArgumentParser::MinecraftGameProfile => "minecraft:game_profile",
            ArgumentParser::MinecraftIntRange => "minecraft:int_range",
            ArgumentParser::MinecraftItemEnchantment => "minecraft:item_enchantment",
            ArgumentParser::MinecraftItemPredicate => "minecraft:item_predicate",
            ArgumentParser::MinecraftItemSlot => "minecraft:item_slot",
            ArgumentParser::MinecraftItemStack => "minecraft:item_stack",
            ArgumentParser::MinecraftMessage => "minecraft:message",
            ArgumentParser::MinecraftMobEffect => "minecraft:mob_effect",
            ArgumentParser::MinecraftNbtCompoundTag => "minecraft:nbt_compound_tag",
            ArgumentParser::MinecraftNbtPath => "minecraft:nbt_path",
            ArgumentParser::MinecraftNbtTag => "minecraft:nbt_tag",
            ArgumentParser::MinecraftObjective => "minecraft:objective",
            ArgumentParser::MinecraftObjectiveCriteria => "minecraft:objective_criteria",
            ArgumentParser::MinecraftOperation => "minecraft:operation",
            ArgumentParser::MinecraftParticle => "minecraft:particle",
            ArgumentParser::MinecraftResourceLocation => "minecraft:resource_location",
            ArgumentParser::MinecraftRotation => "minecraft:rotation",
            ArgumentParser::MinecraftScoreHolder { .. } => "minecraft:score_holder",
            ArgumentParser::MinecraftScoreboardSlot => "minecraft:scoreboard_slot",
            ArgumentParser::MinecraftSwizzle => "minecraft:swizzle",
            ArgumentParser::MinecraftTeam => "minecraft:team",
            ArgumentParser::MinecraftTime => "minecraft:time",
            ArgumentParser::MinecraftUuid => "minecraft:uuid",
            ArgumentParser::MinecraftVec2 => "minecraft:vec2",
            ArgumentParser::MinecraftVec3 => "minecraft:vec3",
            ArgumentParser::Unknown => "Unknown",
        }
    }
}

/// The entity anchor at the start of `t` and its length.
pub open spec fn entity_anchor_spec(t: Seq<u8>) -> Result<(MinecraftEntityAnchor, int), Seq<char>> {
    if starts_with_at(t, 0, "eyes".spec_bytes()) {
        Ok((MinecraftEntityAnchor::EYES, "eyes".spec_bytes().len() as int))
    } else if starts_with_at(t, 0, "feet".spec_bytes()) {
        Ok((MinecraftEntityAnchor::FEET, "feet".spec_bytes().len() as int))
    } else {
        Err("Invalid entity anchor"@)
    }
}

/// The entity anchor at the start of `string` and its length in bytes.
fn parse_minecraft_entity_anchor(string: &str) -> (res: Result<(MinecraftEntityAnchor, usize), String>)
    ensures
        match entity_anchor_spec(string.spec_bytes()) {
            Ok((a, n)) => res == Ok::<(MinecraftEntityAnchor, usize), String>((a, n as usize)),
            Err(m) => res matches Err(e) && e@ == m,
        },
{
    let b = string.as_bytes();
    let eyes = "eyes";
    let feet = "feet";
    if crate::text::bytes_start_with(b, 0, eyes.as_bytes()) {
        Ok((MinecraftEntityAnchor::EYES, eyes.as_bytes().len()))
    } else if crate::text::bytes_start_with(b, 0, feet.as_bytes()) {
        Ok((MinecraftEntityAnchor::FEET, feet.as_bytes().len()))
    } else {
        Err(String::from_str("Invalid entity anchor"))
    }
}

/// The scoreboard operation at the start of `t`: the text up to the first space.
#[verifier::opaque]
pub open spec fn operation_spec(t: Seq<u8>) -> Result<(MinecraftOperation, int), Seq<char>> {
    let n = find_byte_from(t, 0, ' ' as u8);
    let op = t.subrange(0, n);
    if op == "=".spec_bytes() {
        Ok((MinecraftOperation::Assignment, n))
    } else if op == "+=".spec_bytes() {
        Ok((MinecraftOperation::Addition, n))
    } else if op == "-=".spec_bytes() {
        Ok((MinecraftOperation::Subtraction, n))
    } else if op == "*=".spec_bytes() {
        Ok((MinecraftOperation::Multiplication, n))
    } else if op == "/=".spec_bytes() {
        Ok((MinecraftOperation::Division, n))
    } else if op == "%=".spec_bytes() {
        Ok((MinecraftOperation::Modulus, n))
    } else if op == "><".spec_bytes() {
        Ok((MinecraftOperation::Swapping, n))
    } else if op == "<".spec_bytes() {
        Ok((MinecraftOperation::Minimum, n))
    } else if op == ">".spec_bytes() {
        Ok((MinecraftOperation::Maximum, n))
    } else {
        Err("Invalid operation"@)
    }
}

/// The scoreboard operation at the start of `string` and its length in bytes.
fn parse_minecraft_operation(string: &str) -> (res: Result<(MinecraftOperation, usize), String>)
    ensures
        match operation_spec(string.spec_bytes()) {
            Ok((o, n)) => res matches Ok((x, k)) && x == o && k == n && n <= string.spec_bytes().len(),
            Err(m) => res matches Err(e) && e@ == m,
        },
{
    let (op, _) = split_at_space(string);
    let len = byte_len(op);
    proof {
        reveal(operation_spec);
        lemma_find_byte(string.spec_bytes(), 0, ' ' as u8);
    }
    if str_eq(op, "=") {
        Ok((MinecraftOperation::Assignment, len))
    } else if str_eq(op, "+=") {
        Ok((MinecraftOperation::Addition, len))
    } else if str_eq(op, "-=") {
        Ok((MinecraftOperation::Subtraction, len))
    } else if str_eq(op, "*=") {
        Ok((MinecraftOperation::Multiplication, len))
    } else if str_eq(op, "/=") {
        Ok((MinecraftOperation::Division, len))
    } else if str_eq(op, "%=") {
        Ok((MinecraftOperation::Modulus, len))
    } else if str_eq(op, "><") {
        Ok((MinecraftOperation::Swapping, len))
    } else if str_eq(op, "<") {
        Ok((MinecraftOperation::Minimum, len))
    } else if str_eq(op, ">") {
        Ok((MinecraftOperation::Maximum, len))
    } else {
        Err(String::from_str("Invalid operation"))
    }
}

/// The value of a score holder.
pub enum ScoreHolderModel {
    Selector(SelectorModel),
    Wildcard,
    String(Seq<u8>),
}

/// The score holder at the start of `t` and what follows it.
pub open spec fn score_holder_spec(t: Seq<u8>) -> Result<(ScoreHolderModel, Seq<u8>), Seq<char>> {
    if t.len() > 0 && t[0] == '@' as u8 {
        match selector_spec(t) {
            Ok((s, r)) => Ok((ScoreHolderModel::Selector(s), r)),
            Err(e) => Err(selector_error_message(e)),
        }
    } else {
        let n = find_byte_from(t, 0, ' ' as u8);
        let name = t.subrange(0, n);
        if name == "*".spec_bytes() {
            Ok((ScoreHolderModel::Wildcard, after(t, n)))
        } else {
            Ok((ScoreHolderModel::String(name), after(t, n)))
        }
    }
}

impl<'l> MinecraftScoreHolder<'l> {
    /// The value of this score holder.
    pub open spec fn model(&self) -> ScoreHolderModel {
        match self {
            MinecraftScoreHolder::Selector(s) => ScoreHolderModel::Selector(s.model()),
            MinecraftScoreHolder::Wildcard => ScoreHolderModel::Wildcard,
            MinecraftScoreHolder::String(n) => ScoreHolderModel::String(n.spec_bytes()),
        }
    }
}

/// The score holder at the start of `string`, and the rest of `string`.
fn parse_minecraft_score_holder<'l>(string: &'l str) -> (res: Result<(MinecraftScoreHolder<'l>, &'l str), String>)
    ensures
        match score_holder_spec(string.spec_bytes()) {
            Ok((m, r)) => res matches Ok((h, x)) && h.model() == m && x.spec_bytes() == r
                && is_suffix(r, string.spec_bytes()),
            Err(m) => res matches Err(e) && e@ == m,
        },
{
    if crate::text::starts_with_ascii(string, '@') {
        match MinecraftSelector::parse_rest(string) {
            Ok((selector, rest)) => Ok((MinecraftScoreHolder::Selector(selector), rest)),
            Err(e) => Err(e.to_string()),
        }
    } else {
        let (name, rest) = split_at_space(string);
        if str_eq(name, "*") {
            Ok((MinecraftScoreHolder::Wildcard, rest))
        } else {
            Ok((MinecraftScoreHolder::String(name), rest))
        }
    }
}

/// The length of a swizzle at the start of `t`: up to the first space, which must exist.
pub open spec fn swizzle_spec(t: Seq<u8>) -> Result<int, Seq<char>> {
    let n = find_byte_from(t, 0, ' ' as u8);
    if n < t.len() {
        Ok(n)
    } else {
        Err("Failed to parse swizzle"@)
    }
}

/// The swizzle at the start of `string` and its length in bytes.
fn parse_minecraft_swizzle(string: &str) -> (res: Result<((), usize), String>)
    ensures
        match swizzle_spec(string.spec_bytes()) {
            Ok(n) => res matches Ok((_, k)) && k == n && n <= string.spec_bytes().len(),
            Err(m) => res matches Err(e) && e@ == m,
        },
{
    let len = find_ascii(string, ' ');
    proof {
        lemma_find_byte(string.spec_bytes(), 0, ' ' as u8);
    }
    if len < byte_len(string) {
        Ok(((), len))
    } else {
        Err(String::from_str("Failed to parse swizzle"))
    }
}

/// The number of leading ASCII digits of `b` from offset `i` on, plus `i`.
pub open spec fn digits_end(b: Seq<u8>, i: int) -> int
    decreases b.len() - i,
{
    if i < 0 || i >= b.len() || !crate::text::is_digit_byte(b[i]) {
        i
    } else {
        digits_end(b, i + 1)
    }
}

/// The value of a duration: the text of its number and its unit.
pub type TimeModel = (Seq<u8>, MinecraftTimeUnit);

/// The duration at the start of `t` and its length: digits, then maybe a unit `t`, `s` or `d`.
#[verifier::opaque]
pub open spec fn time_spec(t: Seq<u8>) -> Result<(TimeModel, int), Seq<char>> {
    let n = digits_end(t, 0);
    if n == 0 {
        Err("Expected float but got ''"@)
    } else if n == t.len() || t[n] == ' ' as u8 {
        Ok(((t.subrange(0, n), MinecraftTimeUnit::Tick), n))
    } else if t[n] == 't' as u8 {
        Ok(((t.subrange(0, n), MinecraftTimeUnit::Tick), n + 1))
    } else if t[n] == 's' as u8 {
        Ok(((t.subrange(0, n), MinecraftTimeUnit::Second), n + 1))
    } else if t[n] == 'd' as u8 {
        Ok(((t.subrange(0, n), MinecraftTimeUnit::Day), n + 1))
    } else {
        Err("Unknown unit '"@ + seq![text(after(t, n))[0]] + "'"@)
    }
}

proof fn lemma_digits_end(b: Seq<u8>, i: int)
    requires
        0 <= i <= b.len(),
    ensures
        i <= digits_end(b, i) <= b.len(),
        forall|k: int| i <= k < digits_end(b, i) ==> crate::text::is_digit_byte(#[trigger] b[k]),
        digits_end(b, i) < b.len() ==> !crate::text::is_digit_byte(b[digits_end(b, i)]),
    decreases b.len() - i,
{
    if i < b.len() && crate::text::is_digit_byte(b[i]) {
        lemma_digits_end(b, i + 1);
    }
}

/// The duration at the start of `string` and its length in bytes.
fn parse_minecraft_time<'l>(string: &'l str) -> (res: Result<(MinecraftTime<'l>, usize), String>)
    ensures
        match time_spec(string.spec_bytes()) {
            Ok(((v, u), n)) => res matches Ok((x, m)) && x.time.spec_bytes() == v && x.unit == u
                && m == n && n <= string.spec_bytes().len(),
            Err(m) => res matches Err(e) && e@ == m,
        },
{
    let b = string.as_bytes();
    let ghost bs = b@;
    let mut n: usize = 0;
    proof {
        reveal(time_spec);
        lemma_digits_end(bs, 0);
    }
    while n < b.len() && '0' as u8 <= b[n] && b[n] <= '9' as u8
        invariant
            bs == b@,
            bs == string.spec_bytes(),
            n <= bs.len(),
            digits_end(bs, n as int) == digits_end(bs, 0),
        decreases bs.len() - n,
    {
        n = n + 1;
    }
    if n == 0 {
        proof {
            reveal_strlit("Expected float but got ''");
        }
        return Err(String::from_str("Expected float but got ''"));
    }
    proof {
        crate::text::lemma_splittable_after_ascii(string, n as int);
        crate::text::lemma_after_suffix(bs, n as int);
    }
    let time = take_str(string, n);
    if n == b.len() || b[n] == ' ' as u8 {
        Ok((MinecraftTime { time, unit: MinecraftTimeUnit::Tick }, n))
    } else if b[n] == 't' as u8 {
        Ok((MinecraftTime { time, unit: MinecraftTimeUnit::Tick }, n + 1))
    } else if b[n] == 's' as u8 {
        Ok((MinecraftTime { time, unit: MinecraftTimeUnit::Second }, n + 1))
    } else if b[n] == 'd' as u8 {
        Ok((MinecraftTime { time, unit: MinecraftTimeUnit::Day }, n + 1))
    } else {
        let rest = crate::text::skip_str(string, n);
        proof {
            lemma_view_text(rest);
            if rest@.len() == 0 {
                assert(rest@ =~= Seq::<char>::empty());
                assert(vstd::utf8::encode_utf8(rest@) =~= Seq::<u8>::empty());
            }
        }
        let unit = rest.get_char(0);
        let mut e = String::from_str("Unknown unit '");
        push_char(&mut e, unit);
        e.append("'");
        Err(e)
    }
}

/// The target selectors of a message from offset `i` on, after the selectors `acc`: each with
/// its start and end offset. A `@` that starts no selector type is skipped; any other error of
/// a selector is the error of the message.
pub open spec fn message_selectors_spec(t: Seq<u8>, i: int, acc: Seq<(SelectorModel, int, int)>) -> Result<
    Seq<(SelectorModel, int, int)>,
    Seq<char>,
>
    decreases t.len() - i,
{
    let j = find_byte_from(t, i, '@' as u8);
    if i < 0 || j >= t.len() {
        Ok(acc)
    } else {
        match selector_spec(after(t, j)) {
            Ok((s, r)) => {
                let end = t.len() - r.len();
                if i < end <= t.len() {
                    message_selectors_spec(t, end, acc.push((s, j, end)))
                } else {
                    Ok(acc)
                }
            },
            Err(SelectorErrorModel::Other(m)) => Err(m),
            Err(_) => if i < j + 1 <= t.len() {
                message_selectors_spec(t, j + 1, acc)
            } else {
                Ok(acc)
            },
        }
    }
}

impl<'l> MinecraftMessage<'l> {
    /// The selectors of this message with their offsets.
    pub open spec fn selectors_model(&self) -> Seq<(SelectorModel, int, int)> {
        Seq::new(
            self.selectors@.len(),
            |i: int|
                (
                    self.selectors@[i].0.model(),
                    self.selectors@[i].1 as int,
                    self.selectors@[i].2 as int,
                ),
        )
    }
}

/// A message: all of `message`, with the target selectors in it.
#[verifier::loop_isolation(false)]
fn parse_minecraft_message<'l>(message: &'l str) -> (res: Result<(MinecraftMessage<'l>, usize), String>)
    ensures
        match message_selectors_spec(message.spec_bytes(), 0, seq![]) {
            Ok(sels) => res matches Ok((m, n)) && m.message == message && m.selectors_model()
                == sels && n == message.spec_bytes().len(),
            Err(e) => res matches Err(x) && x@ == e,
        },
{
    let ghost t = message.spec_bytes();
    let ghost total = message_selectors_spec(t, 0, seq![]);
    let n = byte_len(message);
    let mut selectors: Vec<(MinecraftSelector<'l>, usize, usize)> = Vec::new();
    let mut index: usize = 0;
    proof {
        assert(MinecraftMessage { message, selectors }.selectors_model() =~= seq![]);
        lemma_splittable_after_ascii(message, 0);
    }
    loop
        invariant
            index <= n,
            n == t.len(),
            splittable(t, index as int),
            message_selectors_spec(t, index as int, MinecraftMessage { message, selectors }.selectors_model())
                == total,
        decreases n - index,
    {
        let suffix = skip_suffix(message, index);
        let k = find_ascii(suffix, '@');
        proof {
            lemma_find_byte(suffix.spec_bytes(), 0, '@' as u8);
            lemma_find_byte(t, index as int, '@' as u8);
            assert(find_byte_from(t, index as int, '@' as u8) == index + k) by {
                lemma_find_byte_shift(t, index as int, '@' as u8);
            }
        }
        if k == byte_len(suffix) {
            break;
        }
        let j = index + k;
        proof {
            assert(t[j as int] == '@' as u8);
        }
        let at = skip_suffix(message, j);
        match MinecraftSelector::parse_rest(at) {
            Ok((selector, rest)) => {
                proof {
                    lemma_suffix_trans(rest.spec_bytes(), at.spec_bytes(), t);
                    lemma_suffix_splittable(message, rest);
                    assert(rest.spec_bytes().len() < at.spec_bytes().len()) by {
                        assert(at.spec_bytes()[0] == '@' as u8);
                    }
                }
                let end = n - byte_len(rest);
                let ghost old_model = MinecraftMessage { message, selectors }.selectors_model();
                let ghost sel_model = selector.model();
                selectors.push((selector, j, end));
                proof {
                    assert(MinecraftMessage { message, selectors }.selectors_model() =~= old_model.push(
                        (sel_model, j as int, end as int),
                    ));
                }
                index = end;
            },
            Err(MinecraftSelectorParserError::Other(e)) => {
                return Err(e);
            },
            Err(_) => {
                proof {
                    lemma_splittable_after_ascii(message, j + 1);
                }
                index = j + 1;
            },
        }
    }
    Ok((MinecraftMessage { message, selectors }, n))
}

/// Where `find_byte_from` lands, seen from a later start.
proof fn lemma_find_byte_shift(t: Seq<u8>, i: int, c: u8)
    requires
        0 <= i <= t.len(),
    ensures
        find_byte_from(t, i, c) == i + find_byte_from(after(t, i), 0, c),
    decreases t.len() - i,
{
    let s = after(t, i);
    if i < t.len() && t[i] != c {
        lemma_find_byte_shift(t, i + 1, c);
        lemma_find_byte_shift(s, 1, c);
        assert(after(s, 1) =~= after(t, i + 1));
    }
}

/// The value of a parsed argument.
pub enum ArgumentModel {
    BrigadierDouble(Seq<u8>),
    BrigadierInteger(i32),
    BrigadierString(Seq<u8>),
    MinecraftBlockPos(Vec3Model),
    MinecraftBlockPredicate(BlockPredicateModel),
    MinecraftDimension((Seq<u8>, usize)),
    MinecraftEntity(EntityModel),
    MinecraftEntityAnchor(MinecraftEntityAnchor),
    MinecraftFunction((Seq<u8>, usize)),
    MinecraftIntRange(MinecraftRange<i32>),
    MinecraftMessage(Seq<u8>, Seq<(SelectorModel, int, int)>),
    MinecraftNbtPath(Seq<NbtPathNodeModel>),
    MinecraftObjective(Seq<u8>),
    MinecraftObjectiveCriteria(Seq<u8>),
    MinecraftOperation(MinecraftOperation),
    MinecraftResourceLocation((Seq<u8>, usize)),
    MinecraftRotation((CoordinateModel, CoordinateModel)),
    MinecraftScoreHolder(ScoreHolderModel),
    MinecraftScoreboardSlot(Seq<u8>),
    MinecraftSwizzle,
    MinecraftTeam(Seq<u8>),
    MinecraftTime(TimeModel),
    MinecraftVec3(Vec3Model),
    Unknown(Seq<u8>),
}

impl<'l> Argument<'l> {
    /// The value of this argument.
    pub open spec fn model(&self) -> ArgumentModel {
        match self {
            Argument::BrigadierDouble(v) => ArgumentModel::BrigadierDouble(v.spec_bytes()),
            Argument::BrigadierInteger(v) => ArgumentModel::BrigadierInteger(*v),
            Argument::BrigadierString(v) => ArgumentModel::BrigadierString(v.spec_bytes()),
            Argument::MinecraftBlockPos(v) => ArgumentModel::MinecraftBlockPos(v.0.model()),
            Argument::MinecraftBlockPredicate(v) => ArgumentModel::MinecraftBlockPredicate(v.model()),
            Argument::MinecraftDimension(v) => ArgumentModel::MinecraftDimension(location_model(*v)),
            Argument::MinecraftEntity(v) => ArgumentModel::MinecraftEntity(v.model()),
            Argument::MinecraftEntityAnchor(v) => ArgumentModel::MinecraftEntityAnchor(*v),
            Argument::MinecraftFunction(v) => ArgumentModel::MinecraftFunction(location_model(*v)),
            Argument::MinecraftIntRange(v) => ArgumentModel::MinecraftIntRange(*v),
            Argument::MinecraftMessage(v) => ArgumentModel::MinecraftMessage(
                v.message.spec_bytes(),
                v.selectors_model(),
            ),
            Argument::MinecraftNbtPath(v) => ArgumentModel::MinecraftNbtPath(v.model()),
            Argument::MinecraftObjective(v) => ArgumentModel::MinecraftObjective(v.spec_bytes()),
            Argument::MinecraftObjectiveCriteria(v) => ArgumentModel::MinecraftObjectiveCriteria(
                v.spec_bytes(),
            ),
            Argument::MinecraftOperation(v) => ArgumentModel::MinecraftOperation(*v),
            Argument::MinecraftResourceLocation(v) => ArgumentModel::MinecraftResourceLocation(
                location_model(*v),
            ),
            Argument::MinecraftRotation(v) => ArgumentModel::MinecraftRotation(v.model()),
            Argument::MinecraftScoreHolder(v) => ArgumentModel::MinecraftScoreHolder(v.model()),
            Argument::MinecraftScoreboardSlot(v) => ArgumentModel::MinecraftScoreboardSlot(
                v.spec_bytes(),
            ),
            Argument::MinecraftSwizzle(_) => ArgumentModel::MinecraftSwizzle,
            Argument::MinecraftTeam(v) => ArgumentModel::MinecraftTeam(v.spec_bytes()),
            Argument::MinecraftTime(v) => ArgumentModel::MinecraftTime((v.time.spec_bytes(), v.unit)),
            Argument::MinecraftVec3(v) => ArgumentModel::MinecraftVec3(v.model()),
            Argument::Unknown(v) => ArgumentModel::Unknown(v.spec_bytes()),
        }
    }
}

/// A result that holds what follows a value, turned into one that holds the value's length.
pub open spec fn with_len<A, B>(t: Seq<u8>, r: Result<(A, Seq<u8>), Seq<char>>, f: spec_fn(A) -> B) -> Result<(B, int), Seq<char>> {
    match r {
        Ok((v, rest)) => Ok((f(v), t.len() - rest.len())),
        Err(m) => Err(m),
    }
}

/// The argument that parser `p` reads at the start of `t`, and its length.
#[verifier::opaque]
pub open spec fn argument_spec(p: ArgumentParser, t: Seq<u8>) -> Result<(ArgumentModel, int), Seq<char>> {
    match p {
        ArgumentParser::BrigadierDouble => with_len(
            t,
            double_spec(t),
            |v: Seq<u8>| ArgumentModel::BrigadierDouble(v),
        ),
        ArgumentParser::BrigadierInteger(_) => with_len(
            t,
            integer_spec(t),
            |v: i32| ArgumentModel::BrigadierInteger(v),
        ),
        ArgumentParser::BrigadierString { type_ } => match type_ {
            BrigadierStringType::Greedy => Ok((ArgumentModel::BrigadierString(t), t.len() as int)),
            BrigadierStringType::Phrase => Err(
                "Unsupported type 'phrase' for argument parser brigadier:string"@,
            ),
            BrigadierStringType::Word => Ok(
                (
                    ArgumentModel::BrigadierString(t.subrange(0, unquoted_len(t))),
                    unquoted_len(t),
                ),
            ),
        },
        ArgumentParser::MinecraftBlockPos => with_len(
            t,
            vec3_spec(t, true),
            |v: Vec3Model| ArgumentModel::MinecraftBlockPos(v),
        ),
        ArgumentParser::MinecraftBlockPredicate => with_len(
            t,
            block_predicate_spec(t),
            |v: BlockPredicateModel| ArgumentModel::MinecraftBlockPredicate(v),
        ),
        ArgumentParser::MinecraftDimension => match resource_location_spec(t) {
            Ok((text, k, r)) => Ok((ArgumentModel::MinecraftDimension((text, k)), t.len() - r.len())),
            Err(m) => Err(m),
        },
        ArgumentParser::MinecraftEntity { .. } => with_len(
            t,
            entity_spec(t),
            |v: EntityModel| ArgumentModel::MinecraftEntity(v),
        ),
        ArgumentParser::MinecraftEntityAnchor => match entity_anchor_spec(t) {
            Ok((a, n)) => Ok((ArgumentModel::MinecraftEntityAnchor(a), n)),
            Err(m) => Err(m),
        },
        ArgumentParser::MinecraftFunction => match resource_location_spec(t) {
            Ok((text, k, r)) => Ok((ArgumentModel::MinecraftFunction((text, k)), t.len() - r.len())),
            Err(m) => Err(m),
        },
        ArgumentParser::MinecraftIntRange => with_len(
            t,
            int_range_spec(t),
            |v: MinecraftRange<i32>| ArgumentModel::MinecraftIntRange(v),
        ),
        ArgumentParser::MinecraftMessage => match message_selectors_spec(t, 0, seq![]) {
            Ok(sels) => Ok((ArgumentModel::MinecraftMessage(t, sels), t.len() as int)),
            Err(m) => Err(m),
        },
        ArgumentParser::MinecraftNbtPath => with_len(
            t,
            path_spec(t, true, seq![]),
            |v: Seq<NbtPathNodeModel>| ArgumentModel::MinecraftNbtPath(v),
        ),
        ArgumentParser::MinecraftObjective => Ok(
            (ArgumentModel::MinecraftObjective(t.subrange(0, unquoted_len(t))), unquoted_len(t)),
        ),
        ArgumentParser::MinecraftObjectiveCriteria => {
            let n = find_byte_from(t, 0, ' ' as u8);
            Ok((ArgumentModel::MinecraftObjectiveCriteria(t.subrange(0, n)), n))
        },
        ArgumentParser::MinecraftOperation => match operation_spec(t) {
            Ok((o, n)) => Ok((ArgumentModel::MinecraftOperation(o), n)),
            Err(m) => Err(m),
        },
        ArgumentParser::MinecraftResourceLocation => match resource_location_spec(t) {
            Ok((text, k, r)) => Ok(
                (ArgumentModel::MinecraftResourceLocation((text, k)), t.len() - r.len()),
            ),
            Err(m) => Err(m),
        },
        ArgumentParser::MinecraftRotation => with_len(
            t,
            rotation_spec(t),
            |v: (CoordinateModel, CoordinateModel)| ArgumentModel::MinecraftRotation(v),
        ),
        ArgumentParser::MinecraftScoreHolder { .. } => with_len(
            t,
            score_holder_spec(t),
            |v: ScoreHolderModel| ArgumentModel::MinecraftScoreHolder(v),
        ),
        ArgumentParser::MinecraftScoreboardSlot => Ok(
            (
                ArgumentModel::MinecraftScoreboardSlot(t.subrange(0, unquoted_len(t))),
                unquoted_len(t),
            ),
        ),
        ArgumentParser::MinecraftSwizzle => match swizzle_spec(t) {
            Ok(n) => Ok((ArgumentModel::MinecraftSwizzle, n)),
            Err(m) => Err(m),
        },
        ArgumentParser::MinecraftTeam => Ok(
            (ArgumentModel::MinecraftTeam(t.subrange(0, unquoted_len(t))), unquoted_len(t)),
        ),
        ArgumentParser::MinecraftTime => match time_spec(t) {
            Ok((v, n)) => Ok((ArgumentModel::MinecraftTime(v), n)),
            Err(m) => Err(m),
        },
        ArgumentParser::MinecraftVec3 => with_len(
            t,
            vec3_spec(t, false),
            |v: Vec3Model| ArgumentModel::MinecraftVec3(v),
        ),
        ArgumentParser::Unknown => {
            let n = find_byte_from(t, 0, ' ' as u8);
            Ok((ArgumentModel::Unknown(t.subrange(0, n)), n))
        },
        _ => Err("Unsupported argument type: "@ + parser_name(p)),
    }
}

/// The unquoted string at the start of `string` and its length in bytes.
fn parse_minecraft_objective(string: &str) -> (res: Result<(&str, usize), String>)
    ensures
        res matches Ok((v, n)) && n == unquoted_len(string.spec_bytes()) && n <= string.spec_bytes().len()
            && v.spec_bytes() == string.spec_bytes().subrange(0, n as int),
{
    Ok(brigadier::parse_unquoted_string(string))
}

/// The unquoted string at the start of `string` and its length in bytes.
fn parse_minecraft_scoreboard_slot(string: &str) -> (res: Result<(&str, usize), String>)
    ensures
        res matches Ok((v, n)) && n == unquoted_len(string.spec_bytes()) && n <= string.spec_bytes().len()
            && v.spec_bytes() == string.spec_bytes().subrange(0, n as int),
{
    Ok(brigadier::parse_unquoted_string(string))
}

/// The unquoted string at the start of `string` and its length in bytes.
fn parse_minecraft_team(string: &str) -> (res: Result<(&str, usize), String>)
    ensures
        res matches Ok((v, n)) && n == unquoted_len(string.spec_bytes()) && n <= string.spec_bytes().len()
            && v.spec_bytes() == string.spec_bytes().subrange(0, n as int),
{
    Ok(brigadier::parse_unquoted_string(string))
}

/// The text up to the first space of `string` and its length in bytes.
fn parse_up_to_space(string: &str) -> (res: (&str, usize))
    ensures
        res.1 == find_byte_from(string.spec_bytes(), 0, ' ' as u8),
        res.1 <= string.spec_bytes().len(),
        res.0.spec_bytes() == string.spec_bytes().subrange(0, res.1 as int),
{
    let (v, _) = split_at_space(string);
    proof {
        lemma_find_byte(string.spec_bytes(), 0, ' ' as u8);
    }
    (v, byte_len(v))
}

/// The objective criteria at the start of `string` and its length in bytes.
fn parse_minecraft_objective_criteria(string: &str) -> (res: Result<(&str, usize), String>)
    ensures
        res matches Ok((v, n)) && n == find_byte_from(string.spec_bytes(), 0, ' ' as u8)
            && n <= string.spec_bytes().len() && v.spec_bytes() == string.spec_bytes().subrange(0, n as int),
{
    Ok(parse_up_to_space(string))
}

/// An argument of an unknown type at the start of `string`, taken up to the first space, and
/// its length in bytes.
fn parse_unknown(string: &str) -> (res: Result<(&str, usize), String>)
    ensures
        res matches Ok((v, n)) && n == find_byte_from(string.spec_bytes(), 0, ' ' as u8)
            && n <= string.spec_bytes().len() && v.spec_bytes() == string.spec_bytes().subrange(0, n as int),
{
    Ok(parse_up_to_space(string))
}


/// The argument that parser `p` reads at the start of `string` and its length in bytes, for a
/// part of the parsers.
#[verifier::rlimit(40)]
fn parse_part_0<'l>(p: &ArgumentParser, string: &'l str) -> (res: Result<(Argument<'l>, usize), String>)
    requires
            p is BrigadierDouble || p is BrigadierInteger || p is BrigadierString || p is MinecraftBlockPos || p is MinecraftBlockPredicate || p is MinecraftDimension,
    ensures
        match argument_spec(*p, string.spec_bytes()) {
            Ok((m, n)) => res matches Ok((a, k)) && a.model() == m && k == n && n
                <= string.spec_bytes().len(),
            Err(m) => res matches Err(e) && e@ == m,
        },
{
    proof {
        reveal(argument_spec);
    }
    proof {
        crate::text::lemma_span_end(string.spec_bytes(), 0, brigadier::unquoted_pred());
    }
    let len = byte_len(string);
    match p {
        ArgumentParser::BrigadierDouble => {
            let (v, rest) = parse_double_prefix(string)?;
            Ok((Argument::BrigadierDouble(v), len - byte_len(rest)))
        },
        ArgumentParser::BrigadierInteger(_) => {
            let (v, rest) = parse_integer_prefix(string)?;
            Ok((Argument::BrigadierInteger(v), len - byte_len(rest)))
        },
        ArgumentParser::BrigadierString { type_ } => {
            let (v, n) = brigadier::parse_string(string, *type_)?;
            Ok((Argument::BrigadierString(v), n))
        },
        ArgumentParser::MinecraftBlockPos => {
            let (v, n) = MinecraftBlockPos::parse(string)?;
            Ok((Argument::MinecraftBlockPos(v), n))
        },
        ArgumentParser::MinecraftBlockPredicate => {
            let (v, n) = MinecraftBlockPredicate::parse(string)?;
            Ok((Argument::MinecraftBlockPredicate(v), n))
        },
        ArgumentParser::MinecraftDimension => {
            let (v, rest) = ResourceLocationRef::parse_prefix(string)?;
            Ok((Argument::MinecraftDimension(v), len - byte_len(rest)))
        },
        _ => Err(String::from_str("")),
    }
}

/// The argument that parser `p` reads at the start of `string` and its length in bytes, for a
/// part of the parsers.
#[verifier::rlimit(40)]
fn parse_part_1<'l>(p: &ArgumentParser, string: &'l str) -> (res: Result<(Argument<'l>, usize), String>)
    requires
            p is MinecraftEntity || p is MinecraftEntityAnchor || p is MinecraftFunction || p is MinecraftIntRange || p is MinecraftMessage || p is MinecraftNbtPath,
    ensures
        match argument_spec(*p, string.spec_bytes()) {
            Ok((m, n)) => res matches Ok((a, k)) && a.model() == m && k == n && n
                <= string.spec_bytes().len(),
            Err(m) => res matches Err(e) && e@ == m,
        },
{
    proof {
        reveal(argument_spec);
    }
    let len = byte_len(string);
    match p {
        ArgumentParser::MinecraftEntity { .. } => {
            let (v, n) = MinecraftEntity::parse(string)?;
            Ok((Argument::MinecraftEntity(v), n))
        },
        ArgumentParser::MinecraftEntityAnchor => {
            let (v, n) = parse_minecraft_entity_anchor(string)?;
            Ok((Argument::MinecraftEntityAnchor(v), n))
        },
        ArgumentParser::MinecraftFunction => {
            let (v, rest) = ResourceLocationRef::parse_prefix(string)?;
            Ok((Argument::MinecraftFunction(v), len - byte_len(rest)))
        },
        ArgumentParser::MinecraftIntRange => {
            let (v, rest) = parse_int_range_prefix(string)?;
            Ok((Argument::MinecraftIntRange(v), len - byte_len(rest)))
        },
        ArgumentParser::MinecraftMessage => {
            let (v, n) = parse_minecraft_message(string)?;
            Ok((Argument::MinecraftMessage(v), n))
        },
        ArgumentParser::MinecraftNbtPath => {
            let (v, n) = MinecraftNbtPath::parse(string)?;
            Ok((Argument::MinecraftNbtPath(v), n))
        },
        _ => Err(String::from_str("")),
    }
}


/// The argument that parser `p` reads at the start of `string` and its length in bytes, for a
/// part of the parsers.
fn parse_part_3<'l>(p: &ArgumentParser, string: &'l str) -> (res: Result<(Argument<'l>, usize), String>)
    requires
        p is MinecraftResourceLocation || p is MinecraftRotation || p is MinecraftScoreHolder,
    ensures
        match argument_spec(*p, string.spec_bytes()) {
            Ok((m, n)) => res matches Ok((a, k)) && a.model() == m && k == n && n
                <= string.spec_bytes().len(),
            Err(m) => res matches Err(e) && e@ == m,
        },
{
    proof {
        reveal(argument_spec);
    }
    let len = byte_len(string);
    match p {
        ArgumentParser::MinecraftResourceLocation => match ResourceLocationRef::parse_prefix(string) {
            Ok((v, rest)) => Ok((Argument::MinecraftResourceLocation(v), len - byte_len(rest))),
            Err(e) => Err(e),
        },
        ArgumentParser::MinecraftRotation => match MinecraftRotation::parse(string) {
            Ok((v, n)) => Ok((Argument::MinecraftRotation(v), n)),
            Err(e) => Err(e),
        },
        _ => match parse_minecraft_score_holder(string) {
            Ok((v, rest)) => Ok((Argument::MinecraftScoreHolder(v), len - byte_len(rest))),
            Err(e) => Err(e),
        },
    }
}


/// The argument that parser `p` reads at the start of `string` and its length in bytes, for a
/// part of the parsers.
fn parse_part_5<'l>(p: &ArgumentParser, string: &'l str) -> (res: Result<(Argument<'l>, usize), String>)
    requires
        p is MinecraftTeam || p is MinecraftVec3 || p is Unknown,
    ensures
        match argument_spec(*p, string.spec_bytes()) {
            Ok((m, n)) => res matches Ok((a, k)) && a.model() == m && k == n && n
                <= string.spec_bytes().len(),
            Err(m) => res matches Err(e) && e@ == m,
        },
{
    proof {
        reveal(argument_spec);
    }
    match p {
        ArgumentParser::MinecraftTeam => match parse_minecraft_team(string) {
            Ok((v, n)) => Ok((Argument::MinecraftTeam(v), n)),
            Err(e) => Err(e),
        },
        ArgumentParser::MinecraftVec3 => match MinecraftVec3::parse(string) {
            Ok((v, n)) => Ok((Argument::MinecraftVec3(v), n)),
            Err(e) => Err(e),
        },
        _ => match parse_unknown(string) {
            Ok((v, n)) => Ok((Argument::Unknown(v), n)),
            Err(e) => Err(e),
        },
    }
}

/// The `minecraft:objective` argument at the start of `string` and its length in bytes.
fn parse_objective_argument<'l>(string: &'l str) -> (res: Result<(Argument<'l>, usize), String>)
    ensures
        match argument_spec(ArgumentParser::MinecraftObjective, string.spec_bytes()) {
            Ok((m, n)) => res matches Ok((a, k)) && a.model() == m && k == n && n
                <= string.spec_bytes().len(),
            Err(m) => res matches Err(e) && e@ == m,
        },
{
    proof {
        reveal(argument_spec);
    }
    match parse_minecraft_objective(string) {
        Ok((v, n)) => Ok((Argument::MinecraftObjective(v), n)),
        Err(e) => Err(e),
    }
}

/// The `minecraft:objective_criteria` argument at the start of `string` and its length in bytes.
fn parse_criteria_argument<'l>(string: &'l str) -> (res: Result<(Argument<'l>, usize), String>)
    ensures
        match argument_spec(ArgumentParser::MinecraftObjectiveCriteria, string.spec_bytes()) {
            Ok((m, n)) => res matches Ok((a, k)) && a.model() == m && k == n && n
                <= string.spec_bytes().len(),
            Err(m) => res matches Err(e) && e@ == m,
        },
{
    proof {
        reveal(argument_spec);
    }
    match parse_minecraft_objective_criteria(string) {
        Ok((v, n)) => Ok((Argument::MinecraftObjectiveCriteria(v), n)),
        Err(e) => Err(e),
    }
}

/// The `minecraft:operation` argument at the start of `string` and its length in bytes.
fn parse_operation_argument<'l>(string: &'l str) -> (res: Result<(Argument<'l>, usize), String>)
    ensures
        match argument_spec(ArgumentParser::MinecraftOperation, string.spec_bytes()) {
            Ok((m, n)) => res matches Ok((a, k)) && a.model() == m && k == n && n
                <= string.spec_bytes().len(),
            Err(m) => res matches Err(e) && e@ == m,
        },
{
    proof {
        reveal(argument_spec);
    }
    match parse_minecraft_operation(string) {
        Ok((v, n)) => Ok((Argument::MinecraftOperation(v), n)),
        Err(e) => Err(e),
    }
}

/// The `minecraft:scoreboard_slot` argument at the start of `string` and its length in bytes.
fn parse_slot_argument<'l>(string: &'l str) -> (res: Result<(Argument<'l>, usize), String>)
    ensures
        match argument_spec(ArgumentParser::MinecraftScoreboardSlot, string.spec_bytes()) {
            Ok((m, n)) => res matches Ok((a, k)) && a.model() == m && k == n && n
                <= string.spec_bytes().len(),
            Err(m) => res matches Err(e) && e@ == m,
        },
{
    proof {
        reveal(argument_spec);
    }
    match parse_minecraft_scoreboard_slot(string) {
        Ok((v, n)) => Ok((Argument::MinecraftScoreboardSlot(v), n)),
        Err(e) => Err(e),
    }
}

/// The `minecraft:swizzle` argument at the start of `string` and its length in bytes.
fn parse_swizzle_argument<'l>(string: &'l str) -> (res: Result<(Argument<'l>, usize), String>)
    ensures
        match argument_spec(ArgumentParser::MinecraftSwizzle, string.spec_bytes()) {
            Ok((m, n)) => res matches Ok((a, k)) && a.model() == m && k == n && n
                <= string.spec_bytes().len(),
            Err(m) => res matches Err(e) && e@ == m,
        },
{
    proof {
        reveal(argument_spec);
    }
    match parse_minecraft_swizzle(string) {
        Ok((v, n)) => Ok((Argument::MinecraftSwizzle(v), n)),
        Err(e) => Err(e),
    }
}

/// The `minecraft:time` argument at the start of `string` and its length in bytes.
fn parse_time_argument<'l>(string: &'l str) -> (res: Result<(Argument<'l>, usize), String>)
    ensures
        match argument_spec(ArgumentParser::MinecraftTime, string.spec_bytes()) {
            Ok((m, n)) => res matches Ok((a, k)) && a.model() == m && k == n && n
                <= string.spec_bytes().len(),
            Err(m) => res matches Err(e) && e@ == m,
        },
{
    proof {
        reveal(argument_spec);
    }
    match parse_minecraft_time(string) {
        Ok((v, n)) => Ok((Argument::MinecraftTime(v), n)),
        Err(e) => Err(e),
    }
}

/// The error for a parser that reads no arguments.
fn parse_unsupported<'l>(p: &ArgumentParser, string: &'l str) -> (res: Result<(Argument<'l>, usize), String>)
    requires
        !(p is BrigadierDouble || p is BrigadierInteger || p is BrigadierString || p is MinecraftBlockPos
            || p is MinecraftBlockPredicate || p is MinecraftDimension || p is MinecraftEntity || p is MinecraftEntityAnchor
            || p is MinecraftFunction || p is MinecraftIntRange || p is MinecraftMessage || p is MinecraftNbtPath
            || p is MinecraftObjective || p is MinecraftObjectiveCriteria || p is MinecraftOperation
            || p is MinecraftResourceLocation || p is MinecraftRotation || p is MinecraftScoreHolder
            || p is MinecraftScoreboardSlot || p is MinecraftSwizzle || p is MinecraftTime || p is MinecraftTeam
            || p is MinecraftVec3 || p is Unknown),
    ensures
        match argument_spec(*p, string.spec_bytes()) {
            Ok((m, n)) => res matches Ok((a, k)) && a.model() == m && k == n && n
                <= string.spec_bytes().len(),
            Err(m) => res matches Err(e) && e@ == m,
        },
{
    proof {
        reveal(argument_spec);
    }
    let mut e = String::from_str("Unsupported argument type: ");
    e.append(p.name());
    Err(e)
}

impl ArgumentParser {
    /// The argument that this parser reads at the start of `string` and its length in bytes.
    pub fn parse<'l>(&self, string: &'l str) -> (res: Result<(Argument<'l>, usize), String>)
        ensures
            match argument_spec(*self, string.spec_bytes()) {
                Ok((m, n)) => res matches Ok((a, k)) && a.model() == m && k == n && n
                <= string.spec_bytes().len(),
                Err(m) => res matches Err(e) && e@ == m,
            },
    {
        proof {
            reveal(argument_spec);
        }
        match self {
            ArgumentParser::BrigadierDouble | ArgumentParser::BrigadierInteger(_) | ArgumentParser::BrigadierString { .. } | ArgumentParser::MinecraftBlockPos | ArgumentParser::MinecraftBlockPredicate | ArgumentParser::MinecraftDimension => parse_part_0(self, string),
            ArgumentParser::MinecraftEntity { .. } | ArgumentParser::MinecraftEntityAnchor | ArgumentParser::MinecraftFunction | ArgumentParser::MinecraftIntRange | ArgumentParser::MinecraftMessage | ArgumentParser::MinecraftNbtPath => parse_part_1(self, string),
            ArgumentParser::MinecraftObjective => parse_objective_argument(string),
            ArgumentParser::MinecraftObjectiveCriteria => parse_criteria_argument(string),
            ArgumentParser::MinecraftOperation => parse_operation_argument(string),
            ArgumentParser::MinecraftResourceLocation | ArgumentParser::MinecraftRotation | ArgumentParser::MinecraftScoreHolder { .. } => parse_part_3(self, string),
            ArgumentParser::MinecraftScoreboardSlot => parse_slot_argument(string),
            ArgumentParser::MinecraftSwizzle => parse_swizzle_argument(string),
            ArgumentParser::MinecraftTime => parse_time_argument(string),
            ArgumentParser::MinecraftTeam | ArgumentParser::MinecraftVec3 | ArgumentParser::Unknown => parse_part_5(self, string),
            _ => parse_unsupported(self, string),
        }
    }
}

} // verus!
