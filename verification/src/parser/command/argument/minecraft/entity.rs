//! Entities: target selectors such as `@e[type=pig,limit=1]`, player names and UUIDs.

use crate::entries::{distinct_keys, insert_in_order, keys_increasing, pairs_model, put_in_order, Modeled, Ordered};
use crate::parser::command::argument::brigadier::{
    bool_spec, double_spec, expect_ascii, expect_message, integer_spec, parse_bool_prefix,
    parse_double_prefix, parse_integer_prefix, parse_possibly_quoted_prefix, parse_unquoted_prefix,
    quoted_prefix_spec, unquoted_len,
};
use crate::parser::command::argument::minecraft::nbt::{compound_spec, parse_compound, CompoundNbt, NbtModel};
use crate::parser::command::argument::minecraft::range::{
    decimal_range_model, decimal_range_spec, int_range_spec, parse_decimal_range_prefix,
    parse_int_range_prefix, MinecraftRange,
};
use crate::parser::command::resource_location::{
    location_model, resource_location_spec, ResourceLocationRef,
};
use crate::text::{
    after, byte_len, is_suffix, lemma_after_suffix, lemma_suffix_trans, lemma_view_text,
    starts_with_ascii, str_eq, strip_ascii, strip_byte, text, to_string, trim, trimmed,
};
use vstd::prelude::*;
use vstd::string::*;

verus! {

/// An entity: a target selector, or the name or UUID of a player.
#[derive(Debug, PartialEq)]
pub enum MinecraftEntity<'l> {
    /// A target selector.
    Selector(MinecraftSelector<'l>),
    /// A player name or a UUID.
    PlayerNameOrUuid(&'l str),
}

/// Why no target selector could be read.
#[derive(Clone, Debug, Eq, PartialEq)]
pub enum MinecraftSelectorParserError {
    /// Nothing follows the `@`.
    MissingSelectorType,
    /// The character after the `@` names no selector type.
    UnknownSelectorType(char),
    /// Any other error, with its message.
    Other(String),
}

/// The value of a `MinecraftSelectorParserError`.
pub enum SelectorErrorModel {
    Missing,
    Unknown(char),
    Other(Seq<char>),
}

impl MinecraftSelectorParserError {
    /// The value of this error.
    pub open spec fn model(&self) -> SelectorErrorModel {
        match self {
            MinecraftSelectorParserError::MissingSelectorType => SelectorErrorModel::Missing,
            MinecraftSelectorParserError::UnknownSelectorType(c) => SelectorErrorModel::Unknown(*c),
            MinecraftSelectorParserError::Other(m) => SelectorErrorModel::Other(m@),
        }
    }

    /// The message of this error.
    pub fn to_string(&self) -> (res: String)
        ensures
            res@ == selector_error_message(self.model()),
    {
        match self {
            MinecraftSelectorParserError::MissingSelectorType => String::from_str(
                "Missing selector type",
            ),
            MinecraftSelectorParserError::UnknownSelectorType(c) => {
                let mut e = String::from_str("Unknown selector type '");
                crate::text::push_char(&mut e, *c);
                e.append("'");
                e
            },
            MinecraftSelectorParserError::Other(m) => m.clone(),
        }
    }
}

/// The message of a selector error.
pub open spec fn selector_error_message(e: SelectorErrorModel) -> Seq<char> {
    match e {
        SelectorErrorModel::Missing => "Missing selector type"@,
        SelectorErrorModel::Unknown(c) => "Unknown selector type '"@ + seq![c] + "'"@,
        SelectorErrorModel::Other(m) => m,
    }
}

/// The type of a target selector.
#[derive(Copy, Clone, Debug, Eq, PartialEq)]
pub enum MinecraftSelectorType {
    /// `@a`: all players.
    A,
    /// `@e`: all entities.
    E,
    /// `@p`: the nearest player.
    P,
    /// `@r`: a random player.
    R,
    /// `@s`: the executing entity.
    S,
}

/// The selector type at the start of `b` and what follows it.
pub open spec fn selector_type_spec(b: Seq<u8>) -> Result<(MinecraftSelectorType, Seq<u8>), SelectorErrorModel> {
    if b.len() == 0 {
        Err(SelectorErrorModel::Missing)
    } else if b[0] == 'a' as u8 {
        Ok((MinecraftSelectorType::A, after(b, 1)))
    } else if b[0] == 'e' as u8 {
        Ok((MinecraftSelectorType::E, after(b, 1)))
    } else if b[0] == 'p' as u8 {
        Ok((MinecraftSelectorType::P, after(b, 1)))
    } else if b[0] == 'r' as u8 {
        Ok((MinecraftSelectorType::R, after(b, 1)))
    } else if b[0] == 's' as u8 {
        Ok((MinecraftSelectorType::S, after(b, 1)))
    } else {
        Err(SelectorErrorModel::Unknown(text(b)[0]))
    }
}

impl MinecraftSelectorType {
    /// The selector type at the start of `string` and its length in bytes.
    pub fn parse(string: &str) -> (res: Result<(Self, usize), MinecraftSelectorParserError>)
        ensures
            match selector_type_spec(string.spec_bytes()) {
                Ok((t, _)) => res == Ok::<(Self, usize), MinecraftSelectorParserError>((t, 1)),
                Err(e) => res matches Err(x) && x.model() == e,
            },
    {
        let b = string.as_bytes();
        if b.len() == 0 {
            return Err(MinecraftSelectorParserError::MissingSelectorType);
        }
        let c = b[0];
        if c == 'a' as u8 {
            Ok((MinecraftSelectorType::A, 1))
        } else if c == 'e' as u8 {
            Ok((MinecraftSelectorType::E, 1))
        } else if c == 'p' as u8 {
            Ok((MinecraftSelectorType::P, 1))
        } else if c == 'r' as u8 {
            Ok((MinecraftSelectorType::R, 1))
        } else if c == 's' as u8 {
            Ok((MinecraftSelectorType::S, 1))
        } else {
            proof {
                lemma_view_text(string);
                if string@.len() == 0 {
                    assert(string@ =~= Seq::<char>::empty());
                    assert(vstd::utf8::encode_utf8(string@) =~= Seq::<u8>::empty());
                }
            }
            let first = string.get_char(0);
            Err(MinecraftSelectorParserError::UnknownSelectorType(first))
        }
    }
}

/// A string that a selector may negate with `!`.
#[derive(Clone, Debug, Eq, PartialEq)]
pub struct InvertableString<'l> {
    /// Whether the string is negated.
    pub inverted: bool,
    /// The string.
    pub string: &'l str,
}

/// The type of the entities a selector selects, or a tag of such types.
#[derive(Debug, PartialEq)]
pub struct EntityType<'l> {
    /// Whether the type is negated.
    pub inverted: bool,
    /// Whether the type is a tag (`#`).
    pub tag: bool,
    /// The type or tag.
    pub resource_location: ResourceLocationRef<&'l str>,
}

/// NBT data that a selector may negate.
#[derive(Debug, PartialEq)]
pub struct InvertableCompoundNbt {
    /// Whether the NBT data is negated.
    pub inverted: bool,
    /// The NBT data.
    pub nbt: CompoundNbt,
}

/// A predicate that a selector may negate.
#[derive(Debug, PartialEq)]
pub struct InvertablePredicate<'l> {
    /// Whether the predicate is negated.
    pub inverted: bool,
    /// The predicate.
    pub predicate: ResourceLocationRef<&'l str>,
}

/// Progress in an advancement: whether it is done, or which of its criteria are met.
#[derive(Debug, PartialEq)]
pub enum MinecraftAdvancementProgress<'l> {
    /// Whether the advancement is done.
    AdvancementProgress(bool),
    /// The criteria and whether each is met, each criterion once.
    CriterionProgress(Vec<(&'l str, bool)>),
}

/// The value of advancement progress.
pub enum ProgressModel {
    Advancement(bool),
    Criteria(Seq<(Seq<u8>, bool)>),
}

impl<'l> Modeled for MinecraftAdvancementProgress<'l> {
    type M = ProgressModel;

    open spec fn model_of(&self) -> ProgressModel {
        match self {
            MinecraftAdvancementProgress::AdvancementProgress(b) => ProgressModel::Advancement(*b),
            MinecraftAdvancementProgress::CriterionProgress(c) => ProgressModel::Criteria(
                pairs_model(c@),
            ),
        }
    }
}

impl Modeled for MinecraftRange<i32> {
    type M = MinecraftRange<i32>;

    open spec fn model_of(&self) -> MinecraftRange<i32> {
        *self
    }
}

/// A target selector: its type and the options it was given.
#[derive(Debug, PartialEq)]
pub struct MinecraftSelector<'l> {
    pub selector_type: MinecraftSelectorType,
    pub name: Option<InvertableString<'l>>,
    pub distance: Option<MinecraftRange<&'l str>>,
    pub level: Option<MinecraftRange<i32>>,
    pub x: Option<&'l str>,
    pub y: Option<&'l str>,
    pub z: Option<&'l str>,
    pub dx: Option<&'l str>,
    pub dy: Option<&'l str>,
    pub dz: Option<&'l str>,
    pub x_rotation: Option<MinecraftRange<&'l str>>,
    pub y_rotation: Option<MinecraftRange<&'l str>>,
    pub limit: Option<i32>,
    pub sort: Option<&'l str>,
    pub gamemode: Option<InvertableString<'l>>,
    pub team: Option<InvertableString<'l>>,
    pub entity_type: Option<EntityType<'l>>,
    pub tags: Vec<InvertableString<'l>>,
    pub nbts: Vec<InvertableCompoundNbt>,
    pub scores: Vec<(&'l str, MinecraftRange<i32>)>,
    pub advancements: Vec<(ResourceLocationRef<&'l str>, MinecraftAdvancementProgress<'l>)>,
    pub predicates: Vec<InvertablePredicate<'l>>,
}

/// A negatable string: whether it is negated, and its bytes.
pub type InvertableModel = (bool, Seq<u8>);

/// A range of decimal numbers: its bounds as text.
pub type DecimalRangeModel = (Option<Seq<u8>>, Option<Seq<u8>>);

/// A resource location: its text and the length of its namespace.
pub type LocationModel = (Seq<u8>, usize);

/// The value of a target selector.
pub struct SelectorModel {
    pub selector_type: MinecraftSelectorType,
    pub name: Option<InvertableModel>,
    pub distance: Option<DecimalRangeModel>,
    pub level: Option<MinecraftRange<i32>>,
    pub x: Option<Seq<u8>>,
    pub y: Option<Seq<u8>>,
    pub z: Option<Seq<u8>>,
    pub dx: Option<Seq<u8>>,
    pub dy: Option<Seq<u8>>,
    pub dz: Option<Seq<u8>>,
    pub x_rotation: Option<DecimalRangeModel>,
    pub y_rotation: Option<DecimalRangeModel>,
    pub limit: Option<i32>,
    pub sort: Option<Seq<u8>>,
    pub gamemode: Option<InvertableModel>,
    pub team: Option<InvertableModel>,
    pub entity_type: Option<(bool, bool, LocationModel)>,
    pub tags: Seq<InvertableModel>,
    pub nbts: Seq<(bool, Seq<(Seq<u8>, NbtModel)>)>,
    pub scores: Seq<(Seq<u8>, MinecraftRange<i32>)>,
    pub advancements: Seq<((Seq<u8>, Seq<u8>), ProgressModel)>,
    pub predicates: Seq<(bool, LocationModel)>,
}

/// The value of a negatable string.
pub open spec fn invertable_model(s: InvertableString) -> InvertableModel {
    (s.inverted, s.string.spec_bytes())
}

/// The value of an optional negatable string.
pub open spec fn opt_invertable(s: Option<InvertableString>) -> Option<InvertableModel> {
    match s {
        Some(v) => Some(invertable_model(v)),
        None => None,
    }
}

/// The value of an optional range of decimal numbers.
pub open spec fn opt_decimal_range(r: Option<MinecraftRange<&str>>) -> Option<DecimalRangeModel> {
    match r {
        Some(v) => Some(decimal_range_model(v)),
        None => None,
    }
}

/// The text of an optional number.
pub open spec fn opt_text(s: Option<&str>) -> Option<Seq<u8>> {
    match s {
        Some(v) => Some(v.spec_bytes()),
        None => None,
    }
}

/// The value of an optional entity type.
pub open spec fn opt_entity_type(t: Option<EntityType>) -> Option<(bool, bool, LocationModel)> {
    match t {
        Some(v) => Some((v.inverted, v.tag, location_model(v.resource_location))),
        None => None,
    }
}

impl<'l> MinecraftSelector<'l> {
    /// The value of this selector.
    pub open spec fn model(&self) -> SelectorModel {
        SelectorModel {
            selector_type: self.selector_type,
            name: opt_invertable(self.name),
            distance: opt_decimal_range(self.distance),
            level: self.level,
            x: opt_text(self.x),
            y: opt_text(self.y),
            z: opt_text(self.z),
            dx: opt_text(self.dx),
            dy: opt_text(self.dy),
            dz: opt_text(self.dz),
            x_rotation: opt_decimal_range(self.x_rotation),
            y_rotation: opt_decimal_range(self.y_rotation),
            limit: self.limit,
            sort: opt_text(self.sort),
            gamemode: opt_invertable(self.gamemode),
            team: opt_invertable(self.team),
            entity_type: opt_entity_type(self.entity_type),
            tags: Seq::new(self.tags@.len(), |i: int| invertable_model(self.tags@[i])),
            nbts: Seq::new(
                self.nbts@.len(),
                |i: int| (self.nbts@[i].inverted, self.nbts@[i].nbt.model()),
            ),
            scores: pairs_model(self.scores@),
            advancements: pairs_model(self.advancements@),
            predicates: Seq::new(
                self.predicates@.len(),
                |i: int|
                    (self.predicates@[i].inverted, location_model(self.predicates@[i].predicate)),
            ),
        }
    }
}

/// A selector of the given type without options.
pub open spec fn new_selector_model(t: MinecraftSelectorType) -> SelectorModel {
    SelectorModel {
        selector_type: t,
        name: None,
        distance: None,
        level: None,
        x: None,
        y: None,
        z: None,
        dx: None,
        dy: None,
        dz: None,
        x_rotation: None,
        y_rotation: None,
        limit: None,
        sort: None,
        gamemode: None,
        team: None,
        entity_type: None,
        tags: seq![],
        nbts: seq![],
        scores: seq![],
        advancements: seq![],
        predicates: seq![],
    }
}

/// Whether `t` starts with `c`, and what follows it with leading whitespace removed.
pub open spec fn prefix_spec(t: Seq<u8>, c: u8) -> (bool, Seq<u8>) {
    match strip_byte(t, c) {
        Some(r) => (true, trimmed(r)),
        None => (false, trimmed(t)),
    }
}

/// A negatable, possibly quoted string at the start of `t` and what follows it.
pub open spec fn invertable_quoted_spec(t: Seq<u8>) -> Result<(InvertableModel, Seq<u8>), Seq<char>> {
    let (inverted, s) = prefix_spec(t, '!' as u8);
    match quoted_prefix_spec(s) {
        Err(m) => Err(m),
        Ok((v, r)) => Ok(((inverted, v), r)),
    }
}

/// A negatable unquoted string at the start of `t` and what follows it.
pub open spec fn invertable_unquoted_spec(t: Seq<u8>) -> (InvertableModel, Seq<u8>) {
    let (inverted, s) = prefix_spec(t, '!' as u8);
    let n = unquoted_len(s);
    ((inverted, s.subrange(0, n)), after(s, n))
}

/// An entity type at the start of `t` and what follows it.
pub open spec fn entity_type_spec(t: Seq<u8>) -> Result<((bool, bool, LocationModel), Seq<u8>), Seq<char>> {
    let (inverted, s) = prefix_spec(t, '!' as u8);
    let (tag, s2) = prefix_spec(s, '#' as u8);
    match resource_location_spec(s2) {
        Err(m) => Err(m),
        Ok((text, k, r)) => Ok(((inverted, tag, (text, k)), r)),
    }
}

/// Negatable NBT data at the start of `t` and what follows it.
pub open spec fn invertable_nbt_spec(t: Seq<u8>) -> Result<((bool, Seq<(Seq<u8>, NbtModel)>), Seq<u8>), Seq<char>> {
    let (inverted, s) = prefix_spec(t, '!' as u8);
    match compound_spec(s) {
        Err(m) => Err(m),
        Ok((e, r)) => Ok(((inverted, e), r)),
    }
}

/// A negatable predicate at the start of `t` and what follows it.
pub open spec fn invertable_predicate_spec(t: Seq<u8>) -> Result<((bool, LocationModel), Seq<u8>), Seq<char>> {
    let (inverted, s) = prefix_spec(t, '!' as u8);
    match resource_location_spec(s) {
        Err(m) => Err(m),
        Ok((text, k, r)) => Ok(((inverted, (text, k)), r)),
    }
}

/// The namespace and path of a resource location with the given text and namespace length.
pub open spec fn location_key(text: Seq<u8>, k: usize) -> (Seq<u8>, Seq<u8>) {
    if k == usize::MAX {
        ("minecraft".spec_bytes(), text)
    } else {
        (text.subrange(0, k as int), text.subrange(k + 1, text.len() as int))
    }
}

/// The scores from `t` on, after the scores `acc`, and where they end.
pub open spec fn scores_loop_spec(t: Seq<u8>, acc: Seq<(Seq<u8>, MinecraftRange<i32>)>) -> Result<
    (Seq<(Seq<u8>, MinecraftRange<i32>)>, Seq<u8>),
    Seq<char>,
>
    decreases t.len(),
{
    if t.len() == 0 || t[0] == '}' as u8 {
        Ok((acc, t))
    } else {
        let n = unquoted_len(t);
        match strip_byte(trimmed(after(t, n)), '=' as u8) {
            None => Err(expect_message('=')),
            Some(r2) => match int_range_spec(trimmed(r2)) {
                Err(m) => Err(m),
                Ok((v, r3)) => {
                    let r4 = trimmed(r3);
                    let next = match strip_byte(r4, ',' as u8) {
                        Some(r5) => trimmed(r5),
                        None => r4,
                    };
                    if next.len() < t.len() {
                        scores_loop_spec(next, put_in_order(acc, t.subrange(0, n), v, <&str as Ordered>::order()))
                    } else {
                        Err(expect_message('='))
                    }
                },
            },
        }
    }
}

/// The scores at the start of `t` and what follows them.
pub open spec fn scores_spec(t: Seq<u8>) -> Result<(Seq<(Seq<u8>, MinecraftRange<i32>)>, Seq<u8>), Seq<char>> {
    match strip_byte(t, '{' as u8) {
        None => Err(expect_message('{')),
        Some(r) => match scores_loop_spec(trimmed(r), seq![]) {
            Err(m) => Err(m),
            Ok((s, r2)) => match strip_byte(r2, '}' as u8) {
                None => Err(expect_message('}')),
                Some(r3) => Ok((s, r3)),
            },
        },
    }
}

/// The criteria from `t` on, after the criteria `acc`, and where they end.
pub open spec fn criteria_loop_spec(t: Seq<u8>, acc: Seq<(Seq<u8>, bool)>) -> Result<
    (Seq<(Seq<u8>, bool)>, Seq<u8>),
    Seq<char>,
>
    decreases t.len(),
{
    if t.len() == 0 || t[0] == '}' as u8 {
        Ok((acc, t))
    } else {
        let n = unquoted_len(t);
        match strip_byte(trimmed(after(t, n)), '=' as u8) {
            None => Err(expect_message('=')),
            Some(r2) => match bool_spec(trimmed(r2)) {
                Err(m) => Err(m),
                Ok((v, r3)) => {
                    let r4 = trimmed(r3);
                    let next = match strip_byte(r4, ',' as u8) {
                        Some(r5) => trimmed(r5),
                        None => r4,
                    };
                    if next.len() < t.len() {
                        criteria_loop_spec(next, put_in_order(acc, t.subrange(0, n), v, <&str as Ordered>::order()))
                    } else {
                        Err(expect_message('='))
                    }
                },
            },
        }
    }
}

/// Advancement progress at the start of `t` and what follows it.
pub open spec fn progress_spec(t: Seq<u8>) -> Result<(ProgressModel, Seq<u8>), Seq<char>> {
    match strip_byte(t, '{' as u8) {
        Some(r) => match criteria_loop_spec(trimmed(r), seq![]) {
            Err(m) => Err(m),
            Ok((c, r2)) => match strip_byte(r2, '}' as u8) {
                None => Err(expect_message('}')),
                Some(r3) => Ok((ProgressModel::Criteria(c), r3)),
            },
        },
        None => match bool_spec(t) {
            Err(m) => Err(m),
            Ok((b, r)) => Ok((ProgressModel::Advancement(b), trimmed(r))),
        },
    }
}

/// The advancements from `t` on, after the advancements `acc`, and where they end.
pub open spec fn advancements_loop_spec(
    t: Seq<u8>,
    acc: Seq<((Seq<u8>, Seq<u8>), ProgressModel)>,
) -> Result<(Seq<((Seq<u8>, Seq<u8>), ProgressModel)>, Seq<u8>), Seq<char>>
    decreases t.len(),
{
    if t.len() == 0 || t[0] == '}' as u8 {
        Ok((acc, t))
    } else {
        match resource_location_spec(t) {
            Err(m) => Err(m),
            Ok((text, k, r1)) => match strip_byte(trimmed(r1), '=' as u8) {
                None => Err(expect_message('=')),
                Some(r2) => match progress_spec(trimmed(r2)) {
                    Err(m) => Err(m),
                    Ok((v, r3)) => {
                        let r4 = trimmed(r3);
                        let next = match strip_byte(r4, ',' as u8) {
                            Some(r5) => trimmed(r5),
                            None => r4,
                        };
                        if next.len() < t.len() {
                            advancements_loop_spec(
                                next,
                                put_in_order(acc, location_key(text, k), v, <ResourceLocationRef<&str> as Ordered>::order()),
                            )
                        } else {
                            Err(expect_message('='))
                        }
                    },
                },
            },
        }
    }
}

/// The advancements at the start of `t` and what follows them.
pub open spec fn advancements_spec(t: Seq<u8>) -> Result<
    (Seq<((Seq<u8>, Seq<u8>), ProgressModel)>, Seq<u8>),
    Seq<char>,
> {
    match strip_byte(t, '{' as u8) {
        None => Err(expect_message('{')),
        Some(r) => match advancements_loop_spec(trimmed(r), seq![]) {
            Err(m) => Err(m),
            Ok((a, r2)) => match strip_byte(r2, '}' as u8) {
                None => Err(expect_message('}')),
                Some(r3) => Ok((a, r3)),
            },
        },
    }
}

/// Where an option of an unknown name ends in `t`: at the first `,` or `]`, or at the end.
pub open spec fn unknown_option_len(t: Seq<u8>) -> int
    decreases t.len(),
{
    if t.len() == 0 || t[0] == ',' as u8 || t[0] == ']' as u8 {
        0
    } else {
        1 + unknown_option_len(t.subrange(1, t.len() as int))
    }
}

/// Whether `string` starts with the ASCII character `prefix`, and the rest of `string` after it
/// with leading whitespace removed.
fn parse_prefix(string: &str, prefix: char) -> (res: (bool, &str))
    requires
        (prefix as u32) < 0x80,
    ensures
        res.0 == prefix_spec(string.spec_bytes(), prefix as u8).0,
        res.1.spec_bytes() == prefix_spec(string.spec_bytes(), prefix as u8).1,
        is_suffix(res.1.spec_bytes(), string.spec_bytes()),
{
    match strip_ascii(string, prefix) {
        Some(s) => {
            let r = trim(s);
            proof {
                lemma_suffix_trans(r.spec_bytes(), s.spec_bytes(), string.spec_bytes());
            }
            (true, r)
        },
        None => (false, trim(string)),
    }
}

impl<'l> InvertableString<'l> {
    /// A negatable, possibly quoted string at the start of `string`, and the rest of `string`.
    pub fn parse_possibly_quoted(string: &'l str) -> (res: Result<(Self, &'l str), String>)
        ensures
            match invertable_quoted_spec(string.spec_bytes()) {
                Ok((v, r)) => res matches Ok((x, y)) && invertable_model(x) == v && y.spec_bytes()
                    == r && is_suffix(r, string.spec_bytes()),
                Err(m) => res matches Err(e) && e@ == m,
            },
    {
        let (inverted, suffix) = parse_prefix(string, '!');
        match parse_possibly_quoted_prefix(suffix) {
            Ok((value, rest)) => {
                proof {
                    lemma_suffix_trans(rest.spec_bytes(), suffix.spec_bytes(), string.spec_bytes());
                }
                Ok((InvertableString { inverted, string: value }, rest))
            },
            Err(e) => Err(e),
        }
    }

    /// A negatable unquoted string at the start of `string`, and the rest of `string`.
    pub fn parse_unquoted(string: &'l str) -> (res: (Self, &'l str))
        ensures
            invertable_model(res.0) == invertable_unquoted_spec(string.spec_bytes()).0,
            res.1.spec_bytes() == invertable_unquoted_spec(string.spec_bytes()).1,
            is_suffix(res.1.spec_bytes(), string.spec_bytes()),
    {
        let (inverted, suffix) = parse_prefix(string, '!');
        let (value, rest) = parse_unquoted_prefix(suffix);
        proof {
            lemma_suffix_trans(rest.spec_bytes(), suffix.spec_bytes(), string.spec_bytes());
        }
        (InvertableString { inverted, string: value }, rest)
    }
}

impl<'l> EntityType<'l> {
    /// An entity type at the start of `string`, and the rest of `string`.
    pub fn parse(string: &'l str) -> (res: Result<(Self, &'l str), String>)
        ensures
            match entity_type_spec(string.spec_bytes()) {
                Ok((v, r)) => res matches Ok((x, y)) && (x.inverted, x.tag, location_model(
                    x.resource_location,
                )) == v && y.spec_bytes() == r && is_suffix(r, string.spec_bytes()),
                Err(m) => res matches Err(e) && e@ == m,
            },
    {
        let (inverted, suffix) = parse_prefix(string, '!');
        let (tag, suffix2) = parse_prefix(suffix, '#');
        match ResourceLocationRef::parse_prefix(suffix2) {
            Ok((resource_location, rest)) => {
                proof {
                    lemma_suffix_trans(suffix2.spec_bytes(), suffix.spec_bytes(), string.spec_bytes());
                    lemma_suffix_trans(rest.spec_bytes(), suffix2.spec_bytes(), string.spec_bytes());
                }
                Ok((EntityType { inverted, tag, resource_location }, rest))
            },
            Err(e) => Err(e),
        }
    }
}

impl InvertableCompoundNbt {
    /// Negatable NBT data at the start of `string`, and the rest of `string`.
    pub fn parse(string: &str) -> (res: Result<(Self, &str), String>)
        ensures
            match invertable_nbt_spec(string.spec_bytes()) {
                Ok((v, r)) => res matches Ok((x, y)) && (x.inverted, x.nbt.model()) == v
                    && y.spec_bytes() == r && is_suffix(r, string.spec_bytes()),
                Err(m) => res matches Err(e) && e@ == m,
            },
    {
        let (inverted, suffix) = parse_prefix(string, '!');
        match parse_compound(suffix) {
            Ok((nbt, rest)) => {
                proof {
                    lemma_suffix_trans(rest.spec_bytes(), suffix.spec_bytes(), string.spec_bytes());
                }
                Ok((InvertableCompoundNbt { inverted, nbt }, rest))
            },
            Err(e) => Err(e),
        }
    }
}

impl<'l> InvertablePredicate<'l> {
    /// A negatable predicate at the start of `string`, and the rest of `string`.
    pub fn parse(string: &'l str) -> (res: Result<(Self, &'l str), String>)
        ensures
            match invertable_predicate_spec(string.spec_bytes()) {
                Ok((v, r)) => res matches Ok((x, y)) && (x.inverted, location_model(x.predicate))
                    == v && y.spec_bytes() == r && is_suffix(r, string.spec_bytes()),
                Err(m) => res matches Err(e) && e@ == m,
            },
    {
        let (inverted, suffix) = parse_prefix(string, '!');
        match ResourceLocationRef::parse_prefix(suffix) {
            Ok((predicate, rest)) => {
                proof {
                    lemma_suffix_trans(rest.spec_bytes(), suffix.spec_bytes(), string.spec_bytes());
                }
                Ok((InvertablePredicate { inverted, predicate }, rest))
            },
            Err(e) => Err(e),
        }
    }
}

/// The scores at the start of `string`, each objective once, and the rest of `string`.
#[verifier::loop_isolation(false)]
fn parse_scores<'l>(string: &'l str) -> (res: Result<(Vec<(&'l str, MinecraftRange<i32>)>, &'l str), String>)
    ensures
        match scores_spec(string.spec_bytes()) {
            Ok((v, r)) => res matches Ok((x, y)) && pairs_model(x@) == v && distinct_keys(v)
                && y.spec_bytes() == r && is_suffix(r, string.spec_bytes()),
            Err(m) => res matches Err(e) && e@ == m,
        },
{
    let ghost t = string.spec_bytes();
    let r = match expect_ascii(string, '{') {
        Ok(r) => r,
        Err(e) => return Err(e),
    };
    let mut suffix = trim(r);
    let mut scores: Vec<(&'l str, MinecraftRange<i32>)> = Vec::new();
    let ghost total = scores_loop_spec(suffix.spec_bytes(), seq![]);
    proof {
        lemma_suffix_trans(suffix.spec_bytes(), r.spec_bytes(), t);
        assert(pairs_model(scores@) =~= seq![]);
    }
    while byte_len(suffix) != 0 && !starts_with_ascii(suffix, '}')
        invariant
            scores_loop_spec(suffix.spec_bytes(), pairs_model(scores@)) == total,
            distinct_keys(pairs_model(scores@)),
            keys_increasing(pairs_model(scores@), <&str as Ordered>::order()),
            is_suffix(suffix.spec_bytes(), t),
        decreases suffix.spec_bytes().len(),
    {
        let ghost before = suffix.spec_bytes();
        let (key, r1) = parse_unquoted_prefix(suffix);
        let r1t = trim(r1);
        let r2 = match expect_ascii(r1t, '=') {
            Ok(r2) => r2,
            Err(e) => return Err(e),
        };
        let (value, r3) = match parse_int_range_prefix(trim(r2)) {
            Ok(ok) => ok,
            Err(e) => return Err(e),
        };
        let r4 = trim(r3);
        proof {
            lemma_suffix_trans(r1t.spec_bytes(), r1.spec_bytes(), before);
            lemma_suffix_trans(r2.spec_bytes(), r1t.spec_bytes(), before);
            lemma_suffix_trans(trimmed(r2.spec_bytes()), r2.spec_bytes(), before);
            lemma_suffix_trans(r3.spec_bytes(), trimmed(r2.spec_bytes()), before);
            lemma_suffix_trans(r4.spec_bytes(), r3.spec_bytes(), before);
        }
        insert_in_order(&mut scores, key, value);
        suffix = match strip_ascii(r4, ',') {
            Some(r5) => {
                let r6 = trim(r5);
                proof {
                    lemma_suffix_trans(r6.spec_bytes(), r5.spec_bytes(), r4.spec_bytes());
                    lemma_suffix_trans(r6.spec_bytes(), r4.spec_bytes(), before);
                }
                r6
            },
            None => r4,
        };
        proof {
            lemma_suffix_trans(suffix.spec_bytes(), before, t);
        }
    }
    match expect_ascii(suffix, '}') {
        Ok(rest) => {
            proof {
                lemma_suffix_trans(rest.spec_bytes(), suffix.spec_bytes(), t);
            }
            Ok((scores, rest))
        },
        Err(e) => Err(e),
    }
}

impl<'l> MinecraftAdvancementProgress<'l> {
    /// Advancement progress at the start of `string`, and the rest of `string`.
    #[verifier::loop_isolation(false)]
    pub fn parse(string: &'l str) -> (res: Result<(Self, &'l str), String>)
        ensures
            match progress_spec(string.spec_bytes()) {
                Ok((v, r)) => res matches Ok((x, y)) && x.model_of() == v && y.spec_bytes() == r
                    && is_suffix(r, string.spec_bytes()),
                Err(m) => res matches Err(e) && e@ == m,
            },
    {
        let ghost t = string.spec_bytes();
        match strip_ascii(string, '{') {
            None => match parse_bool_prefix(string) {
                Ok((b, r)) => {
                    let rest = trim(r);
                    proof {
                        lemma_suffix_trans(rest.spec_bytes(), r.spec_bytes(), t);
                    }
                    Ok((MinecraftAdvancementProgress::AdvancementProgress(b), rest))
                },
                Err(e) => Err(e),
            },
            Some(r) => {
                let mut suffix = trim(r);
                let mut criteria: Vec<(&'l str, bool)> = Vec::new();
                let ghost total = criteria_loop_spec(suffix.spec_bytes(), seq![]);
                proof {
                    lemma_suffix_trans(suffix.spec_bytes(), r.spec_bytes(), t);
                    assert(pairs_model(criteria@) =~= seq![]);
                }
                while byte_len(suffix) != 0 && !starts_with_ascii(suffix, '}')
                    invariant
                        criteria_loop_spec(suffix.spec_bytes(), pairs_model(criteria@)) == total,
                        distinct_keys(pairs_model(criteria@)),
                        keys_increasing(pairs_model(criteria@), <&str as Ordered>::order()),
                        is_suffix(suffix.spec_bytes(), t),
                    decreases suffix.spec_bytes().len(),
                {
                    let ghost before = suffix.spec_bytes();
                    let (key, r1) = parse_unquoted_prefix(suffix);
                    let r1t = trim(r1);
                    let r2 = match expect_ascii(r1t, '=') {
                        Ok(r2) => r2,
                        Err(e) => return Err(e),
                    };
                    let (value, r3) = match parse_bool_prefix(trim(r2)) {
                        Ok(ok) => ok,
                        Err(e) => return Err(e),
                    };
                    let r4 = trim(r3);
                    proof {
                        lemma_suffix_trans(r1t.spec_bytes(), r1.spec_bytes(), before);
                        lemma_suffix_trans(r2.spec_bytes(), r1t.spec_bytes(), before);
                        lemma_suffix_trans(trimmed(r2.spec_bytes()), r2.spec_bytes(), before);
                        lemma_suffix_trans(r3.spec_bytes(), trimmed(r2.spec_bytes()), before);
                        lemma_suffix_trans(r4.spec_bytes(), r3.spec_bytes(), before);
                    }
                    insert_in_order(&mut criteria, key, value);
                    suffix = match strip_ascii(r4, ',') {
                        Some(r5) => {
                            let r6 = trim(r5);
                            proof {
                                lemma_suffix_trans(r6.spec_bytes(), r5.spec_bytes(), r4.spec_bytes());
                                lemma_suffix_trans(r6.spec_bytes(), r4.spec_bytes(), before);
                            }
                            r6
                        },
                        None => r4,
                    };
                    proof {
                        lemma_suffix_trans(suffix.spec_bytes(), before, t);
                    }
                }
                match expect_ascii(suffix, '}') {
                    Ok(rest) => {
                        proof {
                            lemma_suffix_trans(rest.spec_bytes(), suffix.spec_bytes(), t);
                        }
                        Ok((MinecraftAdvancementProgress::CriterionProgress(criteria), rest))
                    },
                    Err(e) => Err(e),
                }
            },
        }
    }
}

/// The advancements at the start of `string`, each advancement once, and the rest of `string`.
#[verifier::loop_isolation(false)]
fn parse_advancements<'l>(string: &'l str) -> (res: Result<
    (Vec<(ResourceLocationRef<&'l str>, MinecraftAdvancementProgress<'l>)>, &'l str),
    String,
>)
    ensures
        match advancements_spec(string.spec_bytes()) {
            Ok((v, r)) => res matches Ok((x, y)) && pairs_model(x@) == v && distinct_keys(v)
                && y.spec_bytes() == r && is_suffix(r, string.spec_bytes()),
            Err(m) => res matches Err(e) && e@ == m,
        },
{
    let ghost t = string.spec_bytes();
    let r = match expect_ascii(string, '{') {
        Ok(r) => r,
        Err(e) => return Err(e),
    };
    let mut suffix = trim(r);
    let mut advancements: Vec<(ResourceLocationRef<&'l str>, MinecraftAdvancementProgress<'l>)> = Vec::new();
    let ghost total = advancements_loop_spec(suffix.spec_bytes(), seq![]);
    proof {
        lemma_suffix_trans(suffix.spec_bytes(), r.spec_bytes(), t);
        assert(pairs_model(advancements@) =~= seq![]);
    }
    while byte_len(suffix) != 0 && !starts_with_ascii(suffix, '}')
        invariant
            advancements_loop_spec(suffix.spec_bytes(), pairs_model(advancements@)) == total,
            distinct_keys(pairs_model(advancements@)),
            keys_increasing(pairs_model(advancements@), <ResourceLocationRef<&str> as Ordered>::order()),
            is_suffix(suffix.spec_bytes(), t),
        decreases suffix.spec_bytes().len(),
    {
        let ghost before = suffix.spec_bytes();
        let (key, r1) = match ResourceLocationRef::parse_prefix(suffix) {
            Ok(ok) => ok,
            Err(e) => return Err(e),
        };
        let r1t = trim(r1);
        let r2 = match expect_ascii(r1t, '=') {
            Ok(r2) => r2,
            Err(e) => return Err(e),
        };
        let (value, r3) = match MinecraftAdvancementProgress::parse(trim(r2)) {
            Ok(ok) => ok,
            Err(e) => return Err(e),
        };
        let r4 = trim(r3);
        proof {
            lemma_suffix_trans(r1t.spec_bytes(), r1.spec_bytes(), before);
            lemma_suffix_trans(r2.spec_bytes(), r1t.spec_bytes(), before);
            lemma_suffix_trans(trimmed(r2.spec_bytes()), r2.spec_bytes(), before);
            lemma_suffix_trans(r3.spec_bytes(), trimmed(r2.spec_bytes()), before);
            lemma_suffix_trans(r4.spec_bytes(), r3.spec_bytes(), before);
        }
        insert_in_order(&mut advancements, key, value);
        suffix = match strip_ascii(r4, ',') {
            Some(r5) => {
                let r6 = trim(r5);
                proof {
                    lemma_suffix_trans(r6.spec_bytes(), r5.spec_bytes(), r4.spec_bytes());
                    lemma_suffix_trans(r6.spec_bytes(), r4.spec_bytes(), before);
                }
                r6
            },
            None => r4,
        };
        proof {
            lemma_suffix_trans(suffix.spec_bytes(), before, t);
        }
    }
    match expect_ascii(suffix, '}') {
        Ok(rest) => {
            proof {
                lemma_suffix_trans(rest.spec_bytes(), suffix.spec_bytes(), t);
            }
            Ok((advancements, rest))
        },
        Err(e) => Err(e),
    }
}

/// The selector `sel` after reading the value of its option `key` at the start of `t`, and what
/// follows the value. An option with an unknown name is skipped up to the next `,` or `]`.
#[verifier::opaque]
pub open spec fn option_spec(sel: SelectorModel, key: Seq<u8>, t: Seq<u8>) -> Result<
    (SelectorModel, Seq<u8>),
    Seq<char>,
> {
    if key == "name".spec_bytes() {
        match invertable_quoted_spec(t) {
            Err(m) => Err(m),
            Ok((v, r)) => Ok((SelectorModel { name: Some(v), ..sel }, r)),
        }
    } else if key == "distance".spec_bytes() {
        match decimal_range_spec(t) {
            Err(m) => Err(m),
            Ok((v, r)) => Ok((SelectorModel { distance: Some(v), ..sel }, r)),
        }
    } else if key == "level".spec_bytes() {
        match int_range_spec(t) {
            Err(m) => Err(m),
            Ok((v, r)) => Ok((SelectorModel { level: Some(v), ..sel }, r)),
        }
    } else if key == "x".spec_bytes() {
        match double_spec(t) {
            Err(m) => Err(m),
            Ok((v, r)) => Ok((SelectorModel { x: Some(v), ..sel }, r)),
        }
    } else if key == "y".spec_bytes() {
        match double_spec(t) {
            Err(m) => Err(m),
            Ok((v, r)) => Ok((SelectorModel { y: Some(v), ..sel }, r)),
        }
    } else if key == "z".spec_bytes() {
        match double_spec(t) {
            Err(m) => Err(m),
            Ok((v, r)) => Ok((SelectorModel { z: Some(v), ..sel }, r)),
        }
    } else if key == "dx".spec_bytes() {
        match double_spec(t) {
            Err(m) => Err(m),
            Ok((v, r)) => Ok((SelectorModel { dx: Some(v), ..sel }, r)),
        }
    } else if key == "dy".spec_bytes() {
        match double_spec(t) {
            Err(m) => Err(m),
            Ok((v, r)) => Ok((SelectorModel { dy: Some(v), ..sel }, r)),
        }
    } else if key == "dz".spec_bytes() {
        match double_spec(t) {
            Err(m) => Err(m),
            Ok((v, r)) => Ok((SelectorModel { dz: Some(v), ..sel }, r)),
        }
    } else if key == "x_rotation".spec_bytes() {
        match decimal_range_spec(t) {
            Err(m) => Err(m),
            Ok((v, r)) => Ok((SelectorModel { x_rotation: Some(v), ..sel }, r)),
        }
    } else if key == "y_rotation".spec_bytes() {
        match decimal_range_spec(t) {
            Err(m) => Err(m),
            Ok((v, r)) => Ok((SelectorModel { y_rotation: Some(v), ..sel }, r)),
        }
    } else if key == "limit".spec_bytes() {
        match integer_spec(t) {
            Err(m) => Err(m),
            Ok((v, r)) => Ok((SelectorModel { limit: Some(v), ..sel }, r)),
        }
    } else if key == "sort".spec_bytes() {
        let n = unquoted_len(t);
        Ok((SelectorModel { sort: Some(t.subrange(0, n)), ..sel }, after(t, n)))
    } else if key == "gamemode".spec_bytes() {
        let (v, r) = invertable_unquoted_spec(t);
        Ok((SelectorModel { gamemode: Some(v), ..sel }, r))
    } else if key == "team".spec_bytes() {
        let (v, r) = invertable_unquoted_spec(t);
        Ok((SelectorModel { team: Some(v), ..sel }, r))
    } else if key == "type".spec_bytes() {
        match entity_type_spec(t) {
            Err(m) => Err(m),
            Ok((v, r)) => Ok((SelectorModel { entity_type: Some(v), ..sel }, r)),
        }
    } else if key == "tag".spec_bytes() {
        let (v, r) = invertable_unquoted_spec(t);
        Ok((SelectorModel { tags: sel.tags.push(v), ..sel }, r))
    } else if key == "nbt".spec_bytes() {
        match invertable_nbt_spec(t) {
            Err(m) => Err(m),
            Ok((v, r)) => Ok((SelectorModel { nbts: sel.nbts.push(v), ..sel }, r)),
        }
    } else if key == "scores".spec_bytes() {
        match scores_spec(t) {
            Err(m) => Err(m),
            Ok((v, r)) => Ok((SelectorModel { scores: v, ..sel }, r)),
        }
    } else if key == "advancements".spec_bytes() {
        match advancements_spec(t) {
            Err(m) => Err(m),
            Ok((v, r)) => Ok((SelectorModel { advancements: v, ..sel }, r)),
        }
    } else if key == "predicate".spec_bytes() {
        match invertable_predicate_spec(t) {
            Err(m) => Err(m),
            Ok((v, r)) => Ok((SelectorModel { predicates: sel.predicates.push(v), ..sel }, r)),
        }
    } else {
        Ok((sel, after(t, unknown_option_len(t))))
    }
}

/// The rest of `string` after an option of an unknown name: from the first `,` or `]` on.
fn skip_unknown_option(string: &str) -> (res: &str)
    ensures
        res.spec_bytes() == after(string.spec_bytes(), unknown_option_len(string.spec_bytes())),
        is_suffix(res.spec_bytes(), string.spec_bytes()),
{
    let b = string.as_bytes();
    let ghost t = b@;
    let mut i: usize = 0;
    proof {
        assert(after(t, 0) =~= t);
    }
    while i < b.len() && b[i] != ',' as u8 && b[i] != ']' as u8
        invariant
            t == b@,
            t == string.spec_bytes(),
            i <= t.len(),
            i + unknown_option_len(after(t, i as int)) == unknown_option_len(t),
            forall|j: int| 0 <= j < i ==> t[j] != ',' as u8 && t[j] != ']' as u8,
        decreases t.len() - i,
    {
        proof {
            assert(after(t, i as int).subrange(1, after(t, i as int).len() as int) =~= after(t, i + 1));
        }
        i = i + 1;
    }
    proof {
        crate::text::lemma_splittable_after_ascii(string, 0);
        if i < t.len() {
            vstd::utf8::encode_utf8_valid_utf8(string@);
        }
        lemma_after_suffix(t, i as int);
    }
    if i < b.len() {
        proof {
            assert(!vstd::utf8::is_continuation_byte(t[i as int]));
        }
        crate::text::skip_str(string, i)
    } else {
        crate::text::skip_str(string, i)
    }
}

impl<'l> MinecraftSelector<'l> {
    /// A selector of the given type without options.
    pub fn new(selector_type: MinecraftSelectorType) -> (res: MinecraftSelector<'l>)
        ensures
            res.model() == new_selector_model(selector_type),
    {
        let res = MinecraftSelector {
            selector_type,
            name: None,
            distance: None,
            level: None,
            x: None,
            y: None,
            z: None,
            dx: None,
            dy: None,
            dz: None,
            x_rotation: None,
            y_rotation: None,
            limit: None,
            sort: None,
            gamemode: None,
            team: None,
            entity_type: None,
            tags: Vec::new(),
            nbts: Vec::new(),
            scores: Vec::new(),
            advancements: Vec::new(),
            predicates: Vec::new(),
        };
        proof {
            assert(res.model().tags =~= seq![]);
            assert(res.model().nbts =~= seq![]);
            assert(res.model().scores =~= seq![]);
            assert(res.model().advancements =~= seq![]);
            assert(res.model().predicates =~= seq![]);
        }
        res
    }

    /// Reads the value of the option `key` at the start of `string` into this selector, and
    /// returns the rest of `string`.
    pub fn parse_option_value(&mut self, key: &str, string: &'l str) -> (res: Result<&'l str, String>)
        requires
            distinct_keys(old(self).model().scores),
            distinct_keys(old(self).model().advancements),
        ensures
            match option_spec(old(self).model(), key.spec_bytes(), string.spec_bytes()) {
                Ok((m, r)) => res matches Ok(x) && final(self).model() == m && x.spec_bytes() == r
                    && is_suffix(r, string.spec_bytes()),
                Err(m) => res matches Err(e) && e@ == m,
            },
            distinct_keys(final(self).model().scores),
            distinct_keys(final(self).model().advancements),
    {
        proof {
            reveal(option_spec);
        }
        if str_eq(key, "name") {
            let (name, rest) = InvertableString::parse_possibly_quoted(string)?;
            self.name = Some(name);
            Ok(rest)
        } else if str_eq(key, "distance") {
            let (distance, rest) = parse_decimal_range_prefix(string)?;
            self.distance = Some(distance);
            Ok(rest)
        } else if str_eq(key, "level") {
            let (level, rest) = parse_int_range_prefix(string)?;
            self.level = Some(level);
            Ok(rest)
        } else if str_eq(key, "x") {
            let (x, rest) = parse_double_prefix(string)?;
            self.x = Some(x);
            Ok(rest)
        } else if str_eq(key, "y") {
            let (y, rest) = parse_double_prefix(string)?;
            self.y = Some(y);
            Ok(rest)
        } else if str_eq(key, "z") {
            let (z, rest) = parse_double_prefix(string)?;
            self.z = Some(z);
            Ok(rest)
        } else if str_eq(key, "dx") {
            let (dx, rest) = parse_double_prefix(string)?;
            self.dx = Some(dx);
            Ok(rest)
        } else if str_eq(key, "dy") {
            let (dy, rest) = parse_double_prefix(string)?;
            self.dy = Some(dy);
            Ok(rest)
        } else if str_eq(key, "dz") {
            let (dz, rest) = parse_double_prefix(string)?;
            self.dz = Some(dz);
            Ok(rest)
        } else if str_eq(key, "x_rotation") {
            let (x_rotation, rest) = parse_decimal_range_prefix(string)?;
            self.x_rotation = Some(x_rotation);
            Ok(rest)
        } else if str_eq(key, "y_rotation") {
            let (y_rotation, rest) = parse_decimal_range_prefix(string)?;
            self.y_rotation = Some(y_rotation);
            Ok(rest)
        } else if str_eq(key, "limit") {
            let (limit, rest) = parse_integer_prefix(string)?;
            self.limit = Some(limit);
            Ok(rest)
        } else if str_eq(key, "sort") {
            let (sort, rest) = parse_unquoted_prefix(string);
            self.sort = Some(sort);
            Ok(rest)
        } else if str_eq(key, "gamemode") {
            let (gamemode, rest) = InvertableString::parse_unquoted(string);
            self.gamemode = Some(gamemode);
            Ok(rest)
        } else if str_eq(key, "team") {
            let (team, rest) = InvertableString::parse_unquoted(string);
            self.team = Some(team);
            Ok(rest)
        } else if str_eq(key, "type") {
            let (entity_type, rest) = EntityType::parse(string)?;
            self.entity_type = Some(entity_type);
            Ok(rest)
        } else if str_eq(key, "tag") {
            let (tag, rest) = InvertableString::parse_unquoted(string);
            let ghost old_tags = self.model().tags;
            self.tags.push(tag);
            proof {
                assert(self.model().tags =~= old_tags.push(invertable_model(tag)));
            }
            Ok(rest)
        } else if str_eq(key, "nbt") {
            let (nbt, rest) = InvertableCompoundNbt::parse(string)?;
            let ghost old_nbts = self.model().nbts;
            let ghost v = (nbt.inverted, nbt.nbt.model());
            self.nbts.push(nbt);
            proof {
                assert(self.model().nbts =~= old_nbts.push(v));
            }
            Ok(rest)
        } else if str_eq(key, "scores") {
            let (scores, rest) = parse_scores(string)?;
            self.scores = scores;
            Ok(rest)
        } else if str_eq(key, "advancements") {
            let (advancements, rest) = parse_advancements(string)?;
            self.advancements = advancements;
            Ok(rest)
        } else if str_eq(key, "predicate") {
            let (predicate, rest) = InvertablePredicate::parse(string)?;
            let ghost old_predicates = self.model().predicates;
            let ghost v = (predicate.inverted, location_model(predicate.predicate));
            self.predicates.push(predicate);
            proof {
                assert(self.model().predicates =~= old_predicates.push(v));
            }
            Ok(rest)
        } else {
            Ok(skip_unknown_option(string))
        }
    }
}

/// The options of a selector from `t` on, read into `sel`, and where they end.
pub open spec fn options_loop_spec(t: Seq<u8>, sel: SelectorModel) -> Result<(SelectorModel, Seq<u8>), Seq<char>>
    decreases t.len(),
{
    if t.len() == 0 || t[0] == ']' as u8 {
        Ok((sel, t))
    } else {
        match quoted_prefix_spec(t) {
            Err(m) => Err(m),
            Ok((key, r1)) => match strip_byte(trimmed(r1), '=' as u8) {
                None => Err(expect_message('=')),
                Some(r2) => match option_spec(sel, key, trimmed(r2)) {
                    Err(m) => Err(m),
                    Ok((sel2, r3)) => {
                        let r4 = trimmed(r3);
                        match strip_byte(r4, ',' as u8) {
                            None => Ok((sel2, r4)),
                            Some(r5) => if trimmed(r5).len() < t.len() {
                                options_loop_spec(trimmed(r5), sel2)
                            } else {
                                Err(expect_message('='))
                            },
                        }
                    },
                },
            },
        }
    }
}

/// The target selector at the start of `t` and what follows it.
pub open spec fn selector_spec(t: Seq<u8>) -> Result<(SelectorModel, Seq<u8>), SelectorErrorModel> {
    match strip_byte(t, '@' as u8) {
        None => Err(SelectorErrorModel::Other("Invalid selector "@ + text(t))),
        Some(s) => match selector_type_spec(s) {
            Err(e) => Err(e),
            Ok((selector_type, r)) => match strip_byte(r, '[' as u8) {
                None => Ok((new_selector_model(selector_type), r)),
                Some(r2) => match options_loop_spec(trimmed(r2), new_selector_model(selector_type)) {
                    Err(m) => Err(SelectorErrorModel::Other(m)),
                    Ok((sel, r3)) => match strip_byte(r3, ']' as u8) {
                        None => Err(SelectorErrorModel::Other(expect_message(']'))),
                        Some(r4) => Ok((sel, r4)),
                    },
                },
            },
        },
    }
}

impl<'l> MinecraftSelector<'l> {
    /// Reads the options from `string` on into this selector, up to the first `]` or the end,
    /// and returns where they end.
    #[verifier::loop_isolation(false)]
    fn parse_options(&mut self, string: &'l str) -> (res: Result<&'l str, String>)
        requires
            distinct_keys(old(self).model().scores),
            distinct_keys(old(self).model().advancements),
        ensures
            match options_loop_spec(string.spec_bytes(), old(self).model()) {
                Ok((m, r)) => res matches Ok(x) && final(self).model() == m && x.spec_bytes() == r
                    && is_suffix(r, string.spec_bytes()),
                Err(m) => res matches Err(e) && e@ == m,
            },
    {
        let ghost t = string.spec_bytes();
        let ghost total = options_loop_spec(t, self.model());
        let mut suffix = string;
        proof {
            lemma_after_suffix(t, 0);
        }
        while byte_len(suffix) != 0 && !starts_with_ascii(suffix, ']')
            invariant
                options_loop_spec(suffix.spec_bytes(), self.model()) == total,
                distinct_keys(self.model().scores),
                distinct_keys(self.model().advancements),
                is_suffix(suffix.spec_bytes(), t),
            decreases suffix.spec_bytes().len(),
        {
            let ghost before = suffix.spec_bytes();
            let (key, r1) = parse_possibly_quoted_prefix(suffix)?;
            let r1t = trim(r1);
            let r2 = expect_ascii(r1t, '=')?;
            let r2t = trim(r2);
            let r3 = self.parse_option_value(key, r2t)?;
            let r4 = trim(r3);
            proof {
                lemma_suffix_trans(r1t.spec_bytes(), r1.spec_bytes(), before);
                lemma_suffix_trans(r2.spec_bytes(), r1t.spec_bytes(), before);
                lemma_suffix_trans(r2t.spec_bytes(), r2.spec_bytes(), before);
                lemma_suffix_trans(r3.spec_bytes(), r2t.spec_bytes(), before);
                lemma_suffix_trans(r4.spec_bytes(), r3.spec_bytes(), before);
                lemma_suffix_trans(r4.spec_bytes(), before, t);
            }
            match strip_ascii(r4, ',') {
                None => {
                    suffix = r4;
                    break;
                },
                Some(r5) => {
                    let r6 = trim(r5);
                    proof {
                        lemma_suffix_trans(r6.spec_bytes(), r5.spec_bytes(), r4.spec_bytes());
                        lemma_suffix_trans(r6.spec_bytes(), r4.spec_bytes(), t);
                    }
                    suffix = r6;
                },
            }
        }
        Ok(suffix)
    }

    /// The target selector at the start of `string`, and the rest of `string`.
    #[verifier::spinoff_prover]
    pub fn parse_rest(string: &'l str) -> (res: Result<(Self, &'l str), MinecraftSelectorParserError>)
        ensures
            match selector_spec(string.spec_bytes()) {
                Ok((m, r)) => res matches Ok((x, y)) && x.model() == m && y.spec_bytes() == r
                    && is_suffix(r, string.spec_bytes()) && r.len() < string.spec_bytes().len(),
                Err(e) => res matches Err(x) && x.model() == e,
            },
    {
        let ghost t = string.spec_bytes();
        let s = match strip_ascii(string, '@') {
            Some(s) => s,
            None => {
                let mut e = String::from_str("Invalid selector ");
                e.append(string);
                proof {
                    lemma_view_text(string);
                }
                return Err(MinecraftSelectorParserError::Other(e));
            },
        };
        let selector_type = match MinecraftSelectorType::parse(s) {
            Ok((selector_type, _)) => selector_type,
            Err(e) => return Err(e),
        };
        proof {
            crate::text::lemma_splittable_after_ascii(s, 1);
        }
        let r = crate::text::skip_suffix(s, 1);
        proof {
            lemma_suffix_trans(r.spec_bytes(), s.spec_bytes(), t);
            assert(r.spec_bytes().len() < t.len());
        }
        let mut selector = MinecraftSelector::new(selector_type);
        let r2 = match strip_ascii(r, '[') {
            None => return Ok((selector, r)),
            Some(r2) => r2,
        };
        let suffix = trim(r2);
        proof {
            lemma_suffix_trans(r2.spec_bytes(), r.spec_bytes(), t);
            lemma_suffix_trans(suffix.spec_bytes(), r2.spec_bytes(), t);
        }
        let r3 = match selector.parse_options(suffix) {
            Ok(r3) => r3,
            Err(e) => return Err(MinecraftSelectorParserError::Other(e)),
        };
        match expect_ascii(r3, ']') {
            Ok(rest) => {
                proof {
                    lemma_suffix_trans(r3.spec_bytes(), suffix.spec_bytes(), t);
                    lemma_suffix_trans(rest.spec_bytes(), r3.spec_bytes(), t);
                }
                Ok((selector, rest))
            },
            Err(e) => Err(MinecraftSelectorParserError::Other(e)),
        }
    }

    /// The target selector at the start of `string` and its length in bytes.
    pub fn parse(string: &'l str) -> (res: Result<(Self, usize), MinecraftSelectorParserError>)
        ensures
            match selector_spec(string.spec_bytes()) {
                Ok((m, r)) => res matches Ok((x, n)) && x.model() == m && n
                    == string.spec_bytes().len() - r.len(),
                Err(e) => res matches Err(x) && x.model() == e,
            },
    {
        match Self::parse_rest(string) {
            Ok((selector, rest)) => Ok((selector, byte_len(string) - byte_len(rest))),
            Err(e) => Err(e),
        }
    }
}

/// The value of an entity argument.
pub enum EntityModel {
    Selector(SelectorModel),
    PlayerNameOrUuid(Seq<u8>),
}

impl<'l> MinecraftEntity<'l> {
    /// The value of this entity argument.
    pub open spec fn model(&self) -> EntityModel {
        match self {
            MinecraftEntity::Selector(s) => EntityModel::Selector(s.model()),
            MinecraftEntity::PlayerNameOrUuid(n) => EntityModel::PlayerNameOrUuid(n.spec_bytes()),
        }
    }
}

/// The entity at the start of `t` and what follows it.
pub open spec fn entity_spec(t: Seq<u8>) -> Result<(EntityModel, Seq<u8>), Seq<char>> {
    if t.len() > 0 && t[0] == '@' as u8 {
        match selector_spec(t) {
            Ok((s, r)) => Ok((EntityModel::Selector(s), r)),
            Err(e) => Err(selector_error_message(e)),
        }
    } else {
        match quoted_prefix_spec(t) {
            Ok((v, r)) => Ok((EntityModel::PlayerNameOrUuid(v), r)),
            Err(m) => Err(m),
        }
    }
}

impl<'l> MinecraftEntity<'l> {
    /// The entity at the start of `string`, and the rest of `string`.
    pub fn parse_rest(string: &'l str) -> (res: Result<(Self, &'l str), String>)
        ensures
            match entity_spec(string.spec_bytes()) {
                Ok((m, r)) => res matches Ok((x, y)) && x.model() == m && y.spec_bytes() == r
                    && is_suffix(r, string.spec_bytes()),
                Err(m) => res matches Err(e) && e@ == m,
            },
    {
        if starts_with_ascii(string, '@') {
            match MinecraftSelector::parse_rest(string) {
                Ok((selector, rest)) => Ok((MinecraftEntity::Selector(selector), rest)),
                Err(e) => Err(e.to_string()),
            }
        } else {
            match parse_possibly_quoted_prefix(string) {
                Ok((name, rest)) => Ok((MinecraftEntity::PlayerNameOrUuid(name), rest)),
                Err(e) => Err(e),
            }
        }
    }

    /// The entity at the start of `string` and its length in bytes.
    pub fn parse(string: &'l str) -> (res: Result<(Self, usize), String>)
        ensures
            match entity_spec(string.spec_bytes()) {
                Ok((m, r)) => res matches Ok((x, n)) && x.model() == m && n
                    == string.spec_bytes().len() - r.len(),
                Err(m) => res matches Err(e) && e@ == m,
            },
    {
        match Self::parse_rest(string) {
            Ok((entity, rest)) => Ok((entity, byte_len(string) - byte_len(rest))),
            Err(e) => Err(e),
        }
    }
}

} // verus!
