//! Classification of the lines of `*.mcfunction` files.

pub mod command;
pub mod commands;

use crate::parser::command::argument::minecraft::coordinate::Vec3Model;
use crate::parser::command::argument::minecraft::entity::EntityModel;
use crate::parser::command::argument::{
    Argument, ArgumentModel, MinecraftEntityAnchor, MinecraftScoreHolder, MinecraftTime,
    ScoreHolderModel, TimeModel,
};
use crate::parser::command::resource_location::{
    location_model, try_from_spec, ResourceLocation, ResourceLocationRef,
};
use crate::parser::command::{
    nodes_model, specs_spec, CommandParser, CommandParserError, CommandParserResult, ParsedNode,
    ParsedNodeModel, ResultModel,
};
use crate::sorted::{
    increasing, insert_offset, insert_string, strings_increasing, strings_model,
};
use crate::text::{str_eq, string_bytes, to_string, trim_both, trimmed_both};
use vstd::prelude::*;
use vstd::string::*;

verus! {

/// What a line of a function file is.
#[derive(Debug, PartialEq)]
pub enum Line<'l> {
    /// A line with nothing but whitespace.
    Empty,
    /// A comment.
    Comment,
    /// A `# breakpoint` comment, where breakpoint comments are recognized.
    Breakpoint,
    /// A command that calls a function, at `column_index`.
    FunctionCall {
        column_index: usize,
        name: ResourceLocation,
        anchor: Option<MinecraftEntityAnchor>,
        selectors: Vec<usize>,
        objectives: Vec<String>,
    },
    /// A command whose selector may be left out, which would be inserted at `missing_selector`.
    OptionalSelectorCommand { missing_selector: usize, selectors: Vec<usize>, objectives: Vec<String> },
    /// A command that schedules a function, starting at `schedule_start`.
    Schedule {
        schedule_start: usize,
        function: ResourceLocation,
        operation: ScheduleOperation<'l>,
        selectors: Vec<usize>,
        objectives: Vec<String>,
    },
    /// Any other command.
    OtherCommand { selectors: Vec<usize>, objectives: Vec<String> },
}

/// What a `schedule` command does.
#[derive(Debug, PartialEq)]
pub enum ScheduleOperation<'l> {
    APPEND { time: MinecraftTime<'l> },
    CLEAR,
    REPLACE { time: MinecraftTime<'l> },
}

/// The value of a schedule operation.
pub enum ScheduleModel {
    Append(TimeModel),
    Clear,
    Replace(TimeModel),
}

/// The kind of a line and its values, apart from its selectors and objectives.
pub enum LineModel {
    Empty,
    Comment,
    Breakpoint,
    FunctionCall(int, (Seq<u8>, usize), Option<MinecraftEntityAnchor>),
    OptionalSelectorCommand(int),
    Schedule(int, (Seq<u8>, usize), ScheduleModel),
    OtherCommand,
}

impl<'l> ScheduleOperation<'l> {
    /// The value of this operation.
    pub open spec fn model(&self) -> ScheduleModel {
        match self {
            ScheduleOperation::APPEND { time } => ScheduleModel::Append(
                (time.time.spec_bytes(), time.unit),
            ),
            ScheduleOperation::CLEAR => ScheduleModel::Clear,
            ScheduleOperation::REPLACE { time } => ScheduleModel::Replace(
                (time.time.spec_bytes(), time.unit),
            ),
        }
    }
}

impl<'l> Line<'l> {
    /// The kind of this line and its values, apart from its selectors and objectives.
    pub open spec fn model(&self) -> LineModel {
        match self {
            Line::Empty => LineModel::Empty,
            Line::Comment => LineModel::Comment,
            Line::Breakpoint => LineModel::Breakpoint,
            Line::FunctionCall { column_index, name, anchor, .. } => LineModel::FunctionCall(
                *column_index as int,
                location_model(*name),
                *anchor,
            ),
            Line::OptionalSelectorCommand { missing_selector, .. } => LineModel::OptionalSelectorCommand(
                *missing_selector as int,
            ),
            Line::Schedule { schedule_start, function, operation, .. } => LineModel::Schedule(
                *schedule_start as int,
                location_model(*function),
                operation.model(),
            ),
            Line::OtherCommand { .. } => LineModel::OtherCommand,
        }
    }

    /// The offsets of the selectors of a command line.
    pub open spec fn selectors_of(&self) -> Seq<usize> {
        match self {
            Line::FunctionCall { selectors, .. } => selectors@,
            Line::OptionalSelectorCommand { selectors, .. } => selectors@,
            Line::Schedule { selectors, .. } => selectors@,
            Line::OtherCommand { selectors, .. } => selectors@,
            _ => seq![],
        }
    }

    /// The objectives of a command line.
    pub open spec fn objectives_of(&self) -> Seq<String> {
        match self {
            Line::FunctionCall { objectives, .. } => objectives@,
            Line::OptionalSelectorCommand { objectives, .. } => objectives@,
            Line::Schedule { objectives, .. } => objectives@,
            Line::OtherCommand { objectives, .. } => objectives@,
            _ => seq![],
        }
    }

    /// The objectives that a command line names; `None` for other lines.
    pub fn objectives(&self) -> (res: Option<&Vec<String>>)
        ensures
            match self {
                Line::Empty | Line::Comment | Line::Breakpoint => res is None,
                _ => res matches Some(o) && o@ == self.objectives_of(),
            },
    {
        match self {
            Line::FunctionCall { objectives, .. } => Some(objectives),
            Line::OptionalSelectorCommand { objectives, .. } => Some(objectives),
            Line::Schedule { objectives, .. } => Some(objectives),
            Line::OtherCommand { objectives, .. } => Some(objectives),
            _ => None,
        }
    }
}

/// Whether node `n` holds a selector at offset `i` of the command.
pub open spec fn node_selector(n: ParsedNodeModel, i: int) -> bool {
    match n {
        ParsedNodeModel::Argument(_, a, idx, _) => match a {
            ArgumentModel::MinecraftEntity(_) => i == idx,
            ArgumentModel::MinecraftScoreHolder(ScoreHolderModel::Selector(_)) => i == idx,
            ArgumentModel::MinecraftMessage(_, sels) => in_message(sels, sels.len() as int, idx, i),
            _ => false,
        },
        _ => false,
    }
}

/// Whether one of the first `n` selectors of a message at offset `idx` starts at offset `i`.
pub open spec fn in_message(sels: Seq<(crate::parser::command::argument::minecraft::entity::SelectorModel, int, int)>, n: int, idx: int, i: int) -> bool {
    exists|j: int| 0 <= j < n && i == idx + #[trigger] sels[j].1 && i <= usize::MAX
}

/// Whether one of the first `k` nodes holds a selector at offset `i`.
pub open spec fn selector_before(nodes: Seq<ParsedNodeModel>, k: int, i: int) -> bool {
    exists|m: int| 0 <= m < k && #[trigger] node_selector(nodes[m], i)
}

/// A literal node with the text `word`.
pub open spec fn is_literal(n: ParsedNodeModel, word: &str) -> bool {
    n matches ParsedNodeModel::Literal(l, _) && l == word.spec_bytes()
}

/// The objective that the nodes name at position `k`, if any.
pub open spec fn objective_at(nodes: Seq<ParsedNodeModel>, k: int) -> Option<Seq<u8>> {
    if (nodes[k] is Argument && nodes[k]->Argument_1 is MinecraftObjective) {
        Some(nodes[k]->Argument_1->MinecraftObjective_0)
    } else if k + 3 < nodes.len() && is_literal(nodes[k], "scoreboard") && is_literal(
        nodes[k + 1],
        "objectives",
    ) && is_literal(nodes[k + 2], "add") && (nodes[k + 3] is Argument && nodes[k + 3]->Argument_1 is BrigadierString) {
        Some(nodes[k + 3]->Argument_1->BrigadierString_0)
    } else {
        None
    }
}

/// Whether one of the first `k` positions of the nodes names the objective `o`.
pub open spec fn objective_before(nodes: Seq<ParsedNodeModel>, k: int, o: Seq<u8>) -> bool {
    exists|m: int| 0 <= m < k && #[trigger] objective_at(nodes, m) == Some(o)
}

/// The anchor that an `execute anchored` at position `k` of the nodes sets, if any.
pub open spec fn anchor_at(nodes: Seq<ParsedNodeModel>, k: int) -> Option<MinecraftEntityAnchor> {
    if k + 2 < nodes.len() && (is_literal(nodes[k], "execute") || nodes[k]
        == ParsedNodeModel::Redirect("execute".spec_bytes())) && is_literal(nodes[k + 1], "anchored")
        && (nodes[k + 2] is Argument && nodes[k + 2]->Argument_1 is MinecraftEntityAnchor) {
        Some(nodes[k + 2]->Argument_1->MinecraftEntityAnchor_0)
    } else {
        None
    }
}

/// The anchor of the last `execute anchored` among the first `k` positions of the nodes.
pub open spec fn last_anchor(nodes: Seq<ParsedNodeModel>, k: int) -> Option<MinecraftEntityAnchor>
    decreases k,
{
    if k <= 0 {
        None
    } else {
        match anchor_at(nodes, k - 1) {
            Some(a) => Some(a),
            None => last_anchor(nodes, k - 1),
        }
    }
}

/// The offset and the function of a function call that the nodes end with.
pub open spec fn function_call_spec(nodes: Seq<ParsedNodeModel>) -> Option<(int, (Seq<u8>, usize))> {
    let n = nodes.len() as int;
    if n >= 2 && is_literal(nodes[n - 2], "function") && (nodes[n - 1] is Argument && nodes[n - 1]->Argument_1 is MinecraftFunction) {
        Some((nodes[n - 2]->Literal_1, nodes[n - 1]->Argument_1->MinecraftFunction_0))
    } else {
        None
    }
}

/// The schedule command that starts at position `k` of the nodes, if any.
pub open spec fn schedule_at(nodes: Seq<ParsedNodeModel>, k: int) -> Option<(int, (Seq<u8>, usize), ScheduleModel)> {
    let n = nodes.len() as int;
    if k + 4 <= n && is_literal(nodes[k], "schedule") && is_literal(nodes[k + 1], "function")
        && (nodes[k + 2] is Argument && nodes[k + 2]->Argument_1 is MinecraftFunction)
        && (nodes[k + 3] is Argument && nodes[k + 3]->Argument_1 is MinecraftTime) {
        let start = nodes[k]->Literal_1;
        let f = nodes[k + 2]->Argument_1->MinecraftFunction_0;
        let t = nodes[k + 3]->Argument_1->MinecraftTime_0;
        if k + 4 == n {
            Some((start, f, ScheduleModel::Replace(t)))
        } else if k + 5 == n && is_literal(nodes[k + 4], "append") {
            Some((start, f, ScheduleModel::Append(t)))
        } else if k + 5 == n && is_literal(nodes[k + 4], "replace") {
            Some((start, f, ScheduleModel::Replace(t)))
        } else {
            None
        }
    } else if k + 3 == n && is_literal(nodes[k], "schedule") && is_literal(nodes[k + 1], "clear")
        && (nodes[k + 2] is Argument && nodes[k + 2]->Argument_1 is BrigadierString) {
        let s = nodes[k + 2]->Argument_1->BrigadierString_0;
        match try_from_spec(s) {
            Ok(ns) => Some((nodes[k]->Literal_1, (s, ns), ScheduleModel::Clear)),
            Err(_) => None,
        }
    } else {
        None
    }
}

/// The first schedule command among the positions from `k` on.
pub open spec fn schedule_from(nodes: Seq<ParsedNodeModel>, k: int) -> Option<(int, (Seq<u8>, usize), ScheduleModel)>
    decreases nodes.len() - k,
{
    if k < 0 || k >= nodes.len() {
        None
    } else {
        match schedule_at(nodes, k) {
            Some(s) => Some(s),
            None => schedule_from(nodes, k + 1),
        }
    }
}

/// Where a left out selector would go in a command that ends with the nodes.
pub open spec fn missing_selector_spec(nodes: Seq<ParsedNodeModel>) -> Option<int> {
    let n = nodes.len() as int;
    if n >= 1 && is_literal(nodes[n - 1], "kill") {
        let i = nodes[n - 1]->Literal_1 + 4;
        if i <= usize::MAX {
            Some(i)
        } else {
            None
        }
    } else if n >= 3 && is_literal(nodes[n - 3], "team") && is_literal(nodes[n - 2], "join")
        && (nodes[n - 1] is Argument && nodes[n - 1]->Argument_1 is MinecraftTeam) {
        let i = nodes[n - 1]->Argument_2 + nodes[n - 1]->Argument_3;
        if i <= usize::MAX {
            Some(i)
        } else {
            None
        }
    } else if n >= 2 && (nodes[n - 2] == ParsedNodeModel::Redirect("teleport".spec_bytes())
        || is_literal(nodes[n - 2], "teleport")) && (((nodes[n - 1] is Argument && nodes[n - 1]->Argument_1 is MinecraftEntity) && nodes[n - 1]->Argument_0 == "destination".spec_bytes()) || ((nodes[n - 1] is Argument && nodes[n - 1]->Argument_1 is MinecraftVec3) && nodes[n - 1]->Argument_0 == "location".spec_bytes())) {
        let i = nodes[n - 1]->Argument_2 - 1;
        if i >= 0 {
            Some(i)
        } else {
            None
        }
    } else {
        None
    }
}

/// The kind of the line with the command that gave the parse result `r`.
pub open spec fn command_line_spec(r: ResultModel) -> LineModel {
    let nodes = r.nodes;
    if r.error is None && function_call_spec(nodes) is Some {
        let (c, f) = function_call_spec(nodes)->Some_0;
        LineModel::FunctionCall(c, f, last_anchor(nodes, nodes.len() as int))
    } else if r.error is None && schedule_from(nodes, 0) is Some {
        let (s, f, o) = schedule_from(nodes, 0)->Some_0;
        LineModel::Schedule(s, f, o)
    } else if r.error is None && missing_selector_spec(nodes) is Some {
        LineModel::OptionalSelectorCommand(missing_selector_spec(nodes)->Some_0)
    } else {
        LineModel::OtherCommand
    }
}

/// The selectors and objectives of a command line are those its nodes name, in order and each
/// once.
pub open spec fn names_of(line: Line, nodes: Seq<ParsedNodeModel>) -> bool {
    &&& increasing(line.selectors_of())
    &&& forall|i: usize| #[trigger] line.selectors_of().contains(i) <==> selector_before(
        nodes,
        nodes.len() as int,
        i as int,
    )
    &&& strings_increasing(strings_model(line.objectives_of()))
    &&& forall|o: Seq<u8>| #[trigger] strings_model(line.objectives_of()).contains(o)
        <==> objective_before(nodes, nodes.len() as int, o)
}

/// Whether node `n` is a literal with the text `word`.
fn literal_is(n: &ParsedNode, word: &str) -> (res: bool)
    ensures
        res == is_literal(n.model(), word),
{
    match n {
        ParsedNode::Literal { literal, .. } => str_eq(literal, word),
        _ => false,
    }
}

/// The offset and the function of a function call that the nodes end with.
fn as_function_call(nodes: &[ParsedNode]) -> (res: Option<(usize, ResourceLocation)>)
    ensures
        match function_call_spec(nodes_model(nodes@)) {
            Some((c, f)) => res matches Some((x, y)) && x == c && location_model(y) == f,
            None => res is None,
        },
{
    let n = nodes.len();
    if n >= 2 && literal_is(&nodes[n - 2], "function") {
        if let ParsedNode::Literal { index, .. } = &nodes[n - 2] {
            if let ParsedNode::Argument { argument: Argument::MinecraftFunction(function), .. } = &nodes[n - 1] {
                return Some((*index, function.to_owned()));
            }
        }
    }
    None
}

/// The schedule command that starts at position `k` of the nodes, if any.
fn schedule_at_exec<'l>(nodes: &[ParsedNode<'l>], k: usize) -> (res: Option<(usize, ResourceLocation, ScheduleOperation<'l>)>)
    requires
        k < nodes@.len(),
    ensures
        match schedule_at(nodes_model(nodes@), k as int) {
            Some((s, f, o)) => res matches Some((x, y, z)) && x == s && location_model(y) == f
                && z.model() == o,
            None => res is None,
        },
{
    let n = nodes.len();
    if !literal_is(&nodes[k], "schedule") {
        return None;
    }
    let start = match &nodes[k] {
        ParsedNode::Literal { index, .. } => *index,
        _ => return None,
    };
    if n - k >= 4 && literal_is(&nodes[k + 1], "function") {
        if let ParsedNode::Argument { argument: Argument::MinecraftFunction(function), .. } = &nodes[k + 2] {
            if let ParsedNode::Argument { argument: Argument::MinecraftTime(time), .. } = &nodes[k + 3] {
                if n - k == 4 {
                    return Some((start, function.to_owned(), ScheduleOperation::REPLACE { time: *time }));
                } else if n - k == 5 && literal_is(&nodes[k + 4], "append") {
                    return Some((start, function.to_owned(), ScheduleOperation::APPEND { time: *time }));
                } else if n - k == 5 && literal_is(&nodes[k + 4], "replace") {
                    return Some((start, function.to_owned(), ScheduleOperation::REPLACE { time: *time }));
                } else {
                    return None;
                }
            }
        }
    }
    if n - k == 3 && literal_is(&nodes[k + 1], "clear") {
        if let ParsedNode::Argument { argument: Argument::BrigadierString(string), .. } = &nodes[k + 2] {
            match ResourceLocationRef::try_from(*string) {
                Ok(function) => {
                    return Some((start, function.to_owned(), ScheduleOperation::CLEAR));
                },
                Err(_) => {
                    return None;
                },
            }
        }
    }
    None
}

/// The first schedule command among the nodes.
fn as_schedule<'l>(nodes: &[ParsedNode<'l>]) -> (res: Option<(usize, ResourceLocation, ScheduleOperation<'l>)>)
    ensures
        match schedule_from(nodes_model(nodes@), 0) {
            Some((s, f, o)) => res matches Some((x, y, z)) && x == s && location_model(y) == f
                && z.model() == o,
            None => res is None,
        },
{
    let ghost m = nodes_model(nodes@);
    let mut k: usize = 0;
    while k < nodes.len()
        invariant
            m == nodes_model(nodes@),
            k <= nodes@.len(),
            schedule_from(m, k as int) == schedule_from(m, 0),
        decreases nodes@.len() - k,
    {
        let found = schedule_at_exec(nodes, k);
        if found.is_some() {
            return found;
        }
        k = k + 1;
    }
    None
}

/// Where a left out selector would go in a command that ends with the nodes.
fn find_missing_selector(nodes: &[ParsedNode]) -> (res: Option<usize>)
    ensures
        match missing_selector_spec(nodes_model(nodes@)) {
            Some(i) => res == Some(i as usize),
            None => res is None,
        },
        nodes@.len() >= 1 ==> ({
            let last = nodes_model(nodes@)[nodes@.len() - 1];
            let i = last->Literal_1;
            (last is Literal && last->Literal_0 == "kill".spec_bytes()) ==> res == (if i + 4
                <= usize::MAX {
                Some((i + 4) as usize)
            } else {
                None
            })
        }),
{
    let n = nodes.len();
    if n >= 1 && literal_is(&nodes[n - 1], "kill") {
        if let ParsedNode::Literal { index, .. } = &nodes[n - 1] {
            proof {
                reveal_strlit("kill");
            }
            return index.checked_add(4);
        }
    }
    if n >= 3 && literal_is(&nodes[n - 3], "team") && literal_is(&nodes[n - 2], "join") {
        if let ParsedNode::Argument { argument: Argument::MinecraftTeam(_), index, len, .. } = &nodes[n - 1] {
            return index.checked_add(*len);
        }
    }
    if n >= 2 {
        let teleport = match &nodes[n - 2] {
            ParsedNode::Redirect(r) => str_eq(r, "teleport"),
            ParsedNode::Literal { literal, .. } => str_eq(literal, "teleport"),
            _ => false,
        };
        if teleport {
            if let ParsedNode::Argument { name, argument, index, .. } = &nodes[n - 1] {
                let target = match argument {
                    Argument::MinecraftEntity(_) => str_eq(name, "destination"),
                    Argument::MinecraftVec3(_) => str_eq(name, "location"),
                    _ => false,
                };
                if target {
                    return index.checked_sub(1);
                }
            }
        }
    }
    None
}

/// The objective that the nodes name at position `k`, if any.
fn objective_at_exec<'l>(nodes: &[ParsedNode<'l>], k: usize) -> (res: Option<&'l str>)
    requires
        k < nodes@.len(),
    ensures
        match objective_at(nodes_model(nodes@), k as int) {
            Some(o) => res matches Some(x) && x.spec_bytes() == o,
            None => res is None,
        },
{
    if let ParsedNode::Argument { argument: Argument::MinecraftObjective(objective), .. } = &nodes[k] {
        return Some(*objective);
    }
    if nodes.len() - k > 3 && literal_is(&nodes[k], "scoreboard") && literal_is(&nodes[k + 1], "objectives")
        && literal_is(&nodes[k + 2], "add") {
        if let ParsedNode::Argument { argument: Argument::BrigadierString(objective), .. } = &nodes[k + 3] {
            return Some(*objective);
        }
    }
    None
}

/// The anchor that an `execute anchored` at position `k` of the nodes sets, if any.
fn anchor_at_exec(nodes: &[ParsedNode], k: usize) -> (res: Option<MinecraftEntityAnchor>)
    requires
        k < nodes@.len(),
    ensures
        res == anchor_at(nodes_model(nodes@), k as int),
{
    if nodes.len() - k <= 2 {
        return None;
    }
    let execute = match &nodes[k] {
        ParsedNode::Redirect(r) => str_eq(r, "execute"),
        ParsedNode::Literal { literal, .. } => str_eq(literal, "execute"),
        _ => false,
    };
    if execute && literal_is(&nodes[k + 1], "anchored") {
        if let ParsedNode::Argument { argument: Argument::MinecraftEntityAnchor(anchor), .. } = &nodes[k + 2] {
            return Some(*anchor);
        }
    }
    None
}

/// Adds the selectors that node `k` holds to `selectors`.
fn add_selectors(nodes: &[ParsedNode], k: usize, selectors: &mut Vec<usize>)
    requires
        k < nodes@.len(),
        increasing(old(selectors)@),
    ensures
        increasing(final(selectors)@),
        forall|i: usize| #[trigger] final(selectors)@.contains(i) <==> (old(selectors)@.contains(i)
            || node_selector(nodes_model(nodes@)[k as int], i as int)),
{
    let ghost m = nodes_model(nodes@)[k as int];
    match &nodes[k] {
        ParsedNode::Argument { argument, index, .. } => match argument {
            Argument::MinecraftEntity(_) => insert_offset(selectors, *index),
            Argument::MinecraftScoreHolder(MinecraftScoreHolder::Selector(_)) => insert_offset(
                selectors,
                *index,
            ),
            Argument::MinecraftMessage(message) => {
                let ghost sels = message.selectors_model();
                let ghost before = selectors@;
                let mut j: usize = 0;
                while j < message.selectors.len()
                    invariant
                        j <= message.selectors@.len(),
                        sels == message.selectors_model(),
                        increasing(selectors@),
                        forall|i: usize| #[trigger] selectors@.contains(i) <==> (before.contains(i)
                            || in_message(sels, j as int, *index as int, i as int)),
                    decreases message.selectors@.len() - j,
                {
                    let ghost old_sel = selectors@;
                    proof {
                        assert(sels[j as int].1 == message.selectors@[j as int].1);
                    }
                    match index.checked_add(message.selectors[j].1) {
                        Some(i) => {
                            insert_offset(selectors, i);
                            proof {
                                assert forall|y: usize| #[trigger] selectors@.contains(y) <==> (before.contains(y)
                                    || in_message(sels, j + 1, *index as int, y as int)) by {
                                    if y == i {
                                        assert(y == *index + sels[j as int].1);
                                    }
                                    if in_message(sels, j + 1, *index as int, y as int) {
                                        let l = choose|l: int| 0 <= l < j + 1 && y == *index + #[trigger] sels[l].1 && y <= usize::MAX;
                                        if l < j {
                                            assert(in_message(sels, j as int, *index as int, y as int));
                                        } else {
                                            assert(y == i);
                                        }
                                    }
                                    if in_message(sels, j as int, *index as int, y as int) {
                                        let l = choose|l: int| 0 <= l < j && y == *index + #[trigger] sels[l].1 && y <= usize::MAX;
                                        assert(in_message(sels, j + 1, *index as int, y as int));
                                    }
                                }
                            }
                        },
                        None => {
                            proof {
                                assert forall|y: usize| #[trigger] selectors@.contains(y) <==> (before.contains(y)
                                    || in_message(sels, j + 1, *index as int, y as int)) by {
                                    if in_message(sels, j + 1, *index as int, y as int) {
                                        let l = choose|l: int| 0 <= l < j + 1 && y == *index + #[trigger] sels[l].1 && y <= usize::MAX;
                                        if l < j {
                                            assert(in_message(sels, j as int, *index as int, y as int));
                                        }
                                    }
                                    if in_message(sels, j as int, *index as int, y as int) {
                                        let l = choose|l: int| 0 <= l < j && y == *index + #[trigger] sels[l].1 && y <= usize::MAX;
                                        assert(in_message(sels, j + 1, *index as int, y as int));
                                    }
                                }
                            }
                        },
                    }
                    j = j + 1;
                }
                proof {
                    assert(j as int == sels.len());
                    assert(m is Argument);
                    assert(m->Argument_1 == ArgumentModel::MinecraftMessage(message.message.spec_bytes(), sels));
                    assert(m->Argument_2 == *index as int);
                }
            },
            _ => {},
        },
        _ => {},
    }
}

/// The line of the command `command`, and the error that stopped its parsing, for other
/// commands.
fn parse_command<'l>(parser: &'l CommandParser, command: &'l str) -> (res: (Line<'l>, Option<CommandParserError<'l>>))
    ensures
        ({
            let r = specs_spec(parser.specs(), parser.specs(), command.spec_bytes(), 0);
            &&& res.0.model() == command_line_spec(r)
            &&& names_of(res.0, r.nodes)
            &&& res.0.model() is OtherCommand ==> (match res.1 {
                Some(e) => r.error == Some((e.message@, e.index as int)) && e.command == command,
                None => r.error is None,
            })
            &&& !(res.0.model() is OtherCommand) ==> res.1 is None
        }),
{
    let result = parser.parse(command);
    let ghost r = result.model();
    let CommandParserResult { parsed_nodes, error } = result;
    let ghost m = nodes_model(parsed_nodes@);
    let mut selectors: Vec<usize> = Vec::new();
    let mut objectives: Vec<String> = Vec::new();
    let mut maybe_anchor: Option<MinecraftEntityAnchor> = None;
    let mut k: usize = 0;
    proof {
        assert(strings_model(objectives@) =~= seq![]);
    }
    while k < parsed_nodes.len()
        invariant
            k <= parsed_nodes@.len(),
            m == nodes_model(parsed_nodes@),
            increasing(selectors@),
            forall|i: usize| #[trigger] selectors@.contains(i) <==> selector_before(m, k as int, i as int),
            strings_increasing(strings_model(objectives@)),
            forall|o: Seq<u8>| #[trigger] strings_model(objectives@).contains(o) <==> objective_before(m, k as int, o),
            maybe_anchor == last_anchor(m, k as int),
        decreases parsed_nodes@.len() - k,
    {
        let ghost old_sel = selectors@;
        add_selectors(parsed_nodes.as_slice(), k, &mut selectors);
        proof {
            assert forall|i: usize| #[trigger] selectors@.contains(i) <==> selector_before(m, k + 1, i as int) by {
                if selector_before(m, k + 1, i as int) && !node_selector(m[k as int], i as int) {
                    let l = choose|l: int| 0 <= l < k + 1 && #[trigger] node_selector(m[l], i as int);
                    assert(selector_before(m, k as int, i as int));
                }
                if node_selector(m[k as int], i as int) {
                    assert(selector_before(m, k + 1, i as int));
                }
                if old_sel.contains(i) {
                    let l = choose|l: int| 0 <= l < k && #[trigger] node_selector(m[l], i as int);
                    assert(selector_before(m, k + 1, i as int));
                }
            }
        }
        let ghost old_obj = strings_model(objectives@);
        match objective_at_exec(parsed_nodes.as_slice(), k) {
            Some(objective) => {
                insert_string(&mut objectives, to_string(objective));
            },
            None => {},
        }
        proof {
            assert forall|o: Seq<u8>| #[trigger] strings_model(objectives@).contains(o) <==> objective_before(m, k + 1, o) by {
                if objective_before(m, k + 1, o) && objective_at(m, k as int) != Some(o) {
                    let l = choose|l: int| 0 <= l < k + 1 && #[trigger] objective_at(m, l) == Some(o);
                    assert(objective_before(m, k as int, o));
                }
                if objective_at(m, k as int) == Some(o) {
                    assert(objective_before(m, k + 1, o));
                }
                if old_obj.contains(o) {
                    let l = choose|l: int| 0 <= l < k && #[trigger] objective_at(m, l) == Some(o);
                    assert(objective_before(m, k + 1, o));
                }
            }
        }
        match anchor_at_exec(parsed_nodes.as_slice(), k) {
            Some(anchor) => {
                maybe_anchor = Some(anchor);
            },
            None => {},
        }
        k = k + 1;
    }
    if error.is_none() {
        match as_function_call(parsed_nodes.as_slice()) {
            Some((column_index, name)) => {
                return (
                    Line::FunctionCall { column_index, name, anchor: maybe_anchor, selectors, objectives },
                    None,
                );
            },
            None => {},
        }
        match as_schedule(parsed_nodes.as_slice()) {
            Some((schedule_start, function, operation)) => {
                return (
                    Line::Schedule { schedule_start, function, operation, selectors, objectives },
                    None,
                );
            },
            None => {},
        }
        match find_missing_selector(parsed_nodes.as_slice()) {
            Some(missing_selector) => {
                return (Line::OptionalSelectorCommand { missing_selector, selectors, objectives }, None);
            },
            None => {},
        }
    }
    (Line::OtherCommand { selectors, objectives }, error)
}

/// What a line of a function file is, from its text without surrounding whitespace `t`;
/// `breakpoint_comments` tells whether `# breakpoint` comments are breakpoints. The kind of a
/// command line is that of `command_line_spec` for its parse result.
pub open spec fn line_kind(parser: &CommandParser, t: Seq<u8>, breakpoint_comments: bool) -> LineModel {
    if t.len() > 0 && t[0] == '#' as u8 {
        if breakpoint_comments && t == "# breakpoint".spec_bytes() {
            LineModel::Breakpoint
        } else {
            LineModel::Comment
        }
    } else if t.len() == 0 {
        LineModel::Empty
    } else {
        command_line_spec(specs_spec(parser.specs(), parser.specs(), t, 0))
    }
}

/// What the line `line` is, and the error that stopped the parsing of its command, for other
/// commands.
pub fn parse_line_internal<'l>(parser: &'l CommandParser, line: &'l str, breakpoint_comments: bool) -> (res: (
    Line<'l>,
    Option<CommandParserError<'l>>,
))
    ensures
        ({
            let t = trimmed_both(line.spec_bytes());
            let r = specs_spec(parser.specs(), parser.specs(), t, 0);
            &&& res.0.model() == line_kind(parser, t, breakpoint_comments)
            &&& (t.len() > 0 && t[0] != '#' as u8) ==> names_of(res.0, r.nodes)
            &&& match res.1 {
                Some(e) => res.0.model() is OtherCommand && r.error == Some(
                    (e.message@, e.index as int),
                ) && e.command.spec_bytes() == t,
                None => res.0.model() is OtherCommand ==> r.error is None,
            }
        }),
{
    let line = trim_both(line);
    let b = line.as_bytes();
    if b.len() > 0 && b[0] == '#' as u8 {
        if breakpoint_comments && str_eq(line, "# breakpoint") {
            (Line::Breakpoint, None)
        } else {
            (Line::Comment, None)
        }
    } else if b.len() == 0 {
        (Line::Empty, None)
    } else {
        parse_command(parser, line)
    }
}

/// What the line `line` of a function file is; `breakpoint_comments` tells whether
/// `# breakpoint` comments are breakpoints.
pub fn parse_line<'l>(parser: &'l CommandParser, line: &'l str, breakpoint_comments: bool) -> (res: Line<'l>)
    ensures
        res.model() == line_kind(parser, trimmed_both(line.spec_bytes()), breakpoint_comments),
        ({
            let t = trimmed_both(line.spec_bytes());
            (t.len() > 0 && t[0] != '#' as u8) ==> names_of(
                res,
                specs_spec(parser.specs(), parser.specs(), t, 0).nodes,
            )
        }),
{
    let (line, _error) = parse_line_internal(parser, line, breakpoint_comments);
    line
}

/// Whether the last of the nodes cannot end a schedule command: it is neither a time nor a
/// string, nor one of the literals `append` and `replace`.
spec fn ends_outside_schedule(nodes: Seq<ParsedNodeModel>) -> bool {
    let n = nodes.len() as int;
    &&& n >= 1
    &&& !(nodes[n - 1] is Argument && (nodes[n - 1]->Argument_1 is MinecraftTime
        || nodes[n - 1]->Argument_1 is BrigadierString))
    &&& !is_literal(nodes[n - 1], "append")
    &&& !is_literal(nodes[n - 1], "replace")
}

/// Nodes whose last one cannot end a schedule command hold no schedule command.
proof fn lemma_no_schedule(nodes: Seq<ParsedNodeModel>, k: int)
    requires
        ends_outside_schedule(nodes),
        0 <= k,
    ensures
        schedule_from(nodes, k) is None,
    decreases nodes.len() - k,
{
    if k < nodes.len() {
        assert(schedule_at(nodes, k) is None);
        lemma_no_schedule(nodes, k + 1);
    }
}

/// A command line that parses without error and ends with the literal `kill` at offset `i` is a
/// command whose selector may be left out; it would be inserted right after `kill`, at `i + 4`.
pub proof fn lemma_kill_line(parser: &CommandParser, t: Seq<u8>, breakpoint_comments: bool, i: int)
    requires
        t.len() > 0,
        t[0] != '#' as u8,
        ({
            let r = specs_spec(parser.specs(), parser.specs(), t, 0);
            &&& r.error is None
            &&& r.nodes.len() >= 1
            &&& r.nodes[r.nodes.len() - 1] == ParsedNodeModel::Literal("kill".spec_bytes(), i)
        }),
        i + 4 <= usize::MAX,
    ensures
        line_kind(parser, t, breakpoint_comments) == LineModel::OptionalSelectorCommand(i + 4),
{
    let r = specs_spec(parser.specs(), parser.specs(), t, 0);
    reveal_strlit("kill");
    reveal_strlit("append");
    reveal_strlit("replace");
    crate::text::lemma_ascii_text("kill");
    crate::text::lemma_ascii_text("append");
    crate::text::lemma_ascii_text("replace");
    assert(!is_literal(r.nodes[r.nodes.len() - 1], "append"));
    assert(!is_literal(r.nodes[r.nodes.len() - 1], "replace"));
    lemma_no_schedule(r.nodes, 0);
}

/// A command line that parses without error and ends with `team join` and a team taking the
/// bytes from `i` to `i + len` is a command whose selector may be left out; it would be inserted
/// right after the team, at `i + len`.
pub proof fn lemma_team_join_line(parser: &CommandParser, t: Seq<u8>, breakpoint_comments: bool, i: int, len: int)
    requires
        t.len() > 0,
        t[0] != '#' as u8,
        ({
            let r = specs_spec(parser.specs(), parser.specs(), t, 0);
            let n = r.nodes.len() as int;
            &&& r.error is None
            &&& n >= 3
            &&& is_literal(r.nodes[n - 3], "team")
            &&& is_literal(r.nodes[n - 2], "join")
            &&& r.nodes[n - 1] matches ParsedNodeModel::Argument(_, ArgumentModel::MinecraftTeam(_), x, l)
                && x == i && l == len
        }),
        i + len <= usize::MAX,
    ensures
        line_kind(parser, t, breakpoint_comments) == LineModel::OptionalSelectorCommand(i + len),
{
    let r = specs_spec(parser.specs(), parser.specs(), t, 0);
    lemma_no_schedule(r.nodes, 0);
}

/// A command line that parses without error and ends with `teleport` and its destination entity
/// or location at offset `i` is a command whose selector may be left out; it would be inserted
/// just before the destination, at `i - 1`.
pub proof fn lemma_teleport_line(parser: &CommandParser, t: Seq<u8>, breakpoint_comments: bool, i: int)
    requires
        t.len() > 0,
        t[0] != '#' as u8,
        ({
            let r = specs_spec(parser.specs(), parser.specs(), t, 0);
            let n = r.nodes.len() as int;
            &&& r.error is None
            &&& n >= 2
            &&& (r.nodes[n - 2] == ParsedNodeModel::Redirect("teleport".spec_bytes()) || is_literal(
                r.nodes[n - 2],
                "teleport",
            ))
            &&& r.nodes[n - 1] is Argument
            &&& r.nodes[n - 1]->Argument_2 == i
            &&& ((r.nodes[n - 1]->Argument_0 == "destination".spec_bytes()
                && r.nodes[n - 1]->Argument_1 is MinecraftEntity) || (r.nodes[n - 1]->Argument_0
                == "location".spec_bytes() && r.nodes[n - 1]->Argument_1 is MinecraftVec3))
        }),
        i >= 1,
    ensures
        line_kind(parser, t, breakpoint_comments) == LineModel::OptionalSelectorCommand(i - 1),
{
    let r = specs_spec(parser.specs(), parser.specs(), t, 0);
    lemma_no_schedule(r.nodes, 0);
}

} // verus!
