//! How the lines of a function are cut into partitions: runs of regular lines, each ended by a
//! breakpoint, a function call or the return of the function.

use crate::generator::config::adapter::BreakpointPositionInLine;
use crate::generator::config::Config;
use crate::parser::command::argument::MinecraftEntityAnchor;
use crate::parser::command::resource_location::ResourceLocation;
use crate::parser::Line;
use crate::text::{
    after, decimal, decimal_chars, find_ascii, find_byte_from, is_digit_byte, lemma_ascii_text,
    lemma_bytes_concat, lemma_decimal, lemma_decimal_chars, lemma_find_byte_at, lemma_parse_decimal,
    parse_usize, parse_usize_spec, skip_str, str_eq, string_bytes, take_str, usize_to_string,
};
use vstd::prelude::*;
use vstd::slice::slice_subrange;
use vstd::string::*;

verus! {

/// A place in a function: before or after a line, at a breakpoint, at its entry or its return.
#[derive(Clone, Copy, Debug, Eq, PartialEq, Structural)]
pub enum PositionInLine {
    Entry,
    Breakpoint,
    Function,
    AfterFunction,
    Return,
}

/// A place in a function: a line and the place in it.
#[derive(Clone, Copy, Debug, Eq, PartialEq, Structural)]
pub struct Position {
    pub line_number: usize,
    pub position_in_line: PositionInLine,
}

/// The place in a line of a breakpoint position.
pub open spec fn breakpoint_position(p: BreakpointPositionInLine) -> PositionInLine {
    match p {
        BreakpointPositionInLine::Breakpoint => PositionInLine::Breakpoint,
        BreakpointPositionInLine::AfterFunction => PositionInLine::AfterFunction,
    }
}

impl BreakpointPositionInLine {
    /// The place in a line of this breakpoint position.
    pub fn to_position_in_line(self) -> (res: PositionInLine)
        ensures
            res == breakpoint_position(self),
    {
        match self {
            BreakpointPositionInLine::Breakpoint => PositionInLine::Breakpoint,
            BreakpointPositionInLine::AfterFunction => PositionInLine::AfterFunction,
        }
    }
}

/// What ends a partition.
#[derive(Debug)]
pub enum Terminator<'l> {
    /// A `# breakpoint` line.
    Breakpoint,
    /// A breakpoint that the debug adapter may set.
    ConfigurableBreakpoint { position_in_line: BreakpointPositionInLine },
    /// The call of a function in a line.
    FunctionCall {
        column_index: usize,
        line: &'l str,
        name: &'l ResourceLocation,
        anchor: &'l Option<MinecraftEntityAnchor>,
        selectors: &'l Vec<usize>,
    },
    /// The end of the function.
    Return,
}

/// A run of regular lines between two positions, and what ends it.
#[derive(Debug)]
pub struct Partition<'l, 'm> {
    pub start: Position,
    pub end: Position,
    pub regular_lines: &'l [(usize, String, Line<'m>)],
    pub terminator: Terminator<'l>,
}

impl<'l> Terminator<'l> {
    /// The place in a line at which this terminator ends a partition.
    pub fn get_position_in_line(&self) -> (res: PositionInLine)
        ensures
            res == match self {
                Terminator::Breakpoint => PositionInLine::Breakpoint,
                Terminator::ConfigurableBreakpoint { position_in_line } => breakpoint_position(
                    *position_in_line,
                ),
                Terminator::FunctionCall { .. } => PositionInLine::Function,
                Terminator::Return => PositionInLine::Return,
            },
    {
        match self {
            Terminator::Breakpoint => PositionInLine::Breakpoint,
            Terminator::ConfigurableBreakpoint { position_in_line } => position_in_line.to_position_in_line(),
            Terminator::FunctionCall { .. } => PositionInLine::Function,
            Terminator::Return => PositionInLine::Return,
        }
    }
}

/// What ends a partition, with the position of the line of a function call.
pub enum TerminatorModel {
    Breakpoint,
    ConfigurableBreakpoint(BreakpointPositionInLine),
    FunctionCall(int),
    Return,
}

/// A partition: its positions, its regular lines and what ends it.
pub struct PartitionModel<'m> {
    pub start: Position,
    pub end: Position,
    pub regular_lines: Seq<(usize, String, Line<'m>)>,
    pub terminator: TerminatorModel,
}

/// The partition `p` of the lines `lines` is the partition `m`.
pub open spec fn represents<'l, 'm>(
    p: Partition<'l, 'm>,
    m: PartitionModel<'m>,
    lines: Seq<(usize, String, Line<'m>)>,
) -> bool {
    &&& p.start == m.start
    &&& p.end == m.end
    &&& p.regular_lines@ == m.regular_lines
    &&& match m.terminator {
        TerminatorModel::Breakpoint => p.terminator is Breakpoint,
        TerminatorModel::ConfigurableBreakpoint(b) => p.terminator
            == Terminator::ConfigurableBreakpoint { position_in_line: b },
        TerminatorModel::Return => p.terminator is Return,
        TerminatorModel::FunctionCall(i) => 0 <= i < lines.len() && match lines[i].2 {
            Line::FunctionCall { column_index, name, anchor, selectors, .. } => p.terminator
                == Terminator::FunctionCall {
                column_index,
                line: p.terminator->line,
                name: &name,
                anchor: &anchor,
                selectors: &selectors,
            } && p.terminator->line@ == lines[i].1@,
            _ => false,
        },
    }
}

/// A line that is empty or a comment.
pub open spec fn is_blank(l: Line) -> bool {
    l is Empty || l is Comment
}

/// A position.
pub open spec fn pos(line_number: int, position_in_line: PositionInLine) -> Position {
    Position { line_number: line_number as usize, position_in_line }
}

/// The last position and the partitions after the first `n` lines, when a debug adapter is
/// used: every line that is not blank gets a configurable breakpoint before it, and a function
/// call gets its own partition after that.
pub open spec fn adapter_steps<'m>(lines: Seq<(usize, String, Line<'m>)>, n: int) -> (Position, Seq<PartitionModel<'m>>)
    decreases n,
{
    if n <= 0 {
        (pos(1, PositionInLine::Entry), seq![])
    } else {
        let (end, parts) = adapter_steps(lines, n - 1);
        let i = n - 1;
        if is_blank(lines[i].2) {
            (end, parts)
        } else {
            let e1 = pos(i + 1, PositionInLine::Breakpoint);
            let with_start_line = end.position_in_line == PositionInLine::Entry || end.position_in_line
                == PositionInLine::Breakpoint;
            let lo = end.line_number - if with_start_line {
                1int
            } else {
                0int
            };
            let p1 = PartitionModel {
                start: end,
                end: e1,
                regular_lines: lines.subrange(lo, i),
                terminator: TerminatorModel::ConfigurableBreakpoint(BreakpointPositionInLine::Breakpoint),
            };
            if lines[i].2 is FunctionCall {
                let e2 = pos(i + 1, PositionInLine::Function);
                (
                    e2,
                    parts.push(p1).push(
                        PartitionModel {
                            start: e1,
                            end: e2,
                            regular_lines: seq![],
                            terminator: TerminatorModel::FunctionCall(i),
                        },
                    ),
                )
            } else {
                (e1, parts.push(p1))
            }
        }
    }
}

/// The partitions of the lines when a debug adapter is used.
pub open spec fn adapter_partition<'m>(lines: Seq<(usize, String, Line<'m>)>) -> Seq<PartitionModel<'m>> {
    let n = lines.len() as int;
    let (end0, parts0) = adapter_steps(lines, n);
    let (end1, parts1) = if end0.position_in_line == PositionInLine::Entry {
        let e = pos(end0.line_number as int, PositionInLine::Breakpoint);
        (
            e,
            parts0.push(
                PartitionModel {
                    start: end0,
                    end: e,
                    regular_lines: seq![],
                    terminator: TerminatorModel::ConfigurableBreakpoint(
                        BreakpointPositionInLine::Breakpoint,
                    ),
                },
            ),
        )
    } else {
        (end0, parts0)
    };
    let (end2, parts2) = if end1.position_in_line == PositionInLine::Function {
        let last = end1.line_number >= n;
        let line_number = end1.line_number + if last {
            0int
        } else {
            1int
        };
        let b = if last {
            BreakpointPositionInLine::AfterFunction
        } else {
            BreakpointPositionInLine::Breakpoint
        };
        let e = pos(line_number, breakpoint_position(b));
        (
            e,
            parts1.push(
                PartitionModel {
                    start: end1,
                    end: e,
                    regular_lines: seq![],
                    terminator: TerminatorModel::ConfigurableBreakpoint(b),
                },
            ),
        )
    } else {
        (end1, parts1)
    };
    let lo = end2.line_number - if end2.position_in_line == PositionInLine::Breakpoint {
        1int
    } else {
        0int
    };
    parts2.push(
        PartitionModel {
            start: end2,
            end: pos(n, PositionInLine::Return),
            regular_lines: lines.subrange(lo, n),
            terminator: TerminatorModel::Return,
        },
    )
}

/// The start, the index of the first regular line and the partitions after the first `n`
/// lines, without a debug adapter: `# breakpoint` lines and function calls end partitions.
pub open spec fn plain_steps<'m>(lines: Seq<(usize, String, Line<'m>)>, n: int) -> (Position, int, Seq<PartitionModel<'m>>)
    decreases n,
{
    if n <= 0 {
        (pos(0, PositionInLine::Entry), 0, seq![])
    } else {
        let (start, first, parts) = plain_steps(lines, n - 1);
        let i = n - 1;
        if lines[i].2 is Breakpoint {
            let e = pos(i + 1, PositionInLine::Breakpoint);
            (
                e,
                i + 1,
                parts.push(
                    PartitionModel {
                        start,
                        end: e,
                        regular_lines: lines.subrange(first, i),
                        terminator: TerminatorModel::Breakpoint,
                    },
                ),
            )
        } else if lines[i].2 is FunctionCall {
            let e = pos(i + 1, PositionInLine::Function);
            (
                e,
                i + 1,
                parts.push(
                    PartitionModel {
                        start,
                        end: e,
                        regular_lines: lines.subrange(first, i),
                        terminator: TerminatorModel::FunctionCall(i),
                    },
                ),
            )
        } else {
            (start, first, parts)
        }
    }
}

/// The partitions of the lines without a debug adapter.
pub open spec fn plain_partition<'m>(lines: Seq<(usize, String, Line<'m>)>) -> Seq<PartitionModel<'m>> {
    let n = lines.len() as int;
    let (start, first, parts) = plain_steps(lines, n);
    parts.push(
        PartitionModel {
            start,
            end: pos(n, PositionInLine::Return),
            regular_lines: lines.subrange(first, n),
            terminator: TerminatorModel::Return,
        },
    )
}

/// The partitions after the configurable breakpoint before line `i` was added to `parts`.
pub open spec fn before2_model<'m>(parts: Seq<PartitionModel<'m>>, lines: Seq<(usize, String, Line<'m>)>, lo: int, i: int) -> Seq<PartitionModel<'m>> {
    parts.push(
        PartitionModel {
            start: adapter_steps(lines, i).0,
            end: pos(i + 1, PositionInLine::Breakpoint),
            regular_lines: lines.subrange(lo, i),
            terminator: TerminatorModel::ConfigurableBreakpoint(BreakpointPositionInLine::Breakpoint),
        },
    )
}

/// The partitions `res` are the partitions `m` of `lines`.
pub open spec fn all_represent<'l, 'm>(
    res: Seq<Partition<'l, 'm>>,
    m: Seq<PartitionModel<'m>>,
    lines: Seq<(usize, String, Line<'m>)>,
) -> bool {
    res.len() == m.len() && forall|k: int| 0 <= k < res.len() ==> represents(#[trigger] res[k], m[k], lines)
}

/// The terminator for the function call in `line`, which must be a function call line.
fn function_call_terminator<'l, 'm>(line: &'l (usize, String, Line<'m>)) -> (res: Terminator<'l>)
    requires
        line.2 is FunctionCall,
    ensures
        match line.2 {
            Line::FunctionCall { column_index, name, anchor, selectors, .. } => res
                == Terminator::FunctionCall {
                column_index,
                line: res->line,
                name: &name,
                anchor: &anchor,
                selectors: &selectors,
            } && res->line@ == line.1@,
            _ => false,
        },
{
    match &line.2 {
        Line::FunctionCall { column_index, name, anchor, selectors, .. } => Terminator::FunctionCall {
            column_index: *column_index,
            line: line.1.as_str(),
            name,
            anchor,
            selectors,
        },
        _ => Terminator::Return,
    }
}

/// The partitions of the lines when a debug adapter is used.
fn partition_for_adapter<'l, 'm>(lines: &'l [(usize, String, Line<'m>)]) -> (res: Vec<Partition<'l, 'm>>)
    ensures
        all_represent(res@, adapter_partition(lines@), lines@),
{
    let ghost ls = lines@;
    let n = lines.len();
    let mut partitions: Vec<Partition<'l, 'm>> = Vec::new();
    let mut end = Position { line_number: 1, position_in_line: PositionInLine::Entry };
    let mut i: usize = 0;
    while i < n
        invariant
            ls == lines@,
            n == ls.len(),
            i <= n,
            (end, ()).0 == adapter_steps(ls, i as int).0,
            all_represent(partitions@, adapter_steps(ls, i as int).1, ls),
            (end.position_in_line == PositionInLine::Entry && end.line_number == 1) || ((
            end.position_in_line == PositionInLine::Breakpoint || end.position_in_line
                == PositionInLine::Function) && 1 <= end.line_number <= i),
        decreases n - i,
    {
        let line = &lines[i];
        let blank = match line.2 {
            Line::Empty | Line::Comment => true,
            _ => false,
        };
        if !blank {
            let start = end;
            end = Position { line_number: i + 1, position_in_line: PositionInLine::Breakpoint };
            let with_start_line = start.position_in_line == PositionInLine::Entry || start.position_in_line
                == PositionInLine::Breakpoint;
            let lo = start.line_number - if with_start_line {
                1
            } else {
                0
            };
            let ghost before = partitions@;
            let ghost prev = adapter_steps(ls, i as int);
            partitions.push(
                Partition {
                    start,
                    end,
                    regular_lines: slice_subrange(lines, lo, i),
                    terminator: Terminator::ConfigurableBreakpoint {
                        position_in_line: BreakpointPositionInLine::Breakpoint,
                    },
                },
            );
            proof {
                assert(prev.0 == start);
                assert(!is_blank(ls[i as int].2));
                let p1m = PartitionModel {
                    start: prev.0,
                    end: pos(i + 1, PositionInLine::Breakpoint),
                    regular_lines: ls.subrange(lo as int, i as int),
                    terminator: TerminatorModel::ConfigurableBreakpoint(BreakpointPositionInLine::Breakpoint),
                };
                assert(represents(partitions@[before.len() as int], p1m, ls));
                assert forall|k: int| 0 <= k < partitions@.len() implies represents(
                    #[trigger] partitions@[k],
                    prev.1.push(p1m)[k],
                    ls,
                ) by {
                    if k < before.len() {
                        assert(partitions@[k] == before[k]);
                    }
                }
            }
            if matches!(line.2, Line::FunctionCall { .. }) {
                let ghost before2 = partitions@;
                let start = end;
                end = Position { line_number: i + 1, position_in_line: PositionInLine::Function };
                partitions.push(
                    Partition {
                        start,
                        end,
                        regular_lines: slice_subrange(lines, 0, 0),
                        terminator: function_call_terminator(line),
                    },
                );
                proof {
                    let p2m = PartitionModel {
                        start: pos(i + 1, PositionInLine::Breakpoint),
                        end: pos(i + 1, PositionInLine::Function),
                        regular_lines: seq![],
                        terminator: TerminatorModel::FunctionCall(i as int),
                    };
                    assert(ls.subrange(0, 0) =~= seq![]);
                    assert(represents(partitions@[before2.len() as int], p2m, ls));
                    assert forall|k: int| 0 <= k < partitions@.len() implies represents(
                        #[trigger] partitions@[k],
                        before2_model(prev.1, ls, lo as int, i as int).push(p2m)[k],
                        ls,
                    ) by {
                        if k < before2.len() {
                            assert(partitions@[k] == before2[k]);
                        }
                    }
                }
            }
        }
        i = i + 1;
    }
    proof {
        assert(ls.subrange(0, 0) =~= seq![]);
    }
    let ghost parts0 = adapter_steps(ls, n as int).1;
    let ghost end0 = end;
    if end.position_in_line == PositionInLine::Entry {
        let start = end;
        end = Position { line_number: start.line_number, position_in_line: PositionInLine::Breakpoint };
        let ghost before = partitions@;
        partitions.push(
            Partition {
                start,
                end,
                regular_lines: slice_subrange(lines, 0, 0),
                terminator: Terminator::ConfigurableBreakpoint {
                    position_in_line: BreakpointPositionInLine::Breakpoint,
                },
            },
        );
        proof {
            let pm = PartitionModel {
                start: end0,
                end: pos(end0.line_number as int, PositionInLine::Breakpoint),
                regular_lines: seq![],
                terminator: TerminatorModel::ConfigurableBreakpoint(BreakpointPositionInLine::Breakpoint),
            };
            assert(represents(partitions@[before.len() as int], pm, ls));
            assert forall|k: int| 0 <= k < partitions@.len() implies represents(
                #[trigger] partitions@[k],
                parts0.push(pm)[k],
                ls,
            ) by {
                if k < before.len() {
                    assert(partitions@[k] == before[k]);
                }
            }
        }
    }
    let ghost parts1 = partitions@;
    let ghost end1 = end;
    if end.position_in_line == PositionInLine::Function {
        let start = end;
        let last_line = start.line_number >= n;
        let line_number = start.line_number + if last_line {
            0
        } else {
            1
        };
        let position_in_line = if last_line {
            BreakpointPositionInLine::AfterFunction
        } else {
            BreakpointPositionInLine::Breakpoint
        };
        end = Position { line_number, position_in_line: position_in_line.to_position_in_line() };
        partitions.push(
            Partition {
                start,
                end,
                regular_lines: slice_subrange(lines, 0, 0),
                terminator: Terminator::ConfigurableBreakpoint { position_in_line },
            },
        );
        proof {
            assert forall|k: int| 0 <= k < partitions@.len() - 1 implies #[trigger] partitions@[k]
                == parts1[k] by {}
        }
    }
    let start = end;
    let lo = start.line_number - if start.position_in_line == PositionInLine::Breakpoint {
        1
    } else {
        0
    };
    let ghost parts2 = partitions@;
    partitions.push(
        Partition {
            start,
            end: Position { line_number: n, position_in_line: PositionInLine::Return },
            regular_lines: slice_subrange(lines, lo, n),
            terminator: Terminator::Return,
        },
    );
    proof {
        let m = adapter_partition(ls);
        assert(m.len() == partitions@.len());
        assert forall|k: int| 0 <= k < partitions@.len() implies represents(
            #[trigger] partitions@[k],
            m[k],
            ls,
        ) by {
            if k < parts2.len() {
                assert(partitions@[k] == parts2[k]);
                if k < parts1.len() {
                    assert(parts2[k] == parts1[k]);
                }
            }
        }
    }
    partitions
}

/// The partitions of the lines without a debug adapter.
fn partition_plain<'l, 'm>(lines: &'l [(usize, String, Line<'m>)]) -> (res: Vec<Partition<'l, 'm>>)
    ensures
        all_represent(res@, plain_partition(lines@), lines@),
{
    let ghost ls = lines@;
    let n = lines.len();
    let mut partitions: Vec<Partition<'l, 'm>> = Vec::new();
    let mut start = Position { line_number: 0, position_in_line: PositionInLine::Entry };
    let mut start_line_index: usize = 0;
    let mut i: usize = 0;
    while i < n
        invariant
            ls == lines@,
            n == ls.len(),
            i <= n,
            start == plain_steps(ls, i as int).0,
            start_line_index == plain_steps(ls, i as int).1,
            start_line_index <= i,
            all_represent(partitions@, plain_steps(ls, i as int).2, ls),
        decreases n - i,
    {
        let line = &lines[i];
        let ghost before = partitions@;
        if matches!(line.2, Line::Breakpoint) {
            let end = Position { line_number: i + 1, position_in_line: PositionInLine::Breakpoint };
            partitions.push(
                Partition {
                    start,
                    end,
                    regular_lines: slice_subrange(lines, start_line_index, i),
                    terminator: Terminator::Breakpoint,
                },
            );
            start = end;
            start_line_index = i + 1;
        } else if matches!(line.2, Line::FunctionCall { .. }) {
            let end = Position { line_number: i + 1, position_in_line: PositionInLine::Function };
            partitions.push(
                Partition {
                    start,
                    end,
                    regular_lines: slice_subrange(lines, start_line_index, i),
                    terminator: function_call_terminator(line),
                },
            );
            start = end;
            start_line_index = i + 1;
        }
        proof {
            let m = plain_steps(ls, i + 1).2;
            assert forall|k: int| 0 <= k < partitions@.len() implies represents(
                #[trigger] partitions@[k],
                m[k],
                ls,
            ) by {
                if k < before.len() {
                    assert(partitions@[k] == before[k]);
                }
            }
        }
        i = i + 1;
    }
    partitions.push(
        Partition {
            start,
            end: Position { line_number: n, position_in_line: PositionInLine::Return },
            regular_lines: slice_subrange(lines, start_line_index, n),
            terminator: Terminator::Return,
        },
    );
    partitions
}

/// The partitions of the lines of a function.
pub fn partition<'l, 'm>(lines: &'l [(usize, String, Line<'m>)], config: &Config) -> (res: Vec<Partition<'l, 'm>>)
    ensures
        all_represent(
            res@,
            if config.adapter is Some {
                adapter_partition(lines@)
            } else {
                plain_partition(lines@)
            },
            lines@,
        ),
{
    if config.adapter.is_some() {
        partition_for_adapter(lines)
    } else {
        partition_plain(lines)
    }
}

/// The name of a place in a line.
pub open spec fn position_in_line_name(p: PositionInLine) -> &'static str {
    match p {
        PositionInLine::Entry => "entry",
        PositionInLine::Breakpoint => "breakpoint",
        PositionInLine::Function => "function",
        PositionInLine::AfterFunction => "after_function",
        PositionInLine::Return => "return",
    }
}

/// The place in a line that the text `t` names.
pub open spec fn position_in_line_spec(t: Seq<u8>) -> Option<PositionInLine> {
    if t == "entry".spec_bytes() {
        Some(PositionInLine::Entry)
    } else if t == "breakpoint".spec_bytes() {
        Some(PositionInLine::Breakpoint)
    } else if t == "function".spec_bytes() {
        Some(PositionInLine::Function)
    } else if t == "after_function".spec_bytes() {
        Some(PositionInLine::AfterFunction)
    } else if t == "return".spec_bytes() {
        Some(PositionInLine::Return)
    } else {
        None
    }
}

/// The names of the places in a line have different lengths, and no `_` before their end.
pub proof fn lemma_position_in_line_names()
    ensures
        "entry".spec_bytes().len() == 5,
        "breakpoint".spec_bytes().len() == 10,
        "function".spec_bytes().len() == 8,
        "after_function".spec_bytes().len() == 14,
        "return".spec_bytes().len() == 6,
{
    reveal_strlit("entry");
    reveal_strlit("breakpoint");
    reveal_strlit("function");
    reveal_strlit("after_function");
    reveal_strlit("return");
    lemma_ascii_text("entry");
    lemma_ascii_text("breakpoint");
    lemma_ascii_text("function");
    lemma_ascii_text("after_function");
    lemma_ascii_text("return");
}

impl PositionInLine {
    /// The name of this place in a line.
    pub fn name(&self) -> (res: &'static str)
        ensures
            res == position_in_line_name(*self),
    {
        match self {
            PositionInLine::Entry => "entry",
            PositionInLine::Breakpoint => "breakpoint",
            PositionInLine::Function => "function",
            PositionInLine::AfterFunction => "after_function",
            PositionInLine::Return => "return",
        }
    }

    /// The place in a line that `s` names.
    pub fn parse(s: &str) -> (res: Option<PositionInLine>)
        ensures
            res == position_in_line_spec(s.spec_bytes()),
    {
        if str_eq(s, "entry") {
            Some(PositionInLine::Entry)
        } else if str_eq(s, "breakpoint") {
            Some(PositionInLine::Breakpoint)
        } else if str_eq(s, "function") {
            Some(PositionInLine::Function)
        } else if str_eq(s, "after_function") {
            Some(PositionInLine::AfterFunction)
        } else if str_eq(s, "return") {
            Some(PositionInLine::Return)
        } else {
            None
        }
    }

    /// The name of this place in a line.
    pub fn to_string(&self) -> (res: String)
        ensures
            res@ == position_in_line_name(*self)@,
    {
        String::from_str(self.name())
    }
}

/// The text of a position: its line number, `_` and the name of its place in the line.
pub open spec fn position_bytes(p: Position) -> Seq<u8> {
    decimal(p.line_number as nat) + seq!['_' as u8] + position_in_line_name(p.position_in_line).spec_bytes()
}

/// The position that the text `b` spells, split at its first `_`.
pub open spec fn position_spec(b: Seq<u8>) -> Option<Position> {
    let i = find_byte_from(b, 0, '_' as u8);
    if i >= b.len() {
        None
    } else {
        match (parse_usize_spec(b.subrange(0, i)), position_in_line_spec(after(b, i + 1))) {
            (Some(line_number), Some(position_in_line)) => Some(Position { line_number, position_in_line }),
            _ => None,
        }
    }
}

/// The text of the number `n`, `_` and `name`, as bytes.
pub proof fn lemma_numbered_text(n: usize, name: &str, s: Seq<char>)
    requires
        s == decimal_chars(n as nat) + "_"@ + name@,
    ensures
        vstd::utf8::encode_utf8(s) == decimal(n as nat) + seq!['_' as u8] + name.spec_bytes(),
{
    reveal_strlit("_");
    lemma_ascii_text("_");
    lemma_bytes_concat(decimal_chars(n as nat) + "_"@, name@);
    lemma_bytes_concat(decimal_chars(n as nat), "_"@);
    lemma_decimal_chars(n as nat);
    assert("_".spec_bytes() =~= seq!['_' as u8]);
}

/// Reading a number, `_` and a name from their text splits it at the `_`.
pub proof fn lemma_numbered_split(n: usize, name: Seq<u8>)
    ensures
        ({
            let b = decimal(n as nat) + seq!['_' as u8] + name;
            let i = decimal(n as nat).len() as int;
            &&& find_byte_from(b, 0, '_' as u8) == i
            &&& parse_usize_spec(b.subrange(0, i)) == Some(n)
            &&& after(b, i + 1) == name
        }),
{
    let d = decimal(n as nat);
    let b = d + seq!['_' as u8] + name;
    lemma_decimal(n as nat);
    lemma_parse_decimal(n);
    assert forall|m: int| 0 <= m < d.len() implies b[m] != '_' as u8 by {
        assert(b[m] == d[m]);
        assert(is_digit_byte(d[m]));
    }
    lemma_find_byte_at(b, 0, d.len() as int, '_' as u8);
    assert(b.subrange(0, d.len() as int) =~= d);
    assert(after(b, d.len() as int + 1) =~= name);
}

impl Position {
    /// The text of this position.
    pub fn to_string(&self) -> (res: String)
        ensures
            string_bytes(&res) == position_bytes(*self),
    {
        let mut s = usize_to_string(self.line_number);
        s.append("_");
        s.append(self.position_in_line.name());
        proof {
            lemma_numbered_text(self.line_number, position_in_line_name(self.position_in_line), s@);
        }
        s
    }

    /// The position that `s` spells.
    pub fn parse(s: &str) -> (res: Option<Position>)
        ensures
            res == position_spec(s.spec_bytes()),
    {
        let i = find_ascii(s, '_');
        let b = s.as_bytes();
        if i >= b.len() {
            return None;
        }
        proof {
            crate::text::lemma_find_byte(s.spec_bytes(), 0, '_' as u8);
            crate::text::lemma_splittable_after_ascii(s, i + 1);
        }
        let line_number = match parse_usize(take_str(s, i)) {
            Some(n) => n,
            None => return None,
        };
        match PositionInLine::parse(skip_str(s, i + 1)) {
            Some(position_in_line) => Some(Position { line_number, position_in_line }),
            None => None,
        }
    }
}

/// Reading the text of a position gives the position.
pub proof fn lemma_position_roundtrip(p: Position)
    ensures
        position_spec(position_bytes(p)) == Some(p),
{
    lemma_numbered_split(p.line_number, position_in_line_name(p.position_in_line).spec_bytes());
    lemma_position_in_line_names();
}

impl core::str::FromStr for Position {
    type Err = ();

    fn from_str(s: &str) -> (res: Result<Position, ()>)
        ensures
            match position_spec(s.spec_bytes()) {
                Some(m) => res matches Ok(p) && p == m,
                None => res is Err,
            },
    {
        match Position::parse(s) {
            Some(p) => Ok(p),
            None => Err(()),
        }
    }
}

impl core::str::FromStr for PositionInLine {
    type Err = ();

    fn from_str(s: &str) -> (res: Result<PositionInLine, ()>)
        ensures
            match position_in_line_spec(s.spec_bytes()) {
                Some(m) => res matches Ok(p) && p == m,
                None => res is Err,
            },
    {
        match PositionInLine::parse(s) {
            Some(p) => Ok(p),
            None => Err(()),
        }
    }
}

/// Each partition starts where the one before it ends.
pub open spec fn chained<'m>(parts: Seq<PartitionModel<'m>>) -> bool {
    forall|k: int| 0 <= k < parts.len() - 1 ==> #[trigger] parts[k].end == parts[k + 1].start
}

/// The partitions after the first `n` lines without a debug adapter follow each other, from
/// the entry of the function to the returned start.
proof fn lemma_plain_steps_chained<'m>(lines: Seq<(usize, String, Line<'m>)>, n: int)
    requires
        0 <= n <= lines.len(),
    ensures
        ({
            let (start, first, parts) = plain_steps(lines, n);
            &&& chained(parts)
            &&& parts.len() == 0 ==> start == pos(0, PositionInLine::Entry)
            &&& parts.len() > 0 ==> parts[0].start == pos(0, PositionInLine::Entry) && parts.last().end
                == start
        }),
    decreases n,
{
    if n > 0 {
        lemma_plain_steps_chained(lines, n - 1);
    }
}

/// The partitions after the first `n` lines with a debug adapter follow each other, from the
/// entry of the function to the returned end.
proof fn lemma_adapter_steps_chained<'m>(lines: Seq<(usize, String, Line<'m>)>, n: int)
    requires
        0 <= n <= lines.len(),
    ensures
        ({
            let (end, parts) = adapter_steps(lines, n);
            &&& chained(parts)
            &&& parts.len() == 0 ==> end == pos(1, PositionInLine::Entry)
            &&& parts.len() > 0 ==> parts[0].start == pos(1, PositionInLine::Entry) && parts.last().end
                == end
        }),
    decreases n,
{
    if n > 0 {
        lemma_adapter_steps_chained(lines, n - 1);
    }
}

/// The partitions of a function follow each other: the first starts at the entry of the
/// function, each next one starts where the one before it ends, and the last ends at the return
/// of the function.
pub proof fn lemma_partitions_chained<'m>(lines: Seq<(usize, String, Line<'m>)>, adapter: bool)
    ensures
        ({
            let parts = if adapter {
                adapter_partition(lines)
            } else {
                plain_partition(lines)
            };
            &&& parts.len() >= 1
            &&& parts[0].start.position_in_line == PositionInLine::Entry
            &&& parts.last().end == pos(lines.len() as int, PositionInLine::Return)
            &&& chained(parts)
        }),
{
    let n = lines.len() as int;
    if adapter {
        lemma_adapter_steps_chained(lines, n);
    } else {
        lemma_plain_steps_chained(lines, n);
    }
}

/// Each regular line of each partition is a line of the function.
pub open spec fn regular_lines_within<'m>(
    parts: Seq<PartitionModel<'m>>,
    lines: Seq<(usize, String, Line<'m>)>,
) -> bool {
    forall|k: int, j: int|
        0 <= k < parts.len() && 0 <= j < parts[k].regular_lines.len() ==> lines.contains(
            #[trigger] parts[k].regular_lines[j],
        )
}

/// Adding a partition whose regular lines are the lines from `lo` to `hi` keeps every regular
/// line a line of the function.
proof fn lemma_push_within<'m>(
    parts: Seq<PartitionModel<'m>>,
    p: PartitionModel<'m>,
    lines: Seq<(usize, String, Line<'m>)>,
    lo: int,
    hi: int,
)
    requires
        regular_lines_within(parts, lines),
        0 <= lo <= hi <= lines.len(),
        p.regular_lines == lines.subrange(lo, hi),
    ensures
        regular_lines_within(parts.push(p), lines),
{
    let q = parts.push(p);
    assert forall|k: int, j: int|
        0 <= k < q.len() && 0 <= j < q[k].regular_lines.len() implies lines.contains(
            #[trigger] q[k].regular_lines[j],
        ) by {
        if k < parts.len() {
            assert(q[k] == parts[k]);
            assert(lines.contains(parts[k].regular_lines[j]));
        } else {
            let x = lo + j;
            assert(q[k].regular_lines[j] == lines[x]);
        }
    }
    assert(regular_lines_within(q, lines));
}

/// The last position of the partitions after `n` lines with a debug adapter lies within the
/// lines seen, and each of their regular lines is a line of the function.
proof fn lemma_adapter_steps_within<'m>(lines: Seq<(usize, String, Line<'m>)>, n: int)
    requires
        lines.len() <= usize::MAX,
        0 <= n <= lines.len(),
    ensures
        ({
            let (end, parts) = adapter_steps(lines, n);
            &&& 1 <= end.line_number
            &&& n >= 1 ==> end.line_number <= n
            &&& n == 0 ==> end == pos(1, PositionInLine::Entry)
            &&& end.position_in_line == PositionInLine::Entry ==> end.line_number == 1
            &&& regular_lines_within(parts, lines)
        }),
    decreases n,
{
    if n > 0 {
        lemma_adapter_steps_within(lines, n - 1);
        let (end, parts) = adapter_steps(lines, n - 1);
        let i = n - 1;
        if !is_blank(lines[i].2) {
            let with_start_line = end.position_in_line == PositionInLine::Entry || end.position_in_line
                == PositionInLine::Breakpoint;
            let lo = end.line_number - if with_start_line {
                1int
            } else {
                0int
            };
            let e1 = pos(i + 1, PositionInLine::Breakpoint);
            let p1 = PartitionModel {
                start: end,
                end: e1,
                regular_lines: lines.subrange(lo, i),
                terminator: TerminatorModel::ConfigurableBreakpoint(BreakpointPositionInLine::Breakpoint),
            };
            lemma_push_within(parts, p1, lines, lo, i);
            if lines[i].2 is FunctionCall {
                let e2 = pos(i + 1, PositionInLine::Function);
                let p2 = PartitionModel {
                    start: e1,
                    end: e2,
                    regular_lines: seq![],
                    terminator: TerminatorModel::FunctionCall(i),
                };
                assert(p2.regular_lines =~= lines.subrange(0, 0));
                lemma_push_within(parts.push(p1), p2, lines, 0, 0);
                assert(adapter_steps(lines, n) == (e2, parts.push(p1).push(p2)));
            } else {
                assert(adapter_steps(lines, n) == (e1, parts.push(p1)));
            }
        }
    } else {
        assert(regular_lines_within(adapter_steps(lines, n).1, lines));
    }
}

/// Each regular line of each partition of a function is one of its lines.
pub proof fn lemma_regular_lines_within<'m>(lines: Seq<(usize, String, Line<'m>)>, adapter: bool)
    requires
        lines.len() <= usize::MAX,
    ensures
        regular_lines_within(
            if adapter {
                adapter_partition(lines)
            } else {
                plain_partition(lines)
            },
            lines,
        ),
        (if adapter {
            adapter_partition(lines)
        } else {
            plain_partition(lines)
        }).last().terminator is Return,
{
    let n = lines.len() as int;
    if adapter {
        lemma_adapter_steps_within(lines, n);
        let (end0, parts0) = adapter_steps(lines, n);
        let (end1, parts1) = if end0.position_in_line == PositionInLine::Entry {
            let e = pos(end0.line_number as int, PositionInLine::Breakpoint);
            let p = PartitionModel {
                start: end0,
                end: e,
                regular_lines: seq![],
                terminator: TerminatorModel::ConfigurableBreakpoint(BreakpointPositionInLine::Breakpoint),
            };
            assert(p.regular_lines =~= lines.subrange(0, 0));
            lemma_push_within(parts0, p, lines, 0, 0);
            (e, parts0.push(p))
        } else {
            (end0, parts0)
        };
        let (end2, parts2) = if end1.position_in_line == PositionInLine::Function {
            let last = end1.line_number >= n;
            let line_number = end1.line_number + if last {
                0int
            } else {
                1int
            };
            let b = if last {
                BreakpointPositionInLine::AfterFunction
            } else {
                BreakpointPositionInLine::Breakpoint
            };
            let e = pos(line_number, breakpoint_position(b));
            let p = PartitionModel {
                start: end1,
                end: e,
                regular_lines: seq![],
                terminator: TerminatorModel::ConfigurableBreakpoint(b),
            };
            assert(p.regular_lines =~= lines.subrange(0, 0));
            lemma_push_within(parts1, p, lines, 0, 0);
            (e, parts1.push(p))
        } else {
            (end1, parts1)
        };
        let lo = end2.line_number - if end2.position_in_line == PositionInLine::Breakpoint {
            1int
        } else {
            0int
        };
        let p = PartitionModel {
            start: end2,
            end: pos(n, PositionInLine::Return),
            regular_lines: lines.subrange(lo, n),
            terminator: TerminatorModel::Return,
        };
        lemma_push_within(parts2, p, lines, lo, n);
        assert(adapter_partition(lines) == parts2.push(p));
    } else {
        lemma_plain_steps_within(lines, n);
        let (start, first, parts) = plain_steps(lines, n);
        let p = PartitionModel {
            start,
            end: pos(n, PositionInLine::Return),
            regular_lines: lines.subrange(first, n),
            terminator: TerminatorModel::Return,
        };
        lemma_push_within(parts, p, lines, first, n);
    }
}

/// The first regular line of the partitions after `n` lines without a debug adapter lies within
/// the lines seen, and each of their regular lines is a line of the function.
proof fn lemma_plain_steps_within<'m>(lines: Seq<(usize, String, Line<'m>)>, n: int)
    requires
        lines.len() <= usize::MAX,
        0 <= n <= lines.len(),
    ensures
        ({
            let (start, first, parts) = plain_steps(lines, n);
            &&& 0 <= first <= n
            &&& regular_lines_within(parts, lines)
        }),
    decreases n,
{
    if n > 0 {
        lemma_plain_steps_within(lines, n - 1);
        let (start, first, parts) = plain_steps(lines, n - 1);
        let i = n - 1;
        if lines[i].2 is Breakpoint {
            let p = PartitionModel {
                start,
                end: pos(i + 1, PositionInLine::Breakpoint),
                regular_lines: lines.subrange(first, i),
                terminator: TerminatorModel::Breakpoint,
            };
            lemma_push_within(parts, p, lines, first, i);
        } else if lines[i].2 is FunctionCall {
            let p = PartitionModel {
                start,
                end: pos(i + 1, PositionInLine::Function),
                regular_lines: lines.subrange(first, i),
                terminator: TerminatorModel::FunctionCall(i),
            };
            lemma_push_within(parts, p, lines, first, i);
        }
    } else {
        assert(regular_lines_within(plain_steps(lines, n).2, lines));
    }
}

} // verus!
