//! What the debug adapter configures in a generated datapack: where breakpoints are and what
//! they do.

use crate::generator::partition::{
    breakpoint_position, lemma_numbered_split, lemma_numbered_text, lemma_position_in_line_names,
    position_in_line_name,
};
use crate::parser::command::resource_location::ResourceLocation;
use crate::text::{
    after, decimal, find_ascii, find_byte_from, lemma_find_byte, lemma_splittable_after_ascii,
    parse_usize, parse_usize_spec, skip_str, str_eq, string_bytes, take_str, usize_to_string,
};
use vstd::prelude::*;
use vstd::string::*;

verus! {

/// Where in a line a breakpoint of the debug adapter sits.
#[derive(Clone, Copy, Debug, Eq, PartialEq, Structural)]
pub enum BreakpointPositionInLine {
    /// Before the line.
    Breakpoint,
    /// After the function that the line calls has returned.
    AfterFunction,
}

/// The position of a breakpoint in a function: its line and its place in the line.
#[derive(Clone, Copy, Debug, Eq, PartialEq, Structural)]
pub struct LocalBreakpointPosition {
    pub line_number: usize,
    pub position_in_line: BreakpointPositionInLine,
}

/// What a breakpoint does when it is reached.
#[derive(Clone, Debug, Eq, PartialEq)]
pub enum BreakpointKind {
    /// Suspend execution.
    Normal,
    /// Nothing: the breakpoint is not on a command.
    Invalid,
    /// Continue execution.
    Continue,
    /// Suspend execution if `condition` holds.
    Step { condition: String },
}

/// A breakpoint of a function.
#[derive(Clone, Debug, Eq, PartialEq)]
pub struct LocalBreakpoint {
    pub kind: BreakpointKind,
    pub position: LocalBreakpointPosition,
}

/// What the debug adapter configures.
#[derive(Debug)]
pub struct AdapterConfig<'l> {
    /// The name of the listener through which the adapter reads the game's output.
    pub adapter_listener_name: &'l str,
    /// The breakpoints of each function.
    pub breakpoints: Vec<(ResourceLocation, Vec<LocalBreakpoint>)>,
}

/// The breakpoint position in a line that the text `t` names.
pub open spec fn breakpoint_position_in_line_spec(t: Seq<u8>) -> Option<BreakpointPositionInLine> {
    if t == "breakpoint".spec_bytes() {
        Some(BreakpointPositionInLine::Breakpoint)
    } else if t == "after_function".spec_bytes() {
        Some(BreakpointPositionInLine::AfterFunction)
    } else {
        None
    }
}

impl BreakpointPositionInLine {
    /// The name of this place in a line.
    pub fn name(&self) -> (res: &'static str)
        ensures
            res == position_in_line_name(breakpoint_position(*self)),
    {
        match self {
            BreakpointPositionInLine::Breakpoint => "breakpoint",
            BreakpointPositionInLine::AfterFunction => "after_function",
        }
    }

    /// The breakpoint position in a line that `s` names.
    pub fn parse(s: &str) -> (res: Option<BreakpointPositionInLine>)
        ensures
            res == breakpoint_position_in_line_spec(s.spec_bytes()),
    {
        if str_eq(s, "breakpoint") {
            Some(BreakpointPositionInLine::Breakpoint)
        } else if str_eq(s, "after_function") {
            Some(BreakpointPositionInLine::AfterFunction)
        } else {
            None
        }
    }

    /// The name of this place in a line.
    pub fn to_string(&self) -> (res: String)
        ensures
            res@ == position_in_line_name(breakpoint_position(*self))@,
    {
        String::from_str(self.name())
    }
}

/// The text of a breakpoint position: its line number, `_` and the name of its place in the line.
pub open spec fn local_position_bytes(p: LocalBreakpointPosition) -> Seq<u8> {
    decimal(p.line_number as nat) + seq!['_' as u8] + position_in_line_name(
        breakpoint_position(p.position_in_line),
    ).spec_bytes()
}

/// The breakpoint position that the text `b` spells, split at its first `_`.
pub open spec fn local_position_spec(b: Seq<u8>) -> Option<LocalBreakpointPosition> {
    let i = find_byte_from(b, 0, '_' as u8);
    if i >= b.len() {
        None
    } else {
        match (
            parse_usize_spec(b.subrange(0, i)),
            breakpoint_position_in_line_spec(after(b, i + 1)),
        ) {
            (Some(line_number), Some(position_in_line)) => Some(
                LocalBreakpointPosition { line_number, position_in_line },
            ),
            _ => None,
        }
    }
}

impl LocalBreakpointPosition {
    /// The text of this breakpoint position.
    pub fn to_string(&self) -> (res: String)
        ensures
            string_bytes(&res) == local_position_bytes(*self),
    {
        let mut s = usize_to_string(self.line_number);
        s.append("_");
        s.append(self.position_in_line.name());
        proof {
            lemma_numbered_text(
                self.line_number,
                position_in_line_name(breakpoint_position(self.position_in_line)),
                s@,
            );
        }
        s
    }

    /// The breakpoint position that `s` spells.
    pub fn parse(s: &str) -> (res: Option<LocalBreakpointPosition>)
        ensures
            res == local_position_spec(s.spec_bytes()),
    {
        let i = find_ascii(s, '_');
        let b = s.as_bytes();
        if i >= b.len() {
            return None;
        }
        proof {
            lemma_find_byte(s.spec_bytes(), 0, '_' as u8);
            lemma_splittable_after_ascii(s, i + 1);
        }
        let line_number = match parse_usize(take_str(s, i)) {
            Some(n) => n,
            None => return None,
        };
        match BreakpointPositionInLine::parse(skip_str(s, i + 1)) {
            Some(position_in_line) => Some(LocalBreakpointPosition { line_number, position_in_line }),
            None => None,
        }
    }
}

/// Reading the text of a breakpoint position gives the breakpoint position.
pub proof fn lemma_local_position_roundtrip(p: LocalBreakpointPosition)
    ensures
        local_position_spec(local_position_bytes(p)) == Some(p),
{
    lemma_numbered_split(
        p.line_number,
        position_in_line_name(breakpoint_position(p.position_in_line)).spec_bytes(),
    );
    lemma_position_in_line_names();
}

/// Reading the name of a breakpoint position in a line gives that position.
pub proof fn lemma_breakpoint_position_in_line_roundtrip(p: BreakpointPositionInLine)
    ensures
        breakpoint_position_in_line_spec(
            position_in_line_name(breakpoint_position(p)).spec_bytes(),
        ) == Some(p),
{
    lemma_position_in_line_names();
}

impl core::str::FromStr for LocalBreakpointPosition {
    type Err = ();

    fn from_str(s: &str) -> (res: Result<LocalBreakpointPosition, ()>)
        ensures
            match local_position_spec(s.spec_bytes()) {
                Some(m) => res matches Ok(p) && p == m,
                None => res is Err,
            },
    {
        match LocalBreakpointPosition::parse(s) {
            Some(p) => Ok(p),
            None => Err(()),
        }
    }
}

impl core::str::FromStr for BreakpointPositionInLine {
    type Err = ();

    fn from_str(s: &str) -> (res: Result<BreakpointPositionInLine, ()>)
        ensures
            match breakpoint_position_in_line_spec(s.spec_bytes()) {
                Some(m) => res matches Ok(p) && p == m,
                None => res is Err,
            },
    {
        match BreakpointPositionInLine::parse(s) {
            Some(p) => Ok(p),
            None => Err(()),
        }
    }
}

} // verus!
