//! The configuration of a generated debug datapack.

pub mod adapter;

use crate::generator::config::adapter::{
    AdapterConfig, BreakpointKind, BreakpointPositionInLine, LocalBreakpoint,
};
use crate::parser::command::resource_location::ResourceLocation;
use vstd::prelude::*;
use vstd::string::*;

verus! {

/// How a debug datapack is generated.
#[derive(Debug)]
pub struct Config<'l> {
    /// The namespace of the debug datapack.
    pub namespace: &'l str,
    /// Whether the debug datapack shadows the functions it debugs.
    pub shadow: bool,
    /// What the debug adapter configures, when a debug adapter is used.
    pub adapter: Option<AdapterConfig<'l>>,
}

/// The position among `v` of the first breakpoint at `line_number` and `position_in_line`.
pub open spec fn first_breakpoint_at(
    v: Seq<LocalBreakpoint>,
    line_number: usize,
    position_in_line: BreakpointPositionInLine,
    i: int,
) -> Option<int>
    decreases v.len() - i,
{
    if i < 0 || i >= v.len() {
        None
    } else if v[i].position.line_number == line_number && v[i].position.position_in_line
        == position_in_line {
        Some(i)
    } else {
        first_breakpoint_at(v, line_number, position_in_line, i + 1)
    }
}

/// The position among the breakpoint lists of the first list for `function`.
pub open spec fn first_function_at(
    v: Seq<(ResourceLocation, Vec<LocalBreakpoint>)>,
    function: ResourceLocation,
    i: int,
) -> Option<int>
    decreases v.len() - i,
{
    if i < 0 || i >= v.len() {
        None
    } else if v[i].0.namespace_bytes() == function.namespace_bytes() && v[i].0.path_bytes()
        == function.path_bytes() {
        Some(i)
    } else {
        first_function_at(v, function, i + 1)
    }
}

impl<'l> Config<'l> {
    /// The kind of the first breakpoint of `function` at `line_number` and `position_in_line`,
    /// if the debug adapter configured one.
    #[verifier::loop_isolation(false)]
    pub fn get_breakpoint_kind(
        &self,
        function: &ResourceLocation,
        line_number: usize,
        position_in_line: BreakpointPositionInLine,
    ) -> (res: Option<&BreakpointKind>)
        ensures
            match self.adapter {
                None => res is None,
                Some(a) => match first_function_at(a.breakpoints@, *function, 0) {
                    None => res is None,
                    Some(f) => match first_breakpoint_at(
                        a.breakpoints@[f].1@,
                        line_number,
                        position_in_line,
                        0,
                    ) {
                        None => res is None,
                        Some(b) => res == Some(&a.breakpoints@[f].1@[b].kind),
                    },
                },
            },
    {
        match &self.adapter {
            None => None,
            Some(config) => {
                let mut i: usize = 0;
                while i < config.breakpoints.len()
                    invariant
                        i <= config.breakpoints@.len(),
                        first_function_at(config.breakpoints@, *function, i as int)
                            == first_function_at(config.breakpoints@, *function, 0),
                    decreases config.breakpoints@.len() - i,
                {
                    if config.breakpoints[i].0 == *function {
                        let vec = &config.breakpoints[i].1;
                        let mut j: usize = 0;
                        while j < vec.len()
                            invariant
                                j <= vec@.len(),
                                first_breakpoint_at(vec@, line_number, position_in_line, j as int)
                                    == first_breakpoint_at(vec@, line_number, position_in_line, 0),
                            decreases vec@.len() - j,
                        {
                            if vec[j].position.line_number == line_number
                                && vec[j].position.position_in_line == position_in_line {
                                return Some(&vec[j].kind);
                            }
                            j = j + 1;
                        }
                        return None;
                    }
                    i = i + 1;
                }
                None
            },
        }
    }
}

/// The longest namespace of a generated datapack: identifiers have at most 16 characters, and
/// the longest objective name adds 9 to the namespace.
pub const MAX_NAMESPACE_LEN: usize = 7;

/// Checks that `namespace` can be the namespace of a generated datapack: at most 7 bytes long.
pub fn validate_namespace(namespace: &str) -> (res: Result<(), String>)
    ensures
        res is Ok <==> namespace.spec_bytes().len() <= MAX_NAMESPACE_LEN,
        res matches Err(e) ==> e@ == "string must have <= 7 characters"@,
{
    if namespace.as_bytes().len() <= MAX_NAMESPACE_LEN {
        Ok(())
    } else {
        Err(String::from_str("string must have <= 7 characters"))
    }
}

} // verus!
