//! Where stepping through functions stops next, which breakpoints are valid, and how the tags
//! of breakpoints move when a function file changes.

use crate::adapter::utils::{breakpoint_position_bytes, position_model, BreakpointPosition, SourceLocation, source_model};
use crate::entries::Modeled;
use crate::generator::config::adapter::{
    BreakpointKind, BreakpointPositionInLine, LocalBreakpoint, LocalBreakpointPosition,
};
use crate::parser::command::resource_location::{location_model, ResourceLocation};
use crate::parser::command::CommandParser;
use crate::parser::{line_kind, parse_line, Line, LineModel};
use crate::text::{
    after, decimal, find_ascii, find_byte_from, lemma_encode_concat, lemma_find_byte,
    lemma_splittable_after_ascii, skip_str, string_bytes, take_str, to_string, trimmed_both,
    usize_to_string,
};
use vstd::prelude::*;
use vstd::string::*;

verus! {

/// The lines of `b`, split at each `\n`.
pub open spec fn split_lines(b: Seq<u8>) -> Seq<Seq<u8>>
    decreases b.len(),
{
    let k = find_byte_from(b, 0, '\n' as u8);
    if k < 0 || k >= b.len() {
        seq![b]
    } else {
        seq![b.subrange(0, k)] + split_lines(after(b, k + 1))
    }
}

/// A text has at most one line more than bytes.
pub proof fn lemma_split_lines_len(b: Seq<u8>)
    ensures
        1 <= split_lines(b).len() <= b.len() + 1,
    decreases b.len(),
{
    lemma_find_byte(b, 0, '\n' as u8);
    let k = find_byte_from(b, 0, '\n' as u8);
    if k < b.len() {
        lemma_split_lines_len(after(b, k + 1));
    }
}

/// Whether a line of a function file is a command: not empty, no comment and no breakpoint.
pub open spec fn is_command_kind(k: LineModel) -> bool {
    !(k is Empty || k is Comment || k is Breakpoint)
}

/// Whether the line `l` of a function file is a command, breakpoint comments being comments.
pub open spec fn is_command_line(parser: &CommandParser, l: Seq<u8>) -> bool {
    is_command_kind(line_kind(parser, trimmed_both(l), false))
}

/// The index of the first command among `lines` at or after `i`.
pub open spec fn first_command_from(parser: &CommandParser, lines: Seq<Seq<u8>>, i: int) -> Option<int>
    decreases lines.len() - i,
{
    if i < 0 || i >= lines.len() {
        None
    } else if is_command_line(parser, lines[i]) {
        Some(i)
    } else {
        first_command_from(parser, lines, i + 1)
    }
}

/// The number of the line at which a step from line `after` of the file `b` stops: the first
/// command after it; else, where `allow_empty` holds, the line right after it; nothing when line
/// `after` is the last line.
pub open spec fn step_target_spec(parser: &CommandParser, b: Seq<u8>, after: int, allow_empty: bool) -> Option<int> {
    let lines = split_lines(b);
    if after >= lines.len() {
        None
    } else {
        match first_command_from(parser, lines, after) {
            Some(i) => Some(i + 1),
            None => if allow_empty {
                Some(after + 1)
            } else {
                None
            },
        }
    }
}

/// The number of the line at which execution of the file `b` starts: its first command, or 1.
pub open spec fn first_target_spec(parser: &CommandParser, b: Seq<u8>) -> int {
    match step_target_spec(parser, b, 0, false) {
        Some(n) => n,
        None => 1,
    }
}

/// Whether a line is a command.
pub fn is_command(line: &Line) -> (res: bool)
    ensures
        res == is_command_kind(line.model()),
{
    match line {
        Line::Empty | Line::Comment | Line::Breakpoint => false,
        _ => true,
    }
}

/// The first line of `rest` and what follows its `\n`, if any.
fn next_line(rest: &str) -> (res: (&str, Option<&str>))
    ensures
        split_lines(rest.spec_bytes()) == seq![res.0.spec_bytes()] + match res.1 {
            Some(n) => split_lines(n.spec_bytes()),
            None => Seq::<Seq<u8>>::empty(),
        },
        res.1 matches Some(n) ==> n.spec_bytes().len() < rest.spec_bytes().len(),
{
    let ghost b = rest.spec_bytes();
    let n = rest.as_bytes().len();
    let k = find_ascii(rest, '\n');
    proof {
        lemma_find_byte(b, 0, '\n' as u8);
    }
    if k < n {
        proof {
            lemma_splittable_after_ascii(rest, k + 1);
        }
        let line = take_str(rest, k);
        let next = skip_str(rest, k + 1);
        (line, Some(next))
    } else {
        proof {
            assert(b.subrange(0, k as int) =~= b);
            assert(seq![b] + Seq::<Seq<u8>>::empty() =~= seq![b]);
        }
        let line = take_str(rest, k);
        (line, None)
    }
}

/// The number of the line at which a step from line `after_line_number` of the function file
/// `content` stops, as `step_target_spec` says.
pub fn find_step_target_line_number(
    parser: &CommandParser,
    content: &str,
    after_line_number: usize,
    allow_empty_lines: bool,
) -> (res: Option<usize>)
    requires
        content.spec_bytes().len() < usize::MAX,
    ensures
        match step_target_spec(parser, content.spec_bytes(), after_line_number as int, allow_empty_lines) {
            Some(n) => res matches Some(m) && m == n,
            None => res is None,
        },
{
    let ghost lines = split_lines(content.spec_bytes());
    proof {
        lemma_split_lines_len(content.spec_bytes());
    }
    let mut rest: Option<&str> = Some(content);
    let mut i: usize = 0;
    proof {
        assert(lines.skip(0) =~= lines);
    }
    while i < after_line_number
        invariant
            lines == split_lines(content.spec_bytes()),
            lines.len() <= content.spec_bytes().len() + 1,
            content.spec_bytes().len() < usize::MAX,
            i <= after_line_number,
            i <= lines.len(),
            rest matches Some(r) ==> split_lines(r.spec_bytes()) == lines.skip(i as int),
            rest is None ==> i == lines.len(),
        decreases after_line_number - i,
    {
        match rest {
            Some(r) => {
                let (_line, next) = next_line(r);
                proof {
                    match next {
                        Some(n) => {
                            let l0 = lines.skip(i as int);
                            assert(l0.drop_first() =~= split_lines(n.spec_bytes()));
                            assert(lines.skip(i + 1) =~= l0.drop_first());
                        },
                        None => {
                            assert(lines.skip(i as int).len() == 1);
                        },
                    }
                }
                rest = next;
                i = i + 1;
            },
            None => {
                return None;
            },
        }
    }
    if rest.is_none() {
        return None;
    }
    proof {
        assert(first_command_from(parser, lines, after_line_number as int) == first_command_from(
            parser,
            lines,
            i as int,
        ));
    }
    while rest.is_some()
        invariant
            lines == split_lines(content.spec_bytes()),
            lines.len() <= content.spec_bytes().len() + 1,
            content.spec_bytes().len() < usize::MAX,
            after_line_number <= i <= lines.len(),
            after_line_number < lines.len(),
            rest matches Some(r) ==> split_lines(r.spec_bytes()) == lines.skip(i as int),
            rest is None ==> i == lines.len(),
            first_command_from(parser, lines, after_line_number as int) == first_command_from(
                parser,
                lines,
                i as int,
            ),
        decreases lines.len() - i,
    {
        let r = rest.unwrap();
        let (line, next) = next_line(r);
        proof {
            assert(lines.skip(i as int)[0] == line.spec_bytes());
            assert(lines[i as int] == line.spec_bytes());
        }
        let parsed = parse_line(parser, line, false);
        if is_command(&parsed) {
            return Some(i + 1);
        }
        proof {
            match next {
                Some(n) => {
                    let l0 = lines.skip(i as int);
                    assert(l0.drop_first() =~= split_lines(n.spec_bytes()));
                    assert(lines.skip(i + 1) =~= l0.drop_first());
                },
                None => {
                    assert(lines.skip(i as int).len() == 1);
                },
            }
        }
        rest = next;
        i = i + 1;
    }
    if allow_empty_lines {
        Some(after_line_number + 1)
    } else {
        None
    }
}

/// The number of the line at which execution of the function file `content` starts.
pub fn find_first_target_line_number(parser: &CommandParser, content: &str) -> (res: usize)
    requires
        content.spec_bytes().len() < usize::MAX,
    ensures
        res == first_target_spec(parser, content.spec_bytes()),
{
    match find_step_target_line_number(parser, content, 0, false) {
        Some(n) => n,
        None => 1,
    }
}

/// The line with the index `index` of `content`, if it has one.
fn nth_line(content: &str, index: usize) -> (res: Option<&str>)
    ensures
        ({
            let lines = split_lines(content.spec_bytes());
            if index < lines.len() {
                res matches Some(l) && l.spec_bytes() == lines[index as int]
            } else {
                res is None
            }
        }),
{
    let ghost lines = split_lines(content.spec_bytes());
    let mut rest = content;
    let mut i: usize = 0;
    proof {
        assert(lines.skip(0) =~= lines);
    }
    loop
        invariant
            lines == split_lines(content.spec_bytes()),
            i <= index,
            i < lines.len(),
            split_lines(rest.spec_bytes()) == lines.skip(i as int),
        decreases rest.spec_bytes().len(),
    {
        let (line, next) = next_line(rest);
        proof {
            assert(lines.skip(i as int)[0] == line.spec_bytes());
        }
        if i == index {
            return Some(line);
        }
        match next {
            Some(n) => {
                proof {
                    let l0 = lines.skip(i as int);
                    assert(l0.drop_first() =~= split_lines(n.spec_bytes()));
                    assert(lines.skip(i + 1) =~= l0.drop_first());
                    crate::adapter::stepping::lemma_split_lines_len(n.spec_bytes());
                }
                rest = n;
                i = i + 1;
            },
            None => {
                proof {
                    assert(lines.skip(i as int).len() == 1);
                }
                return None;
            },
        }
    }
}

/// What the line numbered `line_number` of the function file `b` is, if the file has that line.
pub open spec fn kind_of_line(parser: &CommandParser, b: Seq<u8>, line_number: int) -> Option<LineModel> {
    let lines = split_lines(b);
    if 1 <= line_number <= lines.len() {
        Some(line_kind(parser, trimmed_both(lines[line_number - 1]), false))
    } else {
        None
    }
}

/// The function that the line numbered `line_number` of the file `b` calls, if it calls one.
pub open spec fn function_command_spec(parser: &CommandParser, b: Seq<u8>, line_number: int) -> Option<(Seq<u8>, usize)> {
    match kind_of_line(parser, b, line_number) {
        Some(LineModel::FunctionCall(_, name, _)) => Some(name),
        _ => None,
    }
}

/// The function that the line numbered `line_number` of the function file `content` calls, if
/// it calls one.
pub fn get_function_command(parser: &CommandParser, content: &str, line_number: usize) -> (res: Option<ResourceLocation>)
    requires
        line_number >= 1,
    ensures
        match function_command_spec(parser, content.spec_bytes(), line_number as int) {
            Some(m) => res matches Some(r) && location_model(r) == m,
            None => res is None,
        },
{
    match nth_line(content, line_number - 1) {
        Some(line) => match parse_line(parser, line, false) {
            Line::FunctionCall { name, .. } => Some(name),
            _ => None,
        },
        None => None,
    }
}

/// Whether a breakpoint can be on the line numbered `line_number` of the function file
/// `content`: whether the file has that line and it is a command.
pub fn verify_breakpoint(parser: &CommandParser, content: &str, line_number: usize) -> (res: bool)
    requires
        line_number >= 1,
    ensures
        res == match kind_of_line(parser, content.spec_bytes(), line_number as int) {
            Some(k) => is_command_kind(k),
            None => false,
        },
{
    match nth_line(content, line_number - 1) {
        Some(line) => {
            let parsed = parse_line(parser, line, false);
            is_command(&parsed)
        },
        None => false,
    }
}

/// The condition of a step breakpoint at the call depth `depth`.
pub open spec fn step_condition(namespace: Seq<u8>, depth: nat) -> Seq<u8> {
    "if score current ".spec_bytes() + namespace + "_depth matches ".spec_bytes() + decimal(depth)
}

/// The value of a breakpoint in a function: the namespace and path of the function, the line and
/// the place in the line, and the condition of a step breakpoint.
pub open spec fn breakpoint_model(b: (ResourceLocation, LocalBreakpoint)) -> ((Seq<u8>, Seq<u8>), usize, BreakpointPositionInLine, Option<Seq<u8>>) {
    (
        b.0.model_of(),
        b.1.position.line_number,
        b.1.position.position_in_line,
        match b.1.kind {
            BreakpointKind::Step { condition } => Some(string_bytes(&condition)),
            _ => None,
        },
    )
}

/// The values of breakpoints.
pub open spec fn breakpoints_model(v: Seq<(ResourceLocation, LocalBreakpoint)>) -> Seq<((Seq<u8>, Seq<u8>), usize, BreakpointPositionInLine, Option<Seq<u8>>)> {
    Seq::new(v.len(), |i: int| breakpoint_model(v[i]))
}

/// The value of a step breakpoint.
pub open spec fn step_model(
    namespace: Seq<u8>,
    function: (Seq<u8>, Seq<u8>),
    line_number: int,
    position_in_line: BreakpointPositionInLine,
    depth: nat,
) -> ((Seq<u8>, Seq<u8>), usize, BreakpointPositionInLine, Option<Seq<u8>>) {
    (function, line_number as usize, position_in_line, Some(step_condition(namespace, depth)))
}

/// A breakpoint at `line_number` and `position_in_line` of `function` that suspends execution at
/// the call depth `depth` only.
pub fn new_step_breakpoint(
    namespace: &str,
    function: ResourceLocation,
    line_number: usize,
    position_in_line: BreakpointPositionInLine,
    depth: usize,
) -> (res: (ResourceLocation, LocalBreakpoint))
    ensures
        breakpoint_model(res) == step_model(
            namespace.spec_bytes(),
            function.model_of(),
            line_number as int,
            position_in_line,
            depth as nat,
        ),
{
    let mut condition = to_string("if score current ");
    let ghost c0 = condition@;
    condition.append(namespace);
    let ghost c1 = condition@;
    condition.append("_depth matches ");
    let ghost c2 = condition@;
    let digits = usize_to_string(depth);
    condition.append(digits.as_str());
    proof {
        lemma_encode_concat(c0, namespace@);
        lemma_encode_concat(c1, "_depth matches "@);
        lemma_encode_concat(c2, digits@);
    }
    let kind = BreakpointKind::Step { condition };
    let position = LocalBreakpointPosition { line_number, position_in_line };
    (function, LocalBreakpoint { kind, position })
}

/// The breakpoints that a step out of the innermost frame of `stack_trace` stops at: in the
/// caller, at the line after the call, or right after the call where no line follows it.
/// `caller_content` is the file of the caller.
pub open spec fn step_out_spec(
    parser: &CommandParser,
    namespace: Seq<u8>,
    stack_trace: Seq<SourceLocation>,
    caller_content: Seq<u8>,
) -> Seq<((Seq<u8>, Seq<u8>), usize, BreakpointPositionInLine, Option<Seq<u8>>)> {
    if stack_trace.len() <= 1 {
        Seq::empty()
    } else {
        let caller = stack_trace[1];
        let target = step_target_spec(parser, caller_content, caller.line_number as int, true);
        let (line, position) = match target {
            Some(n) => (n, BreakpointPositionInLine::Breakpoint),
            None => (caller.line_number as int, BreakpointPositionInLine::AfterFunction),
        };
        seq![step_model(namespace, caller.function.model_of(), line, position, (stack_trace.len() - 2) as nat)]
    }
}

/// The breakpoints for a step out of the innermost frame of `stack_trace`.
pub fn create_step_out_breakpoint(
    parser: &CommandParser,
    namespace: &str,
    stack_trace: &[SourceLocation],
    caller_content: &str,
) -> (res: Vec<(ResourceLocation, LocalBreakpoint)>)
    requires
        caller_content.spec_bytes().len() < usize::MAX,
    ensures
        breakpoints_model(res@) == step_out_spec(
            parser,
            namespace.spec_bytes(),
            stack_trace@,
            caller_content.spec_bytes(),
        ),
{
    let mut breakpoints: Vec<(ResourceLocation, LocalBreakpoint)> = Vec::new();
    if stack_trace.len() <= 1 {
        proof {
            assert(breakpoints_model(breakpoints@) =~= Seq::empty());
        }
        return breakpoints;
    }
    let caller = &stack_trace[1];
    let line_number = find_step_target_line_number(parser, caller_content, caller.line_number, true);
    let (line, position_in_line) = match line_number {
        Some(n) => (n, BreakpointPositionInLine::Breakpoint),
        None => (caller.line_number, BreakpointPositionInLine::AfterFunction),
    };
    let caller_depth = stack_trace.len() - 2;
    let b = new_step_breakpoint(namespace, caller.function.clone(), line, position_in_line, caller_depth);
    breakpoints.push(b);
    proof {
        assert(breakpoints_model(breakpoints@) =~= seq![breakpoint_model(b)]);
    }
    breakpoints
}


/// The breakpoints that a step over the current line of the innermost frame of `stack_trace`
/// stops at: the next command of the current function; or, where it has none, those of a step
/// out and its first command, for the next executor. `current_content` and `caller_content` are
/// the files of the current function and of its caller.
pub open spec fn step_over_spec(
    parser: &CommandParser,
    namespace: Seq<u8>,
    stack_trace: Seq<SourceLocation>,
    current_content: Seq<u8>,
    caller_content: Seq<u8>,
) -> Seq<((Seq<u8>, Seq<u8>), usize, BreakpointPositionInLine, Option<Seq<u8>>)> {
    if stack_trace.len() == 0 {
        Seq::empty()
    } else {
        let current = stack_trace[0];
        let depth = (stack_trace.len() - 1) as nat;
        match step_target_spec(parser, current_content, current.line_number as int, false) {
            Some(n) => seq![
                step_model(namespace, current.function.model_of(), n, BreakpointPositionInLine::Breakpoint, depth),
            ],
            None => step_out_spec(parser, namespace, stack_trace, caller_content) + seq![
                step_model(
                    namespace,
                    current.function.model_of(),
                    first_target_spec(parser, current_content),
                    BreakpointPositionInLine::Breakpoint,
                    depth,
                ),
            ],
        }
    }
}

/// The breakpoints for a step over the current line of the innermost frame of `stack_trace`.
pub fn create_step_over_breakpoints(
    parser: &CommandParser,
    namespace: &str,
    stack_trace: &[SourceLocation],
    current_content: &str,
    caller_content: &str,
) -> (res: Vec<(ResourceLocation, LocalBreakpoint)>)
    requires
        current_content.spec_bytes().len() < usize::MAX,
        caller_content.spec_bytes().len() < usize::MAX,
    ensures
        breakpoints_model(res@) == step_over_spec(
            parser,
            namespace.spec_bytes(),
            stack_trace@,
            current_content.spec_bytes(),
            caller_content.spec_bytes(),
        ),
{
    let mut breakpoints: Vec<(ResourceLocation, LocalBreakpoint)> = Vec::new();
    if stack_trace.len() == 0 {
        proof {
            assert(breakpoints_model(breakpoints@) =~= Seq::empty());
        }
        return breakpoints;
    }
    let current = &stack_trace[0];
    let current_depth = stack_trace.len() - 1;
    match find_step_target_line_number(parser, current_content, current.line_number, false) {
        Some(next_line_number) => {
            let b = new_step_breakpoint(
                namespace,
                current.function.clone(),
                next_line_number,
                BreakpointPositionInLine::Breakpoint,
                current_depth,
            );
            breakpoints.push(b);
            proof {
                assert(breakpoints_model(breakpoints@) =~= seq![breakpoint_model(b)]);
            }
        },
        None => {
            let out = create_step_out_breakpoint(parser, namespace, stack_trace, caller_content);
            let first_line_number = find_first_target_line_number(parser, current_content);
            let b = new_step_breakpoint(
                namespace,
                current.function.clone(),
                first_line_number,
                BreakpointPositionInLine::Breakpoint,
                current_depth,
            );
            let mut out = out;
            let ghost before = out@;
            out.push(b);
            proof {
                assert(breakpoints_model(out@) =~= breakpoints_model(before) + seq![breakpoint_model(b)]);
            }
            breakpoints = out;
        },
    }
    breakpoints
}

/// The breakpoints that a step into the current line of the innermost frame of `stack_trace`
/// stops at: the first command of the function that the line calls, if it calls one, and those
/// of a step over the line. `callee_content` is the file of the called function.
pub open spec fn step_in_spec(
    parser: &CommandParser,
    namespace: Seq<u8>,
    stack_trace: Seq<SourceLocation>,
    current_content: Seq<u8>,
    callee_content: Seq<u8>,
    caller_content: Seq<u8>,
) -> Seq<((Seq<u8>, Seq<u8>), usize, BreakpointPositionInLine, Option<Seq<u8>>)> {
    if stack_trace.len() == 0 {
        Seq::empty()
    } else {
        let current = stack_trace[0];
        let depth = (stack_trace.len() - 1) as nat;
        let callee = function_command_spec(parser, current_content, current.line_number as int);
        let into = match callee {
            Some((text, namespace_len)) => seq![
                step_model(
                    namespace,
                    location_namespace_path(text, namespace_len),
                    first_target_spec(parser, callee_content),
                    BreakpointPositionInLine::Breakpoint,
                    depth + 1,
                ),
            ],
            None => Seq::empty(),
        };
        into + step_over_spec(parser, namespace, stack_trace, current_content, caller_content)
    }
}

/// The namespace and path of the resource location with the text `text` and the namespace
/// length `namespace_len`.
pub open spec fn location_namespace_path(text: Seq<u8>, namespace_len: usize) -> (Seq<u8>, Seq<u8>) {
    if namespace_len == usize::MAX {
        ("minecraft".spec_bytes(), text)
    } else {
        (text.subrange(0, namespace_len as int), text.subrange(namespace_len + 1, text.len() as int))
    }
}

/// The breakpoints for a step into the current line of the innermost frame of `stack_trace`.
pub fn create_step_in_breakpoints(
    parser: &CommandParser,
    namespace: &str,
    stack_trace: &[SourceLocation],
    current_content: &str,
    callee_content: &str,
    caller_content: &str,
) -> (res: Vec<(ResourceLocation, LocalBreakpoint)>)
    requires
        stack_trace@.len() > 0 ==> stack_trace@[0].line_number >= 1,
        current_content.spec_bytes().len() < usize::MAX,
        callee_content.spec_bytes().len() < usize::MAX,
        caller_content.spec_bytes().len() < usize::MAX,
    ensures
        breakpoints_model(res@) == step_in_spec(
            parser,
            namespace.spec_bytes(),
            stack_trace@,
            current_content.spec_bytes(),
            callee_content.spec_bytes(),
            caller_content.spec_bytes(),
        ),
{
    let mut breakpoints: Vec<(ResourceLocation, LocalBreakpoint)> = Vec::new();
    if stack_trace.len() == 0 {
        proof {
            assert(breakpoints_model(breakpoints@) =~= Seq::empty());
        }
        return breakpoints;
    }
    let current = &stack_trace[0];
    let current_depth = stack_trace.len() - 1;
    match get_function_command(parser, current_content, current.line_number) {
        Some(callee) => {
            let callee_line_number = find_first_target_line_number(parser, callee_content);
            let b = new_step_breakpoint(
                namespace,
                callee,
                callee_line_number,
                BreakpointPositionInLine::Breakpoint,
                current_depth + 1,
            );
            breakpoints.push(b);
            proof {
                assert(breakpoints_model(breakpoints@) =~= seq![breakpoint_model(b)]);
            }
        },
        None => {
            proof {
                assert(breakpoints_model(breakpoints@) =~= Seq::empty());
            }
        },
    }
    let over = create_step_over_breakpoints(parser, namespace, stack_trace, current_content, caller_content);
    let ghost before = breakpoints@;
    let mut over = over;
    let ghost over_v = over@;
    breakpoints.append(&mut over);
    proof {
        assert(breakpoints_model(breakpoints@) =~= breakpoints_model(before) + breakpoints_model(over_v));
    }
    breakpoints
}

/// The concatenation of the texts `parts`.
pub open spec fn concat_bytes(parts: Seq<&str>) -> Seq<u8>
    decreases parts.len(),
{
    if parts.len() == 0 {
        Seq::empty()
    } else {
        concat_bytes(parts.drop_last()) + parts.last().spec_bytes()
    }
}

/// The texts `parts`, one after the other.
pub(crate) fn concat_parts(parts: &[&str]) -> (res: String)
    ensures
        string_bytes(&res) == concat_bytes(parts@),
{
    let mut s = String::new();
    let mut i: usize = 0;
    proof {
        assert(parts@.take(0) =~= Seq::<&str>::empty());
        assert(string_bytes(&s) =~= Seq::<u8>::empty());
    }
    while i < parts.len()
        invariant
            i <= parts@.len(),
            string_bytes(&s) == concat_bytes(parts@.take(i as int)),
        decreases parts@.len() - i,
    {
        let ghost before = s@;
        s.append(parts[i]);
        proof {
            lemma_encode_concat(before, parts@[i as int]@);
            assert(parts@.take(i + 1).drop_last() =~= parts@.take(i as int));
        }
        i = i + 1;
    }
    proof {
        assert(parts@.take(i as int) =~= parts@);
    }
    s
}

/// The tag that marks the entities of a breakpoint at `p`.
pub open spec fn position_tag(namespace: Seq<u8>, p: BreakpointPosition) -> Seq<u8> {
    namespace + seq!['+' as u8] + breakpoint_position_bytes(p)
}

/// The commands that move the tag of the breakpoint at `old` to `new`: none where they are at
/// the same position.
pub open spec fn move_commands(namespace: Seq<u8>, old: BreakpointPosition, new: BreakpointPosition) -> Seq<Seq<u8>> {
    let breakpoint_tag = namespace + "_breakpoint".spec_bytes();
    let tmp_tag = namespace + "_tmp".spec_bytes();
    let old_tag = position_tag(namespace, old);
    let new_tag = position_tag(namespace, new);
    if position_model(old) == position_model(new) {
        Seq::empty()
    } else {
        seq![
            "tag @e[tag=".spec_bytes() + breakpoint_tag + ",tag=".spec_bytes() + old_tag + ",tag=!".spec_bytes() + tmp_tag + "] add ".spec_bytes() + new_tag,
            "tag @e[tag=".spec_bytes() + breakpoint_tag + ",tag=".spec_bytes() + old_tag + "] add ".spec_bytes() + tmp_tag,
            "tag @e[tag=".spec_bytes() + breakpoint_tag + ",tag=".spec_bytes() + old_tag + ",tag=".spec_bytes() + new_tag + "] remove ".spec_bytes() + old_tag,
        ]
    }
}

/// The commands that move the tags of the first `k` breakpoints of `olds` to those of `news`.
pub open spec fn all_move_commands(
    namespace: Seq<u8>,
    olds: Seq<BreakpointPosition>,
    news: Seq<BreakpointPosition>,
    k: int,
) -> Seq<Seq<u8>>
    decreases k,
{
    if k <= 0 {
        Seq::empty()
    } else {
        all_move_commands(namespace, olds, news, k - 1) + move_commands(namespace, olds[k - 1], news[k - 1])
    }
}

/// The commands that move the tags of the breakpoints at `olds` to those at `news`, pair by pair,
/// and then remove the temporary tag.
pub open spec fn move_breakpoint_commands_spec(
    namespace: Seq<u8>,
    olds: Seq<BreakpointPosition>,
    news: Seq<BreakpointPosition>,
) -> Seq<Seq<u8>> {
    let k = if olds.len() <= news.len() {
        olds.len() as int
    } else {
        news.len() as int
    };
    let breakpoint_tag = namespace + "_breakpoint".spec_bytes();
    let tmp_tag = namespace + "_tmp".spec_bytes();
    all_move_commands(namespace, olds, news, k) + seq![
        "tag @e[tag=".spec_bytes() + breakpoint_tag + ",tag=".spec_bytes() + tmp_tag + "] remove ".spec_bytes() + tmp_tag,
    ]
}

/// The texts of commands.
pub open spec fn commands_model(v: Seq<String>) -> Seq<Seq<u8>> {
    Seq::new(v.len(), |i: int| string_bytes(&v[i]))
}

/// The commands that move the tag of the breakpoint at `old` to `new`.
#[verifier::spinoff_prover]
#[verifier::rlimit(30)]
fn pair_commands(
    namespace: &str,
    breakpoint_tag: &str,
    tmp_tag: &str,
    old_position: &BreakpointPosition,
    new_position: &BreakpointPosition,
) -> (res: Vec<String>)
    requires
        breakpoint_tag.spec_bytes() == namespace.spec_bytes() + "_breakpoint".spec_bytes(),
        tmp_tag.spec_bytes() == namespace.spec_bytes() + "_tmp".spec_bytes(),
    ensures
        commands_model(res@) == move_commands(namespace.spec_bytes(), *old_position, *new_position),
{
    let mut commands: Vec<String> = Vec::new();
    let same = old_position.function == new_position.function
        && old_position.line_number == new_position.line_number
        && old_position.position_in_line == new_position.position_in_line;
    if same {
        proof {
            assert(commands_model(commands@) =~= Seq::<Seq<u8>>::empty());
        }
        return commands;
    }
    let old_text = old_position.to_string();
    let new_text = new_position.to_string();
    proof {
        reveal_strlit("+");
        crate::text::lemma_ascii_text("+");
        assert("+".spec_bytes() =~= seq!['+' as u8]);
    }
    let old_tag = concat_parts(&[namespace, "+", old_text.as_str()]);
    assert(string_bytes(&old_tag) == position_tag(namespace.spec_bytes(), *old_position)) by {
        reveal_with_fuel(concat_bytes, 4);
    }
    let new_tag = concat_parts(&[namespace, "+", new_text.as_str()]);
    assert(string_bytes(&new_tag) == position_tag(namespace.spec_bytes(), *new_position)) by {
        reveal_with_fuel(concat_bytes, 4);
    }
    let parts1 = [
        "tag @e[tag=",
        breakpoint_tag,
        ",tag=",
        old_tag.as_str(),
        ",tag=!",
        tmp_tag,
        "] add ",
        new_tag.as_str(),
    ];
    let c1 = concat_parts(&parts1);
    assert(string_bytes(&c1) == move_commands(namespace.spec_bytes(), *old_position, *new_position)[0]) by {
        reveal_with_fuel(concat_bytes, 9);
    }
    let parts2 = ["tag @e[tag=", breakpoint_tag, ",tag=", old_tag.as_str(), "] add ", tmp_tag];
    let c2 = concat_parts(&parts2);
    assert(string_bytes(&c2) == move_commands(namespace.spec_bytes(), *old_position, *new_position)[1]) by {
        reveal_with_fuel(concat_bytes, 7);
    }
    let parts3 = [
        "tag @e[tag=",
        breakpoint_tag,
        ",tag=",
        old_tag.as_str(),
        ",tag=",
        new_tag.as_str(),
        "] remove ",
        old_tag.as_str(),
    ];
    let c3 = concat_parts(&parts3);
    assert(string_bytes(&c3) == move_commands(namespace.spec_bytes(), *old_position, *new_position)[2]) by {
        reveal_with_fuel(concat_bytes, 9);
    }
    commands.push(c1);
    commands.push(c2);
    commands.push(c3);
    proof {
        assert(commands_model(commands@) =~= move_commands(namespace.spec_bytes(), *old_position, *new_position));
    }
    commands
}

/// The commands that move the tags of the breakpoints at `old_positions` to those at
/// `new_positions`.
pub fn get_move_breakpoint_commands(
    old_positions: &[BreakpointPosition],
    new_positions: &[BreakpointPosition],
    namespace: &str,
) -> (res: Vec<String>)
    ensures
        commands_model(res@) == move_breakpoint_commands_spec(
            namespace.spec_bytes(),
            old_positions@,
            new_positions@,
        ),
{
    let tmp_tag = concat_parts(&[namespace, "_tmp"]);
    let breakpoint_tag = concat_parts(&[namespace, "_breakpoint"]);
    proof {
        reveal_with_fuel(concat_bytes, 3);
    }
    let n = if old_positions.len() <= new_positions.len() {
        old_positions.len()
    } else {
        new_positions.len()
    };
    let ghost ns = namespace.spec_bytes();
    let ghost olds = old_positions@;
    let ghost news = new_positions@;
    let mut commands: Vec<String> = Vec::new();
    let mut i: usize = 0;
    proof {
        assert(commands_model(commands@) =~= Seq::empty());
    }
    while i < n
        invariant
            n <= olds.len(),
            n <= news.len(),
            olds == old_positions@,
            news == new_positions@,
            ns == namespace.spec_bytes(),
            i <= n,
            string_bytes(&tmp_tag) == ns + "_tmp".spec_bytes(),
            string_bytes(&breakpoint_tag) == ns + "_breakpoint".spec_bytes(),
            commands_model(commands@) == all_move_commands(ns, olds, news, i as int),
        decreases n - i,
    {
        let ghost before = commands@;
        let mut pair = pair_commands(
            namespace,
            breakpoint_tag.as_str(),
            tmp_tag.as_str(),
            &old_positions[i],
            &new_positions[i],
        );
        let ghost pair_v = pair@;
        commands.append(&mut pair);
        proof {
            assert(commands_model(commands@) =~= commands_model(before) + commands_model(pair_v));
        }
        i = i + 1;
    }
    let last = concat_parts(
        &["tag @e[tag=", breakpoint_tag.as_str(), ",tag=", tmp_tag.as_str(), "] remove ", tmp_tag.as_str()],
    );
    let ghost before = commands@;
    commands.push(last);
    proof {
        reveal_with_fuel(concat_bytes, 7);
        assert(commands_model(commands@) =~= commands_model(before) + seq![string_bytes(&last)]);
    }
    commands
}

/// Whether a breakpoint can be on the line numbered `line_number` of the file `b`.
pub open spec fn breakpoint_valid(parser: &CommandParser, b: Seq<u8>, line_number: int) -> bool {
    match kind_of_line(parser, b, line_number) {
        Some(k) => is_command_kind(k),
        None => false,
    }
}

/// The breakpoints that the client sets at `line_numbers` of the function file `content`:
/// normal breakpoints on commands and invalid ones elsewhere, each before its line.
pub fn new_breakpoints(parser: &CommandParser, content: &str, line_numbers: &[usize]) -> (res: Vec<LocalBreakpoint>)
    requires
        forall|i: int| 0 <= i < line_numbers@.len() ==> line_numbers@[i] >= 1,
    ensures
        res@.len() == line_numbers@.len(),
        forall|i: int|
            0 <= i < line_numbers@.len() ==> {
                &&& (#[trigger] res@[i]).position == LocalBreakpointPosition {
                    line_number: line_numbers@[i],
                    position_in_line: BreakpointPositionInLine::Breakpoint,
                }
                &&& if breakpoint_valid(parser, content.spec_bytes(), line_numbers@[i] as int) {
                    res@[i].kind is Normal
                } else {
                    res@[i].kind is Invalid
                }
            },
{
    let mut breakpoints: Vec<LocalBreakpoint> = Vec::new();
    let mut i: usize = 0;
    while i < line_numbers.len()
        invariant
            i <= line_numbers@.len(),
            forall|j: int| 0 <= j < line_numbers@.len() ==> line_numbers@[j] >= 1,
            breakpoints@.len() == i,
            forall|j: int|
                0 <= j < i ==> {
                    &&& (#[trigger] breakpoints@[j]).position == LocalBreakpointPosition {
                        line_number: line_numbers@[j],
                        position_in_line: BreakpointPositionInLine::Breakpoint,
                    }
                    &&& if breakpoint_valid(parser, content.spec_bytes(), line_numbers@[j] as int) {
                        breakpoints@[j].kind is Normal
                    } else {
                        breakpoints@[j].kind is Invalid
                    }
                },
        decreases line_numbers@.len() - i,
    {
        let line_number = line_numbers[i];
        let verified = verify_breakpoint(parser, content, line_number);
        let kind = if verified {
            BreakpointKind::Normal
        } else {
            BreakpointKind::Invalid
        };
        let position = LocalBreakpointPosition {
            line_number,
            position_in_line: BreakpointPositionInLine::Breakpoint,
        };
        breakpoints.push(LocalBreakpoint { kind, position });
        i = i + 1;
    }
    breakpoints
}

/// What the debug adapter answers for a breakpoint that the client asked for.
#[derive(Clone, Copy, Debug, PartialEq, Eq)]
pub struct BreakpointReply {
    /// The number of the breakpoint, where it could be set.
    pub id: Option<i32>,
    /// Whether the breakpoint could be set.
    pub verified: bool,
    /// The line of the breakpoint, as the client counts lines.
    pub line: i32,
}

/// The breakpoints that the client asks for at the lines `client_lines` of the function file
/// `content`, where the client's line numbers are `offset` less than the adapter's, and what the
/// adapter answers for each: the breakpoint at position `i` is numbered `i` plus `other_functions`,
/// the number of other functions with breakpoints, where it could be set; its line is the client's.
pub fn set_breakpoints(
    parser: &CommandParser,
    content: &str,
    client_lines: &[usize],
    offset: usize,
    other_functions: usize,
) -> (res: (Vec<LocalBreakpoint>, Vec<BreakpointReply>))
    requires
        forall|i: int| 0 <= i < client_lines@.len() ==> 1 <= #[trigger] client_lines@[i] + offset <= usize::MAX,
        client_lines@.len() + other_functions <= usize::MAX,
    ensures
        res.0@.len() == client_lines@.len(),
        res.1@.len() == client_lines@.len(),
        forall|i: int|
            0 <= i < client_lines@.len() ==> {
                let line_number = client_lines@[i] + offset;
                let valid = breakpoint_valid(parser, content.spec_bytes(), line_number);
                &&& (#[trigger] res.0@[i]).position == (LocalBreakpointPosition {
                    line_number: line_number as usize,
                    position_in_line: BreakpointPositionInLine::Breakpoint,
                })
                &&& if valid {
                    res.0@[i].kind is Normal
                } else {
                    res.0@[i].kind is Invalid
                }
                &&& res.1@[i] == (BreakpointReply {
                    id: if valid {
                        Some((i + other_functions) as i32)
                    } else {
                        None
                    },
                    verified: valid,
                    line: client_lines@[i] as i32,
                })
            },
{
    let mut line_numbers: Vec<usize> = Vec::new();
    let mut i: usize = 0;
    while i < client_lines.len()
        invariant
            i <= client_lines@.len(),
            forall|j: int| 0 <= j < client_lines@.len() ==> 1 <= #[trigger] client_lines@[j] + offset <= usize::MAX,
            line_numbers@.len() == i,
            forall|j: int| 0 <= j < i ==> #[trigger] line_numbers@[j] == client_lines@[j] + offset,
        decreases client_lines@.len() - i,
    {
        line_numbers.push(client_lines[i] + offset);
        i = i + 1;
    }
    let breakpoints = new_breakpoints(parser, content, line_numbers.as_slice());
    let mut replies: Vec<BreakpointReply> = Vec::new();
    let mut k: usize = 0;
    while k < client_lines.len()
        invariant
            k <= client_lines@.len(),
            client_lines@.len() + other_functions <= usize::MAX,
            line_numbers@.len() == client_lines@.len(),
            breakpoints@.len() == client_lines@.len(),
            forall|j: int| 0 <= j < client_lines@.len() ==> #[trigger] line_numbers@[j] == client_lines@[j] + offset,
            forall|j: int|
                0 <= j < client_lines@.len() ==> if breakpoint_valid(parser, content.spec_bytes(), line_numbers@[j] as int) {
                    (#[trigger] breakpoints@[j]).kind is Normal
                } else {
                    breakpoints@[j].kind is Invalid
                },
            replies@.len() == k,
            forall|j: int|
                0 <= j < k ==> #[trigger] replies@[j] == (BreakpointReply {
                    id: if breakpoint_valid(parser, content.spec_bytes(), client_lines@[j] + offset) {
                        Some((j + other_functions) as i32)
                    } else {
                        None
                    },
                    verified: breakpoint_valid(parser, content.spec_bytes(), client_lines@[j] + offset),
                    line: client_lines@[j] as i32,
                }),
        decreases client_lines@.len() - k,
    {
        let verified = match breakpoints[k].kind {
            BreakpointKind::Normal => true,
            _ => false,
        };
        proof {
            assert(line_numbers@[k as int] == client_lines@[k as int] + offset);
        }
        let id = if verified {
            Some((k + other_functions) as i32)
        } else {
            None
        };
        replies.push(BreakpointReply { id, verified, line: client_lines[k] as i32 });
        k = k + 1;
    }
    (breakpoints, replies)
}

/// Whether the breakpoints of a function move with its lines: where the client reports that the
/// file was modified and the number of its breakpoints stays the same.
pub fn breakpoints_move(source_modified: bool, old_count: usize, new_count: usize) -> (res: bool)
    ensures
        res == (source_modified && old_count == new_count),
{
    source_modified && old_count == new_count
}

} // verus!
