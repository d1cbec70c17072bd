//! Expansion of the templates of a debug datapack into the texts of its files. The template
//! texts are given; what is computed here is the text of each file.

use crate::entries::{put, puts, to_map, Modeled};
use crate::generator::calls::{
    callers_model, join_strings, return_case_template, return_cases, return_cases_model, texts_sorted,
};
use crate::generator::config::adapter::{
    local_position_bytes, BreakpointPositionInLine, LocalBreakpointPosition,
};
use crate::generator::config::Config;
use crate::generator::files::{function_files, named, names_increasing};
use crate::generator::partition::{
    adapter_partition, all_represent, lemma_regular_lines_within, partition, plain_partition,
    position_bytes, regular_lines_within, represents, Partition, PartitionModel, Position,
    Terminator, TerminatorModel,
};
use crate::generator::{
    breakpoint_fallback, debug_anchor, debug_anchor_spec, fn_fallback, join_lines, score_holder,
    validate_commands, validate_lines, DebugDatapackMetadata,
};
use crate::parser::command::argument::MinecraftEntityAnchor;
use crate::parser::command::resource_location::ResourceLocation;
use crate::parser::commands::NamespacedNameRef;
use crate::parser::{Line, ScheduleOperation};
use crate::sorted::{insert_string, strings_increasing, strings_model};
use crate::template_engine::{
    exclude_internal_entites_from_selectors, excluded, expand_all, pairs_of, selectors_fit,
    selectors_fit_in,
    TemplateEngine,
};
use crate::text::{
    decimal, replace, replace_char, replace_spec, replaced, splittable, string_bytes, take_str,
    usize_to_string,
};
use vstd::prelude::*;
use vstd::string::*;

verus! {

/// `b` with the placeholders of `engine` replaced: first its borrowed replacements, then its
/// owned ones.
pub open spec fn expanded(engine: TemplateEngine, b: Seq<u8>) -> Seq<u8> {
    expand_with(engine.borrowed(), engine.owned(), b)
}

/// `b` with the replacements `r` applied and then the replacements `o`.
pub open spec fn expand_with(r: Seq<(Seq<u8>, Seq<u8>)>, o: Seq<(Seq<u8>, Seq<u8>)>, b: Seq<u8>) -> Seq<u8> {
    expand_all(expand_all(b, r), o)
}

/// The bytes of pairs of texts.
pub open spec fn text_pairs(v: Seq<(String, String)>) -> Seq<(Seq<u8>, Seq<u8>)> {
    Seq::new(v.len(), |i: int| (string_bytes(&v[i].0), string_bytes(&v[i].1)))
}

/// Each template, given by its path and text, with both expanded by `engine`.
pub open spec fn expanded_files(engine: TemplateEngine, t: Seq<(Seq<u8>, Seq<u8>)>) -> Seq<(Seq<u8>, Seq<u8>)> {
    Seq::new(t.len(), |i: int| (expanded(engine, t[i].0), expanded(engine, t[i].1)))
}

/// The files of the templates that every debug datapack holds once: for each template, given as
/// its path and its text, the expanded path and the expanded text.
pub fn expand_global_templates(engine: &TemplateEngine, templates: &[(String, String)]) -> (res: Vec<(String, String)>)
    ensures
        text_pairs(res@) == expanded_files(*engine, text_pairs(templates@)),
{
    let ghost want = expanded_files(*engine, text_pairs(templates@));
    let mut files: Vec<(String, String)> = Vec::new();
    let mut i: usize = 0;
    while i < templates.len()
        invariant
            i <= templates@.len(),
            want == expanded_files(*engine, text_pairs(templates@)),
            text_pairs(files@) == want.take(i as int),
        decreases templates@.len() - i,
    {
        let path = engine.expand(templates[i].0.as_str());
        let text = engine.expand(templates[i].1.as_str());
        let ghost before = files@;
        files.push((path, text));
        proof {
            assert(text_pairs(files@) =~= text_pairs(before).push(want[i as int]));
            assert(want.take(i + 1) =~= want.take(i as int).push(want[i as int]));
        }
        i = i + 1;
    }
    proof {
        assert(want.take(i as int) =~= want);
    }
    files
}

/// The replacements with which the call of `called` at line `line_number` is expanded: its line
/// number, the called function, its score holder `holder`, the part `execute` of the line before
/// the call, and the command `anchor` that records the anchor of the call.
pub open spec fn call_replacements(
    line_number: usize,
    called: (Seq<u8>, Seq<u8>),
    holder: Seq<u8>,
    execute: Seq<u8>,
    anchor: Seq<u8>,
) -> Seq<(Seq<u8>, Seq<u8>)> {
    seq![
        ("-line_number-".spec_bytes(), decimal(line_number as nat)),
        ("-call_ns-".spec_bytes(), called.0),
        ("-call/fn-".spec_bytes(), called.1),
        ("-fn_score_holder-".spec_bytes(), holder),
        ("execute run ".spec_bytes(), execute),
        ("# -debug_anchor-".spec_bytes(), anchor),
    ]
}

/// The text of the call of `called` that ends a partition: `template` expanded by `engine`
/// extended with the replacements of the call. `line` is the line of the call, `column_index`
/// where the call starts in it, and `selectors` the selectors before that.
pub fn expand_call_terminator(
    engine: &TemplateEngine,
    metadata: &DebugDatapackMetadata,
    line_number: usize,
    line: &str,
    column_index: usize,
    called: &ResourceLocation,
    anchor: Option<MinecraftEntityAnchor>,
    selectors: &[usize],
    template: &str,
) -> (res: String)
    requires
        column_index <= line.spec_bytes().len(),
        splittable(line.spec_bytes(), column_index as int),
        selectors_fit(line.spec_bytes().subrange(0, column_index as int), selectors@),
    ensures
        string_bytes(&res) == expand_all(
            expand_all(
                template.spec_bytes(),
                puts(
                    puts(
                        Seq::empty(),
                        call_replacements(
                            line_number,
                            called.model_of(),
                            score_holder(called.text_of(), metadata.id_of(called.model_of()), fn_fallback()),
                            excluded(line.spec_bytes().subrange(0, column_index as int), selectors@),
                            debug_anchor_spec(anchor),
                        ),
                    ),
                    engine.borrowed(),
                ),
            ),
            engine.owned(),
        ),
{
    let number = usize_to_string(line_number);
    let holder = metadata.get_fn_score_holder(called);
    let execute = exclude_internal_entites_from_selectors(take_str(line, column_index), selectors);
    let anchor_command = debug_anchor(anchor);
    let replacements = vec![
        ("-line_number-", number.as_str()),
        ("-call_ns-", called.namespace()),
        ("-call/fn-", called.path()),
        ("-fn_score_holder-", holder.as_str()),
        ("execute run ", execute.as_str()),
        ("# -debug_anchor-", anchor_command.as_str()),
    ];
    proof {
        reveal_strlit("-line_number-");
        reveal_strlit("-call_ns-");
        reveal_strlit("-call/fn-");
        reveal_strlit("-fn_score_holder-");
        reveal_strlit("execute run ");
        reveal_strlit("# -debug_anchor-");
        assert(pairs_of(replacements@) =~= call_replacements(
            line_number,
            called.model_of(),
            string_bytes(&holder),
            string_bytes(&execute),
            string_bytes(&anchor_command),
        ));
    }
    let extended = engine.extend(replacements);
    extended.expand(template)
}

/// The templates with which the regular lines of a function are expanded.
pub struct LineTemplates<'t> {
    /// The commands that a `# breakpoint` line becomes.
    pub set_breakpoint: &'t str,
    /// The commands that a line which calls a function becomes.
    pub call_function: &'t str,
    /// The commands that a `schedule ... append` command becomes.
    pub schedule_append: &'t str,
    /// The commands that a `schedule clear` command becomes.
    pub schedule_clear: &'t str,
    /// The commands that a `schedule ... replace` command becomes.
    pub schedule_replace: &'t str,
}

/// The command that records the anchor of a call in a regular line, if it has one: score 1 for
/// the eyes and 0 for the feet.
pub open spec fn anchor_score_spec(anchor: Option<MinecraftEntityAnchor>) -> Seq<u8> {
    match anchor {
        None => Seq::empty(),
        Some(a) => "scoreboard players set current -ns-_anchor ".spec_bytes() + if a
            == MinecraftEntityAnchor::EYES {
            seq!['1' as u8]
        } else {
            seq!['0' as u8]
        },
    }
}

/// The command that records the anchor of a call in a regular line, as `anchor_score_spec` says.
fn anchor_score(anchor: Option<MinecraftEntityAnchor>) -> (res: String)
    ensures
        string_bytes(&res) == anchor_score_spec(anchor),
{
    match anchor {
        None => {
            let s = String::new();
            proof {
                assert(string_bytes(&s) =~= Seq::<u8>::empty());
            }
            s
        },
        Some(a) => {
            let digit = match a {
                MinecraftEntityAnchor::EYES => "1",
                MinecraftEntityAnchor::FEET => "0",
            };
            let parts = ["scoreboard players set current -ns-_anchor ", digit];
            let res = crate::adapter::stepping::concat_parts(&parts);
            proof {
                reveal_strlit("1");
                reveal_strlit("0");
                crate::text::lemma_ascii_text("1");
                crate::text::lemma_ascii_text("0");
                assert("1".spec_bytes() =~= seq!['1' as u8]);
                assert("0".spec_bytes() =~= seq!['0' as u8]);
                reveal_with_fuel(crate::adapter::stepping::concat_bytes, 3);
            }
            res
        },
    }
}

/// The replacements with which a `schedule` command of `function` is expanded: the function,
/// with each `/` of its path as `_`, and the part `execute` of the line before the command.
pub open spec fn schedule_replacements(function: (Seq<u8>, Seq<u8>), execute: Seq<u8>) -> Seq<(Seq<u8>, Seq<u8>)> {
    seq![
        ("-schedule_ns-".spec_bytes(), function.0),
        ("-schedule_fn-".spec_bytes(), replace_spec(function.1, seq!['/' as u8], seq!['_' as u8])),
        ("execute run ".spec_bytes(), execute),
    ]
}

/// The line `line` may be expanded: its selectors lie in the part of the line that is expanded.
pub open spec fn expandable_line(line: (usize, String, Line)) -> bool {
    let b = string_bytes(&line.1);
    match line.2 {
        Line::FunctionCall { column_index, selectors, .. } => {
            &&& column_index <= b.len()
            &&& splittable(b, column_index as int)
            &&& selectors_fit(b.subrange(0, column_index as int), selectors@)
        },
        Line::Schedule { schedule_start, selectors, .. } => {
            &&& schedule_start <= b.len()
            &&& splittable(b, schedule_start as int)
            &&& selectors_fit(b.subrange(0, schedule_start as int), selectors@)
        },
        Line::OtherCommand { selectors, .. } => selectors_fit(b, selectors@),
        Line::OptionalSelectorCommand { selectors, .. } => selectors_fit(b, selectors@),
        _ => true,
    }
}

/// The text of the regular line `line` of a function in a partition, with `ticks` the delay of
/// a `schedule` command in ticks:
/// - a `# breakpoint` line: the `set_breakpoint` template with its line number, expanded;
/// - a function call: the `call_function` template with the called function, the part of the
///   line before the call (internal entities excluded from its selectors) and the command that
///   records its anchor, expanded;
/// - a `schedule` command: the template of its operation, expanded by `engine` extended with the
///   replacements of the command, and for `append` and `replace` also with `ticks`;
/// - another command: the line with the internal entities excluded from its selectors, expanded;
/// - an empty line or a comment: the line as it is.
pub open spec fn expand_line_spec(
    r: Seq<(Seq<u8>, Seq<u8>)>,
    o: Seq<(Seq<u8>, Seq<u8>)>,
    line: (usize, String, Line),
    set_breakpoint: Seq<u8>,
    call_function: Seq<u8>,
    schedule_append: Seq<u8>,
    schedule_clear: Seq<u8>,
    schedule_replace: Seq<u8>,
    ticks: Seq<u8>,
) -> Seq<u8> {
    let b = string_bytes(&line.1);
    match line.2 {
        Line::FunctionCall { column_index, name, anchor, selectors, .. } => expand_with(
            r,
            o,
            replaced(
                replaced(
                    replaced(
                        replaced(call_function, "-call_ns-".spec_bytes(), name.namespace_bytes()),
                        "-call/fn-".spec_bytes(),
                        name.path_bytes(),
                    ),
                    "execute run ".spec_bytes(),
                    excluded(b.subrange(0, column_index as int), selectors@),
                ),
                "# -debug_anchor-".spec_bytes(),
                anchor_score_spec(anchor),
            ),
        ),
        Line::Breakpoint => expand_with(
            r,
            o,
            replaced(set_breakpoint, "-line_number-".spec_bytes(), decimal(line.0 as nat)),
        ),
        Line::Schedule { schedule_start, function, operation, selectors, .. } => {
            let first = puts(
                puts(
                    Seq::empty(),
                    schedule_replacements(
                        function.model_of(),
                        excluded(b.subrange(0, schedule_start as int), selectors@),
                    ),
                ),
                r,
            );
            let with_ticks = puts(puts(Seq::empty(), seq![("-ticks-".spec_bytes(), ticks)]), first);
            match operation {
                ScheduleOperation::APPEND { .. } => expand_all(
                    expand_all(schedule_append, with_ticks),
                    o,
                ),
                ScheduleOperation::CLEAR => expand_all(expand_all(schedule_clear, first), o),
                ScheduleOperation::REPLACE { .. } => expand_all(
                    expand_all(schedule_replace, with_ticks),
                    o,
                ),
            }
        },
        Line::OtherCommand { selectors, .. } => expand_with(r, o, excluded(b, selectors@)),
        Line::OptionalSelectorCommand { selectors, .. } => expand_with(r, o, excluded(b, selectors@)),
        _ => b,
    }
}

/// The text of the regular line `line` of a function, as `expand_line_spec` says; `ticks` is the
/// delay of a `schedule` command in ticks.
pub fn expand_line(
    engine: &TemplateEngine,
    line: &(usize, String, Line),
    templates: &LineTemplates,
    ticks: &str,
) -> (res: String)
    requires
        expandable_line(*line),
    ensures
        string_bytes(&res) == expand_line_spec(
            engine.borrowed(),
            engine.owned(),
            *line,
            templates.set_breakpoint.spec_bytes(),
            templates.call_function.spec_bytes(),
            templates.schedule_append.spec_bytes(),
            templates.schedule_clear.spec_bytes(),
            templates.schedule_replace.spec_bytes(),
            ticks.spec_bytes(),
        ),
{
    let text = line.1.as_str();
    match &line.2 {
        Line::FunctionCall { column_index, name, anchor, selectors, .. } => {
            let execute = exclude_internal_entites_from_selectors(take_str(text, *column_index), selectors.as_slice());
            let anchor_command = anchor_score(*anchor);
            proof {
                reveal_strlit("-call_ns-");
                reveal_strlit("-call/fn-");
                reveal_strlit("execute run ");
                reveal_strlit("# -debug_anchor-");
            }
            let t1 = replace(templates.call_function, "-call_ns-", name.namespace());
            let t2 = replace(t1.as_str(), "-call/fn-", name.path());
            let t3 = replace(t2.as_str(), "execute run ", execute.as_str());
            let t4 = replace(t3.as_str(), "# -debug_anchor-", anchor_command.as_str());
            engine.expand(t4.as_str())
        },
        Line::Breakpoint => {
            let number = usize_to_string(line.0);
            proof {
                reveal_strlit("-line_number-");
            }
            let template = replace(templates.set_breakpoint, "-line_number-", number.as_str());
            engine.expand(template.as_str())
        },
        Line::Schedule { schedule_start, function, operation, selectors, .. } => {
            let schedule_fn = replace_char(function.path(), '/', '_');
            let execute = exclude_internal_entites_from_selectors(take_str(text, *schedule_start), selectors.as_slice());
            let replacements = vec![
                ("-schedule_ns-", function.namespace()),
                ("-schedule_fn-", schedule_fn.as_str()),
                ("execute run ", execute.as_str()),
            ];
            proof {
                reveal_strlit("-schedule_ns-");
                reveal_strlit("-schedule_fn-");
                reveal_strlit("execute run ");
                assert(pairs_of(replacements@) =~= schedule_replacements(
                    function.model_of(),
                    string_bytes(&execute),
                ));
            }
            let first = engine.extend(replacements);
            match operation {
                ScheduleOperation::CLEAR => first.expand(templates.schedule_clear),
                ScheduleOperation::APPEND { .. } => {
                    let ticks_replacement = vec![("-ticks-", ticks)];
                    proof {
                        assert(pairs_of(ticks_replacement@) =~= seq![("-ticks-".spec_bytes(), ticks.spec_bytes())]);
                    }
                    let second = first.extend(ticks_replacement);
                    second.expand(templates.schedule_append)
                },
                ScheduleOperation::REPLACE { .. } => {
                    let ticks_replacement = vec![("-ticks-", ticks)];
                    proof {
                        assert(pairs_of(ticks_replacement@) =~= seq![("-ticks-".spec_bytes(), ticks.spec_bytes())]);
                    }
                    let second = first.extend(ticks_replacement);
                    second.expand(templates.schedule_replace)
                },
            }
        },
        Line::OtherCommand { selectors, .. } => {
            let excluded_line = exclude_internal_entites_from_selectors(text, selectors.as_slice());
            engine.expand(excluded_line.as_str())
        },
        Line::OptionalSelectorCommand { selectors, .. } => {
            let excluded_line = exclude_internal_entites_from_selectors(text, selectors.as_slice());
            engine.expand(excluded_line.as_str())
        },
        _ => crate::text::to_string(text),
    }
}

/// The delay in ticks given for the line `n` in `ticks`: the first one given for it, or nothing.
pub open spec fn ticks_for(ticks: Seq<(usize, Seq<u8>)>, n: usize) -> Seq<u8>
    decreases ticks.len(),
{
    if ticks.len() == 0 {
        Seq::empty()
    } else if ticks[0].0 == n {
        ticks[0].1
    } else {
        ticks_for(ticks.drop_first(), n)
    }
}

/// The line numbers and texts of `ticks`.
pub open spec fn ticks_model(ticks: Seq<(usize, String)>) -> Seq<(usize, Seq<u8>)> {
    Seq::new(ticks.len(), |i: int| (ticks[i].0, string_bytes(&ticks[i].1)))
}

/// The delay in ticks given for the line `n` in `ticks`, as `ticks_for` says.
fn find_ticks(ticks: &[(usize, String)], n: usize) -> (res: &str)
    ensures
        res.spec_bytes() == ticks_for(ticks_model(ticks@), n),
{
    let mut i: usize = 0;
    proof {
        assert(ticks_model(ticks@).skip(0) =~= ticks_model(ticks@));
    }
    while i < ticks.len()
        invariant
            i <= ticks@.len(),
            ticks_for(ticks_model(ticks@).skip(i as int), n) == ticks_for(ticks_model(ticks@), n),
        decreases ticks@.len() - i,
    {
        proof {
            let m = ticks_model(ticks@).skip(i as int);
            assert(m.drop_first() =~= ticks_model(ticks@).skip(i + 1));
        }
        if ticks[i].0 == n {
            return ticks[i].1.as_str();
        }
        i = i + 1;
    }
    proof {
        assert(ticks_model(ticks@).skip(i as int) =~= Seq::<(usize, Seq<u8>)>::empty());
        reveal_strlit("");
        assert(""@ =~= Seq::<char>::empty());
    }
    ""
}

/// The texts of the regular lines `lines`, each expanded by `expand_line_spec` with the delay
/// that `ticks` gives for its line number.
pub open spec fn expanded_lines(
    r: Seq<(Seq<u8>, Seq<u8>)>,
    o: Seq<(Seq<u8>, Seq<u8>)>,
    lines: Seq<(usize, String, Line)>,
    templates: LineTemplates,
    ticks: Seq<(usize, Seq<u8>)>,
) -> Seq<Seq<u8>> {
    Seq::new(
        lines.len(),
        |i: int| expand_line_spec(
            r,
            o,
            lines[i],
            templates.set_breakpoint.spec_bytes(),
            templates.call_function.spec_bytes(),
            templates.schedule_append.spec_bytes(),
            templates.schedule_clear.spec_bytes(),
            templates.schedule_replace.spec_bytes(),
            ticks_for(ticks, lines[i].0),
        ),
    )
}

/// The texts of the regular lines `lines`, one per line; `ticks` gives the delay in ticks of
/// each `schedule` command by its line number.
pub fn expand_lines(
    engine: &TemplateEngine,
    lines: &[(usize, String, Line)],
    templates: &LineTemplates,
    ticks: &[(usize, String)],
) -> (res: String)
    requires
        forall|i: int| 0 <= i < lines@.len() ==> expandable_line(#[trigger] lines@[i]),
    ensures
        string_bytes(&res) == join_lines(expanded_lines(engine.borrowed(), engine.owned(), lines@, *templates, ticks_model(ticks@))),
{
    let ghost want = expanded_lines(engine.borrowed(), engine.owned(), lines@, *templates, ticks_model(ticks@));
    let mut texts: Vec<String> = Vec::new();
    let mut i: usize = 0;
    proof {
        assert(strings_model(texts@) =~= want.take(0));
    }
    while i < lines.len()
        invariant
            i <= lines@.len(),
            want == expanded_lines(engine.borrowed(), engine.owned(), lines@, *templates, ticks_model(ticks@)),
            forall|j: int| 0 <= j < lines@.len() ==> expandable_line(#[trigger] lines@[j]),
            strings_model(texts@) == want.take(i as int),
        decreases lines@.len() - i,
    {
        let t = find_ticks(ticks, lines[i].0);
        let text = expand_line(engine, &lines[i], templates, t);
        let ghost before = texts@;
        texts.push(text);
        proof {
            assert(strings_model(texts@) =~= strings_model(before).push(want[i as int]));
            assert(want.take(i + 1) =~= want.take(i as int).push(want[i as int]));
        }
        i = i + 1;
    }
    proof {
        assert(want.take(i as int) =~= want);
    }
    join_strings(&texts)
}

/// The replacements with which a breakpoint at line `line_number` and position `position` in
/// its line is expanded; `column` is its column, where 0 stands for none.
pub open spec fn suspend_replacements(line_number: usize, position: Seq<u8>, column: usize) -> Seq<(Seq<u8>, Seq<u8>)> {
    seq![
        ("-line_number-".spec_bytes(), decimal(line_number as nat)),
        ("-position-".spec_bytes(), position),
        (
            "-optional_column-".spec_bytes(),
            if column == 0 {
                Seq::empty()
            } else {
                seq![':' as u8] + decimal(column as nat)
            },
        ),
    ]
}

/// The text `start-end` of the positions of a partition.
pub open spec fn positions_bytes(start: Position, end: Position) -> Seq<u8> {
    position_bytes(start) + seq!['-' as u8] + position_bytes(end)
}

/// The text `start-end` of the positions of a partition.
fn positions_text(start: &Position, end: &Position) -> (res: String)
    ensures
        string_bytes(&res) == positions_bytes(*start, *end),
{
    let a = start.to_string();
    let b = end.to_string();
    let parts = [a.as_str(), "-", b.as_str()];
    let res = crate::adapter::stepping::concat_parts(&parts);
    proof {
        reveal_strlit("-");
        crate::text::lemma_ascii_text("-");
        assert("-".spec_bytes() =~= seq!['-' as u8]);
        reveal_with_fuel(crate::adapter::stepping::concat_bytes, 4);
    }
    res
}

/// The replacements of a breakpoint: `suspend_replacements` extended by `engine`.
pub open spec fn suspend_engine(
    r: Seq<(Seq<u8>, Seq<u8>)>,
    position: LocalBreakpointPosition,
    column: usize,
) -> Seq<(Seq<u8>, Seq<u8>)> {
    puts(
        puts(
            Seq::empty(),
            suspend_replacements(position.line_number, local_position_bytes(position), column),
        ),
        r,
    )
}

/// The replacements with which the breakpoint that ends a partition is expanded: those of
/// `suspend_engine` with the positions of the next partition and the score holder `holder`.
pub open spec fn breakpoint_engine(
    r: Seq<(Seq<u8>, Seq<u8>)>,
    position: LocalBreakpointPosition,
    column: usize,
    next_start: Position,
    next_end: Position,
    holder: Seq<u8>,
) -> Seq<(Seq<u8>, Seq<u8>)> {
    puts(
        puts(
            Seq::empty(),
            seq![
                ("-next_positions-".spec_bytes(), positions_bytes(next_start, next_end)),
                ("-score_holder-".spec_bytes(), holder),
            ],
        ),
        suspend_engine(r, position, column),
    )
}

/// The breakpoint at `position` in the function `fn_name` that ends a partition, with `column`
/// its column (0 for none) and `next_start`, `next_end` the positions of the next partition:
/// the file that suspends there, as its expanded path and text, and the text of the breakpoint,
/// the `configurable` template expanded.
pub fn expand_breakpoint_terminator(
    engine: &TemplateEngine,
    metadata: &DebugDatapackMetadata,
    fn_name: &ResourceLocation,
    position: &LocalBreakpointPosition,
    column: usize,
    next_start: &Position,
    next_end: &Position,
    suspend_path: &str,
    suspend_text: &str,
    configurable: &str,
) -> (res: ((String, String), String))
    ensures
        string_bytes(&res.0.0) == expand_all(
            expand_all(suspend_path.spec_bytes(), suspend_engine(engine.borrowed(), *position, column)),
            engine.owned(),
        ),
        string_bytes(&res.0.1) == expand_all(
            expand_all(suspend_text.spec_bytes(), suspend_engine(engine.borrowed(), *position, column)),
            engine.owned(),
        ),
        string_bytes(&res.1) == expand_all(
            expand_all(
                configurable.spec_bytes(),
                breakpoint_engine(
                    engine.borrowed(),
                    *position,
                    column,
                    *next_start,
                    *next_end,
                    score_holder(
                        fn_name.text_of() + seq!['_' as u8] + local_position_bytes(*position),
                        metadata.id_of(fn_name.model_of()),
                        breakpoint_fallback(*position),
                    ),
                ),
            ),
            engine.owned(),
        ),
{
    let holder = metadata.get_breakpoint_score_holder(fn_name, position);
    let line_number = usize_to_string(position.line_number);
    let position_text = position.to_string();
    let column_text = usize_to_string(column);
    let optional_column = if column == 0 {
        String::new()
    } else {
        let parts = [":", column_text.as_str()];
        let c = crate::adapter::stepping::concat_parts(&parts);
        proof {
            reveal_strlit(":");
            crate::text::lemma_ascii_text(":");
            assert(":".spec_bytes() =~= seq![':' as u8]);
            reveal_with_fuel(crate::adapter::stepping::concat_bytes, 3);
        }
        c
    };
    let replacements = vec![
        ("-line_number-", line_number.as_str()),
        ("-position-", position_text.as_str()),
        ("-optional_column-", optional_column.as_str()),
    ];
    proof {
        reveal_strlit("-line_number-");
        reveal_strlit("-position-");
        reveal_strlit("-optional_column-");
        if column == 0 {
            assert(string_bytes(&optional_column) =~= Seq::<u8>::empty());
        }
        assert(pairs_of(replacements@) =~= suspend_replacements(
            position.line_number,
            local_position_bytes(*position),
            column,
        ));
    }
    let suspend = engine.extend(replacements);
    let path = suspend.expand(suspend_path);
    let text = suspend.expand(suspend_text);
    let next_positions = positions_text(next_start, next_end);
    let more = vec![("-next_positions-", next_positions.as_str()), ("-score_holder-", holder.as_str())];
    proof {
        reveal_strlit("-next_positions-");
        reveal_strlit("-score_holder-");
        assert(pairs_of(more@) =~= seq![
            ("-next_positions-".spec_bytes(), positions_bytes(*next_start, *next_end)),
            ("-score_holder-".spec_bytes(), string_bytes(&holder)),
        ]);
    }
    let breakpoint = suspend.extend(more);
    let terminator = breakpoint.expand(configurable);
    ((path, text), terminator)
}

/// The templates of the files that are generated for each function.
pub struct FunctionTemplates<'t> {
    /// The path and text of the file that the first partition of a function starts.
    pub next_iteration_or_return: (&'t str, &'t str),
    /// The path and text of the file that each later partition starts.
    pub continue_current_iteration_at: (&'t str, &'t str),
    /// The path and text of the file that continues at the start of a partition.
    pub continue_at: (&'t str, &'t str),
    /// The path and text of the file that suspends at a breakpoint.
    pub suspend_at: (&'t str, &'t str),
    /// The path and text of the file of the commands of a partition, with a `# -content-`
    /// placeholder for them.
    pub positions: (&'t str, &'t str),
    /// The commands of a breakpoint that ends a partition.
    pub breakpoint_configurable: &'t str,
    /// The commands of a function call that ends a partition.
    pub call_function: &'t str,
    /// The commands of the end of a function.
    pub return_command: &'t str,
    /// The paths and texts of the files that each function has once.
    pub fixed: Vec<(&'t str, &'t str)>,
    /// The path and text of the file under a function's own name that forwards to its debug
    /// function, where the datapack shadows the functions it debugs.
    pub shadow: (&'t str, &'t str),
    /// The path and text of the file that returns to the callers of a function, with a
    /// `# -return_cases-` placeholder for the commands that do so.
    pub return_self: (&'t str, &'t str),
    /// The path and text of the file that validates a function, with a `# -commands-`
    /// placeholder for its commands.
    pub validate: (&'t str, &'t str),
    /// The templates of the regular lines.
    pub lines: LineTemplates<'t>,
}

/// The file of the template `t`, its path and its text expanded with `r` and then `o`.
pub open spec fn file_with(r: Seq<(Seq<u8>, Seq<u8>)>, o: Seq<(Seq<u8>, Seq<u8>)>, t: (&str, &str)) -> (Seq<u8>, Seq<u8>) {
    (expand_with(r, o, t.0.spec_bytes()), expand_with(r, o, t.1.spec_bytes()))
}

/// The replacements `r` with the position and the positions of the partition `m`.
pub open spec fn partition_replacements(r: Seq<(Seq<u8>, Seq<u8>)>, m: PartitionModel) -> Seq<(Seq<u8>, Seq<u8>)> {
    puts(
        puts(
            Seq::empty(),
            seq![
                ("-position-".spec_bytes(), position_bytes(m.start)),
                ("-positions-".spec_bytes(), positions_bytes(m.start, m.end)),
            ],
        ),
        r,
    )
}

/// The replacements `r` with one more, of `key` by `value`.
pub open spec fn with_one(r: Seq<(Seq<u8>, Seq<u8>)>, key: Seq<u8>, value: Seq<u8>) -> Seq<(Seq<u8>, Seq<u8>)> {
    puts(puts(Seq::empty(), seq![(key, value)]), r)
}

/// The length of the text of line `n` of `lines`, counted from 1; 0 where there is no such line.
pub open spec fn line_len_at(lines: Seq<(usize, String, Line)>, n: usize) -> nat {
    if 1 <= n <= lines.len() {
        string_bytes(&lines[n - 1].1).len()
    } else {
        0
    }
}

/// The breakpoint that ends the partition `m`, if one does: a `# breakpoint` line is a breakpoint
/// at the start of its line.
pub open spec fn breakpoint_of(m: PartitionModel) -> Option<BreakpointPositionInLine> {
    match m.terminator {
        TerminatorModel::ConfigurableBreakpoint(b) => Some(b),
        TerminatorModel::Breakpoint => Some(BreakpointPositionInLine::Breakpoint),
        _ => None,
    }
}

/// The breakpoint position of the breakpoint `b` that ends the partition `m`.
pub open spec fn local_position_of(m: PartitionModel, b: BreakpointPositionInLine) -> LocalBreakpointPosition {
    LocalBreakpointPosition { line_number: m.end.line_number, position_in_line: b }
}

/// The column of the breakpoint `b` that ends the partition `m`: 1 at the start of its line, and
/// after the end of the line after a function call.
pub open spec fn breakpoint_column(lines: Seq<(usize, String, Line)>, m: PartitionModel, b: BreakpointPositionInLine) -> usize {
    match b {
        BreakpointPositionInLine::Breakpoint => 1,
        BreakpointPositionInLine::AfterFunction => (1 + line_len_at(lines, m.end.line_number)) as usize,
    }
}

/// The text of what ends the partition `m` of the function `fn_name` with the lines `lines`,
/// expanded with the replacements `rk` of the partition and then `o`; `next` is the partition
/// after it.
pub open spec fn terminator_text(
    rk: Seq<(Seq<u8>, Seq<u8>)>,
    o: Seq<(Seq<u8>, Seq<u8>)>,
    metadata: DebugDatapackMetadata,
    fn_name: ResourceLocation,
    lines: Seq<(usize, String, Line)>,
    m: PartitionModel,
    next: PartitionModel,
    t: FunctionTemplates,
) -> Seq<u8> {
    match m.terminator {
        TerminatorModel::FunctionCall(i) => match lines[i].2 {
            Line::FunctionCall { column_index, name, anchor, selectors, .. } => expand_with(
                puts(
                    puts(
                        Seq::empty(),
                        call_replacements(
                            m.end.line_number,
                            name.model_of(),
                            score_holder(name.text_of(), metadata.id_of(name.model_of()), fn_fallback()),
                            excluded(string_bytes(&lines[i].1).subrange(0, column_index as int), selectors@),
                            debug_anchor_spec(anchor),
                        ),
                    ),
                    rk,
                ),
                o,
                t.call_function.spec_bytes(),
            ),
            _ => Seq::empty(),
        },
        TerminatorModel::Return => expand_with(rk, o, t.return_command.spec_bytes()),
        _ => {
            let b = breakpoint_of(m).unwrap();
            let position = local_position_of(m, b);
            expand_with(
                breakpoint_engine(
                    rk,
                    position,
                    breakpoint_column(lines, m, b),
                    next.start,
                    next.end,
                    score_holder(
                        fn_name.text_of() + seq!['_' as u8] + local_position_bytes(position),
                        metadata.id_of(fn_name.model_of()),
                        breakpoint_fallback(position),
                    ),
                ),
                o,
                t.breakpoint_configurable.spec_bytes(),
            )
        },
    }
}

/// The file that suspends at the breakpoint that ends the partition `m`, if one does, expanded
/// with `rk` and then `o`.
pub open spec fn suspend_files(
    rk: Seq<(Seq<u8>, Seq<u8>)>,
    o: Seq<(Seq<u8>, Seq<u8>)>,
    lines: Seq<(usize, String, Line)>,
    m: PartitionModel,
    t: FunctionTemplates,
) -> Seq<(Seq<u8>, Seq<u8>)> {
    match breakpoint_of(m) {
        Some(b) => {
            let s = suspend_engine(rk, local_position_of(m, b), breakpoint_column(lines, m, b));
            seq![(expand_with(s, o, t.suspend_at.0.spec_bytes()), expand_with(s, o, t.suspend_at.1.spec_bytes()))]
        },
        None => Seq::empty(),
    }
}

/// The files of the partition `k` of `parts`: the file that starts it, the file that continues
/// at its start, the file that suspends at the breakpoint that ends it (if one does), and the
/// file of its commands, which holds its regular lines and what ends it.
pub open spec fn partition_files(
    r: Seq<(Seq<u8>, Seq<u8>)>,
    o: Seq<(Seq<u8>, Seq<u8>)>,
    metadata: DebugDatapackMetadata,
    fn_name: ResourceLocation,
    lines: Seq<(usize, String, Line)>,
    parts: Seq<PartitionModel>,
    k: int,
    t: FunctionTemplates,
    ticks: Seq<(usize, Seq<u8>)>,
) -> Seq<(Seq<u8>, Seq<u8>)> {
    let m = parts[k];
    let rk = partition_replacements(r, m);
    let first = if k == 0 {
        file_with(rk, o, t.next_iteration_or_return)
    } else {
        file_with(rk, o, t.continue_current_iteration_at)
    };
    let suspend = suspend_files(rk, o, lines, m, t);
    let content = join_lines(expanded_lines(rk, o, m.regular_lines, t.lines, ticks)) + seq!['\n' as u8]
        + terminator_text(rk, o, metadata, fn_name, lines, m, parts[k + 1], t);
    seq![first, file_with(rk, o, t.continue_at)] + suspend + seq![
        file_with(with_one(rk, "# -content-".spec_bytes(), content), o, t.positions),
    ]
}

/// The files of the first `n` partitions of `parts`, in their order.
pub open spec fn all_partition_files(
    r: Seq<(Seq<u8>, Seq<u8>)>,
    o: Seq<(Seq<u8>, Seq<u8>)>,
    metadata: DebugDatapackMetadata,
    fn_name: ResourceLocation,
    lines: Seq<(usize, String, Line)>,
    parts: Seq<PartitionModel>,
    n: int,
    t: FunctionTemplates,
    ticks: Seq<(usize, Seq<u8>)>,
) -> Seq<(Seq<u8>, Seq<u8>)>
    decreases n,
{
    if n <= 0 {
        Seq::empty()
    } else {
        all_partition_files(r, o, metadata, fn_name, lines, parts, n - 1, t, ticks) + partition_files(
            r,
            o,
            metadata,
            fn_name,
            lines,
            parts,
            n - 1,
            t,
            ticks,
        )
    }
}

/// The files of the function `fn_name` with the lines `lines` and the partitions `parts`, its
/// templates expanded with `r` and then `o`: the files of its partitions, the files that it has
/// once, the file under the function's own name that forwards to its debug function where the
/// datapack `shadow`s the functions it debugs, the file that returns to its callers where it has
/// callers (with the commands `cases` that do so), and the file that validates it.
pub open spec fn function_files_spec(
    r: Seq<(Seq<u8>, Seq<u8>)>,
    o: Seq<(Seq<u8>, Seq<u8>)>,
    metadata: DebugDatapackMetadata,
    fn_name: ResourceLocation,
    lines: Seq<(usize, String, Line)>,
    parts: Seq<PartitionModel>,
    shadow: bool,
    has_callers: bool,
    cases: Seq<u8>,
    t: FunctionTemplates,
    ticks: Seq<(usize, Seq<u8>)>,
) -> Seq<(Seq<u8>, Seq<u8>)> {
    all_partition_files(r, o, metadata, fn_name, lines, parts, parts.len() as int, t, ticks) + Seq::new(
        t.fixed@.len(),
        |i: int| file_with(r, o, t.fixed@[i]),
    ) + if shadow {
        seq![file_with(r, o, t.shadow)]
    } else {
        Seq::empty()
    } + if has_callers {
        seq![file_with(with_one(r, "# -return_cases-".spec_bytes(), cases), o, t.return_self)]
    } else {
        Seq::empty()
    } + seq![file_with(with_one(r, "# -commands-".spec_bytes(), join_lines(validate_lines(lines))), o, t.validate)]
}

/// The partitions of `lines` under `config`.
pub open spec fn partitions_of<'m>(lines: Seq<(usize, String, Line<'m>)>, config: Config) -> Seq<PartitionModel<'m>> {
    if config.adapter is Some {
        adapter_partition(lines)
    } else {
        plain_partition(lines)
    }
}

/// Each line can be expanded, and is shorter than the largest `usize`.
pub open spec fn lines_expandable(lines: Seq<(usize, String, Line)>) -> bool {
    forall|i: int| 0 <= i < lines.len() ==> {
        &&& expandable_line(#[trigger] lines[i])
        &&& string_bytes(&lines[i].1).len() < usize::MAX
    }
}

/// The pair of expanded templates `t`.
fn expand_file(engine: &TemplateEngine, t: (&str, &str)) -> (res: (String, String))
    ensures
        (string_bytes(&res.0), string_bytes(&res.1)) == file_with(engine.borrowed(), engine.owned(), t),
{
    (engine.expand(t.0), engine.expand(t.1))
}

/// The breakpoint `b` that ends the partition `part` of the function `fn_name` with the lines
/// `lines`, expanded with `engine`, the engine of the partition: the file that suspends there and
/// the text of the breakpoint; `next` is the partition after it.
fn breakpoint_files(
    engine: &TemplateEngine,
    metadata: &DebugDatapackMetadata,
    fn_name: &ResourceLocation,
    lines: &[(usize, String, Line)],
    end: &Position,
    b: BreakpointPositionInLine,
    next: &Position,
    next_end: &Position,
    templates: &FunctionTemplates,
    Ghost(m): Ghost<PartitionModel>,
) -> (res: ((String, String), String))
    requires
        m.end == *end,
        lines_expandable(lines@),
    ensures
        ({
            let position = local_position_of(m, b);
            let column = breakpoint_column(lines@, m, b);
            let s = suspend_engine(engine.borrowed(), position, column);
            &&& string_bytes(&res.0.0) == expand_with(s, engine.owned(), templates.suspend_at.0.spec_bytes())
            &&& string_bytes(&res.0.1) == expand_with(s, engine.owned(), templates.suspend_at.1.spec_bytes())
            &&& string_bytes(&res.1) == expand_with(
                breakpoint_engine(
                    engine.borrowed(),
                    position,
                    column,
                    *next,
                    *next_end,
                    score_holder(
                        fn_name.text_of() + seq!['_' as u8] + local_position_bytes(position),
                        metadata.id_of(fn_name.model_of()),
                        breakpoint_fallback(position),
                    ),
                ),
                engine.owned(),
                templates.breakpoint_configurable.spec_bytes(),
            )
        }),
{
    let position = LocalBreakpointPosition { line_number: end.line_number, position_in_line: b };
    let column: usize = match b {
        BreakpointPositionInLine::Breakpoint => 1,
        BreakpointPositionInLine::AfterFunction => {
            let n = end.line_number;
            if 1 <= n && n <= lines.len() {
                1 + lines[n - 1].1.as_str().as_bytes().len()
            } else {
                1
            }
        },
    };
    proof {
        assert(position == local_position_of(m, b));
        assert(column == breakpoint_column(lines@, m, b));
    }
    expand_breakpoint_terminator(
        engine,
        metadata,
        fn_name,
        &position,
        column,
        next,
        next_end,
        templates.suspend_at.0,
        templates.suspend_at.1,
        templates.breakpoint_configurable,
    )
}

/// What ends the partition `k` of `partitions`, expanded with `ek`, the engine of the partition:
/// the file that suspends at its breakpoint, if it ends at one, and its text.
fn expand_terminator(
    ek: &TemplateEngine,
    metadata: &DebugDatapackMetadata,
    fn_name: &ResourceLocation,
    lines: &[(usize, String, Line)],
    partitions: &Vec<Partition>,
    k: usize,
    templates: &FunctionTemplates,
    Ghost(parts): Ghost<Seq<PartitionModel>>,
) -> (res: (Vec<(String, String)>, String))
    requires
        all_represent(partitions@, parts, lines@),
        parts.len() > 0,
        parts.last().terminator is Return,
        lines_expandable(lines@),
        k < partitions@.len(),
    ensures
        text_pairs(res.0@) == suspend_files(ek.borrowed(), ek.owned(), lines@, parts[k as int], *templates),
        string_bytes(&res.1) == terminator_text(
            ek.borrowed(),
            ek.owned(),
            *metadata,
            *fn_name,
            lines@,
            parts[k as int],
            parts[k + 1],
            *templates,
        ),
{
    let _count = partitions.len();
    let part = &partitions[k];
    let ghost m = parts[k as int];
    proof {
        assert(represents(partitions@[k as int], m, lines@));
    }
    match &part.terminator {
        Terminator::Breakpoint => {
            proof {
                if k + 1 >= partitions@.len() {
                    assert(m == parts.last());
                }
            }
            let next = &partitions[k + 1];
            let (suspend_file, text) = breakpoint_files(
                ek,
                metadata,
                fn_name,
                lines,
                &part.end,
                BreakpointPositionInLine::Breakpoint,
                &next.start,
                &next.end,
                templates,
                Ghost(m),
            );
            let mut v: Vec<(String, String)> = Vec::new();
            v.push(suspend_file);
            (v, text)
        },
        Terminator::ConfigurableBreakpoint { position_in_line } => {
            proof {
                if k + 1 >= partitions@.len() {
                    assert(m == parts.last());
                }
            }
            let next = &partitions[k + 1];
            let (suspend_file, text) = breakpoint_files(
                ek,
                metadata,
                fn_name,
                lines,
                &part.end,
                *position_in_line,
                &next.start,
                &next.end,
                templates,
                Ghost(m),
            );
            let mut v: Vec<(String, String)> = Vec::new();
            v.push(suspend_file);
            (v, text)
        },
        Terminator::FunctionCall { column_index, line, name, anchor, selectors } => {
            proof {
                let i = m.terminator->FunctionCall_0;
                assert(expandable_line(lines@[i]));
                assert(line.spec_bytes() == string_bytes(&lines@[i].1));
            }
            let text = expand_call_terminator(
                ek,
                metadata,
                part.end.line_number,
                line,
                *column_index,
                name,
                **anchor,
                selectors.as_slice(),
                templates.call_function,
            );
            (Vec::new(), text)
        },
        Terminator::Return => (Vec::new(), ek.expand(templates.return_command)),
    }
}

/// The files of the partition `k` of `partitions`, the partitions of the function `fn_name` with
/// the lines `lines`, as `partition_files` says, with `engine` the engine of the function.
fn expand_partition(
    engine: &TemplateEngine,
    metadata: &DebugDatapackMetadata,
    fn_name: &ResourceLocation,
    lines: &[(usize, String, Line)],
    partitions: &Vec<Partition>,
    k: usize,
    templates: &FunctionTemplates,
    ticks: &[(usize, String)],
    Ghost(parts): Ghost<Seq<PartitionModel>>,
) -> (res: Vec<(String, String)>)
    requires
        all_represent(partitions@, parts, lines@),
        regular_lines_within(parts, lines@),
        parts.last().terminator is Return,
        lines_expandable(lines@),
        k < partitions@.len(),
    ensures
        text_pairs(res@) == partition_files(
            engine.borrowed(),
            engine.owned(),
            *metadata,
            *fn_name,
            lines@,
            parts,
            k as int,
            *templates,
            ticks_model(ticks@),
        ),
{
    let ghost r = engine.borrowed();
    let ghost o = engine.owned();
    let _count = partitions.len();
    let part = &partitions[k];
    let ghost m = parts[k as int];
    proof {
        assert(represents(partitions@[k as int], m, lines@));
    }
    let position = part.start.to_string();
    let positions = positions_text(&part.start, &part.end);
    let pairs = vec![("-position-", position.as_str()), ("-positions-", positions.as_str())];
    proof {
        reveal_strlit("-position-");
        reveal_strlit("-positions-");
        assert(pairs_of(pairs@) =~= seq![
            ("-position-".spec_bytes(), position_bytes(m.start)),
            ("-positions-".spec_bytes(), positions_bytes(m.start, m.end)),
        ]);
    }
    let ek = engine.extend(pairs);
    let first = if k == 0 {
        expand_file(&ek, templates.next_iteration_or_return)
    } else {
        expand_file(&ek, templates.continue_current_iteration_at)
    };
    let cont = expand_file(&ek, templates.continue_at);
    let (suspend, terminator) = expand_terminator(&ek, metadata, fn_name, lines, partitions, k, templates, Ghost(parts));
    let mut files: Vec<(String, String)> = Vec::new();
    files.push(first);
    files.push(cont);
    let mut suspend = suspend;
    files.append(&mut suspend);
    proof {
        assert forall|i: int| 0 <= i < part.regular_lines@.len() implies expandable_line(
            #[trigger] part.regular_lines@[i],
        ) by {
            assert(part.regular_lines@[i] == m.regular_lines[i]);
            assert(lines@.contains(m.regular_lines[i]));
            let x = choose|x: int| 0 <= x < lines@.len() && lines@[x] == m.regular_lines[i];
            assert(expandable_line(lines@[x]));
        }
    }
    let text = expand_lines(&ek, part.regular_lines, &templates.lines, ticks);
    let parts_of_content = [text.as_str(), "\n", terminator.as_str()];
    let content = crate::adapter::stepping::concat_parts(&parts_of_content);
    proof {
        reveal_strlit("\n");
        crate::text::lemma_ascii_text("\n");
        assert("\n".spec_bytes() =~= seq!['\n' as u8]);
        reveal_with_fuel(crate::adapter::stepping::concat_bytes, 4);
    }
    let content_pair = vec![("# -content-", content.as_str())];
    proof {
        reveal_strlit("# -content-");
        assert(pairs_of(content_pair@) =~= seq![("# -content-".spec_bytes(), string_bytes(&content))]);
    }
    let epf = ek.extend(content_pair);
    let positions_file = expand_file(&epf, templates.positions);
    files.push(positions_file);
    proof {
        let pf = partition_files(r, o, *metadata, *fn_name, lines@, parts, k as int, *templates, ticks_model(ticks@));
        assert(text_pairs(files@) =~= pf);
    }
    files
}

/// The files of the function `fn_name` with the lines `lines`, as `function_files_spec` says,
/// with `engine` the engine of the function and `callers` the callers of the function with the
/// lines of their calls; `ticks` gives the delay in ticks of each `schedule` command by its line
/// number. Each file is its path and its text.
pub fn expand_function_files(
    engine: &TemplateEngine,
    metadata: &DebugDatapackMetadata,
    fn_name: &ResourceLocation,
    lines: &[(usize, String, Line)],
    config: &Config,
    callers: &[(ResourceLocation, usize)],
    templates: &FunctionTemplates,
    ticks: &[(usize, String)],
) -> (res: Vec<(String, String)>)
    requires
        lines_expandable(lines@),
    ensures
        exists|s: Seq<Seq<u8>>|
            {
                &&& texts_sorted(s)
                &&& s.to_multiset() == return_cases_model(*engine, callers_model(callers@)).to_multiset()
                &&& text_pairs(res@) == function_files_spec(
                    engine.borrowed(),
                    engine.owned(),
                    *metadata,
                    *fn_name,
                    lines@,
                    partitions_of(lines@, *config),
                    config.shadow,
                    callers@.len() > 0,
                    join_lines(s),
                    *templates,
                    ticks_model(ticks@),
                )
            },
{
    let ghost r = engine.borrowed();
    let ghost o = engine.owned();
    let ghost parts = partitions_of(lines@, *config);
    let ghost tm = ticks_model(ticks@);
    let _ = lines.len();
    let partitions = partition(lines, config);
    proof {
        lemma_regular_lines_within(lines@, config.adapter is Some);
        crate::generator::partition::lemma_partitions_chained(lines@, config.adapter is Some);
    }
    let mut files: Vec<(String, String)> = Vec::new();
    let mut k: usize = 0;
    proof {
        assert(text_pairs(files@) =~= all_partition_files(r, o, *metadata, *fn_name, lines@, parts, 0, *templates, tm));
    }
    while k < partitions.len()
        invariant
            r == engine.borrowed(),
            o == engine.owned(),
            parts == partitions_of(lines@, *config),
            tm == ticks_model(ticks@),
            all_represent(partitions@, parts, lines@),
            regular_lines_within(parts, lines@),
            parts.len() > 0,
            parts.last().terminator is Return,
            lines_expandable(lines@),
            k <= partitions@.len(),
            text_pairs(files@) == all_partition_files(r, o, *metadata, *fn_name, lines@, parts, k as int, *templates, tm),
        decreases partitions@.len() - k,
    {
        let mut more = expand_partition(engine, metadata, fn_name, lines, &partitions, k, templates, ticks, Ghost(parts));
        let ghost before = files@;
        let ghost added = more@;
        files.append(&mut more);
        proof {
            assert(files@ == before + added);
            assert(text_pairs(files@) =~= text_pairs(before) + text_pairs(added));
        }
        k = k + 1;
    }
    let ghost after_parts = text_pairs(files@);
    let mut i: usize = 0;
    let ghost fixed = Seq::new(templates.fixed@.len(), |i: int| file_with(r, o, templates.fixed@[i]));
    proof {
        assert(fixed.take(0) =~= Seq::<(Seq<u8>, Seq<u8>)>::empty());
        assert(text_pairs(files@) =~= after_parts + fixed.take(0));
    }
    while i < templates.fixed.len()
        invariant
            r == engine.borrowed(),
            o == engine.owned(),
            fixed == Seq::new(templates.fixed@.len(), |i: int| file_with(r, o, templates.fixed@[i])),
            i <= templates.fixed@.len(),
            text_pairs(files@) == after_parts + fixed.take(i as int),
        decreases templates.fixed@.len() - i,
    {
        let file = expand_file(engine, templates.fixed[i]);
        let ghost before = files@;
        files.push(file);
        proof {
            assert(text_pairs(files@) =~= text_pairs(before).push(fixed[i as int]));
            assert(fixed.take(i + 1) =~= fixed.take(i as int).push(fixed[i as int]));
        }
        i = i + 1;
    }
    proof {
        assert(fixed.take(i as int) =~= fixed);
    }
    if config.shadow {
        let file = expand_file(engine, templates.shadow);
        files.push(file);
    }
    let cases = return_cases(engine, callers);
    let ghost s = choose|s: Seq<Seq<u8>>|
        {
            &&& texts_sorted(s)
            &&& s.to_multiset() == return_cases_model(*engine, callers_model(callers@)).to_multiset()
            &&& string_bytes(&cases) == join_lines(s)
        };
    if callers.len() > 0 {
        let pair = vec![("# -return_cases-", cases.as_str())];
        proof {
            reveal_strlit("# -return_cases-");
            assert(pairs_of(pair@) =~= seq![("# -return_cases-".spec_bytes(), string_bytes(&cases))]);
        }
        let e = engine.extend(pair);
        let file = expand_file(&e, templates.return_self);
        files.push(file);
    }
    let ghost after_return = text_pairs(files@);
    let commands = validate_commands(lines);
    let pair = vec![("# -commands-", commands.as_str())];
    proof {
        reveal_strlit("# -commands-");
        assert(pairs_of(pair@) =~= seq![("# -commands-".spec_bytes(), string_bytes(&commands))]);
    }
    let e = engine.extend(pair);
    let file = expand_file(&e, templates.validate);
    files.push(file);
    proof {
        let want = function_files_spec(r, o, *metadata, *fn_name, lines@, parts, config.shadow, callers@.len() > 0, join_lines(s), *templates, tm);
        assert(text_pairs(files@) =~= want);
    }
    files
}

/// The commands by which a function returns to its callers `callers`, expanded with `r` and then
/// `o`, in the order of the callers.
pub open spec fn return_cases_with(
    r: Seq<(Seq<u8>, Seq<u8>)>,
    o: Seq<(Seq<u8>, Seq<u8>)>,
    callers: Seq<((Seq<u8>, Seq<u8>), usize)>,
) -> Seq<Seq<u8>> {
    Seq::new(callers.len(), |i: int| expand_with(r, o, return_case_template(callers[i].0, callers[i].1)))
}

/// The borrowed replacements of the engine of the function `fn_name`: those of `r` with the
/// namespace and path of the function and its score holder `holder`.
pub open spec fn function_replacements(
    r: Seq<(Seq<u8>, Seq<u8>)>,
    fn_name: (Seq<u8>, Seq<u8>),
    holder: Seq<u8>,
) -> Seq<(Seq<u8>, Seq<u8>)> {
    with_one(
        puts(
            puts(
                Seq::empty(),
                seq![("-orig_ns-".spec_bytes(), fn_name.0), ("-orig/fn-".spec_bytes(), fn_name.1)],
            ),
            r,
        ),
        "-fn_score_holder-".spec_bytes(),
        holder,
    )
}

/// The owned replacements of the engine of the function with the path `path`: those of `o` with
/// the path, each `/` as `_`.
pub open spec fn function_owned(o: Seq<(Seq<u8>, Seq<u8>)>, path: Seq<u8>) -> Seq<(Seq<u8>, Seq<u8>)> {
    put(o, "-orig_fn-".spec_bytes(), replace_spec(path, "/".spec_bytes(), "_".spec_bytes()))
}

/// The files of the function `fn_name` of a debug datapack, each its path and its text: the
/// templates are expanded with `engine` extended by the namespace, path and score holder of the
/// function, as `function_files_spec` says. `callers` are the callers of the function with the
/// lines of their calls, and `ticks` gives the delay in ticks of each `schedule` command by its
/// line number.
pub fn expand_function_templates(
    engine: &TemplateEngine,
    metadata: &DebugDatapackMetadata,
    fn_name: &ResourceLocation,
    lines: &[(usize, String, Line)],
    config: &Config,
    callers: &[(ResourceLocation, usize)],
    templates: &FunctionTemplates,
    ticks: &[(usize, String)],
) -> (res: Vec<(String, String)>)
    requires
        lines_expandable(lines@),
    ensures
        ({
            let r = function_replacements(
                engine.borrowed(),
                fn_name.model_of(),
                score_holder(fn_name.text_of(), metadata.id_of(fn_name.model_of()), fn_fallback()),
            );
            let o = function_owned(engine.owned(), fn_name.path_bytes());
            exists|s: Seq<Seq<u8>>|
                {
                    &&& texts_sorted(s)
                    &&& s.to_multiset() == return_cases_with(r, o, callers_model(callers@)).to_multiset()
                    &&& text_pairs(res@) == function_files_spec(
                        r,
                        o,
                        *metadata,
                        *fn_name,
                        lines@,
                        partitions_of(lines@, *config),
                        config.shadow,
                        callers@.len() > 0,
                        join_lines(s),
                        *templates,
                        ticks_model(ticks@),
                    )
                }
        }),
{
    let name = NamespacedNameRef::new(fn_name.namespace(), fn_name.path());
    let holder = metadata.get_fn_score_holder(fn_name);
    let named = engine.extend_orig_name(&name);
    let pair = vec![("-fn_score_holder-", holder.as_str())];
    proof {
        reveal_strlit("-fn_score_holder-");
        assert(pairs_of(pair@) =~= seq![("-fn_score_holder-".spec_bytes(), string_bytes(&holder))]);
    }
    let function_engine = named.extend(pair);
    let res = expand_function_files(&function_engine, metadata, fn_name, lines, config, callers, templates, ticks);
    proof {
        assert(return_cases_model(function_engine, callers_model(callers@)) =~= return_cases_with(
            function_engine.borrowed(),
            function_engine.owned(),
            callers_model(callers@),
        ));
    }
    res
}

/// The borrowed replacements of `r` with the namespace and path `f` of a function.
pub open spec fn orig_replacements(r: Seq<(Seq<u8>, Seq<u8>)>, f: (Seq<u8>, Seq<u8>)) -> Seq<(Seq<u8>, Seq<u8>)> {
    puts(puts(Seq::empty(), seq![("-orig_ns-".spec_bytes(), f.0), ("-orig/fn-".spec_bytes(), f.1)]), r)
}

/// `template` expanded once for each function of `names`: with the engine's replacements `r`
/// and `o`, the namespace and path of the function, and, `with_holder`, its score holder.
pub open spec fn per_function_texts(
    r: Seq<(Seq<u8>, Seq<u8>)>,
    o: Seq<(Seq<u8>, Seq<u8>)>,
    metadata: DebugDatapackMetadata,
    names: Seq<ResourceLocation>,
    template: Seq<u8>,
    with_holder: bool,
) -> Seq<Seq<u8>> {
    Seq::new(
        names.len(),
        |i: int| expand_with(
            if with_holder {
                function_replacements(
                    r,
                    names[i].model_of(),
                    score_holder(names[i].text_of(), metadata.id_of(names[i].model_of()), fn_fallback()),
                )
            } else {
                orig_replacements(r, names[i].model_of())
            },
            function_owned(o, names[i].path_bytes()),
            template,
        ),
    )
}

/// The texts `parts`, one after the other.
pub open spec fn concat_all(parts: Seq<Seq<u8>>) -> Seq<u8>
    decreases parts.len(),
{
    if parts.len() == 0 {
        Seq::empty()
    } else {
        concat_all(parts.drop_last()) + parts.last()
    }
}

/// `template` expanded once for each function of `names`, as `per_function_texts` says.
fn per_function(
    engine: &TemplateEngine,
    metadata: &DebugDatapackMetadata,
    names: &[ResourceLocation],
    template: &str,
    with_holder: bool,
) -> (res: Vec<String>)
    ensures
        strings_model(res@) == per_function_texts(
            engine.borrowed(),
            engine.owned(),
            *metadata,
            names@,
            template.spec_bytes(),
            with_holder,
        ),
{
    let ghost want = per_function_texts(engine.borrowed(), engine.owned(), *metadata, names@, template.spec_bytes(), with_holder);
    let mut texts: Vec<String> = Vec::new();
    let mut i: usize = 0;
    proof {
        assert(strings_model(texts@) =~= want.take(0));
    }
    while i < names.len()
        invariant
            i <= names@.len(),
            want == per_function_texts(engine.borrowed(), engine.owned(), *metadata, names@, template.spec_bytes(), with_holder),
            strings_model(texts@) == want.take(i as int),
        decreases names@.len() - i,
    {
        let f = &names[i];
        let name = NamespacedNameRef::new(f.namespace(), f.path());
        let named = engine.extend_orig_name(&name);
        let text = if with_holder {
            let holder = metadata.get_fn_score_holder(f);
            let pair = vec![("-fn_score_holder-", holder.as_str())];
            proof {
                reveal_strlit("-fn_score_holder-");
                assert(pairs_of(pair@) =~= seq![("-fn_score_holder-".spec_bytes(), string_bytes(&holder))]);
            }
            let e = named.extend(pair);
            e.expand(template)
        } else {
            named.expand(template)
        };
        let ghost before = texts@;
        texts.push(text);
        proof {
            assert(strings_model(texts@) =~= strings_model(before).push(want[i as int]));
            assert(want.take(i + 1) =~= want.take(i as int).push(want[i as int]));
        }
        i = i + 1;
    }
    proof {
        assert(want.take(i as int) =~= want);
    }
    texts
}

/// The texts `parts`, one after the other.
fn concat_strings(parts: &Vec<String>) -> (res: String)
    ensures
        string_bytes(&res) == concat_all(strings_model(parts@)),
{
    let ghost m = strings_model(parts@);
    let mut res = String::new();
    let mut i: usize = 0;
    proof {
        assert(string_bytes(&res) =~= Seq::<u8>::empty());
        assert(m.take(0) =~= Seq::<Seq<u8>>::empty());
    }
    while i < parts.len()
        invariant
            i <= parts@.len(),
            m == strings_model(parts@),
            string_bytes(&res) == concat_all(m.take(i as int)),
        decreases parts@.len() - i,
    {
        let ghost before = res@;
        res.append(parts[i].as_str());
        proof {
            crate::text::lemma_encode_concat(before, parts@[i as int]@);
            assert(m.take(i + 1).drop_last() =~= m.take(i as int));
        }
        i = i + 1;
    }
    proof {
        assert(m.take(i as int) =~= m);
    }
    res
}

/// The text of the file that schedules each function of `names`: `template` expanded once for
/// each, with its namespace and path, one after the other.
pub fn expand_schedule_template(
    engine: &TemplateEngine,
    metadata: &DebugDatapackMetadata,
    names: &[ResourceLocation],
    template: &str,
) -> (res: String)
    ensures
        string_bytes(&res) == concat_all(
            per_function_texts(engine.borrowed(), engine.owned(), *metadata, names@, template.spec_bytes(), false),
        ),
{
    let texts = per_function(engine, metadata, names, template, false);
    concat_strings(&texts)
}

/// The text of the file that validates each function of `names`: `template` expanded once for
/// each, with its namespace, path and score holder, one after the other.
pub fn expand_validate_all_functions_template(
    engine: &TemplateEngine,
    metadata: &DebugDatapackMetadata,
    names: &[ResourceLocation],
    template: &str,
) -> (res: String)
    ensures
        string_bytes(&res) == concat_all(
            per_function_texts(engine.borrowed(), engine.owned(), *metadata, names@, template.spec_bytes(), true),
        ),
{
    let texts = per_function(engine, metadata, names, template, true);
    concat_strings(&texts)
}

/// The functions that the lines `lines` call, in their order.
pub open spec fn calls_of_lines(lines: Seq<(usize, String, Line)>) -> Seq<(ResourceLocation, ())>
    decreases lines.len(),
{
    if lines.len() == 0 {
        Seq::empty()
    } else {
        calls_of_lines(lines.drop_last()) + match lines.last().2 {
            Line::FunctionCall { name, .. } => seq![(name, ())],
            _ => Seq::empty(),
        }
    }
}

/// The functions that the functions `contents` call, in their order.
pub open spec fn calls_of(contents: Seq<(ResourceLocation, Vec<(usize, String, Line)>)>) -> Seq<(ResourceLocation, ())>
    decreases contents.len(),
{
    if contents.len() == 0 {
        Seq::empty()
    } else {
        calls_of(contents.drop_last()) + calls_of_lines(contents.last().1@)
    }
}

/// The functions that the functions `contents` call, each once, in the order of their names.
/// Some of them may not exist.
pub fn called_functions(contents: &[(ResourceLocation, Vec<(usize, String, Line)>)]) -> (res: Vec<ResourceLocation>)
    ensures
        exists|e: Seq<((Seq<u8>, Seq<u8>), ())>|
            {
                &&& e.len() == res@.len()
                &&& forall|i: int| 0 <= i < e.len() ==> #[trigger] e[i].0 == res@[i].model_of()
                &&& names_increasing(e)
                &&& to_map(e) == to_map(named(calls_of(contents@)))
            },
{
    let mut found: Vec<(ResourceLocation, ())> = Vec::new();
    let mut k: usize = 0;
    proof {
        assert(named(found@) =~= named(calls_of(contents@.take(0))));
    }
    while k < contents.len()
        invariant
            k <= contents@.len(),
            named(found@) == named(calls_of(contents@.take(k as int))),
        decreases contents@.len() - k,
    {
        let lines = &contents[k].1;
        let mut j: usize = 0;
        let ghost start = named(found@);
        proof {
            assert(named(found@) =~= start + named(calls_of_lines(lines@.take(0))));
        }
        while j < lines.len()
            invariant
                j <= lines@.len(),
                lines@ == contents@[k as int].1@,
                named(found@) == start + named(calls_of_lines(lines@.take(j as int))),
            decreases lines@.len() - j,
        {
            let ghost before = named(found@);
            match &lines[j].2 {
                Line::FunctionCall { name, .. } => {
                    found.push((name.clone(), ()));
                },
                _ => {},
            }
            proof {
                assert(lines@.take(j + 1).drop_last() =~= lines@.take(j as int));
                match lines@[j as int].2 {
                    Line::FunctionCall { name, .. } => {
                        assert(named(found@) =~= before.push((name.model_of(), ())));
                        assert(named(calls_of_lines(lines@.take(j + 1))) =~= named(calls_of_lines(lines@.take(j as int))).push((name.model_of(), ())));
                    },
                    _ => {
                        assert(named(found@) =~= before);
                        assert(named(calls_of_lines(lines@.take(j + 1))) =~= named(calls_of_lines(lines@.take(j as int))));
                    },
                }
                assert(named(found@) =~= start + named(calls_of_lines(lines@.take(j + 1))));
            }
            j = j + 1;
        }
        proof {
            assert(lines@.take(j as int) =~= lines@);
            assert(contents@.take(k + 1).drop_last() =~= contents@.take(k as int));
            assert(named(calls_of(contents@.take(k + 1))) =~= named(calls_of(contents@.take(k as int)))
                + named(calls_of_lines(lines@)));
        }
        k = k + 1;
    }
    proof {
        assert(contents@.take(k as int) =~= contents@);
    }
    let sorted = function_files(found);
    let mut names: Vec<ResourceLocation> = Vec::new();
    let mut i: usize = 0;
    while i < sorted.len()
        invariant
            i <= sorted@.len(),
            names@.len() == i,
            forall|l: int| 0 <= l < i ==> #[trigger] sorted@[l].0.model_of() == names@[l].model_of(),
        decreases sorted@.len() - i,
    {
        names.push(sorted[i].0.clone());
        i = i + 1;
    }
    proof {
        let e = named(sorted@);
        assert(forall|l: int| 0 <= l < e.len() ==> #[trigger] e[l].0 == names@[l].model_of());
    }
    names
}

/// The command that reports a called function that was skipped and does not exist.
pub const SKIPPED_MISSING: &'static str = "execute if score -fn_score_holder- -ns-_skipped matches 1.. unless score -fn_score_holder- -ns-_valid matches 0 run tellraw @s [{\"text\":\" - -orig_ns-:-orig/fn- (\"},{\"score\":{\"name\":\"-orig_ns-:-orig/fn-\",\"objective\":\"-ns-_skipped\"}},{\"text\":\"x)\"}]";

/// The command that reports a called function that was skipped and exists.
pub const SKIPPED_INVALID: &'static str = "execute if score -fn_score_holder- -ns-_skipped matches 1.. if score -fn_score_holder- -ns-_valid matches 0 run tellraw @s [{\"text\":\" - -orig_ns-:-orig/fn- (\"},{\"score\":{\"name\":\"-orig_ns-:-orig/fn-\",\"objective\":\"-ns-_skipped\"}},{\"text\":\"x)\"}]";

/// The file that shows the skipped calls of the functions `called`, its path and text: the
/// templates with the report of each missing and each invalid one, one per line.
pub fn expand_show_skipped_template(
    engine: &TemplateEngine,
    metadata: &DebugDatapackMetadata,
    called: &[ResourceLocation],
    template: (&str, &str),
) -> (res: (String, String))
    ensures
        ({
            let r = engine.borrowed();
            let o = engine.owned();
            let missing = join_lines(per_function_texts(r, o, *metadata, called@, SKIPPED_MISSING.spec_bytes(), true));
            let invalid = join_lines(per_function_texts(r, o, *metadata, called@, SKIPPED_INVALID.spec_bytes(), true));
            let e = puts(
                puts(
                    Seq::empty(),
                    seq![
                        ("# -missing_functions-".spec_bytes(), missing),
                        ("# -invalid_functions-".spec_bytes(), invalid),
                    ],
                ),
                r,
            );
            (string_bytes(&res.0), string_bytes(&res.1)) == (expand_with(e, o, template.0.spec_bytes()), expand_with(e, o, template.1.spec_bytes()))
        }),
{
    let missing_lines = per_function(engine, metadata, called, SKIPPED_MISSING, true);
    let missing = join_strings(&missing_lines);
    let invalid_lines = per_function(engine, metadata, called, SKIPPED_INVALID, true);
    let invalid = join_strings(&invalid_lines);
    let pairs = vec![("# -missing_functions-", missing.as_str()), ("# -invalid_functions-", invalid.as_str())];
    proof {
        reveal_strlit("# -missing_functions-");
        reveal_strlit("# -invalid_functions-");
        assert(pairs_of(pairs@) =~= seq![
            ("# -missing_functions-".spec_bytes(), string_bytes(&missing)),
            ("# -invalid_functions-".spec_bytes(), string_bytes(&invalid)),
        ]);
    }
    let e = engine.extend(pairs);
    expand_file(&e, template)
}

/// The objective `x` is named in some line of the functions `contents`.
pub open spec fn names_objective(contents: Seq<(ResourceLocation, Vec<(usize, String, Line)>)>, x: Seq<u8>) -> bool {
    exists|k: int, j: int, l: int|
        0 <= k < contents.len() && 0 <= j < contents[k].1@.len() && 0 <= l < contents[k].1@[j].2.objectives_of().len()
            && string_bytes(&#[trigger] contents[k].1@[j].2.objectives_of()[l]) == x
}

/// The objectives named in the lines of the functions `contents`, each once, in byte order.
pub fn collect_objectives(contents: &[(ResourceLocation, Vec<(usize, String, Line)>)]) -> (res: Vec<String>)
    ensures
        strings_increasing(strings_model(res@)),
        forall|x: Seq<u8>| strings_model(res@).contains(x) <==> names_objective(contents@, x),
{
    let mut objectives: Vec<String> = Vec::new();
    let mut k: usize = 0;
    while k < contents.len()
        invariant
            k <= contents@.len(),
            strings_increasing(strings_model(objectives@)),
            forall|x: Seq<u8>| strings_model(objectives@).contains(x) <==> names_objective(contents@.take(k as int), x),
        decreases contents@.len() - k,
    {
        let lines = &contents[k].1;
        let mut j: usize = 0;
        while j < lines.len()
            invariant
                k < contents@.len(),
                j <= lines@.len(),
                lines@ == contents@[k as int].1@,
                strings_increasing(strings_model(objectives@)),
                forall|x: Seq<u8>| strings_model(objectives@).contains(x) <==> (names_objective(contents@.take(k as int), x)
                    || exists|j2: int, l: int| 0 <= j2 < j && 0 <= l < lines@[j2].2.objectives_of().len()
                        && string_bytes(&#[trigger] lines@[j2].2.objectives_of()[l]) == x),
            decreases lines@.len() - j,
        {
            match lines[j].2.objectives() {
                Some(names) => {
                    let mut l: usize = 0;
                    while l < names.len()
                        invariant
                            k < contents@.len(),
                            j < lines@.len(),
                            lines@ == contents@[k as int].1@,
                            names@ == lines@[j as int].2.objectives_of(),
                            l <= names@.len(),
                            strings_increasing(strings_model(objectives@)),
                            forall|x: Seq<u8>| strings_model(objectives@).contains(x) <==> (names_objective(contents@.take(k as int), x)
                                || (exists|j2: int, l2: int| 0 <= j2 < j && 0 <= l2 < lines@[j2].2.objectives_of().len()
                                    && string_bytes(&#[trigger] lines@[j2].2.objectives_of()[l2]) == x)
                                || (exists|l2: int| 0 <= l2 < l && string_bytes(&#[trigger] names@[l2]) == x)),
                        decreases names@.len() - l,
                    {
                        let name = names[l].clone();
                        insert_string(&mut objectives, name);
                        proof {
                            assert forall|x: Seq<u8>| strings_model(objectives@).contains(x) <==> (names_objective(contents@.take(k as int), x)
                                || (exists|j2: int, l2: int| 0 <= j2 < j && 0 <= l2 < lines@[j2].2.objectives_of().len()
                                    && string_bytes(&#[trigger] lines@[j2].2.objectives_of()[l2]) == x)
                                || (exists|l2: int| 0 <= l2 < l + 1 && string_bytes(&#[trigger] names@[l2]) == x)) by {
                                if exists|l2: int| 0 <= l2 < l + 1 && string_bytes(&#[trigger] names@[l2]) == x {
                                    let l2 = choose|l2: int| 0 <= l2 < l + 1 && string_bytes(&#[trigger] names@[l2]) == x;
                                    if l2 < l {
                                        assert(exists|l3: int| 0 <= l3 < l && string_bytes(&#[trigger] names@[l3]) == x);
                                    }
                                }
                                if string_bytes(&names@[l as int]) == x {
                                    assert(exists|l3: int| 0 <= l3 < l + 1 && string_bytes(&#[trigger] names@[l3]) == x);
                                }
                            }
                        }
                        l = l + 1;
                    }
                    proof {
                        assert forall|x: Seq<u8>| strings_model(objectives@).contains(x) <==> (names_objective(contents@.take(k as int), x)
                            || exists|j2: int, l2: int| 0 <= j2 < j + 1 && 0 <= l2 < lines@[j2].2.objectives_of().len()
                                && string_bytes(&#[trigger] lines@[j2].2.objectives_of()[l2]) == x) by {
                            if exists|j2: int, l2: int| 0 <= j2 < j + 1 && 0 <= l2 < lines@[j2].2.objectives_of().len()
                                && string_bytes(&#[trigger] lines@[j2].2.objectives_of()[l2]) == x {
                                let (j2, l2) = choose|j2: int, l2: int| 0 <= j2 < j + 1 && 0 <= l2 < lines@[j2].2.objectives_of().len()
                                    && string_bytes(&#[trigger] lines@[j2].2.objectives_of()[l2]) == x;
                                if j2 == j {
                                    assert(string_bytes(&names@[l2]) == x);
                                }
                            }
                        }
                    }
                },
                None => {
                    proof {
                        assert(lines@[j as int].2.objectives_of().len() == 0);
                        assert forall|x: Seq<u8>| strings_model(objectives@).contains(x) <==> (names_objective(contents@.take(k as int), x)
                            || exists|j2: int, l2: int| 0 <= j2 < j + 1 && 0 <= l2 < lines@[j2].2.objectives_of().len()
                                && string_bytes(&#[trigger] lines@[j2].2.objectives_of()[l2]) == x) by {
                            if exists|j2: int, l2: int| 0 <= j2 < j + 1 && 0 <= l2 < lines@[j2].2.objectives_of().len()
                                && string_bytes(&#[trigger] lines@[j2].2.objectives_of()[l2]) == x {
                                let (j2, l2) = choose|j2: int, l2: int| 0 <= j2 < j + 1 && 0 <= l2 < lines@[j2].2.objectives_of().len()
                                    && string_bytes(&#[trigger] lines@[j2].2.objectives_of()[l2]) == x;
                                assert(j2 < j);
                            }
                        }
                    }
                },
            }
            j = j + 1;
        }
        proof {
            let t = contents@.take(k + 1);
            assert forall|x: Seq<u8>| strings_model(objectives@).contains(x) <==> names_objective(t, x) by {
                if names_objective(t, x) {
                    let (k2, j2, l2) = choose|k2: int, j2: int, l2: int|
                        0 <= k2 < t.len() && 0 <= j2 < t[k2].1@.len() && 0 <= l2 < t[k2].1@[j2].2.objectives_of().len()
                            && string_bytes(&#[trigger] t[k2].1@[j2].2.objectives_of()[l2]) == x;
                    if k2 < k {
                        assert(contents@.take(k as int)[k2] == t[k2]);
                        assert(names_objective(contents@.take(k as int), x));
                    } else {
                        assert(string_bytes(&lines@[j2].2.objectives_of()[l2]) == x);
                    }
                }
                if names_objective(contents@.take(k as int), x) {
                    let (k2, j2, l2) = choose|k2: int, j2: int, l2: int|
                        0 <= k2 < k && 0 <= j2 < contents@.take(k as int)[k2].1@.len()
                            && 0 <= l2 < contents@.take(k as int)[k2].1@[j2].2.objectives_of().len()
                            && string_bytes(&#[trigger] contents@.take(k as int)[k2].1@[j2].2.objectives_of()[l2]) == x;
                    assert(t[k2] == contents@.take(k as int)[k2]);
                    assert(string_bytes(&t[k2].1@[j2].2.objectives_of()[l2]) == x);
                }
                if exists|j2: int, l2: int| 0 <= j2 < j && 0 <= l2 < lines@[j2].2.objectives_of().len()
                    && string_bytes(&#[trigger] lines@[j2].2.objectives_of()[l2]) == x {
                    let (j2, l2) = choose|j2: int, l2: int| 0 <= j2 < j && 0 <= l2 < lines@[j2].2.objectives_of().len()
                        && string_bytes(&#[trigger] lines@[j2].2.objectives_of()[l2]) == x;
                    assert(t[k as int] == contents@[k as int]);
                    assert(string_bytes(&t[k as int].1@[j2].2.objectives_of()[l2]) == x);
                }
            }
        }
        k = k + 1;
    }
    proof {
        assert(contents@.take(k as int) =~= contents@);
    }
    objectives
}

/// `template` expanded once for each objective of `objectives`, with the objective.
pub open spec fn per_objective_texts(
    r: Seq<(Seq<u8>, Seq<u8>)>,
    o: Seq<(Seq<u8>, Seq<u8>)>,
    objectives: Seq<Seq<u8>>,
    template: Seq<u8>,
) -> Seq<Seq<u8>> {
    Seq::new(objectives.len(), |i: int| expand_with(with_one(r, "-objective-".spec_bytes(), objectives[i]), o, template))
}

/// The text of the file that logs the scores of the objectives `objectives`: `template` expanded
/// once for each objective, one after the other.
pub fn expand_log_scores_template(engine: &TemplateEngine, objectives: &[String], template: &str) -> (res: String)
    ensures
        string_bytes(&res) == concat_all(
            per_objective_texts(engine.borrowed(), engine.owned(), strings_model(objectives@), template.spec_bytes()),
        ),
{
    let ghost want = per_objective_texts(engine.borrowed(), engine.owned(), strings_model(objectives@), template.spec_bytes());
    let mut texts: Vec<String> = Vec::new();
    let mut i: usize = 0;
    proof {
        assert(strings_model(texts@) =~= want.take(0));
    }
    while i < objectives.len()
        invariant
            i <= objectives@.len(),
            want == per_objective_texts(engine.borrowed(), engine.owned(), strings_model(objectives@), template.spec_bytes()),
            strings_model(texts@) == want.take(i as int),
        decreases objectives@.len() - i,
    {
        let pair = vec![("-objective-", objectives[i].as_str())];
        proof {
            reveal_strlit("-objective-");
            assert(pairs_of(pair@) =~= seq![("-objective-".spec_bytes(), string_bytes(&objectives@[i as int]))]);
        }
        let e = engine.extend(pair);
        let text = e.expand(template);
        let ghost before = texts@;
        texts.push(text);
        proof {
            assert(strings_model(texts@) =~= strings_model(before).push(want[i as int]));
            assert(want.take(i + 1) =~= want.take(i as int).push(want[i as int]));
        }
        i = i + 1;
    }
    proof {
        assert(want.take(i as int) =~= want);
    }
    concat_strings(&texts)
}

/// Whether `i` is a character boundary of `line`, as `splittable` says.
fn is_boundary(line: &str, i: usize) -> (res: bool)
    requires
        i <= line.spec_bytes().len(),
    ensures
        res == splittable(line.spec_bytes(), i as int),
{
    let b = line.as_bytes();
    i == b.len() || !(0x80 <= b[i] && b[i] <= 0xbf)
}

/// Whether the line `line` can be expanded, as `expandable_line` says.
pub fn is_expandable_line(line: &(usize, String, Line)) -> (res: bool)
    ensures
        res == expandable_line(*line),
{
    let text = line.1.as_str();
    let n = text.as_bytes().len();
    match &line.2 {
        Line::FunctionCall { column_index, selectors, .. } => {
            if *column_index > n || !is_boundary(text, *column_index) {
                return false;
            }
            let prefix = take_str(text, *column_index);
            selectors_fit_in(prefix, selectors.as_slice())
        },
        Line::Schedule { schedule_start, selectors, .. } => {
            if *schedule_start > n || !is_boundary(text, *schedule_start) {
                return false;
            }
            let prefix = take_str(text, *schedule_start);
            selectors_fit_in(prefix, selectors.as_slice())
        },
        Line::OtherCommand { selectors, .. } => selectors_fit_in(text, selectors.as_slice()),
        Line::OptionalSelectorCommand { selectors, .. } => selectors_fit_in(text, selectors.as_slice()),
        _ => true,
    }
}

/// Whether every line of `lines` can be expanded and is shorter than the largest `usize`, as
/// `lines_expandable` says.
pub fn are_lines_expandable(lines: &[(usize, String, Line)]) -> (res: bool)
    ensures
        res == lines_expandable(lines@),
{
    let mut i: usize = 0;
    while i < lines.len()
        invariant
            i <= lines@.len(),
            forall|j: int| 0 <= j < i ==> {
                &&& expandable_line(#[trigger] lines@[j])
                &&& string_bytes(&lines@[j].1).len() < usize::MAX
            },
        decreases lines@.len() - i,
    {
        if !is_expandable_line(&lines[i]) || lines[i].1.as_str().as_bytes().len() == usize::MAX {
            proof {
                assert(!(expandable_line(lines@[i as int]) && string_bytes(&lines@[i as int].1).len() < usize::MAX));
            }
            return false;
        }
        i = i + 1;
    }
    true
}

} // verus!
