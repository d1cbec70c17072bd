//! Generation of debug datapacks: their configuration, how functions are cut into parts, and the
//! names under which the generated datapack keeps its scores.

pub mod calls;
pub mod config;
pub mod files;
pub mod partition;
pub mod templates;

use crate::entries::{
    distinct_keys, find_key, insert_all, lemma_to_map_at, lemma_to_map_keys, pairs_model, to_map,
    Modeled,
};
use crate::generator::config::adapter::{local_position_bytes, LocalBreakpointPosition};
use crate::parser::command::resource_location::ResourceLocation;
use crate::parser::command::argument::MinecraftEntityAnchor;
use crate::parser::{Line, LineModel};
use crate::text::{
    decimal, lemma_ascii_text, lemma_encode_concat, string_bytes, to_string, trim_start, trim_start_len,
    usize_to_string,
};
use vstd::prelude::*;
use vstd::string::*;

verus! {

/// The longest score holder name that Minecraft before 1.18 accepts.
pub const MAX_SCORE_HOLDER_LEN: usize = 40;

/// What is known of a generated debug datapack: the number of each of its functions.
pub struct DebugDatapackMetadata {
    fn_ids: Vec<(ResourceLocation, usize)>,
}

/// The score holder for a name whose full text is `full`: the full text if it is short enough,
/// else the fallback made from the function's number, else (for a function without a number) the
/// full text.
pub open spec fn score_holder(full: Seq<u8>, id: Option<usize>, fallback: spec_fn(usize) -> Seq<u8>) -> Seq<u8> {
    if full.len() <= MAX_SCORE_HOLDER_LEN {
        full
    } else {
        match id {
            Some(i) => fallback(i),
            None => full,
        }
    }
}

/// `fn_` followed by the number of a function.
pub open spec fn fn_fallback() -> spec_fn(usize) -> Seq<u8> {
    |i: usize| "fn_".spec_bytes() + decimal(i as nat)
}

/// `fn_`, the number of a function, `_` and the text of a breakpoint position.
pub open spec fn breakpoint_fallback(position: LocalBreakpointPosition) -> spec_fn(usize) -> Seq<u8> {
    |i: usize| "fn_".spec_bytes() + decimal(i as nat) + seq!['_' as u8] + local_position_bytes(position)
}

impl DebugDatapackMetadata {
    /// Each function has at most one number.
    #[verifier::type_invariant]
    spec fn well_formed(self) -> bool {
        distinct_keys(pairs_model(self.fn_ids@))
    }

    /// The number of each function, by its namespace and path.
    pub closed spec fn ids(self) -> Map<(Seq<u8>, Seq<u8>), usize> {
        to_map(pairs_model(self.fn_ids@))
    }

    /// The number of the function with the namespace and path `f`, if it has one.
    pub open spec fn id_of(self, f: (Seq<u8>, Seq<u8>)) -> Option<usize> {
        if self.ids().contains_key(f) {
            Some(self.ids()[f])
        } else {
            None
        }
    }

    /// Metadata with the given numbers of functions; of two numbers for one function the later
    /// one counts.
    pub fn new(fn_ids: Vec<(ResourceLocation, usize)>) -> (res: DebugDatapackMetadata)
        ensures
            res.ids() == to_map(pairs_model(fn_ids@)),
    {
        let mut ids: Vec<(ResourceLocation, usize)> = Vec::new();
        proof {
            assert(pairs_model(ids@) =~= Seq::<((Seq<u8>, Seq<u8>), usize)>::empty());
        }
        insert_all(&mut ids, fn_ids);
        proof {
            let e = Seq::<((Seq<u8>, Seq<u8>), usize)>::empty();
            crate::entries::lemma_puts(e, pairs_model(fn_ids@));
            assert(to_map(e).union_prefer_right(to_map(pairs_model(fn_ids@))) =~= to_map(
                pairs_model(fn_ids@),
            ));
        }
        DebugDatapackMetadata { fn_ids: ids }
    }

    /// The number of the function `fn_name`, if it has one.
    pub fn get_id(&self, fn_name: &ResourceLocation) -> (res: Option<usize>)
        ensures
            res == self.id_of(fn_name.model_of()),
    {
        proof {
            use_type_invariant(self);
        }
        let ghost e = pairs_model(self.fn_ids@);
        match find_key(&self.fn_ids, fn_name) {
            Some(i) => {
                proof {
                    lemma_to_map_at(e, i as int);
                }
                Some(self.fn_ids[i].1)
            },
            None => {
                proof {
                    lemma_to_map_keys(e, fn_name.model_of());
                }
                None
            },
        }
    }

    /// The score holder for the function `fn_name`: its name, or `fn_` and its number where the
    /// name is too long.
    pub fn get_fn_score_holder(&self, fn_name: &ResourceLocation) -> (res: String)
        ensures
            string_bytes(&res) == score_holder(
                fn_name.text_of(),
                self.id_of(fn_name.model_of()),
                fn_fallback(),
            ),
    {
        let result = fn_name.to_string();
        if result.as_str().as_bytes().len() <= MAX_SCORE_HOLDER_LEN {
            return result;
        }
        match self.get_id(fn_name) {
            Some(id) => {
                let mut s = to_string("fn_");
                let digits = usize_to_string(id);
                s.append(digits.as_str());
                proof {
                    lemma_encode_concat("fn_"@, digits@);
                }
                s
            },
            None => result,
        }
    }

    /// The score holder for the breakpoint at `position` in the function `fn_name`: the name and
    /// the position joined by `_`, or `fn_` and the function's number in place of the name where
    /// that is too long.
    pub fn get_breakpoint_score_holder(
        &self,
        fn_name: &ResourceLocation,
        position: &LocalBreakpointPosition,
    ) -> (res: String)
        ensures
            string_bytes(&res) == score_holder(
                fn_name.text_of() + seq!['_' as u8] + local_position_bytes(*position),
                self.id_of(fn_name.model_of()),
                breakpoint_fallback(*position),
            ),
    {
        let p = position.to_string();
        let mut result = fn_name.to_string();
        let ghost r0 = result@;
        result.append("_");
        let ghost r1 = result@;
        result.append(p.as_str());
        proof {
            reveal_strlit("_");
            lemma_ascii_text("_");
            assert("_".spec_bytes() =~= seq!['_' as u8]);
            lemma_encode_concat(r0, "_"@);
            lemma_encode_concat(r1, p@);
        }
        if result.as_str().as_bytes().len() <= MAX_SCORE_HOLDER_LEN {
            return result;
        }
        match self.get_id(fn_name) {
            Some(id) => {
                let mut s = to_string("fn_");
                let digits = usize_to_string(id);
                let ghost s0 = s@;
                s.append(digits.as_str());
                let ghost s1 = s@;
                s.append("_");
                let ghost s2 = s@;
                s.append(p.as_str());
                proof {
                    lemma_encode_concat(s0, digits@);
                    lemma_encode_concat(s1, "_"@);
                    lemma_encode_concat(s2, p@);
                }
                s
            },
            None => result,
        }
    }
}

/// The text of a line in the validation function of a function: empty lines and comments as
/// they are, other lines without leading whitespace after a prefix that never runs them.
pub open spec fn validate_line(line: Seq<u8>, kind: LineModel) -> Seq<u8> {
    if kind is Empty || kind is Comment {
        line
    } else {
        "execute if score 1 -ns-_constant matches 0 run ".spec_bytes() + line.subrange(
            trim_start_len(line),
            line.len() as int,
        )
    }
}

/// The texts `parts` joined by `\n`.
pub open spec fn join_lines(parts: Seq<Seq<u8>>) -> Seq<u8>
    decreases parts.len(),
{
    if parts.len() == 0 {
        Seq::empty()
    } else if parts.len() == 1 {
        parts[0]
    } else {
        join_lines(parts.drop_last()) + seq!['\n' as u8] + parts.last()
    }
}

/// The texts of the lines of a function in its validation function.
pub open spec fn validate_lines<'m>(lines: Seq<(usize, String, Line<'m>)>) -> Seq<Seq<u8>> {
    Seq::new(lines.len(), |i: int| validate_line(string_bytes(&lines[i].1), lines[i].2.model()))
}

/// The commands of the validation function of a function with the lines `lines`: each command
/// is there, but never runs, so that loading the datapack reports invalid commands.
pub fn validate_commands<'m>(lines: &[(usize, String, Line<'m>)]) -> (res: String)
    ensures
        string_bytes(&res) == join_lines(validate_lines(lines@)),
{
    let ghost parts = validate_lines(lines@);
    let mut res = String::new();
    let mut i: usize = 0;
    proof {
        assert(parts.take(0) =~= Seq::<Seq<u8>>::empty());
        assert(string_bytes(&res) =~= Seq::<u8>::empty());
        reveal_strlit("\n");
        crate::text::lemma_ascii_text("\n");
        assert("\n".spec_bytes() =~= seq!['\n' as u8]);
    }
    while i < lines.len()
        invariant
            parts == validate_lines(lines@),
            i <= lines@.len(),
            string_bytes(&res) == join_lines(parts.take(i as int)),
            "\n".spec_bytes() == seq!['\n' as u8],
        decreases lines@.len() - i,
    {
        let (_, line, parsed) = &lines[i];
        let ghost r0 = res@;
        if i > 0 {
            res.append("\n");
        }
        let ghost r1 = res@;
        let piece = match parsed {
            Line::Empty | Line::Comment => to_string(line.as_str()),
            _ => {
                let mut s = to_string("execute if score 1 -ns-_constant matches 0 run ");
                let t = trim_start(line.as_str());
                let ghost s0 = s@;
                s.append(t);
                proof {
                    lemma_encode_concat(s0, t@);
                }
                s
            },
        };
        res.append(piece.as_str());
        proof {
            if i > 0 {
                lemma_encode_concat(r0, "\n"@);
            }
            lemma_encode_concat(r1, piece@);
            let p = parts.take(i + 1);
            assert(p.drop_last() =~= parts.take(i as int));
            assert(p.last() == string_bytes(&piece));
            if i == 0 {
                assert(string_bytes(&res) =~= join_lines(p));
            } else {
                assert(string_bytes(&res) =~= join_lines(p.drop_last()) + seq!['\n' as u8] + p.last());
            }
        }
        i = i + 1;
    }
    proof {
        assert(parts.take(i as int) =~= parts);
    }
    res
}

/// The command that records the anchor of a function call, if the call has one: score 1 for the
/// eyes and 0 for the feet.
pub open spec fn debug_anchor_spec(anchor: Option<MinecraftEntityAnchor>) -> Seq<u8> {
    match anchor {
        None => Seq::empty(),
        Some(a) => "execute if score -fn_score_holder- -ns-_valid matches 1 run scoreboard players set current -ns-_anchor ".spec_bytes()
            + if a == MinecraftEntityAnchor::EYES {
            seq!['1' as u8]
        } else {
            seq!['0' as u8]
        },
    }
}

/// The command that records the anchor of a function call, as `debug_anchor_spec` says.
pub fn debug_anchor(anchor: Option<MinecraftEntityAnchor>) -> (res: String)
    ensures
        string_bytes(&res) == debug_anchor_spec(anchor),
{
    match anchor {
        None => {
            let s = String::new();
            proof {
                assert(string_bytes(&s) =~= Seq::<u8>::empty());
            }
            s
        },
        Some(a) => {
            let anchor_score: usize = match a {
                MinecraftEntityAnchor::EYES => 1,
                MinecraftEntityAnchor::FEET => 0,
            };
            let mut s = to_string(
                "execute if score -fn_score_holder- -ns-_valid matches 1 run scoreboard players set current -ns-_anchor ",
            );
            let digits = usize_to_string(anchor_score);
            let ghost s0 = s@;
            s.append(digits.as_str());
            proof {
                lemma_encode_concat(s0, digits@);
                assert(decimal(anchor_score as nat) == if a == MinecraftEntityAnchor::EYES {
                    seq!['1' as u8]
                } else {
                    seq!['0' as u8]
                });
            }
            s
        },
    }
}

} // verus!
