//! What the debug adapter reads from the outputs of commands that the game reports.

use crate::text::{after, find_from, parse_i32_spec, starts_with_at, str_eq, string_bytes};
use minect::command::{AddTagOutput, QueryScoreboardOutput};
use vstd::prelude::*;
use vstd::string::*;

verus! {

/// The offset of the last occurrence of `p` in `b` that starts before `n`, or -1 when there is
/// none.
pub open spec fn rfind_before(b: Seq<u8>, p: Seq<u8>, n: int) -> int
    decreases n,
{
    if n <= 0 {
        -1
    } else if n - 1 + p.len() <= b.len() && b.subrange(n - 1, n - 1 + p.len()) == p {
        n - 1
    } else {
        rfind_before(b, p, n - 1)
    }
}

/// The tag that the output `b` of a `tag ... add` command reports added:
/// `Added tag '<tag>' to <entity>`, the tag ending at the first `' to `.
pub open spec fn added_tag_spec(b: Seq<u8>) -> Option<Seq<u8>> {
    let prefix = "Added tag '".spec_bytes();
    if starts_with_at(b, 0, prefix) {
        let s = after(b, prefix.len() as int);
        let k = find_from(s, "' to ".spec_bytes(), 0);
        if k >= 0 {
            Some(s.subrange(0, k))
        } else {
            None
        }
    } else {
        None
    }
}

/// The scoreboard and score that the output `b` of a score query reports:
/// `Added 0 to [<scoreboard>] for <entity> (now <score>)`, the scoreboard ending at the first
/// `] for `, the score starting after the last ` (now `.
pub open spec fn scoreboard_output_spec(b: Seq<u8>) -> Option<(Seq<u8>, i32)> {
    let prefix = "Added 0 to [".spec_bytes();
    let sep = "] for ".spec_bytes();
    let now = " (now ".spec_bytes();
    if !starts_with_at(b, 0, prefix) {
        None
    } else {
        let s = after(b, prefix.len() as int);
        let k = find_from(s, sep, 0);
        if k < 0 {
            None
        } else {
            let t = after(s, k + sep.len());
            let m = rfind_before(t, now, t.len() as int + 1);
            if m < 0 {
                None
            } else {
                let u = after(t, m + now.len());
                if u.len() > 0 && u.last() == ')' as u8 {
                    match parse_i32_spec(u.drop_last()) {
                        Some(v) => Some((s.subrange(0, k), v)),
                        None => None,
                    }
                } else {
                    None
                }
            }
        }
    }
}

/// Reads the output of a `tag ... add` command with minect's `AddTagOutput::from_str` and gives
/// its tag. minect reads `Added tag '`, then the tag up to the first `' to `, then the entity.
#[verifier::external_body]
pub(crate) fn added_tag(output: &str) -> (res: Option<String>)
    ensures
        match added_tag_spec(output.spec_bytes()) {
            Some(t) => res matches Some(s) && string_bytes(&s) == t,
            None => res is None,
        },
{
    match output.parse::<AddTagOutput>() {
        Ok(parsed) => Some(parsed.tag),
        Err(_) => None,
    }
}

/// Reads the output of a score query with minect's `QueryScoreboardOutput::from_str` and gives
/// its scoreboard and score. minect reads `Added 0 to [`, the scoreboard up to the first
/// `] for `, the entity up to the last ` (now `, and the score as an `i32` before a final `)`.
#[verifier::external_body]
pub(crate) fn scoreboard_output(output: &str) -> (res: Option<(String, i32)>)
    ensures
        match scoreboard_output_spec(output.spec_bytes()) {
            Some((s, v)) => res matches Some((x, y)) && string_bytes(&x) == s && y == v,
            None => res is None,
        },
{
    match output.parse::<QueryScoreboardOutput>() {
        Ok(parsed) => Some((parsed.scoreboard, parsed.score)),
        Err(_) => None,
    }
}

/// The score that `output` reports for `scoreboard`; `None` when `output` is no score query
/// output or reports another scoreboard.
pub fn parse_scoreboard_value(output: &str, scoreboard: &str) -> (res: Option<i32>)
    ensures
        res == match scoreboard_output_spec(output.spec_bytes()) {
            Some((s, v)) => if s == scoreboard.spec_bytes() {
                Some(v)
            } else {
                None
            },
            None => None,
        },
{
    match scoreboard_output(output) {
        Some((s, score)) => {
            if str_eq(s.as_str(), scoreboard) {
                Some(score)
            } else {
                None
            }
        },
        None => None,
    }
}

/// Whether `output` reports that `tag` was added.
pub fn is_added_tag_output(output: &str, tag: &str) -> (res: bool)
    ensures
        res == (added_tag_spec(output.spec_bytes()) == Some(tag.spec_bytes())),
{
    match added_tag(output) {
        Some(t) => str_eq(t.as_str(), tag),
        None => false,
    }
}

} // verus!
