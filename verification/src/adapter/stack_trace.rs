//! The stack trace of a suspended execution, read from what the game reports.

use crate::adapter::minecraft::{added_tag, added_tag_spec, scoreboard_output, scoreboard_output_spec};
use crate::adapter::utils::{source_location_spec, source_model, SourceLocation};
use crate::text::{str_eq, string_bytes, to_string, lemma_encode_concat};
use vstd::prelude::*;
use vstd::string::*;

verus! {

/// A frame of the stack: its number and where its function is.
#[derive(Clone, Debug)]
pub struct McfunctionStackFrame {
    pub id: i32,
    pub location: SourceLocation,
}

/// The value of a frame: its number and the value of its location.
pub type FrameModel = (i32, ((Seq<u8>, Seq<u8>), usize, usize));

/// The value of a frame.
pub open spec fn frame_model(f: McfunctionStackFrame) -> FrameModel {
    (f.id, source_model(f.location))
}

/// The values of frames.
pub open spec fn frames_model(v: Seq<McfunctionStackFrame>) -> Seq<FrameModel> {
    Seq::new(v.len(), |i: int| frame_model(v[i]))
}

/// The number of the frame that an event reports, given `count` frames before it: the depth
/// that a score query of the depth scoreboard reports, or `count` for the breakpoint where the
/// stack trace tag is added.
pub open spec fn frame_id(namespace: Seq<u8>, output: Seq<u8>, count: int) -> Option<i32> {
    let depth_scoreboard = namespace + "_depth".spec_bytes();
    let stack_trace_tag = namespace + "_stack_trace".spec_bytes();
    let tagged = if added_tag_spec(output) == Some(stack_trace_tag) {
        Some(count as i32)
    } else {
        None
    };
    match scoreboard_output_spec(output) {
        Some((scoreboard, score)) => if scoreboard == depth_scoreboard {
            Some(score)
        } else {
            tagged
        },
        None => tagged,
    }
}

/// The frames that the first `k` events report, in their order: each event whose executor is
/// a source location and whose output gives a frame number.
pub open spec fn frames_spec(namespace: Seq<u8>, events: Seq<(Seq<u8>, Seq<u8>)>, k: int) -> Seq<FrameModel>
    decreases k,
{
    if k <= 0 {
        Seq::empty()
    } else {
        let before = frames_spec(namespace, events, k - 1);
        let (executor, output) = events[k - 1];
        match source_location_spec(executor) {
            Some(location) => match frame_id(namespace, output, before.len() as int) {
                Some(id) => before.push((id, location)),
                None => before,
            },
            None => before,
        }
    }
}

/// `s` with `x` inserted after the frames at its end with a smaller number.
pub open spec fn insert_desc(s: Seq<FrameModel>, x: FrameModel) -> Seq<FrameModel>
    decreases s.len(),
{
    if s.len() == 0 {
        seq![x]
    } else if s.last().0 >= x.0 {
        s.push(x)
    } else {
        insert_desc(s.drop_last(), x).push(s.last())
    }
}

/// The frames `s` ordered by decreasing number, frames with equal numbers in their order in `s`.
pub open spec fn sort_desc(s: Seq<FrameModel>) -> Seq<FrameModel>
    decreases s.len(),
{
    if s.len() == 0 {
        Seq::empty()
    } else {
        insert_desc(sort_desc(s.drop_last()), s.last())
    }
}

/// Each frame has a number no smaller than that of every later frame.
pub open spec fn ids_non_increasing(s: Seq<FrameModel>) -> bool {
    forall|i: int, j: int| 0 <= i < j < s.len() ==> #[trigger] s[i].0 >= #[trigger] s[j].0
}

/// Inserting a frame into frames ordered by non-increasing number keeps them ordered and adds
/// exactly that frame.
proof fn lemma_insert_desc_ordered(s: Seq<FrameModel>, x: FrameModel)
    requires
        ids_non_increasing(s),
    ensures
        ids_non_increasing(insert_desc(s, x)),
        insert_desc(s, x).to_multiset() == s.to_multiset().insert(x),
        insert_desc(s, x).len() == s.len() + 1,
    decreases s.len(),
{
    broadcast use vstd::seq_lib::group_to_multiset_ensures;
    if s.len() == 0 {
        assert(seq![x] =~= Seq::<FrameModel>::empty().push(x));
    } else if s.last().0 >= x.0 {
        let r = s.push(x);
        assert forall|i: int, j: int| 0 <= i < j < r.len() implies #[trigger] r[i].0 >= #[trigger] r[j].0 by {
            if j == s.len() {
                if i < s.len() - 1 {
                    assert(s[i].0 >= s[s.len() - 1].0);
                }
            }
        }
    } else {
        let t = s.drop_last();
        assert(ids_non_increasing(t));
        lemma_insert_desc_ordered(t, x);
        let u = insert_desc(t, x);
        let r = u.push(s.last());
        assert forall|i: int, j: int| 0 <= i < j < r.len() implies #[trigger] r[i].0 >= #[trigger] r[j].0 by {
            if j == u.len() {
                // every frame of u is a frame of t or x, each no smaller than s.last()
                assert(u.to_multiset().count(u[i]) > 0);
                assert(u.contains(u[i]));
                if u[i] == x {
                } else {
                    assert(t.to_multiset().insert(x).count(u[i]) > 0);
                    assert(t.to_multiset().count(u[i]) > 0);
                    assert(t.contains(u[i]));
                    let m = choose|m: int| 0 <= m < t.len() && t[m] == u[i];
                    assert(s[m].0 >= s[s.len() - 1].0);
                }
            }
        }
        assert(s =~= t.push(s.last()));
    }
}

/// Ordering frames by number gives the same frames, ordered by non-increasing number.
pub proof fn lemma_sort_desc_ordered(s: Seq<FrameModel>)
    ensures
        ids_non_increasing(sort_desc(s)),
        sort_desc(s).to_multiset() == s.to_multiset(),
        sort_desc(s).len() == s.len(),
    decreases s.len(),
{
    broadcast use vstd::seq_lib::group_to_multiset_ensures;
    if s.len() > 0 {
        lemma_sort_desc_ordered(s.drop_last());
        lemma_insert_desc_ordered(sort_desc(s.drop_last()), s.last());
        assert(s =~= s.drop_last().push(s.last()));
    }
}

/// The frames of `s` with the number `d`, in their order.
pub open spec fn frames_with_id(s: Seq<FrameModel>, d: i32) -> Seq<FrameModel> {
    s.filter(|f: FrameModel| f.0 == d)
}

/// Filtering frames after adding one at the end.
proof fn lemma_frames_with_id_push(s: Seq<FrameModel>, x: FrameModel, d: i32)
    ensures
        frames_with_id(s.push(x), d) == if x.0 == d {
            frames_with_id(s, d).push(x)
        } else {
            frames_with_id(s, d)
        },
{
    reveal(Seq::filter);
    assert(s.push(x).drop_last() =~= s);
}

/// Inserting a frame keeps the order of the frames with each number, the inserted frame coming
/// after those with its number.
proof fn lemma_insert_desc_stable(s: Seq<FrameModel>, x: FrameModel, d: i32)
    ensures
        frames_with_id(insert_desc(s, x), d) == if x.0 == d {
            frames_with_id(s, d).push(x)
        } else {
            frames_with_id(s, d)
        },
    decreases s.len(),
{
    if s.len() == 0 {
        assert(seq![x] =~= s.push(x));
        lemma_frames_with_id_push(s, x, d);
    } else if s.last().0 >= x.0 {
        lemma_frames_with_id_push(s, x, d);
    } else {
        let t = s.drop_last();
        assert(s =~= t.push(s.last()));
        lemma_insert_desc_stable(t, x, d);
        lemma_frames_with_id_push(insert_desc(t, x), s.last(), d);
        lemma_frames_with_id_push(t, s.last(), d);
    }
}

/// Ordering frames by number keeps the order of the frames with each number.
pub proof fn lemma_sort_desc_stable(s: Seq<FrameModel>, d: i32)
    ensures
        frames_with_id(sort_desc(s), d) == frames_with_id(s, d),
    decreases s.len(),
{
    if s.len() > 0 {
        let t = s.drop_last();
        assert(s =~= t.push(s.last()));
        lemma_sort_desc_stable(t, d);
        lemma_insert_desc_stable(sort_desc(t), s.last(), d);
        lemma_frames_with_id_push(t, s.last(), d);
    }
}

/// Inserting `x` at `j`, after the frames with a number no smaller than that of `x` and before
/// the smaller ones at the end.
proof fn lemma_insert_desc(s: Seq<FrameModel>, x: FrameModel, j: int)
    requires
        0 <= j <= s.len(),
        forall|m: int| j <= m < s.len() ==> s[m].0 < x.0,
        j == 0 || s[j - 1].0 >= x.0,
    ensures
        insert_desc(s, x) == s.subrange(0, j) + seq![x] + s.subrange(j, s.len() as int),
    decreases s.len(),
{
    if s.len() == 0 {
        assert(s.subrange(0, j) + seq![x] + s.subrange(j, s.len() as int) =~= seq![x]);
    } else if j == s.len() {
        assert(s.subrange(0, j) =~= s);
        assert(s.subrange(0, j) + seq![x] + s.subrange(j, s.len() as int) =~= s.push(x));
    } else {
        let t = s.drop_last();
        lemma_insert_desc(t, x, j);
        assert(s.subrange(0, j) + seq![x] + s.subrange(j, s.len() as int) =~= (t.subrange(0, j)
            + seq![x] + t.subrange(j, t.len() as int)).push(s.last()));
    }
}

/// Inserts `x` into `v` as `insert_desc` does.
fn insert_frame(v: &mut Vec<McfunctionStackFrame>, x: McfunctionStackFrame)
    ensures
        frames_model(final(v)@) == insert_desc(frames_model(old(v)@), frame_model(x)),
{
    let ghost s = frames_model(v@);
    let mut j: usize = v.len();
    while j > 0 && v[j - 1].id < x.id
        invariant
            s == frames_model(v@),
            j <= v@.len(),
            forall|m: int| j <= m < s.len() ==> s[m].0 < x.id,
        decreases j,
    {
        j = j - 1;
    }
    proof {
        lemma_insert_desc(s, frame_model(x), j as int);
    }
    v.insert(j, x);
    proof {
        assert(frames_model(v@) =~= s.subrange(0, j as int) + seq![frame_model(x)] + s.subrange(
            j as int,
            s.len() as int,
        ));
    }
}

/// A copy of a frame.
fn copy_frame(f: &McfunctionStackFrame) -> (res: McfunctionStackFrame)
    ensures
        frame_model(res) == frame_model(*f),
{
    let location = SourceLocation {
        function: f.location.function.clone(),
        line_number: f.location.line_number,
        column_number: f.location.column_number,
    };
    McfunctionStackFrame { id: f.id, location }
}

/// The events' texts: the executor and the output of each.
pub open spec fn events_model(events: Seq<(String, String)>) -> Seq<(Seq<u8>, Seq<u8>)> {
    Seq::new(events.len(), |i: int| (string_bytes(&events[i].0), string_bytes(&events[i].1)))
}

/// The texts `a` and `b`, one after the other.
fn concat(a: &str, b: &str) -> (res: String)
    ensures
        string_bytes(&res) == a.spec_bytes() + b.spec_bytes(),
{
    let mut s = to_string(a);
    s.append(b);
    proof {
        lemma_encode_concat(a@, b@);
    }
    s
}

/// The stack trace that `events` report, the executor and output of each, innermost frame
/// first: ordered by decreasing number, frames with equal numbers in the order of the events.
pub fn stack_trace_from_events(namespace: &str, events: &[(String, String)]) -> (res: Vec<McfunctionStackFrame>)
    requires
        events@.len() <= i32::MAX,
    ensures
        frames_model(res@) == sort_desc(frames_spec(namespace.spec_bytes(), events_model(events@), events@.len() as int)),
        forall|k: int| 0 <= k < res@.len() - 1 ==> res@[k].id >= #[trigger] res@[k + 1].id,
        frames_model(res@).to_multiset() == frames_spec(
            namespace.spec_bytes(),
            events_model(events@),
            events@.len() as int,
        ).to_multiset(),
        forall|d: i32|
            #[trigger] frames_with_id(frames_model(res@), d) == frames_with_id(
                frames_spec(namespace.spec_bytes(), events_model(events@), events@.len() as int),
                d,
            ),
{
    let depth_scoreboard = concat(namespace, "_depth");
    let stack_trace_tag = concat(namespace, "_stack_trace");
    let ghost ns = namespace.spec_bytes();
    let ghost em = events_model(events@);
    let mut frames: Vec<McfunctionStackFrame> = Vec::new();
    let mut i: usize = 0;
    proof {
        assert(frames_model(frames@) =~= Seq::<FrameModel>::empty());
    }
    while i < events.len()
        invariant
            ns == namespace.spec_bytes(),
            em == events_model(events@),
            events@.len() <= i32::MAX,
            i <= events@.len(),
            frames@.len() <= i,
            string_bytes(&depth_scoreboard) == ns + "_depth".spec_bytes(),
            string_bytes(&stack_trace_tag) == ns + "_stack_trace".spec_bytes(),
            frames_model(frames@) == frames_spec(ns, em, i as int),
        decreases events@.len() - i,
    {
        let (executor, output) = (&events[i].0, &events[i].1);
        proof {
            assert(em[i as int] == (string_bytes(executor), string_bytes(output)));
        }
        match SourceLocation::parse(executor.as_str()) {
            Some(location) => {
                let count = frames.len();
                let id = match scoreboard_output(output.as_str()) {
                    Some((scoreboard, score)) if str_eq(scoreboard.as_str(), depth_scoreboard.as_str()) => Some(score),
                    _ => match added_tag(output.as_str()) {
                        Some(tag) if str_eq(tag.as_str(), stack_trace_tag.as_str()) => Some(count as i32),
                        _ => None,
                    },
                };
                match id {
                    Some(id) => {
                        let ghost before = frames@;
                        let frame = McfunctionStackFrame { id, location };
                        frames.push(frame);
                        proof {
                            assert(frames_model(frames@) =~= frames_model(before).push(frame_model(frame)));
                        }
                    },
                    None => {},
                }
            },
            None => {},
        }
        i = i + 1;
    }
    let ghost collected = frames_model(frames@);
    let mut sorted: Vec<McfunctionStackFrame> = Vec::new();
    let mut k: usize = 0;
    proof {
        assert(frames_model(sorted@) =~= Seq::<FrameModel>::empty());
        assert(collected.take(0) =~= Seq::<FrameModel>::empty());
    }
    while k < frames.len()
        invariant
            collected == frames_model(frames@),
            k <= frames@.len(),
            frames_model(sorted@) == sort_desc(collected.take(k as int)),
        decreases frames@.len() - k,
    {
        let frame = copy_frame(&frames[k]);
        proof {
            assert(frame_model(frame) == collected[k as int]);
            assert(collected.take(k + 1).drop_last() =~= collected.take(k as int));
        }
        insert_frame(&mut sorted, frame);
        k = k + 1;
    }
    proof {
        assert(collected.take(k as int) =~= collected);
        lemma_sort_desc_ordered(collected);
        assert forall|d: i32| #[trigger] frames_with_id(frames_model(sorted@), d) == frames_with_id(collected, d) by {
            lemma_sort_desc_stable(collected, d);
        }
        let m = frames_model(sorted@);
        assert forall|k: int| 0 <= k < sorted@.len() - 1 implies sorted@[k].id >= #[trigger] sorted@[k + 1].id by {
            assert(m[k].0 >= m[k + 1].0);
        }
    }
    sorted
}

} // verus!
