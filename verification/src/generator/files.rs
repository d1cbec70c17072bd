//! The function files of a datapack, held in order of their function names, each name once.

use crate::entries::{lemma_to_map_update, to_map, Keyed, Modeled};
use crate::sorted::lemma_bytes_lt_total;
use crate::parser::command::resource_location::{lemma_location_lt_strict, location_lt, ResourceLocation};
use vstd::prelude::*;

verus! {

/// The pairs of `e` with each function name taken by its model.
pub open spec fn named<T>(e: Seq<(ResourceLocation, T)>) -> Seq<((Seq<u8>, Seq<u8>), T)> {
    Seq::new(e.len(), |i: int| (e[i].0.model_of(), e[i].1))
}

/// Each name comes before every later one.
pub open spec fn names_increasing<T>(e: Seq<((Seq<u8>, Seq<u8>), T)>) -> bool {
    forall|i: int, j: int| 0 <= i < j < e.len() ==> location_lt(#[trigger] e[i].0, #[trigger] e[j].0)
}

/// Inserting a pair whose key no pair has adds that key to the map.
proof fn lemma_to_map_insert<A, B>(e: Seq<(A, B)>, i: int, k: A, v: B)
    requires
        0 <= i <= e.len(),
        forall|j: int| 0 <= j < e.len() ==> #[trigger] e[j].0 != k,
    ensures
        to_map(e.insert(i, (k, v))) == to_map(e).insert(k, v),
    decreases e.len(),
{
    let n = e.insert(i, (k, v));
    if i == e.len() {
        assert(n.drop_last() =~= e);
    } else {
        assert(n.drop_last() =~= e.drop_last().insert(i, (k, v)));
        lemma_to_map_insert(e.drop_last(), i, k, v);
        assert(e.last().0 != k);
        assert(to_map(n) =~= to_map(e).insert(k, v));
    }
}

/// Sets the file of the function `name` in `files`: the pair for `name` takes `file`, or a new
/// pair takes its place in the order of names.
pub fn insert_function_file<T>(files: &mut Vec<(ResourceLocation, T)>, name: ResourceLocation, file: T)
    requires
        names_increasing(named(old(files)@)),
    ensures
        names_increasing(named(final(files)@)),
        to_map(named(final(files)@)) == to_map(named(old(files)@)).insert(name.model_of(), file),
{
    let ghost m = named(files@);
    let ghost k = name.model_of();
    let mut i: usize = 0;
    while i < files.len() && files[i].0.precedes(&name)
        invariant
            m == named(files@),
            m == named(old(files)@),
            names_increasing(m),
            k == name.model_of(),
            i <= files@.len(),
            forall|l: int| 0 <= l < i ==> location_lt(#[trigger] m[l].0, k),
        decreases files@.len() - i,
    {
        i = i + 1;
    }
    if i < files.len() && files[i].0.same(&name) {
        proof {
            assert(m[i as int].0 == k);
            assert forall|a: int, b: int| 0 <= a < b < m.len() implies m[a].0 != m[b].0 by {
                lemma_location_lt_strict(m[a].0, m[b].0, m[b].0);
            }
            lemma_to_map_update(m, i as int, file);
        }
        files.set(i, (name, file));
        proof {
            assert(named(files@) =~= m.update(i as int, (k, file)));
        }
    } else {
        proof {
            if i < m.len() {
                let c = m[i as int].0;
                assert(c != k);
                if c.0 != k.0 {
                    lemma_bytes_lt_total(c.0, k.0);
                } else {
                    lemma_bytes_lt_total(c.1, k.1);
                }
                assert(location_lt(k, m[i as int].0));
            }
            assert forall|j: int| 0 <= j < m.len() implies #[trigger] m[j].0 != k by {
                if j < i {
                    lemma_location_lt_strict(k, k, k);
                } else {
                    if j > i {
                        lemma_location_lt_strict(k, m[i as int].0, m[j].0);
                    }
                    lemma_location_lt_strict(k, k, k);
                }
            }
            lemma_to_map_insert(m, i as int, k, file);
        }
        files.insert(i, (name, file));
        proof {
            let n = named(files@);
            assert(n =~= m.insert(i as int, (k, file)));
            assert forall|a: int, b: int| 0 <= a < b < n.len() implies location_lt(#[trigger] n[a].0, #[trigger] n[b].0) by {
                if b < i {
                } else if b == i {
                } else if a < i {
                    lemma_location_lt_strict(n[a].0, k, n[b].0);
                } else if a == i {
                    if b - 1 > i {
                        lemma_location_lt_strict(k, m[i as int].0, m[b - 1].0);
                    }
                } else {
                }
            }
        }
    }
}

/// Collects the functions found with their files, ordered by name; where a name was found twice,
/// the file found last stays.
pub fn function_files<T>(found: Vec<(ResourceLocation, T)>) -> (res: Vec<(ResourceLocation, T)>)
    ensures
        names_increasing(named(res@)),
        to_map(named(res@)) == to_map(named(found@)),
{
    let ghost all = named(found@);
    let mut files: Vec<(ResourceLocation, T)> = Vec::new();
    let mut rest = found;
    let ghost mut j: int = 0;
    proof {
        assert(named(files@) =~= Seq::<((Seq<u8>, Seq<u8>), T)>::empty());
        assert(all.take(0) =~= Seq::<((Seq<u8>, Seq<u8>), T)>::empty());
        assert(named(rest@) =~= all.skip(0));
    }
    while rest.len() > 0
        invariant
            0 <= j <= all.len(),
            named(rest@) == all.skip(j),
            names_increasing(named(files@)),
            to_map(named(files@)) == to_map(all.take(j)),
        decreases rest@.len(),
    {
        proof {
            assert(named(rest@).len() == rest@.len());
        }
        let ghost before = rest@;
        let (name, file) = rest.remove(0);
        proof {
            assert(named(before)[0] == (name.model_of(), file));
            assert(all[j] == (name.model_of(), file));
        }
        insert_function_file(&mut files, name, file);
        proof {
            assert(all.take(j + 1).drop_last() =~= all.take(j));
            assert(named(rest@) =~= all.skip(j + 1)) by {
                assert forall|l: int| 0 <= l < rest@.len() implies named(rest@)[l] == all.skip(j + 1)[l] by {
                    assert(rest@[l] == before[l + 1]);
                    assert(named(before)[l + 1] == all.skip(j)[l + 1]);
                }
            }
            j = j + 1;
        }
    }
    proof {
        assert(all.take(j) =~= all);
    }
    files
}

} // verus!
