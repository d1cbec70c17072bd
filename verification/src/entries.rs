//! Small maps held as vectors of key-value pairs, each key once, in the order in which the keys
//! were first inserted.

use crate::text::{str_eq, string_bytes};
use vstd::prelude::*;
use vstd::string::*;

verus! {

/// Values with a mathematical model.
pub trait Modeled {
    /// The type of the model.
    type M;

    /// The model of this value.
    spec fn model_of(&self) -> Self::M;
}

/// Keys that can be compared by their models.
pub trait Keyed: Modeled {
    /// Whether two keys have the same model.
    fn same(&self, other: &Self) -> (res: bool)
        ensures
            res == (self.model_of() == other.model_of()),
    ;
}

impl<'a> Modeled for &'a str {
    type M = Seq<u8>;

    open spec fn model_of(&self) -> Seq<u8> {
        (*self).spec_bytes()
    }
}

impl<'a> Keyed for &'a str {
    fn same(&self, other: &Self) -> (res: bool) {
        str_eq(*self, *other)
    }
}

impl Modeled for bool {
    type M = bool;

    open spec fn model_of(&self) -> bool {
        *self
    }
}

/// The models of the pairs of `e`.
pub open spec fn pairs_model<K: Modeled, V: Modeled>(e: Seq<(K, V)>) -> Seq<(K::M, V::M)> {
    Seq::new(e.len(), |i: int| (e[i].0.model_of(), e[i].1.model_of()))
}

/// No key occurs twice.
pub open spec fn distinct_keys<A, B>(e: Seq<(A, B)>) -> bool {
    forall|i: int, j: int| 0 <= i < e.len() && 0 <= j < e.len() && i != j ==> e[i].0 != e[j].0
}

/// The pairs after setting `k` to `v`: an existing pair for `k` keeps its place and takes the new
/// value, otherwise the pair comes last.
pub open spec fn put<A, B>(e: Seq<(A, B)>, k: A, v: B) -> Seq<(A, B)> {
    if exists|i: int| 0 <= i < e.len() && #[trigger] e[i].0 == k {
        let i = choose|i: int| 0 <= i < e.len() && #[trigger] e[i].0 == k;
        e.update(i, (k, v))
    } else {
        e.push((k, v))
    }
}

/// Sets the value of `key` to `value` in `entries`.
pub fn insert_pair<K: Keyed, V: Modeled>(entries: &mut Vec<(K, V)>, key: K, value: V)
    requires
        distinct_keys(pairs_model(old(entries)@)),
    ensures
        distinct_keys(pairs_model(final(entries)@)),
        pairs_model(final(entries)@) == put(
            pairs_model(old(entries)@),
            key.model_of(),
            value.model_of(),
        ),
{
    let ghost e = pairs_model(entries@);
    let ghost k = key.model_of();
    let mut i: usize = 0;
    while i < entries.len()
        invariant
            e == pairs_model(entries@),
            e == pairs_model(old(entries)@),
            distinct_keys(e),
            k == key.model_of(),
            i <= entries@.len(),
            forall|j: int| 0 <= j < i ==> #[trigger] e[j].0 != k,
        decreases entries@.len() - i,
    {
        if entries[i].0.same(&key) {
            proof {
                assert(e[i as int].0 == k);
                let c = choose|j: int| 0 <= j < e.len() && #[trigger] e[j].0 == k;
                assert(c == i);
            }
            entries.set(i, (key, value));
            proof {
                assert(pairs_model(entries@) =~= e.update(i as int, (k, value.model_of())));
                assert(distinct_keys(pairs_model(entries@)));
            }
            return;
        }
        i = i + 1;
    }
    entries.push((key, value));
    proof {
        assert(pairs_model(entries@) =~= e.push((k, value.model_of())));
        assert(distinct_keys(pairs_model(entries@)));
    }
}

impl Modeled for String {
    type M = Seq<u8>;

    open spec fn model_of(&self) -> Seq<u8> {
        string_bytes(self)
    }
}

impl Modeled for usize {
    type M = usize;

    open spec fn model_of(&self) -> usize {
        *self
    }
}

/// The pairs after setting each key of `p` to its value, in the order of `p`.
pub open spec fn puts<A, B>(e: Seq<(A, B)>, p: Seq<(A, B)>) -> Seq<(A, B)>
    decreases p.len(),
{
    if p.len() == 0 {
        e
    } else {
        put(puts(e, p.drop_last()), p.last().0, p.last().1)
    }
}

/// The map that the pairs of `e` make, a later pair for a key replacing an earlier one.
pub open spec fn to_map<A, B>(e: Seq<(A, B)>) -> Map<A, B>
    decreases e.len(),
{
    if e.len() == 0 {
        Map::empty()
    } else {
        to_map(e.drop_last()).insert(e.last().0, e.last().1)
    }
}

/// With distinct keys, giving the pair of a key a new value sets that key in the map.
pub proof fn lemma_to_map_update<A, B>(e: Seq<(A, B)>, i: int, v: B)
    requires
        distinct_keys(e),
        0 <= i < e.len(),
    ensures
        to_map(e.update(i, (e[i].0, v))) == to_map(e).insert(e[i].0, v),
    decreases e.len(),
{
    let k = e[i].0;
    let u = e.update(i, (k, v));
    if i == e.len() - 1 {
        assert(u.drop_last() =~= e.drop_last());
        assert(to_map(u) =~= to_map(e).insert(k, v));
    } else {
        assert(u.drop_last() =~= e.drop_last().update(i, (k, v)));
        lemma_to_map_update(e.drop_last(), i, v);
        assert(e.last().0 != k);
        assert(to_map(u) =~= to_map(e).insert(k, v));
    }
}

/// Setting a key in pairs with distinct keys keeps the keys distinct and sets the key in the map.
pub proof fn lemma_put<A, B>(e: Seq<(A, B)>, k: A, v: B)
    requires
        distinct_keys(e),
    ensures
        distinct_keys(put(e, k, v)),
        to_map(put(e, k, v)) == to_map(e).insert(k, v),
{
    if exists|i: int| 0 <= i < e.len() && #[trigger] e[i].0 == k {
        let i = choose|i: int| 0 <= i < e.len() && #[trigger] e[i].0 == k;
        lemma_to_map_update(e, i, v);
        assert(distinct_keys(e.update(i, (k, v))));
    } else {
        assert(e.push((k, v)).drop_last() =~= e);
        assert(distinct_keys(e.push((k, v))));
    }
}

/// Setting the keys of `p` in pairs with distinct keys keeps the keys distinct, and the map is
/// that of `e` overridden by that of `p`.
pub proof fn lemma_puts<A, B>(e: Seq<(A, B)>, p: Seq<(A, B)>)
    requires
        distinct_keys(e),
    ensures
        distinct_keys(puts(e, p)),
        to_map(puts(e, p)) == to_map(e).union_prefer_right(to_map(p)),
    decreases p.len(),
{
    if p.len() == 0 {
        assert(to_map(e).union_prefer_right(to_map(p)) =~= to_map(e));
    } else {
        lemma_puts(e, p.drop_last());
        lemma_put(puts(e, p.drop_last()), p.last().0, p.last().1);
        assert(to_map(e).union_prefer_right(to_map(p.drop_last())).insert(p.last().0, p.last().1)
            =~= to_map(e).union_prefer_right(to_map(p)));
    }
}

/// Sets each key of `pairs` to its value in `entries`, in the order of `pairs`.
pub fn insert_all<K: Keyed, V: Modeled>(entries: &mut Vec<(K, V)>, pairs: Vec<(K, V)>)
    requires
        distinct_keys(pairs_model(old(entries)@)),
    ensures
        distinct_keys(pairs_model(final(entries)@)),
        pairs_model(final(entries)@) == puts(pairs_model(old(entries)@), pairs_model(pairs@)),
{
    let ghost all = pairs_model(pairs@);
    let ghost start = pairs_model(entries@);
    let mut rest = pairs;
    let ghost mut j: int = 0;
    while rest.len() > 0
        invariant
            0 <= j <= all.len(),
            pairs_model(rest@) == all.skip(j),
            distinct_keys(pairs_model(entries@)),
            pairs_model(entries@) == puts(start, all.take(j)),
        decreases rest@.len(),
    {
        proof {
            assert(pairs_model(rest@).len() == rest@.len());
            assert(j < all.len());
        }
        let ghost before = rest@;
        let (k, v) = rest.remove(0);
        proof {
            assert(before[0] == (k, v));
            assert(pairs_model(before)[0] == (k.model_of(), v.model_of()));
            assert(all.skip(j)[0] == (k.model_of(), v.model_of()));
            assert(all[j] == (k.model_of(), v.model_of()));
        }
        insert_pair(entries, k, v);
        proof {
            assert(all.take(j + 1).drop_last() =~= all.take(j));
            assert forall|m: int| 0 <= m < rest@.len() implies pairs_model(rest@)[m] == all.skip(j
                + 1)[m] by {
                assert(rest@[m] == before[m + 1]);
                assert(pairs_model(before)[m + 1] == all.skip(j)[m + 1]);
            }
            assert(pairs_model(rest@) =~= all.skip(j + 1));
            j = j + 1;
        }
    }
    proof {
        assert(all.take(j) =~= all);
    }
}

/// Sets each key of `pairs` to its value in `entries`, in the order of `pairs`.
pub fn insert_copies<K: Keyed + Copy, V: Modeled + Copy>(entries: &mut Vec<(K, V)>, pairs: &[(K, V)])
    requires
        distinct_keys(pairs_model(old(entries)@)),
    ensures
        distinct_keys(pairs_model(final(entries)@)),
        pairs_model(final(entries)@) == puts(pairs_model(old(entries)@), pairs_model(pairs@)),
{
    let ghost all = pairs_model(pairs@);
    let ghost start = pairs_model(entries@);
    let mut i: usize = 0;
    while i < pairs.len()
        invariant
            i <= pairs@.len(),
            all == pairs_model(pairs@),
            distinct_keys(pairs_model(entries@)),
            pairs_model(entries@) == puts(start, all.take(i as int)),
        decreases pairs@.len() - i,
    {
        let (k, v) = pairs[i];
        insert_pair(entries, k, v);
        proof {
            assert(all.take(i + 1).drop_last() =~= all.take(i as int));
        }
        i = i + 1;
    }
    proof {
        assert(all.take(i as int) =~= all);
    }
}

/// The position of the pair for `key` in `entries`, if there is one.
pub fn find_key<K: Keyed, V: Modeled>(entries: &Vec<(K, V)>, key: &K) -> (res: Option<usize>)
    ensures
        match res {
            Some(i) => i < entries@.len() && pairs_model(entries@)[i as int].0 == key.model_of(),
            None => forall|i: int| 0 <= i < entries@.len() ==> pairs_model(entries@)[i].0 != key.model_of(),
        },
{
    let mut i: usize = 0;
    while i < entries.len()
        invariant
            i <= entries@.len(),
            forall|j: int| 0 <= j < i ==> pairs_model(entries@)[j].0 != key.model_of(),
        decreases entries@.len() - i,
    {
        if entries[i].0.same(key) {
            return Some(i);
        }
        i = i + 1;
    }
    None
}

/// With distinct keys, the pair at `i` gives the value of its key in the map.
pub proof fn lemma_to_map_at<A, B>(e: Seq<(A, B)>, i: int)
    requires
        distinct_keys(e),
        0 <= i < e.len(),
    ensures
        to_map(e).contains_key(e[i].0),
        to_map(e)[e[i].0] == e[i].1,
    decreases e.len(),
{
    if i < e.len() - 1 {
        lemma_to_map_at(e.drop_last(), i);
    }
}

/// The keys of the map are those of the pairs.
pub proof fn lemma_to_map_keys<A, B>(e: Seq<(A, B)>, k: A)
    ensures
        to_map(e).contains_key(k) <==> exists|i: int| 0 <= i < e.len() && #[trigger] e[i].0 == k,
    decreases e.len(),
{
    if e.len() > 0 {
        lemma_to_map_keys(e.drop_last(), k);
        if to_map(e.drop_last()).contains_key(k) {
            let i = choose|i: int| 0 <= i < e.drop_last().len() && #[trigger] e.drop_last()[i].0 == k;
            assert(e[i].0 == k);
        }
        if exists|i: int| 0 <= i < e.len() && #[trigger] e[i].0 == k {
            let i = choose|i: int| 0 <= i < e.len() && #[trigger] e[i].0 == k;
            if i < e.len() - 1 {
                assert(e.drop_last()[i].0 == k);
            }
        }
    }
}

/// Keys that come in an order.
pub trait Ordered: Keyed {
    /// Whether one key model comes before another.
    spec fn order() -> spec_fn(Self::M, Self::M) -> bool;

    /// The order is strict and total: no key comes before itself, it is transitive, and of two
    /// different keys one comes before the other.
    proof fn lemma_order(a: Self::M, b: Self::M, c: Self::M)
        ensures
            !(Self::order())(a, a),
            (Self::order())(a, b) && (Self::order())(b, c) ==> (Self::order())(a, c),
            a != b ==> (Self::order())(a, b) || (Self::order())(b, a),
    ;

    /// Whether this key comes before `other`.
    fn precedes(&self, other: &Self) -> (res: bool)
        ensures
            res == (Self::order())(self.model_of(), other.model_of()),
    ;
}

/// Each key comes before every later one in the order `lt`.
pub open spec fn keys_increasing<A, B>(e: Seq<(A, B)>, lt: spec_fn(A, A) -> bool) -> bool {
    forall|i: int, j: int| 0 <= i < j < e.len() ==> lt(#[trigger] e[i].0, #[trigger] e[j].0)
}

/// The pairs, ordered by their keys in the order `lt`, after setting `k` to `v`: an existing pair
/// for `k` takes the new value, otherwise the new pair comes before the first key that does not
/// come before `k`.
pub open spec fn put_in_order<A, B>(e: Seq<(A, B)>, k: A, v: B, lt: spec_fn(A, A) -> bool) -> Seq<(A, B)>
    decreases e.len(),
{
    if e.len() == 0 {
        seq![(k, v)]
    } else if e[0].0 == k {
        e.update(0, (k, v))
    } else if lt(e[0].0, k) {
        seq![e[0]] + put_in_order(e.drop_first(), k, v, lt)
    } else {
        seq![(k, v)] + e
    }
}

/// In pairs ordered by their keys, setting `k` to `v` replaces the pair at the first key that
/// does not come before `k` where that key is `k`, and inserts a pair there otherwise.
pub proof fn lemma_put_in_order_at<A, B>(e: Seq<(A, B)>, k: A, v: B, lt: spec_fn(A, A) -> bool, i: int)
    requires
        0 <= i <= e.len(),
        forall|j: int| 0 <= j < i ==> lt(#[trigger] e[j].0, k) && e[j].0 != k,
        i < e.len() ==> !lt(e[i].0, k),
    ensures
        put_in_order(e, k, v, lt) == if i < e.len() && e[i].0 == k {
            e.update(i, (k, v))
        } else {
            e.insert(i, (k, v))
        },
    decreases i,
{
    if i > 0 {
        let d = e.drop_first();
        assert forall|j: int| 0 <= j < i - 1 implies lt(#[trigger] d[j].0, k) && d[j].0 != k by {
            assert(d[j] == e[j + 1]);
        }
        lemma_put_in_order_at(d, k, v, lt, i - 1);
        assert(e[0].0 != k && lt(e[0].0, k));
        if i < e.len() && e[i].0 == k {
            assert(seq![e[0]] + d.update(i - 1, (k, v)) =~= e.update(i, (k, v)));
        } else {
            assert(seq![e[0]] + d.insert(i - 1, (k, v)) =~= e.insert(i, (k, v)));
        }
    } else {
        if e.len() == 0 {
            assert(e.insert(0, (k, v)) =~= seq![(k, v)]);
        } else if e[0].0 != k {
            assert(e.insert(0, (k, v)) =~= seq![(k, v)] + e);
        }
    }
}

/// Sets the value of `key` to `value` in `entries`, which are ordered by their keys.
pub fn insert_in_order<K: Ordered, V: Modeled>(entries: &mut Vec<(K, V)>, key: K, value: V)
    requires
        keys_increasing(pairs_model(old(entries)@), K::order()),
    ensures
        keys_increasing(pairs_model(final(entries)@), K::order()),
        distinct_keys(pairs_model(final(entries)@)),
        pairs_model(final(entries)@) == put_in_order(
            pairs_model(old(entries)@),
            key.model_of(),
            value.model_of(),
            K::order(),
        ),
{
    let ghost e = pairs_model(entries@);
    let ghost k = key.model_of();
    let ghost lt = K::order();
    let mut i: usize = 0;
    while i < entries.len() && entries[i].0.precedes(&key)
        invariant
            e == pairs_model(entries@),
            e == pairs_model(old(entries)@),
            keys_increasing(e, lt),
            lt == K::order(),
            k == key.model_of(),
            i <= entries@.len(),
            forall|j: int| 0 <= j < i ==> lt(#[trigger] e[j].0, k) && e[j].0 != k,
        decreases entries@.len() - i,
    {
        proof {
            K::lemma_order(k, k, k);
        }
        i = i + 1;
    }
    proof {
        lemma_put_in_order_at(e, k, value.model_of(), lt, i as int);
    }
    if i < entries.len() && entries[i].0.same(&key) {
        entries.set(i, (key, value));
        proof {
            assert(pairs_model(entries@) =~= e.update(i as int, (k, value.model_of())));
        }
    } else {
        proof {
            if i < e.len() {
                K::lemma_order(e[i as int].0, k, k);
                assert(lt(k, e[i as int].0));
            }
        }
        entries.insert(i, (key, value));
        proof {
            assert(pairs_model(entries@) =~= e.insert(i as int, (k, value.model_of())));
        }
    }
    proof {
        let n = pairs_model(entries@);
        assert forall|a: int, b: int| 0 <= a < b < n.len() implies lt(#[trigger] n[a].0, #[trigger] n[b].0) by {
            if n.len() == e.len() {
                if a != i && b != i {
                    assert(lt(e[a].0, e[b].0));
                } else if a == i {
                    assert(lt(e[a].0, e[b].0));
                } else {
                    assert(lt(e[a].0, e[b].0));
                }
            } else {
                if b < i {
                    assert(lt(e[a].0, e[b].0));
                } else if b == i {
                } else if a < i {
                    K::lemma_order(n[a].0, k, n[b].0);
                    if b - 1 > i {
                        K::lemma_order(k, e[i as int].0, e[b - 1].0);
                    }
                } else if a == i {
                    if b - 1 > i {
                        K::lemma_order(k, e[i as int].0, e[b - 1].0);
                    }
                } else {
                    assert(lt(e[a - 1].0, e[b - 1].0));
                }
            }
        }
        assert forall|a: int, b: int| 0 <= a < n.len() && 0 <= b < n.len() && a != b implies n[a].0 != n[b].0 by {
            if a < b {
                K::lemma_order(n[a].0, n[b].0, n[b].0);
            } else {
                K::lemma_order(n[b].0, n[a].0, n[a].0);
            }
        }
    }
}

impl<'a> Ordered for &'a str {
    open spec fn order() -> spec_fn(Seq<u8>, Seq<u8>) -> bool {
        |a: Seq<u8>, b: Seq<u8>| crate::sorted::bytes_lt(a, b)
    }

    proof fn lemma_order(a: Seq<u8>, b: Seq<u8>, c: Seq<u8>) {
        crate::sorted::lemma_bytes_lt_asymmetric(a, a);
        if crate::sorted::bytes_lt(a, b) && crate::sorted::bytes_lt(b, c) {
            crate::sorted::lemma_bytes_lt_transitive(a, b, c);
        }
        if a != b {
            crate::sorted::lemma_bytes_lt_total(a, b);
        }
    }

    fn precedes(&self, other: &Self) -> (res: bool) {
        crate::sorted::str_lt(*self, *other)
    }
}

} // verus!
