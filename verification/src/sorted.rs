//! Sets held as strictly increasing vectors: of offsets, and of strings in byte order.

use crate::text::{str_eq, string_bytes};
use vstd::prelude::*;
use vstd::string::*;

verus! {

/// Each element is smaller than every later one.
pub open spec fn increasing(s: Seq<usize>) -> bool {
    forall|i: int, j: int| 0 <= i < j < s.len() ==> s[i] < s[j]
}

/// Adds `x` to the set `v`, keeping it increasing.
pub fn insert_offset(v: &mut Vec<usize>, x: usize)
    requires
        increasing(old(v)@),
    ensures
        increasing(final(v)@),
        forall|y: usize| final(v)@.contains(y) <==> (old(v)@.contains(y) || y == x),
{
    let mut i: usize = 0;
    while i < v.len() && v[i] < x
        invariant
            v@ == old(v)@,
            i <= v@.len(),
            forall|j: int| 0 <= j < i ==> v@[j] < x,
        decreases v@.len() - i,
    {
        i = i + 1;
    }
    if i < v.len() && v[i] == x {
        proof {
            assert(v@[i as int] == x);
            assert(v@.contains(x));
        }
        return;
    }
    let ghost old_v = v@;
    v.insert(i, x);
    proof {
        assert(old_v == old(v)@);
        assert(v@ =~= old_v.insert(i as int, x));
        assert forall|a: int, b: int| 0 <= a < b < v@.len() implies v@[a] < v@[b] by {
            if i < old_v.len() {
                assert(x < old_v[i as int]);
            }
            if a < i && b < i {
                assert(v@[a] == old_v[a] && v@[b] == old_v[b]);
            } else if a < i && b == i {
                assert(v@[a] == old_v[a]);
            } else if a < i {
                assert(v@[a] == old_v[a] && v@[b] == old_v[b - 1]);
            } else if a == i {
                assert(v@[b] == old_v[b - 1]);
                assert(old_v[i as int] <= old_v[b - 1]);
            } else {
                assert(v@[a] == old_v[a - 1] && v@[b] == old_v[b - 1]);
            }
        }
        assert forall|y: usize| v@.contains(y) <==> (old_v.contains(y) || y == x) by {
            if old_v.contains(y) {
                let j = choose|j: int| 0 <= j < old_v.len() && old_v[j] == y;
                if j < i {
                    assert(v@[j] == y);
                } else {
                    assert(v@[j + 1] == y);
                }
            }
            if v@.contains(y) {
                let j = choose|j: int| 0 <= j < v@.len() && v@[j] == y;
                if j < i {
                    assert(old_v[j] == y);
                } else if j > i {
                    assert(old_v[j - 1] == y);
                }
            }
            if y == x {
                assert(v@[i as int] == x);
            }
        }
        assert(forall|y: usize| v@.contains(y) <==> (old(v)@.contains(y) || y == x));
    }
}

/// `a` comes before `b` in byte order.
pub open spec fn bytes_lt(a: Seq<u8>, b: Seq<u8>) -> bool
    decreases a.len(),
{
    if a.len() == 0 {
        b.len() > 0
    } else if b.len() == 0 {
        false
    } else if a[0] != b[0] {
        a[0] < b[0]
    } else {
        bytes_lt(a.drop_first(), b.drop_first())
    }
}

/// Of two different byte sequences, one comes before the other.
pub proof fn lemma_bytes_lt_total(a: Seq<u8>, b: Seq<u8>)
    requires
        a != b,
    ensures
        bytes_lt(a, b) || bytes_lt(b, a),
    decreases a.len(),
{
    if a.len() > 0 && b.len() > 0 && a[0] == b[0] {
        assert(a.drop_first() != b.drop_first()) by {
            if a.drop_first() == b.drop_first() {
                assert(a =~= seq![a[0]] + a.drop_first());
                assert(b =~= seq![b[0]] + b.drop_first());
            }
        }
        lemma_bytes_lt_total(a.drop_first(), b.drop_first());
    } else if a.len() == 0 && b.len() == 0 {
        assert(a =~= b);
    }
}

/// `a` does not come before `b`, and `b` comes before `a`, in byte order never both.
pub proof fn lemma_bytes_lt_asymmetric(a: Seq<u8>, b: Seq<u8>)
    ensures
        !(bytes_lt(a, b) && bytes_lt(b, a)),
    decreases a.len(),
{
    if a.len() > 0 && b.len() > 0 && a[0] == b[0] {
        lemma_bytes_lt_asymmetric(a.drop_first(), b.drop_first());
    }
}

/// Byte order is transitive.
pub proof fn lemma_bytes_lt_transitive(a: Seq<u8>, b: Seq<u8>, c: Seq<u8>)
    requires
        bytes_lt(a, b),
        bytes_lt(b, c),
    ensures
        bytes_lt(a, c),
    decreases a.len(),
{
    if a.len() > 0 && a[0] == b[0] && b[0] == c[0] {
        lemma_bytes_lt_transitive(a.drop_first(), b.drop_first(), c.drop_first());
    }
}

/// Whether `a` comes before `b` in byte order.
pub fn str_lt(a: &str, b: &str) -> (res: bool)
    ensures
        res == bytes_lt(a.spec_bytes(), b.spec_bytes()),
{
    let x = a.as_bytes();
    let y = b.as_bytes();
    let mut i: usize = 0;
    proof {
        assert(x@.subrange(0, x@.len() as int) =~= x@);
        assert(y@.subrange(0, y@.len() as int) =~= y@);
    }
    while i < x.len() && i < y.len() && x[i] == y[i]
        invariant
            i <= x@.len(),
            i <= y@.len(),
            bytes_lt(x@.subrange(i as int, x@.len() as int), y@.subrange(i as int, y@.len() as int))
                == bytes_lt(x@, y@),
        decreases x@.len() - i,
    {
        proof {
            let p = x@.subrange(i as int, x@.len() as int);
            let q = y@.subrange(i as int, y@.len() as int);
            assert(p.drop_first() =~= x@.subrange(i + 1, x@.len() as int));
            assert(q.drop_first() =~= y@.subrange(i + 1, y@.len() as int));
        }
        i = i + 1;
    }
    proof {
        assert(x@.subrange(0, x@.len() as int) =~= x@);
        assert(y@.subrange(0, y@.len() as int) =~= y@);
    }
    if i == x.len() {
        i < y.len()
    } else if i == y.len() {
        false
    } else {
        x[i] < y[i]
    }
}

/// The bytes of each string.
pub open spec fn strings_model(v: Seq<String>) -> Seq<Seq<u8>> {
    Seq::new(v.len(), |i: int| string_bytes(&v[i]))
}

/// Each string comes before the next one in byte order.
pub open spec fn strings_increasing(s: Seq<Seq<u8>>) -> bool {
    forall|i: int| 0 <= i < s.len() - 1 ==> #[trigger] bytes_lt(s[i], s[i + 1])
}

/// Adds `x` to the set of strings `v`, keeping it in byte order.
pub fn insert_string(v: &mut Vec<String>, x: String)
    requires
        strings_increasing(strings_model(old(v)@)),
    ensures
        strings_increasing(strings_model(final(v)@)),
        forall|y: Seq<u8>|
            strings_model(final(v)@).contains(y) <==> (strings_model(old(v)@).contains(y) || y
                == string_bytes(&x)),
{
    let ghost m = strings_model(v@);
    let ghost k = string_bytes(&x);
    let mut j: usize = 0;
    while j < v.len()
        invariant
            m == strings_model(v@),
            m == strings_model(old(v)@),
            strings_increasing(m),
            k == string_bytes(&x),
            j <= v@.len(),
            forall|l: int| 0 <= l < j ==> m[l] != k,
        decreases v@.len() - j,
    {
        if str_eq(v[j].as_str(), x.as_str()) {
            proof {
                assert(m[j as int] == k);
                assert forall|y: Seq<u8>| strings_model(v@).contains(y) <==> (m.contains(y) || y == k) by {
                    if y == k {
                        assert(m[j as int] == y);
                    }
                }
            }
            return;
        }
        j = j + 1;
    }
    let mut i: usize = 0;
    while i < v.len() && str_lt(v[i].as_str(), x.as_str())
        invariant
            m == strings_model(v@),
            m == strings_model(old(v)@),
            strings_increasing(m),
            k == string_bytes(&x),
            i <= v@.len(),
            forall|l: int| 0 <= l < i ==> bytes_lt(#[trigger] m[l], k),
        decreases v@.len() - i,
    {
        i = i + 1;
    }
    proof {
        if i < m.len() {
            assert(m[i as int] != k);
            lemma_bytes_lt_total(m[i as int], k);
        }
    }
    let ghost old_v = v@;
    v.insert(i, x);
    proof {
        let n = strings_model(v@);
        assert(n =~= m.insert(i as int, k));
        assert forall|l: int| 0 <= l < n.len() - 1 implies #[trigger] bytes_lt(n[l], n[l + 1]) by {
            if l < i - 1 {
                assert(n[l] == m[l] && n[l + 1] == m[l + 1]);
                assert(bytes_lt(m[l], m[l + 1]));
            } else if l == i - 1 {
                assert(n[l] == m[l] && n[l + 1] == k);
            } else if l == i {
                assert(n[l] == k && n[l + 1] == m[i as int]);
            } else {
                assert(n[l] == m[l - 1] && n[l + 1] == m[l]);
                let a = l - 1;
                assert(bytes_lt(m[a], m[a + 1]));
            }
        }
        assert forall|y: Seq<u8>| n.contains(y) <==> (m.contains(y) || y == k) by {
            if m.contains(y) {
                let l = choose|l: int| 0 <= l < m.len() && m[l] == y;
                if l < i {
                    assert(n[l] == y);
                } else {
                    assert(n[l + 1] == y);
                }
            }
            if n.contains(y) {
                let l = choose|l: int| 0 <= l < n.len() && n[l] == y;
                if l < i {
                    assert(m[l] == y);
                } else if l > i {
                    assert(m[l - 1] == y);
                }
            }
            if y == k {
                assert(n[i as int] == k);
            }
        }
    }
}

} // verus!
