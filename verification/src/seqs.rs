//! Facts about sequences that the modules share.

use vstd::prelude::*;

verus! {

/// `s` is strictly ascending.
pub open spec fn ascending(s: Seq<u64>) -> bool {
    forall|i: int, j: int| 0 <= i < j < s.len() ==> s[i] < s[j]
}

/// Filtering one more element.
pub proof fn lemma_filter_step<A>(s: Seq<A>, i: int, p: spec_fn(A) -> bool)
    requires
        0 <= i < s.len(),
    ensures
        s.take(i + 1).filter(p) == (if p(s[i]) {
            s.take(i).filter(p).push(s[i])
        } else {
            s.take(i).filter(p)
        }),
{
    reveal(Seq::filter);
    assert(s.take(i + 1).drop_last() =~= s.take(i));
}

/// Filtering the empty prefix, and the whole.
pub proof fn lemma_filter_ends<A>(s: Seq<A>, p: spec_fn(A) -> bool)
    ensures
        s.take(0).filter(p) == Seq::<A>::empty(),
        s.take(s.len() as int).filter(p) == s.filter(p),
        s.filter(p).len() <= s.len(),
    decreases s.len(),
{
    reveal(Seq::filter);
    assert(s.take(0) =~= Seq::<A>::empty());
    assert(s.take(s.len() as int) =~= s);
    if s.len() > 0 {
        lemma_filter_ends(s.drop_last(), p);
    }
}

/// What a filtered sequence contains.
pub proof fn lemma_filter_contains<A>(s: Seq<A>, p: spec_fn(A) -> bool)
    ensures
        forall|x: A| #[trigger] s.filter(p).contains(x) <==> s.contains(x) && p(x),
    decreases s.len(),
{
    reveal(Seq::filter);
    if s.len() > 0 {
        let t = s.drop_last();
        let f = s.filter(p);
        lemma_filter_contains(t, p);
        assert forall|x: A| #[trigger] f.contains(x) implies s.contains(x) && p(x) by {
            let i = choose|i: int| 0 <= i < f.len() && f[i] == x;
            if i < t.filter(p).len() {
                assert(t.filter(p)[i] == x);
                assert(t.filter(p).contains(x));
                let j = choose|j: int| 0 <= j < t.len() && t[j] == x;
                assert(s[j] == x);
            } else {
                assert(s[s.len() - 1] == x);
            }
        }
        assert forall|x: A| s.contains(x) && p(x) implies #[trigger] f.contains(x) by {
            let i = choose|i: int| 0 <= i < s.len() && s[i] == x;
            if i < t.len() {
                assert(t[i] == x);
                assert(t.filter(p).contains(x));
                let j = choose|j: int| 0 <= j < t.filter(p).len() && t.filter(p)[j] == x;
                assert(f[j] == x);
            } else {
                assert(f[f.len() - 1] == x);
            }
        }
    }
}

/// A filtered ascending sequence ascends.
pub proof fn lemma_filter_ascending(s: Seq<u64>, p: spec_fn(u64) -> bool)
    requires
        ascending(s),
    ensures
        ascending(s.filter(p)),
    decreases s.len(),
{
    reveal(Seq::filter);
    if s.len() > 0 {
        let t = s.drop_last();
        lemma_filter_ascending(t, p);
        lemma_filter_contains(t, p);
        let f = t.filter(p);
        assert forall|i: int| 0 <= i < f.len() implies f[i] < s.last() by {
            assert(f.contains(f[i]));
            assert(t.contains(f[i]));
        }
    }
}

/// Ascending sequences with the same elements are the same.
pub proof fn lemma_ascending_unique(a: Seq<u64>, b: Seq<u64>)
    requires
        ascending(a),
        ascending(b),
        forall|x: u64| a.contains(x) <==> b.contains(x),
    ensures
        a == b,
    decreases a.len(),
{
    if a.len() == 0 {
        if b.len() > 0 {
            assert(b.contains(b[0]));
        }
        assert(a =~= b);
    } else {
        assert(a.contains(a.last()));
        assert(b.len() > 0);
        assert(b.contains(b.last()));
        assert(a.contains(b.last()));
        assert(b.contains(a.last()));
        assert(a.last() == b.last());
        let a1 = a.drop_last();
        let b1 = b.drop_last();
        assert forall|x: u64| a1.contains(x) <==> b1.contains(x) by {
            if a1.contains(x) {
                let i = choose|i: int| 0 <= i < a1.len() && a1[i] == x;
                assert(a[i] == x && x < a.last());
                assert(a.contains(x));
                assert(b.contains(x));
                let j = choose|j: int| 0 <= j < b.len() && b[j] == x;
                assert(b1[j] == x);
            }
            if b1.contains(x) {
                let i = choose|i: int| 0 <= i < b1.len() && b1[i] == x;
                assert(b[i] == x && x < b.last());
                assert(b.contains(x));
                assert(a.contains(x));
                let j = choose|j: int| 0 <= j < a.len() && a[j] == x;
                assert(a1[j] == x);
            }
        }
        lemma_ascending_unique(a1, b1);
        assert(a =~= a1.push(a.last()));
        assert(b =~= b1.push(b.last()));
    }
}

/// Being other than `x`.
pub open spec fn other_than(x: u64) -> spec_fn(u64) -> bool {
    |y: u64| y != x
}

/// `s` without the elements equal to `x`.
pub open spec fn without(s: Seq<u64>, x: u64) -> Seq<u64> {
    s.filter(other_than(x))
}

/// `v` without the elements equal to `x`.
pub fn drop_all(v: &Vec<u64>, x: u64) -> (r: Vec<u64>)
    ensures
        r@ == without(v@, x),
{
    let mut r: Vec<u64> = Vec::new();
    let mut i: usize = 0;
    let ghost p = other_than(x);
    proof {
        lemma_filter_ends(v@, p);
    }
    while i < v.len()
        invariant
            i <= v@.len(),
            p == other_than(x),
            r@ == v@.take(i as int).filter(p),
        decreases v@.len() - i,
    {
        proof {
            lemma_filter_step(v@, i as int, p);
        }
        if v[i] != x {
            r.push(v[i]);
        }
        i += 1;
    }
    proof {
        lemma_filter_ends(v@, p);
    }
    r
}

/// `s` is in ascending order of `key`.
pub open spec fn sorted_by<A>(s: Seq<A>, key: spec_fn(A) -> int) -> bool {
    forall|i: int, j: int| 0 <= i < j < s.len() ==> key(#[trigger] s[i]) <= key(#[trigger] s[j])
}

/// `x` put into `s` behind the last element whose key is not greater.
pub open spec fn place<A>(s: Seq<A>, x: A, key: spec_fn(A) -> int) -> Seq<A>
    decreases s.len(),
{
    if s.len() == 0 || key(s.last()) <= key(x) {
        s.push(x)
    } else {
        place(s.drop_last(), x, key).push(s.last())
    }
}

/// `s` in ascending order of `key`; elements with equal keys keep their order.
pub open spec fn stable_sorted<A>(s: Seq<A>, key: spec_fn(A) -> int) -> Seq<A>
    decreases s.len(),
{
    if s.len() == 0 {
        s
    } else {
        place(stable_sorted(s.drop_last(), key), s.last(), key)
    }
}

/// Where an element is put.
pub proof fn lemma_place<A>(s: Seq<A>, x: A, key: spec_fn(A) -> int, p: int)
    requires
        0 <= p <= s.len(),
        p > 0 ==> key(s[p - 1]) <= key(x),
        forall|i: int| p <= i < s.len() ==> key(#[trigger] s[i]) > key(x),
    ensures
        place(s, x, key) == s.insert(p, x),
    decreases s.len(),
{
    if p == s.len() {
        assert(s.insert(p, x) =~= s.push(x));
    } else {
        assert(key(s[s.len() - 1]) > key(x));
        let t = s.drop_last();
        assert forall|i: int| p <= i < t.len() implies key(#[trigger] t[i]) > key(x) by {
            assert(t[i] == s[i]);
        }
        lemma_place(t, x, key, p);
        assert(s.insert(p, x) =~= t.insert(p, x).push(s.last()));
    }
}

proof fn lemma_place_sorted<A>(s: Seq<A>, x: A, key: spec_fn(A) -> int)
    requires
        sorted_by(s, key),
    ensures
        sorted_by(place(s, x, key), key),
        place(s, x, key).to_multiset() == s.to_multiset().insert(x),
        place(s, x, key).len() == s.len() + 1,
        forall|i: int| 0 <= i < place(s, x, key).len() ==> place(s, x, key)[i] == x || s.contains(#[trigger] place(s, x, key)[i]),
    decreases s.len(),
{
    broadcast use vstd::seq_lib::group_to_multiset_ensures;

    let r = place(s, x, key);
    if s.len() == 0 || key(s.last()) <= key(x) {
        assert forall|i: int, j: int| 0 <= i < j < r.len() implies key(#[trigger] r[i]) <= key(#[trigger] r[j]) by {
            if j == s.len() {
                assert(r[i] == s[i]);
                if i < s.len() - 1 {
                    assert(key(s[i]) <= key(s[s.len() - 1]));
                }
            }
        }
    } else {
        let t = s.drop_last();
        lemma_place_sorted(t, x, key);
        let u = place(t, x, key);
        assert(s =~= t.push(s.last()));
        assert forall|i: int, j: int| 0 <= i < j < r.len() implies key(#[trigger] r[i]) <= key(#[trigger] r[j]) by {
            if j == u.len() {
                assert(r[i] == u[i]);
                if u[i] != x {
                    assert(t.contains(u[i]));
                    let k = choose|k: int| 0 <= k < t.len() && t[k] == u[i];
                    assert(key(s[k]) <= key(s[s.len() - 1]));
                }
            }
        }
        assert forall|i: int| 0 <= i < r.len() implies r[i] == x || s.contains(#[trigger] r[i]) by {
            if i < u.len() {
                assert(r[i] == u[i]);
                if u[i] != x {
                    assert(t.contains(u[i]));
                    let k = choose|k: int| 0 <= k < t.len() && t[k] == u[i];
                    assert(s[k] == r[i]);
                }
            } else {
                assert(s[s.len() - 1] == r[i]);
            }
        }
        assert(r.to_multiset() =~= s.to_multiset().insert(x));
    }
}

/// A sorted sequence is in order and holds the same elements.
pub proof fn lemma_stable_sorted<A>(s: Seq<A>, key: spec_fn(A) -> int)
    ensures
        sorted_by(stable_sorted(s, key), key),
        stable_sorted(s, key).to_multiset() == s.to_multiset(),
        stable_sorted(s, key).len() == s.len(),
    decreases s.len(),
{
    broadcast use vstd::seq_lib::group_to_multiset_ensures;

    if s.len() > 0 {
        lemma_stable_sorted(s.drop_last(), key);
        lemma_place_sorted(stable_sorted(s.drop_last(), key), s.last(), key);
        assert(s =~= s.drop_last().push(s.last()));
    }
}

/// `i` is the first of the places with the lowest key.
pub open spec fn is_first_min<A>(s: Seq<A>, key: spec_fn(A) -> int, i: int) -> bool {
    &&& 0 <= i < s.len()
    &&& forall|j: int| 0 <= j < s.len() ==> key(s[i]) <= key(#[trigger] s[j])
    &&& forall|j: int| 0 <= j < i ==> key(s[i]) < key(#[trigger] s[j])
}

/// The first of the places with the lowest key.
pub open spec fn first_min<A>(s: Seq<A>, key: spec_fn(A) -> int) -> int {
    choose|i: int| is_first_min(s, key, i)
}

/// There is only one such place.
pub proof fn lemma_first_min<A>(s: Seq<A>, key: spec_fn(A) -> int, i: int)
    requires
        is_first_min(s, key, i),
    ensures
        first_min(s, key) == i,
{
    let m = first_min(s, key);
    assert(is_first_min(s, key, m));
    if m < i {
        assert(key(s[i]) < key(s[m]));
    } else if i < m {
        assert(key(s[m]) < key(s[i]));
    }
}

/// `s` lists the keys of `m` in ascending order.
pub open spec fn lists_keys<V>(s: Seq<u64>, m: Map<u64, V>) -> bool {
    ascending(s) && forall|k: u64| #[trigger] s.contains(k) <==> m.dom().contains(k)
}

/// The keys of `m` in ascending order.
pub open spec fn sorted_keys<V>(m: Map<u64, V>) -> Seq<u64> {
    choose|s: Seq<u64>| lists_keys(s, m)
}

/// There is only one such list.
pub proof fn lemma_sorted_keys<V>(s: Seq<u64>, m: Map<u64, V>)
    requires
        lists_keys(s, m),
    ensures
        sorted_keys(m) == s,
{
    let t = sorted_keys(m);
    assert(lists_keys(t, m));
    assert forall|x: u64| t.contains(x) <==> s.contains(x) by {}
    lemma_ascending_unique(t, s);
}

} // verus!
