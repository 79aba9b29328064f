//! Mathematical helpers on sequences and maps used by the contracts.

use vstd::prelude::*;

verus! {

/// The map from each key of `keys` to the position of its last occurrence:
/// keys are entered in order, and a later occurrence replaces an earlier one.
pub open spec fn last_positions<K>(keys: Seq<K>) -> Map<K, usize>
    decreases keys.len(),
{
    if keys.len() == 0 {
        Map::empty()
    } else {
        last_positions(keys.drop_last()).insert(keys.last(), (keys.len() - 1) as usize)
    }
}

/// The map from each key that occurs in `pairs` to the values paired with it,
/// in the order in which they occur.
pub open spec fn grouped<K, V>(pairs: Seq<(K, V)>) -> Map<K, Seq<V>>
    decreases pairs.len(),
{
    if pairs.len() == 0 {
        Map::empty()
    } else {
        let m = grouped(pairs.drop_last());
        let (k, v) = pairs.last();
        let prev = if m.contains_key(k) {
            m[k]
        } else {
            Seq::empty()
        };
        m.insert(k, prev.push(v))
    }
}

/// The sequence of the `Some` payloads of `s`, in order.
pub open spec fn somes<A>(s: Seq<Option<A>>) -> Seq<A>
    decreases s.len(),
{
    if s.len() == 0 {
        Seq::empty()
    } else {
        let rest = somes(s.drop_last());
        match s.last() {
            Some(a) => rest.push(a),
            None => rest,
        }
    }
}

/// The value behind an optional reference.
pub open spec fn deref_opt<A>(o: Option<&A>) -> Option<A> {
    match o {
        Some(r) => Some(*r),
        None => None,
    }
}

/// The values behind a sequence of references.
pub open spec fn derefs<A>(s: Seq<&A>) -> Seq<A> {
    s.map_values(|r: &A| *r)
}

/// `s` is sorted in strictly increasing order.
pub open spec fn strictly_increasing(s: Seq<u32>) -> bool {
    forall|i: int, j: int| 0 <= i < j < s.len() ==> s[i] < s[j]
}

/// The distinct values of `s` in increasing order.
pub open spec fn sorted_distinct(s: Seq<u32>) -> Seq<u32> {
    choose|u: Seq<u32>| strictly_increasing(u) && u.to_set() == s.to_set()
}

/// Two strictly increasing sequences with the same values are equal.
pub proof fn lemma_strictly_increasing_unique(u: Seq<u32>, w: Seq<u32>)
    requires
        strictly_increasing(u),
        strictly_increasing(w),
        u.to_set() == w.to_set(),
    ensures
        u == w,
    decreases u.len(),
{
    if u.len() == 0 {
        if w.len() > 0 {
            assert(w.to_set().contains(w[0]));
        }
        assert(u =~= w);
    } else {
        assert(u.to_set().contains(u[0]));
        assert(w.len() > 0);
        assert(w.to_set().contains(w[0]));
        let j = choose|j: int| 0 <= j < w.len() && w[j] == u[0];
        let k = choose|k: int| 0 <= k < u.len() && u[k] == w[0];
        assert(u[0] == w[0]) by {
            if j > 0 {
                assert(w[0] < w[j]);
            }
            if k > 0 {
                assert(u[0] < u[k]);
            }
        }
        let u1 = u.drop_first();
        let w1 = w.drop_first();
        assert(u1.to_set() =~= w1.to_set()) by {
            assert forall|x: u32| u1.to_set().contains(x) implies w1.to_set().contains(x) by {
                let a = choose|a: int| 0 <= a < u1.len() && u1[a] == x;
                assert(u[a + 1] == x);
                assert(u.to_set().contains(x));
                let b = choose|b: int| 0 <= b < w.len() && w[b] == x;
                assert(u[0] < u[a + 1]);
                assert(b != 0);
                assert(w1[b - 1] == x);
            }
            assert forall|x: u32| w1.to_set().contains(x) implies u1.to_set().contains(x) by {
                let a = choose|a: int| 0 <= a < w1.len() && w1[a] == x;
                assert(w[a + 1] == x);
                assert(w.to_set().contains(x));
                let b = choose|b: int| 0 <= b < u.len() && u[b] == x;
                assert(w[0] < w[a + 1]);
                assert(b != 0);
                assert(u1[b - 1] == x);
            }
        }
        lemma_strictly_increasing_unique(u1, w1);
        assert(u.len() == u1.len() + 1 && w.len() == w1.len() + 1);
        assert(u =~= w) by {
            assert forall|i: int| 0 <= i < u.len() implies u[i] == w[i] by {
                if i > 0 {
                    assert(u[i] == u1[i - 1]);
                    assert(w[i] == w1[i - 1]);
                }
            }
        }
    }
}

/// A strictly increasing sequence with the values of `s` is `sorted_distinct(s)`.
pub proof fn lemma_sorted_distinct(s: Seq<u32>, u: Seq<u32>)
    requires
        strictly_increasing(u),
        u.to_set() == s.to_set(),
    ensures
        sorted_distinct(s) == u,
{
    let c = sorted_distinct(s);
    assert(strictly_increasing(c) && c.to_set() == s.to_set());
    lemma_strictly_increasing_unique(c, u);
}

/// Sorts `v` in increasing order.
///
/// Calls `slice::sort` from std, whose documentation says that it sorts the
/// slice in place into ascending order; the contract claims that the result
/// is a permutation of the input and is sorted.
#[verifier::external_body]
pub(crate) fn sort_ids(v: &mut Vec<u32>)
    ensures
        final(v)@.to_multiset() == old(v)@.to_multiset(),
        forall|i: int, j: int| 0 <= i <= j < final(v)@.len() ==> final(v)@[i] <= final(v)@[j],
{
    v.sort();
}

/// The distinct values of a sorted sequence, in order.
pub fn dedup_sorted(v: &Vec<u32>) -> (r: Vec<u32>)
    requires
        forall|i: int, j: int| 0 <= i <= j < v@.len() ==> v@[i] <= v@[j],
    ensures
        strictly_increasing(r@),
        r@.to_set() == v@.to_set(),
{
    let mut r: Vec<u32> = Vec::new();
    let mut i: usize = 0;
    while i < v.len()
        invariant
            i <= v@.len(),
            forall|a: int, b: int| 0 <= a <= b < v@.len() ==> v@[a] <= v@[b],
            strictly_increasing(r@),
            r@.to_set() == v@.take(i as int).to_set(),
            i > 0 ==> r@.len() > 0 && r@.last() == v@[i - 1],
            i == 0 ==> r@.len() == 0,
        decreases v@.len() - i,
    {
        let x = v[i];
        let ghost before = r@;
        if r.len() == 0 || r[r.len() - 1] != x {
            r.push(x);
        }
        proof {
            let t0 = v@.take(i as int);
            let t1 = v@.take(i + 1);
            assert(v@.take(i + 1) =~= v@.take(i as int).push(x));
            assert(r@.to_set() =~= t1.to_set()) by {
                assert forall|y: u32| r@.to_set().contains(y) implies t1.to_set().contains(y) by {
                    let a = choose|a: int| 0 <= a < r@.len() && r@[a] == y;
                    if a < before.len() {
                        assert(before.to_set().contains(y));
                        let b = choose|b: int| 0 <= b < i && t0[b] == y;
                        assert(t1[b] == y);
                    } else {
                        assert(t1[i as int] == y);
                    }
                }
                assert forall|y: u32| t1.to_set().contains(y) implies r@.to_set().contains(y) by {
                    let b = choose|b: int| 0 <= b <= i && t1[b] == y;
                    if b < i {
                        assert(t0[b] == y);
                        assert(before.to_set().contains(y));
                        let a = choose|a: int| 0 <= a < before.len() && before[a] == y;
                        assert(r@[a] == y);
                    } else {
                        assert(r@[r@.len() - 1] == y);
                    }
                }
            }
        }
        i = i + 1;
    }
    proof {
        assert(v@.take(v@.len() as int) =~= v@);
    }
    r
}

/// The number of `true` entries among the first `n` entries of `s`.
pub open spec fn count_true(s: Seq<bool>, n: int) -> nat
    decreases n,
{
    if n <= 0 {
        0
    } else {
        count_true(s, n - 1) + if s[n - 1] {
            1nat
        } else {
            0nat
        }
    }
}

/// A key is in `last_positions(keys)` exactly when it occurs in `keys`, and it
/// maps to the last position at which it occurs.
pub proof fn lemma_last_positions<K>(keys: Seq<K>)
    requires
        keys.len() <= usize::MAX,
    ensures
        forall|k: K| #[trigger] last_positions(keys).contains_key(k) <==> keys.contains(k),
        forall|k: K|
            #[trigger] last_positions(keys).contains_key(k) ==> {
                let p = last_positions(keys)[k] as int;
                &&& 0 <= p < keys.len()
                &&& keys[p] == k
                &&& forall|j: int| p < j < keys.len() ==> keys[j] != k
            },
    decreases keys.len(),
{
    if keys.len() > 0 {
        let pre = keys.drop_last();
        let last = keys.last();
        let n = keys.len() - 1;
        lemma_last_positions(pre);
        assert(last_positions(keys) == last_positions(pre).insert(last, n as usize));
        assert forall|k: K| #[trigger]
            last_positions(keys).contains_key(k) <==> keys.contains(k) by {
            if keys.contains(k) && k != last {
                let i = choose|i: int| 0 <= i < keys.len() && keys[i] == k;
                assert(i < n);
                assert(pre[i] == k);
            }
            if pre.contains(k) {
                let i = choose|i: int| 0 <= i < pre.len() && pre[i] == k;
                assert(keys[i] == k);
            }
            if k == last {
                assert(keys[n] == k);
            }
        }
        assert forall|k: K| #[trigger] last_positions(keys).contains_key(k) implies {
            let p = last_positions(keys)[k] as int;
            &&& 0 <= p < keys.len()
            &&& keys[p] == k
            &&& forall|j: int| p < j < keys.len() ==> keys[j] != k
        } by {
            if k != last {
                assert(last_positions(pre).contains_key(k));
                let p = last_positions(pre)[k] as int;
                assert(last_positions(keys)[k] == last_positions(pre)[k]);
                assert(0 <= p < pre.len());
                assert(pre[p] == k);
                assert(keys[p] == k);
                assert forall|j: int| p < j < keys.len() implies keys[j] != k by {
                    if j < n {
                        assert(pre[j] == keys[j]);
                    }
                }
            }
        }
    }
}

/// Appends to `out` the referenced values of the `Some` entries of `found`, in order.
pub fn extend_somes<'a, A>(out: &mut Vec<&'a A>, found: Vec<Option<&'a A>>)
    ensures
        derefs(final(out)@) == derefs(old(out)@) + somes(found@.map_values(|o: Option<&A>| deref_opt(o))),
{
    let ghost opts = found@.map_values(|o: Option<&A>| deref_opt(o));
    let mut i: usize = 0;
    while i < found.len()
        invariant
            i <= found@.len(),
            opts == found@.map_values(|o: Option<&A>| deref_opt(o)),
            derefs(out@) == derefs(old(out)@) + somes(opts.take(i as int)),
        decreases found@.len() - i,
    {
        let ghost before = out@;
        if let Some(x) = found[i] {
            out.push(x);
            proof {
                assert(derefs(out@) =~= derefs(before).push(*x));
            }
        }
        proof {
            assert(opts.take(i + 1).drop_last() =~= opts.take(i as int));
            assert(opts.take(i + 1).last() == opts[i as int]);
        }
        i = i + 1;
    }
    proof {
        assert(opts.take(found@.len() as int) =~= opts);
    }
}

/// The content of an optional slice.
pub open spec fn opt_view(o: Option<&[u32]>) -> Option<Seq<u32>> {
    match o {
        Some(s) => Some(s@),
        None => None,
    }
}

/// Whether `x` occurs in `ids`.
pub fn contains_id(ids: &[u32], x: u32) -> (r: bool)
    ensures
        r == ids@.contains(x),
{
    let mut i: usize = 0;
    while i < ids.len()
        invariant
            i <= ids@.len(),
            forall|j: int| 0 <= j < i ==> ids@[j] != x,
        decreases ids@.len() - i,
    {
        if ids[i] == x {
            return true;
        }
        i = i + 1;
    }
    false
}

/// The values paired with key `k` in `pairs`, in order.
pub open spec fn values_of<K, V>(pairs: Seq<(K, V)>, k: K) -> Seq<V>
    decreases pairs.len(),
{
    if pairs.len() == 0 {
        Seq::empty()
    } else {
        let rest = values_of(pairs.drop_last(), k);
        if pairs.last().0 == k {
            rest.push(pairs.last().1)
        } else {
            rest
        }
    }
}

/// A sequence in which no element satisfies `pred` filters to nothing.
pub proof fn lemma_filter_none<A>(s: Seq<A>, pred: spec_fn(A) -> bool)
    requires
        forall|i: int| 0 <= i < s.len() ==> !pred(#[trigger] s[i]),
    ensures
        s.filter(pred).len() == 0,
{
    if s.filter(pred).len() > 0 {
        let e = s.filter(pred)[0];
        s.lemma_filter_pred(pred, 0);
        assert(s.filter(pred).contains(e));
        s.lemma_filter_contains_rev(pred, e);
        let i = choose|i: int| 0 <= i < s.len() && s[i] == e;
        assert(!pred(s[i]));
    }
}

/// `grouped(pairs)` has a key exactly when some pair carries it, and lists
/// under it the values paired with it, in order.
pub proof fn lemma_grouped<K, V>(pairs: Seq<(K, V)>)
    ensures
        forall|k: K| #[trigger]
            grouped(pairs).contains_key(k) <==> exists|i: int|
                0 <= i < pairs.len() && (#[trigger] pairs[i]).0 == k,
        forall|k: K| #[trigger] grouped(pairs).contains_key(k) ==> grouped(pairs)[k] == values_of(pairs, k),
    decreases pairs.len(),
{
    if pairs.len() > 0 {
        let pre = pairs.drop_last();
        let x = pairs.last();
        let n = pairs.len() - 1;
        lemma_grouped(pre);
        let g = grouped(pre);
        assert(pairs == pre.push(x));
        assert forall|k: K| #[trigger]
            grouped(pairs).contains_key(k) <==> exists|i: int|
                0 <= i < pairs.len() && (#[trigger] pairs[i]).0 == k by {
            if grouped(pairs).contains_key(k) {
                if k == x.0 {
                    assert(pairs[n].0 == k);
                } else {
                    assert(g.contains_key(k));
                    let i = choose|i: int| 0 <= i < pre.len() && (#[trigger] pre[i]).0 == k;
                    assert(pairs[i] == pre[i]);
                }
            }
            if exists|i: int| 0 <= i < pairs.len() && (#[trigger] pairs[i]).0 == k {
                let i = choose|i: int| 0 <= i < pairs.len() && (#[trigger] pairs[i]).0 == k;
                if i < n {
                    assert(pre[i] == pairs[i]);
                }
            }
        }
        assert forall|k: K| #[trigger] grouped(pairs).contains_key(k) implies grouped(pairs)[k]
            == values_of(pairs, k) by {
            if k == x.0 && !g.contains_key(k) {
                lemma_values_of_absent(pre, k);
            }
        }
    }
}

/// A key that no pair carries has no values.
pub proof fn lemma_values_of_absent<K, V>(pairs: Seq<(K, V)>, k: K)
    requires
        forall|i: int| 0 <= i < pairs.len() ==> (#[trigger] pairs[i]).0 != k,
    ensures
        values_of(pairs, k) == Seq::<V>::empty(),
    decreases pairs.len(),
{
    if pairs.len() > 0 {
        let pre = pairs.drop_last();
        assert forall|i: int| 0 <= i < pre.len() implies (#[trigger] pre[i]).0 != k by {
            assert(pre[i] == pairs[i]);
        }
        lemma_values_of_absent(pre, k);
        assert(pairs[pairs.len() - 1].0 != k);
    }
}

/// `u` with `x` inserted before the first element greater than it.
pub open spec fn insert_sorted(u: Seq<u32>, x: u32) -> Seq<u32>
    decreases u.len(),
{
    if u.len() == 0 {
        seq![x]
    } else if x < u[0] {
        seq![x] + u
    } else {
        seq![u[0]] + insert_sorted(u.drop_first(), x)
    }
}

/// Inserting a new value into a strictly increasing sequence keeps it
/// strictly increasing and adds the value to its set.
proof fn lemma_insert_sorted(u: Seq<u32>, x: u32)
    requires
        strictly_increasing(u),
        !u.contains(x),
    ensures
        strictly_increasing(insert_sorted(u, x)),
        insert_sorted(u, x).to_set() == u.to_set().insert(x),
        forall|i: int| 0 <= i < insert_sorted(u, x).len() ==> (#[trigger] insert_sorted(u, x)[i]
            == x || u.contains(insert_sorted(u, x)[i])),
    decreases u.len(),
{
    let r = insert_sorted(u, x);
    if u.len() == 0 {
        assert(r.to_set() =~= u.to_set().insert(x)) by {
            assert(r[0] == x);
        }
    } else if x < u[0] {
        assert(r.to_set() =~= u.to_set().insert(x)) by {
            assert forall|y: u32| r.to_set().contains(y) implies u.to_set().insert(x).contains(y) by {
                let i = choose|i: int| 0 <= i < r.len() && r[i] == y;
                if i > 0 {
                    assert(u[i - 1] == y);
                }
            }
            assert forall|y: u32| u.to_set().insert(x).contains(y) implies r.to_set().contains(y) by {
                if y == x {
                    assert(r[0] == x);
                } else {
                    let i = choose|i: int| 0 <= i < u.len() && u[i] == y;
                    assert(r[i + 1] == y);
                }
            }
        }
        assert forall|i: int, j: int| 0 <= i < j < r.len() implies r[i] < r[j] by {
            if i == 0 {
                assert(u[0] <= u[j - 1]);
            }
        }
    } else {
        let t = u.drop_first();
        assert forall|i: int, j: int| 0 <= i < j < t.len() implies t[i] < t[j] by {
            assert(t[i] == u[i + 1] && t[j] == u[j + 1]);
        }
        assert(!t.contains(x)) by {
            if t.contains(x) {
                let i = choose|i: int| 0 <= i < t.len() && t[i] == x;
                assert(u[i + 1] == x);
            }
        }
        lemma_insert_sorted(t, x);
        let rt = insert_sorted(t, x);
        assert(x != u[0]) by {
            assert(u[0] == u[0]);
            if x == u[0] {
                assert(u.contains(u[0]));
            }
        }
        assert forall|i: int| 0 <= i < rt.len() implies u[0] < #[trigger] rt[i] by {
            if rt[i] != x {
                assert(t.contains(rt[i]));
                let k = choose|k: int| 0 <= k < t.len() && t[k] == rt[i];
                assert(u[0] < u[k + 1]);
            }
        }
        assert forall|i: int, j: int| 0 <= i < j < r.len() implies r[i] < r[j] by {
            if i == 0 {
                assert(r[j] == rt[j - 1]);
            } else {
                assert(r[i] == rt[i - 1] && r[j] == rt[j - 1]);
            }
        }
        assert forall|i: int| 0 <= i < r.len() implies (#[trigger] r[i] == x || u.contains(r[i])) by {
            if i == 0 {
                assert(u.contains(u[0]));
            } else {
                assert(r[i] == rt[i - 1]);
                if rt[i - 1] != x {
                    let k = choose|k: int| 0 <= k < t.len() && t[k] == rt[i - 1];
                    assert(u[k + 1] == rt[i - 1]);
                }
            }
        }
        assert(r.to_set() =~= u.to_set().insert(x)) by {
            assert forall|y: u32| r.to_set().contains(y) implies u.to_set().insert(x).contains(y) by {
                let i = choose|i: int| 0 <= i < r.len() && r[i] == y;
                assert(r[i] == x || u.contains(r[i]));
            }
            assert forall|y: u32| u.to_set().insert(x).contains(y) implies r.to_set().contains(y) by {
                if y == x {
                    assert(rt.to_set().contains(x));
                    let i = choose|i: int| 0 <= i < rt.len() && rt[i] == x;
                    assert(r[i + 1] == x);
                } else {
                    let i = choose|i: int| 0 <= i < u.len() && u[i] == y;
                    if i == 0 {
                        assert(r[0] == y);
                    } else {
                        assert(t[i - 1] == y);
                        assert(rt.to_set().contains(y));
                        let k = choose|k: int| 0 <= k < rt.len() && rt[k] == y;
                        assert(r[k + 1] == y);
                    }
                }
            }
        }
    }
}

/// Some strictly increasing sequence has the values of `s`.
proof fn lemma_sorted_witness(s: Seq<u32>) -> (u: Seq<u32>)
    ensures
        strictly_increasing(u),
        u.to_set() == s.to_set(),
    decreases s.len(),
{
    if s.len() == 0 {
        assert(Seq::<u32>::empty().to_set() =~= s.to_set());
        Seq::empty()
    } else {
        let pre = s.drop_last();
        let x = s.last();
        let u0 = lemma_sorted_witness(pre);
        assert(s.to_set() =~= pre.to_set().insert(x)) by {
            assert forall|y: u32| s.to_set().contains(y) implies pre.to_set().insert(x).contains(y) by {
                let i = choose|i: int| 0 <= i < s.len() && s[i] == y;
                if i < s.len() - 1 {
                    assert(pre[i] == y);
                }
            }
            assert forall|y: u32| pre.to_set().insert(x).contains(y) implies s.to_set().contains(y) by {
                if y == x {
                    assert(s[s.len() - 1] == x);
                } else {
                    let i = choose|i: int| 0 <= i < pre.len() && pre[i] == y;
                    assert(s[i] == y);
                }
            }
        }
        if u0.contains(x) {
            assert(u0.to_set().contains(x));
            assert(u0.to_set() =~= u0.to_set().insert(x));
            u0
        } else {
            lemma_insert_sorted(u0, x);
            insert_sorted(u0, x)
        }
    }
}

/// `sorted_distinct(s)` is strictly increasing and has the values of `s`.
pub proof fn lemma_sorted_distinct_props(s: Seq<u32>)
    ensures
        strictly_increasing(sorted_distinct(s)),
        sorted_distinct(s).to_set() == s.to_set(),
{
    let w = lemma_sorted_witness(s);
    assert(strictly_increasing(w) && w.to_set() == s.to_set());
}

} // verus!
