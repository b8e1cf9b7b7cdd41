//! Stable ordering by integer keys.
use vstd::prelude::*;

verus! {

/// The first place from `p` on whose key exceeds `key`, or the end.
pub open spec fn spot(o: Seq<int>, keys: Seq<int>, key: int, p: int) -> int
    decreases o.len() - p,
{
    if p >= o.len() || keys[o[p]] > key {
        p
    } else {
        spot(o, keys, key, p + 1)
    }
}

/// The first `k` indices, each put behind those whose key is not larger.
pub open spec fn ordered(keys: Seq<int>, k: int) -> Seq<int>
    decreases k,
{
    if k <= 0 {
        Seq::empty()
    } else {
        let o = ordered(keys, k - 1);
        o.insert(spot(o, keys, keys[k - 1], 0), k - 1)
    }
}

/// The indices of some keys in ascending order of the keys; equal keys keep
/// their order.
pub open spec fn stable_order(keys: Seq<int>) -> Seq<int> {
    ordered(keys, keys.len() as int)
}

/// Whether `o` lists the first `k` indices, once each, in ascending order of
/// their keys, equal keys in order of the indices.
pub open spec fn is_stable(o: Seq<int>, keys: Seq<int>, k: int) -> bool {
    &&& o.len() == k
    &&& forall|a: int| 0 <= a < o.len() ==> 0 <= #[trigger] o[a] < k
    &&& forall|a: int, b: int|
        0 <= a < b < o.len() ==> keys[#[trigger] o[a]] < keys[#[trigger] o[b]] || (keys[o[a]]
            == keys[o[b]] && o[a] < o[b])
}

proof fn lemma_spot(o: Seq<int>, keys: Seq<int>, key: int, p: int)
    requires
        0 <= p <= o.len(),
    ensures
        p <= spot(o, keys, key, p) <= o.len(),
        forall|a: int| p <= a < spot(o, keys, key, p) ==> keys[#[trigger] o[a]] <= key,
        spot(o, keys, key, p) < o.len() ==> keys[o[spot(o, keys, key, p)]] > key,
    decreases o.len() - p,
{
    if !(p >= o.len() || keys[o[p]] > key) {
        lemma_spot(o, keys, key, p + 1);
    }
}

proof fn lemma_ordered(keys: Seq<int>, k: int)
    requires
        0 <= k <= keys.len(),
    ensures
        is_stable(ordered(keys, k), keys, k),
    decreases k,
{
    if k > 0 {
        lemma_ordered(keys, k - 1);
        let o = ordered(keys, k - 1);
        let p = spot(o, keys, keys[k - 1], 0);
        lemma_spot(o, keys, keys[k - 1], 0);
        let n = ordered(keys, k);
        assert(n == o.insert(p, k - 1));
        assert forall|a: int| 0 <= a < n.len() implies 0 <= #[trigger] n[a] < k by {
            if a < p {
                assert(n[a] == o[a]);
            } else if a > p {
                assert(n[a] == o[a - 1]);
            }
        }
        assert forall|a: int, b: int| 0 <= a < b < n.len() implies keys[#[trigger] n[a]]
            < keys[#[trigger] n[b]] || (keys[n[a]] == keys[n[b]] && n[a] < n[b]) by {
            if b < p {
                assert(n[a] == o[a] && n[b] == o[b]);
            } else if b == p {
                assert(n[a] == o[a]);
            } else if a < p {
                assert(n[a] == o[a] && n[b] == o[b - 1]);
                assert(keys[o[a]] < keys[o[b - 1]] || (keys[o[a]] == keys[o[b - 1]] && o[a]
                    < o[b - 1]));
            } else if a == p {
                assert(n[b] == o[b - 1]);
                if b - 1 > p {
                    assert(keys[o[p]] < keys[o[b - 1]] || (keys[o[p]] == keys[o[b - 1]] && o[p]
                        < o[b - 1]));
                }
            } else {
                assert(n[a] == o[a - 1] && n[b] == o[b - 1]);
            }
        }
    }
}

/// A stable order lists every index once, in ascending order of the keys, and
/// keeps the order of equal keys.
pub proof fn lemma_stable_order(keys: Seq<int>)
    ensures
        is_stable(stable_order(keys), keys, keys.len() as int),
        stable_order(keys).no_duplicates(),
        forall|i: int| 0 <= i < keys.len() ==> #[trigger] stable_order(keys).contains(i),
{
    lemma_ordered(keys, keys.len() as int);
    let o = stable_order(keys);
    assert(o.no_duplicates()) by {
        assert forall|a: int, b: int| 0 <= a < b < o.len() implies o[a] != o[b] by {
            assert(keys[o[a]] < keys[o[b]] || (keys[o[a]] == keys[o[b]] && o[a] < o[b]));
        }
    }
    assert forall|i: int| 0 <= i < keys.len() implies #[trigger] o.contains(i) by {
        lemma_ordered_holds(keys, keys.len() as int, i);
    }
}

proof fn lemma_ordered_holds(keys: Seq<int>, k: int, i: int)
    requires
        0 <= i < k <= keys.len(),
    ensures
        ordered(keys, k).contains(i),
    decreases k,
{
    lemma_ordered(keys, k - 1);
    let o = ordered(keys, k - 1);
    let p = spot(o, keys, keys[k - 1], 0);
    lemma_spot(o, keys, keys[k - 1], 0);
    let n = o.insert(p, k - 1);
    if i == k - 1 {
        assert(n[p] == i);
    } else {
        lemma_ordered_holds(keys, k - 1, i);
        let a = choose|a: int| 0 <= a < o.len() && o[a] == i;
        if a < p {
            assert(n[a] == i);
        } else {
            assert(n[a + 1] == i);
        }
    }
}

/// Keys as mathematical integers.
pub open spec fn key_values(keys: Seq<i64>) -> Seq<int> {
    Seq::new(keys.len(), |i: int| keys[i] as int)
}

/// Indices as mathematical integers.
pub open spec fn index_values(v: Seq<usize>) -> Seq<int> {
    Seq::new(v.len(), |i: int| v[i] as int)
}

/// The indices of the keys in stable ascending order.
pub(crate) fn sort_indices(keys: &Vec<i64>) -> (r: Vec<usize>)
    ensures
        index_values(r@) == stable_order(key_values(keys@)),
        r@.len() == keys@.len(),
        forall|a: int| 0 <= a < r@.len() ==> #[trigger] r@[a] < keys@.len(),
{
    let ghost ks = key_values(keys@);
    let mut r: Vec<usize> = Vec::new();
    let mut k: usize = 0;
    while k < keys.len()
        invariant
            k <= keys.len(),
            ks == key_values(keys@),
            index_values(r@) == ordered(ks, k as int),
        decreases keys.len() - k,
    {
        let ghost o = ordered(ks, k as int);
        let key: i64 = keys[k];
        let mut p: usize = 0;
        proof {
            lemma_ordered(ks, k as int);
            assert forall|a: int| 0 <= a < r@.len() implies #[trigger] r@[a] < keys@.len() by {
                assert(index_values(r@)[a] == r@[a]);
            }
        }
        while p < r.len() && keys[r[p]] <= key
            invariant
                p <= r.len(),
                k < keys.len(),
                key == keys@[k as int],
                ks == key_values(keys@),
                o == ordered(ks, k as int),
                index_values(r@) == o,
                is_stable(o, ks, k as int),
                spot(o, ks, key as int, 0) == spot(o, ks, key as int, p as int),
                forall|a: int| 0 <= a < r@.len() ==> #[trigger] r@[a] < keys@.len(),
            decreases r.len() - p,
        {
            proof {
                assert(o[p as int] == r@[p as int]);
            }
            p = p + 1;
        }
        proof {
            if p < r.len() {
                assert(o[p as int] == r@[p as int]);
            }
            assert(spot(o, ks, key as int, 0) == p);
            assert(index_values(r@.insert(p as int, k)) =~= o.insert(p as int, k as int));
        }
        r.insert(p, k);
        k = k + 1;
    }
    proof {
        lemma_ordered(ks, k as int);
        assert forall|a: int| 0 <= a < r@.len() implies #[trigger] r@[a] < keys@.len() by {
            assert(index_values(r@)[a] == r@[a]);
        }
    }
    r
}

} // verus!
