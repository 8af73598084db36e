//! Stable ordering by integer keys.
use vstd::prelude::*;

verus! {

/// Position `a` goes before position `b`: by key, and by position among equal
/// keys.
pub open spec fn goes_before(keys: Seq<u64>, a: int, b: int) -> bool {
    keys[a] < keys[b] || (keys[a] == keys[b] && a < b)
}

/// `o` lists the positions to keep, all of them, in stable key order.
pub open spec fn is_order(keys: Seq<u64>, keep: Seq<bool>, o: Seq<int>) -> bool {
    &&& forall|i: int| 0 <= i < o.len() ==> 0 <= #[trigger] o[i] < keys.len() && keep[o[i]]
    &&& forall|i: int, j: int|
        0 <= i < j < o.len() ==> goes_before(keys, #[trigger] o[i], #[trigger] o[j])
    &&& forall|k: int| 0 <= k < keys.len() && #[trigger] keep[k] ==> o.contains(k)
}

/// The positions to keep, in stable key order: there is exactly one such list.
pub open spec fn stable_order(keys: Seq<u64>, keep: Seq<bool>) -> Seq<int> {
    choose|o: Seq<int>| is_order(keys, keep, o)
}

/// Two lists of the same positions in stable key order are the same list.
pub proof fn stable_order_is_unique(keys: Seq<u64>, keep: Seq<bool>, a: Seq<int>, b: Seq<int>)
    requires
        is_order(keys, keep, a),
        is_order(keys, keep, b),
    ensures
        a == b,
{
    assert forall|i: int| 0 <= i < a.len() implies i < b.len() && a[i] == b[i] by {
        lemma_same_at(keys, keep, a, b, i);
    }
    assert(a.len() == b.len()) by {
        if a.len() < b.len() {
            let i = a.len() as int;
            lemma_same_at(keys, keep, b, a, i);
        }
        if b.len() < a.len() {
            let i = b.len() as int;
            lemma_same_at(keys, keep, a, b, i);
        }
    }
    assert(a =~= b);
}

proof fn lemma_same_at(keys: Seq<u64>, keep: Seq<bool>, a: Seq<int>, b: Seq<int>, i: int)
    requires
        is_order(keys, keep, a),
        is_order(keys, keep, b),
        0 <= i < a.len(),
    ensures
        i < b.len(),
        a[i] == b[i],
    decreases i,
{
    if i > 0 {
        lemma_same_at(keys, keep, a, b, i - 1);
    }
    assert(keep[a[i]]);
    assert(b.contains(a[i]));
    let j = choose|j: int| 0 <= j < b.len() && b[j] == a[i];
    if j < i {
        lemma_same_at(keys, keep, a, b, j);
        assert(goes_before(keys, a[j], a[i]));
        assert(false);
    }
    if j > i {
        assert(goes_before(keys, b[i], b[j]));
        assert(keep[b[i]]);
        assert(a.contains(b[i]));
        let k = choose|k: int| 0 <= k < a.len() && a[k] == b[i];
        if k < i {
            lemma_same_at(keys, keep, a, b, k);
            assert(goes_before(keys, b[k], b[i]));
            assert(false);
        }
        if k > i {
            assert(goes_before(keys, a[i], a[k]));
            assert(false);
        }
        assert(false);
    }
}

/// Positions as mathematical integers.
pub open spec fn as_ints(o: Seq<usize>) -> Seq<int> {
    o.map_values(|x: usize| x as int)
}

proof fn lemma_insert(keys: Seq<u64>, keep: Seq<bool>, before: Seq<int>, n: int, p: int)
    requires
        0 <= n < keys.len() == keep.len(),
        keep[n],
        0 <= p <= before.len(),
        is_order(keys.take(n), keep.take(n), before),
        forall|i: int| 0 <= i < p ==> keys[#[trigger] before[i]] <= keys[n],
        p < before.len() ==> keys[n] < keys[before[p]],
    ensures
        is_order(keys.take(n + 1), keep.take(n + 1), before.insert(p, n)),
{
    let k1 = keys.take(n);
    let k2 = keys.take(n + 1);
    let p2 = keep.take(n + 1);
    let o = before.insert(p, n);
    assert forall|i: int| 0 <= i < o.len() implies 0 <= #[trigger] o[i] < k2.len() && p2[o[i]] by {
        if i < p {
            assert(o[i] == before[i]);
        } else if i > p {
            assert(o[i] == before[i - 1]);
        }
    }
    assert forall|i: int| p <= i < before.len() implies keys[n] < keys[#[trigger] before[i]] by {
        if i > p {
            assert(goes_before(k1, before[p], before[i]));
        }
    }
    assert forall|i: int, j: int| 0 <= i < j < o.len() implies goes_before(
        k2,
        #[trigger] o[i],
        #[trigger] o[j],
    ) by {
        let a = if i < p {
            i
        } else {
            i - 1
        };
        let b = if j < p {
            j
        } else {
            j - 1
        };
        if i == p {
            assert(o[j] == before[b]);
        } else if j == p {
            assert(o[i] == before[a]);
            assert(before[a] < n);
        } else {
            assert(goes_before(k1, before[a], before[b]));
            assert(o[i] == before[a] && o[j] == before[b]);
        }
    }
    assert forall|k: int| 0 <= k < k2.len() && #[trigger] p2[k] implies o.contains(k) by {
        if k == n {
            assert(o[p] == k);
        } else {
            assert(keep.take(n)[k]);
            assert(before.contains(k));
            let i = choose|i: int| 0 <= i < before.len() && before[i] == k;
            let j = if i < p {
                i
            } else {
                i + 1
            };
            assert(o[j] == k);
        }
    }
}

proof fn lemma_skip(keys: Seq<u64>, keep: Seq<bool>, o: Seq<int>, n: int)
    requires
        0 <= n < keys.len() == keep.len(),
        !keep[n],
        is_order(keys.take(n), keep.take(n), o),
    ensures
        is_order(keys.take(n + 1), keep.take(n + 1), o),
{
    assert forall|i: int, j: int| 0 <= i < j < o.len() implies goes_before(
        keys.take(n + 1),
        #[trigger] o[i],
        #[trigger] o[j],
    ) by {
        assert(goes_before(keys.take(n), o[i], o[j]));
    }
    assert forall|k: int| 0 <= k < n + 1 && #[trigger] keep.take(n + 1)[k] implies o.contains(
        k,
    ) by {
        assert(keep.take(n)[k]);
    }
}

/// Where a key goes in a list in key order: behind every key that is no larger.
proof fn lemma_place(keys: Seq<u64>, o: Seq<int>, n: int, p: int) -> (at: int)
    requires
        0 <= p <= o.len(),
        p < o.len() ==> keys[n] < keys[o[p]],
        forall|i: int, j: int|
            0 <= i < j < o.len() ==> keys[#[trigger] o[i]] <= keys[#[trigger] o[j]],
    ensures
        0 <= at <= o.len(),
        forall|i: int| 0 <= i < at ==> keys[#[trigger] o[i]] <= keys[n],
        at < o.len() ==> keys[n] < keys[o[at]],
    decreases p,
{
    if p > 0 && keys[n] < keys[o[p - 1]] {
        lemma_place(keys, o, n, p - 1)
    } else {
        p
    }
}

proof fn lemma_prefix_order(keys: Seq<u64>, keep: Seq<bool>, n: int) -> (o: Seq<int>)
    requires
        0 <= n <= keys.len() == keep.len(),
    ensures
        is_order(keys.take(n), keep.take(n), o),
    decreases n,
{
    if n == 0 {
        seq![]
    } else {
        let o = lemma_prefix_order(keys, keep, n - 1);
        if keep[n - 1] {
            assert forall|i: int, j: int| 0 <= i < j < o.len() implies keys[#[trigger] o[i]]
                <= keys[#[trigger] o[j]] by {
                assert(goes_before(keys.take(n - 1), o[i], o[j]));
            }
            let p = lemma_place(keys, o, n - 1, o.len() as int);
            lemma_insert(keys, keep, o, n - 1, p);
            o.insert(p, n - 1)
        } else {
            lemma_skip(keys, keep, o, n - 1);
            o
        }
    }
}

/// Every list of keys has a stable order: [`stable_order`] lists the positions to
/// keep, all of them, by key and by position among equal keys.
pub proof fn stable_order_exists(keys: Seq<u64>, keep: Seq<bool>)
    requires
        keys.len() == keep.len(),
    ensures
        is_order(keys, keep, stable_order(keys, keep)),
{
    let o = lemma_prefix_order(keys, keep, keys.len() as int);
    assert(keys.take(keys.len() as int) =~= keys);
    assert(keep.take(keep.len() as int) =~= keep);
}

/// Lists the positions to keep in stable key order.
pub fn sort_selected(keys: &[u64], keep: &[bool]) -> (o: Vec<usize>)
    requires
        keys@.len() == keep@.len(),
    ensures
        as_ints(o@) == stable_order(keys@, keep@),
        is_order(keys@, keep@, as_ints(o@)),
{
    let mut o: Vec<usize> = Vec::new();
    for n in 0..keys.len()
        invariant
            keys@.len() == keep@.len(),
            is_order(keys@.take(n as int), keep@.take(n as int), as_ints(o@)),
    {
        let ghost before = o@;
        if keep[n] {
            let mut p = o.len();
            assert forall|i: int| 0 <= i < o@.len() implies #[trigger] o@[i] < n by {
                assert(as_ints(o@)[i] == o@[i]);
            }
            while p > 0 && keys[o[p - 1]] > keys[n]
                invariant
                    n < keys@.len() == keep@.len(),
                    p <= o@.len(),
                    is_order(keys@.take(n as int), keep@.take(n as int), as_ints(o@)),
                    forall|i: int|
                        0 <= i < o@.len() ==> #[trigger] o@[i] < n,
                    p < o@.len() ==> keys@[n as int] < keys@[o@[p as int] as int],
                decreases p,
            {
                p -= 1;
            }
            proof {
                assert forall|i: int| 0 <= i < p implies keys@[#[trigger] o@[i] as int]
                    <= keys@[n as int] by {
                    let ghost q = as_ints(o@);
                    if i < p - 1 {
                        assert(goes_before(keys@.take(n as int), q[i], q[p - 1]));
                    }
                }
                lemma_insert(keys@, keep@, as_ints(before), n as int, p as int);
                assert(as_ints(before.insert(p as int, n)) =~= as_ints(before).insert(
                    p as int,
                    n as int,
                ));
            }
            o.insert(p, n);
        } else {
            proof {
                lemma_skip(keys@, keep@, as_ints(o@), n as int);
            }
        }
    }
    proof {
        assert(keys@.take(keys@.len() as int) =~= keys@);
        assert(keep@.take(keep@.len() as int) =~= keep@);
        stable_order_is_unique(keys@, keep@, as_ints(o@), stable_order(keys@, keep@));
    }
    o
}

} // verus!
