//! Lists of chosen positions.
use vstd::prelude::*;

verus! {

/// `at` lists, in ascending order, exactly the positions below `n` that are chosen.
pub open spec fn lists(at: Seq<int>, n: int, chosen: spec_fn(int) -> bool) -> bool {
    &&& forall|i: int, j: int| 0 <= i < j < at.len() ==> #[trigger] at[i] < #[trigger] at[j]
    &&& forall|i: int| 0 <= i < at.len() ==> 0 <= #[trigger] at[i] < n && chosen(at[i])
    &&& forall|k: int| 0 <= k < n && #[trigger] chosen(k) ==> at.contains(k)
}

/// The chosen positions below `n`, in ascending order.
pub open spec fn listing(n: int, chosen: spec_fn(int) -> bool) -> Seq<int>
    decreases n,
{
    if n <= 0 {
        seq![]
    } else if chosen(n - 1) {
        listing(n - 1, chosen).push(n - 1)
    } else {
        listing(n - 1, chosen)
    }
}

/// Every choice has its list.
pub proof fn lemma_listing(n: int, chosen: spec_fn(int) -> bool)
    requires
        0 <= n,
    ensures
        lists(listing(n, chosen), n, chosen),
    decreases n,
{
    if n > 0 {
        lemma_listing(n - 1, chosen);
        let init = listing(n - 1, chosen);
        let at = listing(n, chosen);
        assert forall|k: int| 0 <= k < n && #[trigger] chosen(k) implies at.contains(k) by {
            if k < n - 1 {
                assert(init.contains(k));
                let i = choose|i: int| 0 <= i < init.len() && init[i] == k;
                assert(at[i] == k);
            } else {
                assert(at[at.len() - 1] == k);
            }
        }
        assert forall|i: int, j: int| 0 <= i < j < at.len() implies #[trigger] at[i]
            < #[trigger] at[j] by {
            if j < init.len() {
                assert(init[i] < init[j]);
            } else {
                assert(init[i] < n - 1);
            }
        }
        assert forall|i: int| 0 <= i < at.len() implies 0 <= #[trigger] at[i] < n && chosen(
            at[i],
        ) by {
            if i < init.len() {
                assert(0 <= init[i] < n - 1);
            }
        }
    }
}

/// Lists of two choices that agree below `n` are the same.
pub proof fn lemma_same_listing(
    n: int,
    a: spec_fn(int) -> bool,
    b: spec_fn(int) -> bool,
)
    requires
        forall|k: int| 0 <= k < n ==> #[trigger] a(k) == b(k),
    ensures
        listing(n, a) == listing(n, b),
    decreases n,
{
    if n > 0 {
        lemma_same_listing(n - 1, a, b);
        assert(a(n - 1) == b(n - 1));
    }
}

} // verus!
