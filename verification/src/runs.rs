//! Maximal runs in a row of flags.
use vstd::prelude::*;

verus! {

/// The maximal stretches of `true`, as inclusive `(first, last)` positions in
/// increasing order.
pub open spec fn spans(f: Seq<bool>) -> Seq<(int, int)>
    decreases f.len(),
{
    if f.len() == 0 {
        seq![]
    } else {
        let n = f.len() - 1;
        let r = spans(f.drop_last());
        if !f.last() {
            r
        } else if n > 0 && f[n - 1] {
            r.drop_last().push((r.last().0, n))
        } else {
            r.push((n, n))
        }
    }
}

/// Position pairs as mathematical integers.
pub open spec fn int_spans(v: Seq<(u32, u32)>) -> Seq<(int, int)> {
    v.map_values(|s: (u32, u32)| (s.0 as int, s.1 as int))
}

/// Some `len` consecutive flags are all `true`.
pub open spec fn has_run(f: Seq<bool>, len: int) -> bool {
    exists|i: int| run_at(f, i, len)
}

/// The `len` flags from `i` on exist and are all `true`.
pub open spec fn run_at(f: Seq<bool>, i: int, len: int) -> bool {
    &&& 0 <= i
    &&& i + len <= f.len()
    &&& forall|j: int| i <= j < i + len ==> f[j]
}

/// How many of the spans cover at least two positions.
pub open spec fn count_long(s: Seq<(int, int)>) -> nat
    decreases s.len(),
{
    if s.len() == 0 {
        0
    } else {
        count_long(s.drop_last()) + (if s.last().1 > s.last().0 {
            1nat
        } else {
            0
        })
    }
}

/// What [`spans`] lists: every span lies inside the row, covers only `true`
/// flags, cannot be extended on either side, ends before the next one begins
/// with a gap between them, and every `true` flag is covered.
pub proof fn spans_are_maximal_runs(f: Seq<bool>)
    ensures
        forall|i: int|
            0 <= i < spans(f).len() ==> {
                let s = #[trigger] spans(f)[i];
                &&& 0 <= s.0 <= s.1 < f.len()
                &&& forall|k: int| s.0 <= k <= s.1 ==> f[k]
                &&& s.0 == 0 || !f[s.0 - 1]
                &&& s.1 == f.len() - 1 || !f[s.1 + 1]
            },
        forall|i: int, j: int|
            0 <= i < j < spans(f).len() ==> (#[trigger] spans(f)[i]).1 + 1 < (
            #[trigger] spans(f)[j]).0,
        forall|k: int|
            0 <= k < f.len() && #[trigger] f[k] ==> exists|i: int|
                0 <= i < spans(f).len() && (#[trigger] spans(f)[i]).0 <= k <= spans(f)[i].1,
    decreases f.len(),
{
    if f.len() > 0 {
        let n = f.len() - 1;
        let g = f.drop_last();
        let r = spans(g);
        let s = spans(f);
        spans_are_maximal_runs(g);
        if f.last() && n > 0 && f[n - 1] {
            assert(g[n - 1]);
            let w = choose|i: int| 0 <= i < r.len() && (#[trigger] r[i]).0 <= n - 1 <= r[i].1;
            assert(r[w].1 == n - 1);
            assert(w == r.len() - 1) by {
                if w < r.len() - 1 {
                    assert(r[w].1 + 1 < r[r.len() - 1].0);
                }
            }
            assert forall|i: int| 0 <= i < s.len() implies {
                let t = #[trigger] s[i];
                &&& 0 <= t.0 <= t.1 < f.len()
                &&& forall|k: int| t.0 <= k <= t.1 ==> f[k]
                &&& t.0 == 0 || !f[t.0 - 1]
                &&& t.1 == f.len() - 1 || !f[t.1 + 1]
            } by {
                let t = s[i];
                let u = r[i];
                if i < s.len() - 1 {
                    assert(t == u);
                    assert(u.1 + 1 < r[r.len() - 1].0);
                    assert(!g[u.1 + 1]);
                }
                assert forall|k: int| t.0 <= k <= t.1 implies f[k] by {
                    if k < n {
                        assert(g[k]);
                    }
                }
                if t.0 > 0 {
                    assert(!g[t.0 - 1]);
                }
            }
            assert forall|k: int| 0 <= k < f.len() && #[trigger] f[k] implies exists|i: int|
                0 <= i < s.len() && (#[trigger] s[i]).0 <= k <= s[i].1 by {
                if k < n {
                    assert(g[k]);
                    let i = choose|i: int|
                        0 <= i < r.len() && (#[trigger] r[i]).0 <= k <= r[i].1;
                    assert(s[i].0 <= k <= s[i].1);
                } else {
                    assert(s[s.len() - 1].0 <= k <= s[s.len() - 1].1);
                }
            }
        } else {
            assert forall|i: int| 0 <= i < s.len() implies {
                let t = #[trigger] s[i];
                &&& 0 <= t.0 <= t.1 < f.len()
                &&& forall|k: int| t.0 <= k <= t.1 ==> f[k]
                &&& t.0 == 0 || !f[t.0 - 1]
                &&& t.1 == f.len() - 1 || !f[t.1 + 1]
            } by {
                if i < r.len() {
                    let t = r[i];
                    assert(s[i] == t);
                    assert forall|k: int| t.0 <= k <= t.1 implies f[k] by {
                        assert(g[k]);
                    }
                    if t.0 > 0 {
                        assert(!g[t.0 - 1]);
                    }
                    if t.1 < n - 1 {
                        assert(!g[t.1 + 1]);
                    } else {
                        assert(g[t.1]);
                    }
                }
            }
            assert forall|i: int, j: int| 0 <= i < j < s.len() implies (#[trigger] s[i]).1 + 1 < (
            #[trigger] s[j]).0 by {
                assert(s[i] == r[i]);
                if j == r.len() {
                    assert(s[j] == (n, n));
                    assert(g[r[i].1]);
                } else {
                    assert(s[j] == r[j]);
                }
            }
            assert forall|k: int| 0 <= k < f.len() && #[trigger] f[k] implies exists|i: int|
                0 <= i < s.len() && (#[trigger] s[i]).0 <= k <= s[i].1 by {
                if k < n {
                    assert(g[k]);
                    let i = choose|i: int|
                        0 <= i < r.len() && (#[trigger] r[i]).0 <= k <= r[i].1;
                    assert(s[i].0 <= k <= s[i].1);
                } else {
                    assert(s[s.len() - 1].0 <= k <= s[s.len() - 1].1);
                }
            }
        }
    }
}

/// Lists the maximal runs of `true`; see [`spans`].
pub fn find_spans(flags: &[bool]) -> (out: Vec<(u32, u32)>)
    requires
        flags@.len() <= u32::MAX,
    ensures
        int_spans(out@) == spans(flags@),
{
    let mut out: Vec<(u32, u32)> = Vec::new();
    let mut current: Option<u32> = None;
    let n = flags.len();
    assert(int_spans(out@) =~= spans(flags@.take(0)));
    for i in 0..n
        invariant
            n == flags@.len(),
            n <= u32::MAX,
            match current {
                None => int_spans(out@) == spans(flags@.take(i as int)) && (i > 0
                    ==> !flags@[i - 1]),
                Some(top) => i > 0 && flags@[i - 1] && spans(flags@.take(i as int)) == int_spans(
                    out@,
                ).push((top as int, i - 1)),
            },
    {
        let ghost prev = flags@.take(i as int);
        let ghost next = flags@.take(i + 1);
        assert(next.drop_last() =~= prev);
        let ghost before = out@;
        if flags[i] {
            if current.is_none() {
                current = Some(i as u32);
            }
            match current {
                Some(top) => {
                    assert(spans(next) =~= int_spans(out@).push((top as int, i as int)));
                },
                None => {},
            }
        } else {
            match current {
                Some(top) => {
                    out.push((top, i as u32 - 1));
                    assert(int_spans(out@) =~= int_spans(before).push((top as int, i - 1)));
                    current = None;
                },
                None => {},
            }
        }
    }
    assert(flags@.take(n as int) =~= flags@);
    match current {
        Some(top) => {
            let ghost before = out@;
            out.push((top, n as u32 - 1));
            assert(int_spans(out@) =~= int_spans(before).push((top as int, n - 1)));
        },
        None => {},
    }
    out
}

/// Whether some stretch of more than `limit` flags is all `true`.
pub fn has_run_over(flags: &[bool], limit: u64) -> (found: bool)
    ensures
        found == has_run(flags@, limit + 1),
{
    let ghost len: int = limit + 1;
    let mut run: u64 = 0;
    for i in 0..flags.len()
        invariant
            len == limit + 1,
            run <= i,
            run <= limit,
            forall|j: int| i - run <= j < i ==> flags@[j],
            run < i ==> !flags@[i - run - 1],
            forall|s: int| s + len <= i ==> !run_at(flags@, s, len),
    {
        if flags[i] {
            run = run + 1;
            if run > limit {
                assert(run_at(flags@, i + 1 - run, len));
                return true;
            }
        } else {
            run = 0;
        }
        assert forall|s: int| s + len <= i + 1 implies !run_at(flags@, s, len) by {
            if s + len == i + 1 && 0 <= s {
                // The stretch would reach back past the current run.
                assert(!flags@[i - run]);
            }
        }
    }
    assert forall|s: int| !run_at(flags@, s, len) by {}
    false
}

/// Number of maximal runs of at least two flags.
pub fn count_long_runs(flags: &[bool]) -> (n: u32)
    requires
        flags@.len() <= u32::MAX,
    ensures
        n == count_long(spans(flags@)),
{
    let found = find_spans(flags);
    let ghost s = spans(flags@);
    let mut n: u32 = 0;
    proof {
        spans_are_maximal_runs(flags@);
    }
    for i in 0..found.len()
        invariant
            s == spans(flags@),
            int_spans(found@) == s,
            flags@.len() <= u32::MAX,
            n == count_long(s.take(i as int)),
            n <= i,
            forall|k: int| 0 <= k < s.len() ==> 0 <= (#[trigger] s[k]).0 <= s[k].1 < flags@.len(),
            forall|k: int, l: int|
                0 <= k < l < s.len() ==> (#[trigger] s[k]).1 + 1 < (#[trigger] s[l]).0,
    {
        assert(s.take(i + 1).drop_last() =~= s.take(i as int));
        assert(s[i as int] == (found@[i as int].0 as int, found@[i as int].1 as int));
        proof {
            lemma_span_index(s, i as int);
        }
        if found[i].1 > found[i].0 {
            n = n + 1;
        }
    }
    assert(s.take(found@.len() as int) =~= s);
    n
}

/// Separated spans: the `i`-th one starts no earlier than twice its index.
proof fn lemma_span_index(s: Seq<(int, int)>, i: int)
    requires
        0 <= i < s.len(),
        forall|k: int| 0 <= k < s.len() ==> 0 <= (#[trigger] s[k]).0 <= s[k].1,
        forall|k: int, l: int|
            0 <= k < l < s.len() ==> (#[trigger] s[k]).1 + 1 < (#[trigger] s[l]).0,
    ensures
        s[i].0 >= 2 * i,
    decreases i,
{
    if i > 0 {
        lemma_span_index(s, i - 1);
        assert(s[i - 1].1 + 1 < s[i].0);
    }
}

} // verus!
