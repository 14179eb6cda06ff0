//! The core decomposition engine: bucket-queue peeling.
//!
//! Vertices sit in degree-indexed buckets. Levels are swept in ascending
//! order; popping an unprocessed vertex freezes its coreness at the
//! current level and decrements every neighbour still above the level,
//! re-appending the neighbour to its new, lower bucket. Stale bucket
//! entries are skipped through the `processed` flags instead of being
//! removed, so buckets only ever grow.
//!
//! The contract of `compute_k_core` states the classical degeneracy
//! guarantee in both directions: every vertex keeps at least `core[v]`
//! adjacency occurrences among vertices of coreness at least `core[v]`,
//! and any vertex collection in which every member keeps at least `k`
//! occurrences inside the collection lies entirely within
//! `{v : core[v] >= k}`.

use vstd::prelude::*;

use crate::counting::count_ge;
use crate::counting::count_good;
use crate::counting::count_members;
use crate::counting::count_occ;
use crate::counting::count_unproc;
use crate::counting::is_good;
use crate::counting::lemma_count_good_all;
use crate::counting::lemma_count_good_eq_ge;
use crate::counting::lemma_count_good_le;
use crate::counting::lemma_count_good_le_except;
use crate::counting::lemma_count_ge_mono;
use crate::counting::lemma_count_members_eq_ge;
use crate::counting::lemma_count_occ_take_all;
use crate::counting::lemma_count_occ_take_step;
use crate::counting::lemma_count_unproc_ge_members;
use crate::counting::lemma_count_unproc_le_len;
use crate::counting::lemma_count_unproc_mark;
use crate::graph::Graph;

verus! {

broadcast use vstd::std_specs::vec::axiom_spec_len;

/// Every member of `vs` is a vertex of the graph and keeps at least `k`
/// adjacency occurrences inside `vs`: `vs` induces minimum degree `k`.
pub open spec fn dense(adj: Seq<Seq<usize>>, vs: Set<int>, k: int) -> bool {
    forall|v: int|
        #[trigger] vs.contains(v) ==> 0 <= v < adj.len() && count_members(adj[v], vs) >= k
}

/// The k-core candidate collection: all vertices of coreness at least
/// `k`.
pub open spec fn core_vertices(core: Seq<usize>, k: int) -> Set<int> {
    Set::new(|v: int| 0 <= v < core.len() && core[v] as int >= k)
}

/// Upper invariant of the peel: every vertex keeps at least its current
/// core value in occurrences that are unprocessed or frozen at or above
/// that value.
pub open spec fn peel_good(
    adj: Seq<Seq<usize>>,
    processed: Seq<bool>,
    core: Seq<usize>,
    n: int,
) -> bool {
    forall|w: int|
        0 <= w < n ==> core[w] as int <= #[trigger] count_good(
            adj[w],
            processed,
            core,
            core[w] as int,
        )
}

/// Lower invariant of the peel: an unprocessed vertex's core value is
/// at least its number of unprocessed adjacency occurrences.
pub open spec fn peel_unproc_lb(
    adj: Seq<Seq<usize>>,
    processed: Seq<bool>,
    core: Seq<usize>,
    n: int,
) -> bool {
    forall|w: int|
        0 <= w < n && !processed[w] ==> core[w] as int >= #[trigger] count_unproc(
            adj[w],
            processed,
        )
}

/// Maximality invariant of the peel: a processed member of any
/// collection inducing minimum degree `k2` was frozen at `k2` or above.
pub open spec fn peel_dense_lb(adj: Seq<Seq<usize>>, processed: Seq<bool>, core: Seq<usize>)
    -> bool {
    forall|vs: Set<int>, k2: int, w: int|
        #[trigger] dense(adj, vs, k2) && #[trigger] vs.contains(w) && processed[w] ==> core[w]
            as int >= k2
}

/// The vertex `w` stands somewhere in `bks[t]` at position `from` or
/// later.
pub open spec fn in_bucket_from(bks: Seq<Vec<usize>>, t: int, from: int, w: int) -> bool {
    exists|idx: int| from <= idx < bks[t]@.len() && (#[trigger] bks[t]@[idx]) as int == w
}

/// Termination potential of the peel: every unprocessed vertex
/// contributes its current core value plus one.
pub open spec fn unproc_weight(core: Seq<usize>, processed: Seq<bool>, i: int) -> int
    decreases i,
{
    if i <= 0 {
        0
    } else {
        unproc_weight(core, processed, i - 1) + (if !processed[i - 1] {
            core[i - 1] + 1
        } else {
            0
        })
    }
}

pub proof fn lemma_unproc_weight_nonneg(core: Seq<usize>, processed: Seq<bool>, i: int)
    ensures
        unproc_weight(core, processed, i) >= 0,
    decreases i,
{
    if i > 0 {
        lemma_unproc_weight_nonneg(core, processed, i - 1);
    }
}

/// Marking an unprocessed vertex processed removes its contribution.
pub proof fn lemma_unproc_weight_mark(
    core: Seq<usize>,
    processed: Seq<bool>,
    i: int,
    v: int,
)
    requires
        0 <= v < i <= processed.len(),
        !processed[v],
    ensures
        unproc_weight(core, processed.update(v, true), i) == unproc_weight(core, processed, i) - (
        core[v] + 1),
    decreases i,
{
    if i > 0 {
        if v == i - 1 {
            assert(forall|j: int|
                0 <= j < i - 1 ==> processed.update(v, true)[j] == processed[j]);
            lemma_unproc_weight_same(core, processed, processed.update(v, true), core, i - 1);
        } else {
            lemma_unproc_weight_mark(core, processed, i - 1, v);
        }
    }
}

/// Lowering the core value of an unprocessed vertex lowers the
/// potential by the same amount.
pub proof fn lemma_unproc_weight_set_core(
    core: Seq<usize>,
    processed: Seq<bool>,
    i: int,
    v: int,
    x: usize,
)
    requires
        0 <= v < i <= core.len(),
        !processed[v],
    ensures
        unproc_weight(core.update(v, x), processed, i) == unproc_weight(core, processed, i) - (
        core[v] - x),
    decreases i,
{
    if i > 0 {
        if v == i - 1 {
            lemma_unproc_weight_same(core, processed, processed, core.update(v, x), i - 1);
        } else {
            lemma_unproc_weight_set_core(core, processed, i - 1, v, x);
        }
    }
}

/// The potential only reads the first `i` entries.
pub proof fn lemma_unproc_weight_same(
    core1: Seq<usize>,
    processed1: Seq<bool>,
    processed2: Seq<bool>,
    core2: Seq<usize>,
    i: int,
)
    requires
        forall|j: int| 0 <= j < i ==> processed1[j] == processed2[j],
        forall|j: int| 0 <= j < i ==> core1[j] == core2[j],
    ensures
        unproc_weight(core1, processed1, i) == unproc_weight(core2, processed2, i),
    decreases i,
{
    if i > 0 {
        lemma_unproc_weight_same(core1, processed1, processed2, core2, i - 1);
    }
}

/// Processing one vertex `v` at level `k` preserves the peel
/// invariants: `pro1`/`core1` are the flags and core values after `v`
/// was marked and each of its unprocessed neighbours above `k` was
/// decremented once per adjacency occurrence, with the floor `k`.
proof fn lemma_peel_step(
    adj: Seq<Seq<usize>>,
    pro0: Seq<bool>,
    core0: Seq<usize>,
    pro1: Seq<bool>,
    core1: Seq<usize>,
    n: int,
    k: int,
    v: int,
)
    requires
        adj.len() == n,
        pro0.len() == n,
        core0.len() == n,
        pro1.len() == n,
        core1.len() == n,
        0 <= v < n,
        !pro0[v],
        pro1 == pro0.update(v, true),
        core0[v] as int == k,
        core1[v] == core0[v],
        forall|w: int, j: int|
            0 <= w < n && 0 <= j < adj[w].len() ==> ((#[trigger] adj[w][j]) as int) < n,
        forall|u: int, w: int|
            0 <= u < n && 0 <= w < n ==> count_occ(adj[u], w) == count_occ(adj[w], u),
        forall|w: int| 0 <= w < n && pro0[w] ==> core0[w] as int <= k,
        forall|w: int| 0 <= w < n && !pro0[w] ==> core0[w] as int >= k,
        peel_good(adj, pro0, core0, n),
        peel_unproc_lb(adj, pro0, core0, n),
        peel_dense_lb(adj, pro0, core0),
        forall|u: int| 0 <= u < n && pro1[u] ==> core1[u] == core0[u],
        forall|u: int|
            0 <= u < n && !pro1[u] ==> core1[u] as int == (if core0[u] as int - count_occ(
                adj[u],
                v,
            ) > k {
                core0[u] as int - count_occ(adj[u], v)
            } else {
                k
            }),
    ensures
        peel_good(adj, pro1, core1, n),
        peel_unproc_lb(adj, pro1, core1, n),
        peel_dense_lb(adj, pro1, core1),
        forall|w: int| 0 <= w < n && pro1[w] ==> core1[w] as int <= k,
        forall|w: int| 0 <= w < n && !pro1[w] ==> core1[w] as int >= k,
{
    assert forall|w: int| 0 <= w < n implies core1[w] as int <= count_good(
        #[trigger] adj[w],
        pro1,
        core1,
        core1[w] as int,
    ) by {
        let s = adj[w];
        if pro1[w] {
            if w == v {
                assert forall|j: int|
                    0 <= j < s.len() && is_good(pro0, core0, k, s[j]) implies is_good(
                    pro1,
                    core1,
                    k,
                    s[j],
                ) by {
                    let x = s[j] as int;
                    if pro0[x] {
                        assert(core1[x] == core0[x]);
                    } else if x == v {
                        assert(core1[v] as int == k);
                    }
                }
                lemma_count_good_le(s, pro0, core0, k, pro1, core1, k);
            } else {
                let t = core0[w] as int;
                assert forall|j: int|
                    0 <= j < s.len() && is_good(pro0, core0, t, s[j]) implies is_good(
                    pro1,
                    core1,
                    t,
                    s[j],
                ) by {
                    let x = s[j] as int;
                    if pro0[x] {
                        assert(core1[x] == core0[x]);
                    } else if x == v {
                        assert(core1[v] as int == k && t <= k);
                    }
                }
                lemma_count_good_le(s, pro0, core0, t, pro1, core1, t);
            }
        } else {
            let t0 = core0[w] as int;
            let ce = core1[w] as int;
            let m = count_occ(adj[w], v) as int;
            if ce > k {
                assert(ce == t0 - m);
                assert forall|j: int|
                    0 <= j < s.len() && is_good(pro0, core0, t0, s[j]) && s[j] as int != v
                    implies is_good(pro1, core1, ce, s[j]) by {
                    let x = s[j] as int;
                    if pro0[x] {
                        assert(core1[x] == core0[x] && core0[x] as int >= t0 >= ce);
                    }
                }
                lemma_count_good_le_except(s, pro0, core0, t0, pro1, core1, ce, v);
            } else {
                assert(ce == k);
                assert(t0 >= k);
                assert forall|j: int|
                    0 <= j < s.len() && is_good(pro0, core0, t0, s[j]) implies is_good(
                    pro1,
                    core1,
                    k,
                    s[j],
                ) by {
                    let x = s[j] as int;
                    if pro0[x] {
                        assert(core1[x] == core0[x] && core0[x] as int >= t0 >= k);
                    } else if x == v {
                        assert(core1[v] as int == k);
                    }
                }
                lemma_count_good_le(s, pro0, core0, t0, pro1, core1, k);
            }
        }
    }
    assert forall|w: int| 0 <= w < n && !pro1[w] implies core1[w] as int >= #[trigger] count_unproc(
        adj[w],
        pro1,
    ) by {
        lemma_count_unproc_mark(adj[w], pro0, v);
    }
    assert forall|vs: Set<int>, k2: int, w: int|
        #[trigger] dense(adj, vs, k2) && #[trigger] vs.contains(w) && pro1[w] implies core1[w]
        as int >= k2 by {
        if w != v {
            assert(pro0[w]);
            assert(core0[w] as int >= k2);
            assert(core1[w] == core0[w]);
        } else {
            if exists|x: int| #[trigger] vs.contains(x) && 0 <= x < n && pro0[x] {
                let x = choose|x: int| #[trigger] vs.contains(x) && 0 <= x < n && pro0[x];
                assert(core0[x] as int >= k2);
                assert(core0[x] as int <= k);
            } else {
                assert forall|j: int|
                    0 <= j < adj[v].len() && vs.contains(adj[v][j] as int)
                    implies !pro0[adj[v][j] as int] by {
                    let x = adj[v][j] as int;
                    assert(vs.contains(x) ==> 0 <= x < n);
                }
                lemma_count_unproc_ge_members(adj[v], pro0, vs);
                assert(count_members(adj[v], vs) >= k2);
                assert(core0[v] as int >= count_unproc(adj[v], pro0));
            }
            assert(core1[v] as int == k);
        }
    }
}

impl Graph {
    /// Computes the coreness of every vertex with the linear-time
    /// bucket-queue peeling sweep. `core[v]` is initialised to the
    /// degree and only ever decremented; a vertex's value is frozen
    /// when it is popped unprocessed at the current level.
    ///
    /// The contract is the degeneracy guarantee: coreness never exceeds
    /// degree; every vertex keeps at least `core[v]` occurrences among
    /// vertices of coreness at least `core[v]`; and any collection that
    /// induces minimum degree `k2` lies within `{v : core[v] >= k2}`.
    #[verifier::loop_isolation(false)]
    #[verifier::rlimit(60)]
    pub fn compute_k_core(&self) -> (core: Vec<usize>)
        requires
            self.wf(),
            forall|v: int| 0 <= v < self.n ==> (self.degrees@[v] as int) < usize::MAX,
        ensures
            core@.len() == self.n,
            forall|v: int| 0 <= v < self.n ==> core@[v] <= self.degrees@[v],
            forall|v: int|
                0 <= v < self.n ==> count_ge(self.adjs()[v], core@, core@[v] as int) >= core@[v],
            forall|vs: Set<int>, k2: int, v: int|
                #[trigger] dense(self.adjs(), vs, k2) && #[trigger] vs.contains(v) ==> k2 <= core@[v]
                    as int,
    {
        let n = self.n;
        let mut core: Vec<usize> = Vec::new();
        let mut processed: Vec<bool> = Vec::new();
        let mut i: usize = 0;
        while i < n
            invariant
                0 <= i <= n,
                core@.len() == i,
                processed@.len() == i,
                forall|j: int| 0 <= j < i ==> core@[j] == self.degrees@[j],
                forall|j: int| 0 <= j < i ==> !processed@[j],
            decreases n - i,
        {
            core.push(self.degrees[i]);
            processed.push(false);
            i += 1;
        }

        let mut max_deg: usize = 0;
        let mut i: usize = 0;
        while i < n
            invariant
                0 <= i <= n,
                forall|j: int| 0 <= j < i ==> core@[j] <= max_deg,
                max_deg == 0 || (exists|j: int| 0 <= j < i && core@[j] == max_deg),
            decreases n - i,
        {
            if core[i] > max_deg {
                max_deg = core[i];
            }
            i += 1;
        }
        proof {
            assert(max_deg < usize::MAX);
        }

        let mut buckets: Vec<Vec<usize>> = Vec::new();
        let mut b: usize = 0;
        while b < max_deg + 1
            invariant
                0 <= b <= max_deg + 1,
                buckets@.len() == b,
                forall|t: int| 0 <= t < b ==> buckets@[t]@.len() == 0,
            decreases max_deg + 1 - b,
        {
            buckets.push(Vec::new());
            b += 1;
        }

        let mut i: usize = 0;
        while i < n
            invariant
                0 <= i <= n,
                buckets@.len() == max_deg + 1,
                forall|t: int, j: int|
                    0 <= t <= max_deg && 0 <= j < buckets@[t]@.len() ==> ((
                    #[trigger] buckets@[t]@[j]) as int) < n && core@[buckets@[t]@[j] as int] <= t,
                forall|w: int| 0 <= w < i ==> in_bucket_from(buckets@, core@[w] as int, 0, w),
            decreases n - i,
        {
            let c = core[i];
            let ghost bks0 = buckets@;
            let row = &mut buckets[c];
            row.push(i);
            proof {
                assert(buckets@[c as int]@ =~= bks0[c as int]@.push(i));
                assert(forall|t: int| 0 <= t <= max_deg && t != c ==> buckets@[t] == bks0[t]);
                assert(buckets@[c as int]@[bks0[c as int]@.len() as int] as int == i as int);
                assert forall|w: int| 0 <= w < i + 1 implies in_bucket_from(
                    buckets@,
                    core@[w] as int,
                    0,
                    w,
                ) by {
                    if w < i {
                        let t = core@[w] as int;
                        let idx = choose|idx: int|
                            0 <= idx < bks0[t]@.len() && (#[trigger] bks0[t]@[idx]) as int == w;
                        assert(buckets@[t]@[idx] as int == w);
                    } else {
                        assert(buckets@[c as int]@[bks0[c as int]@.len() as int] as int == w);
                    }
                }
            }
            i += 1;
        }

        proof {
            assert forall|w: int| 0 <= w < n implies core@[w] as int <= #[trigger] count_good(
                self.adjs()[w],
                processed@,
                core@,
                core@[w] as int,
            ) by {
                lemma_count_good_all(self.adjs()[w], processed@, core@, core@[w] as int);
            }
            assert forall|w: int| 0 <= w < n && !processed@[w] implies core@[w] as int
                >= #[trigger] count_unproc(self.adjs()[w], processed@) by {
                lemma_count_unproc_le_len(self.adjs()[w], processed@);
            }
        }

        let mut k: usize = 0;
        while k <= max_deg
            invariant
                0 <= k <= max_deg + 1,
                core@.len() == n,
                processed@.len() == n,
                buckets@.len() == max_deg + 1,
                forall|v: int| 0 <= v < n ==> core@[v] <= self.degrees@[v],
                forall|v: int| 0 <= v < n ==> core@[v] <= max_deg,
                forall|v: int| 0 <= v < n && processed@[v] ==> core@[v] <= k,
                forall|v: int| 0 <= v < n && !processed@[v] ==> core@[v] >= k,
                forall|t: int, j: int|
                    0 <= t <= max_deg && 0 <= j < buckets@[t]@.len() ==> ((
                    #[trigger] buckets@[t]@[j]) as int) < n && core@[buckets@[t]@[j] as int] <= t,
                forall|w: int|
                    0 <= w < n && !(#[trigger] processed@[w]) ==> in_bucket_from(
                        buckets@,
                        core@[w] as int,
                        0,
                        w,
                    ),
                peel_good(self.adjs(), processed@, core@, n as int),
                peel_unproc_lb(self.adjs(), processed@, core@, n as int),
                peel_dense_lb(self.adjs(), processed@, core@),
            decreases max_deg + 1 - k,
        {
            let mut ptr: usize = 0;
            while ptr < buckets[k].len()
                invariant
                    0 <= k <= max_deg,
                    core@.len() == n,
                    processed@.len() == n,
                    buckets@.len() == max_deg + 1,
                    ptr <= buckets@[k as int]@.len(),
                    forall|v: int| 0 <= v < n ==> core@[v] <= self.degrees@[v],
                    forall|v: int| 0 <= v < n ==> core@[v] <= max_deg,
                    forall|v: int| 0 <= v < n && processed@[v] ==> core@[v] <= k,
                    forall|v: int| 0 <= v < n && !processed@[v] ==> core@[v] >= k,
                    forall|t: int, j: int|
                        0 <= t <= max_deg && 0 <= j < buckets@[t]@.len() ==> ((
                        #[trigger] buckets@[t]@[j]) as int) < n && core@[buckets@[t]@[j] as int]
                            <= t,
                    forall|w: int|
                        0 <= w < n && !(#[trigger] processed@[w]) && core@[w] == k
                            ==> in_bucket_from(buckets@, k as int, ptr as int, w),
                    forall|w: int|
                        0 <= w < n && !(#[trigger] processed@[w]) && core@[w] != k
                            ==> in_bucket_from(buckets@, core@[w] as int, 0, w),
                    peel_good(self.adjs(), processed@, core@, n as int),
                    peel_unproc_lb(self.adjs(), processed@, core@, n as int),
                    peel_dense_lb(self.adjs(), processed@, core@),
                decreases buckets@[k as int]@.len() - ptr + 3 * unproc_weight(
                    core@,
                    processed@,
                    n as int,
                ),
            {
                proof {
                    lemma_unproc_weight_nonneg(core@, processed@, n as int);
                }
                let v = buckets[k][ptr];
                proof {
                    assert((v as int) < n && core@[v as int] <= k as int);
                }
                ptr += 1;
                if !processed[v] {
                    proof {
                        assert(core@[v as int] == k);
                    }
                    let ghost pro0 = processed@;
                    let ghost core0 = core@;
                    processed.set(v, true);
                    let ghost pro1 = processed@;
                    proof {
                        lemma_unproc_weight_mark(core@, pro0, n as int, v as int);
                        lemma_unproc_weight_nonneg(core@, processed@, n as int);
                        assert forall|w: int|
                            0 <= w < n && !(#[trigger] processed@[w]) && core@[w] == k
                            implies in_bucket_from(buckets@, k as int, ptr as int, w) by {
                            let idx = choose|idx: int|
                                ptr - 1 <= idx < buckets@[k as int]@.len() && (
                                #[trigger] buckets@[k as int]@[idx]) as int == w;
                            assert(buckets@[k as int]@[ptr - 1] as int == v as int);
                            assert(idx >= ptr);
                        }
                    }
                    let ghost w1 = unproc_weight(core@, processed@, n as int);
                    let ghost l1 = buckets@[k as int]@.len() as int;
                    let deg_v = self.adj[v].len();
                    let mut j: usize = 0;
                    while j < deg_v
                        invariant
                            0 <= j <= deg_v,
                            core@.len() == n,
                            processed@.len() == n,
                            buckets@.len() == max_deg + 1,
                            processed@ == pro1,
                            ptr <= buckets@[k as int]@.len(),
                            forall|v2: int| 0 <= v2 < n ==> core@[v2] <= self.degrees@[v2],
                            forall|v2: int| 0 <= v2 < n ==> core@[v2] <= max_deg,
                            forall|v2: int| 0 <= v2 < n && processed@[v2] ==> core@[v2] <= k,
                            forall|u2: int|
                                0 <= u2 < n && pro1[u2] ==> core@[u2] == core0[u2],
                            forall|u2: int|
                                0 <= u2 < n && !pro1[u2] ==> core@[u2] as int == (if core0[u2]
                                    as int - count_occ(
                                    self.adjs()[v as int].take(j as int),
                                    u2,
                                ) > k {
                                    core0[u2] as int - count_occ(
                                        self.adjs()[v as int].take(j as int),
                                        u2,
                                    )
                                } else {
                                    k as int
                                }),
                            forall|t: int, j2: int|
                                0 <= t <= max_deg && 0 <= j2 < buckets@[t]@.len() ==> ((
                                #[trigger] buckets@[t]@[j2]) as int) < n && core@[buckets@[t]@[j2]
                                    as int] <= t,
                            forall|w: int|
                                0 <= w < n && !(#[trigger] processed@[w]) && core@[w] == k
                                    ==> in_bucket_from(buckets@, k as int, ptr as int, w),
                            forall|w: int|
                                0 <= w < n && !(#[trigger] processed@[w]) && core@[w] != k
                                    ==> in_bucket_from(buckets@, core@[w] as int, 0, w),
                            3 * unproc_weight(core@, processed@, n as int) + buckets@[k as int]@.len()
                                <= 3 * w1 + l1,
                            unproc_weight(core@, processed@, n as int) >= 0,
                        decreases deg_v - j,
                    {
                        let u = self.adj[v][j];
                        proof {
                            assert(u == self.adjs()[v as int][j as int]);
                            assert((u as int) < n);
                        }
                        if core[u] > k {
                            let cu = core[u];
                            let ghost core_pre = core@;
                            core.set(u, cu - 1);
                            proof {
                                lemma_unproc_weight_set_core(
                                    core_pre,
                                    processed@,
                                    n as int,
                                    u as int,
                                    (cu - 1) as usize,
                                );
                                lemma_unproc_weight_nonneg(core@, processed@, n as int);
                            }
                            let ghost bks0 = buckets@;
                            let row = &mut buckets[cu - 1];
                            row.push(u);
                            proof {
                                assert(buckets@[cu - 1]@ =~= bks0[cu - 1]@.push(u));
                                assert(forall|t: int|
                                    0 <= t <= max_deg && t != cu - 1 ==> buckets@[t] == bks0[t]);
                                assert(buckets@[cu - 1]@[bks0[cu - 1]@.len() as int] as int == u
                                    as int);
                                assert forall|w: int|
                                    0 <= w < n && !(#[trigger] processed@[w]) && core@[w] == k
                                    implies in_bucket_from(buckets@, k as int, ptr as int, w) by {
                                    if w == u as int && cu - 1 == k as int {
                                        assert(buckets@[k as int]@[bks0[k as int]@.len() as int]
                                            as int == w);
                                    } else {
                                        assert(core_pre[w] == core@[w]);
                                        let idx = choose|idx: int|
                                            ptr <= idx < bks0[k as int]@.len() && (
                                            #[trigger] bks0[k as int]@[idx]) as int == w;
                                        assert(buckets@[k as int]@[idx] as int == w);
                                    }
                                }
                                assert forall|w: int|
                                    0 <= w < n && !(#[trigger] processed@[w]) && core@[w] != k
                                    implies in_bucket_from(buckets@, core@[w] as int, 0, w) by {
                                    let t = core@[w] as int;
                                    if w == u as int {
                                        assert(buckets@[cu - 1]@[bks0[cu - 1]@.len() as int] as int
                                            == w);
                                    } else {
                                        assert(core_pre[w] == core@[w]);
                                        let idx = choose|idx: int|
                                            0 <= idx < bks0[t]@.len() && (#[trigger] bks0[t]@[idx])
                                                as int == w;
                                        assert(buckets@[t]@[idx] as int == w);
                                    }
                                }
                            }
                        }
                        proof {
                            assert forall|u2: int| 0 <= u2 < n && !pro1[u2] implies core@[u2]
                                as int == (if core0[u2] as int - count_occ(
                                self.adjs()[v as int].take(j as int + 1),
                                u2,
                            ) > k {
                                core0[u2] as int - count_occ(
                                    self.adjs()[v as int].take(j as int + 1),
                                    u2,
                                )
                            } else {
                                k as int
                            }) by {
                                lemma_count_occ_take_step(self.adjs()[v as int], j as int, u2);
                            }
                        }
                        j += 1;
                    }
                    proof {
                        assert forall|u2: int| 0 <= u2 < n && !pro1[u2] implies core@[u2] as int
                            == (if core0[u2] as int - count_occ(self.adjs()[u2], v as int) > k {
                            core0[u2] as int - count_occ(self.adjs()[u2], v as int)
                        } else {
                            k as int
                        }) by {
                            lemma_count_occ_take_all(self.adjs()[v as int], u2);
                            assert(count_occ(self.adjs()[v as int], u2) == count_occ(
                                self.adjs()[u2],
                                v as int,
                            ));
                        }
                        lemma_peel_step(
                            self.adjs(),
                            pro0,
                            core0,
                            pro1,
                            core@,
                            n as int,
                            k as int,
                            v as int,
                        );
                    }
                }
            }
            proof {
                assert forall|w: int| 0 <= w < n && !(#[trigger] processed@[w]) implies core@[w]
                    as int >= k + 1 by {
                    if core@[w] == k {
                        assert(in_bucket_from(buckets@, k as int, ptr as int, w));
                    }
                }
            }
            k += 1;
        }
        proof {
            assert forall|w: int| 0 <= w < n implies processed@[w] by {
                if !processed@[w] {
                    assert(core@[w] >= max_deg + 1);
                }
            }
            assert forall|v: int| 0 <= v < n implies count_ge(
                self.adjs()[v],
                core@,
                core@[v] as int,
            ) >= core@[v] by {
                lemma_count_good_eq_ge(self.adjs()[v], processed@, core@, core@[v] as int);
            }
            assert forall|vs: Set<int>, k2: int, v: int|
                #[trigger] dense(self.adjs(), vs, k2) && #[trigger] vs.contains(v) implies k2
                <= core@[v] as int by {
                assert(0 <= v < n);
                assert(processed@[v]);
            }
        }
        core
    }
}

/// The k-core collection `{v : coreness[v] >= k}` induces minimum
/// degree `k`: every member keeps at least `k` adjacency occurrences
/// inside the collection. Together with `lemma_core_vertices_maximal`
/// this makes it the unique maximal such collection.
pub proof fn lemma_core_vertices_dense(g: Graph, core: Seq<usize>, k: int)
    requires
        g.wf(),
        core.len() == g.n,
        forall|v: int| 0 <= v < g.n ==> count_ge(g.adjs()[v], core, core[v] as int) >= core[v],
    ensures
        dense(g.adjs(), core_vertices(core, k), k),
{
    let vs = core_vertices(core, k);
    assert forall|v: int| #[trigger] vs.contains(v) implies 0 <= v < g.adjs().len()
        && count_members(g.adjs()[v], vs) >= k by {
        assert(0 <= v < g.n && core[v] as int >= k);
        lemma_count_members_eq_ge(g.adjs()[v], core, k, vs);
        lemma_count_ge_mono(g.adjs()[v], core, k, core[v] as int);
    }
}

/// Maximality of the k-core: any collection that induces minimum
/// degree `k` lies entirely inside `{v : coreness[v] >= k}`.
pub proof fn lemma_core_vertices_maximal(g: Graph, core: Seq<usize>, k: int, vs: Set<int>)
    requires
        g.wf(),
        core.len() == g.n,
        forall|s: Set<int>, k2: int, v: int|
            #[trigger] dense(g.adjs(), s, k2) && #[trigger] s.contains(v) ==> k2 <= core[v] as int,
        dense(g.adjs(), vs, k),
    ensures
        vs.subset_of(core_vertices(core, k)),
{
    assert forall|v: int| vs.contains(v) implies core_vertices(core, k).contains(v) by {
        assert(0 <= v < g.n && k <= core[v] as int);
    }
}

} // verus!
