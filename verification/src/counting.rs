//! Counting occurrences in adjacency rows.
//!
//! Adjacency lists are multisets of vertex ids: multi-edges and
//! self-loops are kept with multiplicity. Degrees, symmetry and induced
//! degrees are all phrased with the occurrence counter below.

use vstd::prelude::*;

verus! {

/// Number of occurrences of the id `v` among the entries of `s`.
pub open spec fn count_occ(s: Seq<usize>, v: int) -> nat
    decreases s.len(),
{
    if s.len() == 0 {
        0
    } else {
        count_occ(s.drop_last(), v) + (if s.last() as int == v {
            1nat
        } else {
            0nat
        })
    }
}

pub proof fn lemma_count_occ_push(s: Seq<usize>, x: usize, v: int)
    ensures
        count_occ(s.push(x), v) == count_occ(s, v) + (if x as int == v {
            1nat
        } else {
            0nat
        }),
{
    assert(s.push(x).drop_last() =~= s);
}

pub proof fn lemma_count_occ_take_step(s: Seq<usize>, i: int, v: int)
    requires
        0 <= i < s.len(),
    ensures
        count_occ(s.take(i + 1), v) == count_occ(s.take(i), v) + (if s[i] as int == v {
            1nat
        } else {
            0nat
        }),
{
    assert(s.take(i + 1) =~= s.take(i).push(s[i]));
    lemma_count_occ_push(s.take(i), s[i], v);
}

pub proof fn lemma_count_occ_take_all(s: Seq<usize>, v: int)
    ensures
        count_occ(s.take(s.len() as int), v) == count_occ(s, v),
{
    assert(s.take(s.len() as int) =~= s);
}

/// Every entry of `s` below the bound `m` rules out occurrences of any
/// id at or above `m`.
pub proof fn lemma_count_occ_zero_of_bound(s: Seq<usize>, m: int, v: int)
    requires
        forall|j: int| 0 <= j < s.len() ==> (s[j] as int) < m,
        v >= m,
    ensures
        count_occ(s, v) == 0,
    decreases s.len(),
{
    if s.len() > 0 {
        assert(forall|j: int| 0 <= j < s.drop_last().len() ==> (s.drop_last()[j] as int) < m);
        lemma_count_occ_zero_of_bound(s.drop_last(), m, v);
        assert(s.last() == s[s.len() - 1]);
    }
}

/// An occurrence of vertex `x` is "good" for threshold `t`: its vertex
/// is still unprocessed, or its core value is at least `t`.
pub open spec fn is_good(processed: Seq<bool>, core: Seq<usize>, t: int, x: usize) -> bool {
    !processed[x as int] || core[x as int] as int >= t
}

/// Number of entries of `s` that are good for threshold `t`.
pub open spec fn count_good(s: Seq<usize>, processed: Seq<bool>, core: Seq<usize>, t: int) -> nat
    decreases s.len(),
{
    if s.len() == 0 {
        0
    } else {
        count_good(s.drop_last(), processed, core, t) + (if is_good(processed, core, t, s.last()) {
            1nat
        } else {
            0nat
        })
    }
}

/// Number of entries of `s` whose vertex is unprocessed.
pub open spec fn count_unproc(s: Seq<usize>, processed: Seq<bool>) -> nat
    decreases s.len(),
{
    if s.len() == 0 {
        0
    } else {
        count_unproc(s.drop_last(), processed) + (if !processed[s.last() as int] {
            1nat
        } else {
            0nat
        })
    }
}

/// Number of entries of `s` whose vertex has core value at least `t`.
pub open spec fn count_ge(s: Seq<usize>, core: Seq<usize>, t: int) -> nat
    decreases s.len(),
{
    if s.len() == 0 {
        0
    } else {
        count_ge(s.drop_last(), core, t) + (if core[s.last() as int] as int >= t {
            1nat
        } else {
            0nat
        })
    }
}

/// Number of entries of `s` that lie in the vertex collection `vs`.
pub open spec fn count_members(s: Seq<usize>, vs: Set<int>) -> nat
    decreases s.len(),
{
    if s.len() == 0 {
        0
    } else {
        count_members(s.drop_last(), vs) + (if vs.contains(s.last() as int) {
            1nat
        } else {
            0nat
        })
    }
}

/// Entry-wise implication between good-predicates bounds the counts.
pub proof fn lemma_count_good_le(
    s: Seq<usize>,
    p1: Seq<bool>,
    c1: Seq<usize>,
    t1: int,
    p2: Seq<bool>,
    c2: Seq<usize>,
    t2: int,
)
    requires
        forall|j: int| 0 <= j < s.len() && is_good(p1, c1, t1, s[j]) ==> is_good(p2, c2, t2, s[j]),
    ensures
        count_good(s, p1, c1, t1) <= count_good(s, p2, c2, t2),
    decreases s.len(),
{
    if s.len() > 0 {
        assert(forall|j: int|
            0 <= j < s.drop_last().len() && is_good(p1, c1, t1, s.drop_last()[j]) ==> is_good(
                p2,
                c2,
                t2,
                s.drop_last()[j],
            ));
        lemma_count_good_le(s.drop_last(), p1, c1, t1, p2, c2, t2);
        assert(s.last() == s[s.len() - 1]);
    }
}

/// As `lemma_count_good_le`, but wherever the implication fails the
/// entry is the single vertex `xv`; at most its occurrences are lost.
pub proof fn lemma_count_good_le_except(
    s: Seq<usize>,
    p1: Seq<bool>,
    c1: Seq<usize>,
    t1: int,
    p2: Seq<bool>,
    c2: Seq<usize>,
    t2: int,
    xv: int,
)
    requires
        forall|j: int|
            0 <= j < s.len() && is_good(p1, c1, t1, s[j]) && s[j] as int != xv ==> is_good(
                p2,
                c2,
                t2,
                s[j],
            ),
    ensures
        count_good(s, p1, c1, t1) <= count_good(s, p2, c2, t2) + count_occ(s, xv),
    decreases s.len(),
{
    if s.len() > 0 {
        assert(forall|j: int|
            0 <= j < s.drop_last().len() && is_good(p1, c1, t1, s.drop_last()[j]) && s.drop_last()[j]
                as int != xv ==> is_good(p2, c2, t2, s.drop_last()[j]));
        lemma_count_good_le_except(s.drop_last(), p1, c1, t1, p2, c2, t2, xv);
        assert(s.last() == s[s.len() - 1]);
    }
}

/// When every entry is good, the count is the full length.
pub proof fn lemma_count_good_all(s: Seq<usize>, p: Seq<bool>, c: Seq<usize>, t: int)
    requires
        forall|j: int| 0 <= j < s.len() ==> is_good(p, c, t, s[j]),
    ensures
        count_good(s, p, c, t) == s.len(),
    decreases s.len(),
{
    if s.len() > 0 {
        assert(forall|j: int| 0 <= j < s.drop_last().len() ==> is_good(p, c, t, s.drop_last()[j]));
        lemma_count_good_all(s.drop_last(), p, c, t);
        assert(s.last() == s[s.len() - 1]);
    }
}

/// When every entry's vertex is processed, goodness is exactly the
/// core-threshold test.
pub proof fn lemma_count_good_eq_ge(s: Seq<usize>, p: Seq<bool>, c: Seq<usize>, t: int)
    requires
        forall|j: int| 0 <= j < s.len() ==> p[s[j] as int],
    ensures
        count_good(s, p, c, t) == count_ge(s, c, t),
    decreases s.len(),
{
    if s.len() > 0 {
        assert(forall|j: int| 0 <= j < s.drop_last().len() ==> p[s.drop_last()[j] as int]);
        lemma_count_good_eq_ge(s.drop_last(), p, c, t);
        assert(s.last() == s[s.len() - 1]);
    }
}

/// Marking the vertex `xv` processed removes exactly its occurrences
/// from the unprocessed count.
pub proof fn lemma_count_unproc_mark(s: Seq<usize>, p: Seq<bool>, xv: int)
    requires
        0 <= xv < p.len(),
        forall|j: int| 0 <= j < s.len() ==> (s[j] as int) < p.len(),
    ensures
        count_unproc(s, p.update(xv, true)) == count_unproc(s, p) - (if !p[xv] {
            count_occ(s, xv) as int
        } else {
            0
        }),
    decreases s.len(),
{
    if s.len() > 0 {
        assert(forall|j: int|
            0 <= j < s.drop_last().len() ==> (s.drop_last()[j] as int) < p.len());
        lemma_count_unproc_mark(s.drop_last(), p, xv);
        assert(s.last() == s[s.len() - 1]);
    }
}

/// Occurrences inside a collection of unprocessed vertices are also
/// unprocessed occurrences.
pub proof fn lemma_count_unproc_ge_members(s: Seq<usize>, p: Seq<bool>, vs: Set<int>)
    requires
        forall|j: int| 0 <= j < s.len() && vs.contains(s[j] as int) ==> !p[s[j] as int],
    ensures
        count_unproc(s, p) >= count_members(s, vs),
    decreases s.len(),
{
    if s.len() > 0 {
        assert(forall|j: int|
            0 <= j < s.drop_last().len() && vs.contains(s.drop_last()[j] as int)
                ==> !p[s.drop_last()[j] as int]);
        lemma_count_unproc_ge_members(s.drop_last(), p, vs);
        assert(s.last() == s[s.len() - 1]);
    }
}

/// Raising the threshold cannot gain occurrences.
pub proof fn lemma_count_ge_mono(s: Seq<usize>, c: Seq<usize>, t1: int, t2: int)
    requires
        t1 <= t2,
    ensures
        count_ge(s, c, t2) <= count_ge(s, c, t1),
    decreases s.len(),
{
    if s.len() > 0 {
        lemma_count_ge_mono(s.drop_last(), c, t1, t2);
    }
}

/// Membership in `{x : core[x] >= t}` is the core-threshold test, for
/// entries within bounds.
pub proof fn lemma_count_members_eq_ge(s: Seq<usize>, c: Seq<usize>, t: int, vs: Set<int>)
    requires
        forall|j: int| 0 <= j < s.len() ==> (s[j] as int) < c.len(),
        forall|x: int| vs.contains(x) <==> 0 <= x < c.len() && c[x] as int >= t,
    ensures
        count_members(s, vs) == count_ge(s, c, t),
    decreases s.len(),
{
    if s.len() > 0 {
        assert(forall|j: int| 0 <= j < s.drop_last().len() ==> (s.drop_last()[j] as int) < c.len());
        lemma_count_members_eq_ge(s.drop_last(), c, t, vs);
        assert(s.last() == s[s.len() - 1]);
    }
}

/// The unprocessed count never exceeds the row length.
pub proof fn lemma_count_unproc_le_len(s: Seq<usize>, p: Seq<bool>)
    ensures
        count_unproc(s, p) <= s.len(),
    decreases s.len(),
{
    if s.len() > 0 {
        lemma_count_unproc_le_len(s.drop_last(), p);
    }
}

} // verus!
