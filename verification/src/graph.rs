//! Vertex interning, graph accumulation, and k-core decomposition.
//!
//! `GraphBuilder` interns opaque string keys into dense 0-based vertex
//! ids in first-seen order, accumulates an undirected adjacency list
//! (multi-edges and self-loops kept with multiplicity), and merges labels
//! under the priority-marker rule. `build` freezes the accumulated state
//! into an immutable `Graph`, whose `compute_k_core` peels vertices with
//! a degree-indexed bucket queue to assign every vertex its coreness.

use vstd::prelude::*;

use crate::counting::count_occ;
use crate::counting::lemma_count_occ_push;
use crate::counting::lemma_count_occ_zero_of_bound;
use crate::text::contains_marker;
use crate::text::has_marker;
use crate::text::str_eq;

verus! {

broadcast use vstd::std_specs::vec::axiom_spec_len;

/// Mathematical model of the accumulating builder: adjacency rows,
/// interned keys in id order, and per-vertex labels.
#[verifier::ext_equal]
pub struct BuilderModel {
    pub adj: Seq<Seq<usize>>,
    pub nodes: Seq<Seq<char>>,
    pub labels: Seq<Seq<char>>,
}

/// The label that a vertex keeps when `label` arrives for it: the stored
/// one, unless the newcomer carries the priority marker and the stored
/// one does not.
pub open spec fn merged_label(stored: Seq<char>, label: Seq<char>) -> Seq<char> {
    if has_marker(label) && !has_marker(stored) {
        label
    } else {
        stored
    }
}

impl BuilderModel {
    pub open spec fn n(self) -> int {
        self.nodes.len() as int
    }

    /// Well-formedness: the three columns are aligned, keys are distinct,
    /// adjacency entries are in range, and adjacency is symmetric with
    /// multiplicity.
    pub open spec fn wf(self) -> bool {
        &&& self.adj.len() == self.nodes.len()
        &&& self.labels.len() == self.nodes.len()
        &&& (forall|i: int, j: int| 0 <= i < j < self.n() ==> self.nodes[i] != self.nodes[j])
        &&& (forall|i: int, j: int|
            0 <= i < self.n() && 0 <= j < self.adj[i].len() ==> (self.adj[i][j] as int) < self.n())
        &&& (forall|u: int, v: int|
            0 <= u < self.n() && 0 <= v < self.n() ==> count_occ(self.adj[u], v) == count_occ(
                self.adj[v],
                u,
            ))
    }

    pub open spec fn has_key(self, key: Seq<char>) -> bool {
        exists|i: int| 0 <= i < self.n() && self.nodes[i] == key
    }

    pub open spec fn id_of(self, key: Seq<char>) -> int {
        choose|i: int| 0 <= i < self.n() && self.nodes[i] == key
    }

    /// The id that interning `key` returns: the existing one, or the next
    /// dense id for a first-seen key.
    pub open spec fn intern_id(self, key: Seq<char>) -> int {
        if self.has_key(key) {
            self.id_of(key)
        } else {
            self.n()
        }
    }

    /// State after interning `key` with `label`: an existing vertex only
    /// has its label merged; a new vertex is appended with an empty
    /// adjacency row.
    pub open spec fn intern(self, key: Seq<char>, label: Seq<char>) -> BuilderModel {
        if self.has_key(key) {
            let id = self.id_of(key);
            BuilderModel {
                adj: self.adj,
                nodes: self.nodes,
                labels: self.labels.update(id, merged_label(self.labels[id], label)),
            }
        } else {
            BuilderModel {
                adj: self.adj.push(Seq::empty()),
                nodes: self.nodes.push(key),
                labels: self.labels.push(label),
            }
        }
    }

    /// State after one `(src, dst, label)` triple: both endpoints are
    /// interned against the same label, then each endpoint's id is
    /// appended to the other's adjacency row.
    pub open spec fn add_edge_model(self, u_key: Seq<char>, v_key: Seq<char>, label: Seq<char>)
        -> BuilderModel {
        let u = self.intern_id(u_key);
        let m1 = self.intern(u_key, label);
        let v = m1.intern_id(v_key);
        let m2 = m1.intern(v_key, label);
        let a1 = m2.adj.update(u, m2.adj[u].push(v as usize));
        let a2 = a1.update(v, a1[v].push(u as usize));
        BuilderModel { adj: a2, nodes: m2.nodes, labels: m2.labels }
    }

    /// Degree that the accumulated state gives the key: the length of its
    /// adjacency row, or zero for an unseen key.
    pub open spec fn key_degree(self, key: Seq<char>) -> nat {
        if self.has_key(key) {
            self.adj[self.id_of(key)].len()
        } else {
            0
        }
    }
}

/// Accumulates vertices and edges from a stream of flow-record triples.
///
/// The id of a key is its index in `nodes`; key distinctness is part of
/// the builder's invariant, so the index is a faithful replacement for a
/// hash-map lookup.
pub struct GraphBuilder {
    pub adj: Vec<Vec<usize>>,
    pub nodes: Vec<String>,
    pub labels: Vec<String>,
}

impl View for GraphBuilder {
    type V = BuilderModel;

    open spec fn view(&self) -> BuilderModel {
        BuilderModel {
            adj: self.adj.deep_view(),
            nodes: self.nodes.deep_view(),
            labels: self.labels.deep_view(),
        }
    }
}

impl GraphBuilder {
    /// Creates an empty builder: no vertices, no edges.
    pub fn new() -> (r: GraphBuilder)
        ensures
            r@.wf(),
            r@.n() == 0,
            r@.adj == Seq::<Seq<usize>>::empty(),
            r@.nodes == Seq::<Seq<char>>::empty(),
            r@.labels == Seq::<Seq<char>>::empty(),
    {
        let r = GraphBuilder { adj: Vec::new(), nodes: Vec::new(), labels: Vec::new() };
        proof {
            assert(r@.adj =~= Seq::<Seq<usize>>::empty());
            assert(r@.nodes =~= Seq::<Seq<char>>::empty());
            assert(r@.labels =~= Seq::<Seq<char>>::empty());
        }
        r
    }

    /// Linear lookup of `key` among the interned keys; the index of a
    /// key is its vertex id.
    #[verifier::loop_isolation(false)]
    fn find_key(&self, key: &str) -> (r: Option<usize>)
        ensures
            match r {
                Some(i) => i < self@.n() && self@.nodes[i as int] == key@,
                None => !self@.has_key(key@),
            },
    {
        let n = self.nodes.len();
        let mut i: usize = 0;
        while i < n
            invariant
                0 <= i <= n,
                forall|j: int| 0 <= j < i ==> self@.nodes[j] != key@,
            decreases n - i,
        {
            if str_eq(self.nodes[i].as_str(), key) {
                return Some(i);
            }
            i += 1;
        }
        None
    }

    /// Interns `key`, merging `label` under the priority rule, and
    /// returns the vertex id: the existing dense id for a seen key, the
    /// next one for a first-seen key.
    pub fn get_id(&mut self, key: &str, label: &str) -> (id: usize)
        requires
            old(self)@.wf(),
        ensures
            final(self)@ == old(self)@.intern(key@, label@),
            final(self)@.wf(),
            id as int == old(self)@.intern_id(key@),
            id < final(self)@.n(),
    {
        match self.find_key(key) {
            Some(i) => {
                proof {
                    assert(self@.has_key(key@));
                    let w = self@.id_of(key@);
                    assert(0 <= w < self@.n() && self@.nodes[w] == key@);
                    if w < i {
                        assert(self@.nodes[w] != self@.nodes[i as int]);
                    }
                    if (i as int) < w {
                        assert(self@.nodes[i as int] != self@.nodes[w]);
                    }
                    assert(w == i as int);
                }
                let ghost prior = self@;
                if contains_marker(label) && !contains_marker(self.labels[i].as_str()) {
                    let stored = label.to_owned();
                    self.labels.set(i, stored);
                }
                proof {
                    assert(self@.labels =~~= prior.labels.update(
                        i as int,
                        merged_label(prior.labels[i as int], label@),
                    ));
                    assert(self@ =~~= prior.intern(key@, label@));
                    lemma_intern_wf(prior, key@, label@);
                }
                i
            },
            None => {
                let ghost prior = self@;
                let n = self.nodes.len();
                let owned_key = key.to_owned();
                let owned_label = label.to_owned();
                self.nodes.push(owned_key);
                self.labels.push(owned_label);
                self.adj.push(Vec::new());
                proof {
                    assert(self@.nodes =~~= prior.nodes.push(key@));
                    assert(self@.labels =~~= prior.labels.push(label@));
                    assert(self@.adj =~~= prior.adj.push(Seq::<usize>::empty()));
                    assert(self@ =~~= prior.intern(key@, label@));
                    lemma_intern_wf(prior, key@, label@);
                }
                n
            },
        }
    }

    /// Records one undirected edge: interns both endpoints against the
    /// same label, then appends each endpoint's id to the other's
    /// adjacency row. Multi-edges and self-loops are kept, not
    /// deduplicated.
    pub fn add_edge(&mut self, u_key: &str, v_key: &str, label: &str)
        requires
            old(self)@.wf(),
        ensures
            final(self)@ == old(self)@.add_edge_model(u_key@, v_key@, label@),
            final(self)@.wf(),
    {
        let ghost m0 = self@;
        let u = self.get_id(u_key, label);
        let ghost m1 = self@;
        let v = self.get_id(v_key, label);
        let ghost m2 = self@;
        let row_u = &mut self.adj[u];
        row_u.push(v);
        proof {
            assert(self@.adj =~~= m2.adj.update(u as int, m2.adj[u as int].push(v)));
            assert(self@.nodes =~~= m2.nodes);
            assert(self@.labels =~~= m2.labels);
        }
        let ghost mid = self@;
        let row_v = &mut self.adj[v];
        row_v.push(u);
        // The vertex count is a real vector length, so it fits usize;
        // reading it here lets the invariant lemma see that bound.
        let n_now = self.nodes.len();
        proof {
            assert(self.nodes@.len() == n_now);
            assert(self@.adj =~~= mid.adj.update(v as int, mid.adj[v as int].push(u)));
            assert(self@.nodes =~~= mid.nodes);
            assert(self@.labels =~~= mid.labels);
            assert(self@ =~~= m0.add_edge_model(u_key@, v_key@, label@));
            assert(m2 == m0.intern(u_key@, label@).intern(v_key@, label@));
            lemma_add_edge_wf(m0, u_key@, v_key@, label@);
        }
    }
}

/// The finished, immutable contact graph: adjacency lists, their
/// lengths as degrees, and the per-vertex keys and labels.
pub struct Graph {
    pub n: usize,
    pub adj: Vec<Vec<usize>>,
    pub degrees: Vec<usize>,
    pub nodes: Vec<String>,
    pub labels: Vec<String>,
}

impl Graph {
    /// The adjacency structure as a sequence of rows of vertex ids.
    pub open spec fn adjs(self) -> Seq<Seq<usize>> {
        self.adj.deep_view()
    }

    /// Well-formedness: columns aligned with `n`, degrees equal to row
    /// lengths, entries in range, and adjacency symmetric with
    /// multiplicity.
    pub open spec fn wf(self) -> bool {
        &&& self.n == self.nodes@.len()
        &&& self.adjs().len() == self.n
        &&& self.degrees@.len() == self.n
        &&& self.labels@.len() == self.n
        &&& (forall|v: int| 0 <= v < self.n ==> self.degrees@[v] == self.adjs()[v].len())
        &&& (forall|v: int, j: int|
            0 <= v < self.n && 0 <= j < self.adjs()[v].len() ==> (self.adjs()[v][j] as int)
                < self.n)
        &&& (forall|u: int, v: int|
            0 <= u < self.n && 0 <= v < self.n ==> count_occ(self.adjs()[u], v) == count_occ(
                self.adjs()[v],
                u,
            ))
    }
}

impl GraphBuilder {
    /// Freezes the accumulated state into an immutable `Graph`,
    /// computing each vertex's degree as the length of its adjacency
    /// row. The builder is consumed: accumulation cannot resume.
    #[verifier::loop_isolation(false)]
    pub fn build(self) -> (g: Graph)
        requires
            self@.wf(),
        ensures
            g.wf(),
            g.n == self@.n(),
            g.adjs() == self@.adj,
            g.nodes.deep_view() == self@.nodes,
            g.labels.deep_view() == self@.labels,
            forall|v: int| 0 <= v < g.n ==> g.degrees@[v] == self@.adj[v].len(),
    {
        let n = self.nodes.len();
        let mut degrees: Vec<usize> = Vec::new();
        let mut i: usize = 0;
        while i < n
            invariant
                0 <= i <= n,
                degrees@.len() == i,
                forall|j: int| 0 <= j < i ==> degrees@[j] == self@.adj[j].len(),
            decreases n - i,
        {
            degrees.push(self.adj[i].len());
            i += 1;
        }
        Graph { n, adj: self.adj, degrees, nodes: self.nodes, labels: self.labels }
    }
}

/// Interning preserves the builder invariant.
pub proof fn lemma_intern_wf(m: BuilderModel, key: Seq<char>, label: Seq<char>)
    requires
        m.wf(),
    ensures
        m.intern(key, label).wf(),
        m.intern(key, label).n() == m.n() + (if m.has_key(key) {
            0int
        } else {
            1int
        }),
{
    let m1 = m.intern(key, label);
    if m.has_key(key) {
    } else {
        let n = m.n();
        assert forall|u: int, v: int|
            0 <= u < m1.n() && 0 <= v < m1.n() implies count_occ(m1.adj[u], v) == count_occ(
            m1.adj[v],
            u,
        ) by {
            if u < n && v < n {
                assert(m1.adj[u] == m.adj[u]);
                assert(m1.adj[v] == m.adj[v]);
            } else {
                if u == n {
                    assert(count_occ(m1.adj[u], v) == 0);
                } else {
                    lemma_count_occ_zero_of_bound(m.adj[u], n, v);
                }
                if v == n {
                    assert(count_occ(m1.adj[v], u) == 0);
                } else {
                    lemma_count_occ_zero_of_bound(m.adj[v], n, u);
                }
            }
        }
    }
}

/// Interning one key does not move the ids of keys already present, and
/// afterwards the key is present under its returned id.
pub proof fn lemma_intern_id_stable(m: BuilderModel, key: Seq<char>, label: Seq<char>)
    requires
        m.wf(),
    ensures
        m.intern(key, label).has_key(key),
        m.intern(key, label).id_of(key) == m.intern_id(key),
{
    let m1 = m.intern(key, label);
    if m.has_key(key) {
        assert(m1.nodes == m.nodes);
    } else {
        let n = m.n();
        assert(m1.nodes[n] == key);
        assert(m1.has_key(key));
        let w = m1.id_of(key);
        assert(0 <= w < m1.n() && m1.nodes[w] == key);
        if w < n {
            assert(m.nodes[w] == key);
            assert(m.has_key(key));
        }
        assert(w == n);
    }
}

/// Re-registering the same key is idempotent for identity: interning a
/// key a second time returns the same id and adds no vertex, whatever
/// labels the two calls carry.
pub proof fn lemma_intern_idempotent(
    m: BuilderModel,
    key: Seq<char>,
    l1: Seq<char>,
    l2: Seq<char>,
)
    requires
        m.wf(),
    ensures
        m.intern(key, l1).intern_id(key) == m.intern_id(key),
        m.intern(key, l1).intern(key, l2).nodes == m.intern(key, l1).nodes,
        m.intern(key, l1).intern(key, l2).n() == m.intern(key, l1).n(),
{
    lemma_intern_id_stable(m, key, l1);
    let m1 = m.intern(key, l1);
    assert(m1.has_key(key));
}

/// Label overwrite is monotone: once a vertex's label contains the
/// priority marker, no later edge changes it.
pub proof fn lemma_label_marker_monotone(
    m: BuilderModel,
    u_key: Seq<char>,
    v_key: Seq<char>,
    label: Seq<char>,
    i: int,
)
    requires
        m.wf(),
        0 <= i < m.n(),
        has_marker(m.labels[i]),
    ensures
        m.add_edge_model(u_key, v_key, label).labels[i] == m.labels[i],
{
    let m1 = m.intern(u_key, label);
    assert(m1.labels[i] == m.labels[i]);
    let m2 = m1.intern(v_key, label);
    assert(m2.labels[i] == m1.labels[i]);
}

/// Adding an edge between two distinct keys increases each endpoint's
/// degree by exactly one, whether or not the pair was already
/// connected; an unseen endpoint starts from degree zero.
pub proof fn lemma_add_edge_degree(
    m: BuilderModel,
    u_key: Seq<char>,
    v_key: Seq<char>,
    label: Seq<char>,
)
    requires
        m.wf(),
        u_key != v_key,
        m.intern(u_key, label).intern(v_key, label).n() <= usize::MAX,
    ensures
        m.add_edge_model(u_key, v_key, label).key_degree(u_key) == m.key_degree(u_key) + 1,
        m.add_edge_model(u_key, v_key, label).key_degree(v_key) == m.key_degree(v_key) + 1,
{
    let u = m.intern_id(u_key);
    let m1 = m.intern(u_key, label);
    let v = m1.intern_id(v_key);
    let m2 = m1.intern(v_key, label);
    lemma_intern_wf(m, u_key, label);
    lemma_intern_wf(m1, v_key, label);
    lemma_intern_id_stable(m, u_key, label);
    lemma_intern_id_stable(m1, v_key, label);
    let mf = m.add_edge_model(u_key, v_key, label);
    assert(m1.nodes[u] == u_key);
    assert(m2.nodes[v] == v_key);
    assert(m2.nodes[u] == u_key);
    assert(u != v);
    assert(mf.has_key(u_key) && mf.id_of(u_key) == u) by {
        assert(mf.nodes == m2.nodes);
        let w = mf.id_of(u_key);
        assert(0 <= w < mf.n() && mf.nodes[w] == u_key);
        if w < u {
            assert(m2.nodes[w] != m2.nodes[u]);
        }
        if u < w {
            assert(m2.nodes[u] != m2.nodes[w]);
        }
    }
    assert(mf.has_key(v_key) && mf.id_of(v_key) == v) by {
        let w = mf.id_of(v_key);
        assert(0 <= w < mf.n() && mf.nodes[w] == v_key);
        if w < v {
            assert(m2.nodes[w] != m2.nodes[v]);
        }
        if v < w {
            assert(m2.nodes[v] != m2.nodes[w]);
        }
    }
    assert(mf.adj[u].len() == m2.adj[u].len() + 1);
    assert(mf.adj[v].len() == m2.adj[v].len() + 1);
    assert(m2.adj[u].len() == m.key_degree(u_key)) by {
        if m.has_key(u_key) {
            assert(m1.adj == m.adj);
        }
    }
    assert(m2.adj[v].len() == m.key_degree(v_key)) by {
        if m1.has_key(v_key) {
            assert(m2.adj == m1.adj);
            let w = m1.id_of(v_key);
            assert(0 <= w < m1.n() && m1.nodes[w] == v_key);
            assert(v == w);
            if w < m.n() {
                assert(m.nodes[w] == v_key);
                assert(m.has_key(v_key));
                let w0 = m.id_of(v_key);
                assert(m.nodes[w0] == v_key);
                if w0 < w {
                    assert(m.nodes[w0] != m.nodes[w]);
                }
                if w < w0 {
                    assert(m.nodes[w] != m.nodes[w0]);
                }
                assert(w0 == w);
                assert(m1.adj[w] == m.adj[w]);
            } else {
                assert(!m.has_key(u_key));
                assert(w == m.n());
                assert(m1.nodes[w] == u_key);
                assert(false);
            }
        } else {
            assert(v == m1.n());
            assert(m2.adj[v].len() == 0);
            if m.has_key(v_key) {
                let w0 = m.id_of(v_key);
                assert(m.nodes[w0] == v_key);
                assert(m1.nodes[w0] == v_key);
                assert(m1.has_key(v_key));
            }
            assert(m.key_degree(v_key) == 0);
        }
    }
}

/// Adding an edge preserves the builder invariant.
pub proof fn lemma_add_edge_wf(
    m: BuilderModel,
    u_key: Seq<char>,
    v_key: Seq<char>,
    label: Seq<char>,
)
    requires
        m.wf(),
        m.intern(u_key, label).intern(v_key, label).n() <= usize::MAX,
    ensures
        m.add_edge_model(u_key, v_key, label).wf(),
{
    let u = m.intern_id(u_key);
    let m1 = m.intern(u_key, label);
    let v = m1.intern_id(v_key);
    let m2 = m1.intern(v_key, label);
    lemma_intern_wf(m, u_key, label);
    lemma_intern_wf(m1, v_key, label);
    let n2 = m2.n();
    assert(0 <= u < n2);
    assert(0 <= v < n2);
    let uz = u as usize;
    let vz = v as usize;
    assert(uz as int == u && vz as int == v);
    let a1 = m2.adj.update(u, m2.adj[u].push(vz));
    let a2 = a1.update(v, a1[v].push(uz));
    let mf = m.add_edge_model(u_key, v_key, label);
    assert(mf.adj == a2);
    assert forall|p: int, q: int|
        0 <= p < n2 && 0 <= q < n2 implies count_occ(a2[p], q) == count_occ(a2[q], p) by {
        lemma_count_occ_push(m2.adj[u], vz, q);
        lemma_count_occ_push(m2.adj[v], uz, q);
        lemma_count_occ_push(a1[v], uz, q);
        lemma_count_occ_push(m2.adj[u], vz, p);
        lemma_count_occ_push(m2.adj[v], uz, p);
        lemma_count_occ_push(a1[v], uz, p);
        assert(count_occ(m2.adj[p], q) == count_occ(m2.adj[q], p));
    }
}

} // verus!
