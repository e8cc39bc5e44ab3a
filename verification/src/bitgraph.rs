//! A packed adjacency-matrix graph.
//!
//! `Bitgraph` stores a directed graph on `n` vertices as an `n * n` bit
//! matrix (bit `u * n + v` set iff there is an edge `u -> v`), together with a
//! per-vertex list of undirected neighbours (vertices adjacent in either
//! direction, self-loops excluded) kept in strictly increasing order.

use vstd::prelude::*;

use fixedbitset::FixedBitSet;

use crate::bits::{bit_capacity, bit_set, bits_clone, bits_contains, bits_insert,
    bits_with_capacity};

verus! {

#[derive(Debug)]
pub struct Bitgraph {
    pub adj: FixedBitSet,
    pub n: usize,
    pub is_dir: bool,
    pub neighbors: Vec<Vec<usize>>,
}

/// A row-major position inside an `n * n` matrix stays below `n * n`.
pub proof fn lemma_grid_index(n: int, u: int, v: int)
    by (nonlinear_arith)
    requires
        0 <= u < n,
        0 <= v < n,
    ensures
        0 <= u * n + v < n * n,
{
}

/// Row-major positions are distinct for distinct coordinate pairs.
pub proof fn lemma_grid_index_injective(n: int, u1: int, v1: int, u2: int, v2: int)
    by (nonlinear_arith)
    requires
        0 <= u1 < n,
        0 <= v1 < n,
        0 <= u2 < n,
        0 <= v2 < n,
        u1 * n + v1 == u2 * n + v2,
    ensures
        u1 == u2,
        v1 == v2,
{
}

/// Positions in rows before `u` stay below the start of row `u`.
pub proof fn lemma_row_lt(n: int, a: int, b: int, u: int)
    by (nonlinear_arith)
    requires
        0 <= a < u,
        0 <= b < n,
    ensures
        0 <= a * n + b < u * n,
{
}

/// There is a directed edge `u -> v` in the matrix `adj` of side `n`.
pub open spec fn adj_edge(adj: FixedBitSet, n: int, u: int, v: int) -> bool {
    bit_set(adj).contains((u * n + v) as usize)
}

/// `u` and `v` are adjacent in some direction in the matrix `adj`.
pub open spec fn adj_undirected_edge(adj: FixedBitSet, n: int, u: int, v: int) -> bool {
    adj_edge(adj, n, u, v) || adj_edge(adj, n, v, u)
}

/// `lst` is strictly increasing and holds exactly the vertices distinct from
/// `u` that are adjacent to `u` in either direction in the matrix `adj`.
pub open spec fn neighbor_list_ok(adj: FixedBitSet, n: int, u: int, lst: Seq<usize>) -> bool {
    &&& forall|a: int, b: int| 0 <= a < b < lst.len() ==> lst[a] < lst[b]
    &&& forall|k: int| 0 <= k < lst.len() ==> (#[trigger] lst[k]) < n && lst[k] != u
    &&& forall|v: int|
        0 <= v < n && v != u ==> (lst.contains(v as usize) <==> adj_undirected_edge(adj, n, u, v))
}

impl Bitgraph {
    /// There is a directed edge `u -> v`.
    pub open spec fn edge(self, u: int, v: int) -> bool {
        adj_edge(self.adj, self.n as int, u, v)
    }

    /// `u` and `v` are adjacent in some direction.
    pub open spec fn undirected_edge(self, u: int, v: int) -> bool {
        self.edge(u, v) || self.edge(v, u)
    }

    /// The neighbour list of `u` is strictly increasing and holds exactly the
    /// vertices distinct from `u` that are adjacent to `u` in either
    /// direction.
    pub open spec fn neighbor_list_wf(self, u: int) -> bool {
        neighbor_list_ok(self.adj, self.n as int, u, self.neighbors@[u]@)
    }

    pub open spec fn wf(self) -> bool {
        &&& self.n * self.n <= usize::MAX
        &&& bit_capacity(self.adj) == self.n * self.n
        &&& forall|x: usize| bit_set(self.adj).contains(x) ==> x < self.n * self.n
        &&& self.neighbors@.len() == self.n
        &&& forall|u: int| 0 <= u < self.n ==> self.neighbor_list_wf(u)
    }

    /// Builds the graph of `n` vertices holding exactly the given edges.
    /// Parallel edges collapse; endpoints must be below `n`.
    pub fn from_edges(n: usize, is_dir: bool, edges: &Vec<(usize, usize)>) -> (r: Bitgraph)
        requires
            n * n <= usize::MAX,
            forall|k: int|
                0 <= k < edges@.len() ==> (#[trigger] edges@[k]).0 < n && edges@[k].1 < n,
        ensures
            r.wf(),
            r.n == n,
            r.is_dir == is_dir,
            forall|u: int, v: int|
                0 <= u < n && 0 <= v < n ==> (#[trigger] r.edge(u, v) <==> edges@.contains(
                    (u as usize, v as usize),
                )),
    {
        let mut adj = bits_with_capacity(n * n);
        let mut k: usize = 0;
        while k < edges.len()
            invariant
                n * n <= usize::MAX,
                forall|j: int|
                    0 <= j < edges@.len() ==> (#[trigger] edges@[j]).0 < n && edges@[j].1 < n,
                k <= edges@.len(),
                bit_capacity(adj) == n * n,
                forall|x: usize| bit_set(adj).contains(x) ==> x < n * n,
                forall|u: int, v: int|
                    0 <= u < n && 0 <= v < n ==> (#[trigger] adj_edge(adj, n as int, u, v)
                        <==> edges@.subrange(0, k as int).contains((u as usize, v as usize))),
            decreases edges@.len() - k,
        {
            let (u, v) = edges[k];
            proof {
                lemma_grid_index(n as int, u as int, v as int);
            }
            let idx = u * n + v;
            let ghost old_adj = adj;
            bits_insert(&mut adj, idx);
            proof {
                let pre = edges@.subrange(0, k as int);
                let post = edges@.subrange(0, k + 1);
                assert(post.drop_last() =~= pre);
                assert(post.last() == (u, v));
                assert(bit_set(adj) == bit_set(old_adj).insert(idx));
                assert forall|a: int, b: int|
                    0 <= a < n && 0 <= b < n implies (#[trigger] adj_edge(adj, n as int, a, b)
                    <==> post.contains((a as usize, b as usize))) by {
                    lemma_grid_index(n as int, a as int, b as int);
                    assert(adj_edge(old_adj, n as int, a, b) <==> pre.contains(
                        (a as usize, b as usize),
                    ));
                    if adj_edge(adj, n as int, a, b) {
                        if a * n + b == u as int * n + v as int {
                            lemma_grid_index_injective(
                                n as int, a, b, u as int, v as int,
                            );
                            assert(post[post.len() - 1] == (a as usize, b as usize));
                        } else {
                            assert(pre.contains((a as usize, b as usize)) ==> post.contains(
                                (a as usize, b as usize),
                            )) by {
                                if pre.contains((a as usize, b as usize)) {
                                    let j = choose|j: int|
                                        0 <= j < pre.len() && pre[j] == (a as usize, b as usize);
                                    assert(post[j] == (a as usize, b as usize));
                                }
                            }
                        }
                    } else {
                        if post.contains((a as usize, b as usize)) {
                            let j = choose|j: int|
                                0 <= j < post.len() && post[j] == (a as usize, b as usize);
                            if j < k {
                                assert(pre[j] == (a as usize, b as usize));
                            }
                        }
                    }
                }
            }
            k += 1;
        }
        proof {
            assert(edges@.subrange(0, edges@.len() as int) =~= edges@);
        }
        let neighbors = Self::build_neighbor_lists(n, &adj);
        Bitgraph { adj, n, is_dir, neighbors }
    }

    /// Builds, for every vertex, the strictly increasing list of vertices
    /// adjacent to it in either direction (self-loops excluded).
    fn build_neighbor_lists(n: usize, adj: &FixedBitSet) -> (r: Vec<Vec<usize>>)
        requires
            n * n <= usize::MAX,
            bit_capacity(*adj) == n * n,
        ensures
            r@.len() == n,
            forall|u: int| 0 <= u < n ==> neighbor_list_ok(*adj, n as int, u, r@[u]@),
    {
        let mut neighbors: Vec<Vec<usize>> = Vec::new();
        let mut u: usize = 0;
        while u < n
            invariant
                n * n <= usize::MAX,
                bit_capacity(*adj) == n * n,
                u <= n,
                neighbors@.len() == u,
                forall|w: int| 0 <= w < u ==> neighbor_list_ok(*adj, n as int, w, neighbors@[w]@),
            decreases n - u,
        {
            let mut lst: Vec<usize> = Vec::new();
            let mut v: usize = 0;
            while v < n
                invariant
                    n * n <= usize::MAX,
                    bit_capacity(*adj) == n * n,
                    u < n,
                    v <= n,
                    forall|a: int, b: int| 0 <= a < b < lst@.len() ==> lst@[a] < lst@[b],
                    forall|k: int|
                        0 <= k < lst@.len() ==> (#[trigger] lst@[k]) < v && lst@[k] != u,
                    forall|w: int|
                        0 <= w < v && w != u ==> (lst@.contains(w as usize)
                            <==> adj_undirected_edge(*adj, n as int, u as int, w)),
                decreases n - v,
            {
                if v != u {
                    proof {
                        lemma_grid_index(n as int, u as int, v as int);
                        lemma_grid_index(n as int, v as int, u as int);
                    }
                    let fwd = bits_contains(adj, u * n + v);
                    let bwd = bits_contains(adj, v * n + u);
                    if fwd || bwd {
                        let ghost pre_lst = lst@;
                        lst.push(v);
                        proof {
                            assert(lst@ == pre_lst.push(v));
                            assert forall|w: int|
                                0 <= w < v + 1 && w != u implies (lst@.contains(w as usize)
                                <==> adj_undirected_edge(*adj, n as int, u as int, w)) by {
                                if w < v {
                                    assert(pre_lst.contains(w as usize) <==> adj_undirected_edge(
                                        *adj, n as int, u as int, w,
                                    ));
                                    if adj_undirected_edge(*adj, n as int, u as int, w) {
                                        let j = choose|j: int|
                                            0 <= j < pre_lst.len() && pre_lst[j] == w as usize;
                                        assert(lst@[j] == w as usize);
                                    }
                                } else {
                                    assert(lst@[lst@.len() - 1] == v);
                                }
                            }
                        }
                    } else {
                        proof {
                            assert forall|w: int|
                                0 <= w < v + 1 && w != u implies (lst@.contains(w as usize)
                                <==> adj_undirected_edge(*adj, n as int, u as int, w)) by {}
                        }
                    }
                }
                v += 1;
            }
            neighbors.push(lst);
            proof {
                assert(neighbors@[u as int]@ == lst@);
                assert forall|w: int|
                    0 <= w < u + 1 implies neighbor_list_ok(*adj, n as int, w, neighbors@[w]@)
                    by {
                    if w < u {
                        assert(neighbors@[w] == neighbors@.drop_last()[w]);
                    }
                }
            }
            u += 1;
        }
        neighbors
    }

    /// There is a directed edge `u -> v`.
    pub fn is_connected(&self, u: usize, v: usize) -> (r: bool)
        requires
            self.wf(),
            u < self.n,
            v < self.n,
        ensures
            r == self.edge(u as int, v as int),
    {
        proof {
            lemma_grid_index(self.n as int, u as int, v as int);
        }
        bits_contains(&self.adj, u * self.n + v)
    }

    pub fn n_nodes(&self) -> (r: usize)
        ensures
            r == self.n,
    {
        self.n
    }

    pub fn is_dir(&self) -> (r: bool)
        ensures
            r == self.is_dir,
    {
        self.is_dir
    }

    pub fn adjacency(&self) -> (r: &FixedBitSet)
        ensures
            r == &self.adj,
    {
        &self.adj
    }

    /// Replaces the adjacency matrix and recomputes the neighbour lists.
    pub fn overwrite_adjacency(&mut self, adj: &FixedBitSet)
        requires
            old(self).wf(),
            bit_capacity(*adj) == old(self).n * old(self).n,
            forall|x: usize| bit_set(*adj).contains(x) ==> x < old(self).n * old(self).n,
        ensures
            final(self).wf(),
            final(self).n == old(self).n,
            final(self).is_dir == old(self).is_dir,
            bit_set(final(self).adj) == bit_set(*adj),
    {
        let n = self.n;
        self.adj = bits_clone(adj);
        self.neighbors = Self::build_neighbor_lists(n, &self.adj);
    }

    /// The undirected neighbour list of `u`.
    pub fn neighbors(&self, u: usize) -> (r: &Vec<usize>)
        requires
            self.wf(),
            u < self.n,
        ensures
            r == &self.neighbors@[u as int],
    {
        &self.neighbors[u]
    }

    /// The adjacency matrix flattened to a row-major vector of `0`/`1`.
    pub fn as_bitvec(&self) -> (r: Vec<usize>)
        requires
            self.wf(),
        ensures
            r@.len() == self.n * self.n,
            forall|u: int, v: int|
                0 <= u < self.n && 0 <= v < self.n ==> r@[u * self.n + v] == (if self.edge(u, v) {
                    1usize
                } else {
                    0usize
                }),
            forall|k: int| 0 <= k < r@.len() ==> (#[trigger] r@[k]) <= 1,
    {
        let n = self.n;
        let mut bitvec: Vec<usize> = Vec::new();
        let mut u: usize = 0;
        while u < n
            invariant
                self.wf(),
                n == self.n,
                u <= n,
                bitvec@.len() == u * n,
                forall|a: int, b: int|
                    0 <= a < u && 0 <= b < n ==> bitvec@[a * n + b] == (if self.edge(a, b) {
                        1usize
                    } else {
                        0usize
                    }),
                forall|k: int| 0 <= k < bitvec@.len() ==> (#[trigger] bitvec@[k]) <= 1,
            decreases n - u,
        {
            let mut v: usize = 0;
            while v < n
                invariant
                    self.wf(),
                    n == self.n,
                    u < n,
                    v <= n,
                    bitvec@.len() == u * n + v,
                    forall|a: int, b: int|
                        0 <= a < u && 0 <= b < n ==> bitvec@[a * n + b] == (if self.edge(a, b) {
                            1usize
                        } else {
                            0usize
                        }),
                    forall|b: int|
                        0 <= b < v ==> bitvec@[u * n + b] == (if self.edge(u as int, b) {
                            1usize
                        } else {
                            0usize
                        }),
                    forall|k: int| 0 <= k < bitvec@.len() ==> (#[trigger] bitvec@[k]) <= 1,
                decreases n - v,
            {
                proof {
                    lemma_grid_index(n as int, u as int, v as int);
                }
                if self.is_connected(u, v) {
                    bitvec.push(1);
                } else {
                    bitvec.push(0);
                }
                proof {
                    assert forall|a: int, b: int| 0 <= a < u && 0 <= b < n implies bitvec@[a * n
                        + b] == (if self.edge(a, b) {
                        1usize
                    } else {
                        0usize
                    }) by {
                        lemma_row_lt(n as int, a, b, u as int);
                    }
                }
                v += 1;
            }
            proof {
                assert(u * n + n == (u + 1) * n) by (nonlinear_arith);
                assert forall|a: int, b: int|
                    0 <= a < u + 1 && 0 <= b < n implies bitvec@[a * n + b] == (if self.edge(
                    a,
                    b,
                ) {
                    1usize
                } else {
                    0usize
                }) by {
                    lemma_grid_index(n as int, a, b);
                    if a < u {
                        lemma_row_lt(n as int, a, b, u as int);
                    }
                }
            }
            u += 1;
        }
        proof {
            assert(bitvec@.len() == n * n);
        }
        bitvec
    }
}


/// In a strictly increasing list, the entry at `i` is at least `i`.
pub proof fn lemma_sorted_strict_ge(lst: Seq<usize>, i: int)
    requires
        forall|a: int, b: int| 0 <= a < b < lst.len() ==> lst[a] < lst[b],
        0 <= i < lst.len(),
    ensures
        lst[i] >= i,
    decreases i,
{
    if i > 0 {
        lemma_sorted_strict_ge(lst, i - 1);
    }
}

impl Bitgraph {
    /// A well-formed graph's vertex count leaves room above every vertex id.
    pub proof fn lemma_n_lt_max(self)
        requires
            self.wf(),
        ensures
            self.n < usize::MAX,
    {
        if self.n >= 2 {
            assert(2 * self.n <= self.n * self.n) by (nonlinear_arith)
                requires self.n >= 2;
        }
    }

    /// No vertex has more undirected neighbours than there are vertices.
    pub proof fn lemma_neighbor_len_le(self, u: int)
        requires
            self.wf(),
            0 <= u < self.n,
        ensures
            self.neighbors@[u]@.len() <= self.n,
    {
        assert(self.neighbor_list_wf(u));
        let lst = self.neighbors@[u]@;
        if lst.len() > self.n {
            lemma_sorted_strict_ge(lst, self.n as int);
        }
    }
}


impl Bitgraph {
    /// No vertex has an edge to itself.
    pub open spec fn spec_diag_free(self) -> bool {
        forall|u: int| 0 <= u < self.n ==> !self.edge(u, u)
    }

    /// `k` is adjacent, in some direction, to an earlier vertex.
    pub open spec fn connects_earlier(self, k: int) -> bool {
        exists|j: int| 0 <= j < k && self.undirected_edge(j, k)
    }

    /// Every vertex after the first is adjacent, in some direction, to an
    /// earlier vertex; patterns in this order always give the matcher a
    /// connected prefix to pivot on.
    pub open spec fn spec_prefix_connected(self) -> bool {
        forall|k: int| 1 <= k < self.n ==> #[trigger] self.connects_earlier(k)
    }

    /// Checks that the graph has no self-loops.
    pub fn is_diag_free(&self) -> (r: bool)
        requires
            self.wf(),
        ensures
            r == self.spec_diag_free(),
    {
        let n = self.n;
        let mut u: usize = 0;
        while u < n
            invariant
                self.wf(),
                n == self.n,
                u <= n,
                forall|t: int| 0 <= t < u ==> !self.edge(t, t),
            decreases n - u,
        {
            if self.is_connected(u, u) {
                return false;
            }
            u += 1;
        }
        true
    }

    /// Checks that every vertex after the first connects to some earlier
    /// vertex.
    pub fn is_prefix_connected(&self) -> (r: bool)
        requires
            self.wf(),
        ensures
            r == self.spec_prefix_connected(),
    {
        let n = self.n;
        let mut k: usize = 1;
        while k < n
            invariant
                self.wf(),
                n == self.n,
                1 <= k,
                forall|t: int| 1 <= t < k ==> #[trigger] self.connects_earlier(t),
            decreases n - k,
        {
            let mut j: usize = 0;
            let mut found = false;
            while j < k
                invariant
                    self.wf(),
                    n == self.n,
                    1 <= k < n,
                    j <= k,
                    found ==> self.connects_earlier(k as int),
                    !found ==> forall|t: int| 0 <= t < j ==> !self.undirected_edge(t, k as int),
                decreases k - j,
            {
                if self.is_connected(j, k) || self.is_connected(k, j) {
                    proof {
                        assert(self.undirected_edge(j as int, k as int));
                        assert(self.connects_earlier(k as int));
                    }
                    found = true;
                }
                j += 1;
            }
            if !found {
                proof {
                    assert(!self.connects_earlier(k as int)) by {
                        if self.connects_earlier(k as int) {
                            let t = choose|t: int|
                                0 <= t < k && self.undirected_edge(t, k as int);
                            assert(!self.undirected_edge(t, k as int));
                        }
                    }
                }
                return false;
            }
            k += 1;
        }
        true
    }
}


#[verifier::external_type_specification]
#[verifier::external_body]
#[verifier::reject_recursive_types(N)]
#[verifier::reject_recursive_types(E)]
#[verifier::reject_recursive_types(Ty)]
#[verifier::reject_recursive_types(Ix)]
pub struct ExGraph<N, E, Ty, Ix>(petgraph::graph::Graph<N, E, Ty, Ix>);

#[verifier::external_type_specification]
#[verifier::external_body]
pub struct ExDirected(petgraph::Directed);

/// The node count and edge list a petgraph graph value holds, in edge-index
/// order.
pub uninterp spec fn petgraph_edge_list_of(
    g: petgraph::graph::Graph<(), (), petgraph::Directed, u32>,
) -> (usize, Seq<(usize, usize)>);

/// Relies on petgraph's `Graph`: `node_count` gives the number of vertices,
/// `edge_indices` enumerates every edge once in index order, and
/// `edge_endpoints` maps each to its endpoints, whose indices lie below the
/// node count.
#[verifier::external_body]
fn petgraph_edge_list(graph: &petgraph::graph::Graph<(), (), petgraph::Directed, u32>) -> (r: (
    usize,
    Vec<(usize, usize)>,
))
    ensures
        r.0 == petgraph_edge_list_of(*graph).0,
        r.1@ == petgraph_edge_list_of(*graph).1,
        forall|k: int| 0 <= k < r.1@.len() ==> (#[trigger] r.1@[k]).0 < r.0 && r.1@[k].1 < r.0,
{
    let n = graph.node_count();
    let mut edges = Vec::with_capacity(graph.edge_count());
    for e in graph.edge_indices() {
        if let Some((s, d)) = graph.edge_endpoints(e) {
            edges.push((s.index(), d.index()));
        }
    }
    (n, edges)
}

impl Bitgraph {
    /// Builds the packed graph of a petgraph directed graph.  Returns
    /// nothing only when the adjacency matrix would not fit in memory.
    pub fn from_graph(graph: &petgraph::graph::Graph<(), (), petgraph::Directed, u32>) -> (r:
        Option<Bitgraph>)
        ensures
            ({
                let (n, es) = petgraph_edge_list_of(*graph);
                if n * n <= usize::MAX {
                    &&& r is Some
                    &&& r.unwrap().wf()
                    &&& r.unwrap().n == n
                    &&& r.unwrap().is_dir
                    &&& forall|u: int, v: int|
                        0 <= u < n && 0 <= v < n ==> (#[trigger] r.unwrap().edge(u, v)
                            <==> es.contains((u as usize, v as usize)))
                } else {
                    r is None
                }
            }),
    {
        let (n, edges) = petgraph_edge_list(graph);
        match n.checked_mul(n) {
            None => None,
            Some(_sq) => {
                let g = Bitgraph::from_edges(n, true, &edges);
                Some(g)
            },
        }
    }
}

} // verus!
