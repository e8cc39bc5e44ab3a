//! One level of the g-trie.
//!
//! A node at depth `d` encodes row `d - 1` of a pattern adjacency matrix as
//! two bit rows: bit `u` of `edge_out` says the vertex at position `u` has an
//! edge towards the vertex at position `d - 1`, and `edge_in` likewise for the
//! reverse direction.  `connections` caches, in increasing order, the
//! positions adjacent to position `d - 1` in either direction; the matcher
//! uses it to pick its pivot.  A node marked `is_graph` is a terminal: the
//! rows accumulated along the path from the root form a complete stored
//! pattern, and `frequency` counts its matches in the host.

use vstd::prelude::*;

use fixedbitset::FixedBitSet;

use crate::bitgraph::Bitgraph;
use crate::bits::{bit_capacity, bit_set, bits_insert, bits_with_capacity};
use crate::symmetry::{Condition, Conditions};

verus! {

pub struct GtrieNode {
    pub children: Vec<GtrieNode>,
    pub depth: usize,
    pub is_dir: bool,
    pub is_graph: bool,
    pub edge_in: FixedBitSet,
    pub edge_out: FixedBitSet,
    pub total_in: usize,
    pub total_out: usize,
    pub total_edges: usize,
    pub frequency: usize,
    pub connections: Vec<usize>,
    pub conditions: Option<Conditions>,
    pub label: Option<String>,
}

impl GtrieNode {
    /// Bit `i` of the outgoing row: position `i` has an edge towards the
    /// newest position.
    pub open spec fn out_bit(self, i: int) -> bool {
        bit_set(self.edge_out).contains(i as usize)
    }

    /// Bit `i` of the incoming row: the newest position has an edge towards
    /// position `i`.
    pub open spec fn in_bit(self, i: int) -> bool {
        bit_set(self.edge_in).contains(i as usize)
    }

    /// Well-formedness of this node alone: rows sized to the depth, no
    /// self-loop bit on the newest position, and `connections` the increasing
    /// list of exactly the positions with a row bit set.  Any node below the
    /// first level must connect to an earlier position, so that the matcher
    /// always finds a pivot.
    pub open spec fn local_wf(self) -> bool {
        &&& bit_capacity(self.edge_in) == self.depth
        &&& bit_capacity(self.edge_out) == self.depth
        &&& forall|x: usize| bit_set(self.edge_in).contains(x) ==> x < self.depth
        &&& forall|x: usize| bit_set(self.edge_out).contains(x) ==> x < self.depth
        &&& self.depth >= 1 ==> !self.out_bit(self.depth - 1) && !self.in_bit(self.depth - 1)
        &&& forall|a: int, b: int|
            0 <= a < b < self.connections@.len() ==> self.connections@[a] < self.connections@[b]
        &&& forall|u: usize|
            #[trigger] self.connections@.contains(u) ==> u + 1 < self.depth && (self.out_bit(
                u as int,
            ) || self.in_bit(u as int))
        &&& forall|u: int|
            0 <= u < self.depth && (#[trigger] self.out_bit(u) || #[trigger] self.in_bit(u))
                ==> self.connections@.contains(u as usize)
        &&& self.depth >= 2 ==> self.connections@.len() > 0
        &&& self.conditions is Some ==> forall|k: int|
            0 <= k < self.conditions.unwrap()@.len() ==> (#[trigger] self.conditions.unwrap()@[
                k]).u < self.conditions.unwrap()@[k].v && self.conditions.unwrap()@[k].v
                < self.depth
    }

    /// Well-formedness of the whole subtree: each child sits one level
    /// deeper and is itself well-formed.
    pub open spec fn wf(self) -> bool
        decreases self,
    {
        &&& self.local_wf()
        &&& forall|i: int|
            0 <= i < self.children@.len() ==> {
                &&& (#[trigger] self.children@[i]).depth == self.depth + 1
                &&& self.children@[i].wf()
            }
    }

    /// The height of the subtree rooted here (a leaf has height 1).
    pub open spec fn height(self) -> nat
        decreases self,
    {
        1 + seq_height(self.children@)
    }

    /// The sum of the frequencies of all terminal nodes in this subtree.
    pub open spec fn sum_freq(self) -> int
        decreases self,
    {
        (if self.is_graph {
            self.frequency as int
        } else {
            0
        }) + seq_sum(self.children@)
    }
}

/// The largest height among the nodes of `s`, or zero for an empty sequence.
pub open spec fn seq_height(s: Seq<GtrieNode>) -> nat
    decreases s,
{
    if s.len() == 0 {
        0
    } else {
        let h = s[0].height();
        let rest = seq_height(s.subrange(1, s.len() as int));
        if h > rest {
            h
        } else {
            rest
        }
    }
}

/// The sum of `sum_freq` over the nodes of `s`.
pub open spec fn seq_sum(s: Seq<GtrieNode>) -> int
    decreases s,
{
    if s.len() == 0 {
        0
    } else {
        s[0].sum_freq() + seq_sum(s.subrange(1, s.len() as int))
    }
}

/// `a` and `b` have identical trees except possibly for the frequency
/// counters of their nodes.
pub open spec fn same_shape(a: GtrieNode, b: GtrieNode) -> bool
    decreases a,
{
    &&& b.depth == a.depth
    &&& b.is_dir == a.is_dir
    &&& b.is_graph == a.is_graph
    &&& b.edge_in == a.edge_in
    &&& b.edge_out == a.edge_out
    &&& b.total_in == a.total_in
    &&& b.total_out == a.total_out
    &&& b.total_edges == a.total_edges
    &&& b.connections == a.connections
    &&& b.conditions == a.conditions
    &&& b.label == a.label
    &&& b.children@.len() == a.children@.len()
    &&& forall|i: int|
        0 <= i < a.children@.len() ==> same_shape(#[trigger] a.children@[i], b.children@[i])
}

/// Every child's subtree is lower than its parent's.
pub proof fn lemma_child_height_lt(n: GtrieNode, i: int)
    requires
        0 <= i < n.children@.len(),
    ensures
        n.children@[i].height() < n.height(),
{
    lemma_seq_height_elem(n.children@, i);
}

/// Every element's height is bounded by the sequence height.
pub proof fn lemma_seq_height_elem(s: Seq<GtrieNode>, i: int)
    requires
        0 <= i < s.len(),
    ensures
        s[i].height() <= seq_height(s),
    decreases s.len(),
{
    if i == 0 {
    } else {
        lemma_seq_height_elem(s.subrange(1, s.len() as int), i - 1);
        assert(s.subrange(1, s.len() as int)[i - 1] == s[i]);
    }
}

/// Shape-equal trees have equal heights.
pub proof fn lemma_same_shape_height(a: GtrieNode, b: GtrieNode)
    requires
        same_shape(a, b),
    ensures
        a.height() == b.height(),
    decreases a,
{
    lemma_same_shape_seq_height(a.children@, b.children@);
}

proof fn lemma_same_shape_seq_height(a: Seq<GtrieNode>, b: Seq<GtrieNode>)
    requires
        a.len() == b.len(),
        forall|i: int| 0 <= i < a.len() ==> same_shape(#[trigger] a[i], b[i]),
    ensures
        seq_height(a) == seq_height(b),
    decreases a,
{
    if a.len() > 0 {
        lemma_same_shape_height(a[0], b[0]);
        let ta = a.subrange(1, a.len() as int);
        let tb = b.subrange(1, b.len() as int);
        assert forall|i: int| 0 <= i < ta.len() implies same_shape(#[trigger] ta[i], tb[i]) by {
            assert(ta[i] == a[i + 1]);
            assert(tb[i] == b[i + 1]);
        }
        lemma_same_shape_seq_height(ta, tb);
    }
}

/// Shape equality is reflexive.
pub proof fn lemma_same_shape_refl(a: GtrieNode)
    ensures
        same_shape(a, a),
    decreases a,
{
    assert forall|i: int| 0 <= i < a.children@.len() implies same_shape(
        #[trigger] a.children@[i],
        a.children@[i],
    ) by {
        lemma_same_shape_refl(a.children@[i]);
    }
}

/// Shape equality composes.
pub proof fn lemma_same_shape_trans(a: GtrieNode, b: GtrieNode, c: GtrieNode)
    requires
        same_shape(a, b),
        same_shape(b, c),
    ensures
        same_shape(a, c),
    decreases a,
{
    assert forall|i: int| 0 <= i < a.children@.len() implies same_shape(
        #[trigger] a.children@[i],
        c.children@[i],
    ) by {
        lemma_same_shape_trans(a.children@[i], b.children@[i], c.children@[i]);
    }
}

/// Frequency sums are never negative.
pub proof fn lemma_sum_freq_nonneg(n: GtrieNode)
    ensures
        n.sum_freq() >= 0,
    decreases n,
{
    lemma_seq_sum_nonneg(n.children@);
}

pub proof fn lemma_seq_sum_nonneg(s: Seq<GtrieNode>)
    ensures
        seq_sum(s) >= 0,
    decreases s,
{
    if s.len() > 0 {
        lemma_sum_freq_nonneg(s[0]);
        lemma_seq_sum_nonneg(s.subrange(1, s.len() as int));
    }
}

/// A child's frequency sum is bounded by its parent's.
pub proof fn lemma_child_sum_le(n: GtrieNode, i: int)
    requires
        0 <= i < n.children@.len(),
    ensures
        n.children@[i].sum_freq() <= n.sum_freq(),
{
    lemma_seq_sum_elem(n.children@, i);
}

pub proof fn lemma_seq_sum_elem(s: Seq<GtrieNode>, i: int)
    requires
        0 <= i < s.len(),
    ensures
        s[i].sum_freq() <= seq_sum(s),
    decreases s.len(),
{
    if i == 0 {
        lemma_seq_sum_nonneg(s.subrange(1, s.len() as int));
    } else {
        lemma_sum_freq_nonneg(s[0]);
        lemma_seq_sum_elem(s.subrange(1, s.len() as int), i - 1);
        assert(s.subrange(1, s.len() as int)[i - 1] == s[i]);
    }
}

/// Replacing the `i`-th node of `s` moves the sequence sum by the difference
/// of the element sums.
pub proof fn lemma_seq_sum_update(s: Seq<GtrieNode>, i: int, x: GtrieNode)
    requires
        0 <= i < s.len(),
    ensures
        seq_sum(s.update(i, x)) == seq_sum(s) - s[i].sum_freq() + x.sum_freq(),
    decreases s.len(),
{
    let t = s.update(i, x);
    if i == 0 {
        assert(t[0] == x);
        assert(t.subrange(1, t.len() as int) =~= s.subrange(1, s.len() as int));
    } else {
        assert(t[0] == s[0]);
        assert(t.subrange(1, t.len() as int) =~= s.subrange(1, s.len() as int).update(i - 1, x));
        lemma_seq_sum_update(s.subrange(1, s.len() as int), i - 1, x);
        assert(s.subrange(1, s.len() as int)[i - 1] == s[i]);
    }
}

/// Appending a node adds its sum.
pub proof fn lemma_seq_sum_push(s: Seq<GtrieNode>, x: GtrieNode)
    ensures
        seq_sum(s.push(x)) == seq_sum(s) + x.sum_freq(),
    decreases s.len(),
{
    let t = s.push(x);
    if s.len() == 0 {
        assert(t[0] == x);
        assert(t.subrange(1, t.len() as int) =~= Seq::<GtrieNode>::empty());
        assert(seq_sum(Seq::<GtrieNode>::empty()) == 0);
    } else {
        assert(t[0] == s[0]);
        assert(t.subrange(1, t.len() as int) =~= s.subrange(1, s.len() as int).push(x));
        lemma_seq_sum_push(s.subrange(1, s.len() as int), x);
    }
}

impl GtrieNode {
    /// A fresh non-terminal node for the given depth: empty rows, no
    /// children, no conditions.
    pub fn new(depth: usize) -> (r: GtrieNode)
        ensures
            r.depth == depth,
            r.children@.len() == 0,
            r.is_dir == false,
            r.is_graph == false,
            r.frequency == 0,
            r.conditions is None,
            r.label is None,
            r.connections@.len() == 0,
            bit_capacity(r.edge_in) == depth,
            bit_set(r.edge_in) == Set::<usize>::empty(),
            bit_capacity(r.edge_out) == depth,
            bit_set(r.edge_out) == Set::<usize>::empty(),
            r.total_in == 0,
            r.total_out == 0,
            r.total_edges == 0,
    {
        GtrieNode {
            children: Vec::new(),
            depth,
            is_dir: false,
            is_graph: false,
            edge_in: bits_with_capacity(depth),
            edge_out: bits_with_capacity(depth),
            total_in: 0,
            total_out: 0,
            total_edges: 0,
            frequency: 0,
            connections: Vec::new(),
            conditions: None,
            label: None,
        }
    }

    /// A fresh node carrying the subset of `conditions` already expressible
    /// at this depth, i.e. those whose larger position lies below it.  If no
    /// condition survives the restriction, none is attached.
    pub fn new_conditional(depth: usize, conditions: &Conditions) -> (r: GtrieNode)
        ensures
            r.depth == depth,
            r.children@.len() == 0,
            r.is_dir == false,
            r.is_graph == false,
            r.frequency == 0,
            r.label is None,
            r.connections@.len() == 0,
            bit_capacity(r.edge_in) == depth,
            bit_set(r.edge_in) == Set::<usize>::empty(),
            bit_capacity(r.edge_out) == depth,
            bit_set(r.edge_out) == Set::<usize>::empty(),
            r.total_in == 0,
            r.total_out == 0,
            r.total_edges == 0,
            ({
                let kept = conditions@.filter(|c: Condition| c.v < depth);
                if kept.len() == 0 {
                    r.conditions is None
                } else {
                    r.conditions is Some && r.conditions.unwrap()@ == kept
                }
            }),
    {
        let cs = conditions.iter();
        let mut kept: Vec<Condition> = Vec::new();
        let mut i: usize = 0;
        while i < cs.len()
            invariant
                i <= cs.len(),
                cs@ == conditions@,
                kept@ == conditions@.subrange(0, i as int).filter(|c: Condition| c.v < depth),
            decreases cs.len() - i,
        {
            let c = cs[i];
            proof {
                reveal(Seq::filter);
                let post = conditions@.subrange(0, i + 1);
                assert(post.drop_last() =~= conditions@.subrange(0, i as int));
                assert(post.last() == c);
            }
            if c.v < depth {
                kept.push(c);
            }
            i += 1;
        }
        proof {
            assert(conditions@.subrange(0, conditions@.len() as int) =~= conditions@);
        }
        let mut node = GtrieNode::new(depth);
        if kept.len() > 0 {
            node.conditions = Some(Conditions::from_vec(kept));
        }
        node
    }

    /// Bit `v` of the incoming row.
    pub fn in_contains(&self, v: usize) -> (r: bool)
        ensures
            r == self.in_bit(v as int),
    {
        crate::bits::bits_contains(&self.edge_in, v)
    }

    /// Bit `v` of the outgoing row.
    pub fn out_contains(&self, v: usize) -> (r: bool)
        ensures
            r == self.out_bit(v as int),
    {
        crate::bits::bits_contains(&self.edge_out, v)
    }

    pub fn insert_child(&mut self, child: GtrieNode)
        ensures
            *final(self) == (GtrieNode {
                children: final(self).children,
                ..*old(self)
            }),
            final(self).children@ == old(self).children@.push(child),
    {
        self.children.push(child);
    }

    pub fn set_graph(&mut self, is_graph: bool)
        ensures
            *final(self) == (GtrieNode { is_graph, ..*old(self) }),
    {
        self.is_graph = is_graph;
    }

    /// Stores the canonical text label of a terminal.
    pub fn set_repr(&mut self, label: Option<String>)
        ensures
            *final(self) == (GtrieNode { label, ..*old(self) }),
    {
        self.label = label;
    }

    /// Read access to the child list.
    pub fn iter_children(&self) -> (r: &Vec<GtrieNode>)
        ensures
            r == &self.children,
    {
        &self.children
    }

    pub fn depth(&self) -> (r: usize)
        ensures
            r == self.depth,
    {
        self.depth
    }

    pub fn is_graph(&self) -> (r: bool)
        ensures
            r == self.is_graph,
    {
        self.is_graph
    }

    pub fn increment_frequency(&mut self)
        requires
            old(self).frequency < usize::MAX,
        ensures
            *final(self) == (GtrieNode {
                frequency: (old(self).frequency + 1) as usize,
                ..*old(self)
            }),
    {
        self.frequency = self.frequency + 1;
    }

    /// Restricts the attached conditions to those shared with `conditions`;
    /// an empty intersection (or an absent argument) clears them.
    pub fn intersect_conditions(&mut self, conditions: Option<&Conditions>)
        ensures
            *final(self) == (GtrieNode {
                conditions: final(self).conditions,
                ..*old(self)
            }),
            old(self).conditions is None ==> final(self).conditions is None,
            conditions is None ==> final(self).conditions is None,
            (old(self).conditions is Some && conditions is Some) ==> ({
                let kept = old(self).conditions.unwrap()@.filter(
                    |c: Condition| conditions.unwrap()@.contains(c),
                );
                if kept.len() == 0 {
                    final(self).conditions is None
                } else {
                    final(self).conditions is Some && final(self).conditions.unwrap()@ == kept
                }
            }),
    {
        match conditions {
            None => {
                self.conditions = None;
            },
            Some(other) => {
                let mut own = self.conditions.take();
                match own {
                    None => {
                        self.conditions = None;
                    },
                    Some(mut c) => {
                        c.retain(other);
                        if c.is_empty() {
                            self.conditions = None;
                        } else {
                            self.conditions = Some(c);
                        }
                    },
                }
            },
        }
    }

    /// The conditions attached to this node, if any.
    pub fn conditions(&self) -> (r: &Option<Conditions>)
        ensures
            r == &self.conditions,
    {
        &self.conditions
    }

    /// The cached positions adjacent to the newest position.
    pub fn active_nodes(&self) -> (r: &Vec<usize>)
        ensures
            r == &self.connections,
    {
        &self.connections
    }
}


/// The number of edges from positions below `j` towards position `k - 1`.
pub open spec fn row_out_count(g: Bitgraph, k: int, j: int) -> int
    decreases j,
{
    if j <= 0 {
        0
    } else {
        row_out_count(g, k, j - 1) + if g.edge(j - 1, k - 1) {
            1int
        } else {
            0int
        }
    }
}

/// The number of edges from position `k - 1` towards positions below `j`.
pub open spec fn row_in_count(g: Bitgraph, k: int, j: int) -> int
    decreases j,
{
    if j <= 0 {
        0
    } else {
        row_in_count(g, k, j - 1) + if g.edge(k - 1, j - 1) {
            1int
        } else {
            0int
        }
    }
}

/// Row counts lie between zero and the number of positions counted.
pub proof fn lemma_row_counts_bounded(g: Bitgraph, k: int, j: int)
    requires
        j >= 0,
    ensures
        0 <= row_out_count(g, k, j) <= j,
        0 <= row_in_count(g, k, j) <= j,
    decreases j,
{
    if j > 0 {
        lemma_row_counts_bounded(g, k, j - 1);
    }
}

impl GtrieNode {
    /// Fills the rows and the connection cache of a fresh node of depth `k`
    /// from row `k - 1` of the pattern `graph`, and accounts the new edges in
    /// the totals.
    pub fn update_adjacency(&mut self, graph: &Bitgraph, k: usize)
        requires
            graph.wf(),
            old(self).depth == k,
            1 <= k <= graph.n,
            !graph.edge(k - 1, k - 1),
            bit_capacity(old(self).edge_in) == k,
            bit_capacity(old(self).edge_out) == k,
            bit_set(old(self).edge_in) == Set::<usize>::empty(),
            bit_set(old(self).edge_out) == Set::<usize>::empty(),
            old(self).connections@.len() == 0,
            old(self).total_in + k <= usize::MAX,
            old(self).total_out + k <= usize::MAX,
            old(self).total_edges + 2 * k <= usize::MAX,
        ensures
            final(self).children == old(self).children,
            final(self).depth == k,
            final(self).is_dir == old(self).is_dir,
            final(self).is_graph == old(self).is_graph,
            final(self).frequency == old(self).frequency,
            final(self).conditions == old(self).conditions,
            final(self).label == old(self).label,
            bit_capacity(final(self).edge_in) == k,
            bit_capacity(final(self).edge_out) == k,
            forall|x: usize|
                #[trigger] bit_set(final(self).edge_out).contains(x) <==> (x < k && graph.edge(
                    x as int,
                    k - 1,
                )),
            forall|x: usize|
                #[trigger] bit_set(final(self).edge_in).contains(x) <==> (x < k && graph.edge(
                    k - 1,
                    x as int,
                )),
            forall|a: int, b: int|
                0 <= a < b < final(self).connections@.len() ==> final(self).connections@[a]
                    < final(self).connections@[b],
            forall|u: usize|
                #[trigger] final(self).connections@.contains(u) <==> (u < k
                    && graph.undirected_edge(u as int, k - 1)),
            final(self).total_out == old(self).total_out + row_out_count(*graph, k as int, k as int),
            final(self).total_in == old(self).total_in + row_in_count(*graph, k as int, k as int),
            final(self).total_edges == old(self).total_edges + row_out_count(*graph,
                k as int,
                k as int,
            ) + row_in_count(*graph, k as int, k as int),
    {
        let mut u: usize = 0;
        while u < k
            invariant
                graph.wf(),
                self.depth == k,
                1 <= k <= graph.n,
                !graph.edge(k - 1, k - 1),
                u <= k,
                self.children == old(self).children,
                self.is_dir == old(self).is_dir,
                self.is_graph == old(self).is_graph,
                self.frequency == old(self).frequency,
                self.conditions == old(self).conditions,
                self.label == old(self).label,
                bit_capacity(self.edge_in) == k,
                bit_capacity(self.edge_out) == k,
                forall|x: usize|
                    #[trigger] bit_set(self.edge_out).contains(x) <==> (x < u && graph.edge(
                        x as int,
                        k - 1,
                    )),
                forall|x: usize|
                    #[trigger] bit_set(self.edge_in).contains(x) <==> (x < u && graph.edge(
                        k - 1,
                        x as int,
                    )),
                forall|a: int, b: int|
                    0 <= a < b < self.connections@.len() ==> self.connections@[a]
                        < self.connections@[b],
                forall|j: int|
                    0 <= j < self.connections@.len() ==> (#[trigger] self.connections@[j]) < u,
                forall|w: usize|
                    #[trigger] self.connections@.contains(w) <==> (w < u && graph.undirected_edge(
                        w as int,
                        k - 1,
                    )),
                self.total_out == old(self).total_out + row_out_count(*graph, k as int, u as int),
                self.total_in == old(self).total_in + row_in_count(*graph, k as int, u as int),
                self.total_edges == old(self).total_edges + row_out_count(*graph, k as int, u as int)
                    + row_in_count(*graph, k as int, u as int),
                old(self).total_in + k <= usize::MAX,
                old(self).total_out + k <= usize::MAX,
                old(self).total_edges + 2 * k <= usize::MAX,
            decreases k - u,
        {
            proof {
                lemma_row_counts_bounded(*graph, k as int, u as int);
            }
            let fwd = graph.is_connected(u, k - 1);
            let bwd = graph.is_connected(k - 1, u);
            if fwd || bwd {
                let ghost pre_conn = self.connections@;
                self.connections.push(u);
                proof {
                    assert(self.connections@ == pre_conn.push(u));
                    assert forall|w: usize|
                        #[trigger] self.connections@.contains(w) <==> (w < u + 1
                            && graph.undirected_edge(w as int, k - 1)) by {
                        if w < u {
                            assert(pre_conn.contains(w) <==> (w < u && graph.undirected_edge(
                                w as int,
                                k - 1,
                            )));
                            if graph.undirected_edge(w as int, k - 1) {
                                let j = choose|j: int|
                                    0 <= j < pre_conn.len() && pre_conn[j] == w;
                                assert(self.connections@[j] == w);
                            }
                        } else if w == u {
                            assert(self.connections@[self.connections@.len() - 1] == u);
                        } else {
                            if self.connections@.contains(w) {
                                let j = choose|j: int|
                                    0 <= j < self.connections@.len() && self.connections@[j] == w;
                                if j < pre_conn.len() {
                                    assert(pre_conn[j] == w);
                                    assert(pre_conn.contains(w));
                                }
                            }
                        }
                    }
                }
            } else {
                proof {
                    assert forall|w: usize|
                        #[trigger] self.connections@.contains(w) <==> (w < u + 1
                            && graph.undirected_edge(w as int, k - 1)) by {}
                }
            }
            if fwd {
                let ghost pre = self.edge_out;
                bits_insert(&mut self.edge_out, u);
                self.total_out = self.total_out + 1;
                self.total_edges = self.total_edges + 1;
                proof {
                    assert(bit_set(self.edge_out) == bit_set(pre).insert(u));
                }
            }
            if bwd {
                let ghost pre = self.edge_in;
                bits_insert(&mut self.edge_in, u);
                self.total_in = self.total_in + 1;
                self.total_edges = self.total_edges + 1;
                proof {
                    assert(bit_set(self.edge_in) == bit_set(pre).insert(u));
                }
            }
            u += 1;
        }
    }
}


/// The number of edges `(a, b)` of `g` with `a < u`, or `a == u && b < v`,
/// in row-major order.
pub open spec fn edge_count_upto(g: Bitgraph, u: int, v: int) -> int
    decreases u, v,
{
    if v > 0 {
        edge_count_upto(g, u, v - 1) + if g.edge(u, v - 1) {
            1int
        } else {
            0int
        }
    } else if u > 0 {
        edge_count_upto(g, u - 1, g.n as int)
    } else {
        0
    }
}

/// The running edge count never exceeds the number of cells scanned.
pub proof fn lemma_edge_count_bounded(g: Bitgraph, u: int, v: int)
    requires
        0 <= u,
        0 <= v <= g.n,
    ensures
        0 <= edge_count_upto(g, u, v) <= u * g.n + v,
    decreases u, v,
{
    let n = g.n as int;
    if v > 0 {
        lemma_edge_count_bounded(g, u, v - 1);
    } else if u > 0 {
        lemma_edge_count_bounded(g, u - 1, n);
        assert((u - 1) * n + n == u * n) by (nonlinear_arith);
        assert(u * n + 0 >= (u - 1) * n + n);
    }
}

impl GtrieNode {
    /// A standalone terminal node carrying the whole adjacency matrix of
    /// `graph` in its rows: bit `u * n + v` of the outgoing row and bit
    /// `v * n + u` of the incoming row are set for every edge `u -> v`.
    pub fn from_bitgraph(graph: &Bitgraph) -> (r: GtrieNode)
        requires
            graph.wf(),
        ensures
            r.depth == graph.n,
            r.children@.len() == 0,
            r.is_dir == graph.is_dir,
            r.is_graph == true,
            r.frequency == 0,
            r.conditions is None,
            r.label is None,
            r.connections@.len() == 0,
            bit_capacity(r.edge_in) == graph.n * graph.n,
            bit_capacity(r.edge_out) == graph.n * graph.n,
            forall|x: usize| bit_set(r.edge_out).contains(x) ==> x < graph.n * graph.n,
            forall|x: usize| bit_set(r.edge_in).contains(x) ==> x < graph.n * graph.n,
            forall|a: int, b: int|
                0 <= a < graph.n && 0 <= b < graph.n ==> (#[trigger] crate::bitgraph::adj_edge(
                    r.edge_out,
                    graph.n as int,
                    a,
                    b,
                ) <==> graph.edge(a, b)),
            forall|a: int, b: int|
                0 <= a < graph.n && 0 <= b < graph.n ==> (#[trigger] crate::bitgraph::adj_edge(
                    r.edge_in,
                    graph.n as int,
                    a,
                    b,
                ) <==> graph.edge(b, a)),
            r.total_out == edge_count_upto(*graph, graph.n as int, 0),
            r.total_in == r.total_out,
            r.total_edges == r.total_out,
    {
        let n = graph.n_nodes();
        let is_dir = graph.is_dir();
        let mut edge_in = bits_with_capacity(n * n);
        let mut edge_out = bits_with_capacity(n * n);
        let mut total: usize = 0;
        let mut u: usize = 0;
        while u < n
            invariant
                graph.wf(),
                n == graph.n,
                u <= n,
                bit_capacity(edge_in) == n * n,
                bit_capacity(edge_out) == n * n,
                forall|x: usize| bit_set(edge_out).contains(x) ==> x < n * n,
                forall|x: usize| bit_set(edge_in).contains(x) ==> x < n * n,
                forall|a: int, b: int|
                    0 <= a < n && 0 <= b < n ==> (#[trigger] crate::bitgraph::adj_edge(
                        edge_out,
                        n as int,
                        a,
                        b,
                    ) <==> (a < u && graph.edge(a, b))),
                forall|a: int, b: int|
                    0 <= a < n && 0 <= b < n ==> (#[trigger] crate::bitgraph::adj_edge(
                        edge_in,
                        n as int,
                        a,
                        b,
                    ) <==> (b < u && graph.edge(b, a))),
                total == edge_count_upto(*graph, u as int, 0),
            decreases n - u,
        {
            let mut v: usize = 0;
            while v < n
                invariant
                    graph.wf(),
                    n == graph.n,
                    u < n,
                    v <= n,
                    bit_capacity(edge_in) == n * n,
                    bit_capacity(edge_out) == n * n,
                    forall|x: usize| bit_set(edge_out).contains(x) ==> x < n * n,
                    forall|x: usize| bit_set(edge_in).contains(x) ==> x < n * n,
                    forall|a: int, b: int|
                        0 <= a < n && 0 <= b < n ==> (#[trigger] crate::bitgraph::adj_edge(
                            edge_out,
                            n as int,
                            a,
                            b,
                        ) <==> ((a < u || (a == u && b < v)) && graph.edge(a, b))),
                    forall|a: int, b: int|
                        0 <= a < n && 0 <= b < n ==> (#[trigger] crate::bitgraph::adj_edge(
                            edge_in,
                            n as int,
                            a,
                            b,
                        ) <==> ((b < u || (b == u && a < v)) && graph.edge(b, a))),
                    total == edge_count_upto(*graph, u as int, v as int),
                decreases n - v,
            {
                proof {
                    crate::bitgraph::lemma_grid_index(n as int, u as int, v as int);
                    crate::bitgraph::lemma_grid_index(n as int, v as int, u as int);
                    lemma_edge_count_bounded(*graph, u as int, v as int);
                    assert(u as int * (n as int) + v < (n as int) * (n as int)) by (
                    nonlinear_arith)
                        requires
                            0 <= u < n,
                            0 <= v < n,
                    ;
                }
                if graph.is_connected(u, v) {
                    let ghost pre_out = edge_out;
                    let ghost pre_in = edge_in;
                    bits_insert(&mut edge_out, u * n + v);
                    bits_insert(&mut edge_in, v * n + u);
                    total = total + 1;
                    proof {
                        assert(bit_set(edge_out) == bit_set(pre_out).insert((u * n + v) as usize));
                        assert(bit_set(edge_in) == bit_set(pre_in).insert((v * n + u) as usize));
                        assert forall|a: int, b: int|
                            0 <= a < n && 0 <= b < n implies (#[trigger] crate::bitgraph::adj_edge(
                            edge_out,
                            n as int,
                            a,
                            b,
                        ) <==> ((a < u || (a == u && b < v + 1)) && graph.edge(a, b))) by {
                            crate::bitgraph::lemma_grid_index(n as int, a, b);
                            assert(crate::bitgraph::adj_edge(pre_out, n as int, a, b) <==> ((a < u
                                || (a == u && b < v)) && graph.edge(a, b)));
                            if a * n + b == u as int * n + v as int {
                                crate::bitgraph::lemma_grid_index_injective(
                                    n as int, a, b, u as int, v as int,
                                );
                            }
                        }
                        assert forall|a: int, b: int|
                            0 <= a < n && 0 <= b < n implies (#[trigger] crate::bitgraph::adj_edge(
                            edge_in,
                            n as int,
                            a,
                            b,
                        ) <==> ((b < u || (b == u && a < v + 1)) && graph.edge(b, a))) by {
                            crate::bitgraph::lemma_grid_index(n as int, a, b);
                            assert(crate::bitgraph::adj_edge(pre_in, n as int, a, b) <==> ((b < u
                                || (b == u && a < v)) && graph.edge(b, a)));
                            if a * n + b == v as int * n + u as int {
                                crate::bitgraph::lemma_grid_index_injective(
                                    n as int, a, b, v as int, u as int,
                                );
                            }
                        }
                    }
                }
                v += 1;
            }
            proof {
                assert(edge_count_upto(*graph, u + 1, 0) == edge_count_upto(
                    *graph,
                    u as int,
                    n as int,
                ));
            }
            u += 1;
        }
        GtrieNode {
            children: Vec::new(),
            depth: n,
            is_dir,
            is_graph: true,
            edge_in,
            edge_out,
            total_in: total,
            total_out: total,
            total_edges: total,
            frequency: 0,
            connections: Vec::new(),
            conditions: None,
            label: None,
        }
    }
}


/// Shape-equal trees are equally well-formed.
#[verifier::rlimit(50)]
pub proof fn lemma_same_shape_wf(a: GtrieNode, b: GtrieNode)
    requires
        same_shape(a, b),
        a.wf(),
    ensures
        b.wf(),
    decreases a,
{
    assert(a.local_wf());
    assert forall|x: usize| bit_set(b.edge_in).contains(x) implies x < b.depth by {
        assert(bit_set(a.edge_in).contains(x));
    }
    assert forall|x: usize| bit_set(b.edge_out).contains(x) implies x < b.depth by {
        assert(bit_set(a.edge_out).contains(x));
    }
    assert forall|u: usize|
        #[trigger] b.connections@.contains(u) implies u + 1 < b.depth && (b.out_bit(u as int)
        || b.in_bit(u as int)) by {
        assert(a.connections@.contains(u));
        assert(a.out_bit(u as int) == b.out_bit(u as int));
        assert(a.in_bit(u as int) == b.in_bit(u as int));
    }
    assert(b.connections@ == a.connections@);
    assert forall|u: int|
        0 <= u < b.depth && (b.out_bit(u) || b.in_bit(u)) implies b.connections@.contains(
        u as usize) by {
        assert(a.out_bit(u) == b.out_bit(u));
        assert(a.in_bit(u) == b.in_bit(u));
        assert(a.connections@.contains(u as usize));
    }
    assert(bit_capacity(b.edge_in) == b.depth && bit_capacity(b.edge_out) == b.depth);
    assert(b.depth >= 1 ==> !b.out_bit(b.depth - 1) && !b.in_bit(b.depth - 1));
    assert(forall|x: int, y: int|
        0 <= x < y < b.connections@.len() ==> b.connections@[x] < b.connections@[y]);
    assert(b.depth >= 2 ==> b.connections@.len() > 0);
    if b.conditions is Some {
        assert forall|k: int|
            0 <= k < b.conditions.unwrap()@.len() implies (#[trigger] b.conditions.unwrap()@[
            k]).u < b.conditions.unwrap()@[k].v && b.conditions.unwrap()@[k].v < b.depth by {
            assert(a.conditions.unwrap()@[k].u < a.conditions.unwrap()@[k].v
                && a.conditions.unwrap()@[k].v < a.depth);
        }
    }
    assert(b.local_wf());
    assert forall|i: int|
        0 <= i < b.children@.len() implies ((#[trigger] b.children@[i]).depth == b.depth + 1
        && b.children@[i].wf()) by {
        lemma_same_shape_wf(a.children@[i], b.children@[i]);
    }
}

/// Two nodes differing at most in their frequency counter have the same
/// shape.
pub proof fn lemma_same_shape_except_freq(a: GtrieNode, b: GtrieNode)
    requires
        b == (GtrieNode { frequency: b.frequency, ..a }),
    ensures
        same_shape(a, b),
{
    assert forall|i: int| 0 <= i < a.children@.len() implies same_shape(
        #[trigger] a.children@[i],
        b.children@[i],
    ) by {
        lemma_same_shape_refl(a.children@[i]);
    }
}

impl GtrieNode {
    /// A terminal's own counter never exceeds its subtree sum.
    pub proof fn lemma_freq_le_sum(self)
        ensures
            self.is_graph ==> self.frequency <= self.sum_freq(),
    {
        lemma_seq_sum_nonneg(self.children@);
    }

    /// Mutable access to the `i`-th child.
    pub fn child_at_mut(&mut self, i: usize) -> (r: &mut GtrieNode)
        requires
            i < old(self).children@.len(),
        ensures
            *r == old(self).children@[i as int],
            final(self).children@ == old(self).children@.update(i as int, *final(r)),
            final(self).depth == old(self).depth,
            final(self).is_dir == old(self).is_dir,
            final(self).is_graph == old(self).is_graph,
            final(self).edge_in == old(self).edge_in,
            final(self).edge_out == old(self).edge_out,
            final(self).total_in == old(self).total_in,
            final(self).total_out == old(self).total_out,
            final(self).total_edges == old(self).total_edges,
            final(self).frequency == old(self).frequency,
            final(self).connections == old(self).connections,
            final(self).conditions == old(self).conditions,
            final(self).label == old(self).label,
    {
        &mut self.children[i]
    }
}


/// Well-formedness carries over to a node with the same depth, rows,
/// connection cache and valid conditions, whatever its other fields, as
/// long as its children are one level deeper and well-formed.
pub proof fn lemma_wf_core(a: GtrieNode, b: GtrieNode)
    requires
        a.local_wf(),
        b.depth == a.depth,
        b.edge_in == a.edge_in,
        b.edge_out == a.edge_out,
        b.connections == a.connections,
        b.conditions is Some ==> forall|k: int|
            0 <= k < b.conditions.unwrap()@.len() ==> (#[trigger] b.conditions.unwrap()@[k]).u
                < b.conditions.unwrap()@[k].v && b.conditions.unwrap()@[k].v < b.depth,
        forall|i: int|
            0 <= i < b.children@.len() ==> (#[trigger] b.children@[i]).depth == b.depth + 1
                && b.children@[i].wf(),
    ensures
        b.wf(),
{
    assert forall|x: usize| bit_set(b.edge_in).contains(x) implies x < b.depth by {
        assert(bit_set(a.edge_in).contains(x));
    }
    assert forall|x: usize| bit_set(b.edge_out).contains(x) implies x < b.depth by {
        assert(bit_set(a.edge_out).contains(x));
    }
    assert forall|u: usize|
        #[trigger] b.connections@.contains(u) implies u + 1 < b.depth && (b.out_bit(u as int)
        || b.in_bit(u as int)) by {
        assert(a.connections@.contains(u));
        assert(a.out_bit(u as int) == b.out_bit(u as int));
        assert(a.in_bit(u as int) == b.in_bit(u as int));
    }
    assert(b.connections@ == a.connections@);
    assert forall|u: int|
        0 <= u < b.depth && (b.out_bit(u) || b.in_bit(u)) implies b.connections@.contains(
        u as usize) by {
        assert(a.out_bit(u) == b.out_bit(u));
        assert(a.in_bit(u) == b.in_bit(u));
        assert(a.connections@.contains(u as usize));
    }
    assert(b.local_wf());
}


/// Every counter of `b` is at least its counterpart in `a`, and the
/// counters of non-terminal nodes (which a census never touches) are
/// unchanged.
pub open spec fn freqs_ge(a: GtrieNode, b: GtrieNode) -> bool
    decreases a,
{
    &&& b.frequency >= a.frequency
    &&& b.is_graph == a.is_graph
    &&& (!a.is_graph ==> b.frequency == a.frequency)
    &&& b.children@.len() == a.children@.len()
    &&& forall|i: int|
        0 <= i < a.children@.len() ==> freqs_ge(#[trigger] a.children@[i], b.children@[i])
}

/// Counter growth is reflexive.
pub proof fn lemma_freqs_ge_refl(a: GtrieNode)
    ensures
        freqs_ge(a, a),
    decreases a,
{
    assert forall|i: int| 0 <= i < a.children@.len() implies freqs_ge(
        #[trigger] a.children@[i],
        a.children@[i],
    ) by {
        lemma_freqs_ge_refl(a.children@[i]);
    }
}

/// Counter growth composes.
pub proof fn lemma_freqs_ge_trans(a: GtrieNode, b: GtrieNode, c: GtrieNode)
    requires
        freqs_ge(a, b),
        freqs_ge(b, c),
    ensures
        freqs_ge(a, c),
    decreases a,
{
    assert forall|i: int| 0 <= i < a.children@.len() implies freqs_ge(
        #[trigger] a.children@[i],
        c.children@[i],
    ) by {
        lemma_freqs_ge_trans(a.children@[i], b.children@[i], c.children@[i]);
    }
}

/// Over grown counters, an unchanged subtree sum forces every counter to be
/// unchanged — there is nowhere for a decrease to hide.
pub proof fn lemma_freqs_ge_sum_eq(a: GtrieNode, b: GtrieNode)
    requires
        freqs_ge(a, b),
        same_shape(a, b),
        a.sum_freq() == b.sum_freq(),
    ensures
        freqs_ge(b, a),
    decreases a,
{
    lemma_freqs_ge_seq_sum_le(a.children@, b.children@);
    assert(seq_sum(a.children@) <= seq_sum(b.children@));
    if a.is_graph {
        assert(a.frequency == b.frequency);
    }
    assert(seq_sum(a.children@) == seq_sum(b.children@));
    lemma_freqs_ge_seq_pointwise(a.children@, b.children@);
}

/// Grown counters only raise a sequence's sum.
pub proof fn lemma_freqs_ge_seq_sum_le(a: Seq<GtrieNode>, b: Seq<GtrieNode>)
    requires
        a.len() == b.len(),
        forall|i: int| 0 <= i < a.len() ==> freqs_ge(#[trigger] a[i], b[i]),
        forall|i: int| 0 <= i < a.len() ==> same_shape(#[trigger] a[i], b[i]),
    ensures
        seq_sum(a) <= seq_sum(b),
    decreases a,
{
    if a.len() > 0 {
        lemma_freqs_ge_sum_le(a[0], b[0]);
        let ta = a.subrange(1, a.len() as int);
        let tb = b.subrange(1, b.len() as int);
        assert forall|i: int| 0 <= i < ta.len() implies freqs_ge(#[trigger] ta[i], tb[i])
            && same_shape(ta[i], tb[i]) by {
            assert(ta[i] == a[i + 1]);
            assert(tb[i] == b[i + 1]);
        }
        lemma_freqs_ge_seq_sum_le(ta, tb);
    }
}

/// Grown counters only raise a subtree's sum.
pub proof fn lemma_freqs_ge_sum_le(a: GtrieNode, b: GtrieNode)
    requires
        freqs_ge(a, b),
        same_shape(a, b),
    ensures
        a.sum_freq() <= b.sum_freq(),
    decreases a,
{
    lemma_freqs_ge_seq_sum_le(a.children@, b.children@);
}

/// With equal sums, grown counters are equal, node by node.
proof fn lemma_freqs_ge_seq_pointwise(a: Seq<GtrieNode>, b: Seq<GtrieNode>)
    requires
        a.len() == b.len(),
        forall|i: int| 0 <= i < a.len() ==> freqs_ge(#[trigger] a[i], b[i]),
        forall|i: int| 0 <= i < a.len() ==> same_shape(#[trigger] a[i], b[i]),
        seq_sum(a) == seq_sum(b),
    ensures
        forall|i: int| 0 <= i < a.len() ==> freqs_ge(#[trigger] b[i], a[i]),
    decreases a,
{
    if a.len() > 0 {
        let ta = a.subrange(1, a.len() as int);
        let tb = b.subrange(1, b.len() as int);
        assert forall|i: int| 0 <= i < ta.len() implies freqs_ge(#[trigger] ta[i], tb[i])
            && same_shape(ta[i], tb[i]) by {
            assert(ta[i] == a[i + 1]);
            assert(tb[i] == b[i + 1]);
        }
        lemma_freqs_ge_sum_le(a[0], b[0]);
        lemma_freqs_ge_seq_sum_le(ta, tb);
        assert(a[0].sum_freq() == b[0].sum_freq());
        assert(seq_sum(ta) == seq_sum(tb));
        lemma_freqs_ge_sum_eq(a[0], b[0]);
        lemma_freqs_ge_seq_pointwise(ta, tb);
        assert forall|i: int| 0 <= i < a.len() implies freqs_ge(#[trigger] b[i], a[i]) by {
            if i > 0 {
                assert(ta[i - 1] == a[i]);
                assert(tb[i - 1] == b[i]);
            }
        }
    }
}

} // verus!
