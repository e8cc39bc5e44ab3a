//! The g-trie: a prefix tree over the rows of canonical adjacency matrices.
//!
//! Patterns sharing a prefix of rows share trie nodes.  Insertion descends
//! along matching rows, creating new nodes where no child matches, and marks
//! the node at the pattern's full depth as a terminal.  The census walks the
//! trie against a host graph; afterwards every terminal's frequency holds its
//! pattern's count and `total_subgraphs` holds their sum.

use vstd::prelude::*;

use fixedbitset::FixedBitSet;

use crate::bitgraph::Bitgraph;
use crate::bits::{bit_capacity, bit_set, bits_with_capacity};
use crate::census::{lemma_path_ok_shape, lemma_spec_match_children_mono, lemma_spec_match_nonneg,
    lemma_spec_match_shape, lemma_spec_path_delta_shape, match_child_conditionally, node_at,
    path_ok, spec_match, spec_match_children, spec_path_delta, Candidates};
use crate::node::{freqs_ge, lemma_freqs_ge_refl, lemma_freqs_ge_trans};
use crate::node::{lemma_child_sum_le, lemma_same_shape_refl, lemma_same_shape_trans,
    lemma_same_shape_wf, lemma_seq_sum_update, lemma_wf_core, same_shape, seq_sum, GtrieNode};
use crate::io::GraphError;
use crate::isomorphism::canonical_based_nauty;
use crate::symmetry::{lemma_filter_same, lemma_filter_subset, Condition, Conditions};

verus! {

/// The rows of `node` encode row `k` of the pattern `g`: for every position
/// up to `k`, the outgoing bit matches the edge towards `k` and the incoming
/// bit the edge from `k`.
pub open spec fn rows_eq(node: GtrieNode, g: Bitgraph, k: int) -> bool {
    forall|idx: int|
        0 <= idx <= k ==> (#[trigger] node.out_bit(idx)) == g.edge(idx, k) && node.in_bit(idx)
            == g.edge(k, idx)
}

/// The subtree rooted at `node` (standing at depth `k`) stores the pattern
/// `g`: a path of children whose rows match the remaining rows of `g` leads
/// to a terminal at depth `g.n`.
pub open spec fn trie_contains(node: GtrieNode, g: Bitgraph, k: int) -> bool
    decreases node,
{
    if k >= g.n {
        node.is_graph
    } else {
        exists|i: int|
            0 <= i < node.children@.len() && rows_eq(#[trigger] node.children@[i], g, k)
                && trie_contains(node.children@[i], g, k + 1)
    }
}

/// The subtree stores the pattern `g` with the text `label` at a terminal
/// reached by row-matching children.
pub open spec fn trie_labelled(node: GtrieNode, g: Bitgraph, k: int, label: Option<String>) -> bool
    decreases node,
{
    if k >= g.n {
        node.is_graph && node.label == label
    } else {
        exists|i: int|
            0 <= i < node.children@.len() && rows_eq(#[trigger] node.children@[i], g, k)
                && trie_labelled(node.children@[i], g, k + 1, label)
    }
}


/// `a` and `b` store the same adjacency rows.
pub open spec fn same_rows(a: GtrieNode, b: GtrieNode) -> bool {
    bit_set(a.edge_out) == bit_set(b.edge_out) && bit_set(a.edge_in) == bit_set(b.edge_in)
}

/// No two siblings anywhere in the tree store the same rows, so at most one
/// child can match a pattern row and every insertion path is unique.
pub open spec fn distinct_rows(n: GtrieNode) -> bool
    decreases n,
{
    &&& forall|i: int, j: int|
        #![trigger n.children@[i], n.children@[j]]
        0 <= i < j < n.children@.len() ==> !same_rows(n.children@[i], n.children@[j])
    &&& forall|i: int| 0 <= i < n.children@.len() ==> distinct_rows(#[trigger] n.children@[i])
}

/// Two well-formed siblings matching the same pattern row store the same
/// rows.
proof fn lemma_rows_eq_same(a: GtrieNode, b: GtrieNode, g: Bitgraph, k: int)
    requires
        a.local_wf(),
        b.local_wf(),
        a.depth == k + 1,
        b.depth == k + 1,
        0 <= k,
        rows_eq(a, g, k),
        rows_eq(b, g, k),
    ensures
        same_rows(a, b),
{
    assert(bit_set(a.edge_out) =~= bit_set(b.edge_out)) by {
        assert forall|x: usize|
            bit_set(a.edge_out).contains(x) == bit_set(b.edge_out).contains(x) by {
            if x < a.depth {
                assert(a.out_bit(x as int) == g.edge(x as int, k));
                assert(b.out_bit(x as int) == g.edge(x as int, k));
            } else {
                assert(!bit_set(a.edge_out).contains(x));
                assert(!bit_set(b.edge_out).contains(x));
            }
        }
    }
    assert(bit_set(a.edge_in) =~= bit_set(b.edge_in)) by {
        assert forall|x: usize|
            bit_set(a.edge_in).contains(x) == bit_set(b.edge_in).contains(x) by {
            if x < a.depth {
                assert(a.out_bit(x as int) == g.edge(x as int, k));
                assert(b.out_bit(x as int) == g.edge(x as int, k));
                assert(a.in_bit(x as int) == g.edge(k, x as int));
                assert(b.in_bit(x as int) == g.edge(k, x as int));
            } else {
                assert(!bit_set(a.edge_in).contains(x));
                assert(!bit_set(b.edge_in).contains(x));
            }
        }
    }
}


/// The child indices an insertion of `g` follows from a node at depth `k`:
/// descend the row-matching child while one exists and rows remain.  Under
/// [`distinct_rows`] at most one child can match, so the path is the one
/// the insertion takes.
pub open spec fn insert_path(node: GtrieNode, g: Bitgraph, k: int) -> Seq<int>
    decreases node,
{
    if k >= g.n {
        Seq::empty()
    } else if exists|i: int|
        0 <= i < node.children@.len() && rows_eq(#[trigger] node.children@[i], g, k) {
        let i = choose|i: int|
            0 <= i < node.children@.len() && rows_eq(#[trigger] node.children@[i], g, k);
        seq![i] + insert_path(node.children@[i], g, k + 1)
    } else {
        Seq::empty()
    }
}

/// The conditions of `after` are those of `own` intersected with the
/// inserted pattern's (`None` on an empty intersection or an absent
/// argument).
pub open spec fn conditions_intersected(
    own: Option<Conditions>,
    arg: Option<Conditions>,
    after: Option<Conditions>,
) -> bool {
    match own {
        None => after is None,
        Some(o) => match arg {
            None => after is None,
            Some(cs) => ({
                let kept = o@.filter(|c: Condition| cs@.contains(c));
                if kept.len() == 0 {
                    after is None
                } else {
                    after is Some && after.unwrap()@ == kept
                }
            }),
        },
    }
}

/// No terminal in the subtree has been counted yet.
pub open spec fn all_zero(n: GtrieNode) -> bool
    decreases n,
{
    &&& n.frequency == 0
    &&& forall|i: int| 0 <= i < n.children@.len() ==> all_zero(#[trigger] n.children@[i])
}

/// An uncounted subtree sums to zero.
pub proof fn lemma_all_zero_sum(n: GtrieNode)
    requires
        all_zero(n),
    ensures
        n.sum_freq() == 0,
    decreases n,
{
    lemma_all_zero_seq_sum(n.children@);
}

proof fn lemma_all_zero_seq_sum(s: Seq<GtrieNode>)
    requires
        forall|i: int| 0 <= i < s.len() ==> all_zero(#[trigger] s[i]),
    ensures
        seq_sum(s) == 0,
    decreases s,
{
    if s.len() > 0 {
        lemma_all_zero_sum(s[0]);
        let t = s.subrange(1, s.len() as int);
        assert forall|i: int| 0 <= i < t.len() implies all_zero(#[trigger] t[i]) by {
            assert(t[i] == s[i + 1]);
        }
        lemma_all_zero_seq_sum(t);
    }
}

/// The labelled counts this subtree reports: one `(label, frequency)` pair
/// for every labelled terminal with a nonzero frequency, in depth-first
/// order.
pub open spec fn nonzero_entries(n: GtrieNode) -> Seq<(String, usize)>
    decreases n,
{
    let own: Seq<(String, usize)> = if n.is_graph && n.frequency > 0 && n.label is Some {
        seq![(n.label.unwrap(), n.frequency)]
    } else {
        Seq::empty()
    };
    own + nonzero_entries_seq(n.children@)
}

pub open spec fn nonzero_entries_seq(s: Seq<GtrieNode>) -> Seq<(String, usize)>
    decreases s,
{
    if s.len() == 0 {
        Seq::empty()
    } else {
        nonzero_entries(s[0]) + nonzero_entries_seq(s.subrange(1, s.len() as int))
    }
}

/// The functional model of a census run: the matches contributed by every
/// stored pattern of the trie against the host `g`, starting from the empty
/// assignment.
pub open spec fn spec_census(root: GtrieNode, g: Bitgraph) -> int {
    spec_match_children(
        root.children@,
        g,
        Seq::<usize>::empty(),
        Set::<usize>::empty(),
        root.children@.len() as int,
    )
}

/// `h` and `g` are the same directed graph: same order, same edges.
pub open spec fn same_graph(h: Bitgraph, g: Bitgraph) -> bool {
    &&& h.n == g.n
    &&& forall|a: int, b: int|
        0 <= a < g.n && 0 <= b < g.n ==> (#[trigger] h.edge(a, b)) == g.edge(a, b)
}

/// `h` agrees with `g` on every adjacency row from `k` on (and has its
/// order).
pub open spec fn rows_agree_from(h: Bitgraph, g: Bitgraph, k: int) -> bool {
    &&& h.n == g.n
    &&& forall|kk: int, idx: int|
        k <= kk < h.n && 0 <= idx <= kk ==> #[trigger] k_agree_at(h, g, kk, idx)
}

/// The row-agreement instance for the pair `(kk, idx)`.
pub open spec fn k_agree_at(h: Bitgraph, g: Bitgraph, kk: int, idx: int) -> bool {
    h.edge(idx, kk) == g.edge(idx, kk) && h.edge(kk, idx) == g.edge(kk, idx)
}

/// Agreement on all rows is agreement on every edge.
pub proof fn lemma_rows_agree_full(h: Bitgraph, g: Bitgraph)
    requires
        rows_agree_from(h, g, 0),
    ensures
        same_graph(h, g),
{
    assert forall|a: int, b: int|
        0 <= a < g.n && 0 <= b < g.n implies (#[trigger] h.edge(a, b)) == g.edge(a, b) by {
        if a <= b {
            assert(k_agree_at(h, g, b, a));
        } else {
            assert(k_agree_at(h, g, a, b));
        }
    }
}

/// The increment a census of `g` gives the counter of the node at `path`
/// under the root.
pub open spec fn spec_census_path(root: GtrieNode, g: Bitgraph, path: Seq<int>) -> int {
    if path.len() == 0 || !(0 <= path[0] < root.children@.len()) {
        0
    } else {
        spec_path_delta(
            root.children@[path[0]],
            g,
            Seq::<usize>::empty(),
            Set::<usize>::empty(),
            path.drop_first(),
        )
    }
}

pub struct Gtrie {
    pub root: GtrieNode,
    pub max_depth: usize,
    pub total_subgraphs: usize,
}

impl Gtrie {
    /// The structural invariant: a well-formed root at depth zero, and a
    /// running total that equals the sum of all terminal frequencies.
    pub open spec fn wf(self) -> bool {
        &&& self.root.wf()
        &&& self.root.depth == 0
        &&& self.total_subgraphs as int == self.root.sum_freq()
    }

    /// An empty trie for patterns of up to `max_depth` vertices.
    pub fn new(max_depth: usize) -> (r: Gtrie)
        ensures
            r.wf(),
            r.max_depth == max_depth,
            r.total_subgraphs == 0,
            all_zero(r.root),
            r.root.children@.len() == 0,
            !r.root.is_graph,
            distinct_rows(r.root),
    {
        let root = GtrieNode::new(0);
        Gtrie { root, max_depth, total_subgraphs: 0 }
    }

    /// The number of matches counted across all terminals by the censuses
    /// run so far.
    pub fn total_subgraphs(&self) -> (r: usize)
        ensures
            r == self.total_subgraphs,
    {
        self.total_subgraphs
    }

    /// Checks whether the rows of `node` equal row `k` of the pattern.
    fn depth_eq(node: &GtrieNode, graph: &Bitgraph, k: usize) -> (r: bool)
        requires
            graph.wf(),
            k < graph.n,
        ensures
            r == rows_eq(*node, *graph, k as int),
    {
        let mut idx: usize = 0;
        while idx <= k
            invariant
                graph.wf(),
                k < graph.n,
                idx <= k + 1,
                forall|t: int|
                    0 <= t < idx ==> (#[trigger] node.out_bit(t)) == graph.edge(t, k as int)
                        && node.in_bit(t) == graph.edge(k as int, t),
            decreases k + 1 - idx,
        {
            let condition_a = node.out_contains(idx) != graph.is_connected(idx, k);
            let condition_b = node.in_contains(idx) != graph.is_connected(k, idx);
            if condition_a || condition_b {
                proof {
                    assert(!(node.out_bit(idx as int) == graph.edge(idx as int, k as int)
                        && node.in_bit(idx as int) == graph.edge(k as int, idx as int)));
                }
                return false;
            }
            proof {
                assert(node.out_bit(idx as int) == graph.edge(idx as int, k as int));
                assert(node.in_bit(idx as int) == graph.edge(k as int, idx as int));
                assert forall|t: int|
                    0 <= t < idx + 1 implies (#[trigger] node.out_bit(t)) == graph.edge(
                    t,
                    k as int,
                ) && node.in_bit(t) == graph.edge(k as int, t) by {
                    if t < idx {
                        assert(node.out_bit(t) == graph.edge(t, k as int));
                    }
                }
            }
            idx += 1;
        }
        true
    }

    /// The `(label, frequency)` pairs of all labelled terminals matched at
    /// least once, in depth-first order of the trie.
    pub fn get_nonzero(&self) -> (r: Vec<(String, usize)>)
        ensures
            r@ == nonzero_entries(self.root),
    {
        let mut out: Vec<(String, usize)> = Vec::new();
        Self::collect_nonzero(&self.root, &mut out);
        proof {
            assert(out@ =~= nonzero_entries(self.root));
        }
        out
    }

    fn collect_nonzero(node: &GtrieNode, out: &mut Vec<(String, usize)>)
        ensures
            final(out)@ == old(out)@ + nonzero_entries(*node),
        decreases node.height(),
    {
        let ghost out0 = out@;
        if node.is_graph() && node.frequency > 0 {
            match &node.label {
                Some(label) => {
                    out.push((label.clone(), node.frequency));
                },
                None => {},
            }
        }
        proof {
            assert(out@ =~= out0 + nonzero_entries_prefix(*node, 0));
        }
        let n_children = node.children.len();
        let mut c: usize = 0;
        while c < n_children
            invariant
                c <= n_children,
                n_children == node.children@.len(),
                out@ == out0 + nonzero_entries_prefix(*node, c as int),
            decreases n_children - c,
        {
            proof {
                crate::node::lemma_child_height_lt(*node, c as int);
            }
            Self::collect_nonzero(&node.children[c], out);
            proof {
                lemma_nonzero_prefix_step(*node, c as int);
                assert(out@ =~= out0 + nonzero_entries_prefix(*node, c + 1));
            }
            c += 1;
        }
        proof {
            lemma_nonzero_prefix_full(*node);
            assert(out@ =~= out0 + nonzero_entries(*node));
        }
    }
}

/// The entries of a node's own terminal plus those of its first `c`
/// children.
pub open spec fn nonzero_entries_prefix(n: GtrieNode, c: int) -> Seq<(String, usize)>
    decreases c,
{
    if c <= 0 {
        if n.is_graph && n.frequency > 0 && n.label is Some {
            seq![(n.label.unwrap(), n.frequency)]
        } else {
            Seq::empty()
        }
    } else {
        nonzero_entries_prefix(n, c - 1) + if c <= n.children@.len() {
            nonzero_entries(n.children@[c - 1])
        } else {
            Seq::empty()
        }
    }
}

proof fn lemma_nonzero_prefix_step(n: GtrieNode, c: int)
    requires
        0 <= c < n.children@.len(),
    ensures
        nonzero_entries_prefix(n, c + 1) == nonzero_entries_prefix(n, c) + nonzero_entries(
            n.children@[c],
        ),
{
}

/// After all children, the prefix entries are the node's full entries.
proof fn lemma_nonzero_prefix_full(n: GtrieNode)
    ensures
        nonzero_entries_prefix(n, n.children@.len() as int) == nonzero_entries(n),
{
    lemma_nonzero_prefix_seq(n, n.children@.len() as int);
    assert(n.children@.subrange(0, n.children@.len() as int) =~= n.children@);
    assert(nonzero_entries(n) == nonzero_entries_prefix(n, 0) + nonzero_entries_seq(n.children@));
    assert(nonzero_entries_prefix(n, n.children@.len() as int) =~= nonzero_entries(n));
}

proof fn lemma_nonzero_prefix_seq(n: GtrieNode, c: int)
    requires
        0 <= c <= n.children@.len(),
    ensures
        nonzero_entries_prefix(n, c) == nonzero_entries_prefix(n, 0) + nonzero_entries_seq(
            n.children@.subrange(0, c),
        ),
    decreases c,
{
    if c == 0 {
        assert(n.children@.subrange(0, 0) =~= Seq::<GtrieNode>::empty());
        assert(nonzero_entries_prefix(n, 0) + Seq::<(String, usize)>::empty()
            =~= nonzero_entries_prefix(n, 0));
    } else {
        lemma_nonzero_prefix_seq(n, c - 1);
        lemma_nonzero_seq_push(n.children@.subrange(0, c - 1), n.children@[c - 1]);
        assert(n.children@.subrange(0, c) =~= n.children@.subrange(0, c - 1).push(
            n.children@[c - 1],
        ));
        assert(nonzero_entries_prefix(n, c) =~= nonzero_entries_prefix(n, 0)
            + nonzero_entries_seq(n.children@.subrange(0, c)));
    }
}

proof fn lemma_nonzero_seq_push(s: Seq<GtrieNode>, x: GtrieNode)
    ensures
        nonzero_entries_seq(s.push(x)) == nonzero_entries_seq(s) + nonzero_entries(x),
    decreases s,
{
    let t = s.push(x);
    assert(nonzero_entries_seq(Seq::<GtrieNode>::empty()) == Seq::<(String, usize)>::empty());
    if s.len() == 0 {
        assert(t[0] == x);
        assert(t.subrange(1, t.len() as int) =~= Seq::<GtrieNode>::empty());
        assert(nonzero_entries_seq(t) == nonzero_entries(x) + nonzero_entries_seq(
            Seq::<GtrieNode>::empty(),
        ));
        assert(nonzero_entries_seq(t) =~= nonzero_entries_seq(s) + nonzero_entries(x));
    } else {
        assert(t[0] == s[0]);
        assert(t.subrange(1, t.len() as int) =~= s.subrange(1, s.len() as int).push(x));
        lemma_nonzero_seq_push(s.subrange(1, s.len() as int), x);
        assert(nonzero_entries_seq(t) == nonzero_entries(t[0]) + nonzero_entries_seq(t.subrange(
            1,
            t.len() as int,
        )));
        assert(nonzero_entries_seq(s) == nonzero_entries(s[0]) + nonzero_entries_seq(s.subrange(
            1,
            s.len() as int,
        )));
        assert(nonzero_entries_seq(t) =~= nonzero_entries_seq(s) + nonzero_entries(x));
    }
}


/// A node whose rows equal another's matches the same pattern rows.
proof fn lemma_rows_eq_same_rows(a: GtrieNode, b: GtrieNode, g: Bitgraph, k: int)
    requires
        b.edge_in == a.edge_in,
        b.edge_out == a.edge_out,
        rows_eq(a, g, k),
    ensures
        rows_eq(b, g, k),
{
    assert forall|idx: int|
        0 <= idx <= k implies (#[trigger] b.out_bit(idx)) == g.edge(idx, k) && b.in_bit(idx)
        == g.edge(k, idx) by {
        assert(a.out_bit(idx) == b.out_bit(idx));
        assert(a.in_bit(idx) == b.in_bit(idx));
        assert(a.out_bit(idx) == g.edge(idx, k));
    }
}

/// Twice any depth within a well-formed graph stays within `usize`.
proof fn lemma_two_depth_bound(g: Bitgraph, k: int)
    requires
        g.wf(),
        0 <= k < g.n,
    ensures
        2 * (k + 1) <= usize::MAX,
{
    if g.n >= 2 {
        assert(2 * g.n <= g.n * g.n) by (nonlinear_arith)
            requires g.n >= 2;
    }
}

impl Gtrie {
    /// Stores the pattern `graph` in the trie: descends along children whose
    /// rows match, creating fresh nodes where none does, intersecting each
    /// passed node's conditions with the pattern's, and marks the node at the
    /// pattern's full depth terminal with the given label.  Afterwards the
    /// trie holds exactly the patterns it held before plus this one: nothing
    /// else becomes contained.  Patterns are inserted before any census, must
    /// fit the trie's depth, carry no self-loop, and connect each vertex to
    /// an earlier one.
    pub fn insert(&mut self, graph: &Bitgraph, conditions: Option<&Conditions>, repr: Option<String>)
        requires
            old(self).wf(),
            all_zero(old(self).root),
            graph.wf(),
            graph.spec_diag_free(),
            graph.spec_prefix_connected(),
            graph.n <= old(self).max_depth,
            conditions is Some ==> forall|t: int|
                0 <= t < conditions.unwrap()@.len() ==> (#[trigger] conditions.unwrap()@[t]).u
                    < conditions.unwrap()@[t].v,
        ensures
            final(self).wf(),
            all_zero(final(self).root),
            final(self).max_depth == old(self).max_depth,
            final(self).total_subgraphs == old(self).total_subgraphs,
            trie_contains(final(self).root, *graph, 0),
            trie_labelled(final(self).root, *graph, 0, repr),
            forall|h: Bitgraph|
                trie_contains(old(self).root, h, 0) ==> #[trigger] trie_contains(
                    final(self).root,
                    h,
                    0,
                ),
            forall|h: Bitgraph|
                #[trigger] trie_contains(final(self).root, h, 0) ==> trie_contains(
                    old(self).root,
                    h,
                    0,
                ) || same_graph(h, *graph),
            distinct_rows(old(self).root) ==> distinct_rows(final(self).root),
            distinct_rows(old(self).root) ==> forall|path: Seq<int>|
                #[trigger] path_ok(old(self).root, path) ==> ({
                    let after = node_at(final(self).root, path).conditions;
                    let own = node_at(old(self).root, path).conditions;
                    if path == insert_path(old(self).root, *graph, 0) && path.len() < graph.n {
                        conditions_intersected(
                            own,
                            match conditions {
                                None => None::<Conditions>,
                                Some(c) => Some(*c),
                            },
                            after,
                        )
                    } else {
                        after == own
                    }
                }),
            (distinct_rows(old(self).root) && trie_labelled(old(self).root, *graph, 0, repr))
                ==> (same_shape(old(self).root, final(self).root) && freqs_ge(
                old(self).root,
                final(self).root,
            ) && freqs_ge(final(self).root, old(self).root)),
            graph.n > 0 ==> ({
                if exists|i: int|
                    0 <= i < old(self).root.children@.len() && rows_eq(
                        #[trigger] old(self).root.children@[i],
                        *graph,
                        0,
                    ) {
                    final(self).root.conditions == old(self).root.conditions
                } else {
                    match old(self).root.conditions {
                        None => final(self).root.conditions is None,
                        Some(own) => match conditions {
                            None => final(self).root.conditions is None,
                            Some(cs) => ({
                                let kept = own@.filter(|c: Condition| cs@.contains(c));
                                if kept.len() == 0 {
                                    final(self).root.conditions is None
                                } else {
                                    final(self).root.conditions is Some
                                        && final(self).root.conditions.unwrap()@ == kept
                                }
                            }),
                        },
                    }
                }
            }),
    {
        Self::insert_recursively_conditional(graph, &mut self.root, 0, conditions, repr);
        proof {
            lemma_all_zero_sum(self.root);
            lemma_all_zero_sum(old(self).root);
            assert forall|h: Bitgraph|
                #[trigger] trie_contains(self.root, h, 0) implies trie_contains(
                old(self).root,
                h,
                0,
            ) || same_graph(h, *graph) by {
                if !trie_contains(old(self).root, h, 0) {
                    assert(rows_agree_from(h, *graph, 0));
                    lemma_rows_agree_full(h, *graph);
                }
            }
        }
    }

    #[verifier::loop_isolation(false)]
    fn insert_recursively_conditional(
        graph: &Bitgraph,
        node: &mut GtrieNode,
        k: usize,
        conditions: Option<&Conditions>,
        repr: Option<String>,
    )
        requires
            graph.wf(),
            graph.spec_diag_free(),
            graph.spec_prefix_connected(),
            old(node).wf(),
            all_zero(*old(node)),
            old(node).depth == k,
            k <= graph.n,
            conditions is Some ==> forall|t: int|
                0 <= t < conditions.unwrap()@.len() ==> (#[trigger] conditions.unwrap()@[t]).u
                    < conditions.unwrap()@[t].v,
        ensures
            final(node).wf(),
            all_zero(*final(node)),
            final(node).depth == k,
            final(node).edge_in == old(node).edge_in,
            final(node).edge_out == old(node).edge_out,
            final(node).connections == old(node).connections,
            old(node).is_graph ==> final(node).is_graph,
            trie_contains(*final(node), *graph, k as int),
            trie_labelled(*final(node), *graph, k as int, repr),
            distinct_rows(*old(node)) ==> distinct_rows(*final(node)),
            distinct_rows(*old(node)) ==> forall|path: Seq<int>|
                #[trigger] path_ok(*old(node), path) ==> ({
                    let after = node_at(*final(node), path).conditions;
                    let own = node_at(*old(node), path).conditions;
                    if path == insert_path(*old(node), *graph, k as int) && k + path.len()
                        < graph.n {
                        conditions_intersected(
                            own,
                            match conditions {
                                None => None::<Conditions>,
                                Some(c) => Some(*c),
                            },
                            after,
                        )
                    } else {
                        after == own
                    }
                }),
            (distinct_rows(*old(node)) && trie_labelled(*old(node), *graph, k as int, repr)) ==> (
            same_shape(*old(node), *final(node)) && freqs_ge(*old(node), *final(node))
                && freqs_ge(*final(node), *old(node))),
            forall|h: Bitgraph|
                trie_contains(*old(node), h, k as int) ==> #[trigger] trie_contains(
                    *final(node),
                    h,
                    k as int,
                ),
            forall|h: Bitgraph|
                #[trigger] trie_contains(*final(node), h, k as int) ==> trie_contains(
                    *old(node),
                    h,
                    k as int,
                ) || (h.n == graph.n && rows_agree_from(h, *graph, k as int)) || h.n < k,
            k == graph.n ==> final(node).conditions == old(node).conditions,
            k < graph.n ==> ({
                if exists|i: int|
                    0 <= i < old(node).children@.len() && rows_eq(
                        #[trigger] old(node).children@[i],
                        *graph,
                        k as int,
                    ) {
                    final(node).conditions == old(node).conditions
                } else {
                    match old(node).conditions {
                        None => final(node).conditions is None,
                        Some(own) => match conditions {
                            None => final(node).conditions is None,
                            Some(cs) => ({
                                let kept = own@.filter(|c: Condition| cs@.contains(c));
                                if kept.len() == 0 {
                                    final(node).conditions is None
                                } else {
                                    final(node).conditions is Some
                                        && final(node).conditions.unwrap()@ == kept
                                }
                            }),
                        },
                    }
                }
            }),
        decreases graph.n - k,
    {
        if k == graph.n_nodes() {
            let ghost pre = *node;
            node.set_graph(true);
            node.set_repr(repr);
            proof {
                assert forall|i: int|
                    0 <= i < node.children@.len() implies ((#[trigger] node.children@[i]).depth
                    == node.depth + 1 && node.children@[i].wf()) by {
                    assert(pre.children@[i] == node.children@[i]);
                }
                lemma_wf_core(pre, *node);
                assert forall|i: int|
                    0 <= i < node.children@.len() implies all_zero(#[trigger] node.children@[i])
                    by {
                    assert(pre.children@[i] == node.children@[i]);
                    assert(all_zero(pre.children@[i]));
                }
                assert forall|h: Bitgraph|
                    trie_contains(pre, h, k as int) implies #[trigger] trie_contains(
                    *node,
                    h,
                    k as int,
                ) by {
                    if k < h.n {
                        let i = choose|i: int|
                            0 <= i < pre.children@.len() && rows_eq(pre.children@[i], h, k as int)
                                && trie_contains(pre.children@[i], h, k as int + 1);
                        assert(node.children@[i] == pre.children@[i]);
                        assert(rows_eq(node.children@[i], h, k as int));
                    }
                }
                assert forall|h: Bitgraph|
                    #[trigger] trie_contains(*node, h, k as int) implies trie_contains(
                    pre,
                    h,
                    k as int,
                ) || (h.n == graph.n && rows_agree_from(h, *graph, k as int)) || h.n < k by {
                    if k >= h.n {
                        if !pre.is_graph {
                            if h.n == k {
                                assert(rows_agree_from(h, *graph, k as int));
                            }
                        }
                    } else {
                        let i = choose|i: int|
                            0 <= i < node.children@.len() && rows_eq(
                                node.children@[i],
                                h,
                                k as int,
                            ) && trie_contains(node.children@[i], h, k as int + 1);
                        assert(pre.children@[i] == node.children@[i]);
                        assert(trie_contains(pre, h, k as int));
                    }
                }
                if distinct_rows(pre) {
                    assert forall|i: int|
                        0 <= i < node.children@.len() implies distinct_rows(
                        #[trigger] node.children@[i],
                    ) by {
                        assert(node.children@[i] == pre.children@[i]);
                    }
                    assert(distinct_rows(*node));
                    if trie_labelled(pre, *graph, k as int, repr) {
                        assert(pre.is_graph && pre.label == repr);
                        assert(*node == pre);
                        lemma_same_shape_refl(*node);
                        lemma_freqs_ge_refl(*node);
                    }
                    assert forall|path: Seq<int>| #[trigger] path_ok(pre, path) implies node_at(
                        *node,
                        path,
                    ).conditions == node_at(pre, path).conditions by {
                        if path.len() == 0 {
                            assert(node.conditions == pre.conditions);
                        } else {
                            assert(node.children@[path[0]] == pre.children@[path[0]]);
                            assert(node_at(*node, path) == node_at(
                                node.children@[path[0]],
                                path.drop_first(),
                            ));
                            assert(node_at(pre, path) == node_at(
                                pre.children@[path[0]],
                                path.drop_first(),
                            ));
                        }
                    }
                }
            }
        } else {
            let n_children = node.children.len();
            let mut i: usize = 0;
            while i < n_children
                invariant
                    i <= n_children,
                    n_children == node.children@.len(),
                    *node == *old(node),
                    forall|t: int|
                        0 <= t < i ==> !rows_eq(#[trigger] node.children@[t], *graph, k as int),
                decreases n_children - i,
            {
                if Self::depth_eq(&node.children[i], graph, k) {
                    let ghost pre = *node;
                    let ghost old_child = node.children@[i as int];
                    proof {
                        assert(all_zero(pre.children@[i as int]));
                        assert(pre.children@[i as int].wf());
                        assert(pre.children@[i as int].depth == k + 1);
                    }
                    let child = node.child_at_mut(i);
                    Self::insert_recursively_conditional(graph, child, k + 1, conditions, repr);
                    proof {
                        let new_child = node.children@[i as int];
                        assert(node.children@ == pre.children@.update(i as int, new_child));
                        assert forall|t: int|
                            0 <= t < node.children@.len() implies ((#[trigger] node.children@[
                        t]).depth == node.depth + 1 && node.children@[t].wf()) by {
                            if t != i {
                                assert(node.children@[t] == pre.children@[t]);
                            }
                        }
                        if node.conditions is Some {
                            assert forall|t: int|
                                0 <= t < node.conditions.unwrap()@.len() implies (
                            #[trigger] node.conditions.unwrap()@[t]).u < node.conditions.unwrap()@[
                            t].v && node.conditions.unwrap()@[t].v < node.depth by {
                                assert(pre.conditions.unwrap()@[t].u < pre.conditions.unwrap()@[
                                t].v && pre.conditions.unwrap()@[t].v < pre.depth);
                            }
                        }
                        lemma_wf_core(pre, *node);
                        assert forall|t: int|
                            0 <= t < node.children@.len() implies all_zero(
                            #[trigger] node.children@[t],
                        ) by {
                            if t != i {
                                assert(node.children@[t] == pre.children@[t]);
                                assert(all_zero(pre.children@[t]));
                            }
                        }
                        lemma_rows_eq_same_rows(old_child, new_child, *graph, k as int);
                        assert(rows_eq(node.children@[i as int], *graph, k as int));
                        assert(trie_contains(*node, *graph, k as int));
                        assert forall|h: Bitgraph|
                            trie_contains(pre, h, k as int) implies #[trigger] trie_contains(
                            *node,
                            h,
                            k as int,
                        ) by {
                            if k < h.n {
                                let j = choose|j: int|
                                    0 <= j < pre.children@.len() && rows_eq(
                                        pre.children@[j],
                                        h,
                                        k as int,
                                    ) && trie_contains(pre.children@[j], h, k as int + 1);
                                if j != i {
                                    assert(node.children@[j] == pre.children@[j]);
                                } else {
                                    lemma_rows_eq_same_rows(old_child, new_child, h, k as int);
                                    assert(rows_eq(node.children@[j], h, k as int));
                                    assert(trie_contains(node.children@[j], h, k as int + 1));
                                }
                            }
                        }
                        if distinct_rows(pre) {
                            assert(distinct_rows(pre.children@[i as int]));
                            assert(distinct_rows(new_child));
                            assert forall|t: int|
                                0 <= t < node.children@.len() implies distinct_rows(
                                #[trigger] node.children@[t],
                            ) by {
                                if t != i {
                                    assert(node.children@[t] == pre.children@[t]);
                                }
                            }
                            assert forall|a: int, b: int|
                                #![trigger node.children@[a], node.children@[b]]
                                0 <= a < b < node.children@.len() implies !same_rows(
                                node.children@[a],
                                node.children@[b],
                            ) by {
                                assert(same_rows(pre.children@[a], pre.children@[b])
                                    == same_rows(node.children@[a], node.children@[b])) by {
                                    assert(node.children@[i as int].edge_in
                                        == pre.children@[i as int].edge_in);
                                    assert(node.children@[i as int].edge_out
                                        == pre.children@[i as int].edge_out);
                                    if a != i {
                                        assert(node.children@[a] == pre.children@[a]);
                                    }
                                    if b != i {
                                        assert(node.children@[b] == pre.children@[b]);
                                    }
                                }
                            }
                            assert(distinct_rows(*node));
                            if trie_labelled(pre, *graph, k as int, repr) {
                                let j = choose|j: int|
                                    0 <= j < pre.children@.len() && rows_eq(
                                        pre.children@[j],
                                        *graph,
                                        k as int,
                                    ) && trie_labelled(pre.children@[j], *graph, k as int + 1,
                                        repr);
                                assert(j == i) by {
                                    assert(pre.children@[j].wf() && pre.children@[j].depth == k
                                        + 1);
                                    assert(pre.children@[i as int].wf()
                                        && pre.children@[i as int].depth == k + 1);
                                    if j < i {
                                        lemma_rows_eq_same(
                                            pre.children@[j],
                                            pre.children@[i as int],
                                            *graph,
                                            k as int,
                                        );
                                        assert(!same_rows(
                                            pre.children@[j],
                                            pre.children@[i as int],
                                        ));
                                    }
                                    if i < j {
                                        lemma_rows_eq_same(
                                            pre.children@[i as int],
                                            pre.children@[j],
                                            *graph,
                                            k as int,
                                        );
                                        assert(!same_rows(
                                            pre.children@[i as int],
                                            pre.children@[j],
                                        ));
                                    }
                                }
                                assert(trie_labelled(old_child, *graph, k as int + 1, repr));
                                assert(same_shape(old_child, new_child) && freqs_ge(
                                    old_child,
                                    new_child,
                                ) && freqs_ge(new_child, old_child));
                                assert forall|t: int|
                                    0 <= t < node.children@.len() implies same_shape(
                                    #[trigger] pre.children@[t],
                                    node.children@[t],
                                ) && freqs_ge(pre.children@[t], node.children@[t]) && freqs_ge(
                                    node.children@[t],
                                    pre.children@[t],
                                ) by {
                                    if t != i {
                                        assert(node.children@[t] == pre.children@[t]);
                                        lemma_same_shape_refl(pre.children@[t]);
                                        lemma_freqs_ge_refl(pre.children@[t]);
                                    }
                                }
                                assert(same_shape(pre, *node));
                                assert(freqs_ge(pre, *node));
                                assert(freqs_ge(*node, pre));
                            }
                            let ghost w = choose|t: int|
                                0 <= t < pre.children@.len() && rows_eq(
                                    #[trigger] pre.children@[t],
                                    *graph,
                                    k as int,
                                );
                            assert(w == i as int) by {
                                assert(pre.children@[w].wf() && pre.children@[w].depth == k + 1);
                                assert(pre.children@[i as int].wf()
                                    && pre.children@[i as int].depth == k + 1);
                                if w < i {
                                    lemma_rows_eq_same(
                                        pre.children@[w],
                                        pre.children@[i as int],
                                        *graph,
                                        k as int,
                                    );
                                    assert(!same_rows(pre.children@[w], pre.children@[i as int]));
                                }
                                if i < w {
                                    lemma_rows_eq_same(
                                        pre.children@[i as int],
                                        pre.children@[w],
                                        *graph,
                                        k as int,
                                    );
                                    assert(!same_rows(pre.children@[i as int], pre.children@[w]));
                                }
                            }
                            assert(insert_path(pre, *graph, k as int) == seq![i as int]
                                + insert_path(old_child, *graph, k as int + 1));
                            let ghost ipc = insert_path(old_child, *graph, k as int + 1);
                            assert forall|path: Seq<int>| #[trigger] path_ok(pre, path) implies ({
                                let after = node_at(*node, path).conditions;
                                let own = node_at(pre, path).conditions;
                                if path == insert_path(pre, *graph, k as int) && k + path.len()
                                    < graph.n {
                                    conditions_intersected(
                                        own,
                                        match conditions {
                                            None => None::<Conditions>,
                                            Some(c) => Some(*c),
                                        },
                                        after,
                                    )
                                } else {
                                    after == own
                                }
                            }) by {
                                if path.len() == 0 {
                                    assert(node.conditions == pre.conditions);
                                    assert(path != insert_path(pre, *graph, k as int));
                                } else {
                                    let j = path[0];
                                    let rest = path.drop_first();
                                    assert(node_at(*node, path) == node_at(
                                        node.children@[j],
                                        rest,
                                    ));
                                    assert(node_at(pre, path) == node_at(pre.children@[j], rest));
                                    if j == i {
                                        assert(path_ok(old_child, rest));
                                        assert((path == insert_path(pre, *graph, k as int)) == (
                                        rest == ipc)) by {
                                            if path == insert_path(pre, *graph, k as int) {
                                                assert(rest =~= ipc);
                                            }
                                            if rest == ipc {
                                                assert(path =~= seq![i as int] + ipc);
                                            }
                                        }
                                    } else {
                                        assert(node.children@[j] == pre.children@[j]);
                                        if path == insert_path(pre, *graph, k as int) {
                                            assert(path[0] == i as int);
                                        }
                                    }
                                }
                            }
                        }
                        assert forall|h: Bitgraph|
                            #[trigger] trie_contains(*node, h, k as int) implies trie_contains(
                            pre,
                            h,
                            k as int,
                        ) || (h.n == graph.n && rows_agree_from(h, *graph, k as int)) || h.n < k
                            by {
                            if k >= h.n {
                                assert(node.is_graph == pre.is_graph);
                            } else {
                                let j = choose|j: int|
                                    0 <= j < node.children@.len() && rows_eq(
                                        node.children@[j],
                                        h,
                                        k as int,
                                    ) && trie_contains(node.children@[j], h, k as int + 1);
                                if j != i {
                                    assert(pre.children@[j] == node.children@[j]);
                                    assert(trie_contains(pre, h, k as int));
                                } else {
                                    // the recursion's account of the updated child
                                    assert(trie_contains(old_child, h, k as int + 1) || (h.n
                                        == graph.n && rows_agree_from(h, *graph, k as int + 1))
                                        || h.n < k + 1);
                                    if trie_contains(old_child, h, k as int + 1) {
                                        lemma_rows_eq_same_rows(new_child, old_child, h, k as int);
                                        assert(rows_eq(pre.children@[i as int], h, k as int));
                                        assert(trie_contains(pre, h, k as int));
                                    } else {
                                        assert(h.n >= k + 1);
                                        assert(h.n == graph.n && rows_agree_from(
                                            h,
                                            *graph,
                                            k as int + 1,
                                        ));
                                        // row `k` of `h` equals the child rows, which equal
                                        // row `k` of the pattern
                                        lemma_rows_eq_same_rows(new_child, old_child, h, k as int);
                                        assert(rows_eq(old_child, *graph, k as int));
                                        assert forall|kk: int, idx: int|
                                            k <= kk < h.n && 0 <= idx <= kk implies #[trigger]
                                        k_agree_at(h, *graph, kk, idx) by {
                                            if kk == k {
                                                assert(old_child.out_bit(idx) == h.edge(idx, kk));
                                                assert(old_child.out_bit(idx) == graph.edge(
                                                    idx,
                                                    kk,
                                                ));
                                                assert(old_child.in_bit(idx) == h.edge(kk, idx));
                                                assert(old_child.in_bit(idx) == graph.edge(
                                                    kk,
                                                    idx,
                                                ));
                                            } else {
                                                assert(k_agree_at(h, *graph, kk, idx));
                                            }
                                        }
                                        assert(rows_agree_from(h, *graph, k as int));
                                    }
                                }
                            }
                        }
                    }
                    return ;
                }
                i += 1;
            }
            let ghost pre = *node;
            node.intersect_conditions(conditions);
            let mut child = match conditions {
                Some(c) => GtrieNode::new_conditional(k + 1, c),
                None => GtrieNode::new(k + 1),
            };
            proof {
                lemma_two_depth_bound(*graph, k as int);
                if child.conditions is Some {
                    let kept = conditions.unwrap()@.filter(|c: Condition| c.v < k + 1);
                    lemma_filter_subset(conditions.unwrap()@, |c: Condition| c.v < k + 1);
                    assert forall|t: int|
                        0 <= t < kept.len() implies ((#[trigger] kept[t]).u < kept[t].v
                        && kept[t].v < k + 1) by {
                        conditions.unwrap()@.lemma_filter_pred(|c: Condition| c.v < k + 1, t);
                        assert(kept.contains(kept[t]));
                        assert(conditions.unwrap()@.contains(kept[t]));
                        let j = choose|j: int|
                            0 <= j < conditions.unwrap()@.len() && conditions.unwrap()@[j]
                                == kept[t];
                        assert(conditions.unwrap()@[j].u < conditions.unwrap()@[j].v);
                    }
                }
            }
            child.update_adjacency(graph, k + 1);
            proof {
                let kk = k + 1;
                assert(!graph.undirected_edge(kk - 1, kk - 1));
                assert forall|u: usize|
                    #[trigger] child.connections@.contains(u) implies u + 1 < kk && (
                child.out_bit(u as int) || child.in_bit(u as int)) by {
                    assert(u < kk && graph.undirected_edge(u as int, kk - 1));
                    assert(u != kk - 1);
                    assert(bit_set(child.edge_out).contains(u) <==> (u < kk && graph.edge(
                        u as int,
                        kk - 1,
                    )));
                    assert(bit_set(child.edge_in).contains(u) <==> (u < kk && graph.edge(
                        kk - 1,
                        u as int,
                    )));
                }
                assert forall|u: int|
                    0 <= u < kk && (child.out_bit(u) || child.in_bit(u))
                        implies child.connections@.contains(u as usize) by {
                    assert(bit_set(child.edge_out).contains(u as usize) <==> (u < kk
                        && graph.edge(u, kk - 1)));
                    assert(bit_set(child.edge_in).contains(u as usize) <==> (u < kk
                        && graph.edge(kk - 1, u)));
                    assert(graph.undirected_edge(u, kk - 1));
                }
                if kk >= 2 {
                    assert(graph.connects_earlier(k as int));
                    let j = choose|j: int| 0 <= j < k && graph.undirected_edge(j, k as int);
                    assert(child.connections@.contains(j as usize));
                    assert(child.connections@.len() > 0);
                }
                assert(child.depth >= 1 ==> !child.out_bit(child.depth - 1) && !child.in_bit(
                    child.depth - 1,
                ));
                assert(child.local_wf());
                assert(child.wf());
                assert(all_zero(child));
            }
            let ghost fresh_child = child;
            Self::insert_recursively_conditional(graph, &mut child, k + 1, conditions, repr);
            let ghost mid = *node;
            let ghost done_child = child;
            node.insert_child(child);
            proof {
                assert(node.children@ == pre.children@.push(done_child));
                assert forall|t: int|
                    0 <= t < node.children@.len() implies ((#[trigger] node.children@[t]).depth
                    == node.depth + 1 && node.children@[t].wf()) by {
                    if t < pre.children@.len() {
                        assert(node.children@[t] == pre.children@[t]);
                    } else {
                        assert(node.children@[t] == done_child);
                    }
                }
                if node.conditions is Some {
                    assert(mid.conditions == node.conditions);
                    let own = pre.conditions.unwrap()@;
                    let kept = own.filter(
                        |c: Condition| conditions.unwrap()@.contains(c),
                    );
                    lemma_filter_subset(own, |c: Condition| conditions.unwrap()@.contains(c));
                    assert forall|t: int|
                        0 <= t < node.conditions.unwrap()@.len() implies ((
                    #[trigger] node.conditions.unwrap()@[t]).u < node.conditions.unwrap()@[t].v
                        && node.conditions.unwrap()@[t].v < node.depth) by {
                        assert(node.conditions.unwrap()@ == kept);
                        assert(kept.contains(kept[t]));
                        assert(own.contains(kept[t]));
                        let j = choose|j: int| 0 <= j < own.len() && own[j] == kept[t];
                        assert(own[j].u < own[j].v && own[j].v < pre.depth);
                    }
                }
                lemma_wf_core(pre, *node);
                assert forall|t: int|
                    0 <= t < node.children@.len() implies all_zero(#[trigger] node.children@[t])
                    by {
                    if t < pre.children@.len() {
                        assert(node.children@[t] == pre.children@[t]);
                        assert(all_zero(pre.children@[t]));
                    } else {
                        assert(node.children@[t] == done_child);
                    }
                }
                let widx = node.children@.len() - 1;
                assert(node.children@[widx] == done_child);
                assert forall|idx: int|
                    0 <= idx <= k implies (#[trigger] done_child.out_bit(idx)) == graph.edge(
                    idx,
                    k as int,
                ) && done_child.in_bit(idx) == graph.edge(k as int, idx) by {
                    assert(bit_set(done_child.edge_out).contains(idx as usize) <==> (idx < k + 1
                        && graph.edge(idx, k as int)));
                    assert(bit_set(done_child.edge_in).contains(idx as usize) <==> (idx < k + 1
                        && graph.edge(k as int, idx)));
                }
                assert(rows_eq(done_child, *graph, k as int));
                assert(trie_contains(*node, *graph, k as int));
                assert forall|h: Bitgraph|
                    trie_contains(pre, h, k as int) implies #[trigger] trie_contains(
                    *node,
                    h,
                    k as int,
                ) by {
                    if k < h.n {
                        let j = choose|j: int|
                            0 <= j < pre.children@.len() && rows_eq(pre.children@[j], h, k as int)
                                && trie_contains(pre.children@[j], h, k as int + 1);
                        assert(node.children@[j] == pre.children@[j]);
                    }
                }
                if distinct_rows(pre) {
                    assert(distinct_rows(fresh_child));
                    assert(distinct_rows(done_child));
                    assert forall|t: int|
                        0 <= t < node.children@.len() implies distinct_rows(
                        #[trigger] node.children@[t],
                    ) by {
                        if t < pre.children@.len() {
                            assert(node.children@[t] == pre.children@[t]);
                        } else {
                            assert(node.children@[t] == done_child);
                        }
                    }
                    assert forall|a: int, b: int|
                        #![trigger node.children@[a], node.children@[b]]
                        0 <= a < b < node.children@.len() implies !same_rows(
                        node.children@[a],
                        node.children@[b],
                    ) by {
                        if b < pre.children@.len() {
                            assert(node.children@[a] == pre.children@[a]);
                            assert(node.children@[b] == pre.children@[b]);
                        } else {
                            assert(node.children@[a] == pre.children@[a]);
                            assert(node.children@[b] == done_child);
                            if same_rows(pre.children@[a], done_child) {
                                assert(rows_eq(pre.children@[a], *graph, k as int)) by {
                                    assert forall|idx: int|
                                        0 <= idx <= k implies (#[trigger] pre.children@[
                                    a].out_bit(idx)) == graph.edge(idx, k as int)
                                        && pre.children@[a].in_bit(idx) == graph.edge(
                                        k as int,
                                        idx,
                                    ) by {
                                        assert(done_child.out_bit(idx) == graph.edge(
                                            idx,
                                            k as int,
                                        ));
                                        assert(done_child.in_bit(idx) == graph.edge(
                                            k as int,
                                            idx,
                                        ));
                                    }
                                }
                            }
                        }
                    }
                    assert(distinct_rows(*node));
                    if trie_labelled(pre, *graph, k as int, repr) {
                        let j = choose|j: int|
                            0 <= j < pre.children@.len() && rows_eq(
                                pre.children@[j],
                                *graph,
                                k as int,
                            ) && trie_labelled(pre.children@[j], *graph, k as int + 1, repr);
                        assert(false);
                    }
                    assert(insert_path(pre, *graph, k as int) == Seq::<int>::empty()) by {
                        if exists|t: int|
                            0 <= t < pre.children@.len() && rows_eq(
                                #[trigger] pre.children@[t],
                                *graph,
                                k as int,
                            ) {
                            let t = choose|t: int|
                                0 <= t < pre.children@.len() && rows_eq(
                                    #[trigger] pre.children@[t],
                                    *graph,
                                    k as int,
                                );
                            assert(!rows_eq(pre.children@[t], *graph, k as int));
                        }
                    }
                    assert forall|path: Seq<int>| #[trigger] path_ok(pre, path) implies ({
                        let after = node_at(*node, path).conditions;
                        let own = node_at(pre, path).conditions;
                        if path == insert_path(pre, *graph, k as int) && k + path.len() < graph.n {
                            conditions_intersected(
                                own,
                                match conditions {
                                    None => None::<Conditions>,
                                    Some(c) => Some(*c),
                                },
                                after,
                            )
                        } else {
                            after == own
                        }
                    }) by {
                        if path.len() == 0 {
                            assert(path =~= Seq::<int>::empty());
                            assert(path == insert_path(pre, *graph, k as int));
                            if pre.conditions is Some && conditions is Some {
                                let o = pre.conditions.unwrap()@;
                                lemma_filter_same(
                                    o,
                                    |c: Condition| conditions.unwrap()@.contains(c),
                                    |c: Condition| (match conditions {
                                        None => None::<Conditions>,
                                        Some(cc) => Some(*cc),
                                    }).unwrap()@.contains(c),
                                );
                            }
                            assert(conditions_intersected(
                                pre.conditions,
                                match conditions {
                                    None => None::<Conditions>,
                                    Some(c) => Some(*c),
                                },
                                node.conditions,
                            ));
                        } else {
                            assert(path != insert_path(pre, *graph, k as int));
                            assert(node.children@[path[0]] == pre.children@[path[0]]);
                            assert(node_at(*node, path) == node_at(
                                node.children@[path[0]],
                                path.drop_first(),
                            ));
                            assert(node_at(pre, path) == node_at(
                                pre.children@[path[0]],
                                path.drop_first(),
                            ));
                        }
                    }
                }
                assert forall|h: Bitgraph|
                    #[trigger] trie_contains(*node, h, k as int) implies trie_contains(
                    pre,
                    h,
                    k as int,
                ) || (h.n == graph.n && rows_agree_from(h, *graph, k as int)) || h.n < k by {
                    if k >= h.n {
                        assert(node.is_graph == pre.is_graph);
                    } else {
                        let j = choose|j: int|
                            0 <= j < node.children@.len() && rows_eq(
                                node.children@[j],
                                h,
                                k as int,
                            ) && trie_contains(node.children@[j], h, k as int + 1);
                        if j < pre.children@.len() {
                            assert(node.children@[j] == pre.children@[j]);
                            assert(trie_contains(pre, h, k as int));
                        } else {
                            assert(node.children@[j] == done_child);
                            assert(rows_eq(done_child, h, k as int));
                            assert(!trie_contains(fresh_child, h, k as int + 1)) by {
                                if k + 1 < h.n {
                                    assert(fresh_child.children@.len() == 0);
                                }
                            }
                            assert(h.n >= k + 1);
                            assert(h.n == graph.n && rows_agree_from(h, *graph, k as int + 1));
                            assert forall|kk: int, idx: int|
                                k <= kk < h.n && 0 <= idx <= kk implies #[trigger] k_agree_at(
                                h,
                                *graph,
                                kk,
                                idx,
                            ) by {
                                if kk == k {
                                    assert(rows_eq(done_child, h, k as int));
                                    assert(rows_eq(done_child, *graph, k as int));
                                    assert(done_child.out_bit(idx) == h.edge(idx, kk));
                                    assert(done_child.out_bit(idx) == graph.edge(idx, kk));
                                    assert(done_child.in_bit(idx) == h.edge(kk, idx));
                                    assert(done_child.in_bit(idx) == graph.edge(kk, idx));
                                } else {
                                    assert(k_agree_at(h, *graph, kk, idx));
                                }
                            }
                            assert(rows_agree_from(h, *graph, k as int));
                        }
                    }
                }
            }
        }
    }

    /// Runs the census of `graph`: matches every stored pattern against the
    /// host and counts, for each terminal, the condition-respecting induced
    /// occurrences.  The trie keeps its shape, the total grows by exactly
    /// the model count [`spec_census`] (capped at `usize::MAX`, unreachable
    /// in practice), it always equals the sum of all terminal frequencies,
    /// and below the cap every single node's counter grows by exactly the
    /// model count of its own path, [`spec_census_path`].
    #[verifier::loop_isolation(false)]
    pub fn census(&mut self, graph: &Bitgraph)
        requires
            old(self).wf(),
            graph.wf(),
        ensures
            final(self).wf(),
            final(self).max_depth == old(self).max_depth,
            same_shape(old(self).root, final(self).root),
            freqs_ge(old(self).root, final(self).root),
            old(self).total_subgraphs <= final(self).total_subgraphs,
            final(self).total_subgraphs as int == final(self).root.sum_freq(),
            final(self).total_subgraphs - old(self).total_subgraphs == final(self).root.sum_freq()
                - old(self).root.sum_freq(),
            final(self).total_subgraphs == ({
                let m = spec_census(old(self).root, *graph);
                if old(self).total_subgraphs + m <= usize::MAX {
                    old(self).total_subgraphs + m
                } else {
                    usize::MAX as int
                }
            }),
            (old(self).total_subgraphs + spec_census(old(self).root, *graph) <= usize::MAX)
                ==> forall|path: Seq<int>|
                #[trigger] path_ok(old(self).root, path) ==> node_at(
                    final(self).root,
                    path,
                ).frequency as int == node_at(old(self).root, path).frequency + spec_census_path(
                    old(self).root,
                    *graph,
                    path,
                ),
    {
        let mut used: Vec<usize> = Vec::with_capacity(self.max_depth);
        let mut candidates = Candidates::new(graph.n_nodes());
        let mut blacklist = bits_with_capacity(graph.n_nodes());
        let ghost root0 = self.root;
        let ghost total0 = self.total_subgraphs;
        proof {
            lemma_same_shape_refl(self.root);
            lemma_freqs_ge_refl(self.root);
        }
        let n_children = self.root.children.len();
        let mut c: usize = 0;
        while c < n_children
            invariant
                c <= n_children,
                n_children == self.root.children@.len(),
                same_shape(root0, self.root),
                freqs_ge(root0, self.root),
                self.root.wf(),
                self.root.depth == 0,
                used@ == Seq::<usize>::empty(),
                bit_capacity(blacklist) == graph.n,
                bit_set(blacklist) == Set::<usize>::empty(),
                candidates.wf(),
                candidates.size == graph.n,
                candidates.queue() == Seq::<usize>::empty(),
                candidates.seen() == Set::<usize>::empty(),
                self.max_depth == old(self).max_depth,
                self.total_subgraphs - total0 == self.root.sum_freq() - root0.sum_freq(),
                total0 <= self.total_subgraphs,
                self.root.sum_freq() <= self.total_subgraphs,
                0 <= spec_match_children(root0.children@, *graph, Seq::<usize>::empty(),
                    Set::<usize>::empty(), c as int),
                self.total_subgraphs == ({
                    let m = spec_match_children(root0.children@, *graph, Seq::<usize>::empty(),
                        Set::<usize>::empty(), c as int);
                    if total0 + m <= usize::MAX {
                        total0 + m
                    } else {
                        usize::MAX as int
                    }
                }),
                total0 + spec_census(root0, *graph) <= usize::MAX ==> forall|path: Seq<int>|
                    #[trigger] path_ok(root0, path) ==> node_at(self.root, path).frequency as int
                        == node_at(root0, path).frequency + (if path.len() > 0 && path[0] < c {
                        spec_census_path(root0, *graph, path)
                    } else {
                        0int
                    }),
            decreases n_children - c,
        {
            let ghost pre_root = self.root;
            proof {
                lemma_child_sum_le(self.root, c as int);
                assert(used@.to_set() =~= Set::<usize>::empty());
                assert(self.root.children@[c as int].wf());
                assert(self.root.children@[c as int].depth == 1);
                if total0 + spec_census(root0, *graph) <= usize::MAX {
                    lemma_spec_match_children_mono(root0.children@, *graph,
                        Seq::<usize>::empty(), Set::<usize>::empty(), c + 1,
                        n_children as int);
                    lemma_spec_match_shape(
                        root0.children@[c as int],
                        pre_root.children@[c as int],
                        *graph,
                        Seq::<usize>::empty(),
                        Set::<usize>::empty(),
                    );
                    assert(spec_match_children(root0.children@, *graph, Seq::<usize>::empty(),
                        Set::<usize>::empty(), c + 1) == spec_match_children(root0.children@,
                        *graph, Seq::<usize>::empty(), Set::<usize>::empty(), c as int)
                        + spec_match(root0.children@[c as int], *graph, Seq::<usize>::empty(),
                        Set::<usize>::empty())) by {
                        crate::node::lemma_seq_height_elem(root0.children@, c as int);
                    }
                    assert(self.total_subgraphs + spec_match(pre_root.children@[c as int],
                        *graph, used@, bit_set(blacklist)) <= usize::MAX);
                }
            }
            let child = self.root.child_at_mut(c);
            match_child_conditionally(
                child,
                &mut used,
                &mut candidates,
                &mut blacklist,
                graph,
                &mut self.total_subgraphs,
            );
            proof {
                let mc_child = spec_match(root0.children@[c as int], *graph,
                    Seq::<usize>::empty(), Set::<usize>::empty());
                assert(same_shape(root0.children@[c as int], pre_root.children@[c as int]));
                lemma_spec_match_shape(
                    root0.children@[c as int],
                    pre_root.children@[c as int],
                    *graph,
                    Seq::<usize>::empty(),
                    Set::<usize>::empty(),
                );
                lemma_spec_match_nonneg(root0.children@[c as int], *graph,
                    Seq::<usize>::empty(), Set::<usize>::empty());
                assert(spec_match_children(root0.children@, *graph, Seq::<usize>::empty(),
                    Set::<usize>::empty(), c + 1) == spec_match_children(root0.children@, *graph,
                    Seq::<usize>::empty(), Set::<usize>::empty(), c as int) + mc_child);
                let new_child = self.root.children@[c as int];
                assert(self.root.children@ == pre_root.children@.update(c as int, new_child));
                lemma_seq_sum_update(pre_root.children@, c as int, new_child);
                assert forall|t: int|
                    0 <= t < self.root.children@.len() implies same_shape(
                    #[trigger] root0.children@[t],
                    self.root.children@[t],
                ) by {
                    if t == c {
                        lemma_same_shape_trans(
                            root0.children@[t],
                            pre_root.children@[t],
                            self.root.children@[t],
                        );
                    } else {
                        assert(self.root.children@[t] == pre_root.children@[t]);
                    }
                }
                assert(same_shape(root0, self.root));
                assert forall|t: int|
                    0 <= t < self.root.children@.len() implies same_shape(
                    #[trigger] pre_root.children@[t],
                    self.root.children@[t],
                ) by {
                    if t != c {
                        assert(self.root.children@[t] == pre_root.children@[t]);
                        lemma_same_shape_refl(pre_root.children@[t]);
                    }
                }
                assert(same_shape(pre_root, self.root));
                lemma_same_shape_wf(pre_root, self.root);
                assert forall|t: int|
                    0 <= t < self.root.children@.len() implies freqs_ge(
                    #[trigger] root0.children@[t],
                    self.root.children@[t],
                ) by {
                    if t == c {
                        lemma_freqs_ge_trans(
                            root0.children@[t],
                            pre_root.children@[t],
                            self.root.children@[t],
                        );
                    } else {
                        assert(self.root.children@[t] == pre_root.children@[t]);
                    }
                }
                assert(freqs_ge(root0, self.root));
                if total0 + spec_census(root0, *graph) <= usize::MAX {
                    assert forall|path: Seq<int>|
                        #[trigger] path_ok(root0, path) implies node_at(
                        self.root,
                        path,
                    ).frequency as int == node_at(root0, path).frequency + (if path.len() > 0
                        && path[0] < c + 1 {
                        spec_census_path(root0, *graph, path)
                    } else {
                        0int
                    }) by {
                        if path.len() == 0 {
                            assert(self.root.frequency == pre_root.frequency);
                        } else {
                            let rest = path.drop_first();
                            let j = path[0];
                            assert(node_at(self.root, path) == node_at(
                                self.root.children@[j],
                                rest,
                            ));
                            assert(node_at(root0, path) == node_at(root0.children@[j], rest));
                            if j == c {
                                assert(path_ok(root0.children@[j], rest));
                                lemma_path_ok_shape(
                                    root0.children@[j],
                                    pre_root.children@[j],
                                    rest,
                                );
                                assert(node_at(self.root.children@[j], rest).frequency as int
                                    == node_at(pre_root.children@[j], rest).frequency
                                    + spec_path_delta(
                                    pre_root.children@[j],
                                    *graph,
                                    Seq::<usize>::empty(),
                                    Set::<usize>::empty(),
                                    rest,
                                ));
                                lemma_spec_path_delta_shape(
                                    root0.children@[j],
                                    pre_root.children@[j],
                                    *graph,
                                    Seq::<usize>::empty(),
                                    Set::<usize>::empty(),
                                    rest,
                                );
                                assert(spec_census_path(root0, *graph, path) == spec_path_delta(
                                    root0.children@[j],
                                    *graph,
                                    Seq::<usize>::empty(),
                                    Set::<usize>::empty(),
                                    rest,
                                ));
                                assert(node_at(pre_root, path).frequency as int == node_at(
                                    root0,
                                    path,
                                ).frequency + 0);
                                assert(node_at(pre_root, path) == node_at(
                                    pre_root.children@[j],
                                    rest,
                                ));
                            } else {
                                assert(self.root.children@[j] == pre_root.children@[j]);
                            }
                        }
                    }
                }
            }
            c += 1;
        }
    }
}


impl Gtrie {
    /// Canonicalises one pattern with the oracle's orbits and automorphisms
    /// and stores it in the trie, returning its graph6 label.  The pattern
    /// must fit the trie's depth and the graph6 size limit, carry no
    /// self-loop, and — after the relabelling — connect every vertex to an
    /// earlier one; otherwise the trie is left untouched and the offending
    /// property is reported.  Each rejection comes exactly on the inputs its
    /// name says, checked in that order, and every pattern passing all four
    /// checks is stored.
    pub fn add_pattern(
        &mut self,
        pattern: &mut Bitgraph,
        orbits: &Vec<usize>,
        autos: &Vec<Vec<usize>>,
    ) -> (r: Result<String, GraphError>)
        requires
            old(self).wf(),
            all_zero(old(self).root),
            old(pattern).wf(),
            old(pattern).n >= 1,
            orbits@.len() == old(pattern).n,
            forall|t: int|
                0 <= t < autos@.len() ==> (#[trigger] autos@[t])@.len() == old(pattern).n,
        ensures
            r is Err ==> *final(self) == *old(self),
            r == Err::<String, GraphError>(GraphError::PatternTooDeep)
                <==> old(pattern).n > old(self).max_depth,
            r == Err::<String, GraphError>(GraphError::TooLarge)
                <==> (old(pattern).n <= old(self).max_depth && old(pattern).n > 62),
            r == Err::<String, GraphError>(GraphError::LoopedPattern)
                <==> (old(pattern).n <= old(self).max_depth && old(pattern).n <= 62 && !old(
                pattern).spec_diag_free()),
            r == Err::<String, GraphError>(GraphError::DisconnectedPattern)
                ==> !final(pattern).spec_prefix_connected(),
            (old(pattern).n <= old(self).max_depth && old(pattern).n <= 62 && old(
                pattern).spec_diag_free()) ==> (r is Ok || r == Err::<String, GraphError>(
                GraphError::DisconnectedPattern,
            )),
            r is Ok ==> final(pattern).spec_prefix_connected(),
            r is Ok ==> trie_labelled(final(self).root, *final(pattern), 0, Some(r->Ok_0)),
            (r is Ok && distinct_rows(old(self).root)) ==> distinct_rows(final(self).root),
            r is Ok ==> r->Ok_0@ == crate::io::graph6_of(
                Seq::new(
                    (final(pattern).n * final(pattern).n) as nat,
                    |k: int| if final(pattern).edge(
                        k / final(pattern).n as int,
                        k % final(pattern).n as int,
                    ) {
                        1usize
                    } else {
                        0usize
                    },
                ),
                final(pattern).n as int,
                final(pattern).is_dir,
            ),
            r is Ok ==> {
                &&& final(self).wf()
                &&& all_zero(final(self).root)
                &&& final(self).max_depth == old(self).max_depth
                &&& final(self).total_subgraphs == old(self).total_subgraphs
                &&& final(pattern).wf()
                &&& final(pattern).n == old(pattern).n
                &&& trie_contains(final(self).root, *final(pattern), 0)
                &&& forall|h: Bitgraph|
                    trie_contains(old(self).root, h, 0) ==> #[trigger] trie_contains(
                        final(self).root,
                        h,
                        0,
                    )
                &&& forall|h: Bitgraph|
                    #[trigger] trie_contains(final(self).root, h, 0) ==> trie_contains(
                        old(self).root,
                        h,
                        0,
                    ) || same_graph(h, *final(pattern))
            },
    {
        let n = pattern.n_nodes();
        if n > self.max_depth {
            return Err(GraphError::PatternTooDeep);
        }
        if n > 62 {
            return Err(GraphError::TooLarge);
        }
        if !pattern.is_diag_free() {
            return Err(GraphError::LoopedPattern);
        }
        let ghost adj0 = pattern.adj;
        let canon = canonical_based_nauty(pattern.adjacency(), n, orbits, autos);
        proof {
            pattern.lemma_n_lt_max();
        }
        pattern.overwrite_adjacency(canon.adjacency());
        proof {
            // relabelling a loop-free pattern keeps it loop-free
            let lab = choose|labels: Seq<usize>|
                {
                    &&& labels.len() == n
                    &&& (forall|p: int| 0 <= p < n ==> (#[trigger] labels[p]) < n)
                    &&& (forall|p: int, q: int| 0 <= p < q < n ==> labels[p] != labels[q])
                    &&& (forall|u: int, v: int|
                        0 <= u < n && 0 <= v < n ==> (#[trigger] crate::bitgraph::adj_edge(
                            canon.adj,
                            n as int,
                            u,
                            v,
                        ) <==> crate::bitgraph::adj_edge(
                            adj0,
                            n as int,
                            labels[u] as int,
                            labels[v] as int,
                        )))
                    &&& (forall|p: int| 0 <= p < n ==> canon.orbits@[p] == orbits@[labels[p] as int])
                };
            assert forall|u: int| 0 <= u < pattern.n implies !pattern.edge(u, u) by {
                assert(crate::bitgraph::adj_edge(pattern.adj, n as int, u, u)
                    == crate::bitgraph::adj_edge(canon.adj, n as int, u, u));
                assert(crate::bitgraph::adj_edge(canon.adj, n as int, u, u)
                    == crate::bitgraph::adj_edge(adj0, n as int, lab[u] as int, lab[u] as int));
                assert(!old(pattern).edge(lab[u] as int, lab[u] as int));
            }
        }
        if !pattern.is_prefix_connected() {
            return Err(GraphError::DisconnectedPattern);
        }
        let label = crate::io::pattern_label(pattern);
        let label_copy = label.clone();
        self.insert(pattern, canon.conditions().as_ref(), Some(label));
        Ok(label_copy)
    }
}

/// Loads the host graph from a 1-indexed numeric edge list (self-loops
/// kept, as the matcher never assigns one vertex twice), runs the census
/// over it, and reports the total number of matches counted.  Fails exactly
/// as the edge-list grammar dictates (or with `TooLarge` when the host's
/// adjacency matrix cannot exist); on every parseable host of storable size
/// the census runs.  The trie's shape is unchanged and its total stays the
/// sum of all terminal frequencies.
pub fn enumerate_subgraphs(gtrie: &mut Gtrie, input: &Vec<u8>) -> (r: Result<usize, GraphError>)
    requires
        old(gtrie).wf(),
        input@.len() < usize::MAX,
    ensures
        match crate::io::spec_parse_edges(input@, 0, true) {
            Err(e) => r == Err::<usize, GraphError>(e),
            Ok(es) => {
                let n = crate::io::spec_graph_order(es);
                if n <= usize::MAX && n * n <= usize::MAX {
                    r is Ok
                } else {
                    r == Err::<usize, GraphError>(GraphError::TooLarge)
                }
            },
        },
        r is Err ==> *final(gtrie) == *old(gtrie),
        r is Ok ==> {
            &&& final(gtrie).wf()
            &&& final(gtrie).max_depth == old(gtrie).max_depth
            &&& same_shape(old(gtrie).root, final(gtrie).root)
            &&& freqs_ge(old(gtrie).root, final(gtrie).root)
            &&& old(gtrie).total_subgraphs <= final(gtrie).total_subgraphs
            &&& r->Ok_0 == final(gtrie).total_subgraphs
            &&& final(gtrie).total_subgraphs as int == final(gtrie).root.sum_freq()
        },
        r is Ok ==> crate::io::spec_parse_edges(input@, 0, true) is Ok
            && exists|h: Bitgraph|
            {
                let es = crate::io::spec_parse_edges(input@, 0, true).unwrap();
                &&& h.wf()
                &&& h.n == crate::io::spec_graph_order(es)
                &&& (forall|a: int, b: int|
                    0 <= a < h.n && 0 <= b < h.n ==> (#[trigger] h.edge(a, b) <==> es.contains(
                        (a as u32, b as u32),
                    )))
                &&& final(gtrie).total_subgraphs == ({
                    let m = #[trigger] spec_census(old(gtrie).root, h);
                    if old(gtrie).total_subgraphs + m <= usize::MAX {
                        old(gtrie).total_subgraphs + m
                    } else {
                        usize::MAX as int
                    }
                })
                &&& (old(gtrie).total_subgraphs + spec_census(old(gtrie).root, h) <= usize::MAX
                    ==> forall|path: Seq<int>|
                    #[trigger] path_ok(old(gtrie).root, path) ==> node_at(
                        final(gtrie).root,
                        path,
                    ).frequency as int == node_at(old(gtrie).root, path).frequency
                        + spec_census_path(old(gtrie).root, h, path))
            },
{
    let host = crate::io::load_numeric_graph_from_buffer(input, true);
    match host {
        Err(e) => Err(e),
        Ok(graph) => {
            gtrie.census(&graph);
            proof {
                // the parsed host graph is the witness for the census account
                crate::census::lemma_spec_match_children_nonneg(
                    old(gtrie).root.children@,
                    graph,
                    Seq::<usize>::empty(),
                    Set::<usize>::empty(),
                    old(gtrie).root.children@.len() as int,
                );
                assert(spec_census(old(gtrie).root, graph) >= 0);
            }
            Ok(gtrie.total_subgraphs())
        },
    }
}

} // verus!
