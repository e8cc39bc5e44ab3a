//! The census (matching) engine.
//!
//! A backtracking search walks the g-trie and the host graph in lock-step.
//! `used` holds the host vertices assigned to positions `0 .. depth - 1`, a
//! blacklist bit-set mirrors them, and a deduplicating [`Candidates`] buffer
//! collects the host vertices that may fill the next position.  A partial
//! assignment is extended only when the induced host subgraph on the chosen
//! vertices matches the node's adjacency rows exactly, and only while every
//! symmetry-breaking condition of the node is respected.

use vstd::prelude::*;

use fixedbitset::FixedBitSet;

use crate::bitgraph::Bitgraph;
use crate::bits::{bit_capacity, bit_set, bits_contains, bits_insert, bits_remove,
    bits_with_capacity};
use crate::node::{freqs_ge, lemma_child_height_lt, lemma_child_sum_le, lemma_freqs_ge_refl,
    lemma_freqs_ge_trans, lemma_same_shape_except_freq, lemma_same_shape_height,
    lemma_same_shape_refl, lemma_same_shape_trans, lemma_same_shape_wf, lemma_seq_height_elem,
    lemma_seq_sum_nonneg, lemma_seq_sum_update, same_shape, seq_height, GtrieNode};
use crate::symmetry::{Condition, Conditions};

verus! {

/// A deduplicating ordered buffer of host-vertex candidates: a stack of
/// distinct vertices plus a bit-set recording every vertex ever inserted
/// since the last `clear`.
pub struct Candidates {
    pub candidates: Vec<usize>,
    pub blacklist: FixedBitSet,
    pub size: usize,
}

impl Candidates {
    /// The vertices currently waiting, in insertion order.
    pub open spec fn queue(self) -> Seq<usize> {
        self.candidates@
    }

    /// The vertices inserted since the last `clear`, popped or not.
    pub open spec fn seen(self) -> Set<usize> {
        bit_set(self.blacklist)
    }

    pub open spec fn wf(self) -> bool {
        &&& bit_capacity(self.blacklist) == self.size
        &&& forall|x: usize| #[trigger] self.seen().contains(x) ==> x < self.size
        &&& forall|i: int|
            0 <= i < self.queue().len() ==> self.seen().contains(#[trigger] self.queue()[i])
        &&& forall|i: int, j: int|
            0 <= i < j < self.queue().len() ==> self.queue()[i] != self.queue()[j]
    }

    /// An empty buffer able to hold the vertices `0 .. size`.
    pub fn new(size: usize) -> (r: Candidates)
        ensures
            r.wf(),
            r.size == size,
            r.queue() == Seq::<usize>::empty(),
            r.seen() == Set::<usize>::empty(),
    {
        Candidates {
            candidates: Vec::with_capacity(size),
            blacklist: bits_with_capacity(size),
            size,
        }
    }

    /// Inserts `idx` unless it was already inserted since the last `clear`.
    pub fn insert(&mut self, idx: usize)
        requires
            old(self).wf(),
            idx < old(self).size,
        ensures
            final(self).wf(),
            final(self).size == old(self).size,
            old(self).seen().contains(idx) ==> final(self).queue() == old(self).queue()
                && final(self).seen() == old(self).seen(),
            !old(self).seen().contains(idx) ==> final(self).queue() == old(self).queue().push(idx)
                && final(self).seen() == old(self).seen().insert(idx),
    {
        if bits_contains(&self.blacklist, idx) {
            return ;
        }
        let ghost qpre = self.queue();
        self.candidates.push(idx);
        bits_insert(&mut self.blacklist, idx);
        proof {
            assert forall|i: int, j: int|
                0 <= i < j < self.queue().len() implies self.queue()[i] != self.queue()[j] by {
                if j == self.queue().len() - 1 {
                    assert(old(self).seen().contains(qpre[i]));
                }
            }
            assert forall|x: usize| #[trigger] self.seen().contains(x) implies x < self.size by {
                if x != idx {
                    assert(old(self).seen().contains(x));
                }
            }
        }
    }

    /// Inserts every host vertex `0 .. size`, in increasing order.
    pub fn fill(&mut self)
        requires
            old(self).wf(),
        ensures
            final(self).wf(),
            final(self).size == old(self).size,
            forall|x: usize|
                #[trigger] final(self).seen().contains(x) <==> (old(self).seen().contains(x) || x
                    < old(self).size),
            final(self).queue().len() >= old(self).queue().len(),
            final(self).queue().subrange(0, old(self).queue().len() as int) == old(self).queue(),
            forall|v: usize|
                #[trigger] final(self).queue().contains(v) <==> (old(self).queue().contains(v) || (
                v < old(self).size && !old(self).seen().contains(v))),
            forall|i: int, j: int|
                old(self).queue().len() <= i < j < final(self).queue().len()
                    ==> final(self).queue()[i] < final(self).queue()[j],
    {
        let ghost q0 = self.queue();
        let ghost s0 = self.seen();
        let size = self.size;
        let mut i: usize = 0;
        while i < size
            invariant
                self.wf(),
                self.size == size,
                i <= size,
                forall|x: usize|
                    #[trigger] self.seen().contains(x) <==> (s0.contains(x) || x < i),
                self.queue().len() >= q0.len(),
                self.queue().subrange(0, q0.len() as int) == q0,
                forall|v: usize|
                    #[trigger] self.queue().contains(v) <==> (q0.contains(v) || (v < i
                        && !s0.contains(v))),
                forall|a: int, b: int|
                    q0.len() <= a < b < self.queue().len() ==> self.queue()[a] < self.queue()[b],
                forall|a: int|
                    q0.len() <= a < self.queue().len() ==> (#[trigger] self.queue()[a]) < i,
            decreases size - i,
        {
            let ghost qpre = self.queue();
            let ghost spre = self.seen();
            self.insert(i);
            proof {
                if !spre.contains(i) {
                    assert(self.queue() == qpre.push(i));
                    assert forall|v: usize| #[trigger]
                        self.queue().contains(v) implies (q0.contains(v) || (v < i + 1
                        && !s0.contains(v))) by {
                        if v != i {
                            let j = choose|j: int|
                                0 <= j < self.queue().len() && self.queue()[j] == v;
                            assert(qpre[j] == v);
                            assert(qpre.contains(v));
                        }
                    }
                    assert forall|v: usize|
                        q0.contains(v) || (v < i + 1 && !s0.contains(v)) implies #[trigger] self
                        .queue().contains(v) by {
                        if v == i {
                            assert(self.queue()[self.queue().len() - 1] == i);
                        } else {
                            assert(qpre.contains(v));
                            let j = choose|j: int| 0 <= j < qpre.len() && qpre[j] == v;
                            assert(self.queue()[j] == v);
                        }
                    }
                    assert(self.queue().subrange(0, q0.len() as int) =~= qpre.subrange(
                        0,
                        q0.len() as int,
                    ));
                } else {
                    assert(s0.contains(i) || i < i + 1);
                }
            }
            i += 1;
        }
    }

    /// Removes and returns the most recently inserted waiting vertex.
    pub fn pop(&mut self) -> (r: Option<usize>)
        requires
            old(self).wf(),
        ensures
            final(self).wf(),
            final(self).size == old(self).size,
            final(self).seen() == old(self).seen(),
            old(self).queue().len() == 0 ==> r is None && final(self).queue() == old(self).queue(),
            old(self).queue().len() > 0 ==> r == Some(old(self).queue().last())
                && final(self).queue() == old(self).queue().drop_last(),
    {
        self.candidates.pop()
    }

    /// Empties the buffer and forgets every insertion.
    pub fn clear(&mut self)
        requires
            old(self).wf(),
        ensures
            final(self).wf(),
            final(self).size == old(self).size,
            final(self).queue() == Seq::<usize>::empty(),
            final(self).seen() == Set::<usize>::empty(),
    {
        self.candidates.clear();
        crate::bits::bits_clear(&mut self.blacklist);
    }
}

/// All symmetry-breaking conditions of `cs` hold on every pair of assigned
/// positions.
pub open spec fn spec_pairs_respected(used: Seq<usize>, cs: Conditions) -> bool {
    forall|i: int, j: int|
        0 <= i < j < used.len() ==> cs.spec_respects_all(i, j, #[trigger] used[i] as int, #[trigger] used[j] as int)
}

/// Checks whether the already-assigned host vertices respect every condition
/// of the node, pairwise over their positions.
#[verifier::loop_isolation(false)]
pub fn used_respects_conditions(used: &Vec<usize>, conditions: Option<&Conditions>) -> (r: bool)
    ensures
        conditions is None ==> r,
        conditions is Some ==> r == spec_pairs_respected(used@, *conditions.unwrap()),
{
    if let Some(cs) = conditions {
        let len = used.len();
        let mut i: usize = 0;
        while i < len
            invariant
                len == used@.len(),
                i <= len,
                forall|a: int, b: int|
                    0 <= a < b < used@.len() && a < i ==> cs.spec_respects_all(
                        a,
                        b,
                        #[trigger] used@[a] as int,
                        #[trigger] used@[b] as int,
                    ),
            decreases len - i,
        {
            let mut j: usize = i + 1;
            while j < len
                invariant
                    len == used@.len(),
                    i < j,
                    j <= len,
                    i < len,
                    forall|b: int|
                        i < b < j ==> cs.spec_respects_all(
                            i as int,
                            b,
                            used@[i as int] as int,
                            #[trigger] used@[b] as int,
                        ),
                decreases len - j,
            {
                if !cs.respects_all(i, j, used[i], used[j]) {
                    proof {
                        assert(!cs.spec_respects_all(
                            i as int,
                            j as int,
                            used@[i as int] as int,
                            used@[j as int] as int,
                        ));
                        assert(!spec_pairs_respected(used@, *cs));
                    }
                    return false;
                }
                j += 1;
            }
            i += 1;
        }
        true
    } else {
        true
    }
}

/// The least admissible host vertex for the next position: one more than the
/// largest assigned vertex that some condition places below it, or zero.
pub open spec fn spec_minimal_index(used: Seq<usize>, cs: Seq<Condition>, i: int) -> int
    decreases i,
{
    if i <= 0 {
        0
    } else {
        let prev = spec_minimal_index(used, cs, i - 1);
        let c = cs[i - 1];
        if c.v == used.len() && 0 <= c.u < used.len() && used[c.u as int] + 1 > prev {
            used[c.u as int] + 1
        } else {
            prev
        }
    }
}

/// Computes the least host-vertex index admissible for the position
/// `used.len()` under the node's conditions: every condition fixing that
/// position forces a vertex strictly larger than the one assigned at its
/// smaller side.
pub fn minimal_possible_index(used: &Vec<usize>, conditions: Option<&Conditions>) -> (r: usize)
    requires
        forall|k: int| 0 <= k < used@.len() ==> (#[trigger] used@[k]) < usize::MAX,
        conditions is Some ==> forall|k: int|
            0 <= k < conditions.unwrap()@.len() ==> (#[trigger] conditions.unwrap()@[k]).u
                < conditions.unwrap()@[k].v,
    ensures
        conditions is None ==> r == 0,
        conditions is Some ==> r == spec_minimal_index(
            used@,
            conditions.unwrap()@,
            conditions.unwrap()@.len() as int,
        ),
{
    if let Some(cs) = conditions {
        let k = used.len();
        let n_conds = cs.len();
        let mut acc: usize = 0;
        let mut i: usize = 0;
        while i < n_conds
            invariant
                n_conds == cs@.len(),
                i <= n_conds,
                k == used@.len(),
                forall|t: int| 0 <= t < used@.len() ==> (#[trigger] used@[t]) < usize::MAX,
                forall|t: int| 0 <= t < cs@.len() ==> (#[trigger] cs@[t]).u < cs@[t].v,
                acc == spec_minimal_index(used@, cs@, i as int),
            decreases n_conds - i,
        {
            let c = cs.index(i);
            if c.max() == k {
                let candidate = used[c.min()] + 1;
                if candidate > acc {
                    acc = candidate;
                }
            }
            i += 1;
        }
        acc
    } else {
        0
    }
}


/// `v` can fill the next position: it is distinct from every assigned vertex
/// and the host edges between `v` and the assigned vertices agree exactly
/// with the node's rows.
pub open spec fn spec_matches_structure(
    node: GtrieNode,
    g: Bitgraph,
    used: Seq<usize>,
    v: usize,
) -> bool {
    forall|i: int|
        0 <= i < used.len() ==> {
            &&& (#[trigger] used[i]) != v
            &&& node.out_bit(i) == g.edge(used[i] as int, v as int)
            &&& node.in_bit(i) == g.edge(v as int, used[i] as int)
        }
}

/// No self-assignment: a vertex that structurally extends the assignment is
/// never one of the already-assigned vertices.
pub proof fn lemma_no_self_assignment(node: GtrieNode, g: Bitgraph, used: Seq<usize>, v: usize)
    requires
        spec_matches_structure(node, g, used, v),
    ensures
        !used.contains(v),
{
    if used.contains(v) {
        let i = choose|i: int| 0 <= i < used.len() && used[i] == v;
        assert(used[i] != v);
    }
}

/// Checks whether `v` matches the node's rows against the host graph.
fn matches_structure(node: &GtrieNode, graph: &Bitgraph, used: &Vec<usize>, v: usize) -> (r: bool)
    requires
        graph.wf(),
        v < graph.n,
        forall|i: int| 0 <= i < used@.len() ==> (#[trigger] used@[i]) < graph.n,
    ensures
        r == spec_matches_structure(*node, *graph, used@, v),
{
    let len = used.len();
    let mut i: usize = 0;
    while i < len
        invariant
            graph.wf(),
            v < graph.n,
            len == used@.len(),
            i <= len,
            forall|t: int| 0 <= t < used@.len() ==> (#[trigger] used@[t]) < graph.n,
            forall|t: int|
                0 <= t < i ==> {
                    &&& (#[trigger] used@[t]) != v
                    &&& node.out_bit(t) == graph.edge(used@[t] as int, v as int)
                    &&& node.in_bit(t) == graph.edge(v as int, used@[t] as int)
                },
        decreases len - i,
    {
        let u = used[i];
        let ok = u != v && node.out_contains(i) == graph.is_connected(u, v)
            && node.in_contains(i) == graph.is_connected(v, u);
        if !ok {
            proof {
                assert(used@[i as int] == u);
            }
            return false;
        }
        i += 1;
    }
    true
}

/// The least admissible vertex index for the next position under the node's
/// conditions.
pub open spec fn spec_label_min(node: GtrieNode, used: Seq<usize>) -> int {
    match node.conditions {
        None => 0,
        Some(cs) => spec_minimal_index(used, cs@, cs@.len() as int),
    }
}

/// With nothing assigned, no condition can bound the next vertex.
pub proof fn lemma_minimal_index_empty(used: Seq<usize>, cs: Seq<Condition>, i: int)
    requires
        used.len() == 0,
    ensures
        spec_minimal_index(used, cs, i) == 0,
    decreases i,
{
    if i > 0 {
        lemma_minimal_index_empty(used, cs, i - 1);
    }
}

/// The running minimum of the pivot fold: the assigned vertex of least
/// undirected degree among the first `i` cached connections, paired with
/// that degree.
pub open spec fn spec_min_conn(node: GtrieNode, g: Bitgraph, used: Seq<usize>, i: int) -> (
    int,
    int,
)
    decreases i,
{
    if i <= 0 {
        (usize::MAX as int, usize::MAX as int)
    } else {
        let prev = spec_min_conn(node, g, used, i - 1);
        let v = used[node.connections@[i - 1] as int] as int;
        let d = g.neighbors@[v]@.len() as int;
        if d < prev.1 {
            (v, d)
        } else {
            prev
        }
    }
}

/// After at least one connection is folded, the running minimum is one of
/// the assigned vertices named by the connections, its degree is recorded
/// exactly, and no folded connection has a smaller degree.
pub proof fn lemma_min_conn_props(node: GtrieNode, g: Bitgraph, used: Seq<usize>, i: int)
    requires
        g.wf(),
        1 <= i <= node.connections@.len(),
        forall|j: int|
            0 <= j < node.connections@.len() ==> (#[trigger] node.connections@[j]) < used.len(),
        forall|j: int| 0 <= j < used.len() ==> (#[trigger] used[j]) < g.n,
    ensures
        ({
            let (mv, mn) = spec_min_conn(node, g, used, i);
            &&& exists|j: int|
                0 <= j < i && mv == used[#[trigger] node.connections@[j] as int]
            &&& 0 <= mv < g.n
            &&& mn == g.neighbors@[mv]@.len()
            &&& forall|j: int|
                0 <= j < i ==> mn <= g.neighbors@[used[
                    #[trigger] node.connections@[j] as int] as int]@.len()
        }),
    decreases i,
{
    let v = used[node.connections@[i - 1] as int] as int;
    let d = g.neighbors@[v]@.len() as int;
    g.lemma_n_lt_max();
    g.lemma_neighbor_len_le(v);
    if i == 1 {
        assert(d < usize::MAX as int);
        assert(spec_min_conn(node, g, used, 0) == (usize::MAX as int, usize::MAX as int));
        assert(spec_min_conn(node, g, used, 1) == (v, d));
        assert(spec_min_conn(node, g, used, 1).0 == used[node.connections@[0] as int]);
    } else {
        lemma_min_conn_props(node, g, used, i - 1);
        let prev = spec_min_conn(node, g, used, i - 1);
        if d < prev.1 {
            assert(spec_min_conn(node, g, used, i).0 == used[node.connections@[i - 1] as int]);
        } else {
            let j = choose|j: int|
                0 <= j < i - 1 && prev.0 == used[#[trigger] node.connections@[j] as int];
            assert(spec_min_conn(node, g, used, i).0 == used[node.connections@[j] as int]);
        }
    }
}

/// Identifies the pivot: among the assigned vertices cached as connections
/// of the node, the one with the fewest undirected neighbours in the host
/// (first such vertex on ties).
fn identify_minimal_connection(node: &GtrieNode, graph: &Bitgraph, used: &Vec<usize>) -> (r: usize)
    requires
        graph.wf(),
        node.connections@.len() > 0,
        forall|j: int|
            0 <= j < node.connections@.len() ==> (#[trigger] node.connections@[j]) < used@.len(),
        forall|j: int| 0 <= j < used@.len() ==> (#[trigger] used@[j]) < graph.n,
    ensures
        r as int == spec_min_conn(*node, *graph, used@, node.connections@.len() as int).0,
        r < graph.n,
    {
    let n_conns = node.connections.len();
    let mut min_v: usize = usize::MAX;
    let mut min_n: usize = usize::MAX;
    let mut i: usize = 0;
    while i < n_conns
        invariant
            graph.wf(),
            n_conns == node.connections@.len(),
            n_conns > 0,
            i <= n_conns,
            forall|j: int|
                0 <= j < node.connections@.len() ==> (#[trigger] node.connections@[j])
                    < used@.len(),
            forall|j: int| 0 <= j < used@.len() ==> (#[trigger] used@[j]) < graph.n,
            (min_v as int, min_n as int) == spec_min_conn(*node, *graph, used@, i as int),
        decreases n_conns - i,
    {
        let pos = node.connections[i];
        let v = used[pos];
        let d = graph.neighbors(v).len();
        proof {
            assert(used@[pos as int] == v);
        }
        if d < min_n {
            min_v = v;
            min_n = d;
        }
        i += 1;
    }
    proof {
        lemma_min_conn_props(*node, *graph, used@, n_conns as int);
    }
    min_v
}


/// Collects the candidate vertices for the next position.  With nothing
/// assigned yet, every host vertex is a candidate; otherwise the undirected
/// neighbours of the pivot that are at least the conditions' lower bound and
/// not yet assigned.
#[verifier::loop_isolation(false)]
fn build_candidates_conditionally(
    node: &GtrieNode,
    graph: &Bitgraph,
    used: &Vec<usize>,
    candidates: &mut Candidates,
    blacklist: &mut FixedBitSet,
)
    requires
        graph.wf(),
        node.local_wf(),
        used@.len() + 1 == node.depth,
        forall|i: int| 0 <= i < used@.len() ==> (#[trigger] used@[i]) < graph.n,
        old(candidates).wf(),
        old(candidates).size == graph.n,
        old(candidates).queue() == Seq::<usize>::empty(),
        old(candidates).seen() == Set::<usize>::empty(),
    ensures
        final(candidates).wf(),
        final(candidates).size == graph.n,
        *final(blacklist) == *old(blacklist),
        used@.len() == 0 ==> forall|v: usize|
            #[trigger] final(candidates).queue().contains(v) <==> v < graph.n,
        used@.len() > 0 ==> forall|v: usize|
            #[trigger] final(candidates).queue().contains(v) <==> {
                let pivot = spec_min_conn(*node, *graph, used@, node.connections@.len() as int).0;
                &&& graph.neighbors@[pivot]@.contains(v)
                &&& v >= spec_label_min(*node, used@)
                &&& !bit_set(*old(blacklist)).contains(v)
            },
    decreases 0int,
{
    proof {
        graph.lemma_n_lt_max();
    }
    let label_min = minimal_possible_index(used, node.conditions().as_ref());
    if used.len() == 0 {
        candidates.fill();
        proof {
            if node.conditions is Some {
                lemma_minimal_index_empty(used@, node.conditions.unwrap()@,
                    node.conditions.unwrap()@.len() as int);
            }
        }
    } else {
        proof {
            assert forall|t: int|
                0 <= t < node.connections@.len() implies (#[trigger] node.connections@[t])
                < used@.len() by {
                assert(node.connections@.contains(node.connections@[t]));
            }
        }
        let min_v = identify_minimal_connection(node, graph, used);
        let ghost pivot = spec_min_conn(*node, *graph, used@, node.connections@.len() as int).0;
        let nb = graph.neighbors(min_v);
        proof {
            assert(graph.neighbor_list_wf(min_v as int));
        }
        let n_nb = nb.len();
        let mut j: usize = 0;
        while j < n_nb
            invariant
                j <= n_nb,
                *blacklist == *old(blacklist),
                candidates.wf(),
                candidates.size == graph.n,
                forall|x: usize|
                    #[trigger] candidates.seen().contains(x) <==> candidates.queue().contains(x),
                forall|v: usize|
                    #[trigger] candidates.queue().contains(v) <==> {
                        &&& nb@.subrange(0, j as int).contains(v)
                        &&& v >= label_min
                        &&& !bit_set(*blacklist).contains(v)
                    },
            decreases n_nb - j,
        {
            let w = nb[j];
            proof {
                assert(nb@[j as int] == w);
                assert(nb@.subrange(0, j + 1).drop_last() =~= nb@.subrange(0, j as int));
                assert(nb@.subrange(0, j + 1).last() == w);
                assert forall|a: int| 0 <= a < j implies nb@[a] != w by {
                    assert(nb@[a] < nb@[j as int]);
                }
            }
            if w >= label_min && !bits_contains(blacklist, w) {
                let ghost qpre = candidates.queue();
                let ghost spre = candidates.seen();
                candidates.insert(w);
                proof {
                    assert(!spre.contains(w));
                    assert(candidates.queue() == qpre.push(w));
                    assert forall|v: usize|
                        #[trigger] candidates.queue().contains(v) implies {
                        &&& nb@.subrange(0, j + 1).contains(v)
                        &&& v >= label_min
                        &&& !bit_set(*blacklist).contains(v)
                    } by {
                        let pre_sub = nb@.subrange(0, j as int);
                        let post_sub = nb@.subrange(0, j + 1);
                        if v != w {
                            let t = choose|t: int|
                                0 <= t < candidates.queue().len() && candidates.queue()[t] == v;
                            assert(qpre[t] == v);
                            assert(qpre.contains(v));
                            let a = choose|a: int| 0 <= a < pre_sub.len() && pre_sub[a] == v;
                            assert(post_sub[a] == v);
                        } else {
                            assert(post_sub[j as int] == w);
                        }
                    }
                    assert forall|v: usize|
                        nb@.subrange(0, j + 1).contains(v) && v >= label_min && !bit_set(
                            *blacklist,
                        ).contains(v) implies #[trigger] candidates.queue().contains(v) by {
                        let pre_sub = nb@.subrange(0, j as int);
                        let post_sub = nb@.subrange(0, j + 1);
                        if v == w {
                            assert(candidates.queue()[candidates.queue().len() - 1] == w);
                        } else {
                            let a = choose|a: int| 0 <= a < post_sub.len() && post_sub[a] == v;
                            assert(a < j);
                            assert(pre_sub[a] == v);
                            assert(pre_sub.contains(v));
                            assert(qpre.contains(v));
                            let t = choose|t: int| 0 <= t < qpre.len() && qpre[t] == v;
                            assert(candidates.queue()[t] == v);
                        }
                    }
                }
            } else {
                proof {
                    assert forall|v: usize|
                        #[trigger] candidates.queue().contains(v) implies {
                        &&& nb@.subrange(0, j + 1).contains(v)
                        &&& v >= label_min
                        &&& !bit_set(*blacklist).contains(v)
                    } by {
                        let pre_sub = nb@.subrange(0, j as int);
                        let post_sub = nb@.subrange(0, j + 1);
                        let t = choose|t: int|
                            0 <= t < candidates.queue().len() && candidates.queue()[t] == v;
                        let a = choose|a: int| 0 <= a < pre_sub.len() && pre_sub[a] == v;
                        assert(post_sub[a] == v);
                    }
                    assert forall|v: usize|
                        nb@.subrange(0, j + 1).contains(v) && v >= label_min && !bit_set(
                            *blacklist,
                        ).contains(v) implies #[trigger] candidates.queue().contains(v) by {
                        let pre_sub = nb@.subrange(0, j as int);
                        let post_sub = nb@.subrange(0, j + 1);
                        let a = choose|a: int| 0 <= a < post_sub.len() && post_sub[a] == v;
                        if a < j {
                            assert(pre_sub[a] == v);
                            assert(pre_sub.contains(v));
                        }
                    }
                }
            }
            j += 1;
        }
        proof {
            assert(nb@.subrange(0, n_nb as int) =~= nb@);
        }
    }
}


/// The vertices of `s` above position `lo` that match the node's rows,
/// drawn from the last to the first — the order a stack pops them in.
pub open spec fn spec_pops_from(
    s: Seq<usize>,
    lo: int,
    node: GtrieNode,
    g: Bitgraph,
    used: Seq<usize>,
) -> Seq<usize>
    decreases s.len() - lo,
    when 0 <= lo
{
    if s.len() <= lo {
        Seq::empty()
    } else {
        (if spec_matches_structure(node, g, used, s.last()) {
            seq![s.last()]
        } else {
            Seq::empty()
        }) + spec_pops_from(s.drop_last(), lo, node, g, used)
    }
}

/// Lowering the floor by one appends that position's contribution.
proof fn lemma_spec_pops_step(
    s: Seq<usize>,
    lo: int,
    node: GtrieNode,
    g: Bitgraph,
    used: Seq<usize>,
)
    requires
        0 < lo <= s.len(),
    ensures
        spec_pops_from(s, lo - 1, node, g, used) == spec_pops_from(s, lo, node, g, used) + (
        if spec_matches_structure(node, g, used, s[lo - 1]) {
            seq![s[lo - 1]]
        } else {
            Seq::<usize>::empty()
        }),
    decreases s.len() - lo,
{
    if lo == s.len() {
        assert(s.drop_last().len() == lo - 1);
        assert(spec_pops_from(s.drop_last(), lo - 1, node, g, used) == Seq::<usize>::empty());
        assert(spec_pops_from(s, lo, node, g, used) == Seq::<usize>::empty());
        assert(s.last() == s[lo - 1]);
        assert(spec_pops_from(s, lo - 1, node, g, used) =~= spec_pops_from(s, lo, node, g, used)
            + (if spec_matches_structure(node, g, used, s[lo - 1]) {
            seq![s[lo - 1]]
        } else {
            Seq::<usize>::empty()
        }));
    } else {
        lemma_spec_pops_step(s.drop_last(), lo, node, g, used);
        assert(s.drop_last()[lo - 1] == s[lo - 1]);
        assert(spec_pops_from(s, lo - 1, node, g, used) =~= spec_pops_from(s, lo, node, g, used)
            + (if spec_matches_structure(node, g, used, s[lo - 1]) {
            seq![s[lo - 1]]
        } else {
            Seq::<usize>::empty()
        }));
    }
}

/// Drains the candidate buffer, keeping exactly the vertices that match the
/// node's rows in the order they pop (most recently inserted first), and
/// resets the buffer.
fn build_vertices(
    node: &GtrieNode,
    used: &Vec<usize>,
    graph: &Bitgraph,
    candidates: &mut Candidates,
) -> (r: Vec<usize>)
    requires
        graph.wf(),
        old(candidates).wf(),
        old(candidates).size == graph.n,
        forall|i: int| 0 <= i < used@.len() ==> (#[trigger] used@[i]) < graph.n,
    ensures
        final(candidates).wf(),
        final(candidates).size == graph.n,
        final(candidates).queue() == Seq::<usize>::empty(),
        final(candidates).seen() == Set::<usize>::empty(),
        forall|i: int, j: int| 0 <= i < j < r@.len() ==> r@[i] != r@[j],
        forall|v: usize|
            #[trigger] r@.contains(v) <==> (old(candidates).queue().contains(v)
                && spec_matches_structure(*node, *graph, used@, v)),
        r@ == spec_pops_from(old(candidates).queue(), 0, *node, *graph, used@),
    decreases 0int,
{
    let ghost q0 = old(candidates).queue();
    let mut vertices: Vec<usize> = Vec::new();
    loop
        invariant
            graph.wf(),
            candidates.wf(),
            candidates.size == graph.n,
            forall|i: int| 0 <= i < used@.len() ==> (#[trigger] used@[i]) < graph.n,
            candidates.queue().len() <= q0.len(),
            candidates.queue() == q0.subrange(0, candidates.queue().len() as int),
            candidates.seen() == old(candidates).seen(),
            forall|i: int, j: int|
                0 <= i < j < q0.len() ==> q0[i] != q0[j],
            forall|i: int, j: int|
                0 <= i < j < vertices@.len() ==> vertices@[i] != vertices@[j],
            forall|v: usize|
                #[trigger] vertices@.contains(v) <==> (q0.contains(v) && spec_matches_structure(
                    *node,
                    *graph,
                    used@,
                    v,
                ) && !candidates.queue().contains(v)),
            vertices@ == spec_pops_from(q0, candidates.queue().len() as int, *node, *graph, used@),
        ensures
            candidates.wf(),
            candidates.size == graph.n,
            candidates.queue().len() == 0,
            candidates.seen() == old(candidates).seen(),
            forall|i: int, j: int|
                0 <= i < j < vertices@.len() ==> vertices@[i] != vertices@[j],
            forall|v: usize|
                #[trigger] vertices@.contains(v) <==> (q0.contains(v) && spec_matches_structure(
                    *node,
                    *graph,
                    used@,
                    v,
                )),
            vertices@ == spec_pops_from(q0, 0, *node, *graph, used@),
        decreases candidates.queue().len(),
    {
        let ghost qpre = candidates.queue();
        let popped = candidates.pop();
        match popped {
            None => {
                break ;
            },
            Some(v) => {
                proof {
                    assert(qpre.last() == v);
                    assert(qpre.contains(v));
                    assert(qpre[qpre.len() - 1] == v);
                    assert(q0.subrange(0, qpre.len() as int)[qpre.len() - 1] == v);
                    assert(q0[qpre.len() - 1] == v);
                    assert(q0.contains(v));
                    assert(v < graph.n);
                    assert forall|t: int|
                        0 <= t < candidates.queue().len() implies candidates.queue()[t] != v by {
                        assert(candidates.queue()[t] == q0[t]);
                    }
                    assert(!candidates.queue().contains(v));
                    assert(candidates.queue() =~= q0.subrange(
                        0,
                        candidates.queue().len() as int,
                    ));
                }
                let ghost vpre = vertices@;
                proof {
                    lemma_spec_pops_step(q0, qpre.len() as int, *node, *graph, used@);
                }
                if matches_structure(node, graph, used, v) {
                    vertices.push(v);
                    proof {
                        assert(vertices@ =~= vpre + seq![v]);
                        assert(!vpre.contains(v));
                        assert forall|w: usize| #[trigger]
                            vertices@.contains(w) implies (q0.contains(w)
                            && spec_matches_structure(*node, *graph, used@, w)
                            && !candidates.queue().contains(w)) by {
                            if w != v {
                                let t = choose|t: int|
                                    0 <= t < vertices@.len() && vertices@[t] == w;
                                assert(vpre[t] == w);
                                assert(vpre.contains(w));
                            }
                        }
                        assert forall|w: usize|
                            q0.contains(w) && spec_matches_structure(*node, *graph, used@, w)
                                && !candidates.queue().contains(w) implies #[trigger] vertices@
                            .contains(w) by {
                            if w == v {
                                assert(vertices@[vertices@.len() - 1] == v);
                            } else {
                                if !qpre.contains(w) {
                                    assert(vpre.contains(w));
                                    let t = choose|t: int| 0 <= t < vpre.len() && vpre[t] == w;
                                    assert(vertices@[t] == w);
                                } else {
                                    let t = choose|t: int| 0 <= t < qpre.len() && qpre[t] == w;
                                    if t < qpre.len() - 1 {
                                        assert(candidates.queue()[t] == w);
                                    }
                                }
                            }
                        }
                    }
                } else {
                    proof {
                        assert forall|w: usize|
                            q0.contains(w) && spec_matches_structure(*node, *graph, used@, w)
                                && !candidates.queue().contains(w) implies #[trigger] vertices@
                            .contains(w) by {
                            if w != v {
                                if qpre.contains(w) {
                                    let t = choose|t: int| 0 <= t < qpre.len() && qpre[t] == w;
                                    if t < qpre.len() - 1 {
                                        assert(candidates.queue()[t] == w);
                                    }
                                }
                            }
                        }
                    }
                }
            },
        }
    }
    candidates.clear();
    vertices
}

/// Generates the admissible extensions of `used` at this node: the distinct
/// host vertices that match the node's rows, are not yet assigned, and
/// respect the conditions' lower bound for the next position.  This is the
/// pivot's soundness guarantee: no structurally matching vertex is missed.
pub fn matching_vertices_conditionally(
    node: &GtrieNode,
    used: &Vec<usize>,
    graph: &Bitgraph,
    candidates: &mut Candidates,
    blacklist: &mut FixedBitSet,
) -> (r: Vec<usize>)
    requires
        graph.wf(),
        node.local_wf(),
        used@.len() + 1 == node.depth,
        forall|i: int| 0 <= i < used@.len() ==> (#[trigger] used@[i]) < graph.n,
        old(candidates).wf(),
        old(candidates).size == graph.n,
        old(candidates).queue() == Seq::<usize>::empty(),
        old(candidates).seen() == Set::<usize>::empty(),
    ensures
        final(candidates).wf(),
        final(candidates).size == graph.n,
        final(candidates).queue() == Seq::<usize>::empty(),
        final(candidates).seen() == Set::<usize>::empty(),
        *final(blacklist) == *old(blacklist),
        forall|i: int, j: int| 0 <= i < j < r@.len() ==> r@[i] != r@[j],
        used@.len() == 0 ==> forall|v: usize|
            #[trigger] r@.contains(v) <==> (v < graph.n && spec_matches_structure(
                *node,
                *graph,
                used@,
                v,
            )),
        used@.len() > 0 ==> forall|v: usize|
            #[trigger] r@.contains(v) <==> {
                &&& v < graph.n
                &&& spec_matches_structure(*node, *graph, used@, v)
                &&& !bit_set(*old(blacklist)).contains(v)
                &&& v >= spec_label_min(*node, used@)
            },
    decreases 0int,
{
    build_candidates_conditionally(node, graph, used, candidates, blacklist);
    let ghost q1 = candidates.queue();
    let r = build_vertices(node, used, graph, candidates);
    proof {
        if used@.len() > 0 {
            assert forall|t: int|
                0 <= t < node.connections@.len() implies (#[trigger] node.connections@[t])
                < used@.len() by {
                assert(node.connections@.contains(node.connections@[t]));
            }
            let pivot = spec_min_conn(*node, *graph, used@, node.connections@.len() as int).0;
            lemma_min_conn_props(*node, *graph, used@, node.connections@.len() as int);
            assert(graph.neighbor_list_wf(pivot));
            assert forall|v: usize| #[trigger]
                r@.contains(v) implies {
                &&& v < graph.n
                &&& spec_matches_structure(*node, *graph, used@, v)
                &&& !bit_set(*old(blacklist)).contains(v)
                &&& v >= spec_label_min(*node, used@)
            } by {
                let p2 = spec_min_conn(*node, *graph, used@, node.connections@.len() as int).0;
                assert(q1.contains(v));
                assert(graph.neighbors@[p2]@.contains(v));
            }
            assert forall|v: usize|
                v < graph.n && spec_matches_structure(*node, *graph, used@, v) && !bit_set(
                    *old(blacklist),
                ).contains(v) && v >= spec_label_min(*node, used@) implies #[trigger] r@.contains(
                v,
            ) by {
                let p2 = spec_min_conn(*node, *graph, used@, node.connections@.len() as int).0;
                assert(graph.neighbor_list_wf(p2));
                let j = choose|j: int|
                    0 <= j < node.connections@.len() && p2 == used@[
                        #[trigger] node.connections@[j] as int];
                let pos = node.connections@[j];
                assert(node.connections@.contains(pos));
                assert(pos + 1 < node.depth);
                assert(node.out_bit(pos as int) || node.in_bit(pos as int));
                assert(used@[pos as int] != v);
                assert(node.out_bit(pos as int) == graph.edge(used@[pos as int] as int, v as int));
                assert(node.in_bit(pos as int) == graph.edge(v as int, used@[pos as int] as int));
                assert(graph.undirected_edge(p2, v as int));
                assert(crate::bitgraph::adj_undirected_edge(graph.adj, graph.n as int, p2,
                    v as int));
                assert(graph.neighbors@[p2]@.contains(v));
                assert(q1.contains(v));
            }
        }
    }
    r
}


/// Matches one trie node against the host graph and recurses through its
/// subtree, backtracking over every admissible extension of `used`.  The
/// running total grows by exactly the model count [`spec_match`] (capped at
/// `usize::MAX`, which `usize` arithmetic cannot reach in practice): each
/// matched terminal moves its frequency and the total up in lock-step.  The
/// node's tree keeps its shape: only frequency counters change, their
/// subtree sum grows exactly as much as the running total, and below the
/// cap each node's own counter grows by exactly [`spec_path_delta`] of its
/// path.
#[verifier::loop_isolation(false)]
pub fn match_child_conditionally(
    node: &mut GtrieNode,
    used: &mut Vec<usize>,
    candidates: &mut Candidates,
    blacklist: &mut FixedBitSet,
    graph: &Bitgraph,
    total: &mut usize,
)
    requires
        graph.wf(),
        old(node).wf(),
        old(node).depth == old(used)@.len() + 1,
        forall|i: int| 0 <= i < old(used)@.len() ==> (#[trigger] old(used)@[i]) < graph.n,
        bit_capacity(*old(blacklist)) == graph.n,
        bit_set(*old(blacklist)) == old(used)@.to_set(),
        old(candidates).wf(),
        old(candidates).size == graph.n,
        old(candidates).queue() == Seq::<usize>::empty(),
        old(candidates).seen() == Set::<usize>::empty(),
        old(node).sum_freq() <= *old(total),
    ensures
        same_shape(*old(node), *final(node)),
        freqs_ge(*old(node), *final(node)),
        final(node).wf(),
        final(used)@ == old(used)@,
        bit_capacity(*final(blacklist)) == graph.n,
        bit_set(*final(blacklist)) == bit_set(*old(blacklist)),
        final(candidates).wf(),
        final(candidates).size == graph.n,
        final(candidates).queue() == Seq::<usize>::empty(),
        final(candidates).seen() == Set::<usize>::empty(),
        *final(total) - *old(total) == final(node).sum_freq() - old(node).sum_freq(),
        *old(total) <= *final(total),
        final(node).sum_freq() <= *final(total),
        *final(total) == ({
            let m = spec_match(*old(node), *graph, old(used)@, bit_set(*old(blacklist)));
            if *old(total) + m <= usize::MAX {
                *old(total) + m
            } else {
                usize::MAX as int
            }
        }),
        (*old(total) + spec_match(*old(node), *graph, old(used)@, bit_set(*old(blacklist)))
            <= usize::MAX) ==> forall|path: Seq<int>|
            #[trigger] path_ok(*old(node), path) ==> node_at(*final(node), path).frequency as int
                == node_at(*old(node), path).frequency + spec_path_delta(
                *old(node),
                *graph,
                old(used)@,
                bit_set(*old(blacklist)),
                path,
            ),
    decreases old(node).height(),
{
    proof {
        lemma_same_shape_refl(*node);
        lemma_freqs_ge_refl(*node);
    }
    if !used_respects_conditions(used, node.conditions().as_ref()) {
        proof {
            assert(!spec_conditions_ok(*node, used@));
            assert(spec_match(*node, *graph, used@, bit_set(*blacklist)) == 0);
            assert forall|path: Seq<int>| #[trigger] path_ok(*node, path) implies spec_path_delta(
                *node,
                *graph,
                used@,
                bit_set(*blacklist),
                path,
            ) == 0 by {}
        }
        return ;
    }
    let vertices = matching_vertices_conditionally(node, used, graph, candidates, blacklist);
    let ghost node0 = *node;
    let ghost used0 = used@;
    let ghost bl0 = bit_set(*blacklist);
    let ghost total0 = *total;
    proof {
        assert(spec_conditions_ok(node0, used0));
        assert(spec_match(node0, *graph, used0, bl0) == spec_match_verts(
            node0,
            *graph,
            used0,
            bl0,
            graph.n as int,
        ));
        graph.lemma_n_lt_max();
        if used0.len() == 0 {
            assert(bl0 =~= Set::<usize>::empty());
            if node0.conditions is Some {
                lemma_minimal_index_empty(
                    used0,
                    node0.conditions.unwrap()@,
                    node0.conditions.unwrap()@.len() as int,
                );
            }
            assert(spec_label_min(node0, used0) == 0);
        }
        assert forall|x: usize|
            #[trigger] vertices@.contains(x) <==> (spec_admissible(node0, *graph, used0, bl0, x)
                && (x as int) < graph.n) by {}
        lemma_spec_match_seq_complete(vertices@, node0, *graph, used0, bl0, graph.n as int);
        assert(spec_match_seq(vertices@, node0, *graph, used0, bl0) == spec_match(
            node0,
            *graph,
            used0,
            bl0,
        ));
    }
    let ghost stotal = spec_match(node0, *graph, used0, bl0);
    let n_vertices = vertices.len();
    let mut idx: usize = 0;
    while idx < n_vertices
        invariant
            idx <= n_vertices,
            same_shape(node0, *node),
            freqs_ge(node0, *node),
            node.wf(),
            used@ == used0,
            bit_capacity(*blacklist) == graph.n,
            bit_set(*blacklist) == bl0,
            candidates.wf(),
            candidates.size == graph.n,
            candidates.queue() == Seq::<usize>::empty(),
            candidates.seen() == Set::<usize>::empty(),
            *total - total0 == node.sum_freq() - node0.sum_freq(),
            total0 <= *total,
            node.sum_freq() <= *total,
            0 <= spec_match_seq(vertices@.subrange(0, idx as int), node0, *graph, used0, bl0),
            *total == ({
                let m = spec_match_seq(vertices@.subrange(0, idx as int), node0, *graph, used0,
                    bl0);
                if total0 + m <= usize::MAX {
                    total0 + m
                } else {
                    usize::MAX as int
                }
            }),
            total0 + stotal <= usize::MAX ==> forall|path: Seq<int>|
                #[trigger] path_ok(node0, path) ==> node_at(*node, path).frequency as int
                    == node_at(node0, path).frequency + spec_path_seq(
                    vertices@.subrange(0, idx as int),
                    node0,
                    *graph,
                    used0,
                    bl0,
                    path,
                ),
        decreases n_vertices - idx,
    {
        let v = vertices[idx];
        proof {
            assert(vertices@[idx as int] == v);
            assert(vertices@.contains(v));
            assert(v < graph.n);
            if used0.len() > 0 {
                assert(!bl0.contains(v));
            } else {
                assert(used0.to_set() =~= Set::<usize>::empty());
                assert(!bl0.contains(v));
            }
        }
        let ghost node_pre = *node;
        let ghost total_pre = *total;
        let ghost m_v = spec_match_one(node0, *graph, used0, bl0, v);
        let ghost s_pre = spec_match_seq(vertices@.subrange(0, idx as int), node0, *graph, used0,
            bl0);
        proof {
            lemma_spec_match_one_nonneg(node0, *graph, used0, bl0, v);
            assert(vertices@.subrange(0, idx + 1).drop_last() =~= vertices@.subrange(
                0,
                idx as int,
            ));
            assert(vertices@.subrange(0, idx + 1).last() == v);
            assert(spec_match_seq(vertices@.subrange(0, idx + 1), node0, *graph, used0, bl0)
                == s_pre + m_v);
        }
        used.push(v);
        bits_insert(blacklist, v);
        proof {
            assert(used@ == used0.push(v));
            assert forall|x: usize|
                used@.to_set().contains(x) <==> #[trigger] bit_set(*blacklist).contains(x) by {
                if used@.contains(x) {
                    let i = choose|i: int| 0 <= i < used@.len() && used@[i] == x;
                    if i < used0.len() {
                        assert(used0[i] == x);
                        assert(used0.contains(x));
                        assert(used0.to_set().contains(x));
                    } else {
                        assert(x == v);
                    }
                }
                if bit_set(*blacklist).contains(x) {
                    if x == v {
                        assert(used@[used@.len() - 1] == v);
                        assert(used@.contains(x));
                    } else {
                        assert(bl0.contains(x));
                        assert(used0.to_set().contains(x));
                        assert(used0.contains(x));
                        let i = choose|i: int| 0 <= i < used0.len() && used0[i] == x;
                        assert(used@[i] == x);
                        assert(used@.contains(x));
                    }
                }
            }
            assert(bit_set(*blacklist) =~= used@.to_set());
            assert forall|i: int| 0 <= i < used@.len() implies (#[trigger] used@[i]) < graph.n
                by {
                if i < used0.len() {
                    assert(used@[i] == used0[i]);
                }
            }
        }
        if node.is_graph() {
            proof {
                assert(node0.is_graph);
                assert(m_v == 1);
            }
            if *total < usize::MAX {
                proof {
                    lemma_seq_sum_nonneg(node.children@);
                    node.lemma_freq_le_sum();
                }
                node.increment_frequency();
                *total = *total + 1;
                proof {
                    lemma_same_shape_except_freq(node_pre, *node);
                    lemma_same_shape_trans(node0, node_pre, *node);
                    lemma_same_shape_wf(node_pre, *node);
                    assert(node.sum_freq() == node_pre.sum_freq() + 1);
                    assert(freqs_ge(node_pre, *node)) by {
                        assert forall|i: int|
                            0 <= i < node_pre.children@.len() implies freqs_ge(
                            #[trigger] node_pre.children@[i],
                            node.children@[i],
                        ) by {
                            lemma_freqs_ge_refl(node_pre.children@[i]);
                        }
                    }
                    lemma_freqs_ge_trans(node0, node_pre, *node);
                }
            }
            proof {
                if total0 + stotal <= usize::MAX {
                    lemma_spec_match_seq_prefix_le(vertices@, idx + 1, node0, *graph, used0, bl0);
                    assert(s_pre + m_v <= stotal);
                    assert(node.frequency == node_pre.frequency + 1);
                    assert forall|path: Seq<int>|
                        #[trigger] path_ok(node0, path) implies node_at(
                        *node,
                        path,
                    ).frequency as int == node_at(node_pre, path).frequency + spec_path_one(
                        node0,
                        *graph,
                        used0,
                        bl0,
                        v,
                        path,
                    ) by {
                        if path.len() == 0 {
                            assert(spec_path_one(node0, *graph, used0, bl0, v, path) == 1);
                        } else {
                            assert(node.children == node_pre.children);
                            assert(node_at(*node, path) == node_at(
                                node.children@[path[0]],
                                path.drop_first(),
                            ));
                            assert(node_at(node_pre, path) == node_at(
                                node_pre.children@[path[0]],
                                path.drop_first(),
                            ));
                            assert(spec_path_one(node0, *graph, used0, bl0, v, path) == 0);
                        }
                    }
                }
            }
        } else {
            let ghost pre_node = *node;
            let ghost pre_total = *total;
            proof {
                lemma_same_shape_refl(*node);
                lemma_freqs_ge_refl(*node);
                assert(!node0.is_graph);
                assert(node0.children@.len() == node.children@.len());
                assert(m_v == spec_match_children(
                    node0.children@,
                    *graph,
                    used0.push(v),
                    bl0.insert(v),
                    node0.children@.len() as int,
                ));
            }
            let n_children = node.children.len();
            let mut c: usize = 0;
            while c < n_children
                invariant
                    c <= n_children,
                    n_children == node.children@.len(),
                    n_children == node0.children@.len(),
                    same_shape(pre_node, *node),
                    freqs_ge(pre_node, *node),
                    node.wf(),
                    used@ == used0.push(v),
                    bit_capacity(*blacklist) == graph.n,
                    bit_set(*blacklist) == bl0.insert(v),
                    candidates.wf(),
                    candidates.size == graph.n,
                    candidates.queue() == Seq::<usize>::empty(),
                    candidates.seen() == Set::<usize>::empty(),
                    *total - pre_total == node.sum_freq() - pre_node.sum_freq(),
                    pre_total <= *total,
                    node.sum_freq() <= *total,
                    0 <= spec_match_children(node0.children@, *graph, used0.push(v),
                        bl0.insert(v), c as int),
                    *total == ({
                        let mc = spec_match_children(node0.children@, *graph, used0.push(v),
                            bl0.insert(v), c as int);
                        if pre_total + mc <= usize::MAX {
                            pre_total + mc
                        } else {
                            usize::MAX as int
                        }
                    }),
                    total0 + stotal <= usize::MAX ==> forall|path: Seq<int>|
                        #[trigger] path_ok(node0, path) ==> node_at(*node, path).frequency as int
                            == node_at(node_pre, path).frequency + (if path.len() > 0 && path[0]
                            < c {
                            spec_path_one(node0, *graph, used0, bl0, v, path)
                        } else {
                            0int
                        }),
                decreases n_children - c,
            {
                proof {
                    assert(same_shape(pre_node.children@[c as int], node.children@[c as int]));
                    lemma_same_shape_trans(
                        node0.children@[c as int],
                        pre_node.children@[c as int],
                        node.children@[c as int],
                    );
                    lemma_same_shape_height(node0.children@[c as int], node.children@[c as int]);
                    lemma_child_height_lt(node0, c as int);
                    lemma_child_sum_le(*node, c as int);
                    assert(node.children@[c as int].wf());
                    assert(node.children@[c as int].depth == node.depth + 1);
                }
                let ghost before_call = *node;
                let ghost total_before_call = *total;
                proof {
                    if total0 + stotal <= usize::MAX {
                        // the saturating cap is never hit below the model total
                        lemma_spec_match_seq_prefix_le(vertices@, idx + 1, node0, *graph, used0,
                            bl0);
                        assert(s_pre + m_v <= stotal);
                        lemma_spec_match_children_mono(node0.children@, *graph, used0.push(v),
                            bl0.insert(v), c + 1, n_children as int);
                        lemma_spec_match_shape(
                            node0.children@[c as int],
                            before_call.children@[c as int],
                            *graph,
                            used0.push(v),
                            bl0.insert(v),
                        );
                        assert(spec_match_children(node0.children@, *graph, used0.push(v),
                            bl0.insert(v), c + 1) == spec_match_children(node0.children@, *graph,
                            used0.push(v), bl0.insert(v), c as int) + spec_match(
                            node0.children@[c as int],
                            *graph,
                            used0.push(v),
                            bl0.insert(v),
                        )) by {
                            lemma_seq_height_elem(node0.children@, c as int);
                        }
                        assert(*total + spec_match(before_call.children@[c as int], *graph,
                            used@, bit_set(*blacklist)) <= usize::MAX);
                    }
                }
                let child = node.child_at_mut(c);
                match_child_conditionally(child, used, candidates, blacklist, graph, total);
                proof {
                    let mc_child = spec_match(node0.children@[c as int], *graph, used0.push(v),
                        bl0.insert(v));
                    lemma_spec_match_shape(
                        node0.children@[c as int],
                        before_call.children@[c as int],
                        *graph,
                        used0.push(v),
                        bl0.insert(v),
                    );
                    lemma_spec_match_nonneg(node0.children@[c as int], *graph, used0.push(v),
                        bl0.insert(v));
                    assert(spec_match_children(node0.children@, *graph, used0.push(v),
                        bl0.insert(v), c + 1) == spec_match_children(node0.children@, *graph,
                        used0.push(v), bl0.insert(v), c as int) + mc_child);
                    let new_child = node.children@[c as int];
                    assert(node.children@ == before_call.children@.update(c as int, new_child));
                    lemma_seq_sum_update(before_call.children@, c as int, new_child);
                    assert(node.sum_freq() == before_call.sum_freq()
                        - before_call.children@[c as int].sum_freq() + new_child.sum_freq());
                    assert forall|i: int|
                        0 <= i < node.children@.len() implies same_shape(
                        #[trigger] pre_node.children@[i],
                        node.children@[i],
                    ) by {
                        if i == c {
                            lemma_same_shape_trans(
                                pre_node.children@[i],
                                before_call.children@[i],
                                node.children@[i],
                            );
                        } else {
                            assert(node.children@[i] == before_call.children@[i]);
                        }
                    }
                    assert(same_shape(pre_node, *node));
                    assert forall|i: int|
                        0 <= i < node.children@.len() implies same_shape(
                        #[trigger] before_call.children@[i],
                        node.children@[i],
                    ) by {
                        if i != c {
                            assert(node.children@[i] == before_call.children@[i]);
                            lemma_same_shape_refl(before_call.children@[i]);
                        }
                    }
                    assert(same_shape(before_call, *node));
                    lemma_same_shape_wf(before_call, *node);
                    assert(node.wf());
                    assert forall|i: int|
                        0 <= i < node.children@.len() implies freqs_ge(
                        #[trigger] pre_node.children@[i],
                        node.children@[i],
                    ) by {
                        if i == c {
                            lemma_freqs_ge_trans(
                                pre_node.children@[i],
                                before_call.children@[i],
                                node.children@[i],
                            );
                        } else {
                            assert(node.children@[i] == before_call.children@[i]);
                        }
                    }
                    assert(freqs_ge(pre_node, *node));
                    if total0 + stotal <= usize::MAX {
                        assert forall|path: Seq<int>|
                            #[trigger] path_ok(node0, path) implies node_at(
                            *node,
                            path,
                        ).frequency as int == node_at(node_pre, path).frequency + (if path.len()
                            > 0 && path[0] < c + 1 {
                            spec_path_one(node0, *graph, used0, bl0, v, path)
                        } else {
                            0int
                        }) by {
                            if path.len() == 0 {
                                assert(node.frequency == before_call.frequency);
                            } else {
                                let rest = path.drop_first();
                                let j = path[0];
                                assert(node_at(*node, path) == node_at(node.children@[j], rest));
                                assert(node_at(node_pre, path) == node_at(
                                    node_pre.children@[j],
                                    rest,
                                ));
                                if j == c {
                                    assert(path_ok(node0.children@[j], rest));
                                    lemma_path_ok_shape(
                                        node0.children@[j],
                                        before_call.children@[j],
                                        rest,
                                    );
                                    assert(node_at(node.children@[j], rest).frequency as int
                                        == node_at(before_call.children@[j], rest).frequency
                                        + spec_path_delta(
                                        before_call.children@[j],
                                        *graph,
                                        used0.push(v),
                                        bl0.insert(v),
                                        rest,
                                    ));
                                    lemma_spec_path_delta_shape(
                                        node0.children@[j],
                                        before_call.children@[j],
                                        *graph,
                                        used0.push(v),
                                        bl0.insert(v),
                                        rest,
                                    );
                                    assert(spec_path_one(node0, *graph, used0, bl0, v, path)
                                        == spec_path_delta(
                                        node0.children@[j],
                                        *graph,
                                        used0.push(v),
                                        bl0.insert(v),
                                        rest,
                                    ));
                                    assert(node_at(before_call, path).frequency as int
                                        == node_at(node_pre, path).frequency + 0);
                                    assert(node_at(before_call, path) == node_at(
                                        before_call.children@[j],
                                        rest,
                                    ));
                                } else {
                                    assert(node.children@[j] == before_call.children@[j]);
                                }
                            }
                        }
                    }
                }
                c += 1;
            }
            proof {
                lemma_same_shape_trans(node0, pre_node, *node);
                lemma_freqs_ge_trans(node0, pre_node, *node);
            }
        }
        used.pop();
        bits_remove(blacklist, v);
        proof {
            assert(used@ =~= used0);
            assert(bit_set(*blacklist) =~= bl0);
        }
        idx += 1;
    }
    proof {
        assert(vertices@.subrange(0, n_vertices as int) =~= vertices@);
        graph.lemma_n_lt_max();
        if used0.len() == 0 {
            assert(bl0 =~= Set::<usize>::empty());
            if node0.conditions is Some {
                lemma_minimal_index_empty(
                    used0,
                    node0.conditions.unwrap()@,
                    node0.conditions.unwrap()@.len() as int,
                );
            }
            assert(spec_label_min(node0, used0) == 0);
        }
        assert forall|x: usize|
            #[trigger] vertices@.contains(x) <==> (spec_admissible(node0, *graph, used0, bl0, x)
                && (x as int) < graph.n) by {}
        lemma_spec_match_seq_complete(vertices@, node0, *graph, used0, bl0, graph.n as int);
        if total0 + stotal <= usize::MAX {
            assert forall|path: Seq<int>|
                #[trigger] path_ok(node0, path) implies node_at(*node, path).frequency as int
                == node_at(node0, path).frequency + spec_path_delta(
                node0,
                *graph,
                used0,
                bl0,
                path,
            ) by {
                lemma_spec_path_seq_complete(vertices@, node0, *graph, used0, bl0, path,
                    graph.n as int);
                assert(vertices@.subrange(0, n_vertices as int) == vertices@);
            }
        }
    }
}


/// Whether the assigned vertices satisfy every condition of the node.
pub open spec fn spec_conditions_ok(node: GtrieNode, used: Seq<usize>) -> bool {
    match node.conditions {
        None => true,
        Some(cs) => spec_pairs_respected(used, cs),
    }
}

/// `v` admissibly extends `used` at this node: it is a host vertex, not yet
/// assigned, structurally matching, and at least the conditions' lower
/// bound for the next position.
pub open spec fn spec_admissible(
    node: GtrieNode,
    g: Bitgraph,
    used: Seq<usize>,
    bl: Set<usize>,
    v: usize,
) -> bool {
    &&& v < g.n
    &&& spec_matches_structure(node, g, used, v)
    &&& !bl.contains(v)
    &&& v as int >= spec_label_min(node, used)
}

/// The functional model of the matcher: the number of matches that walking
/// `node` against `g` adds, given the vertices assigned so far.
pub open spec fn spec_match(node: GtrieNode, g: Bitgraph, used: Seq<usize>, bl: Set<usize>) -> int
    decreases node.height(), 3int, 0int,
{
    if !spec_conditions_ok(node, used) {
        0
    } else {
        spec_match_verts(node, g, used, bl, g.n as int)
    }
}

/// The matches contributed by the admissible vertices below `v`.
pub open spec fn spec_match_verts(
    node: GtrieNode,
    g: Bitgraph,
    used: Seq<usize>,
    bl: Set<usize>,
    v: int,
) -> int
    decreases node.height(), 2int, v,
{
    if v <= 0 {
        0
    } else {
        spec_match_verts(node, g, used, bl, v - 1) + (if spec_admissible(
            node,
            g,
            used,
            bl,
            (v - 1) as usize,
        ) {
            spec_match_one(node, g, used, bl, (v - 1) as usize)
        } else {
            0
        })
    }
}

/// The matches one accepted vertex yields: a terminal counts once, any
/// other node hands the extended assignment to its children.
pub open spec fn spec_match_one(
    node: GtrieNode,
    g: Bitgraph,
    used: Seq<usize>,
    bl: Set<usize>,
    v: usize,
) -> int
    decreases node.height(), 1int, 0int,
{
    if node.is_graph {
        1
    } else {
        spec_match_children(
            node.children@,
            g,
            used.push(v),
            bl.insert(v),
            node.children@.len() as int,
        )
    }
}

/// The matches of the first `i` children together.
pub open spec fn spec_match_children(
    s: Seq<GtrieNode>,
    g: Bitgraph,
    used: Seq<usize>,
    bl: Set<usize>,
    i: int,
) -> int
    decreases seq_height(s) + 1, 0int, i,
    when i <= s.len()
    via spec_match_children_dec
{
    if i <= 0 {
        0
    } else {
        spec_match_children(s, g, used, bl, i - 1) + spec_match(s[i - 1], g, used, bl)
    }
}

#[via_fn]
proof fn spec_match_children_dec(s: Seq<GtrieNode>, g: Bitgraph, used: Seq<usize>, bl: Set<usize>, i: int) {
    if 0 < i <= s.len() {
        lemma_seq_height_elem(s, i - 1);
    }
}

/// Match counts are never negative.
pub proof fn lemma_spec_match_nonneg(node: GtrieNode, g: Bitgraph, used: Seq<usize>, bl: Set<usize>)
    ensures
        spec_match(node, g, used, bl) >= 0,
    decreases node.height(), 3int, 0int,
{
    if spec_conditions_ok(node, used) {
        lemma_spec_match_verts_nonneg(node, g, used, bl, g.n as int);
    }
}

proof fn lemma_spec_match_verts_nonneg(
    node: GtrieNode,
    g: Bitgraph,
    used: Seq<usize>,
    bl: Set<usize>,
    v: int,
)
    ensures
        spec_match_verts(node, g, used, bl, v) >= 0,
    decreases node.height(), 2int, v,
{
    if v > 0 {
        lemma_spec_match_verts_nonneg(node, g, used, bl, v - 1);
        if spec_admissible(node, g, used, bl, (v - 1) as usize) {
            lemma_spec_match_one_nonneg(node, g, used, bl, (v - 1) as usize);
        }
    }
}

pub proof fn lemma_spec_match_one_nonneg(
    node: GtrieNode,
    g: Bitgraph,
    used: Seq<usize>,
    bl: Set<usize>,
    v: usize,
)
    ensures
        spec_match_one(node, g, used, bl, v) >= 0,
    decreases node.height(), 1int, 0int,
{
    if !node.is_graph {
        lemma_spec_match_children_nonneg(
            node.children@,
            g,
            used.push(v),
            bl.insert(v),
            node.children@.len() as int,
        );
    }
}

pub proof fn lemma_spec_match_children_nonneg(
    s: Seq<GtrieNode>,
    g: Bitgraph,
    used: Seq<usize>,
    bl: Set<usize>,
    i: int,
)
    requires
        i <= s.len(),
    ensures
        spec_match_children(s, g, used, bl, i) >= 0,
    decreases seq_height(s) + 1, 0int, i,
{
    if i > 0 {
        lemma_seq_height_elem(s, i - 1);
        lemma_spec_match_children_nonneg(s, g, used, bl, i - 1);
        lemma_spec_match_nonneg(s[i - 1], g, used, bl);
    }
}

/// The model reads only the shape of the tree, never the counters.
pub proof fn lemma_spec_match_shape(
    a: GtrieNode,
    b: GtrieNode,
    g: Bitgraph,
    used: Seq<usize>,
    bl: Set<usize>,
)
    requires
        same_shape(a, b),
    ensures
        spec_match(a, g, used, bl) == spec_match(b, g, used, bl),
    decreases a.height(), 3int, 0int,
{
    assert(spec_conditions_ok(a, used) == spec_conditions_ok(b, used));
    if spec_conditions_ok(a, used) {
        lemma_spec_match_verts_shape(a, b, g, used, bl, g.n as int);
    }
}

proof fn lemma_spec_match_verts_shape(
    a: GtrieNode,
    b: GtrieNode,
    g: Bitgraph,
    used: Seq<usize>,
    bl: Set<usize>,
    v: int,
)
    requires
        same_shape(a, b),
    ensures
        spec_match_verts(a, g, used, bl, v) == spec_match_verts(b, g, used, bl, v),
    decreases a.height(), 2int, v,
{
    if v > 0 {
        lemma_spec_match_verts_shape(a, b, g, used, bl, v - 1);
        let w = (v - 1) as usize;
        assert(spec_label_min(a, used) == spec_label_min(b, used));
        assert forall|i: int| 0 <= i < used.len() implies (a.out_bit(i) == b.out_bit(i)
            && a.in_bit(i) == b.in_bit(i)) by {}
        assert(spec_matches_structure(a, g, used, w) == spec_matches_structure(b, g, used, w));
        assert(spec_admissible(a, g, used, bl, w) == spec_admissible(b, g, used, bl, w));
        if spec_admissible(a, g, used, bl, w) {
            lemma_spec_match_one_shape(a, b, g, used, bl, w);
        }
    }
}

pub proof fn lemma_spec_match_one_shape(
    a: GtrieNode,
    b: GtrieNode,
    g: Bitgraph,
    used: Seq<usize>,
    bl: Set<usize>,
    v: usize,
)
    requires
        same_shape(a, b),
    ensures
        spec_match_one(a, g, used, bl, v) == spec_match_one(b, g, used, bl, v),
    decreases a.height(), 1int, 0int,
{
    if !a.is_graph {
        lemma_spec_match_children_shape(
            a.children@,
            b.children@,
            g,
            used.push(v),
            bl.insert(v),
            a.children@.len() as int,
        );
    }
}

proof fn lemma_spec_match_children_shape(
    a: Seq<GtrieNode>,
    b: Seq<GtrieNode>,
    g: Bitgraph,
    used: Seq<usize>,
    bl: Set<usize>,
    i: int,
)
    requires
        a.len() == b.len(),
        i <= a.len(),
        forall|t: int| 0 <= t < a.len() ==> same_shape(#[trigger] a[t], b[t]),
    ensures
        spec_match_children(a, g, used, bl, i) == spec_match_children(b, g, used, bl, i),
    decreases seq_height(a) + 1, 0int, i,
{
    if i > 0 {
        lemma_seq_height_elem(a, i - 1);
        lemma_spec_match_children_shape(a, b, g, used, bl, i - 1);
        lemma_spec_match_shape(a[i - 1], b[i - 1], g, used, bl);
    }
}


/// The matches a list of accepted vertices yields, one by one.
pub open spec fn spec_match_seq(
    s: Seq<usize>,
    node: GtrieNode,
    g: Bitgraph,
    used: Seq<usize>,
    bl: Set<usize>,
) -> int
    decreases s.len(),
{
    if s.len() == 0 {
        0
    } else {
        spec_match_seq(s.drop_last(), node, g, used, bl) + spec_match_one(
            node,
            g,
            used,
            bl,
            s.last(),
        )
    }
}

/// Removing one vertex removes exactly its contribution.
proof fn lemma_spec_match_seq_remove(
    s: Seq<usize>,
    node: GtrieNode,
    g: Bitgraph,
    used: Seq<usize>,
    bl: Set<usize>,
    i: int,
)
    requires
        0 <= i < s.len(),
    ensures
        spec_match_seq(s.remove(i), node, g, used, bl) == spec_match_seq(s, node, g, used, bl)
            - spec_match_one(node, g, used, bl, s[i]),
    decreases s.len(),
{
    if i == s.len() - 1 {
        assert(s.remove(i) =~= s.drop_last());
    } else {
        assert(s.remove(i).drop_last() =~= s.drop_last().remove(i));
        assert(s.remove(i).last() == s.last());
        lemma_spec_match_seq_remove(s.drop_last(), node, g, used, bl, i);
        assert(s.drop_last()[i] == s[i]);
    }
}

/// A duplicate-free list holding exactly the admissible vertices below `v`
/// sums to the model's vertex scan.
proof fn lemma_spec_match_seq_complete(
    s: Seq<usize>,
    node: GtrieNode,
    g: Bitgraph,
    used: Seq<usize>,
    bl: Set<usize>,
    v: int,
)
    requires
        0 <= v <= usize::MAX + 1,
        forall|a: int, b: int| 0 <= a < b < s.len() ==> s[a] != s[b],
        forall|x: usize|
            #[trigger] s.contains(x) <==> (spec_admissible(node, g, used, bl, x) && (x as int)
                < v),
    ensures
        spec_match_seq(s, node, g, used, bl) == spec_match_verts(node, g, used, bl, v),
    decreases v,
{
    if v == 0 {
        if s.len() > 0 {
            assert(s.contains(s[0]));
        }
        assert(s.len() == 0);
    } else {
        let w = (v - 1) as usize;
        if spec_admissible(node, g, used, bl, w) {
            assert(s.contains(w));
            let i = choose|i: int| 0 <= i < s.len() && s[i] == w;
            let t = s.remove(i);
            assert forall|a: int, b: int| 0 <= a < b < t.len() implies t[a] != t[b] by {
                assert(t[a] == (if a < i {
                    s[a]
                } else {
                    s[a + 1]
                }));
                assert(t[b] == (if b < i {
                    s[b]
                } else {
                    s[b + 1]
                }));
            }
            assert forall|x: usize|
                #[trigger] t.contains(x) <==> (spec_admissible(node, g, used, bl, x) && (x as int)
                    < v - 1) by {
                if t.contains(x) {
                    let j = choose|j: int| 0 <= j < t.len() && t[j] == x;
                    if j < i {
                        assert(s[j] == x);
                    } else {
                        assert(s[j + 1] == x);
                    }
                    assert(s.contains(x));
                    assert(x != w) by {
                        if j < i {
                            assert(s[j] != s[i]);
                        } else {
                            assert(s[j + 1] != s[i]);
                        }
                    }
                }
                if spec_admissible(node, g, used, bl, x) && (x as int) < v - 1 {
                    assert(s.contains(x));
                    let j = choose|j: int| 0 <= j < s.len() && s[j] == x;
                    assert(j != i);
                    if j < i {
                        assert(t[j] == x);
                    } else {
                        assert(t[j - 1] == x);
                    }
                    assert(t.contains(x));
                }
            }
            lemma_spec_match_seq_remove(s, node, g, used, bl, i);
            lemma_spec_match_seq_complete(t, node, g, used, bl, v - 1);
        } else {
            assert(!s.contains(w));
            assert forall|x: usize|
                #[trigger] s.contains(x) <==> (spec_admissible(node, g, used, bl, x) && (
                x as int) < v - 1) by {
                if s.contains(x) {
                    assert(x != w);
                }
            }
            lemma_spec_match_seq_complete(s, node, g, used, bl, v - 1);
        }
    }
}


/// The node reached from `n` along the child indices of `path`.
pub open spec fn node_at(n: GtrieNode, path: Seq<int>) -> GtrieNode
    decreases path.len(),
{
    if path.len() == 0 {
        n
    } else {
        node_at(n.children@[path[0]], path.drop_first())
    }
}

/// `path` names a node of the tree under `n`.
pub open spec fn path_ok(n: GtrieNode, path: Seq<int>) -> bool
    decreases path.len(),
{
    path.len() == 0 || (0 <= path[0] < n.children@.len() && path_ok(
        n.children@[path[0]],
        path.drop_first(),
    ))
}

/// The contribution one accepted vertex makes to the counter of the node at
/// `path`: one for the node itself if it is a terminal, the recursive count
/// below the named child otherwise.
pub open spec fn spec_path_one(
    node: GtrieNode,
    g: Bitgraph,
    used: Seq<usize>,
    bl: Set<usize>,
    v: usize,
    path: Seq<int>,
) -> int
    decreases node.height(), 1int, 0int,
    when 0 <= path.len()
    via spec_path_one_dec
{
    if path.len() == 0 {
        if node.is_graph {
            1
        } else {
            0
        }
    } else if node.is_graph || !(0 <= path[0] < node.children@.len()) {
        0
    } else {
        spec_path_delta(
            node.children@[path[0]],
            g,
            used.push(v),
            bl.insert(v),
            path.drop_first(),
        )
    }
}

#[via_fn]
proof fn spec_path_one_dec(
    node: GtrieNode,
    g: Bitgraph,
    used: Seq<usize>,
    bl: Set<usize>,
    v: usize,
    path: Seq<int>,
) {
    if path.len() > 0 && !node.is_graph && 0 <= path[0] < node.children@.len() {
        lemma_child_height_lt(node, path[0]);
    }
}

/// The total increment the walk of `node` gives the counter of the node at
/// `path`, starting from the assignment `used`.
pub open spec fn spec_path_delta(
    node: GtrieNode,
    g: Bitgraph,
    used: Seq<usize>,
    bl: Set<usize>,
    path: Seq<int>,
) -> int
    decreases node.height(), 3int, 0int,
{
    if !spec_conditions_ok(node, used) {
        0
    } else {
        spec_path_verts(node, g, used, bl, path, g.n as int)
    }
}

/// The contributions of the admissible vertices below `v`.
pub open spec fn spec_path_verts(
    node: GtrieNode,
    g: Bitgraph,
    used: Seq<usize>,
    bl: Set<usize>,
    path: Seq<int>,
    v: int,
) -> int
    decreases node.height(), 2int, v,
{
    if v <= 0 {
        0
    } else {
        spec_path_verts(node, g, used, bl, path, v - 1) + (if spec_admissible(
            node,
            g,
            used,
            bl,
            (v - 1) as usize,
        ) {
            spec_path_one(node, g, used, bl, (v - 1) as usize, path)
        } else {
            0
        })
    }
}

/// The contributions of a list of accepted vertices, one by one.
pub open spec fn spec_path_seq(
    s: Seq<usize>,
    node: GtrieNode,
    g: Bitgraph,
    used: Seq<usize>,
    bl: Set<usize>,
    path: Seq<int>,
) -> int
    decreases s.len(),
{
    if s.len() == 0 {
        0
    } else {
        spec_path_seq(s.drop_last(), node, g, used, bl, path) + spec_path_one(
            node,
            g,
            used,
            bl,
            s.last(),
            path,
        )
    }
}

/// Removing one vertex removes exactly its contribution.
proof fn lemma_spec_path_seq_remove(
    s: Seq<usize>,
    node: GtrieNode,
    g: Bitgraph,
    used: Seq<usize>,
    bl: Set<usize>,
    path: Seq<int>,
    i: int,
)
    requires
        0 <= i < s.len(),
    ensures
        spec_path_seq(s.remove(i), node, g, used, bl, path) == spec_path_seq(
            s,
            node,
            g,
            used,
            bl,
            path,
        ) - spec_path_one(node, g, used, bl, s[i], path),
    decreases s.len(),
{
    if i == s.len() - 1 {
        assert(s.remove(i) =~= s.drop_last());
    } else {
        assert(s.remove(i).drop_last() =~= s.drop_last().remove(i));
        assert(s.remove(i).last() == s.last());
        lemma_spec_path_seq_remove(s.drop_last(), node, g, used, bl, path, i);
        assert(s.drop_last()[i] == s[i]);
    }
}

/// A duplicate-free list holding exactly the admissible vertices below `v`
/// contributes the model's vertex scan.
proof fn lemma_spec_path_seq_complete(
    s: Seq<usize>,
    node: GtrieNode,
    g: Bitgraph,
    used: Seq<usize>,
    bl: Set<usize>,
    path: Seq<int>,
    v: int,
)
    requires
        0 <= v <= usize::MAX + 1,
        forall|a: int, b: int| 0 <= a < b < s.len() ==> s[a] != s[b],
        forall|x: usize|
            #[trigger] s.contains(x) <==> (spec_admissible(node, g, used, bl, x) && (x as int)
                < v),
    ensures
        spec_path_seq(s, node, g, used, bl, path) == spec_path_verts(node, g, used, bl, path, v),
    decreases v,
{
    if v == 0 {
        if s.len() > 0 {
            assert(s.contains(s[0]));
        }
        assert(s.len() == 0);
    } else {
        let w = (v - 1) as usize;
        if spec_admissible(node, g, used, bl, w) {
            assert(s.contains(w));
            let i = choose|i: int| 0 <= i < s.len() && s[i] == w;
            let t = s.remove(i);
            assert forall|a: int, b: int| 0 <= a < b < t.len() implies t[a] != t[b] by {
                assert(t[a] == (if a < i {
                    s[a]
                } else {
                    s[a + 1]
                }));
                assert(t[b] == (if b < i {
                    s[b]
                } else {
                    s[b + 1]
                }));
            }
            assert forall|x: usize|
                #[trigger] t.contains(x) <==> (spec_admissible(node, g, used, bl, x) && (x as int)
                    < v - 1) by {
                if t.contains(x) {
                    let j = choose|j: int| 0 <= j < t.len() && t[j] == x;
                    if j < i {
                        assert(s[j] == x);
                    } else {
                        assert(s[j + 1] == x);
                    }
                    assert(s.contains(x));
                    assert(x != w) by {
                        if j < i {
                            assert(s[j] != s[i]);
                        } else {
                            assert(s[j + 1] != s[i]);
                        }
                    }
                }
                if spec_admissible(node, g, used, bl, x) && (x as int) < v - 1 {
                    assert(s.contains(x));
                    let j = choose|j: int| 0 <= j < s.len() && s[j] == x;
                    assert(j != i);
                    if j < i {
                        assert(t[j] == x);
                    } else {
                        assert(t[j - 1] == x);
                    }
                    assert(t.contains(x));
                }
            }
            lemma_spec_path_seq_remove(s, node, g, used, bl, path, i);
            lemma_spec_path_seq_complete(t, node, g, used, bl, path, v - 1);
        } else {
            assert(!s.contains(w));
            assert forall|x: usize|
                #[trigger] s.contains(x) <==> (spec_admissible(node, g, used, bl, x) && (
                x as int) < v - 1) by {
                if s.contains(x) {
                    assert(x != w);
                }
            }
            lemma_spec_path_seq_complete(s, node, g, used, bl, path, v - 1);
        }
    }
}

/// The path model reads only the shape of the tree.
pub proof fn lemma_spec_path_delta_shape(
    a: GtrieNode,
    b: GtrieNode,
    g: Bitgraph,
    used: Seq<usize>,
    bl: Set<usize>,
    path: Seq<int>,
)
    requires
        same_shape(a, b),
    ensures
        spec_path_delta(a, g, used, bl, path) == spec_path_delta(b, g, used, bl, path),
    decreases a.height(), 3int, 0int,
{
    assert(spec_conditions_ok(a, used) == spec_conditions_ok(b, used));
    if spec_conditions_ok(a, used) {
        lemma_spec_path_verts_shape(a, b, g, used, bl, path, g.n as int);
    }
}

proof fn lemma_spec_path_verts_shape(
    a: GtrieNode,
    b: GtrieNode,
    g: Bitgraph,
    used: Seq<usize>,
    bl: Set<usize>,
    path: Seq<int>,
    v: int,
)
    requires
        same_shape(a, b),
    ensures
        spec_path_verts(a, g, used, bl, path, v) == spec_path_verts(b, g, used, bl, path, v),
    decreases a.height(), 2int, v,
{
    if v > 0 {
        lemma_spec_path_verts_shape(a, b, g, used, bl, path, v - 1);
        let w = (v - 1) as usize;
        assert(spec_label_min(a, used) == spec_label_min(b, used));
        assert forall|i: int| 0 <= i < used.len() implies (a.out_bit(i) == b.out_bit(i)
            && a.in_bit(i) == b.in_bit(i)) by {}
        assert(spec_matches_structure(a, g, used, w) == spec_matches_structure(b, g, used, w));
        assert(spec_admissible(a, g, used, bl, w) == spec_admissible(b, g, used, bl, w));
        if spec_admissible(a, g, used, bl, w) {
            lemma_spec_path_one_shape(a, b, g, used, bl, w, path);
        }
    }
}

pub proof fn lemma_spec_path_one_shape(
    a: GtrieNode,
    b: GtrieNode,
    g: Bitgraph,
    used: Seq<usize>,
    bl: Set<usize>,
    v: usize,
    path: Seq<int>,
)
    requires
        same_shape(a, b),
    ensures
        spec_path_one(a, g, used, bl, v, path) == spec_path_one(b, g, used, bl, v, path),
    decreases a.height(), 1int, 0int,
{
    if path.len() > 0 && !a.is_graph && 0 <= path[0] < a.children@.len() {
        lemma_child_height_lt(a, path[0]);
        lemma_spec_path_delta_shape(
            a.children@[path[0]],
            b.children@[path[0]],
            g,
            used.push(v),
            bl.insert(v),
            path.drop_first(),
        );
    }
}

/// Equal shapes admit the same paths.
pub proof fn lemma_path_ok_shape(a: GtrieNode, b: GtrieNode, path: Seq<int>)
    requires
        same_shape(a, b),
    ensures
        path_ok(a, path) == path_ok(b, path),
    decreases path.len(),
{
    if path.len() > 0 && 0 <= path[0] < a.children@.len() {
        lemma_path_ok_shape(a.children@[path[0]], b.children@[path[0]], path.drop_first());
    }
}

/// Earlier children contribute at most the whole child scan.
pub proof fn lemma_spec_match_children_mono(
    s: Seq<GtrieNode>,
    g: Bitgraph,
    used: Seq<usize>,
    bl: Set<usize>,
    i: int,
    j: int,
)
    requires
        0 <= i <= j <= s.len(),
    ensures
        spec_match_children(s, g, used, bl, i) <= spec_match_children(s, g, used, bl, j),
    decreases j,
{
    if i < j {
        lemma_spec_match_children_mono(s, g, used, bl, i, j - 1);
        lemma_seq_height_elem(s, j - 1);
        lemma_spec_match_nonneg(s[j - 1], g, used, bl);
    }
}

/// A prefix of the accepted vertices contributes at most the whole list.
proof fn lemma_spec_match_seq_prefix_le(
    s: Seq<usize>,
    i: int,
    node: GtrieNode,
    g: Bitgraph,
    used: Seq<usize>,
    bl: Set<usize>,
)
    requires
        0 <= i <= s.len(),
    ensures
        spec_match_seq(s.subrange(0, i), node, g, used, bl) <= spec_match_seq(
            s,
            node,
            g,
            used,
            bl,
        ),
    decreases s.len(),
{
    if i < s.len() {
        assert(s.subrange(0, i) =~= s.drop_last().subrange(0, i));
        lemma_spec_match_seq_prefix_le(s.drop_last(), i, node, g, used, bl);
        lemma_spec_match_one_nonneg(node, g, used, bl, s.last());
    } else {
        assert(s.subrange(0, i) =~= s);
    }
}

} // verus!
