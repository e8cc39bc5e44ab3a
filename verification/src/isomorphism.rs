//! Canonical relabeling and symmetry-breaking condition synthesis.
//!
//! The automorphism oracle is an interface: whoever builds patterns supplies
//! a canonically labelled adjacency matrix together with the orbit of each
//! vertex and the list of automorphism permutations.  This module re-labels
//! the vertices so that the most constraining ones sit near position zero and
//! articulation points are deferred — vertices are assigned from the last
//! position backwards, each time choosing the non-articulation vertex with
//! the lexicographically least `(current, last, total)` degree triple — and
//! then derives the ordering conditions that cut the automorphism group down
//! to the identity.

use vstd::prelude::*;

use fixedbitset::FixedBitSet;

use crate::bitgraph::{adj_edge, lemma_grid_index};
use crate::bits::{bit_capacity, bit_set, bits_insert, bits_with_capacity};
use crate::symmetry::{Condition, Conditions};

verus! {

/// The degree of `v` counted over the vertices below `j` that are still
/// unused: one for each edge leaving `v` towards such a vertex and one for
/// each edge arriving from it.
pub open spec fn residual_degree(adj: FixedBitSet, n: int, v: int, used: Seq<bool>, j: int) -> int
    decreases j,
{
    if j <= 0 {
        0
    } else {
        residual_degree(adj, n, v, used, j - 1) + (if !used[j - 1] && adj_edge(adj, n, v, j - 1) {
            1int
        } else {
            0int
        }) + (if !used[j - 1] && adj_edge(adj, n, j - 1, v) {
            1int
        } else {
            0int
        })
    }
}

/// Residual degrees are bounded by twice the number of vertices scanned.
pub proof fn lemma_residual_bounds(adj: FixedBitSet, n: int, v: int, used: Seq<bool>, j: int)
    requires
        j >= 0,
    ensures
        0 <= residual_degree(adj, n, v, used, j) <= 2 * j,
    decreases j,
{
    if j > 0 {
        lemma_residual_bounds(adj, n, v, used, j - 1);
    }
}

/// Marking `u` as used removes exactly its two possible contributions from
/// every residual degree.
pub proof fn lemma_residual_mark(
    adj: FixedBitSet,
    n: int,
    v: int,
    used: Seq<bool>,
    u: int,
    j: int,
)
    requires
        0 <= u < used.len(),
        j <= used.len(),
        !used[u],
    ensures
        residual_degree(adj, n, v, used.update(u, true), j) == residual_degree(adj, n, v, used, j)
            - (if u < j && adj_edge(adj, n, v, u) {
            1int
        } else {
            0int
        }) - (if u < j && adj_edge(adj, n, u, v) {
            1int
        } else {
            0int
        }),
    decreases j,
{
    if j > 0 {
        lemma_residual_mark(adj, n, v, used, u, j - 1);
        if u == j - 1 {
            assert(used.update(u, true)[j - 1] == true);
        } else {
            assert(used.update(u, true)[j - 1] == used[j - 1]);
        }
    }
}

/// A still-unused vertex's contributions never exceed the residual degree.
pub proof fn lemma_residual_contribution(
    adj: FixedBitSet,
    n: int,
    v: int,
    used: Seq<bool>,
    u: int,
    j: int,
)
    requires
        0 <= u < j,
        !used[u],
    ensures
        residual_degree(adj, n, v, used, j) >= (if adj_edge(adj, n, v, u) {
            1int
        } else {
            0int
        }) + (if adj_edge(adj, n, u, v) {
            1int
        } else {
            0int
        }),
    decreases j,
{
    if u < j - 1 {
        lemma_residual_contribution(adj, n, v, used, u, j - 1);
        lemma_residual_bounds(adj, n, v, used, j - 1);
        assert(residual_degree(adj, n, v, used, j) >= residual_degree(adj, n, v, used, j - 1));
    } else {
        lemma_residual_bounds(adj, n, v, used, j - 1);
    }
}

/// Initialises the three degree arrays: every entry of each becomes the full
/// degree of its vertex (each edge counted once per endpoint role).
pub fn init_degrees(
    adj: &FixedBitSet,
    n: usize,
    degree: &mut Vec<usize>,
    global_degree: &mut Vec<usize>,
    last_degree: &mut Vec<usize>,
)
    requires
        n * n <= usize::MAX,
        old(degree)@.len() == n,
        old(global_degree)@.len() == n,
        old(last_degree)@.len() == n,
        forall|i: int| 0 <= i < n ==> old(degree)@[i] == 0,
        forall|i: int| 0 <= i < n ==> old(global_degree)@[i] == 0,
        forall|i: int| 0 <= i < n ==> old(last_degree)@[i] == 0,
    ensures
        final(degree)@.len() == n,
        final(global_degree)@.len() == n,
        final(last_degree)@.len() == n,
        forall|u: int|
            0 <= u < n ==> final(degree)@[u] as int == residual_degree(
                *adj,
                n as int,
                u,
                Seq::new(n as nat, |i: int| false),
                n as int,
            ),
        forall|u: int| 0 <= u < n ==> final(global_degree)@[u] == final(degree)@[u],
        forall|u: int| 0 <= u < n ==> final(last_degree)@[u] == final(degree)@[u],
{
    let ghost unused = Seq::new(n as nat, |i: int| false);
    let mut u: usize = 0;
    while u < n
        invariant
            n * n <= usize::MAX,
            u <= n,
            degree@.len() == n,
            global_degree@.len() == n,
            last_degree@.len() == n,
            forall|t: int|
                0 <= t < u ==> degree@[t] as int == residual_degree(
                    *adj,
                    n as int,
                    t,
                    unused,
                    n as int,
                ),
            forall|t: int| 0 <= t < u ==> global_degree@[t] == degree@[t],
            forall|t: int| 0 <= t < u ==> last_degree@[t] == degree@[t],
            forall|t: int| u <= t < n ==> degree@[t] == 0,
            forall|t: int| u <= t < n ==> global_degree@[t] == 0,
            forall|t: int| u <= t < n ==> last_degree@[t] == 0,
            unused == Seq::new(n as nat, |i: int| false),
        decreases n - u,
    {
        let mut d: usize = 0;
        let mut v: usize = 0;
        while v < n
            invariant
                n * n <= usize::MAX,
                u < n,
                v <= n,
                d as int == residual_degree(*adj, n as int, u as int, unused, v as int),
                d <= 2 * v,
                unused == Seq::new(n as nat, |i: int| false),
            decreases n - v,
        {
            proof {
                lemma_grid_index(n as int, u as int, v as int);
                lemma_grid_index(n as int, v as int, u as int);
                if n >= 2 {
                    assert(2 * n <= n * n) by (nonlinear_arith)
                        requires n >= 2;
                }
            }
            if crate::bits::bits_contains(adj, u * n + v) {
                d = d + 1;
            }
            if crate::bits::bits_contains(adj, v * n + u) {
                d = d + 1;
            }
            v += 1;
        }
        degree.set(u, d);
        global_degree.set(u, d);
        last_degree.set(u, d);
        u += 1;
    }
}

/// First tie breaker: a strictly smaller degree in the previous round.
pub fn smaller_last_degree(last_degree: &Vec<usize>, u: usize, min_u: usize) -> (r: bool)
    requires
        u < last_degree@.len(),
        min_u < last_degree@.len(),
    ensures
        r == (last_degree@[u as int] < last_degree@[min_u as int]),
{
    last_degree[u] < last_degree[min_u]
}

/// Second tie breaker: an equal previous-round degree but a strictly smaller
/// total degree.
pub fn smaller_global_degree(
    last_degree: &Vec<usize>,
    global_degree: &Vec<usize>,
    u: usize,
    min_u: usize,
) -> (r: bool)
    requires
        u < last_degree@.len(),
        min_u < last_degree@.len(),
        u < global_degree@.len(),
        min_u < global_degree@.len(),
    ensures
        r == (last_degree@[u as int] == last_degree@[min_u as int] && global_degree@[u as int]
            < global_degree@[min_u as int]),
{
    last_degree[u] == last_degree[min_u] && global_degree[u] < global_degree[min_u]
}

/// `u`'s degree triple lexicographically improves on `w`'s.
pub open spec fn strictly_better(
    degree: Seq<usize>,
    last_degree: Seq<usize>,
    global_degree: Seq<usize>,
    u: int,
    w: int,
) -> bool {
    ||| degree[u] < degree[w]
    ||| (degree[u] == degree[w] && last_degree[u] < last_degree[w])
    ||| (degree[u] == degree[w] && last_degree[u] == last_degree[w] && global_degree[u]
        < global_degree[w])
}

/// Selects the vertex to assign next: among the unused non-articulation
/// vertices, the one with the lexicographically least triple of current,
/// previous-round and total degree, preferring the lowest index on full
/// ties.
pub fn select_minimum_vertex(
    degree: &Vec<usize>,
    last_degree: &Vec<usize>,
    global_degree: &Vec<usize>,
    used: &Vec<bool>,
    ap: &Vec<bool>,
    size: usize,
) -> (r: usize)
    requires
        degree@.len() == size,
        last_degree@.len() == size,
        global_degree@.len() == size,
        used@.len() == size,
        ap@.len() == size,
        exists|u: int| 0 <= u < size && !used@[u] && !ap@[u],
    ensures
        r < size,
        !used@[r as int],
        !ap@[r as int],
        forall|w: int|
            0 <= w < size && !used@[w] && !ap@[w] ==> !strictly_better(
                degree@,
                last_degree@,
                global_degree@,
                w,
                r as int,
            ),
        forall|w: int|
            0 <= w < size && !used@[w] && !ap@[w] && !strictly_better(
                degree@,
                last_degree@,
                global_degree@,
                r as int,
                w,
            ) ==> r <= w,
{
    let mut min_u: usize = size;
    let mut u: usize = 0;
    while u < size
        invariant
            degree@.len() == size,
            last_degree@.len() == size,
            global_degree@.len() == size,
            used@.len() == size,
            ap@.len() == size,
            u <= size,
            min_u <= size,
            min_u == size ==> forall|w: int| 0 <= w < u ==> used@[w] || ap@[w],
            min_u < size ==> {
                &&& min_u < u
                &&& !used@[min_u as int]
                &&& !ap@[min_u as int]
                &&& forall|w: int|
                    0 <= w < u && !used@[w] && !ap@[w] ==> !strictly_better(
                        degree@,
                        last_degree@,
                        global_degree@,
                        w,
                        min_u as int,
                    )
                &&& forall|w: int|
                    0 <= w < u && !used@[w] && !ap@[w] && !strictly_better(
                        degree@,
                        last_degree@,
                        global_degree@,
                        min_u as int,
                        w,
                    ) ==> min_u <= w
            },
        decreases size - u,
    {
        if !used[u] && !ap[u] {
            if min_u == size {
                min_u = u;
            } else if degree[u] < degree[min_u] {
                min_u = u;
            } else if degree[u] == degree[min_u] {
                if smaller_last_degree(last_degree, u, min_u) || smaller_global_degree(
                    last_degree,
                    global_degree,
                    u,
                    min_u,
                ) {
                    min_u = u;
                }
            }
        }
        u += 1;
    }
    min_u
}

/// Records the current degrees as the previous round's and removes `u`'s
/// contributions from every current degree.
pub fn update_degree(
    adj: &FixedBitSet,
    size: usize,
    degree: &mut Vec<usize>,
    last_degree: &mut Vec<usize>,
    u: usize,
)
    requires
        size * size <= usize::MAX,
        u < size,
        old(degree)@.len() == size,
        old(last_degree)@.len() == size,
        forall|v: int|
            0 <= v < size ==> old(degree)@[v] as int >= (if adj_edge(
                *adj,
                size as int,
                v,
                u as int,
            ) {
                1int
            } else {
                0int
            }) + (if adj_edge(*adj, size as int, u as int, v) {
                1int
            } else {
                0int
            }),
    ensures
        final(degree)@.len() == size,
        final(last_degree)@.len() == size,
        forall|v: int| 0 <= v < size ==> final(last_degree)@[v] == old(degree)@[v],
        forall|v: int|
            0 <= v < size ==> final(degree)@[v] as int == old(degree)@[v] - (if adj_edge(
                *adj,
                size as int,
                v,
                u as int,
            ) {
                1int
            } else {
                0int
            }) - (if adj_edge(*adj, size as int, u as int, v) {
                1int
            } else {
                0int
            }),
{
    let mut v: usize = 0;
    while v < size
        invariant
            size * size <= usize::MAX,
            u < size,
            v <= size,
            degree@.len() == size,
            last_degree@.len() == size,
            forall|t: int| v <= t < size ==> degree@[t] == old(degree)@[t],
            forall|t: int| 0 <= t < v ==> last_degree@[t] == old(degree)@[t],
            forall|t: int| v <= t < size ==> last_degree@[t] == old(last_degree)@[t],
            forall|t: int|
                0 <= t < size ==> old(degree)@[t] as int >= (if adj_edge(
                    *adj,
                    size as int,
                    t,
                    u as int,
                ) {
                    1int
                } else {
                    0int
                }) + (if adj_edge(*adj, size as int, u as int, t) {
                    1int
                } else {
                    0int
                }),
            forall|t: int|
                0 <= t < v ==> degree@[t] as int == old(degree)@[t] - (if adj_edge(
                    *adj,
                    size as int,
                    t,
                    u as int,
                ) {
                    1int
                } else {
                    0int
                }) - (if adj_edge(*adj, size as int, u as int, t) {
                    1int
                } else {
                    0int
                }),
        decreases size - v,
    {
        proof {
            lemma_grid_index(size as int, u as int, v as int);
            lemma_grid_index(size as int, v as int, u as int);
        }
        let dv = degree[v];
        last_degree.set(v, dv);
        let mut nv = dv;
        if crate::bits::bits_contains(adj, u * size + v) {
            nv = nv - 1;
        }
        if crate::bits::bits_contains(adj, v * size + u) {
            nv = nv - 1;
        }
        degree.set(v, nv);
        v += 1;
    }
}


/// The number of `false` entries of `s` below `j`.
pub open spec fn count_false(s: Seq<bool>, j: int) -> int
    decreases j,
{
    if j <= 0 {
        0
    } else {
        count_false(s, j - 1) + (if !s[j - 1] {
            1int
        } else {
            0int
        })
    }
}

pub proof fn lemma_count_false_bounds(s: Seq<bool>, j: int)
    requires
        j >= 0,
    ensures
        0 <= count_false(s, j) <= j,
    decreases j,
{
    if j > 0 {
        lemma_count_false_bounds(s, j - 1);
    }
}

/// Marking an unmarked entry lowers the count by one.
pub proof fn lemma_count_false_mark(s: Seq<bool>, u: int, j: int)
    requires
        0 <= u < s.len(),
        j <= s.len(),
        !s[u],
    ensures
        count_false(s.update(u, true), j) == count_false(s, j) - (if u < j {
            1int
        } else {
            0int
        }),
    decreases j,
{
    if j > 0 {
        lemma_count_false_mark(s, u, j - 1);
        if u == j - 1 {
            assert(s.update(u, true)[j - 1] == true);
        } else {
            assert(s.update(u, true)[j - 1] == s[j - 1]);
        }
    }
}

/// A count below the length leaves some entry unmarked.
/// Counting over entirely unmarked entries gives their number.
pub proof fn lemma_count_false_full(s: Seq<bool>, j: int)
    requires
        0 <= j,
        forall|i: int| 0 <= i < j ==> !s[i],
    ensures
        count_false(s, j) == j,
    decreases j,
{
    if j > 0 {
        lemma_count_false_full(s, j - 1);
    }
}

pub proof fn lemma_count_false_nonzero(s: Seq<bool>, j: int)
    requires
        0 <= j <= s.len(),
        count_false(s, j) > 0,
    ensures
        exists|i: int| 0 <= i < j && !s[i],
    decreases j,
{
    if j > 0 {
        if !s[j - 1] {
        } else {
            lemma_count_false_nonzero(s, j - 1);
        }
    }
}

/// Fills `r` with `n` copies of `x`.
fn filled<T: Copy>(x: T, n: usize) -> (r: Vec<T>)
    ensures
        r@.len() == n,
        forall|i: int| 0 <= i < n ==> r@[i] == x,
{
    let mut r: Vec<T> = Vec::new();
    let mut i: usize = 0;
    while i < n
        invariant
            i <= n,
            r@.len() == i,
            forall|t: int| 0 <= t < i ==> r@[t] == x,
        decreases n - i,
    {
        r.push(x);
        i += 1;
    }
    r
}


/// The working state of the low-link pass: the clock, the visit marks, the
/// discovery times, the low-links and the articulation marks.
pub ghost struct ApState {
    pub timer: int,
    pub visited: Seq<bool>,
    pub timing: Seq<i32>,
    pub low: Seq<i32>,
    pub ap: Seq<bool>,
}

/// One visit of the low-link pass: stamp `u`, scan its neighbours, and mark
/// a root with two or more tree children.  `fuel` only bounds the recursion
/// depth; any value past the number of unvisited vertices is enough.
pub open spec fn spec_dfs(
    adj: FixedBitSet,
    n: int,
    bl: Seq<bool>,
    u: int,
    parent: int,
    st: ApState,
    fuel: nat,
) -> ApState
    decreases fuel, 0int, 0int,
{
    if fuel == 0 {
        st
    } else {
        let t = st.timer + 1;
        let st1 = ApState {
            timer: t,
            visited: st.visited.update(u, true),
            timing: st.timing.update(u, t as i32),
            low: st.low.update(u, t as i32),
            ap: st.ap,
        };
        let r = spec_dfs_scan(adj, n, bl, u, parent, st1, 0, 0, (fuel - 1) as nat);
        if parent < 0 && r.1 > 1 {
            ApState { ap: r.0.ap.update(u, true), ..r.0 }
        } else {
            r.0
        }
    }
}

/// The neighbour scan of the visit of `u`, from neighbour `v` on, carrying
/// the count of tree children found so far.
pub open spec fn spec_dfs_scan(
    adj: FixedBitSet,
    n: int,
    bl: Seq<bool>,
    u: int,
    parent: int,
    st: ApState,
    children: int,
    v: int,
    fuel: nat,
) -> (ApState, int)
    decreases fuel, 1int, (if v <= n { n - v } else { 0int }),
{
    if v >= n {
        (st, children)
    } else {
        let neighbor = adj_edge(adj, n, u, v) || adj_edge(adj, n, v, u);
        if !neighbor || bl[v] || v == parent {
            spec_dfs_scan(adj, n, bl, u, parent, st, children, v + 1, fuel)
        } else if st.visited[v] {
            let lu = if st.timing[v] < st.low[u] {
                st.timing[v]
            } else {
                st.low[u]
            };
            spec_dfs_scan(
                adj,
                n,
                bl,
                u,
                parent,
                ApState { low: st.low.update(u, lu), ..st },
                children,
                v + 1,
                fuel,
            )
        } else {
            let stc = spec_dfs(adj, n, bl, v, u, st, fuel);
            let lu = if stc.low[v] < stc.low[u] {
                stc.low[v]
            } else {
                stc.low[u]
            };
            let st3 = ApState { low: stc.low.update(u, lu), ..stc };
            let st4 = if stc.low[v] >= stc.timing[u] && parent >= 0 {
                ApState { ap: st3.ap.update(u, true), ..st3 }
            } else {
                st3
            };
            spec_dfs_scan(adj, n, bl, u, parent, st4, children + 1, v + 1, fuel)
        }
    }
}

/// The articulation marks the low-link pass computes for the undirected
/// projection of `adj` over the vertices outside `bl`, explored from vertex
/// zero with a fresh clock.
pub open spec fn spec_articulation(adj: FixedBitSet, n: int, bl: Seq<bool>) -> Seq<bool> {
    let init = ApState {
        timer: 0,
        visited: Seq::new(n as nat, |i: int| false),
        timing: Seq::new(n as nat, |i: int| -1i32),
        low: Seq::new(n as nat, |i: int| -1i32),
        ap: Seq::new(n as nat, |i: int| false),
    };
    spec_dfs(adj, n, bl, 0, -1, init, (n + 1) as nat).ap
}

/// Depth-first low-link pass marking cut vertices of the undirected
/// projection of `adj` restricted to the non-blacklisted vertices reachable
/// from `u`.  The final clock, marks, times and low-links are exactly what
/// the functional model [`spec_dfs`] computes.
#[verifier::loop_isolation(false)]
fn dfs_articulation(
    adj: &FixedBitSet,
    n: usize,
    u: usize,
    parent: Option<usize>,
    timer: &mut usize,
    visited: &mut Vec<bool>,
    timing: &mut Vec<i32>,
    low: &mut Vec<i32>,
    ap: &mut Vec<bool>,
    blacklist: &Vec<bool>,
    fuel: Ghost<nat>,
)
    requires
        n * n <= usize::MAX,
        u < n,
        old(visited)@.len() == n,
        old(timing)@.len() == n,
        old(low)@.len() == n,
        old(ap)@.len() == n,
        blacklist@.len() == n,
        !old(visited)@[u as int],
        *old(timer) + count_false(old(visited)@, n as int) <= i32::MAX,
        fuel@ >= count_false(old(visited)@, n as int) + 1,
    ensures
        final(visited)@.len() == n,
        final(timing)@.len() == n,
        final(low)@.len() == n,
        final(ap)@.len() == n,
        forall|i: int| 0 <= i < n && old(visited)@[i] ==> final(visited)@[i],
        final(visited)@[u as int],
        forall|i: int|
            0 <= i < n && #[trigger] final(ap)@[i] ==> old(ap)@[i] || i == u || !blacklist@[i],
        *final(timer) - *old(timer) == count_false(old(visited)@, n as int) - count_false(
            final(visited)@,
            n as int,
        ),
        *final(timer) >= *old(timer),
        ({
            let st0 = ApState {
                timer: *old(timer) as int,
                visited: old(visited)@,
                timing: old(timing)@,
                low: old(low)@,
                ap: old(ap)@,
            };
            let stf = spec_dfs(
                *adj,
                n as int,
                blacklist@,
                u as int,
                match parent {
                    Some(p) => p as int,
                    None => -1int,
                },
                st0,
                fuel@,
            );
            &&& *final(timer) as int == stf.timer
            &&& final(visited)@ == stf.visited
            &&& final(timing)@ == stf.timing
            &&& final(low)@ == stf.low
            &&& final(ap)@ == stf.ap
        }),
    decreases count_false(old(visited)@, n as int),
{
    let ghost pint: int = match parent {
        Some(p) => p as int,
        None => -1int,
    };
    proof {
        lemma_count_false_bounds(old(visited)@, n as int);
        lemma_count_false_mark(old(visited)@, u as int, n as int);
        assert(count_false(old(visited)@, n as int) >= 1) by {
            if count_false(old(visited)@, n as int) < 1 {
                lemma_count_false_mark(old(visited)@, u as int, n as int);
                lemma_count_false_bounds(old(visited)@.update(u as int, true), n as int);
            }
        }
    }
    *timer = *timer + 1;
    visited.set(u, true);
    timing.set(u, *timer as i32);
    low.set(u, *timer as i32);

    let ghost st1 = ApState {
        timer: *timer as int,
        visited: visited@,
        timing: timing@,
        low: low@,
        ap: ap@,
    };
    let ghost c0 = count_false(visited@, n as int);
    let ghost t0 = *timer;
    let mut children: usize = 0;
    let mut v: usize = 0;
    while v < n
        invariant
            v <= n,
            children <= v,
            visited@.len() == n,
            timing@.len() == n,
            low@.len() == n,
            ap@.len() == n,
            forall|i: int| 0 <= i < n && old(visited)@[i] ==> visited@[i],
            visited@[u as int],
            forall|i: int|
                0 <= i < n && #[trigger] ap@[i] ==> old(ap)@[i] || i == u || !blacklist@[i],
            *timer - t0 == c0 - count_false(visited@, n as int),
            *timer >= t0,
            count_false(visited@, n as int) <= c0,
            *timer + count_false(visited@, n as int) <= i32::MAX,
            spec_dfs_scan(*adj, n as int, blacklist@, u as int, pint, st1, 0, 0, (fuel@
                - 1) as nat) == spec_dfs_scan(
                *adj,
                n as int,
                blacklist@,
                u as int,
                pint,
                ApState {
                    timer: *timer as int,
                    visited: visited@,
                    timing: timing@,
                    low: low@,
                    ap: ap@,
                },
                children as int,
                v as int,
                (fuel@ - 1) as nat,
            ),
        decreases n - v,
    {
        proof {
            lemma_grid_index(n as int, u as int, v as int);
            lemma_grid_index(n as int, v as int, u as int);
            lemma_count_false_bounds(visited@, n as int);
        }
        let ghost cur = ApState {
            timer: *timer as int,
            visited: visited@,
            timing: timing@,
            low: low@,
            ap: ap@,
        };
        let neighbor = crate::bits::bits_contains(adj, u * n + v) || crate::bits::bits_contains(
            adj,
            v * n + u,
        );
        let skip_parent = match parent {
            Some(p) => v == p,
            None => false,
        };
        if neighbor && !blacklist[v] && !skip_parent {
            if visited[v] {
                proof {
                    assert(cur.visited[v as int]);
                }
                if timing[v] < low[u] {
                    let tv = timing[v];
                    low.set(u, tv);
                } else {
                    proof {
                        assert(low@ =~= cur.low.update(u as int, cur.low[u as int]));
                    }
                }
                proof {
                    let lu = if cur.timing[v as int] < cur.low[u as int] {
                        cur.timing[v as int]
                    } else {
                        cur.low[u as int]
                    };
                    assert(low@ =~= cur.low.update(u as int, lu));
                    assert(ApState {
                        timer: *timer as int,
                        visited: visited@,
                        timing: timing@,
                        low: low@,
                        ap: ap@,
                    } == ApState { low: cur.low.update(u as int, lu), ..cur });
                }
            } else {
                dfs_articulation(
                    adj,
                    n,
                    v,
                    Some(u),
                    timer,
                    visited,
                    timing,
                    low,
                    ap,
                    blacklist,
                    Ghost(((fuel@ - 1)) as nat),
                );
                let ghost stc = ApState {
                    timer: *timer as int,
                    visited: visited@,
                    timing: timing@,
                    low: low@,
                    ap: ap@,
                };
                proof {
                    assert(visited@[u as int]);
                    assert(stc == spec_dfs(*adj, n as int, blacklist@, v as int, u as int, cur,
                        (fuel@ - 1) as nat));
                }
                if low[v] < low[u] {
                    let lv = low[v];
                    low.set(u, lv);
                } else {
                    proof {
                        assert(low@ =~= stc.low.update(u as int, stc.low[u as int]));
                    }
                }
                if low[v] >= timing[u] && parent.is_some() {
                    ap.set(u, true);
                }
                children = children + 1;
                proof {
                    let lu = if stc.low[v as int] < stc.low[u as int] {
                        stc.low[v as int]
                    } else {
                        stc.low[u as int]
                    };
                    assert(low@ =~= stc.low.update(u as int, lu));
                    let st3 = ApState { low: stc.low.update(u as int, lu), ..stc };
                    let st4 = if stc.low[v as int] >= stc.timing[u as int] && pint >= 0 {
                        ApState { ap: st3.ap.update(u as int, true), ..st3 }
                    } else {
                        st3
                    };
                    if stc.low[v as int] >= stc.timing[u as int] && pint >= 0 {
                        assert(ap@ =~= st4.ap);
                    } else {
                        assert(ap@ =~= st4.ap);
                    }
                    assert(ApState {
                        timer: *timer as int,
                        visited: visited@,
                        timing: timing@,
                        low: low@,
                        ap: ap@,
                    } == st4);
                }
            }
        }
        v += 1;
    }
    if parent.is_none() && children > 1 {
        ap.set(u, true);
    }
}

/// Marks the articulation points of the undirected projection of `adj` over
/// the vertices not in `blacklist`, exploring from vertex zero: exactly the
/// marks of the functional model [`spec_articulation`].
pub fn find_articulation_points(adj_matrix: &FixedBitSet, n: usize, blacklist: &Vec<bool>) -> (r:
    Vec<bool>)
    requires
        n * n <= usize::MAX,
        1 <= n,
        n <= i32::MAX,
        blacklist@.len() == n,
    ensures
        r@.len() == n,
        r@ == spec_articulation(*adj_matrix, n as int, blacklist@),
        forall|i: int| 1 <= i < n && blacklist@[i] ==> !(#[trigger] r@[i]),
{
    let mut timer: usize = 0;
    let mut visited = filled(false, n);
    let mut timing = filled(-1i32, n);
    let mut low = filled(-1i32, n);
    let mut ap = filled(false, n);
    proof {
        lemma_count_false_full(visited@, n as int);
        assert(count_false(visited@, n as int) == n);
        assert(visited@ =~= Seq::new(n as nat, |i: int| false));
        assert(timing@ =~= Seq::new(n as nat, |i: int| -1i32));
        assert(low@ =~= Seq::new(n as nat, |i: int| -1i32));
        assert(ap@ =~= Seq::new(n as nat, |i: int| false));
    }
    dfs_articulation(
        adj_matrix,
        n,
        0,
        None,
        &mut timer,
        &mut visited,
        &mut timing,
        &mut low,
        &mut ap,
        blacklist,
        Ghost((n + 1) as nat),
    );
    ap
}

/// The vertices assigned to positions `lo` and above.
pub open spec fn spec_used_at(labels: Seq<usize>, n: int, lo: int) -> Seq<bool> {
    Seq::new(n as nat, |v: int| exists|p: int| lo <= p < n && labels[p] as int == v)
}

/// The degree triple the round for `pos` ranks vertex `w` by: the residual
/// degree over the vertices still unassigned before this round, the same
/// before the previous round, and the full degree.
pub open spec fn round_triple(
    adj: FixedBitSet,
    n: int,
    labels: Seq<usize>,
    pos: int,
    w: int,
) -> (int, int, int) {
    (
        residual_degree(adj, n, w, spec_used_at(labels, n, pos + 1), n),
        residual_degree(adj, n, w, spec_used_at(labels, n, pos + 2), n),
        residual_degree(adj, n, w, spec_used_at(labels, n, n), n),
    )
}

/// `a` lexicographically beats `b`.
pub open spec fn triple_better(a: (int, int, int), b: (int, int, int)) -> bool {
    ||| a.0 < b.0
    ||| (a.0 == b.0 && a.1 < b.1)
    ||| (a.0 == b.0 && a.1 == b.1 && a.2 < b.2)
}

/// The articulation marks a round consults: the low-link pass over the
/// vertices still unassigned before the round, except that the lowest three
/// positions never filter.
pub open spec fn round_marks(adj: FixedBitSet, n: int, labels: Seq<usize>, pos: int) -> Seq<
    bool,
> {
    if pos > 2 {
        spec_articulation(adj, n, spec_used_at(labels, n, pos + 1))
    } else {
        Seq::new(n as nat, |i: int| false)
    }
}

/// One selection round: position `pos` received the lexicographically least
/// eligible vertex under [`round_triple`], lowest index on full ties.
/// Assigned vertices are ineligible; the round's articulation marks filter
/// the rest only while some unfiltered vertex remains.
pub open spec fn round_ok(adj: FixedBitSet, n: int, labels: Seq<usize>, pos: int) -> bool {
    let used = spec_used_at(labels, n, pos + 1);
    let ap = round_marks(adj, n, labels, pos);
    let u = labels[pos] as int;
    let have_free = exists|w: int| 0 <= w < n && !used[w] && !ap[w];
    &&& 0 <= u < n
    &&& !used[u]
    &&& (have_free ==> !ap[u])
    &&& forall|w: int|
        #![trigger round_triple(adj, n, labels, pos, w)]
        0 <= w < n && !used[w] && (have_free ==> !ap[w]) ==> {
            &&& !triple_better(
                round_triple(adj, n, labels, pos, w),
                round_triple(adj, n, labels, pos, u),
            )
            &&& (round_triple(adj, n, labels, pos, w) == round_triple(adj, n, labels, pos, u)
                ==> u <= w)
        }
}

/// The whole relabeling: every position was filled by its round's selection
/// rule under that round's own articulation marks.
pub open spec fn relabel_rounds_ok(adj: FixedBitSet, n: int, labels: Seq<usize>) -> bool {
    &&& labels.len() == n
    &&& forall|pos: int| 0 <= pos < n ==> #[trigger] round_ok(adj, n, labels, pos)
}

/// A round's account only reads the positions at `pos` and above, so filling
/// lower positions later preserves it.
proof fn lemma_round_ok_stable(
    adj: FixedBitSet,
    n: int,
    labels1: Seq<usize>,
    labels2: Seq<usize>,
    pos: int,
)
    requires
        round_ok(adj, n, labels1, pos),
        labels1.len() == labels2.len(),
        0 <= pos < labels1.len(),
        forall|q: int| pos <= q < labels1.len() ==> labels2[q] == labels1[q],
        n == labels1.len(),
    ensures
        round_ok(adj, n, labels2, pos),
{
    assert(spec_used_at(labels2, n, pos + 1) =~= spec_used_at(labels1, n, pos + 1)) by {
        assert forall|v: int|
            #![trigger spec_used_at(labels2, n, pos + 1)[v]]
            0 <= v < n implies spec_used_at(labels2, n, pos + 1)[v]
            == spec_used_at(labels1, n, pos + 1)[v] by {
            if spec_used_at(labels2, n, pos + 1)[v] {
                let p = choose|p: int| pos + 1 <= p < n && labels2[p] as int == v;
                assert(labels1[p] as int == v);
            }
            if spec_used_at(labels1, n, pos + 1)[v] {
                let p = choose|p: int| pos + 1 <= p < n && labels1[p] as int == v;
                assert(labels2[p] as int == v);
            }
        }
    }
    assert(spec_used_at(labels2, n, pos + 2) =~= spec_used_at(labels1, n, pos + 2)) by {
        assert forall|v: int|
            #![trigger spec_used_at(labels2, n, pos + 2)[v]]
            0 <= v < n implies spec_used_at(labels2, n, pos + 2)[v]
            == spec_used_at(labels1, n, pos + 2)[v] by {
            if spec_used_at(labels2, n, pos + 2)[v] {
                let p = choose|p: int| pos + 2 <= p < n && labels2[p] as int == v;
                assert(labels1[p] as int == v);
            }
            if spec_used_at(labels1, n, pos + 2)[v] {
                let p = choose|p: int| pos + 2 <= p < n && labels1[p] as int == v;
                assert(labels2[p] as int == v);
            }
        }
    }
    assert(spec_used_at(labels2, n, n) =~= spec_used_at(labels1, n, n)) by {
        assert forall|v: int|
            #![trigger spec_used_at(labels2, n, n)[v]]
            0 <= v < n implies spec_used_at(labels2, n, n)[v] == spec_used_at(
            labels1,
            n,
            n,
        )[v] by {
            if spec_used_at(labels2, n, n)[v] {
                let p = choose|p: int| n <= p < n && labels2[p] as int == v;
            }
            if spec_used_at(labels1, n, n)[v] {
                let p = choose|p: int| n <= p < n && labels1[p] as int == v;
            }
        }
    }
    assert(labels2[pos] == labels1[pos]);
    assert(round_marks(adj, n, labels2, pos) == round_marks(adj, n, labels1, pos));
    assert forall|w: int| 0 <= w < n implies round_triple(adj, n, labels2, pos, w) == round_triple(
        adj,
        n,
        labels1,
        pos,
        w,
    ) by {}
    let used = spec_used_at(labels2, n, pos + 1);
    let ap = round_marks(adj, n, labels2, pos);
    let u = labels2[pos] as int;
    let have_free = exists|w: int| 0 <= w < n && !used[w] && !ap[w];
    assert forall|w: int|
        #![trigger round_triple(adj, n, labels2, pos, w)]
        0 <= w < n && !used[w] && (have_free ==> !ap[w]) implies {
        &&& !triple_better(
            round_triple(adj, n, labels2, pos, w),
            round_triple(adj, n, labels2, pos, u),
        )
        &&& (round_triple(adj, n, labels2, pos, w) == round_triple(adj, n, labels2, pos, u)
            ==> u <= w)
    } by {
        assert(round_triple(adj, n, labels1, pos, w) == round_triple(adj, n, labels2, pos, w));
        assert(round_triple(adj, n, labels1, pos, u) == round_triple(adj, n, labels2, pos, u));
    }
}

/// Assigns every vertex a canonical position, from the last position down:
/// each round selects, among the vertices not yet placed and (above the
/// lowest positions) not articulation points of the residual graph, the one
/// of least `(current, last, total)` degree triple, places it, and removes
/// its edges from the current degrees.  The result maps positions to
/// distinct original vertices, and every round obeys [`round_ok`] for the
/// articulation marks it computed.
#[verifier::loop_isolation(false)]
pub fn calculate_relabels(
    adj: &FixedBitSet,
    size: usize,
    degree: &mut Vec<usize>,
    global_degree: &mut Vec<usize>,
    last_degree: &mut Vec<usize>,
    used: &mut Vec<bool>,
    labels: &mut Vec<usize>,
)
    requires
        size * size <= usize::MAX,
        size <= i32::MAX,
        old(degree)@.len() == size,
        old(global_degree)@.len() == size,
        old(last_degree)@.len() == size,
        old(used)@.len() == size,
        old(labels)@.len() == size,
        forall|v: int| 0 <= v < size ==> !old(used)@[v],
        forall|v: int|
            0 <= v < size ==> old(degree)@[v] as int == residual_degree(
                *adj,
                size as int,
                v,
                old(used)@,
                size as int,
            ),
        forall|v: int| 0 <= v < size ==> old(last_degree)@[v] == old(degree)@[v],
        forall|v: int| 0 <= v < size ==> old(global_degree)@[v] == old(degree)@[v],
    ensures
        final(labels)@.len() == size,
        forall|p: int| 0 <= p < size ==> (#[trigger] final(labels)@[p]) < size,
        forall|p: int, q: int|
            0 <= p < q < size ==> final(labels)@[p] != final(labels)@[q],
        relabel_rounds_ok(*adj, size as int, final(labels)@),
{
    proof {
        lemma_count_false_full(used@, size as int);
        assert(used@ =~= spec_used_at(labels@, size as int, size as int));
        assert(spec_used_at(labels@, size as int, size as int + 1) =~= used@);
        assert(spec_used_at(labels@, size as int, size as int) =~= used@);
    }
    let mut pos: usize = size;
    while pos > 0
        invariant
            pos <= size,
            degree@.len() == size,
            global_degree@.len() == size,
            last_degree@.len() == size,
            used@.len() == size,
            labels@.len() == size,
            count_false(used@, size as int) == pos,
            used@ == spec_used_at(labels@, size as int, pos as int),
            forall|v: int|
                0 <= v < size ==> degree@[v] as int == residual_degree(
                    *adj,
                    size as int,
                    v,
                    used@,
                    size as int,
                ),
            forall|v: int|
                0 <= v < size ==> last_degree@[v] as int == residual_degree(
                    *adj,
                    size as int,
                    v,
                    spec_used_at(labels@, size as int, pos + 1),
                    size as int,
                ),
            forall|v: int|
                0 <= v < size ==> global_degree@[v] as int == residual_degree(
                    *adj,
                    size as int,
                    v,
                    spec_used_at(labels@, size as int, size as int),
                    size as int,
                ),
            forall|p: int| pos <= p < size ==> (#[trigger] labels@[p]) < size,
            forall|p: int| pos <= p < size ==> used@[labels@[p] as int],
            forall|p: int, q: int| pos <= p < q < size ==> labels@[p] != labels@[q],
            forall|p: int|
                pos <= p < size ==> #[trigger] round_ok(*adj, size as int, labels@, p),
        decreases pos,
    {
        pos = pos - 1;
        let ap: Vec<bool> = if pos > 2 {
            find_articulation_points(adj, size, used)
        } else {
            filled(false, size)
        };
        proof {
            lemma_count_false_bounds(used@, size as int);
            lemma_count_false_nonzero(used@, size as int);
        }
        let mut any_free: bool = false;
        let mut scan: usize = 0;
        while scan < size
            invariant
                scan <= size,
                used@.len() == size,
                ap@.len() == size,
                any_free ==> exists|w: int| 0 <= w < size && !used@[w] && !ap@[w],
                !any_free ==> forall|w: int| 0 <= w < scan ==> used@[w] || ap@[w],
            decreases size - scan,
        {
            if !used[scan] && !ap[scan] {
                any_free = true;
            }
            scan += 1;
        }
        let ghost pre_labels = labels@;
        let ghost pre_used = used@;
        let ghost pre_degree = degree@;
        let ghost pre_last = last_degree@;
        let ghost pre_global = global_degree@;
        let min_u = if any_free {
            select_minimum_vertex(degree, last_degree, global_degree, used, &ap, size)
        } else {
            // Every remaining vertex was ruled out as an articulation point:
            // fall back to ignoring that filter, so a vertex always exists.
            let blank = filled(false, size);
            select_minimum_vertex(degree, last_degree, global_degree, used, &blank, size)
        };
        used.set(min_u, true);
        labels.set(pos, min_u);
        proof {
            let n = size as int;
            let p = pos as int;
            // the vertices assigned before this round are unchanged
            assert(spec_used_at(labels@, n, p + 1) =~= pre_used) by {
                assert forall|v: int|
                    #![trigger spec_used_at(labels@, n, p + 1)[v]]
                    0 <= v < n implies spec_used_at(labels@, n, p + 1)[v] == pre_used[v] by {
                    if spec_used_at(labels@, n, p + 1)[v] {
                        let q = choose|q: int| p + 1 <= q < n && labels@[q] as int == v;
                        assert(pre_labels[q] as int == v);
                        assert(spec_used_at(pre_labels, n, p + 1)[v]);
                    }
                    if pre_used[v] {
                        let q = choose|q: int| p + 1 <= q < n && pre_labels[q] as int == v;
                        assert(labels@[q] as int == v);
                    }
                }
            }
            assert(spec_used_at(labels@, n, p + 2) =~= spec_used_at(pre_labels, n, p + 2)) by {
                assert forall|v: int|
                    #![trigger spec_used_at(labels@, n, p + 2)[v]]
                    0 <= v < n implies spec_used_at(labels@, n, p + 2)[v] == spec_used_at(
                    pre_labels,
                    n,
                    p + 2,
                )[v] by {
                    if spec_used_at(labels@, n, p + 2)[v] {
                        let q = choose|q: int| p + 2 <= q < n && labels@[q] as int == v;
                        assert(pre_labels[q] as int == v);
                    }
                    if spec_used_at(pre_labels, n, p + 2)[v] {
                        let q = choose|q: int| p + 2 <= q < n && pre_labels[q] as int == v;
                        assert(labels@[q] as int == v);
                    }
                }
            }
            assert(spec_used_at(labels@, n, n) =~= spec_used_at(pre_labels, n, n)) by {
                assert forall|v: int|
                    #![trigger spec_used_at(labels@, n, n)[v]]
                    0 <= v < n implies spec_used_at(labels@, n, n)[v] == spec_used_at(
                    pre_labels,
                    n,
                    n,
                )[v] by {
                    if spec_used_at(labels@, n, n)[v] {
                        let q = choose|q: int| n <= q < n && labels@[q] as int == v;
                    }
                    if spec_used_at(pre_labels, n, n)[v] {
                        let q = choose|q: int| n <= q < n && pre_labels[q] as int == v;
                    }
                }
            }
            // the new assignment set
            assert(used@ =~= spec_used_at(labels@, n, p)) by {
                assert forall|v: int|
                    #![trigger spec_used_at(labels@, n, p)[v]]
                    0 <= v < n implies used@[v] == spec_used_at(labels@, n, p)[v] by {
                    if used@[v] {
                        if v == min_u as int {
                            assert(labels@[p] as int == v);
                        } else {
                            assert(pre_used[v]);
                            let q = choose|q: int| p + 1 <= q < n && labels@[q] as int == v;
                        }
                    }
                    if spec_used_at(labels@, n, p)[v] {
                        let q = choose|q: int| p <= q < n && labels@[q] as int == v;
                        if q == p {
                            assert(v == min_u as int);
                        } else {
                            assert(pre_labels[q] as int == v);
                            assert(spec_used_at(labels@, n, p + 1)[v]);
                        }
                    }
                }
            }
            // this round's account
            assert(ap@ == round_marks(*adj, n, labels@, p)) by {
                if pos > 2 {
                    assert(spec_used_at(labels@, n, p + 1) == pre_used);
                } else {
                    assert(ap@ =~= Seq::new(n as nat, |i: int| false));
                }
            }
            let have_free = exists|w: int|
                0 <= w < n && !spec_used_at(labels@, n, p + 1)[w] && !ap@[w];
            if any_free {
                assert(have_free);
            }
            if !any_free {
                assert(!have_free) by {
                    if have_free {
                        let w = choose|w: int|
                            0 <= w < n && !spec_used_at(labels@, n, p + 1)[w] && !ap@[w];
                        assert(pre_used[w] || ap@[w]);
                    }
                }
            }
            assert forall|w: int|
                #![trigger round_triple(*adj, n, labels@, p, w)]
                0 <= w < n implies round_triple(*adj, n, labels@, p, w) == (
                pre_degree[w] as int,
                pre_last[w] as int,
                pre_global[w] as int,
            ) by {
                assert(residual_degree(*adj, n, w, spec_used_at(labels@, n, p + 1), n)
                    == residual_degree(*adj, n, w, pre_used, n));
                assert(residual_degree(*adj, n, w, spec_used_at(labels@, n, p + 2), n)
                    == residual_degree(*adj, n, w, spec_used_at(pre_labels, n, p + 2), n));
                assert(residual_degree(*adj, n, w, spec_used_at(labels@, n, n), n)
                    == residual_degree(*adj, n, w, spec_used_at(pre_labels, n, n), n));
            }
            assert forall|w: int|
                #![trigger round_triple(*adj, n, labels@, p, w)]
                0 <= w < n && !spec_used_at(labels@, n, p + 1)[w] && (have_free ==> !ap@[w])
                implies {
                &&& !triple_better(
                    round_triple(*adj, n, labels@, p, w),
                    round_triple(*adj, n, labels@, p, min_u as int),
                )
                &&& (round_triple(*adj, n, labels@, p, w) == round_triple(
                    *adj,
                    n,
                    labels@,
                    p,
                    min_u as int,
                ) ==> min_u as int <= w)
            } by {
                assert(!pre_used[w]);
                assert(!strictly_better(pre_degree, pre_last, pre_global, w, min_u as int));
                if round_triple(*adj, n, labels@, p, w) == round_triple(
                    *adj,
                    n,
                    labels@,
                    p,
                    min_u as int,
                ) {
                    assert(!strictly_better(pre_degree, pre_last, pre_global, min_u as int, w));
                }
            }
            assert(round_ok(*adj, n, labels@, p));
            // earlier rounds only read positions above them
            assert forall|q: int|
                p <= q < size implies #[trigger] round_ok(*adj, n, labels@, q) by {
                if q > p {
                    lemma_round_ok_stable(*adj, n, pre_labels, labels@, q);
                }
            }
            lemma_count_false_mark(pre_used, min_u as int, n);
            assert forall|v: int|
                0 <= v < size implies pre_degree[v] as int >= (if adj_edge(
                *adj,
                n,
                v,
                min_u as int,
            ) {
                1int
            } else {
                0int
            }) + (if adj_edge(*adj, n, min_u as int, v) {
                1int
            } else {
                0int
            }) by {
                lemma_residual_contribution(*adj, n, v, pre_used, min_u as int, n);
            }
        }
        update_degree(adj, size, degree, last_degree, min_u);
        proof {
            let n = size as int;
            assert forall|v: int|
                0 <= v < size implies degree@[v] as int == residual_degree(
                *adj,
                n,
                v,
                used@,
                n,
            ) by {
                lemma_residual_mark(*adj, n, v, pre_used, min_u as int, n);
                assert(used@ =~= pre_used.update(min_u as int, true));
            }
            assert forall|v: int|
                0 <= v < size implies last_degree@[v] as int == residual_degree(
                *adj,
                n,
                v,
                spec_used_at(labels@, n, pos + 1),
                n,
            ) by {
                assert(last_degree@[v] == pre_degree[v]);
                assert(residual_degree(*adj, n, v, spec_used_at(labels@, n, pos + 1), n)
                    == residual_degree(*adj, n, v, pre_used, n));
            }
        }
    }
    proof {
        assert(relabel_rounds_ok(*adj, size as int, labels@));
    }
}

/// Writes into `new_adj` the matrix of `adj` with vertex `labels[u]` moved
/// to position `u`.
pub fn relabel_adj(
    adj: &FixedBitSet,
    new_adj: &mut FixedBitSet,
    size: usize,
    labels: &Vec<usize>,
)
    requires
        size * size <= usize::MAX,
        bit_capacity(*old(new_adj)) == size * size,
        bit_set(*old(new_adj)) == Set::<usize>::empty(),
        labels@.len() == size,
        forall|p: int| 0 <= p < size ==> (#[trigger] labels@[p]) < size,
    ensures
        bit_capacity(*final(new_adj)) == size * size,
        forall|x: usize| bit_set(*final(new_adj)).contains(x) ==> x < size * size,
        forall|u: int, v: int|
            0 <= u < size && 0 <= v < size ==> (#[trigger] adj_edge(
                *final(new_adj),
                size as int,
                u,
                v,
            ) <==> adj_edge(*adj, size as int, labels@[u] as int, labels@[v] as int)),
{
    let n = size;
    let mut u: usize = 0;
    while u < n
        invariant
            n == size,
            n * n <= usize::MAX,
            labels@.len() == n,
            forall|p: int| 0 <= p < n ==> (#[trigger] labels@[p]) < n,
            u <= n,
            bit_capacity(*new_adj) == n * n,
            forall|x: usize| bit_set(*new_adj).contains(x) ==> x < n * n,
            forall|a: int, b: int|
                0 <= a < n && 0 <= b < n ==> (#[trigger] adj_edge(*new_adj, n as int, a, b) <==> (
                a < u && adj_edge(*adj, n as int, labels@[a] as int, labels@[b] as int))),
        decreases n - u,
    {
        let mut v: usize = 0;
        while v < n
            invariant
                n == size,
                n * n <= usize::MAX,
                labels@.len() == n,
                forall|p: int| 0 <= p < n ==> (#[trigger] labels@[p]) < n,
                u < n,
                v <= n,
                bit_capacity(*new_adj) == n * n,
                forall|x: usize| bit_set(*new_adj).contains(x) ==> x < n * n,
                forall|a: int, b: int|
                    0 <= a < n && 0 <= b < n ==> (#[trigger] adj_edge(*new_adj, n as int, a, b)
                        <==> ((a < u || (a == u && b < v)) && adj_edge(
                        *adj,
                        n as int,
                        labels@[a] as int,
                        labels@[b] as int,
                    ))),
            decreases n - v,
        {
            proof {
                lemma_grid_index(n as int, u as int, v as int);
                lemma_grid_index(n as int, labels@[u as int] as int, labels@[v as int] as int);
            }
            let lu = labels[u];
            let lv = labels[v];
            if crate::bits::bits_contains(adj, lu * n + lv) {
                let ghost pre = *new_adj;
                bits_insert(new_adj, u * n + v);
                proof {
                    assert(bit_set(*new_adj) == bit_set(pre).insert((u * n + v) as usize));
                    assert forall|a: int, b: int|
                        0 <= a < n && 0 <= b < n implies (#[trigger] adj_edge(
                        *new_adj,
                        n as int,
                        a,
                        b,
                    ) <==> ((a < u || (a == u && b < v + 1)) && adj_edge(
                        *adj,
                        n as int,
                        labels@[a] as int,
                        labels@[b] as int,
                    ))) by {
                        lemma_grid_index(n as int, a, b);
                        assert(adj_edge(pre, n as int, a, b) <==> ((a < u || (a == u && b < v))
                            && adj_edge(*adj, n as int, labels@[a] as int, labels@[b] as int)));
                        if a * n + b == u as int * n + v as int {
                            crate::bitgraph::lemma_grid_index_injective(
                                n as int, a, b, u as int, v as int,
                            );
                        }
                    }
                }
            } else {
                proof {
                    assert forall|a: int, b: int|
                        0 <= a < n && 0 <= b < n implies (#[trigger] adj_edge(
                        *new_adj,
                        n as int,
                        a,
                        b,
                    ) <==> ((a < u || (a == u && b < v + 1)) && adj_edge(
                        *adj,
                        n as int,
                        labels@[a] as int,
                        labels@[b] as int,
                    ))) by {
                        lemma_grid_index(n as int, a, b);
                        if a == u && b == v {
                            crate::bitgraph::lemma_grid_index_injective(
                                n as int, a, b, u as int, v as int,
                            );
                        }
                    }
                }
            }
            v += 1;
        }
        u += 1;
    }
}

/// Appends to `new_orbits` the orbit of each position's original vertex.
pub fn relabel_orbits(orbits: &Vec<usize>, new_orbits: &mut Vec<usize>, labels: &Vec<usize>)
    requires
        old(new_orbits)@.len() == 0,
        forall|p: int| 0 <= p < labels@.len() ==> (#[trigger] labels@[p]) < orbits@.len(),
    ensures
        final(new_orbits)@.len() == labels@.len(),
        forall|p: int|
            0 <= p < labels@.len() ==> final(new_orbits)@[p] == orbits@[labels@[p] as int],
{
    let mut p: usize = 0;
    while p < labels.len()
        invariant
            p <= labels@.len(),
            new_orbits@.len() == p,
            forall|t: int| 0 <= t < labels@.len() ==> (#[trigger] labels@[t]) < orbits@.len(),
            forall|t: int| 0 <= t < p ==> new_orbits@[t] == orbits@[labels@[t] as int],
        decreases labels@.len() - p,
    {
        let l = labels[p];
        new_orbits.push(orbits[l]);
        p += 1;
    }
}



/// `g` orders the pair of every condition of `conds`.
pub open spec fn perm_respects(g: Seq<usize>, conds: Seq<Condition>) -> bool {
    forall|t: int|
        0 <= t < conds.len() ==> g[(#[trigger] conds[t]).u as int] < g[conds[t].v as int]
}

/// The automorphisms (as index sequences) surviving the conditions, in
/// their original order.
pub open spec fn spec_group_after(autos: Seq<Seq<usize>>, conds: Seq<Condition>) -> Seq<
    Seq<usize>,
> {
    autos.filter(|g: Seq<usize>| perm_respects(g, conds))
}

/// The distinct orbit values among the first `t`, in order of first
/// appearance.
pub open spec fn spec_uniq(orbits: Seq<usize>, t: int) -> Seq<usize>
    decreases t,
{
    if t <= 0 {
        Seq::empty()
    } else {
        let p = spec_uniq(orbits, t - 1);
        if p.contains(orbits[t - 1]) {
            p
        } else {
            p.push(orbits[t - 1])
        }
    }
}

/// The conditions emitted from scan state `(oi, idx, jdx)` on: for each
/// orbit in first-appearance order and each ordered pair of its positions,
/// the pair is emitted exactly while more than one automorphism survives
/// the conditions gathered so far.
pub open spec fn spec_sbc_from(
    autos: Seq<Seq<usize>>,
    orbits: Seq<usize>,
    uniq: Seq<usize>,
    conds: Seq<Condition>,
    oi: int,
    idx: int,
    jdx: int,
) -> Seq<Condition>
    decreases
        (if oi <= uniq.len() { uniq.len() - oi } else { 0int }),
        (if idx <= orbits.len() { orbits.len() - idx } else { 0int }),
        (if jdx <= orbits.len() { orbits.len() - jdx } else { 0int }),
{
    let k = orbits.len() as int;
    if oi >= uniq.len() {
        conds
    } else if idx >= k {
        spec_sbc_from(autos, orbits, uniq, conds, oi + 1, 0, 1)
    } else if orbits[idx] != uniq[oi] {
        spec_sbc_from(autos, orbits, uniq, conds, oi, idx + 1, idx + 2)
    } else if jdx >= k {
        spec_sbc_from(autos, orbits, uniq, conds, oi, idx + 1, idx + 2)
    } else if orbits[jdx] == uniq[oi] && spec_group_after(autos, conds).len() != 1 {
        spec_sbc_from(
            autos,
            orbits,
            uniq,
            conds.push(Condition { u: idx as usize, v: jdx as usize }),
            oi,
            idx,
            jdx + 1,
        )
    } else {
        spec_sbc_from(autos, orbits, uniq, conds, oi, idx, jdx + 1)
    }
}

/// The full stage-2 synthesis for a nonempty group.
pub open spec fn spec_sbc(autos: Seq<Seq<usize>>, orbits: Seq<usize>) -> Seq<Condition> {
    spec_sbc_from(
        autos,
        orbits,
        spec_uniq(orbits, orbits.len() as int),
        Seq::empty(),
        0,
        0,
        1,
    )
}

/// The index-sequence views of a list of permutation vectors.
pub open spec fn deep_view(vs: Seq<Vec<usize>>) -> Seq<Seq<usize>> {
    vs.map_values(|v: Vec<usize>| v@)
}

/// Filtering twice is filtering by the conjunction.
proof fn lemma_filter_filter<A>(
    s: Seq<A>,
    p: spec_fn(A) -> bool,
    q: spec_fn(A) -> bool,
    r: spec_fn(A) -> bool,
)
    requires
        forall|x: A| #[trigger] r(x) == (p(x) && q(x)),
    ensures
        s.filter(p).filter(q) == s.filter(r),
    decreases s.len(),
{
    reveal(Seq::filter);
    if s.len() > 0 {
        lemma_filter_filter(s.drop_last(), p, q, r);
        let d = s.drop_last();
        if p(s.last()) {
            assert(s.filter(p) == d.filter(p).push(s.last()));
            assert(d.filter(p).push(s.last()).drop_last() =~= d.filter(p));
            if q(s.last()) {
                assert(s.filter(p).filter(q) =~= d.filter(r).push(s.last()));
            } else {
                assert(s.filter(p).filter(q) =~= d.filter(r));
            }
        } else {
            assert(s.filter(p) == d.filter(p));
        }
    }
}

/// Filtering by an always-true test keeps the sequence.
proof fn lemma_filter_all<A>(s: Seq<A>, p: spec_fn(A) -> bool)
    requires
        forall|i: int| 0 <= i < s.len() ==> p(#[trigger] s[i]),
    ensures
        s.filter(p) == s,
    decreases s.len(),
{
    reveal(Seq::filter);
    if s.len() > 0 {
        assert forall|i: int| 0 <= i < s.drop_last().len() implies p(
            #[trigger] s.drop_last()[i],
        ) by {
            assert(s.drop_last()[i] == s[i]);
        }
        lemma_filter_all(s.drop_last(), p);
        assert(p(s.last()));
        assert(s.filter(p) =~= s);
    }
}

/// Adding a condition narrows the surviving group by that one test.
proof fn lemma_group_after_push(
    autos: Seq<Seq<usize>>,
    conds: Seq<Condition>,
    c: Condition,
    pred: spec_fn(Seq<usize>) -> bool,
)
    requires
        forall|x: Seq<usize>| #[trigger] pred(x) == (x[c.u as int] < x[c.v as int]),
    ensures
        spec_group_after(autos, conds.push(c)) == spec_group_after(autos, conds).filter(pred),
{
    let pc = conds.push(c);
    assert forall|g: Seq<usize>| #[trigger]
        perm_respects(g, pc) == (perm_respects(g, conds) && g[c.u as int] < g[c.v as int]) by {
        if perm_respects(g, pc) {
            assert forall|t: int|
                0 <= t < conds.len() implies g[(#[trigger] conds[t]).u as int] < g[
                conds[t].v as int] by {
                assert(pc[t] == conds[t]);
                assert(g[pc[t].u as int] < g[pc[t].v as int]);
            }
            assert(pc[pc.len() - 1] == c);
            assert(g[c.u as int] < g[c.v as int]);
        }
        if perm_respects(g, conds) && g[c.u as int] < g[c.v as int] {
            assert forall|t: int|
                0 <= t < pc.len() implies g[(#[trigger] pc[t]).u as int] < g[pc[t].v as int] by {
                if t < conds.len() {
                    assert(pc[t] == conds[t]);
                } else {
                    assert(pc[t] == c);
                }
            }
        }
    }
    lemma_filter_filter(
        autos,
        |g: Seq<usize>| perm_respects(g, conds),
        pred,
        |g: Seq<usize>| perm_respects(g, conds.push(c)),
    );
}

/// Derives the symmetry-breaking conditions from the relabelled orbits and
/// the automorphism group.  Orbits are visited in order of first appearance;
/// within an orbit every ordered position pair becomes a condition, and the
/// group is narrowed to the permutations respecting it, stopping once a
/// single permutation remains.  The produced list is exactly the synthesis
/// [`spec_sbc`] describes; every condition orders two positions of one
/// orbit, a one-permutation group yields no condition, and a larger group
/// always yields one when two positions share an orbit.
#[verifier::loop_isolation(false)]
pub fn symmetry_breaking_conditions(autos: &Vec<Vec<usize>>, orbits: &Vec<usize>) -> (r: Option<
    Conditions,
>)
    requires
        forall|t: int| 0 <= t < autos@.len() ==> (#[trigger] autos@[t])@.len() == orbits@.len(),
    ensures
        r is None <==> autos@.len() == 0,
        r is Some ==> forall|c: int|
            0 <= c < r.unwrap()@.len() ==> {
                &&& (#[trigger] r.unwrap()@[c]).u < r.unwrap()@[c].v
                &&& r.unwrap()@[c].v < orbits@.len()
                &&& orbits@[r.unwrap()@[c].u as int] == orbits@[r.unwrap()@[c].v as int]
            },
        autos@.len() == 1 ==> (r is Some && r.unwrap()@.len() == 0),
        (autos@.len() >= 2 && exists|i: int, j: int|
            0 <= i < j < orbits@.len() && orbits@[i] == orbits@[j]) ==> (r is Some
            && r.unwrap()@.len() > 0),
        autos@.len() > 0 ==> (r is Some && r.unwrap()@ == spec_sbc(deep_view(autos@), orbits@)),
{
    if autos.len() == 0 {
        return None;
    }
    let k = orbits.len();
    let ghost deep0 = deep_view(autos@);

    let mut uniq: Vec<usize> = Vec::new();
    let mut t: usize = 0;
    while t < k
        invariant
            t <= k,
            forall|a: int| 0 <= a < uniq@.len() ==> orbits@.contains(#[trigger] uniq@[a]),
            forall|a: int| 0 <= a < t ==> uniq@.contains(#[trigger] orbits@[a]),
            uniq@ == spec_uniq(orbits@, t as int),
        decreases k - t,
    {
        let o = orbits[t];
        let mut seen = false;
        let mut s: usize = 0;
        while s < uniq.len()
            invariant
                s <= uniq@.len(),
                seen ==> uniq@.contains(o),
                !seen ==> forall|a: int| 0 <= a < s ==> uniq@[a] != o,
            decreases uniq@.len() - s,
        {
            if uniq[s] == o {
                proof {
                    assert(uniq@[s as int] == o);
                }
                seen = true;
            }
            s += 1;
        }
        let ghost pre_uniq = uniq@;
        if !seen {
            uniq.push(o);
            proof {
                assert(orbits@[t as int] == o);
                assert forall|a: int|
                    0 <= a < uniq@.len() implies orbits@.contains(#[trigger] uniq@[a]) by {
                    if a < uniq@.len() - 1 {
                    } else {
                        assert(uniq@[a] == o);
                    }
                }
                assert forall|a: int|
                    0 <= a < t + 1 implies uniq@.contains(#[trigger] orbits@[a]) by {
                    if a < t {
                        assert(pre_uniq.contains(orbits@[a]));
                        let w = choose|w: int| 0 <= w < pre_uniq.len() && pre_uniq[w] == orbits@[a];
                        assert(uniq@[w] == orbits@[a]);
                    } else {
                        assert(uniq@[uniq@.len() - 1] == o);
                    }
                }
            }
        } else {
            proof {
                assert(orbits@[t as int] == o);
                assert(uniq@.contains(o));
            }
        }
        proof {
            if !uniq@.subrange(0, uniq@.len() as int).contains(o) {
            }
            assert(uniq@ == spec_uniq(orbits@, t + 1)) by {
                if seen {
                    assert(uniq@.contains(orbits@[t as int]));
                } else {
                    assert(!pre_uniq.contains(o));
                }
            }
        }
        t += 1;
    }

    let mut group: Vec<Vec<usize>> = Vec::new();
    let mut g: usize = 0;
    while g < autos.len()
        invariant
            g <= autos@.len(),
            group@.len() == g,
            forall|a: int| 0 <= a < group@.len() ==> (#[trigger] group@[a])@.len() == k,
            forall|a: int| 0 <= a < g ==> (#[trigger] group@[a])@ == autos@[a]@,
        decreases autos@.len() - g,
    {
        let mut copy: Vec<usize> = Vec::new();
        let mut i: usize = 0;
        while i < k
            invariant
                i <= k,
                copy@.len() == i,
                g < autos@.len(),
                forall|t: int| 0 <= t < i ==> copy@[t] == autos@[g as int]@[t],
            decreases k - i,
        {
            proof {
                assert(autos@[g as int]@.len() == k);
            }
            copy.push(autos[g][i]);
            i += 1;
        }
        proof {
            assert(copy@ =~= autos@[g as int]@);
        }
        group.push(copy);
        g += 1;
    }
    proof {
        assert(deep_view(group@) =~= spec_group_after(deep0, Seq::<Condition>::empty())) by {
            assert forall|x: Seq<usize>|
                #[trigger] perm_respects(x, Seq::<Condition>::empty()) by {}
            lemma_filter_all(deep0, |x: Seq<usize>| perm_respects(x, Seq::<Condition>::empty()));
            assert forall|a: int|
                0 <= a < group@.len() implies #[trigger] deep_view(group@)[a] == deep0[a] by {
                assert(deep_view(group@)[a] == group@[a]@);
                assert(deep0[a] == autos@[a]@);
            }
        }
    }
    let ghost target = spec_sbc_from(deep0, orbits@, uniq@, Seq::<Condition>::empty(), 0, 0, 1);
    proof {
        assert(uniq@ == spec_uniq(orbits@, orbits@.len() as int));
        assert(target == spec_sbc(deep0, orbits@));
    }

    let mut conds: Vec<Condition> = Vec::new();
    let mut oi: usize = 0;
    while oi < uniq.len()
        invariant
            oi <= uniq@.len(),
            forall|a: int| 0 <= a < group@.len() ==> (#[trigger] group@[a])@.len() == k,
            forall|c: int|
                0 <= c < conds@.len() ==> {
                    &&& (#[trigger] conds@[c]).u < conds@[c].v
                    &&& conds@[c].v < k
                    &&& orbits@[conds@[c].u as int] == orbits@[conds@[c].v as int]
                },
            conds@.len() == 0 ==> group@.len() == autos@.len(),
            autos@.len() == 1 ==> (conds@.len() == 0 && group@.len() == 1),
            (conds@.len() == 0 && autos@.len() != 1) ==> forall|i: int, j: int|
                #![trigger orbits@[i], orbits@[j]]
                0 <= i < j < k && orbits@[i] == orbits@[j] ==> !uniq@.subrange(
                    0,
                    oi as int,
                ).contains(orbits@[i]),
            deep_view(group@) == spec_group_after(deep0, conds@),
            target == spec_sbc_from(deep0, orbits@, uniq@, conds@, oi as int, 0, 1),
        decreases uniq@.len() - oi,
    {
        let o = uniq[oi];
        let mut idx: usize = 0;
        while idx < k
            invariant
                idx <= k,
                o == uniq@[oi as int],
                forall|a: int| 0 <= a < group@.len() ==> (#[trigger] group@[a])@.len() == k,
                forall|c: int|
                    0 <= c < conds@.len() ==> {
                        &&& (#[trigger] conds@[c]).u < conds@[c].v
                        &&& conds@[c].v < k
                        &&& orbits@[conds@[c].u as int] == orbits@[conds@[c].v as int]
                    },
                conds@.len() == 0 ==> group@.len() == autos@.len(),
                autos@.len() == 1 ==> (conds@.len() == 0 && group@.len() == 1),
                (conds@.len() == 0 && autos@.len() != 1) ==> forall|i: int, j: int|
                    #![trigger orbits@[i], orbits@[j]]
                    0 <= i < j < k && orbits@[i] == orbits@[j] ==> !uniq@.subrange(
                        0,
                        oi as int,
                    ).contains(orbits@[i]),
                (conds@.len() == 0 && autos@.len() != 1) ==> forall|i: int, j: int|
                    #![trigger orbits@[i], orbits@[j]]
                    0 <= i < j < k && orbits@[i] == o && orbits@[j] == o ==> i >= idx,
                deep_view(group@) == spec_group_after(deep0, conds@),
                target == spec_sbc_from(deep0, orbits@, uniq@, conds@, oi as int, idx as int,
                    idx + 1),
            decreases k - idx,
        {
            if orbits[idx] == o {
                let mut jdx: usize = idx + 1;
                while jdx < k
                    invariant
                        idx < jdx,
                        jdx <= k,
                        idx < k,
                        o == uniq@[oi as int],
                        orbits@[idx as int] == o,
                        forall|a: int|
                            0 <= a < group@.len() ==> (#[trigger] group@[a])@.len() == k,
                        forall|c: int|
                            0 <= c < conds@.len() ==> {
                                &&& (#[trigger] conds@[c]).u < conds@[c].v
                                &&& conds@[c].v < k
                                &&& orbits@[conds@[c].u as int] == orbits@[conds@[c].v as int]
                            },
                        conds@.len() == 0 ==> group@.len() == autos@.len(),
                        autos@.len() == 1 ==> (conds@.len() == 0 && group@.len() == 1),
                        (conds@.len() == 0 && autos@.len() != 1) ==> forall|i: int, j: int|
                            #![trigger orbits@[i], orbits@[j]]
                            0 <= i < j < k && orbits@[i] == orbits@[j] ==> !uniq@.subrange(
                                0,
                                oi as int,
                            ).contains(orbits@[i]),
                        (conds@.len() == 0 && autos@.len() != 1) ==> forall|i: int, j: int|
                            #![trigger orbits@[i], orbits@[j]]
                            0 <= i < j < k && orbits@[i] == o && orbits@[j] == o ==> i >= idx,
                        (conds@.len() == 0 && autos@.len() != 1) ==> forall|j: int|
                            idx < j < jdx ==> (#[trigger] orbits@[j]) != o,
                        deep_view(group@) == spec_group_after(deep0, conds@),
                        target == spec_sbc_from(deep0, orbits@, uniq@, conds@, oi as int,
                            idx as int, jdx as int),
                    decreases k - jdx,
                {
                    let ghost pre_conds = conds@;
                    let ghost pre_group = group@;
                    proof {
                        assert(deep_view(group@).len() == group@.len());
                    }
                    if orbits[jdx] == o && group.len() != 1 {
                        conds.push(Condition::new(idx, jdx));
                        let ghost cnew = Condition { u: idx, v: jdx };
                        let ghost pred = |x: Seq<usize>| x[idx as int] < x[jdx as int];
                        let mut kept: Vec<Vec<usize>> = Vec::new();
                        let mut gi: usize = 0;
                        while gi < group.len()
                            invariant
                                gi <= group@.len(),
                                idx < jdx < k,
                                group@ == pre_group,
                                forall|a: int|
                                    0 <= a < group@.len() ==> (#[trigger] group@[a])@.len() == k,
                                forall|a: int|
                                    0 <= a < kept@.len() ==> (#[trigger] kept@[a])@.len() == k,
                                deep_view(kept@) == deep_view(pre_group).subrange(
                                    0,
                                    gi as int,
                                ).filter(pred),
                            decreases group@.len() - gi,
                        {
                            proof {
                                assert(group@[gi as int]@.len() == k);
                                reveal(Seq::filter);
                                let post = deep_view(pre_group).subrange(0, gi + 1);
                                assert(post.drop_last() =~= deep_view(pre_group).subrange(
                                    0,
                                    gi as int,
                                ));
                                assert(post.last() == pre_group[gi as int]@);
                            }
                            if group[gi][idx] < group[gi][jdx] {
                                let mut copy: Vec<usize> = Vec::new();
                                let mut ci: usize = 0;
                                while ci < k
                                    invariant
                                        ci <= k,
                                        copy@.len() == ci,
                                        gi < group@.len(),
                                        group@[gi as int]@.len() == k,
                                        forall|t: int|
                                            0 <= t < ci ==> copy@[t] == group@[gi as int]@[t],
                                    decreases k - ci,
                                {
                                    copy.push(group[gi][ci]);
                                    ci += 1;
                                }
                                proof {
                                    assert(copy@ =~= pre_group[gi as int]@);
                                    assert(pred(pre_group[gi as int]@));
                                }
                                kept.push(copy);
                                proof {
                                    assert(deep_view(kept@) =~= deep_view(
                                        kept@.drop_last(),
                                    ).push(copy@));
                                }
                            } else {
                                proof {
                                    assert(!pred(pre_group[gi as int]@));
                                }
                            }
                            gi += 1;
                        }
                        group = kept;
                        proof {
                            assert(deep_view(pre_group).subrange(
                                0,
                                deep_view(pre_group).len() as int,
                            ) =~= deep_view(pre_group));
                            assert(conds@ == pre_conds.push(cnew));
                            assert(deep_view(group@) == deep_view(pre_group).filter(pred));
                            lemma_group_after_push(deep0, pre_conds, cnew, pred);
                            assert(deep_view(group@) == spec_group_after(deep0, conds@));
                        }
                    }
                    proof {
                        assert(target == spec_sbc_from(deep0, orbits@, uniq@, conds@, oi as int,
                            idx as int, jdx + 1)) by {
                            assert(deep_view(pre_group).len() == pre_group.len());
                        }
                    }
                    jdx += 1;
                }
            }
            proof {
                if conds@.len() == 0 && autos@.len() != 1 {
                    assert forall|i: int, j: int|
                        #![trigger orbits@[i], orbits@[j]]
                        0 <= i < j < k && orbits@[i] == o && orbits@[j] == o implies i >= idx + 1
                        by {
                        if i == idx {
                            assert(orbits@[j] != o);
                        }
                    }
                }
            }
            idx += 1;
        }
        proof {
            if conds@.len() == 0 && autos@.len() != 1 {
                assert forall|i: int, j: int|
                    #![trigger orbits@[i], orbits@[j]]
                    0 <= i < j < k && orbits@[i] == orbits@[j] implies !uniq@.subrange(
                    0,
                    oi + 1,
                ).contains(orbits@[i]) by {
                    let post_uniq = uniq@.subrange(0, oi + 1);
                    if post_uniq.contains(orbits@[i]) {
                        let a = choose|a: int| 0 <= a < post_uniq.len() && post_uniq[a] == orbits@[i];
                        if a < oi {
                            assert(uniq@.subrange(0, oi as int)[a] == orbits@[i]);
                            assert(uniq@.subrange(0, oi as int).contains(orbits@[i]));
                        } else {
                            assert(orbits@[i] == o);
                        }
                    }
                }
            }
        }
        oi += 1;
    }
    proof {
        if autos@.len() >= 2 && exists|i: int, j: int|
            0 <= i < j < orbits@.len() && orbits@[i] == orbits@[j] {
            let (i, j) = choose|i: int, j: int|
                0 <= i < j < orbits@.len() && orbits@[i] == orbits@[j];
            if conds@.len() == 0 {
                assert(uniq@.contains(orbits@[i]));
                assert(uniq@.subrange(0, uniq@.len() as int) =~= uniq@);
                assert(!uniq@.subrange(0, uniq@.len() as int).contains(orbits@[i]));
            }
        }
    }
    Some(Conditions::from_vec(conds))
}

/// The canonical adjacency, relabelled orbits and symmetry-breaking
/// conditions of one pattern.
pub struct CanonicalBasedNauty {
    pub adj: FixedBitSet,
    pub orbits: Vec<usize>,
    pub conditions: Option<Conditions>,
    pub size: usize,
}

impl CanonicalBasedNauty {
    pub fn new(adj: FixedBitSet, orbits: Vec<usize>, conditions: Option<Conditions>) -> (r:
        CanonicalBasedNauty)
        ensures
            r.adj == adj,
            r.orbits == orbits,
            r.conditions == conditions,
            r.size == orbits@.len(),
    {
        let size = orbits.len();
        CanonicalBasedNauty { adj, orbits, conditions, size }
    }

    pub fn adjacency(&self) -> (r: &FixedBitSet)
        ensures
            r == &self.adj,
    {
        &self.adj
    }

    pub fn conditions(&self) -> (r: &Option<Conditions>)
        ensures
            r == &self.conditions,
    {
        &self.conditions
    }
}

/// Recanonicalises a pattern for the trie.  Starting from the adjacency the
/// automorphism oracle produced, the vertices are relabelled (articulation
/// points deferred, least-degree vertices last), the oracle's orbits follow
/// the relabelling, and the symmetry-breaking conditions are synthesised
/// over the relabelled orbits.  The result's adjacency is exactly the input
/// relabelled by a permutation built round by round as [`round_ok`]
/// prescribes; each condition orders two positions of one orbit.
pub fn canonical_based_nauty(
    adj: &FixedBitSet,
    size: usize,
    orbits: &Vec<usize>,
    autos: &Vec<Vec<usize>>,
) -> (r: CanonicalBasedNauty)
    requires
        size * size <= usize::MAX,
        size <= i32::MAX,
        orbits@.len() == size,
        forall|t: int| 0 <= t < autos@.len() ==> (#[trigger] autos@[t])@.len() == size,
    ensures
        r.size == size,
        r.orbits@.len() == size,
        bit_capacity(r.adj) == size * size,
        forall|x: usize| bit_set(r.adj).contains(x) ==> x < size * size,
        exists|labels: Seq<usize>|
            {
                &&& labels.len() == size
                &&& (forall|p: int| 0 <= p < size ==> (#[trigger] labels[p]) < size)
                &&& (forall|p: int, q: int| 0 <= p < q < size ==> labels[p] != labels[q])
                &&& (forall|u: int, v: int|
                    0 <= u < size && 0 <= v < size ==> (#[trigger] adj_edge(r.adj, size as int, u, v)
                        <==> adj_edge(*adj, size as int, labels[u] as int, labels[v] as int)))
                &&& (forall|p: int| 0 <= p < size ==> r.orbits@[p] == orbits@[labels[p] as int])
            },
        exists|labels: Seq<usize>|
            {
                &&& #[trigger] relabel_rounds_ok(*adj, size as int, labels)
                &&& (forall|u: int, v: int|
                    0 <= u < size && 0 <= v < size ==> (#[trigger] adj_edge(r.adj, size as int, u, v)
                        <==> adj_edge(*adj, size as int, labels[u] as int, labels[v] as int)))
                &&& (forall|p: int| 0 <= p < size ==> r.orbits@[p] == orbits@[labels[p] as int])
            },
        r.conditions is None <==> autos@.len() == 0,
        r.conditions is Some ==> forall|c: int|
            0 <= c < r.conditions.unwrap()@.len() ==> {
                &&& (#[trigger] r.conditions.unwrap()@[c]).u < r.conditions.unwrap()@[c].v
                &&& r.conditions.unwrap()@[c].v < size
                &&& r.orbits@[r.conditions.unwrap()@[c].u as int] == r.orbits@[
                    r.conditions.unwrap()@[c].v as int]
            },
        autos@.len() == 1 ==> (r.conditions is Some && r.conditions.unwrap()@.len() == 0),
        (autos@.len() >= 2 && exists|i: int, j: int|
            0 <= i < j < size && r.orbits@[i] == r.orbits@[j]) ==> (r.conditions is Some
            && r.conditions.unwrap()@.len() > 0),
        autos@.len() > 0 ==> (r.conditions is Some && r.conditions.unwrap()@ == spec_sbc(
            deep_view(autos@),
            r.orbits@,
        )),
{
    let mut new_adj = bits_with_capacity(size * size);
    let mut new_orbits: Vec<usize> = Vec::new();

    let mut degree = filled(0usize, size);
    let mut global_degree = filled(0usize, size);
    let mut used = filled(false, size);
    let mut last_degree = filled(0usize, size);
    let mut labels = filled(0usize, size);

    init_degrees(adj, size, &mut degree, &mut global_degree, &mut last_degree);
    proof {
        assert(used@ =~= Seq::new(size as nat, |i: int| false));
    }
    calculate_relabels(
        adj,
        size,
        &mut degree,
        &mut global_degree,
        &mut last_degree,
        &mut used,
        &mut labels,
    );
    relabel_adj(adj, &mut new_adj, size, &labels);
    relabel_orbits(orbits, &mut new_orbits, &labels);
    let conditions = symmetry_breaking_conditions(autos, &new_orbits);
    proof {
        assert(new_orbits@.len() == size);
        assert forall|p: int| 0 <= p < size implies (#[trigger] labels@[p]) < size by {}
    }
    let r = CanonicalBasedNauty::new(new_adj, new_orbits, conditions);
    proof {
        let w = labels@;
        assert(w.len() == size);
        assert(relabel_rounds_ok(*adj, size as int, w));
        assert(forall|u: int, v: int|
            0 <= u < size && 0 <= v < size ==> (#[trigger] adj_edge(r.adj, size as int, u, v)
                <==> adj_edge(*adj, size as int, w[u] as int, w[v] as int)));
        assert(forall|p: int| 0 <= p < size ==> r.orbits@[p] == orbits@[w[p] as int]);
    }
    r
}

} // verus!
