use std::collections::{HashMap, HashSet};

use gtrie::bitgraph::Bitgraph;
use gtrie::gtrie::{enumerate_subgraphs, Gtrie};
use gtrie::io::{load_numeric_graph_from_buffer, GraphError};
use gtrie::isomorphism::canonical_based_nauty;
use gtrie::symmetry::Conditions;

/// All permutations of `0 .. n`.
fn permutations(n: usize) -> Vec<Vec<usize>> {
    let mut out = vec![vec![]];
    for _ in 0..n {
        let mut next = Vec::new();
        for p in &out {
            for v in 0..n {
                if !p.contains(&v) {
                    let mut q = p.clone();
                    q.push(v);
                    next.push(q);
                }
            }
        }
        out = next;
    }
    out
}

fn is_automorphism(n: usize, edges: &HashSet<(usize, usize)>, p: &[usize]) -> bool {
    for u in 0..n {
        for v in 0..n {
            if edges.contains(&(u, v)) != edges.contains(&(p[u], p[v])) {
                return false;
            }
        }
    }
    true
}

/// The full automorphism group, as permutation vectors, plus the orbit of
/// each vertex (the least vertex reachable by an automorphism).
fn oracle(n: usize, edges: &HashSet<(usize, usize)>) -> (Vec<usize>, Vec<Vec<usize>>) {
    let autos: Vec<Vec<usize>> = permutations(n)
        .into_iter()
        .filter(|p| is_automorphism(n, edges, p))
        .collect();
    let mut orbits = vec![0usize; n];
    for i in 0..n {
        orbits[i] = autos.iter().map(|p| p[i]).min().unwrap();
    }
    (orbits, autos)
}

/// A canonical key for an isomorphism class: the least flattened adjacency
/// over all relabelings.
fn canon_key(n: usize, edges: &HashSet<(usize, usize)>) -> Vec<bool> {
    let mut best: Option<Vec<bool>> = None;
    for p in permutations(n) {
        let mut bits = vec![false; n * n];
        for &(u, v) in edges {
            bits[p[u] * n + p[v]] = true;
        }
        if best.as_ref().map_or(true, |b| &bits < b) {
            best = Some(bits);
        }
    }
    best.unwrap()
}

fn weakly_connected(n: usize, edges: &HashSet<(usize, usize)>) -> bool {
    if n == 0 {
        return true;
    }
    let mut seen = vec![false; n];
    let mut stack = vec![0usize];
    seen[0] = true;
    while let Some(u) = stack.pop() {
        for v in 0..n {
            if !seen[v] && (edges.contains(&(u, v)) || edges.contains(&(v, u))) {
                seen[v] = true;
                stack.push(v);
            }
        }
    }
    seen.iter().all(|&s| s)
}

/// One representative edge set per isomorphism class of weakly connected
/// loop-free digraphs on `k` vertices.
fn connected_classes(k: usize) -> Vec<HashSet<(usize, usize)>> {
    let pairs: Vec<(usize, usize)> = (0..k)
        .flat_map(|u| (0..k).map(move |v| (u, v)))
        .filter(|&(u, v)| u != v)
        .collect();
    let mut reps: HashMap<Vec<bool>, HashSet<(usize, usize)>> = HashMap::new();
    for mask in 0..(1u64 << pairs.len()) {
        let edges: HashSet<(usize, usize)> = pairs
            .iter()
            .enumerate()
            .filter(|(i, _)| mask & (1 << i) != 0)
            .map(|(_, &e)| e)
            .collect();
        if !weakly_connected(k, &edges) {
            continue;
        }
        reps.entry(canon_key(k, &edges)).or_insert(edges);
    }
    reps.into_values().collect()
}

/// Builds a trie holding one pattern per class, in the order given.
fn build_trie(k: usize, classes: &[HashSet<(usize, usize)>]) -> Gtrie {
    let mut trie = Gtrie::new(k);
    for edges in classes {
        let list: Vec<(usize, usize)> = edges.iter().copied().collect();
        let mut pattern = Bitgraph::from_edges(k, true, &list);
        let (orbits, autos) = oracle(k, edges);
        trie.add_pattern(&mut pattern, &orbits, &autos)
            .expect("every connected pattern should be accepted");
    }
    trie
}

/// Counts, by brute force, the induced occurrences of every `k`-class in
/// the host: each `k`-subset of vertices is tallied under the canonical key
/// of its induced subgraph.
fn brute_force_counts(host: &Bitgraph, k: usize) -> HashMap<Vec<bool>, usize> {
    let n = host.n_nodes();
    let mut counts = HashMap::new();
    let mut subset: Vec<usize> = Vec::new();
    enumerate_subsets(host, k, 0, &mut subset, &mut counts);
    counts
}

fn enumerate_subsets(
    host: &Bitgraph,
    k: usize,
    from: usize,
    subset: &mut Vec<usize>,
    counts: &mut HashMap<Vec<bool>, usize>,
) {
    if subset.len() == k {
        let mut edges = HashSet::new();
        for (i, &a) in subset.iter().enumerate() {
            for (j, &b) in subset.iter().enumerate() {
                if i != j && host.is_connected(a, b) {
                    edges.insert((i, j));
                }
            }
        }
        if weakly_connected(k, &edges) {
            *counts.entry(canon_key(k, &edges)).or_insert(0) += 1;
        }
        return;
    }
    for v in from..host.n_nodes() {
        subset.push(v);
        enumerate_subsets(host, k, v + 1, subset, counts);
        subset.pop();
    }
}

fn sorted_frequencies(trie: &Gtrie) -> Vec<usize> {
    let mut freqs: Vec<usize> = trie.get_nonzero().into_iter().map(|p| p.1).collect();
    freqs.sort();
    freqs
}

fn census_against_brute_force(host_text: &[u8], k: usize) {
    let host = load_numeric_graph_from_buffer(&host_text.to_vec(), true).unwrap();
    let classes = connected_classes(k);
    let mut trie = build_trie(k, &classes);
    trie.census(&host);

    let brute = brute_force_counts(&host, k);
    let mut expected: Vec<usize> = brute.values().copied().collect();
    expected.sort();
    let expected_total: usize = expected.iter().sum();

    assert_eq!(trie.total_subgraphs(), expected_total);
    assert_eq!(sorted_frequencies(&trie), expected);
}

#[test]
fn census_three_node_patterns_tiny_host() {
    census_against_brute_force(b"1 2\n2 3\n3 1\n1 3\n", 3);
}

#[test]
fn census_four_node_patterns_tiny_host() {
    census_against_brute_force(b"1 2\n2 3\n3 1\n1 3\n", 4);
}

#[test]
fn census_three_node_patterns_larger_host() {
    let host = b"1 2\n2 3\n3 1\n1 3\n3 4\n4 5\n5 3\n5 6\n6 1\n2 5\n6 4\n";
    census_against_brute_force(host, 3);
}

#[test]
fn census_four_node_patterns_larger_host() {
    let host = b"1 2\n2 3\n3 1\n1 3\n3 4\n4 5\n5 3\n5 6\n6 1\n2 5\n";
    census_against_brute_force(host, 4);
}

/// The total is always the sum of the per-terminal frequencies.
#[test]
fn total_equals_frequency_sum() {
    let host = b"1 2\n2 3\n3 1\n1 3\n3 4\n4 2\n".to_vec();
    let classes = connected_classes(3);
    let mut trie = build_trie(3, &classes);
    let total = enumerate_subgraphs(&mut trie, &host).unwrap();
    let sum: usize = trie.get_nonzero().into_iter().map(|p| p.1).sum();
    assert_eq!(total, sum);
    assert_eq!(total, trie.total_subgraphs());
}

/// The canonical relabelling permutes the vertices: the output is always
/// isomorphic to the input, and canonicalising again stays in the class.
#[test]
fn canonicalization_permutes_vertices() {
    for edges in connected_classes(3) {
        let list: Vec<(usize, usize)> = edges.iter().copied().collect();
        let g = Bitgraph::from_edges(3, true, &list);
        let (orbits, autos) = oracle(3, &edges);
        let first = canonical_based_nauty(g.adjacency(), 3, &orbits, &autos);
        let mut relabeled = Bitgraph::from_edges(3, true, &list);
        relabeled.overwrite_adjacency(first.adjacency());
        let mut new_edges = HashSet::new();
        for u in 0..3 {
            for v in 0..3 {
                if relabeled.is_connected(u, v) {
                    new_edges.insert((u, v));
                }
            }
        }
        assert_eq!(canon_key(3, &edges), canon_key(3, &new_edges));
        let (orbits2, autos2) = oracle(3, &new_edges);
        assert_eq!(autos.len(), autos2.len());
        let second = canonical_based_nauty(relabeled.adjacency(), 3, &orbits2, &autos2);
        let mut again = Bitgraph::from_edges(3, true, &list);
        again.overwrite_adjacency(second.adjacency());
        let mut final_edges = HashSet::new();
        for u in 0..3 {
            for v in 0..3 {
                if again.is_connected(u, v) {
                    final_edges.insert((u, v));
                }
            }
        }
        assert_eq!(canon_key(3, &edges), canon_key(3, &final_edges));
    }
}

fn conditions_pairs(c: &Option<Conditions>) -> Vec<(usize, usize)> {
    match c {
        None => vec![],
        Some(cs) => {
            let mut out = Vec::new();
            for i in 0..cs.len() {
                let cond = cs.index(i);
                out.push((cond.min(), cond.max()));
            }
            out
        }
    }
}

/// Inserting the patterns in any order yields the same frequencies.
#[test]
fn insertion_order_does_not_change_counts() {
    let host = load_numeric_graph_from_buffer(&b"1 2\n2 3\n3 1\n1 3\n3 4\n4 2\n".to_vec(), true)
        .unwrap();
    let classes = connected_classes(3);
    let mut reversed = classes.clone();
    reversed.reverse();

    let mut trie_a = build_trie(3, &classes);
    let mut trie_b = build_trie(3, &reversed);
    trie_a.census(&host);
    trie_b.census(&host);

    assert_eq!(trie_a.total_subgraphs(), trie_b.total_subgraphs());
    let mut a: Vec<(String, usize)> = trie_a.get_nonzero();
    let mut b: Vec<(String, usize)> = trie_b.get_nonzero();
    a.sort();
    b.sort();
    assert_eq!(a, b);
}

/// Two runs with identical inputs give identical frequency maps.
#[test]
fn census_is_deterministic() {
    let host = load_numeric_graph_from_buffer(&b"1 2\n2 3\n3 1\n1 3\n3 4\n4 2\n".to_vec(), true)
        .unwrap();
    let classes = connected_classes(3);
    let mut trie_a = build_trie(3, &classes);
    let mut trie_b = build_trie(3, &classes);
    trie_a.census(&host);
    trie_b.census(&host);
    assert_eq!(trie_a.total_subgraphs(), trie_b.total_subgraphs());
    assert_eq!(trie_a.get_nonzero(), trie_b.get_nonzero());
}

/// A host self-loop never matches a loop-free pattern library.
#[test]
fn host_self_loop_never_matches() {
    let host = load_numeric_graph_from_buffer(&b"5 5\n".to_vec(), true).unwrap();
    assert!(host.is_connected(4, 4));
    let classes = connected_classes(2);
    let mut trie = build_trie(2, &classes);
    trie.census(&host);
    assert_eq!(trie.total_subgraphs(), 0);
}

/// The undirected triangle is fully symmetric: its conditions must force
/// the three positions into increasing order, and a census with the
/// conditions counts each triangle exactly once where an unconditioned
/// census counts all six orderings.
#[test]
fn symmetric_triangle_conditions() {
    let tri: HashSet<(usize, usize)> =
        vec![(0, 1), (1, 0), (1, 2), (2, 1), (0, 2), (2, 0)].into_iter().collect();
    let list: Vec<(usize, usize)> = tri.iter().copied().collect();
    let (orbits, autos) = oracle(3, &tri);
    assert_eq!(autos.len(), 6);

    let mut pattern = Bitgraph::from_edges(3, true, &list);
    let mut with_conditions = Gtrie::new(3);
    with_conditions
        .add_pattern(&mut pattern, &orbits, &autos)
        .unwrap();

    let canon = canonical_based_nauty(
        Bitgraph::from_edges(3, true, &list).adjacency(),
        3,
        &orbits,
        &autos,
    );
    assert_eq!(
        conditions_pairs(canon.conditions()),
        vec![(0, 1), (0, 2), (1, 2)]
    );

    let mut without_conditions = Gtrie::new(3);
    let mut pattern2 = Bitgraph::from_edges(3, true, &list);
    without_conditions.insert(&pattern2, None, None);
    let _ = &mut pattern2;

    // a host holding two triangles sharing an edge (both directions each)
    let host_text = b"1 2\n2 1\n2 3\n3 2\n3 1\n1 3\n2 4\n4 2\n3 4\n4 3\n".to_vec();
    let host = load_numeric_graph_from_buffer(&host_text, true).unwrap();
    with_conditions.census(&host);
    without_conditions.census(&host);
    assert_eq!(with_conditions.total_subgraphs(), 2);
    assert_eq!(without_conditions.total_subgraphs(), 12);
    assert_eq!(
        without_conditions.total_subgraphs(),
        6 * with_conditions.total_subgraphs()
    );
}

/// The articulation point of the four-vertex pattern is kept away from the
/// last canonical position.
#[test]
fn articulation_point_tie_break() {
    let edges: HashSet<(usize, usize)> =
        vec![(0, 2), (1, 0), (1, 2), (2, 3)].into_iter().collect();
    let list: Vec<(usize, usize)> = edges.iter().copied().collect();
    let g = Bitgraph::from_edges(4, true, &list);
    let (orbits, autos) = oracle(4, &edges);
    let canon = canonical_based_nauty(g.adjacency(), 4, &orbits, &autos);
    let mut relabeled = Bitgraph::from_edges(4, true, &list);
    relabeled.overwrite_adjacency(canon.adjacency());
    // vertex 2 is the articulation point and the only vertex of degree 3
    let mut degree_three_position = None;
    for p in 0..4 {
        let mut d = 0;
        for q in 0..4 {
            if p != q && (relabeled.is_connected(p, q) || relabeled.is_connected(q, p)) {
                d += 1;
            }
        }
        if d == 3 {
            degree_three_position = Some(p);
        }
    }
    assert_ne!(degree_three_position, Some(3));
}

/// Each shape the trie cannot store is reported by name.
#[test]
fn rejected_patterns() {
    // deeper than the trie
    let tri: Vec<(usize, usize)> = vec![(0, 1), (1, 2), (2, 0)];
    let mut small_trie = Gtrie::new(2);
    let mut pattern = Bitgraph::from_edges(3, true, &tri);
    let (orbits, autos) = oracle(3, &tri.iter().copied().collect());
    assert_eq!(
        small_trie.add_pattern(&mut pattern, &orbits, &autos).unwrap_err(),
        GraphError::PatternTooDeep
    );

    // too many vertices for a graph6 label
    let mut big_trie = Gtrie::new(64);
    let path: Vec<(usize, usize)> = (0..62).map(|i| (i, i + 1)).collect();
    let mut long_pattern = Bitgraph::from_edges(63, true, &path);
    let big_orbits: Vec<usize> = (0..63).collect();
    let identity: Vec<Vec<usize>> = vec![(0..63).collect()];
    assert_eq!(
        big_trie
            .add_pattern(&mut long_pattern, &big_orbits, &identity)
            .unwrap_err(),
        GraphError::TooLarge
    );

    // a self-loop
    let mut trie = Gtrie::new(3);
    let looped: Vec<(usize, usize)> = vec![(0, 0), (0, 1), (1, 2)];
    let mut looped_pattern = Bitgraph::from_edges(3, true, &looped);
    let (lo, la) = oracle(3, &looped.iter().copied().collect());
    assert_eq!(
        trie.add_pattern(&mut looped_pattern, &lo, &la).unwrap_err(),
        GraphError::LoopedPattern
    );

    // two components
    let split: Vec<(usize, usize)> = vec![(0, 1), (2, 3)];
    let mut split_pattern = Bitgraph::from_edges(4, true, &split);
    let (so, sa) = oracle(4, &split.iter().copied().collect());
    let mut trie4 = Gtrie::new(4);
    assert_eq!(
        trie4.add_pattern(&mut split_pattern, &so, &sa).unwrap_err(),
        GraphError::DisconnectedPattern
    );
    assert_eq!(trie4.total_subgraphs(), 0);
}

/// A pattern with only the identity automorphism gets an empty condition
/// list; a richer group over a shared orbit always gets at least one.
#[test]
fn condition_synthesis_group_sizes() {
    // the feed-forward pattern has a trivial automorphism group
    let ffl: HashSet<(usize, usize)> = vec![(0, 1), (0, 2), (1, 2)].into_iter().collect();
    let list: Vec<(usize, usize)> = ffl.iter().copied().collect();
    let (orbits, autos) = oracle(3, &ffl);
    assert_eq!(autos.len(), 1);
    let canon = canonical_based_nauty(
        Bitgraph::from_edges(3, true, &list).adjacency(),
        3,
        &orbits,
        &autos,
    );
    assert_eq!(conditions_pairs(canon.conditions()), vec![]);

    // the two-vertex mutual edge swaps freely: one condition must appear
    let pair: HashSet<(usize, usize)> = vec![(0, 1), (1, 0)].into_iter().collect();
    let plist: Vec<(usize, usize)> = pair.iter().copied().collect();
    let (porbits, pautos) = oracle(2, &pair);
    assert_eq!(pautos.len(), 2);
    let pcanon = canonical_based_nauty(
        Bitgraph::from_edges(2, true, &plist).adjacency(),
        2,
        &porbits,
        &pautos,
    );
    assert_eq!(conditions_pairs(pcanon.conditions()), vec![(0, 1)]);
}

/// Storing a pattern twice leaves the trie unchanged: same terminals, same
/// labels, same census counts.
#[test]
fn reinsert_is_noop() {
    let host = load_numeric_graph_from_buffer(&b"1 2\n2 3\n3 1\n1 3\n3 4\n4 2\n".to_vec(), true)
        .unwrap();
    let tri: HashSet<(usize, usize)> = vec![(0, 1), (1, 2), (2, 0)].into_iter().collect();
    let list: Vec<(usize, usize)> = tri.iter().copied().collect();
    let (orbits, autos) = oracle(3, &tri);

    let mut once = Gtrie::new(3);
    let mut p1 = Bitgraph::from_edges(3, true, &list);
    let label_once = once.add_pattern(&mut p1, &orbits, &autos).unwrap();

    let mut twice = Gtrie::new(3);
    let mut p2 = Bitgraph::from_edges(3, true, &list);
    let mut p3 = Bitgraph::from_edges(3, true, &list);
    twice.add_pattern(&mut p2, &orbits, &autos).unwrap();
    let label_twice = twice.add_pattern(&mut p3, &orbits, &autos).unwrap();

    assert_eq!(label_once, label_twice);
    once.census(&host);
    twice.census(&host);
    assert_eq!(once.total_subgraphs(), twice.total_subgraphs());
    assert_eq!(once.get_nonzero(), twice.get_nonzero());
}
