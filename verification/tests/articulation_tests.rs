use fixedbitset::FixedBitSet;
use gtrie::isomorphism::find_articulation_points;

fn insert_graph(adj: &mut FixedBitSet, n: usize, u: usize, v: usize) {
    adj.insert(u * n + v);
}

#[test]
fn articulation_points_no_used_a() {
    let n = 4;
    let mut adj = fixedbitset::FixedBitSet::with_capacity(n * n);
    let used = vec![false; n];
    insert_graph(&mut adj, n, 0, 2);
    insert_graph(&mut adj, n, 1, 0);
    insert_graph(&mut adj, n, 1, 2);
    insert_graph(&mut adj, n, 2, 3);

    let ap = find_articulation_points(&adj, n, &used);
    assert_eq!(ap, vec![false, false, true, false]);
}

#[test]
fn articulation_points_no_used_b() {
    let n = 4;
    let mut adj = fixedbitset::FixedBitSet::with_capacity(n * n);
    let used = vec![false; n];
    insert_graph(&mut adj, n, 0, 1);
    insert_graph(&mut adj, n, 1, 2);
    insert_graph(&mut adj, n, 2, 3);

    let ap = find_articulation_points(&adj, n, &used);
    assert_eq!(ap, vec![false, true, true, false]);
}

#[test]
fn articulation_points_no_used_c() {
    let n = 7;
    let mut adj = fixedbitset::FixedBitSet::with_capacity(n * n);
    let used = vec![false; n];
    insert_graph(&mut adj, n, 0, 1);
    insert_graph(&mut adj, n, 0, 2);
    insert_graph(&mut adj, n, 1, 3);
    insert_graph(&mut adj, n, 2, 3);
    insert_graph(&mut adj, n, 2, 4);
    insert_graph(&mut adj, n, 3, 4);
    insert_graph(&mut adj, n, 4, 5);
    insert_graph(&mut adj, n, 4, 6);
    insert_graph(&mut adj, n, 5, 6);

    let ap = find_articulation_points(&adj, n, &used);
    assert_eq!(ap, vec![false, false, false, false, true, false, false]);
}

#[test]
fn articulation_points_no_used_d() {
    let n = 7;
    let mut adj = fixedbitset::FixedBitSet::with_capacity(n * n);
    let used = vec![false; n];
    insert_graph(&mut adj, n, 0, 1);
    insert_graph(&mut adj, n, 0, 2);
    insert_graph(&mut adj, n, 1, 3);
    insert_graph(&mut adj, n, 2, 3);
    insert_graph(&mut adj, n, 3, 4);
    insert_graph(&mut adj, n, 3, 5);
    insert_graph(&mut adj, n, 4, 5);
    insert_graph(&mut adj, n, 4, 6);
    insert_graph(&mut adj, n, 5, 6);

    let ap = find_articulation_points(&adj, n, &used);
    assert_eq!(ap, vec![false, false, false, true, false, false, false]);
}

#[test]
fn articulation_points_with_used() {
    let n = 4;
    let mut adj = fixedbitset::FixedBitSet::with_capacity(n * n);
    let used = vec![false, false, true, false];
    insert_graph(&mut adj, n, 0, 2);
    insert_graph(&mut adj, n, 1, 0);
    insert_graph(&mut adj, n, 1, 2);
    insert_graph(&mut adj, n, 2, 3);

    let ap = find_articulation_points(&adj, n, &used);
    assert_eq!(ap, vec![false, false, false, false]);
}

#[test]
fn articulation_points_with_used_b() {
    let n = 4;
    let mut adj = fixedbitset::FixedBitSet::with_capacity(n * n);
    let used = vec![false, false, true, false];
    insert_graph(&mut adj, n, 0, 1);
    insert_graph(&mut adj, n, 1, 2);
    insert_graph(&mut adj, n, 2, 3);

    let ap = find_articulation_points(&adj, n, &used);
    assert_eq!(ap, vec![false, false, false, false]);
}

#[test]
fn articulation_points_with_used_c() {
    let n = 7;
    let mut adj = fixedbitset::FixedBitSet::with_capacity(n * n);
    let mut used = vec![false; n];
    used[2] = true;

    insert_graph(&mut adj, n, 0, 1);
    insert_graph(&mut adj, n, 0, 2);
    insert_graph(&mut adj, n, 1, 3);
    insert_graph(&mut adj, n, 2, 3);
    insert_graph(&mut adj, n, 2, 4);
    insert_graph(&mut adj, n, 3, 4);
    insert_graph(&mut adj, n, 4, 5);
    insert_graph(&mut adj, n, 4, 6);
    insert_graph(&mut adj, n, 5, 6);

    let ap = find_articulation_points(&adj, n, &used);
    assert_eq!(ap, vec![false, true, false, true, true, false, false]);
}

#[test]
fn articulation_points_with_used_d() {
    let n = 7;
    let mut adj = fixedbitset::FixedBitSet::with_capacity(n * n);
    let mut used = vec![false; n];
    used[2] = true;
    used[4] = true;

    insert_graph(&mut adj, n, 0, 1);
    insert_graph(&mut adj, n, 0, 2);
    insert_graph(&mut adj, n, 1, 3);
    insert_graph(&mut adj, n, 2, 3);
    insert_graph(&mut adj, n, 3, 4);
    insert_graph(&mut adj, n, 3, 5);
    insert_graph(&mut adj, n, 4, 5);
    insert_graph(&mut adj, n, 4, 6);
    insert_graph(&mut adj, n, 5, 6);

    let ap = find_articulation_points(&adj, n, &used);
    assert_eq!(ap, vec![false, true, false, true, false, true, false]);
}
