use gtrie::symmetry::{Condition, Conditions};

#[test]
fn condition_a() {
    let c1 = Condition::new(0, 1);
    let conditions = Conditions::from_vec(vec![c1]);

    let test_set = vec![
        (0, 1, 10, 20, true),  // should pass
        (0, 1, 20, 10, false), // automorphism, should fail
        (1, 2, 20, 10, true),  // irrelevant, should pass
        (1, 2, 20, 10, true),  // irrelevant, should pass
    ];
    for (d1, d2, u, v, expected) in test_set {
        assert_eq!(conditions.respects_all(d1, d2, u, v), expected);
    }
}

#[test]
fn condition_b() {
    let c1 = Condition::new(0, 1);
    let c2 = Condition::new(1, 2);
    let conditions = Conditions::from_vec(vec![c1, c2]);

    let test_set = vec![
        (0, 1, 10, 20, true),  // fixed-orbit, should pass
        (0, 1, 20, 10, false), // automorphism, should fail
        (1, 2, 30, 40, true),  // fixed-orbit, should pass
        (1, 2, 40, 30, false), // automorphism, should pass
    ];
    for (d1, d2, u, v, expected) in test_set {
        assert_eq!(conditions.respects_all(d1, d2, u, v), expected);
    }
}

#[test]
fn condition_c() {
    let c1 = Condition::new(0, 1);
    let c2 = Condition::new(2, 3);
    let conditions = Conditions::from_vec(vec![c1, c2]);

    let test_set = vec![
        (0, 1, 10, 20, true),  // fixed-orbit, should pass
        (0, 1, 20, 10, false), // automorphism, should fail
        (1, 2, 30, 40, true),  // irrelevant, should pass
        (1, 2, 40, 30, true),  // irrelevant, should pass
        (2, 3, 50, 60, true),  // fixed-orbit, should pass
        (2, 3, 60, 50, false), // automorphism, should fail
        (3, 4, 70, 80, true),  // irrelevant, should pass
        (3, 4, 80, 70, true),  // irrelevant, should pass
    ];
    for (d1, d2, u, v, expected) in test_set {
        println!("{}<{}: {}<{}: {}", d1, d2, u, v, expected);
        assert_eq!(conditions.respects_all(d1, d2, u, v), expected);
    }
}

#[test]
fn condition_accessors() {
    let c = Condition::new(1, 4);
    assert_eq!(c.min(), 1);
    assert_eq!(c.max(), 4);
    assert!(c.is_respected(1, 4, 7, 9));
    assert!(!c.is_respected(1, 4, 9, 7));
    assert!(c.is_respected(0, 4, 9, 7));
}

#[test]
fn conditions_retain_intersection() {
    let a = Conditions::from_vec(vec![
        Condition::new(0, 1),
        Condition::new(1, 2),
        Condition::new(0, 2),
    ]);
    let mut b = Conditions::from_vec(vec![
        Condition::new(1, 2),
        Condition::new(0, 1),
        Condition::new(2, 3),
    ]);
    b.retain(&a);
    assert_eq!(b.len(), 2);
    assert_eq!(b.index(0), Condition::new(1, 2));
    assert_eq!(b.index(1), Condition::new(0, 1));
    assert!(!b.contains(&Condition::new(2, 3)));
    assert!(!b.is_empty());
}
