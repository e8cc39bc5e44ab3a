use gtrie::census::{minimal_possible_index, used_respects_conditions};
use gtrie::symmetry::{Condition, Conditions};

#[test]
fn conditions_used_positive_a() {
    let used = vec![10, 20, 30];
    let c1 = Condition::new(0, 1);
    let conditions = Conditions::from_vec(vec![c1]);
    assert!(used_respects_conditions(&used, Some(&conditions)));
}

#[test]
fn conditions_used_positive_b() {
    let used = vec![10, 20, 30];
    let c1 = Condition::new(1, 2);
    let conditions = Conditions::from_vec(vec![c1]);
    assert!(used_respects_conditions(&used, Some(&conditions)));
}

#[test]
fn conditions_used_positive_c() {
    let used = vec![10, 20, 30];
    let c1 = Condition::new(0, 2);
    let conditions = Conditions::from_vec(vec![c1]);
    assert!(used_respects_conditions(&used, Some(&conditions)));
}

#[test]
fn conditions_used_positive_d() {
    let used = vec![10, 20, 30];
    let c1 = Condition::new(0, 1);
    let c2 = Condition::new(1, 2);
    let conditions = Conditions::from_vec(vec![c1, c2]);
    assert!(used_respects_conditions(&used, Some(&conditions)));
}

#[test]
fn conditions_used_negative_a() {
    let used = vec![20, 10, 30];
    let c1 = Condition::new(0, 1);
    let conditions = Conditions::from_vec(vec![c1]);
    assert!(!used_respects_conditions(&used, Some(&conditions)));
}

#[test]
fn conditions_used_negative_b() {
    let used = vec![10, 20, 15];
    let c1 = Condition::new(1, 2);
    let conditions = Conditions::from_vec(vec![c1]);
    assert!(!used_respects_conditions(&used, Some(&conditions)));
}

#[test]
fn conditions_used_negative_c() {
    let used = vec![10, 20, 5];
    let c1 = Condition::new(0, 2);
    let conditions = Conditions::from_vec(vec![c1]);
    assert!(!used_respects_conditions(&used, Some(&conditions)));
}

#[test]
fn minimal_index_a() {
    let used = vec![10];
    let c1 = Condition::new(0, 1);
    let conditions = Conditions::from_vec(vec![c1]);
    assert_eq!(minimal_possible_index(&used, Some(&conditions)), 11);
}

#[test]
fn minimal_index_b() {
    let used = vec![10, 20];
    let c1 = Condition::new(0, 1);
    let conditions = Conditions::from_vec(vec![c1]);
    assert_eq!(minimal_possible_index(&used, Some(&conditions)), 0);
}

#[test]
fn minimal_index_c() {
    let used = vec![10, 20];
    let c1 = Condition::new(0, 1);
    let c2 = Condition::new(0, 2);
    let conditions = Conditions::from_vec(vec![c1, c2]);
    assert_eq!(minimal_possible_index(&used, Some(&conditions)), 11);
}

#[test]
fn minimal_index_none() {
    let used = vec![10, 20];
    assert_eq!(minimal_possible_index(&used, None), 0);
}

#[test]
fn conditions_used_none_always_holds() {
    let used = vec![30, 20, 10];
    assert!(used_respects_conditions(&used, None));
}
