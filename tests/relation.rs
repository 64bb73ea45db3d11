use poset::{PartialOrder, PartialOrderBehaviour};
use std::cmp::Ordering;

fn divides() -> PartialOrder<i32, impl Fn(&i32, &i32) -> bool> {
    PartialOrder::new(|a: &i32, b: &i32| a % b == 0)
}

#[test]
fn divisibility_comparisons() {
    let divis = divides();
    assert!(divis.cp(&3, &6));
    assert!(divis.ip(&4, &6));
    assert!(divis.lt(&3, &15));
    assert!(divis.lt(&2, &4));
    assert!(divis.pc(&3, &5).is_none());
    assert!(divis.cp(&8, &24));
}

#[test]
fn derived_predicates_follow_ge() {
    let divis = divides();
    assert!(divis.ge(&6, &3));
    assert!(!divis.ge(&3, &6));
    assert!(divis.le(&3, &6));
    assert!(divis.gt(&6, &3));
    assert!(!divis.gt(&3, &6));
    assert!(divis.eq(&5, &5));
    assert!(!divis.eq(&5, &10));
    assert!(!divis.cp(&4, &6));
    assert!(!divis.ip(&3, &6));
}

#[test]
fn partial_comparison_outcomes() {
    let divis = divides();
    assert_eq!(divis.pc(&7, &7), Some(Ordering::Equal));
    assert_eq!(divis.pc(&12, &4), Some(Ordering::Greater));
    assert_eq!(divis.pc(&4, &12), Some(Ordering::Less));
    assert_eq!(divis.pc(&4, &6), None);
}

#[test]
fn exactly_one_relation_holds() {
    let divis = divides();
    for a in 1..=12 {
        for b in 1..=12 {
            let outcomes = [divis.lt(&a, &b), divis.eq(&a, &b), divis.gt(&a, &b), divis.ip(&a, &b)];
            assert_eq!(outcomes.iter().filter(|x| **x).count(), 1);
            assert_eq!(divis.cp(&a, &b), divis.ge(&a, &b) || divis.ge(&b, &a));
            assert_eq!(divis.ip(&a, &b), !divis.cp(&a, &b));
            let expected = if divis.eq(&a, &b) {
                Some(Ordering::Equal)
            } else if divis.gt(&a, &b) {
                Some(Ordering::Greater)
            } else if divis.lt(&a, &b) {
                Some(Ordering::Less)
            } else {
                None
            };
            assert_eq!(divis.pc(&a, &b), expected);
        }
    }
}
