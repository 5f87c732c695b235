use libspecr::gc::GcState;
use libspecr::gcset::GcSet;

fn sorted(mut v: Vec<u32>) -> Vec<u32> {
    v.sort();
    v
}

#[test]
fn insert_then_contains() {
    let mut st: GcState<Vec<u32>> = GcState::new();
    let mut a = GcSet::new(&mut st);
    assert!(!a.contains(&st, 5));
    a.insert(&mut st, 5);
    assert!(a.contains(&st, 5));
    a.insert(&mut st, 5);
    assert_eq!(a.elements(&st), vec![5]);
}

#[test]
fn remove_then_not_contains() {
    let mut st: GcState<Vec<u32>> = GcState::new();
    let mut a = GcSet::new(&mut st);
    a.insert(&mut st, 1);
    a.insert(&mut st, 2);
    let before = a;
    a.remove(&mut st, 1);
    assert!(!a.contains(&st, 1));
    assert!(a.contains(&st, 2));
    assert!(before.contains(&st, 1));
    a.remove(&mut st, 7);
    assert_eq!(a.elements(&st), vec![2]);
}

#[test]
fn union_commutes_and_is_idempotent() {
    let mut st: GcState<Vec<u32>> = GcState::new();
    let mut a = GcSet::new(&mut st);
    let mut b = GcSet::new(&mut st);
    a.insert(&mut st, 1);
    a.insert(&mut st, 2);
    b.insert(&mut st, 2);
    b.insert(&mut st, 3);
    let ab = a.union(&mut st, b);
    let ba = b.union(&mut st, a);
    assert_eq!(sorted(ab.elements(&st)), vec![1, 2, 3]);
    assert_eq!(sorted(ba.elements(&st)), vec![1, 2, 3]);
    let aa = a.union(&mut st, a);
    assert_eq!(sorted(aa.elements(&st)), vec![1, 2]);
}

#[test]
fn set_equality_is_by_content() {
    let mut st: GcState<Vec<u32>> = GcState::new();
    let mut a = GcSet::new(&mut st);
    let mut b = GcSet::new(&mut st);
    a.insert(&mut st, 1);
    a.insert(&mut st, 2);
    b.insert(&mut st, 2);
    b.insert(&mut st, 1);
    assert!(a.content_eq(&st, b));
    b.insert(&mut st, 3);
    assert!(!a.content_eq(&st, b));
    assert!(!b.content_eq(&st, a));
}
