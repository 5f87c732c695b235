use libspecr::gc::GcState;
use libspecr::gcmap::GcMap;

#[test]
fn map_insert_get_remove() {
    let mut st: GcState<Vec<(u32, u64)>> = GcState::new();
    let mut m = GcMap::new(&mut st);
    assert_eq!(m.get(&st, 1), None);
    m.insert(&mut st, 1, 10);
    m.insert(&mut st, 2, 20);
    let before = m;
    m.insert(&mut st, 1, 11);
    assert_eq!(m.get(&st, 1), Some(11));
    assert_eq!(m.get(&st, 2), Some(20));
    assert_eq!(before.get(&st, 1), Some(10));
    m.remove(&mut st, 1);
    assert!(!m.contains_key(&st, 1));
    assert!(m.contains_key(&st, 2));
    assert!(before.contains_key(&st, 1));
    m.remove(&mut st, 9);
    assert_eq!(m.get(&st, 2), Some(20));
}

#[test]
fn map_union_prefers_other() {
    let mut st: GcState<Vec<(u32, u64)>> = GcState::new();
    let mut a = GcMap::new(&mut st);
    let mut b = GcMap::new(&mut st);
    a.insert(&mut st, 1, 10);
    a.insert(&mut st, 2, 20);
    b.insert(&mut st, 2, 200);
    b.insert(&mut st, 3, 300);
    let ab = a.union(&mut st, b);
    assert_eq!(ab.get(&st, 1), Some(10));
    assert_eq!(ab.get(&st, 2), Some(200));
    assert_eq!(ab.get(&st, 3), Some(300));
    let ba = b.union(&mut st, a);
    assert_eq!(ba.get(&st, 2), Some(20));
    let aa = a.union(&mut st, a);
    assert_eq!(aa.get(&st, 1), Some(10));
    assert_eq!(aa.get(&st, 2), Some(20));
    assert_eq!(aa.get(&st, 3), None);
}

#[test]
fn map_entries_list_each_key_once() {
    let mut st: GcState<Vec<(u32, u64)>> = GcState::new();
    let mut a = GcMap::new(&mut st);
    let mut b = GcMap::new(&mut st);
    a.insert(&mut st, 1, 10);
    b.insert(&mut st, 1, 11);
    b.insert(&mut st, 2, 20);
    let ab = a.union(&mut st, b);
    let mut es = ab.entries(&st);
    es.sort();
    assert_eq!(es, vec![(1, 11), (2, 20)]);
}

#[test]
fn map_equality_is_by_content() {
    let mut st: GcState<Vec<(u32, u64)>> = GcState::new();
    let mut a = GcMap::new(&mut st);
    let mut b = GcMap::new(&mut st);
    a.insert(&mut st, 1, 10);
    a.insert(&mut st, 2, 20);
    b.insert(&mut st, 2, 20);
    b.insert(&mut st, 1, 5);
    assert!(!a.content_eq(&st, b));
    b.insert(&mut st, 1, 10);
    assert!(a.content_eq(&st, b));
    b.remove(&mut st, 2);
    assert!(!a.content_eq(&st, b));
    assert!(!b.content_eq(&st, a));
}
