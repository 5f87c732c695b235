use libspecr::gc::GcState;
use libspecr::gccompat::GcCompat;
use libspecr::list::List;

fn list_of(st: &mut GcState<Vec<u64>>, xs: &[u64]) -> List<u64> {
    let mut l = List::new(st);
    for x in xs {
        l.push(st, *x);
    }
    l
}

fn contents(st: &GcState<Vec<u64>>, l: List<u64>) -> Vec<u64> {
    let mut out = Vec::new();
    for i in 0..l.len(st) {
        out.push(l.index_at(st, i));
    }
    out
}

#[test]
fn subslice_then_mutate_is_isolated() {
    let mut st: GcState<Vec<u64>> = GcState::new();
    let mut l = list_of(&mut st, &[1, 2, 3]);
    let l2 = l.subslice_with_length(&mut st, 1, 2);
    assert_eq!(contents(&st, l2), vec![2, 3]);
    l.mutate_at(&mut st, 0, |_x: u64| (9, ()));
    assert_eq!(contents(&st, l), vec![9, 2, 3]);
    assert_eq!(contents(&st, l2), vec![2, 3]);
}

#[test]
fn copy_of_list_is_unaffected_by_push() {
    let mut st: GcState<Vec<u64>> = GcState::new();
    let mut l = list_of(&mut st, &[4, 5]);
    let copy = l;
    l.push(&mut st, 6);
    assert_eq!(contents(&st, l), vec![4, 5, 6]);
    assert_eq!(contents(&st, copy), vec![4, 5]);
}

#[test]
fn length_and_ends() {
    let mut st: GcState<Vec<u64>> = GcState::new();
    let e = List::new(&mut st);
    assert_eq!(e.len(&st), 0);
    assert!(e.is_empty(&st));
    assert_eq!(e.first(&st), None);
    assert_eq!(e.last(&st), None);
    assert_eq!(e.get(&st, 0), None);
    let l = list_of(&mut st, &[7, 8, 9]);
    assert_eq!(l.len(&st), 3);
    assert!(!l.is_empty(&st));
    assert_eq!(l.first(&st), Some(7));
    assert_eq!(l.last(&st), Some(9));
    assert_eq!(l.get(&st, 1), Some(8));
    assert_eq!(l.get(&st, 3), None);
    assert_eq!(l.index_at(&st, 2), 9);
}

#[test]
fn mutate_at_returns_output() {
    let mut st: GcState<Vec<u64>> = GcState::new();
    let mut l = list_of(&mut st, &[1, 2, 3]);
    let out = l.mutate_at(&mut st, 1, |x: u64| (x * 10, x + 100));
    assert_eq!(out, 102);
    assert_eq!(contents(&st, l), vec![1, 20, 3]);
}

#[test]
fn pop_both_ends() {
    let mut st: GcState<Vec<u64>> = GcState::new();
    let mut l = list_of(&mut st, &[1, 2, 3]);
    assert_eq!(l.pop(&mut st), Some(3));
    assert_eq!(l.pop_front(&mut st), Some(1));
    assert_eq!(contents(&st, l), vec![2]);
    assert_eq!(l.pop(&mut st), Some(2));
    assert_eq!(l.pop(&mut st), None);
    assert_eq!(l.pop_front(&mut st), None);
    assert!(l.is_empty(&st));
}

#[test]
fn reverse_and_reverse_again() {
    let mut st: GcState<Vec<u64>> = GcState::new();
    let mut l = list_of(&mut st, &[1, 2, 3, 4]);
    let orig = l;
    l.reverse(&mut st);
    assert_eq!(contents(&st, l), vec![4, 3, 2, 1]);
    assert_eq!(contents(&st, orig), vec![1, 2, 3, 4]);
    l.reverse(&mut st);
    assert_eq!(contents(&st, l), vec![1, 2, 3, 4]);
    let mut e = List::<u64>::new(&mut st);
    e.reverse(&mut st);
    assert!(e.is_empty(&st));
}

#[test]
fn write_subslice_overwrites_range() {
    let mut st: GcState<Vec<u64>> = GcState::new();
    let mut l = list_of(&mut st, &[1, 2, 3, 4, 5]);
    let src = list_of(&mut st, &[8, 9]);
    l.write_subslice_at_index(&mut st, 2, src);
    assert_eq!(contents(&st, l), vec![1, 2, 8, 9, 5]);
    assert_eq!(contents(&st, src), vec![8, 9]);
    l.write_subslice_at_index(&mut st, 3, src);
    assert_eq!(contents(&st, l), vec![1, 2, 8, 8, 9]);
}

#[test]
fn subslice_written_back_is_identity() {
    let mut st: GcState<Vec<u64>> = GcState::new();
    let mut l = list_of(&mut st, &[3, 1, 4, 1, 5, 9]);
    let part = l.subslice_with_length(&mut st, 2, 3);
    assert_eq!(contents(&st, part), vec![4, 1, 5]);
    l.write_subslice_at_index(&mut st, 2, part);
    assert_eq!(contents(&st, l), vec![3, 1, 4, 1, 5, 9]);
    let empty = l.subslice_with_length(&mut st, 6, 0);
    assert!(empty.is_empty(&st));
}

#[test]
fn chunks_reassemble() {
    let mut st: GcState<Vec<u64>> = GcState::new();
    let l = list_of(&mut st, &[1, 2, 3, 4, 5]);
    let cs = l.chunks(&mut st, 2);
    assert_eq!(cs.len(), 3);
    assert_eq!(contents(&st, cs[0]), vec![1, 2]);
    assert_eq!(contents(&st, cs[1]), vec![3, 4]);
    assert_eq!(contents(&st, cs[2]), vec![5]);
    let mut all = Vec::new();
    for c in &cs {
        all.extend(contents(&st, *c));
    }
    assert_eq!(all, vec![1, 2, 3, 4, 5]);
    let whole = l.chunks(&mut st, 10);
    assert_eq!(whole.len(), 1);
    assert_eq!(contents(&st, whole[0]), vec![1, 2, 3, 4, 5]);
    let exact = l.chunks(&mut st, 5);
    assert_eq!(exact.len(), 1);
    let ones = l.chunks(&mut st, 1);
    assert_eq!(ones.len(), 5);
    assert_eq!(contents(&st, ones[4]), vec![5]);
}

#[test]
fn chunks_of_empty_and_zero_size() {
    let mut st: GcState<Vec<u64>> = GcState::new();
    let e = List::<u64>::new(&mut st);
    assert!(e.chunks(&mut st, 3).is_empty());
    let l = list_of(&mut st, &[1, 2]);
    assert!(l.chunks(&mut st, 0).is_empty());
}

#[test]
fn sort_by_key_is_stable() {
    let mut st: GcState<Vec<u64>> = GcState::new();
    let mut l = list_of(&mut st, &[31, 12, 22, 11, 32, 21]);
    let orig = l;
    l.sort_by_key(&mut st, |x: u64| x / 10);
    assert_eq!(contents(&st, l), vec![12, 11, 22, 21, 31, 32]);
    assert_eq!(contents(&st, orig), vec![31, 12, 22, 11, 32, 21]);
    l.sort_by_key(&mut st, |x: u64| x % 10);
    assert_eq!(contents(&st, l), vec![11, 21, 31, 12, 22, 32]);
    let mut e = List::<u64>::new(&mut st);
    e.sort_by_key(&mut st, |x: u64| x);
    assert!(e.is_empty(&st));
}

#[test]
fn push_front_prepends() {
    let mut st: GcState<Vec<u64>> = GcState::new();
    let mut l = list_of(&mut st, &[2, 3]);
    let before = l;
    l.push_front(&mut st, 1);
    assert_eq!(contents(&st, l), vec![1, 2, 3]);
    assert_eq!(contents(&st, before), vec![2, 3]);
}

#[test]
fn list_equality_is_by_content() {
    let mut st: GcState<Vec<u64>> = GcState::new();
    let a = list_of(&mut st, &[1, 2, 3]);
    let b = list_of(&mut st, &[1, 2, 3]);
    let c = list_of(&mut st, &[1, 2, 4]);
    let d = list_of(&mut st, &[1, 2]);
    assert_ne!(a.len(&st), 0);
    assert!(a.content_eq(&st, b));
    assert!(!a.content_eq(&st, c));
    assert!(!a.content_eq(&st, d));
}

#[test]
fn list_reports_its_slot() {
    let mut st: GcState<Vec<u64>> = GcState::new();
    let a = list_of(&mut st, &[1]);
    let b = list_of(&mut st, &[2]);
    let mut buf: Vec<usize> = Vec::new();
    vec![a, b].points_to(&mut buf);
    assert_eq!(buf.len(), 2);
    st.mark_and_sweep(buf);
    assert_eq!(contents(&st, a), vec![1]);
    assert_eq!(contents(&st, b), vec![2]);
}
