use libspecr::gc::{mark_and_sweep, GcCow, GcState};
use libspecr::gccompat::{GcCompat, GcCompatTrivial};

#[test]
fn allocate_and_read() {
    let mut st: GcState<u32> = GcState::new();
    let a = st.allocate(7);
    let b = st.allocate(8);
    assert_ne!(a, b);
    assert_eq!(*st.read(a), 7);
    assert_eq!(*st.read(b), 8);
    assert!(st.is_live(a));
    assert!(!st.is_live(b + 1));
}

#[test]
fn freed_index_is_reused() {
    let mut st: GcState<u32> = GcState::new();
    let a = st.allocate(1);
    let b = st.allocate(2);
    mark_and_sweep(&mut st, vec![b]);
    assert!(!st.is_live(a));
    let c = st.allocate(3);
    assert_eq!(c, a);
    assert_eq!(*st.read(c), 3);
    assert_eq!(*st.read(b), 2);
}

#[test]
fn handle_get_and_call_ref() {
    let mut st: GcState<u64> = GcState::new();
    let h = GcCow::new(&mut st, 41);
    assert_eq!(h.get(&st), 41);
    assert_eq!(h.call_ref_unchecked(&st, |x: &u64| *x + 1), 42);
}

#[test]
fn copy_on_write_isolation() {
    let mut st: GcState<u64> = GcState::new();
    let h = GcCow::new(&mut st, 10);
    let mut h2 = h;
    let out = h2.mutate(&mut st, |x: &u64| (*x * 3, *x));
    assert_eq!(out, 10);
    assert_eq!(h2.get(&st), 30);
    assert_eq!(h.get(&st), 10);
    assert_ne!(h.index(), h2.index());
}

#[test]
fn two_handle_read_and_mutate() {
    let mut st: GcState<u64> = GcState::new();
    let mut names: GcState<String> = GcState::new();
    let mut a = GcCow::new(&mut st, 5);
    let b = GcCow::new(&mut st, 7);
    let n = GcCow::new(&mut names, String::from("abc"));
    let a0 = a;
    assert_eq!(a.call_ref1_unchecked(&st, b, &st, |x: &u64, y: &u64| *x * *y), 35);
    assert_eq!(a.call_ref1_unchecked(&st, n, &names, |x: &u64, s: &String| *x + s.len() as u64), 8);
    let out = a.call_mut1_unchecked(&mut st, n, &names, |x: &u64, s: &String| (*x + s.len() as u64, *x));
    assert_eq!(out, 5);
    assert_eq!(a.get(&st), 8);
    assert_eq!(a0.get(&st), 5);
    assert_eq!(b.get(&st), 7);
}

/// A cell of a linked structure: references to other cells are reported,
/// the label in another arena is not.
#[derive(Clone, Copy)]
struct Node {
    next: Option<GcCow<Node>>,
    label: Option<GcCow<u32>>,
}

impl GcCompat<Node> for Node {
    fn points_to(&self, buffer: &mut Vec<usize>) {
        self.next.points_to(buffer);
    }
}

fn node(st: &mut GcState<Node>, next: Option<GcCow<Node>>) -> GcCow<Node> {
    GcCow::new(st, Node { next, label: None })
}

#[test]
fn sweep_keeps_reachable_and_frees_rest() {
    let mut st: GcState<Node> = GcState::new();
    let b = node(&mut st, None);
    let a = node(&mut st, Some(b));
    let c = node(&mut st, None);
    mark_and_sweep(&mut st, vec![a.index()]);
    assert!(st.is_live(a.index()));
    assert!(st.is_live(b.index()));
    assert!(!st.is_live(c.index()));
    assert!(b.get(&st).next.is_none());
    mark_and_sweep(&mut st, vec![]);
    assert!(!st.is_live(a.index()));
    assert!(!st.is_live(b.index()));
}

#[test]
fn sweep_follows_chains() {
    let mut st: GcState<Node> = GcState::new();
    let d = node(&mut st, None);
    let c = node(&mut st, Some(d));
    let b = node(&mut st, Some(c));
    let a = node(&mut st, Some(b));
    st.mark_and_sweep(vec![a.index(), 1000]);
    assert!(st.is_live(a.index()));
    assert!(st.is_live(b.index()));
    assert!(st.is_live(c.index()));
    assert!(st.is_live(d.index()));
    st.mark_and_sweep(vec![c.index()]);
    assert!(!st.is_live(a.index()));
    assert!(!st.is_live(b.index()));
    assert!(st.is_live(c.index()));
    assert!(st.is_live(d.index()));
}

#[test]
fn sweep_handles_cycles() {
    let mut st: GcState<Node> = GcState::new();
    let a = node(&mut st, None);
    let b = node(&mut st, Some(a));
    let mut a2 = a;
    a2.mutate(&mut st, |x: &Node| (Node { next: Some(b), label: x.label }, ()));
    st.mark_and_sweep(vec![a2.index()]);
    assert!(st.is_live(a2.index()));
    assert!(st.is_live(b.index()));
    assert!(st.is_live(a.index()));
    st.mark_and_sweep(vec![b.index()]);
    assert!(st.is_live(b.index()));
    assert!(st.is_live(a.index()));
    assert!(!st.is_live(a2.index()));
}

#[test]
fn sweep_leaves_other_arenas_alone() {
    let mut st: GcState<Node> = GcState::new();
    let mut labels: GcState<u32> = GcState::new();
    let l = GcCow::new(&mut labels, 77);
    let filler = node(&mut st, None);
    let a = GcCow::new(&mut st, Node { next: None, label: Some(l) });
    assert_eq!(filler.index(), l.index());
    st.mark_and_sweep(vec![a.index()]);
    assert!(st.is_live(a.index()));
    assert!(!st.is_live(filler.index()));
    labels.mark_and_sweep(vec![l.index()]);
    assert_eq!(l.get(&labels), 77);
    labels.mark_and_sweep(vec![]);
    assert!(!labels.is_live(l.index()));
}

#[test]
fn points_to_composites() {
    let mut st: GcState<u8> = GcState::new();
    for i in 0..10u8 {
        st.allocate(i);
    }
    let h1: GcCow<u8> = GcCow::new(&mut st, 3);
    let h2: GcCow<u8> = GcCow::new(&mut st, 9);
    let (i1, i2) = (h1.index(), h2.index());
    let mut buf: Vec<usize> = vec![1];
    GcCompat::<u8>::points_to(&(h1, h2), &mut buf);
    assert_eq!(buf, vec![1, i1, i2]);
    let mut buf: Vec<usize> = Vec::new();
    Some(h1).points_to(&mut buf);
    None::<GcCow<u8>>.points_to(&mut buf);
    assert_eq!(buf, vec![i1]);
    let mut buf: Vec<usize> = Vec::new();
    let ok: Result<GcCow<u8>, u32> = Ok(h2);
    let err: Result<GcCow<u8>, u32> = Err(4);
    ok.points_to(&mut buf);
    GcCompat::<u8>::points_to(&err, &mut buf);
    assert_eq!(buf, vec![i2]);
    let mut buf: Vec<usize> = Vec::new();
    vec![h2, h1, h2].points_to(&mut buf);
    assert_eq!(buf, vec![i2, i1, i2]);
    let mut buf: Vec<usize> = Vec::new();
    GcCompat::<u8>::points_to(&(5u32, String::from("x")), &mut buf);
    GcCompat::<u8>::points_to(&true, &mut buf);
    assert!(buf.is_empty());
}

#[test]
fn size_reports_type_size() {
    assert_eq!(7u32.size(), 4);
    assert_eq!(1u64.size(), 8);
    assert_eq!(().size(), 0);
}
