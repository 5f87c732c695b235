//! The arena, copy-on-write handles into it, and the mark-and-sweep collector.

use core::marker::PhantomData;
use vstd::prelude::*;
use vstd::set_lib::*;

use crate::gccompat::GcCompat;

verus! {

/// An arena of values of type `T`: a table of slots, each empty or holding a
/// value, with freed indices kept for reuse.
///
/// The arena is an explicit context object: every allocation, read, mutation
/// and collection is made against one. Indices mean nothing to another arena.
pub struct GcState<T> {
    objs: Vec<Option<T>>,
    free: Vec<usize>,
}

impl<T> View for GcState<T> {
    type V = Map<usize, T>;

    /// The live slots: each live index with the value stored there.
    closed spec fn view(&self) -> Map<usize, T> {
        Map::new(
            |i: usize| (i as int) < self.objs@.len() && self.objs@[i as int] is Some,
            |i: usize| self.objs@[i as int]->Some_0,
        )
    }
}

impl<T> GcState<T> {
    /// An arena with no live slot.
    pub fn new() -> (r: Self)
        ensures
            r@ == Map::<usize, T>::empty(),
    {
        let r = GcState { objs: Vec::new(), free: Vec::new() };
        assert(r@ =~= Map::<usize, T>::empty());
        r
    }

    /// Stores `t` in a slot that was not live, reusing a freed index where
    /// one is at hand, and returns the index.
    pub fn allocate(&mut self, t: T) -> (r: usize)
        ensures
            !old(self)@.contains_key(r),
            final(self)@ == old(self)@.insert(r, t),
    {
        let reuse = self.free.pop();
        if let Some(i) = reuse {
            if i < self.objs.len() && self.objs[i].is_none() {
                self.objs.set(i, Some(t));
                assert(self@ =~= old(self)@.insert(i, t));
                return i;
            }
        }
        let r = self.objs.len();
        self.objs.push(Some(t));
        assert(self@ =~= old(self)@.insert(r, t));
        r
    }

    /// Whether index `i` is live.
    pub fn is_live(&self, i: usize) -> (r: bool)
        ensures
            r == self@.contains_key(i),
    {
        i < self.objs.len() && self.objs[i].is_some()
    }

    /// Borrows the value stored at a live index.
    pub fn read(&self, i: usize) -> (r: &T)
        requires
            self@.contains_key(i),
        ensures
            *r == self@[i],
    {
        self.objs[i].as_ref().unwrap()
    }
}

impl<T: GcCompat<T>> GcState<T> {
    /// Frees every slot that is not reachable from `roots` and keeps every
    /// slot that is, with its value unchanged.
    ///
    /// Only references into this arena are followed: a slot of another arena
    /// that must stay live is kept by that arena's own collection, with the
    /// handle among its roots.
    pub fn mark_and_sweep(&mut self, roots: Vec<usize>)
        ensures
            final(self)@ == old(self)@.restrict(reachable_set(old(self)@, roots@.to_set())),
    {
        let ghost m = self@;
        let ghost rs = roots@.to_set();
        let n = self.objs.len();
        let mut marks: Vec<bool> = Vec::new();
        while marks.len() < n
            invariant
                marks.len() <= n,
                forall|k: int| 0 <= k < marks.len() ==> !marks@[k],
            decreases n - marks.len(),
        {
            marks.push(false);
        }
        let mut work = roots;
        let ghost mut marked: Set<int> = Set::empty();
        proof {
            lemma_int_range(0, n as int);
            assert forall|k: int|
                0 <= k < work.len() && m.contains_key(#[trigger] work@[k]) implies reachable(
                m,
                rs,
                work@[k],
            ) by {
                assert(roots@.contains(work@[k]));
                lemma_root_reachable(m, rs, work@[k]);
            }
        }
        while work.len() > 0
            invariant
                self@ == m,
                self.objs.len() == n,
                marks.len() == n,
                set_int_range(0, n as int).finite(),
                set_int_range(0, n as int).len() == n,
                marked.finite(),
                marked.subset_of(set_int_range(0, n as int)),
                forall|i: int| 0 <= i < n ==> (marks@[i] <==> marked.contains(i)),
                forall|i: usize|
                    (i as int) < n && #[trigger] marks@[i as int] ==> m.contains_key(i) && reachable(
                        m,
                        rs,
                        i,
                    ),
                forall|k: int|
                    0 <= k < work.len() && m.contains_key(#[trigger] work@[k]) ==> reachable(
                        m,
                        rs,
                        work@[k],
                    ),
                forall|r: usize|
                    rs.contains(r) && m.contains_key(r) ==> marks@[r as int] || work@.contains(r),
                forall|i: usize, s: usize|
                    (i as int) < n && marks@[i as int] && m.contains_key(s)
                        && #[trigger] m[i].points_to_seq().contains(s) ==> marks@[s as int]
                        || work@.contains(s),
            decreases n - marked.len(), work.len(),
        {
            proof {
                lemma_len_subset(marked, set_int_range(0, n as int));
            }
            let ghost w0 = work@;
            let h = work.pop().unwrap();
            assert(w0 == work@.push(h));
            if h < n && !marks[h] {
                if let Some(v) = &self.objs[h] {
                    assert(m.contains_key(h));
                    assert(w0[w0.len() - 1] == h);
                    let ghost w1 = work@;
                    marks.set(h, true);
                    proof {
                        marked = marked.insert(h as int);
                    }
                    v.points_to(&mut work);
                    assert forall|k: int|
                        0 <= k < work.len() && m.contains_key(#[trigger] work@[k]) implies reachable(
                        m,
                        rs,
                        work@[k],
                    ) by {
                        if k < w1.len() {
                            assert(work@[k] == w0[k]);
                        } else {
                            assert(work@[k] == v.points_to_seq()[k - w1.len()]);
                            lemma_step_reachable(m, rs, h, work@[k]);
                        }
                    }
                    assert forall|x: usize| #[trigger] w0.contains(x) && x != h implies work@.contains(
                        x,
                    ) by {
                        let k = choose|k: int| 0 <= k < w0.len() && w0[k] == x;
                        assert(work@[k] == x);
                    }
                    assert forall|s: usize| #[trigger] v.points_to_seq().contains(s) implies work@.contains(
                        s,
                    ) by {
                        let k = choose|k: int| 0 <= k < v.points_to_seq().len() && v.points_to_seq()[k] == s;
                        assert(work@[w1.len() + k] == s);
                    }
                }
            }
            assert forall|x: usize| #[trigger] w0.contains(x) && x != h implies work@.contains(x) by {
                let k = choose|k: int| 0 <= k < w0.len() && w0[k] == x;
                assert(work@[k] == x);
            }
            proof {
                lemma_len_subset(marked, set_int_range(0, n as int));
            }
        }
        let ghost k_set = Set::new(|i: usize| (i as int) < n && marks@[i as int]);
        let ghost old_objs = self.objs@;
        let mut i: usize = 0;
        while i < n
            invariant
                i <= n,
                self.objs.len() == n,
                marks.len() == n,
                old_objs.len() == n,
                forall|k: int| 0 <= k < i ==> self.objs@[k] == (if marks@[k] { old_objs[k] } else { None }),
                forall|k: int| i <= k < n ==> self.objs@[k] == old_objs[k],
            decreases n - i,
        {
            if !marks[i] && self.objs[i].is_some() {
                self.objs.set(i, None);
                self.free.push(i);
            }
            i = i + 1;
        }
        proof {
            let target = m.restrict(reachable_set(m, rs));
            assert forall|x: usize| #[trigger] reachable(m, rs, x) implies k_set.contains(x) by {
                lemma_closed_holds_reachable(m, rs, k_set, x);
            }
            assert(self@ =~= target);
        }
    }
}

/// Frees every slot of `st` that is not reachable from `roots`; see
/// `GcState::mark_and_sweep`.
pub fn mark_and_sweep<T: GcCompat<T>>(st: &mut GcState<T>, roots: Vec<usize>)
    ensures
        final(st)@ == old(st)@.restrict(reachable_set(old(st)@, roots@.to_set())),
{
    st.mark_and_sweep(roots);
}

/// A copyable handle to one slot of an arena of `T`.
///
/// A handle reports its slot only to the collector of its own arena (it is
/// `GcCompat<T>` and nothing else), so a value never has an index of another
/// arena followed as one of its own.
///
/// Mutation through a handle is copy-on-write: it stores the new value in a
/// fresh slot and repoints only the handle that was mutated, so every other
/// copy keeps observing the old slot.
pub struct GcCow<T> {
    idx: usize,
    phantom: PhantomData<T>,
}

impl<T> View for GcCow<T> {
    type V = usize;

    /// The index of the slot that the handle addresses.
    closed spec fn view(&self) -> usize {
        self.idx
    }
}

impl<T> Clone for GcCow<T> {
    fn clone(&self) -> (r: Self)
        ensures
            r == *self,
    {
        GcCow { idx: self.idx, phantom: PhantomData }
    }
}

impl<T> Copy for GcCow<T> {

}

impl<T> GcCompat<T> for GcCow<T> {
    open spec fn points_to_seq(&self) -> Seq<usize> {
        seq![self@]
    }

    fn points_to(&self, buffer: &mut Vec<usize>) {
        buffer.push(self.idx);
    }
}

impl<T> GcCow<T> {
    /// The index of the slot that the handle addresses.
    pub fn index(&self) -> (r: usize)
        ensures
            r == self@,
    {
        self.idx
    }

    /// Stores `t` in a fresh slot of `st` and returns its handle.
    pub fn new(st: &mut GcState<T>, t: T) -> (r: Self)
        where
            T: GcCompat<T>,
        ensures
            !old(st)@.contains_key(r@),
            final(st)@ == old(st)@.insert(r@, t),
    {
        let idx = st.allocate(t);
        GcCow { idx, phantom: PhantomData }
    }

    /// A clone of the value that the handle addresses.
    pub fn get(self, st: &GcState<T>) -> (r: T)
        where
            T: Clone,
        requires
            st@.contains_key(self@),
        ensures
            cloned(st@[self@], r),
    {
        st.read(self.idx).clone()
    }

    /// Calls `f` on a borrow of the value that the handle addresses.
    pub fn call_ref_unchecked<O>(self, st: &GcState<T>, f: impl FnOnce(&T) -> O) -> (r: O)
        requires
            st@.contains_key(self@),
            f.requires((&st@[self@],)),
        ensures
            f.ensures((&st@[self@],), r),
    {
        f(st.read(self.idx))
    }

    /// Calls `f` on the current value; `f` returns the new value and an
    /// output. The new value goes to a fresh slot, to which only this handle
    /// is repointed; the old slot keeps the old value.
    pub fn mutate<O>(&mut self, st: &mut GcState<T>, f: impl FnOnce(&T) -> (T, O)) -> (r: O)
        where
            T: GcCompat<T>,
        requires
            old(st)@.contains_key(old(self)@),
            f.requires((&old(st)@[old(self)@],)),
        ensures
            added_slot(old(st)@, final(st)@, final(self)@),
            forall|i: usize| #[trigger] old(st)@.contains_key(i) ==> final(st)@.contains_key(i) && final(st)@[i] == old(st)@[i],
            f.ensures((&old(st)@[old(self)@],), (final(st)@[final(self)@], r)),
    {
        let (val, out) = f(st.read(self.idx));
        *self = GcCow::new(st, val);
        out
    }

    /// Calls `f` on borrows of the values that this handle and `arg`, a
    /// handle into the arena `arg_st`, address.
    pub fn call_ref1_unchecked<U, O>(
        self,
        st: &GcState<T>,
        arg: GcCow<U>,
        arg_st: &GcState<U>,
        f: impl FnOnce(&T, &U) -> O,
    ) -> (r: O)
        requires
            st@.contains_key(self@),
            arg_st@.contains_key(arg@),
            f.requires((&st@[self@], &arg_st@[arg@])),
        ensures
            f.ensures((&st@[self@], &arg_st@[arg@]), r),
    {
        f(st.read(self.idx), arg_st.read(arg.idx))
    }

    /// Like `mutate`, with a borrow of the value that `arg`, a handle into
    /// the arena `arg_st`, addresses as a second argument of `f`.
    pub fn call_mut1_unchecked<U, O>(
        &mut self,
        st: &mut GcState<T>,
        arg: GcCow<U>,
        arg_st: &GcState<U>,
        f: impl FnOnce(&T, &U) -> (T, O),
    ) -> (r: O)
        where
            T: GcCompat<T>,
        requires
            old(st)@.contains_key(old(self)@),
            arg_st@.contains_key(arg@),
            f.requires((&old(st)@[old(self)@], &arg_st@[arg@])),
        ensures
            added_slot(old(st)@, final(st)@, final(self)@),
            forall|i: usize| #[trigger] old(st)@.contains_key(i) ==> final(st)@.contains_key(i) && final(st)@[i] == old(st)@[i],
            f.ensures((&old(st)@[old(self)@], &arg_st@[arg@]), (final(st)@[final(self)@], r)),
    {
        let (val, out) = f(st.read(self.idx), arg_st.read(arg.idx));
        *self = GcCow::new(st, val);
        out
    }
}

/// `after` is `before` with one more slot, at index `i`, which was not live.
pub open spec fn added_slot<T>(before: Map<usize, T>, after: Map<usize, T>, i: usize) -> bool {
    &&& !before.contains_key(i)
    &&& after == before.insert(i, after[i])
}

/// Copy-on-write isolation: where a copy of a handle is repointed to a fresh
/// slot, every handle that was live before, the original among them, still
/// addresses the value it addressed.
pub proof fn lemma_cow_isolation<T>(before: Map<usize, T>, after: Map<usize, T>, h: usize, fresh: usize)
    requires
        before.contains_key(h),
        added_slot(before, after, fresh),
    ensures
        after.contains_key(h),
        after[h] == before[h],
{
}

/// `p` is a chain of live indices that starts at a root and follows, at each
/// step, an index that the previous slot's value reports.
pub open spec fn is_path<T: GcCompat<T>>(m: Map<usize, T>, roots: Set<usize>, p: Seq<usize>) -> bool {
    &&& p.len() > 0
    &&& roots.contains(p[0])
    &&& forall|k: int| 0 <= k < p.len() ==> m.contains_key(#[trigger] p[k])
    &&& forall|k: int, j: int|
        0 <= k && j == k + 1 && j < p.len() ==> m[#[trigger] p[k]].points_to_seq().contains(
            #[trigger] p[j],
        )
}

/// `x` is reached from `roots` through the values stored in `m`.
pub open spec fn reachable<T: GcCompat<T>>(m: Map<usize, T>, roots: Set<usize>, x: usize) -> bool {
    exists|p: Seq<usize>| #[trigger] is_path(m, roots, p) && p.last() == x
}

/// All indices reached from `roots` through the values stored in `m`.
pub open spec fn reachable_set<T: GcCompat<T>>(m: Map<usize, T>, roots: Set<usize>) -> Set<usize> {
    Set::new(|x: usize| reachable(m, roots, x))
}

proof fn lemma_root_reachable<T: GcCompat<T>>(m: Map<usize, T>, roots: Set<usize>, r: usize)
    requires
        roots.contains(r),
        m.contains_key(r),
    ensures
        reachable(m, roots, r),
{
    let p = seq![r];
    assert(is_path(m, roots, p));
}

proof fn lemma_step_reachable<T: GcCompat<T>>(m: Map<usize, T>, roots: Set<usize>, i: usize, s: usize)
    requires
        reachable(m, roots, i),
        m.contains_key(s),
        m[i].points_to_seq().contains(s),
    ensures
        reachable(m, roots, s),
{
    let p = choose|p: Seq<usize>| #[trigger] is_path(m, roots, p) && p.last() == i;
    let q = p.push(s);
    assert forall|k: int| 0 <= k < q.len() implies m.contains_key(#[trigger] q[k]) by {
        if k < p.len() {
            assert(q[k] == p[k]);
        }
    }
    assert forall|k: int, j: int|
        0 <= k && j == k + 1 && j < q.len() implies m[#[trigger] q[k]].points_to_seq().contains(
        #[trigger] q[j],
    ) by {
        if j < p.len() {
            assert(q[k] == p[k] && q[j] == p[j]);
        } else {
            assert(q[k] == i);
        }
    }
    assert(is_path(m, roots, q));
    assert(q.last() == s);
}

proof fn lemma_path_closed<T: GcCompat<T>>(
    m: Map<usize, T>,
    roots: Set<usize>,
    k: Set<usize>,
    p: Seq<usize>,
    j: int,
)
    requires
        forall|r: usize| roots.contains(r) && m.contains_key(r) ==> k.contains(r),
        forall|i: usize, s: usize|
            k.contains(i) && m.contains_key(i) && m.contains_key(s)
                && #[trigger] m[i].points_to_seq().contains(s) ==> #[trigger] k.contains(s),
        is_path(m, roots, p),
        0 <= j < p.len(),
    ensures
        k.contains(p[j]),
    decreases j,
{
    assert(m.contains_key(p[j]));
    if j > 0 {
        lemma_path_closed(m, roots, k, p, j - 1);
        assert(m.contains_key(p[j - 1]));
        assert(m[p[j - 1]].points_to_seq().contains(p[j]));
    }
}

/// A set that holds the live roots and is closed under the reported
/// references holds everything reachable.
proof fn lemma_closed_holds_reachable<T: GcCompat<T>>(
    m: Map<usize, T>,
    roots: Set<usize>,
    k: Set<usize>,
    x: usize,
)
    requires
        forall|r: usize| roots.contains(r) && m.contains_key(r) ==> k.contains(r),
        forall|i: usize, s: usize|
            k.contains(i) && m.contains_key(i) && m.contains_key(s)
                && #[trigger] m[i].points_to_seq().contains(s) ==> #[trigger] k.contains(s),
        reachable(m, roots, x),
    ensures
        k.contains(x),
{
    let p = choose|p: Seq<usize>| #[trigger] is_path(m, roots, p) && p.last() == x;
    lemma_path_closed(m, roots, k, p, p.len() - 1);
}

} // verus!
