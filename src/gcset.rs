//! A persistent set with value semantics, stored in an arena of vectors
//! behind a copy-on-write handle.

use vstd::laws_eq::obeys_concrete_eq;
use vstd::prelude::*;
use vstd::std_specs::cmp::PartialEqSpec;

use crate::gc::{added_slot, GcCow, GcState};
use crate::gccompat::GcCompat;

verus! {

/// A set of `T`, held in an arena of `Vec<T>` as a vector of its elements.
///
/// Copies share a slot; insertion and removal store the new elements in a
/// fresh slot and repoint only the set that changed.
pub struct GcSet<T>(GcCow<Vec<T>>);

impl<T> View for GcSet<T> {
    type V = usize;

    /// The arena index of the set's elements.
    closed spec fn view(&self) -> usize {
        self.0@
    }
}

impl<T> Clone for GcSet<T> {
    fn clone(&self) -> (r: Self)
        ensures
            r == *self,
    {
        GcSet(self.0)
    }
}

impl<T> Copy for GcSet<T> {

}

impl<T> GcCompat<Vec<T>> for GcSet<T> {
    open spec fn points_to_seq(&self) -> Seq<usize> {
        seq![self@]
    }

    fn points_to(&self, buffer: &mut Vec<usize>) {
        self.0.points_to(buffer);
    }
}

/// Inserting an element and then asking for it finds it; removing it and
/// then asking does not; union is commutative and idempotent.
pub proof fn lemma_set_laws<T>(a: Set<T>, b: Set<T>, e: T)
    ensures
        a.insert(e).contains(e),
        !a.remove(e).contains(e),
        a.union(b) == b.union(a),
        a.union(a) == a,
{
    assert(a.union(b) =~= b.union(a));
    assert(a.union(a) =~= a);
}

proof fn lemma_push_contains<T>(s: Seq<T>, e: T, y: T)
    ensures
        s.push(e).contains(y) <==> s.contains(y) || y == e,
{
    if s.push(e).contains(y) {
        let k = choose|k: int| 0 <= k < s.len() + 1 && s.push(e)[k] == y;
        if k < s.len() {
            assert(s[k] == y);
        }
    }
    if s.contains(y) {
        let k = choose|k: int| 0 <= k < s.len() && s[k] == y;
        assert(s.push(e)[k] == y);
    }
    if y == e {
        assert(s.push(e)[s.len() as int] == y);
    }
}

/// A copy of `v`.
fn copy_vec<T: Copy>(v: &Vec<T>) -> (r: Vec<T>)
    ensures
        r@ == v@,
{
    let mut w: Vec<T> = Vec::new();
    let mut i: usize = 0;
    while i < v.len()
        invariant
            i <= v.len(),
            w@ == v@.subrange(0, i as int),
        decreases v.len() - i,
    {
        w.push(v[i]);
        assert(v@.subrange(0, i + 1) =~= v@.subrange(0, i as int).push(v@[i as int]));
        i = i + 1;
    }
    assert(v@.subrange(0, v.len() as int) =~= v@);
    w
}

/// Whether `v` holds an element equal to `x`.
fn vec_contains<T: PartialEq>(v: &Vec<T>, x: &T) -> (r: bool)
    requires
        obeys_concrete_eq::<T>(),
    ensures
        r == v@.contains(*x),
{
    proof {
        reveal(obeys_concrete_eq);
    }
    let mut i: usize = 0;
    while i < v.len()
        invariant
            i <= v.len(),
            T::obeys_eq_spec(),
            forall|a: T, b: T| a.eq_spec(&b) <==> (a == b),
            forall|k: int| 0 <= k < i ==> v@[k] != *x,
        decreases v.len() - i,
    {
        if v[i] == *x {
            assert(v@[i as int] == *x);
            return true;
        }
        i = i + 1;
    }
    false
}

/// Whether every element of `a` is an element of `b`.
fn all_in<T: PartialEq>(a: &Vec<T>, b: &Vec<T>) -> (r: bool)
    requires
        obeys_concrete_eq::<T>(),
    ensures
        r == a@.to_set().subset_of(b@.to_set()),
{
    let mut i: usize = 0;
    while i < a.len()
        invariant
            i <= a.len(),
            obeys_concrete_eq::<T>(),
            forall|k: int| 0 <= k < i ==> b@.contains(a@[k]),
        decreases a.len() - i,
    {
        if !vec_contains(b, &a[i]) {
            assert(a@.to_set().contains(a@[i as int]));
            return false;
        }
        i = i + 1;
    }
    assert forall|x: T| a@.to_set().contains(x) implies b@.to_set().contains(x) by {
        let k = choose|k: int| 0 <= k < a@.len() && a@[k] == x;
    }
    true
}

impl<T: Copy + PartialEq + GcCompat<Vec<T>>> GcSet<T> {
    /// The set is live in `st`.
    pub open spec fn live(&self, st: &GcState<Vec<T>>) -> bool {
        st@.contains_key(self@)
    }

    /// The elements of the set, as stored in `st`.
    pub open spec fn elems(&self, st: &GcState<Vec<T>>) -> Set<T> {
        st@[self@]@.to_set()
    }

    /// An empty set, in a fresh slot.
    pub fn new(st: &mut GcState<Vec<T>>) -> (r: Self)
        ensures
            added_slot(old(st)@, final(st)@, r@),
            r.elems(final(st)) == Set::<T>::empty(),
    {
        let r = GcSet(GcCow::new(st, Vec::new()));
        assert(r.elems(st) =~= Set::<T>::empty());
        r
    }

    /// Whether `x` is an element.
    pub fn contains(&self, st: &GcState<Vec<T>>, x: T) -> (r: bool)
        requires
            self.live(st),
            obeys_concrete_eq::<T>(),
        ensures
            r == self.elems(st).contains(x),
    {
        vec_contains(st.read(self.0.index()), &x)
    }

    /// Adds `x`; only this set sees the change.
    pub fn insert(&mut self, st: &mut GcState<Vec<T>>, x: T)
        requires
            old(self).live(old(st)),
            obeys_concrete_eq::<T>(),
        ensures
            added_slot(old(st)@, final(st)@, final(self)@),
            final(self).elems(final(st)) == old(self).elems(old(st)).insert(x),
    {
        let v = st.read(self.0.index());
        let mut w = copy_vec(v);
        if !vec_contains(v, &x) {
            w.push(x);
        }
        let ghost old_elems = v@.to_set();
        *self = GcSet(GcCow::new(st, w));
        assert forall|y: T| self.elems(st).contains(y) == old_elems.insert(x).contains(y) by {
            lemma_push_contains(v@, x, y);
        }
        assert(self.elems(st) =~= old_elems.insert(x));
    }

    /// Removes `x`; only this set sees the change.
    pub fn remove(&mut self, st: &mut GcState<Vec<T>>, x: T)
        requires
            old(self).live(old(st)),
            obeys_concrete_eq::<T>(),
        ensures
            added_slot(old(st)@, final(st)@, final(self)@),
            final(self).elems(final(st)) == old(self).elems(old(st)).remove(x),
    {
        proof {
            reveal(obeys_concrete_eq);
        }
        let v = st.read(self.0.index());
        let mut w: Vec<T> = Vec::new();
        let mut i: usize = 0;
        while i < v.len()
            invariant
                i <= v.len(),
                obeys_concrete_eq::<T>(),
                T::obeys_eq_spec(),
                forall|a: T, b: T| a.eq_spec(&b) <==> (a == b),
                forall|y: T| w@.contains(y) <==> y != x && v@.subrange(0, i as int).contains(y),
            decreases v.len() - i,
        {
            let ghost w0 = w@;
            if !(v[i] == x) {
                w.push(v[i]);
            }
            assert forall|y: T| w@.contains(y) <==> y != x && v@.subrange(0, i + 1).contains(y) by {
                assert(v@.subrange(0, i + 1) =~= v@.subrange(0, i as int).push(v@[i as int]));
                lemma_push_contains(v@.subrange(0, i as int), v@[i as int], y);
                lemma_push_contains(w0, v@[i as int], y);
            }
            i = i + 1;
        }
        assert(v@.subrange(0, v.len() as int) =~= v@);
        let ghost old_elems = v@.to_set();
        *self = GcSet(GcCow::new(st, w));
        assert(self.elems(st) =~= old_elems.remove(x));
    }

    /// A new set holding the elements of both sets.
    pub fn union(&self, st: &mut GcState<Vec<T>>, other: GcSet<T>) -> (r: Self)
        requires
            self.live(old(st)),
            other.live(old(st)),
            obeys_concrete_eq::<T>(),
        ensures
            added_slot(old(st)@, final(st)@, r@),
            r.elems(final(st)) == self.elems(old(st)).union(other.elems(old(st))),
    {
        let a = st.read(self.0.index());
        let b = st.read(other.0.index());
        let mut w = copy_vec(a);
        let mut j: usize = 0;
        while j < b.len()
            invariant
                j <= b.len(),
                obeys_concrete_eq::<T>(),
                forall|y: T| w@.contains(y) <==> a@.contains(y) || b@.subrange(0, j as int).contains(y),
            decreases b.len() - j,
        {
            let ghost w0 = w@;
            if !vec_contains(&w, &b[j]) {
                w.push(b[j]);
            }
            assert forall|y: T| w@.contains(y) <==> a@.contains(y) || b@.subrange(0, j + 1).contains(y) by {
                assert(b@.subrange(0, j + 1) =~= b@.subrange(0, j as int).push(b@[j as int]));
                lemma_push_contains(b@.subrange(0, j as int), b@[j as int], y);
                lemma_push_contains(w0, b@[j as int], y);
            }
            j = j + 1;
        }
        assert(b@.subrange(0, b.len() as int) =~= b@);
        let ghost expected = a@.to_set().union(b@.to_set());
        let r = GcSet(GcCow::new(st, w));
        assert(r.elems(st) =~= expected);
        r
    }

    /// Whether the two sets hold the same elements.
    pub fn content_eq(&self, st: &GcState<Vec<T>>, other: GcSet<T>) -> (r: bool)
        requires
            self.live(st),
            other.live(st),
            obeys_concrete_eq::<T>(),
        ensures
            r == (self.elems(st) == other.elems(st)),
    {
        let a = st.read(self.0.index());
        let b = st.read(other.0.index());
        let r = all_in(a, b) && all_in(b, a);
        if r {
            assert(a@.to_set() =~= b@.to_set());
        }
        r
    }

    /// The elements, in no particular order.
    pub fn elements(&self, st: &GcState<Vec<T>>) -> (r: Vec<T>)
        requires
            self.live(st),
        ensures
            r@.to_set() == self.elems(st),
    {
        copy_vec(st.read(self.0.index()))
    }
}

} // verus!
