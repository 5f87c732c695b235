//! A persistent sequence with value semantics, stored in an arena of vectors
//! behind a copy-on-write handle.

use vstd::laws_eq::obeys_concrete_eq;
use vstd::prelude::*;
use vstd::std_specs::cmp::PartialEqSpec;

use crate::gc::{added_slot, GcCow, GcState};
use crate::gccompat::GcCompat;

verus! {

/// An ordered sequence of `T`, held in an arena of `Vec<T>`.
///
/// Copies of a `List` share a slot; every change stores the new contents in
/// a fresh slot and repoints only the list that changed.
pub struct List<T>(GcCow<Vec<T>>);

impl<T> View for List<T> {
    type V = usize;

    /// The arena index of the list's contents.
    closed spec fn view(&self) -> usize {
        self.0@
    }
}

impl<T> Clone for List<T> {
    fn clone(&self) -> (r: Self)
        ensures
            r == *self,
    {
        List(self.0)
    }
}

impl<T> Copy for List<T> {

}

impl<T> GcCompat<Vec<T>> for List<T> {
    open spec fn points_to_seq(&self) -> Seq<usize> {
        seq![self@]
    }

    fn points_to(&self, buffer: &mut Vec<usize>) {
        self.0.points_to(buffer);
    }
}

/// `s` in reverse order.
pub open spec fn reversed<T>(s: Seq<T>) -> Seq<T> {
    Seq::new(s.len(), |i: int| s[s.len() - 1 - i])
}

/// `s` with `src` written over it from index `start` on.
pub open spec fn overwritten<T>(s: Seq<T>, start: int, src: Seq<T>) -> Seq<T> {
    s.subrange(0, start) + src + s.subrange(start + src.len(), s.len() as int)
}

/// Reversing twice gives the sequence back.
pub proof fn lemma_reverse_involution<T>(s: Seq<T>)
    ensures
        reversed(reversed(s)) == s,
{
    assert(reversed(reversed(s)) =~= s);
}

/// Writing a subslice back where it was taken from gives the sequence back.
pub proof fn lemma_subslice_write_back<T>(s: Seq<T>, start: int, length: int)
    requires
        0 <= start,
        0 <= length,
        start + length <= s.len(),
    ensures
        overwritten(s, start, s.subrange(start, start + length)) == s,
{
    assert(overwritten(s, start, s.subrange(start, start + length)) =~= s);
}

/// `s` cut, from the front, into pieces of `size` elements; the last piece
/// holds what remains. No piece when `s` is empty or `size` is zero.
pub open spec fn chunked<T>(s: Seq<T>, size: nat) -> Seq<Seq<T>>
    decreases s.len(),
{
    if size == 0 || s.len() == 0 {
        Seq::empty()
    } else if s.len() <= size {
        seq![s]
    } else {
        seq![s.subrange(0, size as int)] + chunked(s.subrange(size as int, s.len() as int), size)
    }
}

/// Concatenating the chunks of a sequence, in order, gives the sequence back,
/// for every chunk size of at least one.
pub proof fn lemma_chunks_concat<T>(s: Seq<T>, size: nat)
    requires
        size >= 1,
    ensures
        chunked(s, size).flatten() == s,
    decreases s.len(),
{
    if s.len() == 0 {
        assert(chunked(s, size).flatten() =~= s);
    } else if s.len() <= size {
        let c = chunked(s, size);
        assert(c.drop_first() =~= Seq::<Seq<T>>::empty());
        assert(c.first() == s);
        assert(c.flatten() == c.first() + c.drop_first().flatten());
        assert(c.flatten() =~= s);
    } else {
        let rest = s.subrange(size as int, s.len() as int);
        lemma_chunks_concat(rest, size);
        let c = chunked(s, size);
        assert(c.drop_first() =~= chunked(rest, size));
        assert(c.first() == s.subrange(0, size as int));
        assert(c.flatten() == c.first() + c.drop_first().flatten());
        assert(c.flatten() =~= s);
    }
}

/// The key that `f` gives `x`.
pub open spec fn key_of<T, F: Fn(T) -> u64>(f: F, x: T) -> u64 {
    choose|k: u64| f.ensures((x,), k)
}

/// The keys that `f` gives, as a spec function.
pub open spec fn key_fn<T, F: Fn(T) -> u64>(f: F) -> spec_fn(T) -> u64 {
    |x: T| key_of(f, x)
}

/// `f` can be called on every element and gives each element one key.
pub open spec fn is_key_extractor<T, F: Fn(T) -> u64>(f: F) -> bool {
    &&& forall|x: T| #[trigger] f.requires((x,))
    &&& forall|x: T, a: u64, b: u64| f.ensures((x,), a) && f.ensures((x,), b) ==> a == b
}

/// The elements whose key is `k`.
pub open spec fn has_key<T>(key: spec_fn(T) -> u64, k: u64) -> spec_fn(T) -> bool {
    |y: T| key(y) == k
}

/// `o` is ordered by key and holds, for each key, the elements of `s` with
/// that key in the order they have in `s`: `o` is `s` sorted stably.
pub open spec fn stably_sorted<T>(o: Seq<T>, s: Seq<T>, key: spec_fn(T) -> u64) -> bool {
    &&& forall|i: int, j: int| 0 <= i <= j < o.len() ==> key(o[i]) <= key(o[j])
    &&& forall|k: u64| #[trigger] o.filter(has_key(key, k)) == s.filter(has_key(key, k))
}

proof fn lemma_insert_filter<T>(o: Seq<T>, p: int, x: T, key: spec_fn(T) -> u64, k: u64)
    requires
        0 <= p <= o.len(),
        forall|j: int| p <= j < o.len() ==> key(o[j]) > key(x),
    ensures
        o.insert(p, x).filter(has_key(key, k)) == (if key(x) == k {
            o.filter(has_key(key, k)).push(x)
        } else {
            o.filter(has_key(key, k))
        }),
{
    let pred = has_key(key, k);
    let head = o.subrange(0, p);
    let tail = o.subrange(p, o.len() as int);
    assert(o.insert(p, x) =~= head + seq![x] + tail);
    assert(o =~= head + tail);
    Seq::filter_distributes_over_add(head + seq![x], tail, pred);
    Seq::filter_distributes_over_add(head, seq![x], pred);
    Seq::filter_distributes_over_add(head, tail, pred);
    reveal_with_fuel(Seq::filter, 2);
    assert(seq![x].drop_last() =~= Seq::<T>::empty());
    if key(x) == k {
        assert(tail.all(|y: T| !pred(y)));
        tail.lemma_all_neg_filter_empty(pred);
        assert(tail.filter(pred) =~= Seq::<T>::empty());
        assert(head.filter(pred) + tail.filter(pred) =~= head.filter(pred));
        assert(head.filter(pred) + seq![x].filter(pred) =~= head.filter(pred).push(x));
    } else {
        assert(seq![x].filter(pred) =~= Seq::<T>::empty());
        assert(head.filter(pred) + seq![x].filter(pred) =~= head.filter(pred));
    }
}

proof fn lemma_push_filter<T>(s: Seq<T>, x: T, pred: spec_fn(T) -> bool)
    ensures
        s.push(x).filter(pred) == (if pred(x) { s.filter(pred).push(x) } else { s.filter(pred) }),
{
    reveal_with_fuel(Seq::filter, 1);
    assert(s.push(x).drop_last() =~= s);
}

/// The chunks of a sequence of length `n` number `ceil(n / size)`; chunk `k`
/// holds the elements from `k * size` up to `(k + 1) * size` or `n`,
/// whichever is smaller.
pub proof fn lemma_chunks_shape<T>(s: Seq<T>, size: nat)
    requires
        size >= 1,
    ensures
        chunked(s, size).len() == (s.len() + size - 1) / (size as int),
        forall|k: int|
            0 <= k < chunked(s, size).len() ==> #[trigger] chunked(s, size)[k] == s.subrange(
                k * size,
                if (k + 1) * size <= s.len() {
                    (k + 1) * size
                } else {
                    s.len() as int
                },
            ),
    decreases s.len(),
{
    let n = s.len() as int;
    let z = size as int;
    if n == 0 {
        assert((z - 1) / z == 0) by (nonlinear_arith)
            requires
                z >= 1,
        ;
    } else if n <= z {
        assert((n + z - 1) / z == 1) by (nonlinear_arith)
            requires
                z >= 1,
                1 <= n <= z,
        ;
        assert forall|k: int| 0 <= k < chunked(s, size).len() implies #[trigger] chunked(s, size)[k]
            == s.subrange(
            k * size,
            if (k + 1) * size <= s.len() {
                (k + 1) * size
            } else {
                s.len() as int
            },
        ) by {
            assert(k == 0);
            assert(s.subrange(0, n) =~= s);
        }
    } else {
        let rest = s.subrange(z, n);
        lemma_chunks_shape(rest, size);
        assert((n + z - 1) / z == (n - z + z - 1) / z + 1) by (nonlinear_arith)
            requires
                z >= 1,
                n > z,
        ;
        let c = chunked(s, size);
        assert forall|k: int| 0 <= k < c.len() implies #[trigger] c[k] == s.subrange(
            k * size,
            if (k + 1) * size <= s.len() {
                (k + 1) * size
            } else {
                s.len() as int
            },
        ) by {
            assert(c == seq![s.subrange(0, z)] + chunked(rest, size));
            if k == 0 {
                assert(0 * z == 0 && 1 * z == z) by (nonlinear_arith);
                assert(c[0] == s.subrange(0, z));
            } else {
                assert(c[k] == chunked(rest, size)[k - 1]);
                assert((k - 1) * z + z == k * z) by (nonlinear_arith);
                assert(k * z + z == (k + 1) * z) by (nonlinear_arith);
                assert(k * z >= z) by (nonlinear_arith)
                    requires
                        k >= 1,
                        z >= 1,
                ;
                let lo = k * z;
                let hi = if (k + 1) * z <= n {
                    (k + 1) * z
                } else {
                    n
                };
                let hi1 = if k * z <= n - z {
                    k * z
                } else {
                    n - z
                };
                assert(hi1 + z == hi);
                let m = n - z;
                let j = k - 1;
                assert(j < (m + z - 1) / z);
                assert(0 <= j * z < m) by (nonlinear_arith)
                    requires
                        0 <= j < (m + z - 1) / z,
                        z >= 1,
                        m >= 1,
                ;
                assert(c[k] == rest.subrange((k - 1) * z, hi1));
                assert(c[k] =~= s.subrange(lo, hi));
            }
        }
    }
}

/// Appends `v[lo..hi]` to `out`.
fn extend_from_range<T: Copy>(out: &mut Vec<T>, v: &Vec<T>, lo: usize, hi: usize)
    requires
        lo <= hi <= v.len(),
    ensures
        final(out)@ == old(out)@ + v@.subrange(lo as int, hi as int),
{
    let ghost start = out@;
    let mut i = lo;
    while i < hi
        invariant
            lo <= i <= hi,
            hi <= v.len(),
            out@ == start + v@.subrange(lo as int, i as int),
        decreases hi - i,
    {
        out.push(v[i]);
        assert(v@.subrange(lo as int, i + 1) =~= v@.subrange(lo as int, i as int).push(v@[i as int]));
        i = i + 1;
    }
}

impl<T: Copy + GcCompat<Vec<T>>> List<T> {
    /// The list is live in `st`.
    pub open spec fn live(&self, st: &GcState<Vec<T>>) -> bool {
        st@.contains_key(self@)
    }

    /// The elements of the list, as stored in `st`.
    pub open spec fn seq(&self, st: &GcState<Vec<T>>) -> Seq<T> {
        st@[self@]@
    }

    /// Stores `v` in a fresh slot of `st`.
    fn store(st: &mut GcState<Vec<T>>, v: Vec<T>) -> (r: Self)
        ensures
            added_slot(old(st)@, final(st)@, r@),
            r.seq(final(st)) == v@,
    {
        List(GcCow::new(st, v))
    }

    /// Borrows the vector that holds the list's elements.
    fn vec<'a>(&self, st: &'a GcState<Vec<T>>) -> (r: &'a Vec<T>)
        requires
            self.live(st),
        ensures
            r@ == self.seq(st),
    {
        st.read(self.0.index())
    }

    /// An empty list, in a fresh slot.
    pub fn new(st: &mut GcState<Vec<T>>) -> (r: Self)
        ensures
            added_slot(old(st)@, final(st)@, r@),
            r.seq(final(st)) == Seq::<T>::empty(),
    {
        Self::store(st, Vec::new())
    }

    /// The number of elements.
    pub fn len(&self, st: &GcState<Vec<T>>) -> (r: usize)
        requires
            self.live(st),
        ensures
            r == self.seq(st).len(),
    {
        self.vec(st).len()
    }

    /// Whether the list has no element.
    pub fn is_empty(&self, st: &GcState<Vec<T>>) -> (r: bool)
        requires
            self.live(st),
        ensures
            r == (self.seq(st).len() == 0),
    {
        self.len(st) == 0
    }

    /// The first element, if any.
    pub fn first(&self, st: &GcState<Vec<T>>) -> (r: Option<T>)
        requires
            self.live(st),
        ensures
            r == (if self.seq(st).len() == 0 { None } else { Some(self.seq(st)[0]) }),
    {
        let v = self.vec(st);
        if v.len() == 0 {
            None
        } else {
            Some(v[0])
        }
    }

    /// The last element, if any.
    pub fn last(&self, st: &GcState<Vec<T>>) -> (r: Option<T>)
        requires
            self.live(st),
        ensures
            r == (if self.seq(st).len() == 0 { None } else { Some(self.seq(st).last()) }),
    {
        let v = self.vec(st);
        if v.len() == 0 {
            None
        } else {
            Some(v[v.len() - 1])
        }
    }

    /// The element at index `i`, or `None` where `i` is out of range.
    pub fn get(&self, st: &GcState<Vec<T>>, i: usize) -> (r: Option<T>)
        requires
            self.live(st),
        ensures
            r == (if i < self.seq(st).len() { Some(self.seq(st)[i as int]) } else { None }),
    {
        let v = self.vec(st);
        if i < v.len() {
            Some(v[i])
        } else {
            None
        }
    }

    /// The element at index `i`, which must be in range.
    pub fn index_at(&self, st: &GcState<Vec<T>>, i: usize) -> (r: T)
        requires
            self.live(st),
            i < self.seq(st).len(),
        ensures
            r == self.seq(st)[i as int],
    {
        self.get(st, i).unwrap()
    }

    /// Calls `f` on the element at index `i`, which must be in range; `f`
    /// returns the new element and an output. Only this list sees the change.
    pub fn mutate_at<O>(&mut self, st: &mut GcState<Vec<T>>, i: usize, f: impl FnOnce(T) -> (T, O)) -> (r: O)
        requires
            old(self).live(old(st)),
            i < old(self).seq(old(st)).len(),
            f.requires((old(self).seq(old(st))[i as int],)),
        ensures
            added_slot(old(st)@, final(st)@, final(self)@),
            final(self).seq(final(st)) == old(self).seq(old(st)).update(
                i as int,
                final(self).seq(final(st))[i as int],
            ),
            f.ensures(
                (old(self).seq(old(st))[i as int],),
                (final(self).seq(final(st))[i as int], r),
            ),
    {
        let v = self.vec(st);
        let (x, out) = f(v[i]);
        let mut w: Vec<T> = Vec::new();
        extend_from_range(&mut w, v, 0, v.len());
        w.set(i, x);
        *self = Self::store(st, w);
        out
    }

    /// Appends `t`.
    pub fn push(&mut self, st: &mut GcState<Vec<T>>, t: T)
        requires
            old(self).live(old(st)),
        ensures
            added_slot(old(st)@, final(st)@, final(self)@),
            final(self).seq(final(st)) == old(self).seq(old(st)).push(t),
    {
        let v = self.vec(st);
        let mut w: Vec<T> = Vec::new();
        extend_from_range(&mut w, v, 0, v.len());
        w.push(t);
        *self = Self::store(st, w);
    }

    /// Prepends `t`.
    pub fn push_front(&mut self, st: &mut GcState<Vec<T>>, t: T)
        requires
            old(self).live(old(st)),
        ensures
            added_slot(old(st)@, final(st)@, final(self)@),
            final(self).seq(final(st)) == seq![t] + old(self).seq(old(st)),
    {
        let v = self.vec(st);
        let mut w: Vec<T> = Vec::new();
        w.push(t);
        extend_from_range(&mut w, v, 0, v.len());
        assert(v@.subrange(0, v@.len() as int) =~= v@);
        *self = Self::store(st, w);
    }

    /// Whether the two lists hold the same elements in the same order.
    pub fn content_eq(&self, st: &GcState<Vec<T>>, other: List<T>) -> (r: bool)
        where
            T: PartialEq,
        requires
            self.live(st),
            other.live(st),
            obeys_concrete_eq::<T>(),
        ensures
            r == (self.seq(st) == other.seq(st)),
    {
        proof {
            reveal(obeys_concrete_eq);
        }
        let a = self.vec(st);
        let b = other.vec(st);
        if a.len() != b.len() {
            assert(self.seq(st) != other.seq(st));
            return false;
        }
        let mut i: usize = 0;
        while i < a.len()
            invariant
                i <= a.len(),
                a.len() == b.len(),
                a@ == self.seq(st),
                b@ == other.seq(st),
                T::obeys_eq_spec(),
                forall|x: T, y: T| x.eq_spec(&y) <==> (x == y),
                forall|k: int| 0 <= k < i ==> a@[k] == b@[k],
            decreases a.len() - i,
        {
            if !(a[i] == b[i]) {
                assert(a@[i as int] != b@[i as int]);
                assert(self.seq(st)[i as int] != other.seq(st)[i as int]);
                return false;
            }
            i = i + 1;
        }
        assert(a@ =~= b@);
        true
    }

    /// Removes and returns the last element; `None` where the list is empty.
    pub fn pop(&mut self, st: &mut GcState<Vec<T>>) -> (r: Option<T>)
        requires
            old(self).live(old(st)),
        ensures
            added_slot(old(st)@, final(st)@, final(self)@),
            old(self).seq(old(st)).len() == 0 ==> r is None && final(self).seq(final(st)) == old(
                self,
            ).seq(old(st)),
            old(self).seq(old(st)).len() > 0 ==> r == Some(old(self).seq(old(st)).last())
                && final(self).seq(final(st)) == old(self).seq(old(st)).drop_last(),
    {
        let v = self.vec(st);
        let n = v.len();
        let mut w: Vec<T> = Vec::new();
        extend_from_range(&mut w, v, 0, n);
        let r = w.pop();
        *self = Self::store(st, w);
        r
    }

    /// Removes and returns the first element; `None` where the list is empty.
    pub fn pop_front(&mut self, st: &mut GcState<Vec<T>>) -> (r: Option<T>)
        requires
            old(self).live(old(st)),
        ensures
            added_slot(old(st)@, final(st)@, final(self)@),
            old(self).seq(old(st)).len() == 0 ==> r is None && final(self).seq(final(st)) == old(
                self,
            ).seq(old(st)),
            old(self).seq(old(st)).len() > 0 ==> r == Some(old(self).seq(old(st))[0])
                && final(self).seq(final(st)) == old(self).seq(old(st)).subrange(
                1,
                old(self).seq(old(st)).len() as int,
            ),
    {
        let v = self.vec(st);
        let n = v.len();
        let mut w: Vec<T> = Vec::new();
        let r = if n == 0 {
            None
        } else {
            extend_from_range(&mut w, v, 1, n);
            Some(v[0])
        };
        if n == 0 {
            assert(w@ =~= v@);
        }
        *self = Self::store(st, w);
        r
    }

    /// The list cut, from the front, into new lists of `chunk_size`
    /// elements, the last one holding what remains; none where the list is
    /// empty or `chunk_size` is zero. Every slot that was live before keeps
    /// its value.
    pub fn chunks(&self, st: &mut GcState<Vec<T>>, chunk_size: usize) -> (r: Vec<List<T>>)
        requires
            self.live(old(st)),
        ensures
            r@.len() == chunked(self.seq(old(st)), chunk_size as nat).len(),
            chunk_size > 0 ==> chunked(self.seq(old(st)), chunk_size as nat).flatten() == self.seq(
                old(st),
            ),
            forall|k: int|
                0 <= k < r@.len() ==> #[trigger] r@[k].live(final(st)) && r@[k].seq(final(st))
                    == chunked(self.seq(old(st)), chunk_size as nat)[k],
            forall|i: usize| #[trigger]
                old(st)@.contains_key(i) ==> final(st)@.contains_key(i) && final(st)@[i] == old(
                    st,
                )@[i],
    {
        let ghost s = self.seq(st);
        let ghost cs = chunk_size as nat;
        proof {
            if chunk_size > 0 {
                lemma_chunks_concat(s, cs);
            }
        }
        let ghost st0 = st@;
        let n = self.len(st);
        let mut out: Vec<List<T>> = Vec::new();
        if chunk_size == 0 {
            return out;
        }
        let mut i: usize = 0;
        let ghost mut done: Seq<Seq<T>> = Seq::empty();
        assert(s.subrange(0, n as int) =~= s);
        while i < n
            invariant
                i <= n,
                n == s.len(),
                cs == chunk_size,
                cs >= 1,
                self.live(st),
                self.seq(st) == s,
                done.len() == out@.len(),
                done + chunked(s.subrange(i as int, n as int), cs) == chunked(s, cs),
                forall|k: int|
                    0 <= k < out@.len() ==> st@.contains_key(#[trigger] out@[k]@) && st@[out@[k]@]@
                        == chunked(s, cs)[k],
                forall|j: usize| #[trigger]
                    st0.contains_key(j) ==> st@.contains_key(j) && st@[j] == st0[j],
            decreases n - i,
        {
            let size = if chunk_size < n - i {
                chunk_size
            } else {
                n - i
            };
            let ghost rest = s.subrange(i as int, n as int);
            let ghost st1 = st@;
            let piece = self.subslice_with_length(st, i, size);
            proof {
                assert(piece.seq(st) =~= rest.subrange(0, size as int));
                if rest.len() <= cs {
                    assert(rest.subrange(0, size as int) =~= rest);
                    assert(s.subrange((i + size) as int, n as int) =~= Seq::<T>::empty());
                } else {
                    assert(rest.subrange(size as int, rest.len() as int) =~= s.subrange(
                        (i + size) as int,
                        n as int,
                    ));
                }
                assert(chunked(rest, cs) =~= seq![piece.seq(st)] + chunked(
                    s.subrange((i + size) as int, n as int),
                    cs,
                ));
                assert(piece.seq(st) == rest.subrange(0, size as int));
            }
            let ghost out0 = out@;
            out.push(piece);
            let ghost done0 = done;
            proof {
                done = done.push(piece.seq(st));
                assert(done + chunked(s.subrange((i + size) as int, n as int), cs) =~= done0
                    + chunked(rest, cs));
            }
            assert forall|k: int|
                0 <= k < out@.len() implies #[trigger] out@[k].live(st) && out@[k].seq(st)
                == chunked(s, cs)[k] by {
                if k < out@.len() - 1 {
                    assert(out@[k] == out0[k]);
                    assert(st1.contains_key(out0[k]@) && st1[out0[k]@]@ == chunked(s, cs)[k]);
                    assert(st1.contains_key(out@[k]@));
                } else {
                    assert((done + chunked(s.subrange((i + size) as int, n as int), cs))[k]
                        == piece.seq(st));
                }
            }
            i = i + size;
        }
        assert(s.subrange(n as int, n as int) =~= Seq::<T>::empty());
        assert(done =~= done + chunked(s.subrange(n as int, n as int), cs));
        out
    }

    /// Sorts the elements stably by the key that `f` gives each of them.
    pub fn sort_by_key<F: Fn(T) -> u64>(&mut self, st: &mut GcState<Vec<T>>, f: F)
        requires
            old(self).live(old(st)),
            is_key_extractor::<T, F>(f),
        ensures
            added_slot(old(st)@, final(st)@, final(self)@),
            stably_sorted(final(self).seq(final(st)), old(self).seq(old(st)), key_fn(f)),
    {
        let ghost key = key_fn(f);
        let v = self.vec(st);
        let mut o: Vec<T> = Vec::new();
        let mut ok: Vec<u64> = Vec::new();
        let mut i: usize = 0;
        assert(o@ =~= v@.subrange(0, 0));
        while i < v.len()
            invariant
                i <= v.len(),
                is_key_extractor::<T, F>(f),
                key == key_fn(f),
                o@.len() == ok@.len(),
                forall|j: int| 0 <= j < o@.len() ==> ok@[j] == key(o@[j]),
                forall|a: int, b: int| 0 <= a <= b < ok@.len() ==> ok@[a] <= ok@[b],
                forall|k: u64| #[trigger] o@.filter(has_key(key, k)) == v@.subrange(0, i as int).filter(has_key(key, k)),
            decreases v.len() - i,
        {
            let x = v[i];
            let kx = f(x);
            proof {
                assert(f.requires((x,)));
                assert(f.ensures((x,), key_of(f, x)));
                assert(key(x) == kx);
            }
            let mut p: usize = 0;
            while p < o.len() && ok[p] <= kx
                invariant
                    p <= o@.len(),
                    o@.len() == ok@.len(),
                    forall|j: int| 0 <= j < p ==> ok@[j] <= kx,
                decreases o@.len() - p,
            {
                p = p + 1;
            }
            let mut o2: Vec<T> = Vec::new();
            extend_from_range(&mut o2, &o, 0, p);
            o2.push(x);
            extend_from_range(&mut o2, &o, p, o.len());
            let mut ok2: Vec<u64> = Vec::new();
            extend_from_range(&mut ok2, &ok, 0, p);
            ok2.push(kx);
            extend_from_range(&mut ok2, &ok, p, ok.len());
            proof {
                assert(o2@ =~= o@.insert(p as int, x));
                assert(ok2@ =~= ok@.insert(p as int, kx));
                assert forall|j: int| p <= j < o@.len() implies key(o@[j]) > key(x) by {
                    assert(ok@[p as int] > kx);
                    assert(ok@[p as int] <= ok@[j]);
                }
                assert(v@.subrange(0, i + 1) =~= v@.subrange(0, i as int).push(x));
                assert forall|k: u64| #[trigger] o2@.filter(has_key(key, k)) == v@.subrange(0, i + 1).filter(has_key(key, k)) by {
                    lemma_insert_filter(o@, p as int, x, key, k);
                    lemma_push_filter(v@.subrange(0, i as int), x, has_key(key, k));
                }
            }
            o = o2;
            ok = ok2;
            i = i + 1;
        }
        assert(v@.subrange(0, v.len() as int) =~= v@);
        assert forall|a: int, b: int| 0 <= a <= b < o@.len() implies key(o@[a]) <= key(o@[b]) by {
            assert(ok@[a] <= ok@[b]);
        }
        assert forall|k: u64| #[trigger] o@.filter(has_key(key, k)) == v@.filter(has_key(key, k)) by {
            assert(o@.filter(has_key(key, k)) == v@.subrange(0, v.len() as int).filter(has_key(key, k)));
        }
        *self = Self::store(st, o);
    }

    /// Reverses the order of the elements.
    pub fn reverse(&mut self, st: &mut GcState<Vec<T>>)
        requires
            old(self).live(old(st)),
        ensures
            added_slot(old(st)@, final(st)@, final(self)@),
            final(self).seq(final(st)) == reversed(old(self).seq(old(st))),
    {
        let v = self.vec(st);
        let n = v.len();
        let mut w: Vec<T> = Vec::new();
        let mut i: usize = n;
        while i > 0
            invariant
                i <= n,
                n == v.len(),
                w@ == reversed(v@).subrange(0, n - i),
            decreases i,
        {
            i = i - 1;
            w.push(v[i]);
            assert(w@ =~= reversed(v@).subrange(0, n - i));
        }
        assert(w@ =~= reversed(v@));
        *self = Self::store(st, w);
    }

    /// A new list holding the `length` elements from index `start` on; the
    /// range must lie within the list.
    pub fn subslice_with_length(&self, st: &mut GcState<Vec<T>>, start: usize, length: usize) -> (r: Self)
        requires
            self.live(old(st)),
            start + length <= self.seq(old(st)).len(),
        ensures
            added_slot(old(st)@, final(st)@, r@),
            r.seq(final(st)) == self.seq(old(st)).subrange(start as int, start + length),
    {
        let v = self.vec(st);
        let n = v.len();
        proof {
            assert(start + length <= n);
        }
        let mut w: Vec<T> = Vec::new();
        extend_from_range(&mut w, v, start, start + length);
        assert(w@ =~= v@.subrange(start as int, start + length));
        Self::store(st, w)
    }

    /// Writes the elements of `src` over this list from index `start` on; the
    /// written range must lie within the list.
    pub fn write_subslice_at_index(&mut self, st: &mut GcState<Vec<T>>, start: usize, src: List<T>)
        requires
            old(self).live(old(st)),
            src.live(old(st)),
            start + src.seq(old(st)).len() <= old(self).seq(old(st)).len(),
        ensures
            added_slot(old(st)@, final(st)@, final(self)@),
            final(self).seq(final(st)) == overwritten(
                old(self).seq(old(st)),
                start as int,
                src.seq(old(st)),
            ),
    {
        let v = self.vec(st);
        let o = src.vec(st);
        let n = v.len();
        let end = start + o.len();
        let mut w: Vec<T> = Vec::new();
        extend_from_range(&mut w, v, 0, start);
        extend_from_range(&mut w, o, 0, o.len());
        extend_from_range(&mut w, v, end, n);
        assert(o@.subrange(0, o@.len() as int) =~= o@);
        *self = Self::store(st, w);
    }
}

} // verus!
