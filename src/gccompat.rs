//! The capability contract: every value stored in an arena reports the
//! handles that it references directly.

use vstd::prelude::*;

verus! {

/// Implemented by every type whose values can live in an arena; `S` is the
/// type of the arena whose slots the reported indices address.
///
/// `points_to` appends, one level deep, the indices of the slots of the
/// arena of `S` that `self` references; the collector of that arena follows
/// them during its mark phase. A value that holds a handle into an arena of
/// another type does not report it: the collector of that other arena sees
/// only its own roots, so such a handle must be among them.
pub trait GcCompat<S>: GcCompatTrivial {
    /// The indices into the arena of `S` that `self` references directly, in
    /// reporting order; none unless an impl says otherwise.
    open spec fn points_to_seq(&self) -> Seq<usize> {
        Seq::empty()
    }

    /// Appends the indices that `self` references directly to `buffer`.
    fn points_to(&self, buffer: &mut Vec<usize>)
        ensures
            final(buffer)@ == old(buffer)@ + self.points_to_seq(),
    ;
}

/// A supertrait of `GcCompat` that every sized type has.
pub trait GcCompatTrivial: Sized {
    /// The size in bytes of a value of this type.
    fn size(&self) -> (r: usize)
        ensures
            r as int == vstd::layout::size_of::<Self>(),
    ;
}

impl<T> GcCompatTrivial for T {
    fn size(&self) -> (r: usize) {
        core::mem::size_of::<T>()
    }
}

// Leaf types reference no handle.

impl<S> GcCompat<S> for () {
    open spec fn points_to_seq(&self) -> Seq<usize> {
        Seq::empty()
    }

    fn points_to(&self, buffer: &mut Vec<usize>) {
        assert(buffer@ == buffer@ + Seq::<usize>::empty());
    }
}

impl<S> GcCompat<S> for bool {
    open spec fn points_to_seq(&self) -> Seq<usize> {
        Seq::empty()
    }

    fn points_to(&self, buffer: &mut Vec<usize>) {
        assert(buffer@ == buffer@ + Seq::<usize>::empty());
    }
}

impl<S> GcCompat<S> for u8 {
    open spec fn points_to_seq(&self) -> Seq<usize> {
        Seq::empty()
    }

    fn points_to(&self, buffer: &mut Vec<usize>) {
        assert(buffer@ == buffer@ + Seq::<usize>::empty());
    }
}

impl<S> GcCompat<S> for i8 {
    open spec fn points_to_seq(&self) -> Seq<usize> {
        Seq::empty()
    }

    fn points_to(&self, buffer: &mut Vec<usize>) {
        assert(buffer@ == buffer@ + Seq::<usize>::empty());
    }
}

impl<S> GcCompat<S> for u16 {
    open spec fn points_to_seq(&self) -> Seq<usize> {
        Seq::empty()
    }

    fn points_to(&self, buffer: &mut Vec<usize>) {
        assert(buffer@ == buffer@ + Seq::<usize>::empty());
    }
}

impl<S> GcCompat<S> for i16 {
    open spec fn points_to_seq(&self) -> Seq<usize> {
        Seq::empty()
    }

    fn points_to(&self, buffer: &mut Vec<usize>) {
        assert(buffer@ == buffer@ + Seq::<usize>::empty());
    }
}

impl<S> GcCompat<S> for u32 {
    open spec fn points_to_seq(&self) -> Seq<usize> {
        Seq::empty()
    }

    fn points_to(&self, buffer: &mut Vec<usize>) {
        assert(buffer@ == buffer@ + Seq::<usize>::empty());
    }
}

impl<S> GcCompat<S> for i32 {
    open spec fn points_to_seq(&self) -> Seq<usize> {
        Seq::empty()
    }

    fn points_to(&self, buffer: &mut Vec<usize>) {
        assert(buffer@ == buffer@ + Seq::<usize>::empty());
    }
}

impl<S> GcCompat<S> for u64 {
    open spec fn points_to_seq(&self) -> Seq<usize> {
        Seq::empty()
    }

    fn points_to(&self, buffer: &mut Vec<usize>) {
        assert(buffer@ == buffer@ + Seq::<usize>::empty());
    }
}

impl<S> GcCompat<S> for i64 {
    open spec fn points_to_seq(&self) -> Seq<usize> {
        Seq::empty()
    }

    fn points_to(&self, buffer: &mut Vec<usize>) {
        assert(buffer@ == buffer@ + Seq::<usize>::empty());
    }
}

impl<S> GcCompat<S> for u128 {
    open spec fn points_to_seq(&self) -> Seq<usize> {
        Seq::empty()
    }

    fn points_to(&self, buffer: &mut Vec<usize>) {
        assert(buffer@ == buffer@ + Seq::<usize>::empty());
    }
}

impl<S> GcCompat<S> for i128 {
    open spec fn points_to_seq(&self) -> Seq<usize> {
        Seq::empty()
    }

    fn points_to(&self, buffer: &mut Vec<usize>) {
        assert(buffer@ == buffer@ + Seq::<usize>::empty());
    }
}

impl<S> GcCompat<S> for usize {
    open spec fn points_to_seq(&self) -> Seq<usize> {
        Seq::empty()
    }

    fn points_to(&self, buffer: &mut Vec<usize>) {
        assert(buffer@ == buffer@ + Seq::<usize>::empty());
    }
}

impl<S> GcCompat<S> for isize {
    open spec fn points_to_seq(&self) -> Seq<usize> {
        Seq::empty()
    }

    fn points_to(&self, buffer: &mut Vec<usize>) {
        assert(buffer@ == buffer@ + Seq::<usize>::empty());
    }
}

impl<S> GcCompat<S> for String {
    open spec fn points_to_seq(&self) -> Seq<usize> {
        Seq::empty()
    }

    fn points_to(&self, buffer: &mut Vec<usize>) {
        assert(buffer@ == buffer@ + Seq::<usize>::empty());
    }
}

impl<S> GcCompat<S> for std::convert::Infallible {
    open spec fn points_to_seq(&self) -> Seq<usize> {
        Seq::empty()
    }

    fn points_to(&self, buffer: &mut Vec<usize>) {
        assert(buffer@ == buffer@ + Seq::<usize>::empty());
    }
}

// Composite types report what their components report.

impl<S, A: GcCompat<S>, B: GcCompat<S>> GcCompat<S> for (A, B) {
    open spec fn points_to_seq(&self) -> Seq<usize> {
        self.0.points_to_seq() + self.1.points_to_seq()
    }

    fn points_to(&self, buffer: &mut Vec<usize>) {
        let (a, b) = self;
        a.points_to(buffer);
        b.points_to(buffer);
        assert(final(buffer)@ =~= old(buffer)@ + self.points_to_seq());
    }
}

impl<S, T: GcCompat<S>> GcCompat<S> for Option<T> {
    open spec fn points_to_seq(&self) -> Seq<usize> {
        match self {
            Some(x) => x.points_to_seq(),
            None => Seq::empty(),
        }
    }

    fn points_to(&self, buffer: &mut Vec<usize>) {
        match self {
            Some(x) => x.points_to(buffer),
            None => {
                assert(buffer@ == buffer@ + Seq::<usize>::empty());
            },
        }
    }
}

impl<S, T: GcCompat<S>, E: GcCompat<S>> GcCompat<S> for Result<T, E> {
    open spec fn points_to_seq(&self) -> Seq<usize> {
        match self {
            Ok(x) => x.points_to_seq(),
            Err(x) => x.points_to_seq(),
        }
    }

    fn points_to(&self, buffer: &mut Vec<usize>) {
        match self {
            Ok(x) => x.points_to(buffer),
            Err(x) => x.points_to(buffer),
        }
    }
}

/// What the elements of `s` report, concatenated in order.
pub open spec fn seq_points_to<S, T: GcCompat<S>>(s: Seq<T>) -> Seq<usize>
    decreases s.len(),
{
    if s.len() == 0 {
        Seq::empty()
    } else {
        seq_points_to::<S, T>(s.drop_last()) + s.last().points_to_seq()
    }
}

impl<S, T: GcCompat<S>> GcCompat<S> for Vec<T> {
    open spec fn points_to_seq(&self) -> Seq<usize> {
        seq_points_to::<S, T>(self@)
    }

    fn points_to(&self, buffer: &mut Vec<usize>) {
        let ghost start = buffer@;
        let mut i: usize = 0;
        while i < self.len()
            invariant
                i <= self.len(),
                buffer@ == start + seq_points_to::<S, T>(self@.subrange(0, i as int)),
            decreases self.len() - i,
        {
            assert(self@.subrange(0, i + 1).drop_last() =~= self@.subrange(0, i as int));
            self[i].points_to(buffer);
            i = i + 1;
        }
        assert(self@.subrange(0, self.len() as int) =~= self@);
        assert(buffer@ =~= start + seq_points_to::<S, T>(self@));
    }
}

} // verus!
