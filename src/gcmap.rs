//! A persistent key/value mapping with value semantics, stored in an arena
//! of vectors of pairs behind a copy-on-write handle.

use vstd::laws_eq::obeys_concrete_eq;
use vstd::prelude::*;
use vstd::std_specs::cmp::PartialEqSpec;

use crate::gc::{added_slot, GcCow, GcState};
use crate::gccompat::GcCompat;

verus! {

/// A mapping from `K` to `V`, held in an arena of `Vec<(K, V)>`; where a key
/// occurs in more than one pair, the last pair gives its value.
pub struct GcMap<K, V>(GcCow<Vec<(K, V)>>);

impl<K, V> View for GcMap<K, V> {
    type V = usize;

    /// The arena index of the mapping's pairs.
    closed spec fn view(&self) -> usize {
        self.0@
    }
}

impl<K, V> Clone for GcMap<K, V> {
    fn clone(&self) -> (r: Self)
        ensures
            r == *self,
    {
        GcMap(self.0)
    }
}

impl<K, V> Copy for GcMap<K, V> {

}

impl<K, V> GcCompat<Vec<(K, V)>> for GcMap<K, V> {
    open spec fn points_to_seq(&self) -> Seq<usize> {
        seq![self@]
    }

    fn points_to(&self, buffer: &mut Vec<usize>) {
        self.0.points_to(buffer);
    }
}

/// The mapping that a sequence of pairs stands for: each pair in turn sets
/// its key's value.
pub open spec fn pairs_to_map<K, V>(s: Seq<(K, V)>) -> Map<K, V>
    decreases s.len(),
{
    if s.len() == 0 {
        Map::empty()
    } else {
        pairs_to_map(s.drop_last()).insert(s.last().0, s.last().1)
    }
}

proof fn lemma_pairs_push<K, V>(s: Seq<(K, V)>, p: (K, V))
    ensures
        pairs_to_map(s.push(p)) == pairs_to_map(s).insert(p.0, p.1),
{
    assert(s.push(p).drop_last() =~= s);
}

/// Looking up a key just inserted gives its value; a key just removed is
/// absent; merging a mapping with itself gives it back; two mappings that
/// agree on their common keys merge to the same mapping in either order.
pub proof fn lemma_map_laws<K, V>(a: Map<K, V>, b: Map<K, V>, k: K, v: V)
    ensures
        a.insert(k, v).contains_key(k) && a.insert(k, v)[k] == v,
        !a.remove(k).contains_key(k),
        a.union_prefer_right(a) == a,
        (forall|x: K| a.contains_key(x) && b.contains_key(x) ==> a[x] == b[x])
            ==> a.union_prefer_right(b) == b.union_prefer_right(a),
{
    assert(a.union_prefer_right(a) =~= a);
    if forall|x: K| a.contains_key(x) && b.contains_key(x) ==> a[x] == b[x] {
        assert(a.union_prefer_right(b) =~= b.union_prefer_right(a));
    }
}

/// No key occurs in two pairs of `s`.
pub open spec fn unique_keys<K, V>(s: Seq<(K, V)>) -> bool {
    forall|i: int, j: int| 0 <= i < j < s.len() ==> s[i].0 != s[j].0
}

proof fn lemma_pairs_keys<K, V>(s: Seq<(K, V)>, k: K)
    ensures
        pairs_to_map(s).contains_key(k) <==> exists|i: int| 0 <= i < s.len() && s[i].0 == k,
    decreases s.len(),
{
    if s.len() > 0 {
        lemma_pairs_keys(s.drop_last(), k);
        if exists|i: int| 0 <= i < s.len() && s[i].0 == k {
            let i = choose|i: int| 0 <= i < s.len() && s[i].0 == k;
            if i < s.len() - 1 {
                assert(s.drop_last()[i].0 == k);
            }
        }
        if exists|i: int| 0 <= i < s.len() - 1 && s.drop_last()[i].0 == k {
            let i = choose|i: int| 0 <= i < s.len() - 1 && s.drop_last()[i].0 == k;
            assert(s[i].0 == k);
        }
    }
}

proof fn lemma_pairs_values<K, V>(s: Seq<(K, V)>, i: int)
    requires
        unique_keys(s),
        0 <= i < s.len(),
    ensures
        pairs_to_map(s).contains_key(s[i].0),
        pairs_to_map(s)[s[i].0] == s[i].1,
    decreases s.len(),
{
    if i < s.len() - 1 {
        lemma_pairs_values(s.drop_last(), i);
        assert(s.drop_last()[i] == s[i]);
    }
}

/// A copy of `v` without the pairs whose key is `k`.
fn without_key<K: Copy + PartialEq, V: Copy>(v: &Vec<(K, V)>, k: &K) -> (r: Vec<(K, V)>)
    requires
        obeys_concrete_eq::<K>(),
    ensures
        pairs_to_map(r@) == pairs_to_map(v@).remove(*k),
        forall|a: int| 0 <= a < r@.len() ==> r@[a].0 != *k,
        unique_keys(v@) ==> unique_keys(r@),
{
    proof {
        reveal(obeys_concrete_eq);
    }
    let mut w: Vec<(K, V)> = Vec::new();
    let mut i: usize = 0;
    assert(pairs_to_map(v@.subrange(0, 0)) =~= Map::<K, V>::empty().remove(*k));
    while i < v.len()
        invariant
            i <= v.len(),
            K::obeys_eq_spec(),
            forall|a: K, b: K| a.eq_spec(&b) <==> (a == b),
            pairs_to_map(w@) == pairs_to_map(v@.subrange(0, i as int)).remove(*k),
            forall|a: int| 0 <= a < w@.len() ==> w@[a].0 != *k,
            forall|a: int| 0 <= a < w@.len() ==> exists|b: int| 0 <= b < i && #[trigger] v@[b] == #[trigger] w@[a],
            unique_keys(v@) ==> unique_keys(w@),
        decreases v.len() - i,
    {
        let p = v[i];
        proof {
            assert(v@.subrange(0, i + 1) =~= v@.subrange(0, i as int).push(p));
            lemma_pairs_push(v@.subrange(0, i as int), p);
        }
        if !(p.0 == *k) {
            proof {
                lemma_pairs_push(w@, p);
            }
            let ghost w0 = w@;
            w.push(p);
            assert forall|a: int| 0 <= a < w@.len() implies exists|b: int| 0 <= b < i + 1 && #[trigger] v@[b] == #[trigger] w@[a] by {
                if a < w0.len() {
                    assert(w@[a] == w0[a]);
                } else {
                    assert(v@[i as int] == w@[a]);
                }
            }
            proof {
                if unique_keys(v@) {
                    assert forall|a: int, c: int| 0 <= a < c < w@.len() implies w@[a].0 != w@[c].0 by {
                        if c == w0.len() {
                            assert(w@[a] == w0[a]);
                            let b = choose|b: int| 0 <= b < i && #[trigger] v@[b] == w0[a];
                        } else {
                            assert(w@[a] == w0[a] && w@[c] == w0[c]);
                        }
                    }
                }
            }
            assert(pairs_to_map(w@) =~= pairs_to_map(v@.subrange(0, i + 1)).remove(*k));
        } else {
            assert(pairs_to_map(w@) =~= pairs_to_map(v@.subrange(0, i + 1)).remove(*k));
        }
        i = i + 1;
    }
    assert(v@.subrange(0, v.len() as int) =~= v@);
    w
}

impl<K: Copy + PartialEq + GcCompat<Vec<(K, V)>>, V: Copy + GcCompat<Vec<(K, V)>>> GcMap<K, V> {
    /// The mapping is live in `st`.
    pub open spec fn live(&self, st: &GcState<Vec<(K, V)>>) -> bool {
        st@.contains_key(self@)
    }

    /// The mapping, as stored in `st`.
    pub open spec fn map(&self, st: &GcState<Vec<(K, V)>>) -> Map<K, V> {
        pairs_to_map(st@[self@]@)
    }

    /// An empty mapping, in a fresh slot.
    pub fn new(st: &mut GcState<Vec<(K, V)>>) -> (r: Self)
        ensures
            added_slot(old(st)@, final(st)@, r@),
            r.map(final(st)) == Map::<K, V>::empty(),
    {
        GcMap(GcCow::new(st, Vec::new()))
    }

    /// The value of key `k`, if it has one.
    pub fn get(&self, st: &GcState<Vec<(K, V)>>, k: K) -> (r: Option<V>)
        requires
            self.live(st),
            obeys_concrete_eq::<K>(),
        ensures
            r == (if self.map(st).contains_key(k) { Some(self.map(st)[k]) } else { None }),
    {
        proof {
            reveal(obeys_concrete_eq);
        }
        let v = st.read(self.0.index());
        let mut r: Option<V> = None;
        let mut i: usize = 0;
        while i < v.len()
            invariant
                i <= v.len(),
                K::obeys_eq_spec(),
                forall|a: K, b: K| a.eq_spec(&b) <==> (a == b),
                r == (if pairs_to_map(v@.subrange(0, i as int)).contains_key(k) {
                    Some(pairs_to_map(v@.subrange(0, i as int))[k])
                } else {
                    None
                }),
            decreases v.len() - i,
        {
            let p = v[i];
            proof {
                assert(v@.subrange(0, i + 1) =~= v@.subrange(0, i as int).push(p));
                lemma_pairs_push(v@.subrange(0, i as int), p);
            }
            if p.0 == k {
                r = Some(p.1);
            }
            i = i + 1;
        }
        assert(v@.subrange(0, v.len() as int) =~= v@);
        r
    }

    /// Whether key `k` has a value.
    pub fn contains_key(&self, st: &GcState<Vec<(K, V)>>, k: K) -> (r: bool)
        requires
            self.live(st),
            obeys_concrete_eq::<K>(),
        ensures
            r == self.map(st).contains_key(k),
    {
        self.get(st, k).is_some()
    }

    /// Sets the value of key `k` to `val`; only this mapping sees the change.
    pub fn insert(&mut self, st: &mut GcState<Vec<(K, V)>>, k: K, val: V)
        requires
            old(self).live(old(st)),
            obeys_concrete_eq::<K>(),
        ensures
            added_slot(old(st)@, final(st)@, final(self)@),
            final(self).map(final(st)) == old(self).map(old(st)).insert(k, val),
    {
        let mut w = without_key(st.read(self.0.index()), &k);
        proof {
            lemma_pairs_push(w@, (k, val));
        }
        let ghost m = pairs_to_map(st@[self@]@);
        w.push((k, val));
        assert(pairs_to_map(w@) =~= m.insert(k, val));
        *self = GcMap(GcCow::new(st, w));
    }

    /// Removes key `k`; only this mapping sees the change.
    pub fn remove(&mut self, st: &mut GcState<Vec<(K, V)>>, k: K)
        requires
            old(self).live(old(st)),
            obeys_concrete_eq::<K>(),
        ensures
            added_slot(old(st)@, final(st)@, final(self)@),
            final(self).map(final(st)) == old(self).map(old(st)).remove(k),
    {
        let w = without_key(st.read(self.0.index()), &k);
        *self = GcMap(GcCow::new(st, w));
    }

    /// The key/value pairs of the mapping, each key once, in no particular
    /// order.
    pub fn entries(&self, st: &GcState<Vec<(K, V)>>) -> (r: Vec<(K, V)>)
        requires
            self.live(st),
            obeys_concrete_eq::<K>(),
        ensures
            unique_keys(r@),
            pairs_to_map(r@) == self.map(st),
    {
        let v = st.read(self.0.index());
        let mut w: Vec<(K, V)> = Vec::new();
        let mut i: usize = 0;
        assert(pairs_to_map(v@.subrange(0, 0)) =~= Map::<K, V>::empty());
        while i < v.len()
            invariant
                i <= v.len(),
                obeys_concrete_eq::<K>(),
                unique_keys(w@),
                pairs_to_map(w@) == pairs_to_map(v@.subrange(0, i as int)),
            decreases v.len() - i,
        {
            let p = v[i];
            let mut w1 = without_key(&w, &p.0);
            proof {
                assert(v@.subrange(0, i + 1) =~= v@.subrange(0, i as int).push(p));
                lemma_pairs_push(v@.subrange(0, i as int), p);
                lemma_pairs_push(w1@, p);
            }
            let ghost w0 = w1@;
            w1.push(p);
            assert(pairs_to_map(w1@) =~= pairs_to_map(v@.subrange(0, i + 1)));
            assert forall|a: int, c: int| 0 <= a < c < w1@.len() implies w1@[a].0 != w1@[c].0 by {
                if c == w0.len() {
                    assert(w1@[a] == w0[a]);
                } else {
                    assert(w1@[a] == w0[a] && w1@[c] == w0[c]);
                }
            }
            w = w1;
            i = i + 1;
        }
        assert(v@.subrange(0, v.len() as int) =~= v@);
        w
    }

    /// Whether the two mappings give the same keys the same values.
    pub fn content_eq(&self, st: &GcState<Vec<(K, V)>>, other: GcMap<K, V>) -> (r: bool)
        where
            V: PartialEq,
        requires
            self.live(st),
            other.live(st),
            obeys_concrete_eq::<K>(),
            obeys_concrete_eq::<V>(),
        ensures
            r == (self.map(st) == other.map(st)),
    {
        proof {
            reveal(obeys_concrete_eq);
        }
        let ea = self.entries(st);
        let eb = other.entries(st);
        let ghost ma = self.map(st);
        let ghost mb = other.map(st);
        let mut i: usize = 0;
        while i < ea.len()
            invariant
                i <= ea.len(),
                obeys_concrete_eq::<K>(),
                obeys_concrete_eq::<V>(),
                V::obeys_eq_spec(),
                forall|x: V, y: V| x.eq_spec(&y) <==> (x == y),
                self.live(st),
                other.live(st),
                ma == self.map(st),
                mb == other.map(st),
                unique_keys(ea@),
                pairs_to_map(ea@) == ma,
                forall|k: int| 0 <= k < i ==> mb.contains_key(#[trigger] ea@[k].0) && mb[ea@[k].0] == ea@[k].1,
            decreases ea.len() - i,
        {
            let p = ea[i];
            proof {
                lemma_pairs_values(ea@, i as int);
            }
            match other.get(st, p.0) {
                Some(x) => {
                    if !(x == p.1) {
                        return false;
                    }
                },
                None => {
                    return false;
                },
            }
            i = i + 1;
        }
        let mut j: usize = 0;
        while j < eb.len()
            invariant
                j <= eb.len(),
                obeys_concrete_eq::<K>(),
                self.live(st),
                ma == self.map(st),
                mb == other.map(st),
                unique_keys(eb@),
                pairs_to_map(eb@) == mb,
                forall|k: int| 0 <= k < j ==> ma.contains_key(#[trigger] eb@[k].0),
                unique_keys(ea@),
                pairs_to_map(ea@) == ma,
                forall|k: int| 0 <= k < ea.len() ==> mb.contains_key(#[trigger] ea@[k].0) && mb[ea@[k].0] == ea@[k].1,
            decreases eb.len() - j,
        {
            let p = eb[j];
            proof {
                lemma_pairs_values(eb@, j as int);
            }
            if !self.contains_key(st, p.0) {
                return false;
            }
            j = j + 1;
        }
        proof {
            assert forall|k: K| #[trigger] ma.contains_key(k) == mb.contains_key(k) && (ma.contains_key(k) ==> mb[k] == ma[k]) by {
                lemma_pairs_keys(ea@, k);
                lemma_pairs_keys(eb@, k);
                if ma.contains_key(k) {
                    let a = choose|a: int| 0 <= a < ea@.len() && ea@[a].0 == k;
                    lemma_pairs_values(ea@, a);
                    assert(mb.contains_key(ea@[a].0) && mb[ea@[a].0] == ea@[a].1);
                }
                if mb.contains_key(k) {
                    let a = choose|a: int| 0 <= a < eb@.len() && eb@[a].0 == k;
                    assert(ma.contains_key(eb@[a].0));
                }
            }
            assert(ma.dom() =~= mb.dom());
            assert(ma =~= mb);
        }
        true
    }

    /// A new mapping holding the keys of both; where both give a key a
    /// value, `other`'s value is kept.
    pub fn union(&self, st: &mut GcState<Vec<(K, V)>>, other: GcMap<K, V>) -> (r: Self)
        requires
            self.live(old(st)),
            other.live(old(st)),
        ensures
            added_slot(old(st)@, final(st)@, r@),
            r.map(final(st)) == self.map(old(st)).union_prefer_right(other.map(old(st))),
    {
        let a = st.read(self.0.index());
        let b = st.read(other.0.index());
        let mut w: Vec<(K, V)> = Vec::new();
        let mut i: usize = 0;
        while i < a.len()
            invariant
                i <= a.len(),
                w@ == a@.subrange(0, i as int),
            decreases a.len() - i,
        {
            w.push(a[i]);
            assert(a@.subrange(0, i + 1) =~= a@.subrange(0, i as int).push(a@[i as int]));
            i = i + 1;
        }
        assert(a@.subrange(0, a.len() as int) =~= a@);
        let ghost ma = pairs_to_map(a@);
        let mut j: usize = 0;
        assert(ma.union_prefer_right(pairs_to_map(b@.subrange(0, 0))) =~= ma);
        while j < b.len()
            invariant
                j <= b.len(),
                pairs_to_map(w@) == ma.union_prefer_right(pairs_to_map(b@.subrange(0, j as int))),
            decreases b.len() - j,
        {
            let p = b[j];
            proof {
                assert(b@.subrange(0, j + 1) =~= b@.subrange(0, j as int).push(p));
                lemma_pairs_push(b@.subrange(0, j as int), p);
                lemma_pairs_push(w@, p);
            }
            w.push(p);
            assert(pairs_to_map(w@) =~= ma.union_prefer_right(pairs_to_map(b@.subrange(0, j + 1))));
            j = j + 1;
        }
        assert(b@.subrange(0, b.len() as int) =~= b@);
        GcMap(GcCow::new(st, w))
    }
}

} // verus!
