//! The collision list: pairs whose keys agree on every hash bit that the trie reads.
use std::sync::Arc;
use vstd::prelude::*;
use crate::pairs::{has_key, in_map, lemma_maps_equal, lemma_to_map_at, to_map, unique_keys};

verus! {

/// An ordered list of pairs with unique keys. Every operation scans it.
#[derive(Debug)]
pub struct Bucket<V> {
    vector: Vec<(u64, Arc<V>)>,
}

impl<V> View for Bucket<V> {
    type V = Map<u64, V>;

    open spec fn view(&self) -> Map<u64, V> {
        to_map(self.pairs())
    }
}

/// What a `Vec` of shared pairs holds, with the values read through their pointers.
pub open spec fn shared_pairs<V>(s: Seq<(u64, Arc<V>)>) -> Seq<(u64, V)> {
    s.map_values(|p: (u64, Arc<V>)| (p.0, *p.1))
}

/// The value behind a shared pointer.
pub open spec fn shared_value<V>(a: &Arc<V>) -> V {
    **a
}

impl<V> Bucket<V> {
    /// The pairs in the order they were appended.
    pub closed spec fn pairs(&self) -> Seq<(u64, V)> {
        shared_pairs(self.vector@)
    }

    /// No key appears twice.
    #[verifier::type_invariant]
    pub open spec fn keys_unique(&self) -> bool {
        unique_keys(self.pairs())
    }

    /// A bucket holding the one pair `(k, v)`, with `v` already shared.
    pub(crate) fn from_shared(k: u64, v: Arc<V>) -> (r: Self)
        ensures
            r.pairs() == seq![(k, *v)],
    {
        let mut vector: Vec<(u64, Arc<V>)> = Vec::new();
        vector.push((k, v));
        let r = Bucket { vector };
        assert(r.pairs() =~= seq![(k, *v)]);
        r
    }

    /// A bucket holding the one pair `(k, v)`.
    pub fn new(k: u64, v: V) -> (r: Self)
        ensures
            r.pairs() == seq![(k, v)],
            r@ == map![k => v],
    {
        let r = Self::from_shared(k, Arc::new(v));
        proof {
            crate::pairs::lemma_to_map_single(r.pairs());
        }
        r
    }

    /// The number of pairs.
    pub fn size(&self) -> (r: usize)
        ensures
            r == self.pairs().len(),
    {
        self.vector.len()
    }

    /// The position of the pair with key `k`, if there is one.
    fn find_index(&self, k: &u64) -> (r: Option<usize>)
        ensures
            match r {
                Some(i) => i < self.pairs().len() && self.pairs()[i as int].0 == *k,
                None => !has_key(self.pairs(), *k),
            },
    {
        let mut i: usize = 0;
        while i < self.vector.len()
            invariant
                i <= self.vector.len(),
                forall|j: int| 0 <= j < i ==> self.pairs()[j].0 != *k,
            decreases self.vector.len() - i,
        {
            if self.vector[i].0 == *k {
                return Some(i);
            }
            i += 1;
        }
        None
    }

    /// Replaces the value of `k`, or appends `(k, v)` when `k` is absent; reports whether `k` was new.
    pub(crate) fn insert_shared(&self, k: u64, v: Arc<V>) -> (r: (Self, bool))
        ensures
            r.1 == !self@.contains_key(k),
            r.0@ == self@.insert(k, *v),
            r.0.pairs().len() == self.pairs().len() + if r.1 { 1int } else { 0int },
            r.1 ==> r.0.pairs() == self.pairs().push((k, *v)),
            !r.1 ==> exists|i: int|
                0 <= i < self.pairs().len() && self.pairs()[i].0 == k
                    && r.0.pairs() == self.pairs().update(i, (k, *v)),
    {
        proof {
            use_type_invariant(self);
        }
        let ghost old_pairs = self.pairs();
        let ghost gv: V = shared_value(&v);
        let mut kvs = copy_shared(&self.vector);
        match self.find_index(&k) {
            Some(i) => {
                kvs.set(i, (k, v));
                proof {
                    assert(shared_pairs(kvs@) =~= old_pairs.update(i as int, (k, gv)));
                    lemma_to_map_at(old_pairs, i as int);
                    lemma_update_map(old_pairs, i as int, k, gv);
                }
                (Bucket { vector: kvs }, false)
            }
            None => {
                kvs.push((k, v));
                proof {
                    assert(shared_pairs(kvs@) =~= old_pairs.push((k, gv)));
                    lemma_push_map(old_pairs, k, gv);
                }
                (Bucket { vector: kvs }, true)
            }
        }
    }

    /// `insert_shared` on a value not yet shared.
    pub fn insert(&self, k: u64, v: V) -> (r: (Self, bool))
        ensures
            r.1 == !self@.contains_key(k),
            r.0@ == self@.insert(k, v),
            r.0.pairs().len() == self.pairs().len() + if r.1 { 1int } else { 0int },
            r.1 ==> r.0.pairs() == self.pairs().push((k, v)),
            !r.1 ==> exists|i: int|
                0 <= i < self.pairs().len() && self.pairs()[i].0 == k
                    && r.0.pairs() == self.pairs().update(i, (k, v)),
    {
        self.insert_shared(k, Arc::new(v))
    }

    /// The bucket without the pair of key `k`, or `None` when `k` is absent.
    pub fn remove(&self, k: &u64) -> (r: Option<Self>)
        ensures
            r is None <==> !self@.contains_key(*k),
            r matches Some(b) ==> b@ == self@.remove(*k) && b.pairs().len() == self.pairs().len()
                - 1,
            r matches Some(b) ==> exists|i: int|
                0 <= i < self.pairs().len() && self.pairs()[i].0 == *k && b.pairs()
                    == self.pairs().remove(i),
    {
        proof {
            use_type_invariant(self);
        }
        let ghost old_pairs = self.pairs();
        match self.find_index(k) {
            None => None,
            Some(i) => {
                let mut kvs = copy_shared(&self.vector);
                kvs.remove(i);
                proof {
                    let t = shared_pairs(kvs@);
                    assert(t =~= old_pairs.remove(i as int));
                    assert forall|a: int, b: int|
                        0 <= a < t.len() && 0 <= b < t.len() && a != b implies t[a].0 != t[b].0 by {
                        let a2 = if a < i { a } else { a + 1 };
                        let b2 = if b < i { b } else { b + 1 };
                        assert(t[a] == old_pairs[a2] && t[b] == old_pairs[b2]);
                    }
                    lemma_remove_map(old_pairs, i as int);
                }
                let r = Bucket { vector: kvs };
                assert(r.pairs() == old_pairs.remove(i as int));
                Some(r)
            }
        }
    }

    /// The value of `k`, if present.
    pub fn get(&self, k: &u64) -> (r: Option<&V>)
        ensures
            match r {
                Some(v) => self@.contains_key(*k) && *v == self@[*k],
                None => !self@.contains_key(*k),
            },
    {
        proof {
            use_type_invariant(self);
        }
        match self.find_index(k) {
            Some(i) => {
                proof {
                    lemma_to_map_at(self.pairs(), i as int);
                }
                Some(&*self.vector[i].1)
            }
            None => None,
        }
    }

    /// Whether the bucket holds exactly one pair.
    pub fn is_singleton(&self) -> (r: bool)
        ensures
            r == (self.pairs().len() == 1),
    {
        self.vector.len() == 1
    }

    /// A cursor over the pairs, in order.
    pub fn iter(&self) -> (r: BucketIterator<'_, V>)
        ensures
            r.well_formed(),
            r.remaining() == self.pairs(),
    {
        let r = BucketIterator { bucket: self, index: 0 };
        assert(r.remaining() =~= self.pairs());
        r
    }
}

impl<V> Clone for Bucket<V> {
    /// The same pairs, the values shared.
    fn clone(&self) -> (r: Self)
        ensures
            r.pairs() == self.pairs(),
    {
        proof {
            use_type_invariant(self);
        }
        Bucket { vector: copy_shared(&self.vector) }
    }
}

impl<V: PartialEq> Bucket<V> {
    /// Whether each pair of this bucket is in `other` with an equal value.
    fn pairs_within(&self, other: &Self) -> (r: bool)
        ensures
            vstd::laws_eq::obeys_concrete_eq::<V>() ==> (r <==> forall|j: int|
                0 <= j < self.pairs().len() ==> #[trigger] in_map(self.pairs()[j], other@)),
    {
        let mut i: usize = 0;
        while i < self.vector.len()
            invariant
                i <= self.vector@.len(),
                vstd::laws_eq::obeys_concrete_eq::<V>() ==> forall|j: int|
                    0 <= j < i ==> #[trigger] in_map(self.pairs()[j], other@),
            decreases self.vector@.len() - i,
        {
            let k = self.vector[i].0;
            let v: &V = &*self.vector[i].1;
            assert(self.pairs()[i as int] == (k, *v));
            match other.get(&k) {
                None => {
                    assert(!in_map(self.pairs()[i as int], other@));
                    return false;
                },
                Some(w) => {
                    let same = v.eq(w);
                    proof {
                        reveal(vstd::laws_eq::obeys_concrete_eq);
                    }
                    if !same {
                        assert(vstd::laws_eq::obeys_concrete_eq::<V>() ==> !in_map(
                            self.pairs()[i as int],
                            other@,
                        ));
                        return false;
                    }
                },
            }
            i += 1;
        }
        true
    }
}

/// Two buckets are equal when they hold the same pairs, in whatever order.
impl<V: PartialEq> PartialEq for Bucket<V> {
    fn eq(&self, other: &Self) -> (r: bool) {
        proof {
            use_type_invariant(self);
            use_type_invariant(other);
            lemma_maps_equal(self.pairs(), other.pairs());
        }
        self.pairs_within(other) && other.pairs_within(self)
    }
}

impl<V: PartialEq> vstd::std_specs::cmp::PartialEqSpecImpl for Bucket<V> {
    open spec fn obeys_eq_spec() -> bool {
        vstd::laws_eq::obeys_concrete_eq::<V>()
    }

    open spec fn eq_spec(&self, other: &Bucket<V>) -> bool {
        self@ == other@
    }
}

/// A new vector with the same pairs, the values shared with `v`.
fn copy_shared<V>(v: &Vec<(u64, Arc<V>)>) -> (r: Vec<(u64, Arc<V>)>)
    ensures
        r@ == v@,
{
    let mut r: Vec<(u64, Arc<V>)> = Vec::with_capacity(v.len());
    let mut i: usize = 0;
    while i < v.len()
        invariant
            i <= v.len(),
            r@ == v@.subrange(0, i as int),
        decreases v.len() - i,
    {
        r.push((v[i].0, v[i].1.clone()));
        i += 1;
        assert(r@ =~= v@.subrange(0, i as int));
    }
    assert(r@ =~= v@);
    r
}

/// Writing `(k, v)` over the pair of key `k` maps `k` to `v`.
proof fn lemma_update_map<V>(s: Seq<(u64, V)>, i: int, k: u64, v: V)
    requires
        unique_keys(s),
        0 <= i < s.len(),
        s[i].0 == k,
    ensures
        unique_keys(s.update(i, (k, v))),
        to_map(s.update(i, (k, v))) =~= to_map(s).insert(k, v),
{
    let t = s.update(i, (k, v));
    assert forall|a: int, b: int|
        0 <= a < t.len() && 0 <= b < t.len() && a != b implies t[a].0 != t[b].0 by {
        assert(t[a].0 == s[a].0 && t[b].0 == s[b].0);
    }
    assert forall|q: u64| has_key(t, q) <==> has_key(s, q) || q == k by {
        if has_key(t, q) {
            let j = choose|j: int| 0 <= j < t.len() && t[j].0 == q;
            assert(s[j].0 == q);
        }
        if has_key(s, q) {
            let j = choose|j: int| 0 <= j < s.len() && s[j].0 == q;
            assert(t[j].0 == q);
        }
        if q == k {
            assert(t[i].0 == q);
        }
    }
    assert forall|q: u64| #[trigger] to_map(t).contains_key(q) implies to_map(t)[q] == to_map(
        s,
    ).insert(k, v)[q] by {
        let j = choose|j: int| 0 <= j < t.len() && t[j].0 == q;
        lemma_to_map_at(t, j);
        if j != i {
            lemma_to_map_at(s, j);
        }
    }
}

/// Appending a pair of a new key adds it to the map.
proof fn lemma_push_map<V>(s: Seq<(u64, V)>, k: u64, v: V)
    requires
        unique_keys(s),
        !has_key(s, k),
    ensures
        unique_keys(s.push((k, v))),
        to_map(s.push((k, v))) =~= to_map(s).insert(k, v),
{
    let t = s.push((k, v));
    assert forall|a: int, b: int|
        0 <= a < t.len() && 0 <= b < t.len() && a != b implies t[a].0 != t[b].0 by {
        if a < s.len() && b < s.len() {
            assert(t[a] == s[a] && t[b] == s[b]);
        } else if a < s.len() {
            assert(t[a] == s[a]);
        } else if b < s.len() {
            assert(t[b] == s[b]);
        }
    }
    assert forall|q: u64| has_key(t, q) <==> has_key(s, q) || q == k by {
        if has_key(t, q) {
            let j = choose|j: int| 0 <= j < t.len() && t[j].0 == q;
            if j < s.len() {
                assert(s[j] == t[j]);
            }
        }
        if has_key(s, q) {
            let j = choose|j: int| 0 <= j < s.len() && s[j].0 == q;
            assert(t[j] == s[j]);
        }
        if q == k {
            assert(t[s.len() as int].0 == q);
        }
    }
    assert forall|q: u64| #[trigger] to_map(t).contains_key(q) implies to_map(t)[q] == to_map(
        s,
    ).insert(k, v)[q] by {
        let j = choose|j: int| 0 <= j < t.len() && t[j].0 == q;
        lemma_to_map_at(t, j);
        if j < s.len() {
            assert(t[j] == s[j]);
            lemma_to_map_at(s, j);
        }
    }
}

/// Dropping the pair at `i` drops its key from the map.
proof fn lemma_remove_map<V>(s: Seq<(u64, V)>, i: int)
    requires
        unique_keys(s),
        unique_keys(s.remove(i)),
        0 <= i < s.len(),
    ensures
        to_map(s.remove(i)) =~= to_map(s).remove(s[i].0),
{
    let t = s.remove(i);
    let k = s[i].0;
    assert forall|q: u64| has_key(t, q) <==> has_key(s, q) && q != k by {
        if has_key(t, q) {
            let j = choose|j: int| 0 <= j < t.len() && t[j].0 == q;
            let j2 = if j < i { j } else { j + 1 };
            assert(s[j2] == t[j]);
        }
        if has_key(s, q) && q != k {
            let j = choose|j: int| 0 <= j < s.len() && s[j].0 == q;
            let j2 = if j < i { j } else { j - 1 };
            assert(t[j2] == s[j]);
        }
    }
    assert forall|q: u64| #[trigger] to_map(t).contains_key(q) implies to_map(t)[q] == to_map(
        s,
    )[q] by {
        let j = choose|j: int| 0 <= j < t.len() && t[j].0 == q;
        let j2 = if j < i { j } else { j + 1 };
        assert(s[j2] == t[j]);
        lemma_to_map_at(t, j);
        lemma_to_map_at(s, j2);
    }
}

/// A cursor over the pairs of a bucket.
#[derive(Clone, Debug)]
pub struct BucketIterator<'a, V> {
    bucket: &'a Bucket<V>,
    index: usize,
}

impl<'a, V> BucketIterator<'a, V> {
    /// The pairs not handed out yet.
    pub closed spec fn remaining(&self) -> Seq<(u64, V)> {
        self.bucket.pairs().subrange(self.index as int, self.bucket.pairs().len() as int)
    }

    pub closed spec fn well_formed(&self) -> bool {
        self.index <= self.bucket.pairs().len()
    }

    /// Hands out the next pair, with its value still shared.
    pub(crate) fn next_shared(&mut self) -> (r: Option<(u64, &'a Arc<V>)>)
        requires
            old(self).well_formed(),
        ensures
            final(self).well_formed(),
            match r {
                None => old(self).remaining().len() == 0 && final(self).remaining().len() == 0,
                Some(p) => old(self).remaining().len() > 0 && (p.0, **p.1) == old(
                    self,
                ).remaining()[0] && final(self).remaining() == old(self).remaining().drop_first(),
            },
    {
        if self.index < self.bucket.vector.len() {
            let p = &self.bucket.vector[self.index];
            self.index = self.index + 1;
            assert(final(self).remaining() =~= old(self).remaining().drop_first());
            Some((p.0, &p.1))
        } else {
            None
        }
    }

    /// Hands out the next pair.
    pub fn next(&mut self) -> (r: Option<(u64, &'a V)>)
        requires
            old(self).well_formed(),
        ensures
            final(self).well_formed(),
            match r {
                None => old(self).remaining().len() == 0 && final(self).remaining().len() == 0,
                Some(p) => old(self).remaining().len() > 0 && (p.0, *p.1) == old(
                    self,
                ).remaining()[0] && final(self).remaining() == old(self).remaining().drop_first(),
            },
    {
        match self.next_shared() {
            Some((k, v)) => Some((k, &**v)),
            None => None,
        }
    }
}

} // verus!
