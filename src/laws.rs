//! Laws relating the map operations to one another.
use vstd::prelude::*;
use crate::hamt::HAMT;

verus! {

/// `r` is what `h.insert(k, v)` returns.
pub open spec fn inserted<V>(h: HAMT<V>, k: u64, v: V, r: (HAMT<V>, bool)) -> bool {
    &&& r.0.wf()
    &&& r.0.depth() == h.depth()
    &&& r.1 == !h@.contains_key(k)
    &&& r.0@ == h@.insert(k, v)
    &&& r.0.pairs().len() == h.pairs().len() + if r.1 { 1int } else { 0int }
}

/// `r` is what `h.remove(&k)` returns.
pub open spec fn removed<V>(h: HAMT<V>, k: u64, r: Option<HAMT<V>>) -> bool {
    &&& (r is None <==> !h@.contains_key(k))
    &&& r matches Some(h2) ==> {
        &&& h2.wf()
        &&& h2.depth() == h.depth()
        &&& h2@ == h@.remove(k)
        &&& h2.pairs().len() == h.pairs().len() - 1
    }
}

/// After inserting `v` under `k`, the map holds `v` under `k`.
pub proof fn lemma_get_after_insert<V>(h: HAMT<V>, k: u64, v: V, r: (HAMT<V>, bool))
    requires
        inserted(h, k, v, r),
    ensures
        r.0@.contains_key(k),
        r.0@[k] == v,
{
}

/// Inserting a key that is already there, with any value, leaves the number of pairs as
/// it was and reports the key as not new.
pub proof fn lemma_reinsert_keeps_size<V>(
    h: HAMT<V>,
    k: u64,
    v: V,
    w: V,
    r1: (HAMT<V>, bool),
    r2: (HAMT<V>, bool),
)
    requires
        inserted(h, k, v, r1),
        inserted(r1.0, k, w, r2),
    ensures
        !r2.1,
        r2.0.pairs().len() == r1.0.pairs().len(),
        r2.0@.dom() == r1.0@.dom(),
{
    assert(r2.0@.dom() =~= r1.0@.dom());
}

/// Removing a key just inserted into a map that lacked it gives back a map with the same
/// pairs as the first.
pub proof fn lemma_remove_undoes_insert<V>(
    h: HAMT<V>,
    k: u64,
    v: V,
    r1: (HAMT<V>, bool),
    r2: Option<HAMT<V>>,
)
    requires
        !h@.contains_key(k),
        inserted(h, k, v, r1),
        removed(r1.0, k, r2),
    ensures
        r2 is Some,
        r2->0@ == h@,
        r2->0.pairs().len() == h.pairs().len(),
{
    assert(r2->0@ =~= h@);
}

} // verus!
