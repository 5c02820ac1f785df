//! The trie: a node of 32 slots, indexed by a 5-bit slice of the key's hash that
//! depends on the node's depth.
use std::collections::hash_map::DefaultHasher;
use std::hash::{BuildHasher, BuildHasherDefault};
use std::sync::Arc;
use vstd::prelude::*;
use crate::bucket::{shared_value, Bucket, BucketIterator};
use crate::pairs::{
    has_key, in_map, lemma_concat, lemma_maps_equal, lemma_to_map_at, lemma_to_map_len, lookup, to_map,
    unique_keys,
};

verus! {

/// Bits of the hash read at each level.
pub const HASH_BITS: u8 = 5;

/// The deepest level: below it no hash bits are left, and collisions go to a bucket.
pub const MAX_LEVEL: u8 = 64 / HASH_BITS;

/// Slots in each node.
pub const NUM_ENTRIES: usize = 32;

/// The hash of a key.
pub uninterp spec fn hash_of(k: u64) -> u64;

/// Relies on std's `BuildHasher::hash_one` with `BuildHasherDefault<DefaultHasher>`: each
/// hasher it builds is `DefaultHasher::new()`, and all of those start from the same state
/// (no per-process seed), so the result depends on the key alone.
#[verifier::external_body]
fn hash(k: &u64) -> (r: u64)
    ensures
        r == hash_of(*k),
{
    BuildHasherDefault::<DefaultHasher>::default().hash_one(k)
}

/// The slot that key `k` takes in a node of depth `level`.
pub open spec fn slot_of(k: u64, level: u8) -> int {
    ((hash_of(k) >> ((level * 5) as u64)) & 31u64) as int
}

proof fn lemma_slot_range(k: u64, level: u8)
    ensures
        0 <= slot_of(k, level) < 32,
{
    let h: u64 = hash_of(k);
    let s: u64 = (level * 5) as u64;
    assert((h >> s) & 31u64 < 32) by (bit_vector);
}

/// One slot of a node.
#[derive(Clone, Debug)]
enum Entry<V> {
    Empty,
    KeyValue(u64, Arc<V>),
    HAMT(Arc<HAMT<V>>),
    Bucket(Arc<Bucket<V>>),
}

/// A node of the trie, and the root of a map. A node is never changed: every
/// update builds new nodes along one path and shares all others.
#[derive(Debug)]
pub struct HAMT<V> {
    level: u8,
    entries: Vec<Entry<V>>,
}

/// The pairs held under a slot, in traversal order.
spec fn entry_pairs<V>(e: Entry<V>) -> Seq<(u64, V)>
    decreases e, 0nat,
{
    match e {
        Entry::Empty => Seq::empty(),
        Entry::KeyValue(k, v) => seq![(k, *v)],
        Entry::HAMT(h) => pairs_from(*h, 0),
        Entry::Bucket(b) => b.pairs(),
    }
}

/// The pairs held in slots `i` and after of node `h`.
spec fn pairs_from<V>(h: HAMT<V>, i: nat) -> Seq<(u64, V)>
    decreases h, h.entries@.len() - i,
{
    if i < h.entries@.len() {
        entry_pairs(h.entries@[i as int]) + pairs_from(h, i + 1)
    } else {
        Seq::empty()
    }
}

/// The value of `k` found under a slot.
spec fn entry_lookup<V>(e: Entry<V>, k: u64) -> Option<V>
    decreases e,
{
    match e {
        Entry::Empty => None,
        Entry::KeyValue(kk, v) => if kk == k {
            Some(*v)
        } else {
            None
        },
        Entry::HAMT(h) => node_lookup(*h, k),
        Entry::Bucket(b) => if b@.contains_key(k) {
            Some(b@[k])
        } else {
            None
        },
    }
}

/// The value of `k` found by following its hash down from node `h`.
spec fn node_lookup<V>(h: HAMT<V>, k: u64) -> Option<V>
    decreases h,
{
    let i = slot_of(k, h.level);
    if 0 <= i < h.entries@.len() {
        entry_lookup(h.entries@[i], k)
    } else {
        None
    }
}

/// Slot `e2` maps `k` to `v` and every other key as slot `e` does.
spec fn replaces<V>(e2: Entry<V>, e: Entry<V>, k: u64, v: V) -> bool {
    forall|q: u64| #[trigger]
        entry_lookup(e2, q) == if q == k {
            Some(v)
        } else {
            entry_lookup(e, q)
        }
}

/// Slot `e2` maps no value to `k` and every other key as slot `e` does.
spec fn drops<V>(e2: Entry<V>, e: Entry<V>, k: u64) -> bool {
    forall|q: u64| #[trigger]
        entry_lookup(e2, q) == if q == k {
            None
        } else {
            entry_lookup(e, q)
        }
}

/// Slot `i` of a node of depth `level` is well formed: its keys all hash to `i` at
/// that depth, and a child node or bucket holds at least two pairs.
spec fn entry_wf<V>(e: Entry<V>, level: u8, i: int) -> bool
    decreases e,
{
    match e {
        Entry::Empty => true,
        Entry::KeyValue(k, _) => slot_of(k, level) == i,
        Entry::HAMT(h) => {
            &&& level < MAX_LEVEL
            &&& h.level == level + 1
            &&& node_wf(*h)
            &&& pairs_from(*h, 0).len() >= 2
            &&& forall|k: u64| #[trigger] node_lookup(*h, k) is Some ==> slot_of(k, level) == i
        },
        Entry::Bucket(b) => {
            &&& level == MAX_LEVEL
            &&& b.pairs().len() >= 2
            &&& unique_keys(b.pairs())
            &&& forall|k: u64| #[trigger] b@.contains_key(k) ==> slot_of(k, level) == i
        },
    }
}

/// Node `h` and everything below it is well formed.
spec fn node_wf<V>(h: HAMT<V>) -> bool
    decreases h,
{
    &&& h.level <= MAX_LEVEL
    &&& h.entries@.len() == NUM_ENTRIES
    &&& slots_wf(h, 0)
}

/// Slots `n` and after of node `h` are well formed.
spec fn slots_wf<V>(h: HAMT<V>, n: nat) -> bool
    decreases h, h.entries@.len() - n,
{
    if n < h.entries@.len() {
        entry_wf(h.entries@[n as int], h.level, n as int) && slots_wf(h, n + 1)
    } else {
        true
    }
}

proof fn lemma_slots_get<V>(h: HAMT<V>, n: nat, i: int)
    requires
        slots_wf(h, n),
        n <= i < h.entries@.len(),
    ensures
        entry_wf(h.entries@[i], h.level, i),
    decreases i - n,
{
    if n < i {
        lemma_slots_get(h, n + 1, i);
    }
}

proof fn lemma_slots_make<V>(h: HAMT<V>, n: nat)
    requires
        n <= h.entries@.len(),
        forall|j: int| n <= j < h.entries@.len() ==> #[trigger] entry_wf(h.entries@[j], h.level, j),
    ensures
        slots_wf(h, n),
    decreases h.entries@.len() - n,
{
    if n < h.entries@.len() {
        assert(entry_wf(h.entries@[n as int], h.level, n as int));
        lemma_slots_make(h, n + 1);
    }
}

/// Every slot of a well-formed node is well formed.
proof fn lemma_wf_slot<V>(h: HAMT<V>, i: int)
    requires
        node_wf(h),
        0 <= i < NUM_ENTRIES,
    ensures
        entry_wf(h.entries@[i], h.level, i),
{
    lemma_slots_get(h, 0, i);
}

impl<V> View for HAMT<V> {
    type V = Map<u64, V>;

    /// The map: each key with the value found by following its hash.
    closed spec fn view(&self) -> Map<u64, V> {
        Map::new(|k: u64| node_lookup(*self, k) is Some, |k: u64| node_lookup(*self, k)->0)
    }
}

/// Of a well-formed slot: its pairs have unique keys, all hash to `i`, and looking a
/// key up in them agrees with following the hash.
proof fn lemma_entry<V>(e: Entry<V>, level: u8, i: int)
    requires
        entry_wf(e, level, i),
    ensures
        unique_keys(entry_pairs(e)),
        forall|j: int| 0 <= j < entry_pairs(e).len() ==> slot_of(#[trigger] entry_pairs(e)[j].0, level) == i,
        forall|k: u64| #[trigger] entry_lookup(e, k) == lookup(entry_pairs(e), k),
    decreases e, 0nat,
{
    match e {
        Entry::Empty => {
            assert(entry_pairs(e).len() == 0);
            assert forall|k: u64| #[trigger] entry_lookup(e, k) == lookup(entry_pairs(e), k) by {
                assert(entry_pairs(e).len() == 0);
                assert(!has_key(entry_pairs(e), k));
                assert(lookup(entry_pairs(e), k) is None);
                assert(entry_lookup(e, k) is None);
            }
        },
        Entry::KeyValue(kk, v) => {
            let s = entry_pairs(e);
            assert forall|k: u64| #[trigger] entry_lookup(e, k) == lookup(s, k) by {
                lemma_to_map_at(s, 0);
                if has_key(s, k) {
                    assert(s[0].0 == k);
                }
            }
        },
        Entry::HAMT(h) => {
            lemma_node(shared_value(&h));
            let s = entry_pairs(e);
            assert forall|j: int| 0 <= j < s.len() implies slot_of(#[trigger] s[j].0, level) == i by {
                lemma_to_map_at(s, j);
                assert(node_lookup(*h, s[j].0) is Some);
            }
            assert forall|k: u64| #[trigger] entry_lookup(e, k) == lookup(s, k) by {
                assert(node_lookup(*h, k) == lookup(s, k));
            }
        },
        Entry::Bucket(b) => {
            let s = entry_pairs(e);
            assert forall|j: int| 0 <= j < s.len() implies slot_of(#[trigger] s[j].0, level) == i by {
                lemma_to_map_at(s, j);
                assert(b@.contains_key(s[j].0));
            }
            assert forall|k: u64| #[trigger] entry_lookup(e, k) == lookup(s, k) by {
                assert(b@ == to_map(s));
            }
        },
    }
}

/// Of a well-formed node: its pairs have unique keys, and looking a key up in them
/// agrees with following the hash.
proof fn lemma_node<V>(h: HAMT<V>)
    requires
        node_wf(h),
    ensures
        unique_keys(pairs_from(h, 0)),
        forall|k: u64| #[trigger] node_lookup(h, k) == lookup(pairs_from(h, 0), k),
    decreases h, NUM_ENTRIES + 1,
{
    lemma_node_from(h, 0);
    assert forall|k: u64| #[trigger] node_lookup(h, k) == lookup(pairs_from(h, 0), k) by {
        lemma_slot_range(k, h.level);
    }
}

/// `lemma_node` on the slots from `n` on.
proof fn lemma_node_from<V>(h: HAMT<V>, n: nat)
    requires
        node_wf(h),
        n <= NUM_ENTRIES,
    ensures
        unique_keys(pairs_from(h, n)),
        forall|j: int|
            0 <= j < pairs_from(h, n).len() ==> slot_of(#[trigger] pairs_from(h, n)[j].0, h.level)
                >= n,
        forall|k: u64|
            #[trigger] lookup(pairs_from(h, n), k) == if slot_of(k, h.level) >= n {
                node_lookup(h, k)
            } else {
                None
            },
    decreases h, NUM_ENTRIES - n,
{
    if n == NUM_ENTRIES {
        assert forall|k: u64| #[trigger] lookup(pairs_from(h, n), k) == if slot_of(k, h.level) >= n {
            node_lookup(h, k)
        } else {
            None
        } by {
            lemma_slot_range(k, h.level);
        }
    } else {
        let e = h.entries@[n as int];
        lemma_wf_slot(h, n as int);
        lemma_entry(e, h.level, n as int);
        lemma_node_from(h, n + 1);
        let a = entry_pairs(e);
        let b = pairs_from(h, n + 1);
        assert(pairs_from(h, n) == a + b);
        assert forall|i: int, j: int| 0 <= i < a.len() && 0 <= j < b.len() implies a[i].0 != b[j].0 by {
            assert(slot_of(a[i].0, h.level) == n);
            assert(slot_of(b[j].0, h.level) >= n + 1);
        }
        lemma_concat(a, b);
        let s = a + b;
        assert forall|j: int| 0 <= j < s.len() implies slot_of(#[trigger] s[j].0, h.level) >= n by {
            if j < a.len() {
                assert(s[j] == a[j]);
            } else {
                assert(s[j] == b[j - a.len()]);
            }
        }
        assert forall|k: u64|
            #[trigger] lookup(s, k) == if slot_of(k, h.level) >= n {
                node_lookup(h, k)
            } else {
                None
            } by {
            assert(lookup(s, k) == if has_key(a, k) { lookup(a, k) } else { lookup(b, k) });
            if has_key(a, k) {
                let j = choose|j: int| 0 <= j < a.len() && a[j].0 == k;
                assert(slot_of(a[j].0, h.level) == n);
            } else if slot_of(k, h.level) == n {
                assert(entry_lookup(e, k) == lookup(a, k));
                if has_key(b, k) {
                    let j = choose|j: int| 0 <= j < b.len() && b[j].0 == k;
                    assert(slot_of(b[j].0, h.level) >= n + 1);
                }
            }
        }
    }
}

/// Replacing slot `i` changes the number of pairs by what the slot held.
proof fn lemma_pairs_update<V>(h: HAMT<V>, h2: HAMT<V>, i: int, n: nat)
    requires
        0 <= i < h.entries@.len(),
        h2.entries@ == h.entries@.update(i, h2.entries@[i]),
        n <= h.entries@.len(),
    ensures
        pairs_from(h2, n).len() == pairs_from(h, n).len() + if n <= i {
            entry_pairs(h2.entries@[i]).len() - entry_pairs(h.entries@[i]).len()
        } else {
            0
        },
    decreases h.entries@.len() - n,
{
    if n < h.entries@.len() {
        lemma_pairs_update(h, h2, i, n + 1);
    }
}

/// A node whose slots from `n` on are empty holds no pairs there.
proof fn lemma_empty_pairs<V>(h: HAMT<V>, n: nat)
    requires
        n <= h.entries@.len(),
        forall|j: int| n <= j < h.entries@.len() ==> h.entries@[j] is Empty,
    ensures
        pairs_from(h, n).len() == 0,
    decreases h.entries@.len() - n,
{
    if n < h.entries@.len() {
        assert(entry_pairs(h.entries@[n as int]).len() == 0);
        lemma_empty_pairs(h, n + 1);
    }
}

/// Replacing slot `i` of a well-formed node by a well-formed slot keeps the node well formed,
/// and changes the lookup only of the keys that hash to `i`.
proof fn lemma_update<V>(h: HAMT<V>, h2: HAMT<V>, i: int)
    requires
        node_wf(h),
        0 <= i < NUM_ENTRIES,
        h2.level == h.level,
        h2.entries@ == h.entries@.update(i, h2.entries@[i]),
        entry_wf(h2.entries@[i], h.level, i),
    ensures
        node_wf(h2),
        forall|k: u64| #[trigger] node_lookup(h2, k) == if slot_of(k, h.level) == i {
            entry_lookup(h2.entries@[i], k)
        } else {
            node_lookup(h, k)
        },
        pairs_from(h2, 0).len() == pairs_from(h, 0).len() + entry_pairs(h2.entries@[i]).len()
            - entry_pairs(h.entries@[i]).len(),
{
    assert forall|j: int| 0 <= j < h2.entries@.len() implies #[trigger] entry_wf(
        h2.entries@[j],
        h2.level,
        j,
    ) by {
        if j != i {
            lemma_wf_slot(h, j);
        }
    }
    lemma_slots_make(h2, 0);
    lemma_pairs_update(h, h2, i, 0);
    assert forall|k: u64| #[trigger] node_lookup(h2, k) == if slot_of(k, h.level) == i {
        entry_lookup(h2.entries@[i], k)
    } else {
        node_lookup(h, k)
    } by {
        lemma_slot_range(k, h.level);
    }
}

/// A copy of a slot, sharing whatever it points to.
fn copy_entry<V>(e: &Entry<V>) -> (r: Entry<V>)
    ensures
        r == *e,
{
    match e {
        Entry::Empty => Entry::Empty,
        Entry::KeyValue(k, v) => Entry::KeyValue(*k, v.clone()),
        Entry::HAMT(h) => Entry::HAMT(h.clone()),
        Entry::Bucket(b) => Entry::Bucket(b.clone()),
    }
}

/// The slot for a child node that a removal left: its one pair as a bare pair when
/// only one is left, else the node itself.
fn node_to_entry<V>(h: HAMT<V>) -> (r: Entry<V>)
    requires
        h.pairs().len() >= 1,
    ensures
        entry_pairs(r).len() == h.pairs().len(),
        forall|q: u64| #[trigger] entry_lookup(r, q) == node_lookup(h, q),
        match r {
            Entry::KeyValue(k, _) => node_lookup(h, k) is Some,
            Entry::HAMT(c) => *c == h && h.pairs().len() != 1,
            _ => false,
        },
{
    proof {
        use_type_invariant(&h);
        lemma_node(h);
    }
    if h.is_singleton() {
        let mut it = h.iter();
        match it.next_shared() {
            Some((k, v)) => {
                let r = Entry::KeyValue(k, v.clone());
                proof {
                    let s = h.pairs();
                    crate::pairs::lemma_to_map_single(s);
                    assert(s[0] == (k, shared_value(v)));
                    assert forall|q: u64| #[trigger] entry_lookup(r, q) == node_lookup(h, q) by {
                        assert(node_lookup(h, q) == lookup(s, q));
                        assert(to_map(s).contains_key(q) == (q == k));
                    }
                    assert(node_lookup(h, k) == lookup(s, k));
                }
                r
            },
            None => {
                proof {
                    assert(false);
                }
                Entry::Empty
            },
        }
    } else {
        Entry::HAMT(Arc::new(h))
    }
}

/// The slot for a bucket that a removal left: nothing when it is empty, its one pair as
/// a bare pair when only one is left, else the bucket itself.
fn bucket_to_entry<V>(b: Bucket<V>) -> (r: Entry<V>)
    ensures
        entry_pairs(r).len() == b.pairs().len(),
        forall|q: u64| #[trigger]
            entry_lookup(r, q) == if b@.contains_key(q) {
                Some(b@[q])
            } else {
                None
            },
        match r {
            Entry::Empty => b.pairs().len() == 0,
            Entry::KeyValue(k, _) => b@.contains_key(k),
            Entry::Bucket(c) => *c == b && b.pairs().len() >= 2 && unique_keys(b.pairs()),
            _ => false,
        },
{
    proof {
        use_type_invariant(&b);
    }
    let n = b.size();
    if n == 0 {
        proof {
            assert forall|q: u64| !b@.contains_key(q) by {
            }
        }
        Entry::Empty
    } else if n == 1 {
        let mut it = b.iter();
        match it.next_shared() {
            Some((k, v)) => {
                let r = Entry::KeyValue(k, v.clone());
                proof {
                    let s = b.pairs();
                    crate::pairs::lemma_to_map_single(s);
                    assert(s[0] == (k, shared_value(v)));
                }
                r
            },
            None => {
                proof {
                    assert(false);
                }
                Entry::Empty
            },
        }
    } else {
        Entry::Bucket(Arc::new(b))
    }
}

impl<V> HAMT<V> {
    /// The node and everything below it is well formed.
    #[verifier::type_invariant]
    pub closed spec fn wf(&self) -> bool {
        node_wf(*self)
    }

    /// The pairs in the order a traversal meets them.
    pub closed spec fn pairs(&self) -> Seq<(u64, V)> {
        pairs_from(*self, 0)
    }

    /// The depth of the node.
    pub closed spec fn depth(&self) -> u8 {
        self.level
    }

    /// No child node or bucket below holds exactly one pair, and no bucket none.
    pub closed spec fn normal(&self) -> bool {
        normal_from(*self, 0)
    }

    /// Some slot of this node holds a bucket.
    pub closed spec fn has_bucket(&self) -> bool {
        exists|i: int| 0 <= i < self.entries@.len() && #[trigger] self.entries@[i] is Bucket
    }

    /// Whether some slot of this node holds a bucket.
    pub fn contain_bucket(&self) -> (r: bool)
        ensures
            r == self.has_bucket(),
    {
        let mut i: usize = 0;
        while i < self.entries.len()
            invariant
                i <= self.entries@.len(),
                forall|j: int| 0 <= j < i ==> !(#[trigger] self.entries@[j] is Bucket),
            decreases self.entries@.len() - i,
        {
            if let Entry::Bucket(_) = &self.entries[i] {
                return true;
            }
            i += 1;
        }
        false
    }

    /// Whether no child node or bucket below holds exactly one pair, and no bucket none.
    pub fn is_normal(&self) -> (r: bool)
        ensures
            r == self.normal(),
        decreases MAX_LEVEL - self.depth(),
    {
        proof {
            use_type_invariant(self);
        }
        let mut i: usize = 0;
        while i < NUM_ENTRIES
            invariant
                i <= NUM_ENTRIES,
                self.wf(),
                normal_from(*self, 0) == normal_from(*self, i as nat),
            decreases NUM_ENTRIES - i,
        {
            proof {
                lemma_wf_slot(*self, i as int);
            }
            let ok = match &self.entries[i] {
                Entry::HAMT(h) => h.is_normal() && !h.is_singleton(),
                Entry::Bucket(b) => b.size() >= 2,
                _ => true,
            };
            assert(ok == entry_normal(self.entries@[i as int]));
            assert(normal_from(*self, i as nat) == (entry_normal(self.entries@[i as int]) && normal_from(
                *self,
                (i + 1) as nat,
            )));
            if !ok {
                return false;
            }
            i += 1;
        }
        true
    }

    /// An empty node at depth `l`.
    pub fn new(l: u8) -> (r: Self)
        requires
            l <= MAX_LEVEL,
        ensures
            r.wf(),
            r@ == Map::<u64, V>::empty(),
            r.pairs().len() == 0,
            r.depth() == l,
    {
        let mut entries: Vec<Entry<V>> = Vec::new();
        let mut i: usize = 0;
        while i < NUM_ENTRIES
            invariant
                i <= NUM_ENTRIES,
                entries@.len() == i,
                forall|j: int| 0 <= j < i ==> entries@[j] is Empty,
            decreases NUM_ENTRIES - i,
        {
            entries.push(Entry::Empty);
            i += 1;
        }
        proof {
            let g = HAMT { level: l, entries };
            assert forall|j: int| 0 <= j < g.entries@.len() implies #[trigger] entry_wf(
                g.entries@[j],
                g.level,
                j,
            ) by {
            }
            lemma_slots_make(g, 0);
        }
        let r = HAMT { level: l, entries };
        proof {
            lemma_empty_pairs(r, 0);
            assert forall|k: u64| node_lookup(r, k) is None by {
                lemma_slot_range(k, l);
            }
            assert(r@ =~= Map::<u64, V>::empty());
        }
        r
    }

    /// The slot of `k` in this node: a 5-bit slice of its hash, chosen by the depth.
    fn entry_index(&self, k: &u64) -> (r: usize)
        requires
            self.level <= MAX_LEVEL,
        ensures
            r == slot_of(*k, self.level),
            r < NUM_ENTRIES,
    {
        let h = hash(k);
        let s: u64 = self.level as u64 * 5;
        proof {
            lemma_slot_range(*k, self.level);
        }
        ((h >> s) & 0b11111) as usize
    }

    /// A copy of this node with slot `i` replaced by `e`.
    fn set_entry(&self, i: usize, e: Entry<V>) -> (r: Self)
        requires
            i < NUM_ENTRIES,
            entry_wf(e, self.level, i as int),
        ensures
            r.level == self.level,
            r.entries@ == self.entries@.update(i as int, e),
            forall|k: u64| #[trigger] node_lookup(r, k) == if slot_of(k, self.level) == i {
                entry_lookup(e, k)
            } else {
                node_lookup(*self, k)
            },
            pairs_from(r, 0).len() == pairs_from(*self, 0).len() + entry_pairs(e).len()
                - entry_pairs(self.entries@[i as int]).len(),
    {
        proof {
            use_type_invariant(self);
        }
        let mut es = self.copy_entries();
        es.set(i, e);
        proof {
            let g = HAMT { level: self.level, entries: es };
            assert(g.entries@ =~= self.entries@.update(i as int, e));
            lemma_update(*self, g, i as int);
        }
        HAMT { level: self.level, entries: es }
    }

    /// A new vector with the slots of this node, sharing what they point to.
    fn copy_entries(&self) -> (r: Vec<Entry<V>>)
        ensures
            r@ == self.entries@,
    {
        let mut es: Vec<Entry<V>> = Vec::with_capacity(self.entries.len());
        let mut j: usize = 0;
        while j < self.entries.len()
            invariant
                j <= self.entries@.len(),
                es@ == self.entries@.subrange(0, j as int),
            decreases self.entries@.len() - j,
        {
            es.push(copy_entry(&self.entries[j]));
            j += 1;
            assert(es@ =~= self.entries@.subrange(0, j as int));
        }
        assert(es@ =~= self.entries@);
        es
    }

    /// The value of `k`, if present.
    pub fn get(&self, k: &u64) -> (r: Option<&V>)
        ensures
            match r {
                Some(v) => self@.contains_key(*k) && *v == self@[*k],
                None => !self@.contains_key(*k),
            },
        decreases MAX_LEVEL - self.depth(),
    {
        proof {
            use_type_invariant(self);
        }
        let i = self.entry_index(k);
        proof {
            lemma_wf_slot(*self, i as int);
        }
        match &self.entries[i] {
            Entry::Empty => None,
            Entry::KeyValue(kk, vv) => {
                if *kk == *k {
                    Some(&**vv)
                } else {
                    None
                }
            },
            Entry::HAMT(h) => h.get(k),
            Entry::Bucket(b) => b.get(k),
        }
    }

    /// Stores `v` under `k`, replacing an earlier value; reports whether `k` was new.
    /// Only the nodes on the path to the slot of `k` are new; the rest is shared.
    fn insert_shared(&self, k: u64, v: Arc<V>) -> (r: (Self, bool))
        ensures
            r.0.wf(),
            r.0.depth() == self.depth(),
            r.1 == !self@.contains_key(k),
            r.0@ == self@.insert(k, *v),
            r.0.pairs().len() == self.pairs().len() + if r.1 { 1int } else { 0int },
        decreases MAX_LEVEL - self.depth(),
    {
        proof {
            use_type_invariant(self);
        }
        let i = self.entry_index(&k);
        let ghost gv: V = shared_value(&v);
        let ghost old_e = self.entries@[i as int];
        proof {
            lemma_wf_slot(*self, i as int);
        }
        let (e, new): (Entry<V>, bool) = match &self.entries[i] {
            Entry::Empty => {
                let ne = Entry::KeyValue(k, v);
                assert(replaces(ne, old_e, k, gv));
                (ne, true)
            },
            Entry::KeyValue(kk, vv) => {
                if *kk == k {
                    let ne = Entry::KeyValue(k, v);
                    assert(replaces(ne, old_e, k, gv));
                    (ne, false)
                } else if self.level < MAX_LEVEL {
                    let c = HAMT::new(self.level + 1);
                    let (c, _) = c.insert_shared(*kk, vv.clone());
                    let (c, _) = c.insert_shared(k, v);
                    proof {
                        assert forall|q: u64| #[trigger] node_lookup(c, q) is Some implies slot_of(
                            q,
                            self.level,
                        ) == i by {
                            assert(c@.contains_key(q));
                        }
                        assert forall|q: u64| #[trigger]
                            node_lookup(c, q) == if q == k {
                                Some(gv)
                            } else {
                                entry_lookup(old_e, q)
                            } by {
                            assert(c@.contains_key(q) == (node_lookup(c, q) is Some));
                            if q == k {
                                assert(c@.contains_key(q));
                                assert(c@[q] == gv);
                            } else if q == *kk {
                                assert(c@.contains_key(q));
                                assert(c@[q] == shared_value(vv));
                                assert(entry_lookup(old_e, q) == Some(shared_value(vv)));
                            } else {
                                assert(!c@.contains_key(q));
                                assert(entry_lookup(old_e, q) is None);
                            }
                        }
                    }
                    let ne = Entry::HAMT(Arc::new(c));
                    assert forall|q: u64| #[trigger] entry_lookup(ne, q) == node_lookup(c, q) by {
                    }
                    assert(replaces(ne, old_e, k, gv));
                    (ne, true)
                } else {
                    let b0 = Bucket::from_shared(*kk, vv.clone());
                    proof {
                        crate::pairs::lemma_to_map_single(b0.pairs());
                    }
                    let (b, _) = b0.insert_shared(k, v);
                    proof {
                        use_type_invariant(&b);
                    }
                    let ne = Entry::Bucket(Arc::new(b));
                    assert forall|q: u64| #[trigger]
                        entry_lookup(ne, q) == if q == k {
                            Some(gv)
                        } else {
                            entry_lookup(old_e, q)
                        } by {
                        if q != k && q == *kk {
                            assert(b@[q] == b0@[q]);
                        }
                    }
                    assert(replaces(ne, old_e, k, gv));
                    (ne, true)
                }
            },
            Entry::HAMT(h) => {
                let (h2, new) = h.insert_shared(k, v);
                proof {
                    assert forall|q: u64| #[trigger] node_lookup(h2, q) is Some implies slot_of(
                        q,
                        self.level,
                    ) == i by {
                        assert(h2@.contains_key(q));
                        if q != k {
                            assert(node_lookup(**h, q) is Some);
                        }
                    }
                    assert forall|q: u64| #[trigger]
                        node_lookup(h2, q) == if q == k {
                            Some(gv)
                        } else {
                            entry_lookup(old_e, q)
                        } by {
                        assert(h2@.contains_key(q) == (node_lookup(h2, q) is Some));
                        assert(h@.contains_key(q) == (node_lookup(**h, q) is Some));
                        if q == k {
                            assert(h2@.contains_key(q));
                            assert(h2@[q] == gv);
                        } else if h@.contains_key(q) {
                            assert(h2@[q] == h@[q]);
                        } else {
                            assert(!h2@.contains_key(q));
                        }
                    }
                }
                let ne = Entry::HAMT(Arc::new(h2));
                assert forall|q: u64| #[trigger] entry_lookup(ne, q) == node_lookup(h2, q) by {
                }
                assert(replaces(ne, old_e, k, gv));
                (ne, new)
            },
            Entry::Bucket(b) => {
                let (b2, new) = b.insert_shared(k, v);
                proof {
                    use_type_invariant(&b2);
                }
                let ne = Entry::Bucket(Arc::new(b2));
                assert forall|q: u64| #[trigger]
                    entry_lookup(ne, q) == if q == k {
                        Some(gv)
                    } else {
                        entry_lookup(old_e, q)
                    } by {
                    if q != k && b@.contains_key(q) {
                        assert(b2@[q] == b@[q]);
                    }
                }
                assert(replaces(ne, old_e, k, gv));
                (ne, new)
            },
        };
        proof {
            assert(replaces(e, old_e, k, gv));
            assert(entry_wf(e, self.level, i as int));
        }
        let r = self.set_entry(i, e);
        proof {
            use_type_invariant(&r);
            assert forall|q: u64| #[trigger]
                node_lookup(r, q) == if q == k {
                    Some(gv)
                } else {
                    node_lookup(*self, q)
                } by {
                lemma_slot_range(q, self.level);
                assert(entry_lookup(e, q) == if q == k {
                    Some(gv)
                } else {
                    entry_lookup(old_e, q)
                });
            }
            assert(r@ =~= self@.insert(k, gv));
        }
        (r, new)
    }

    /// Stores `v` under `k`, replacing an earlier value; reports whether `k` was new.
    pub fn insert(&self, k: u64, v: V) -> (r: (Self, bool))
        ensures
            r.0.wf(),
            r.0.depth() == self.depth(),
            r.1 == !self@.contains_key(k),
            r.0@ == self@.insert(k, v),
            r.0.pairs().len() == self.pairs().len() + if r.1 { 1int } else { 0int },
    {
        self.insert_shared(k, Arc::new(v))
    }

    /// The node without the pair of key `k`, or `None` when `k` is absent. A child node
    /// or bucket left with one pair gives way to that pair, and an empty one to nothing.
    pub fn remove(&self, k: &u64) -> (r: Option<Self>)
        ensures
            r is None <==> !self@.contains_key(*k),
            r matches Some(h) ==> {
                &&& h.wf()
                &&& h.depth() == self.depth()
                &&& h@ == self@.remove(*k)
                &&& h.pairs().len() == self.pairs().len() - 1
            },
        decreases MAX_LEVEL - self.depth(),
    {
        proof {
            use_type_invariant(self);
        }
        let i = self.entry_index(k);
        let ghost old_e = self.entries@[i as int];
        proof {
            lemma_wf_slot(*self, i as int);
            lemma_entry(old_e, self.level, i as int);
        }
        let e: Entry<V> = match &self.entries[i] {
            Entry::Empty => {
                return None;
            },
            Entry::KeyValue(kk, _) => {
                if *kk == *k {
                    let ne = Entry::Empty;
                    assert(drops(ne, old_e, *k));
                    ne
                } else {
                    return None;
                }
            },
            Entry::HAMT(h) => {
                match h.remove(k) {
                    None => {
                        proof {
                            assert(!h@.contains_key(*k));
                        }
                        return None;
                    },
                    Some(h2) => {
                        proof {
                            lemma_node(shared_value(h));
                        }
                        let ne = node_to_entry(h2);
                        proof {
                            assert forall|q: u64| #[trigger]
                                entry_lookup(ne, q) == if q == *k {
                                    None
                                } else {
                                    entry_lookup(old_e, q)
                                } by {
                                assert(h2@.contains_key(q) == (node_lookup(h2, q) is Some));
                                assert(h@.contains_key(q) == (node_lookup(**h, q) is Some));
                                if q != *k && h@.contains_key(q) {
                                    assert(h2@[q] == h@[q]);
                                }
                            }
                            if ne is KeyValue {
                                let k2 = ne->KeyValue_0;
                                assert(h2@.contains_key(k2));
                                assert(node_lookup(**h, k2) is Some);
                            }
                            assert forall|q: u64| #[trigger] node_lookup(h2, q) is Some implies slot_of(
                                q,
                                self.level,
                            ) == i by {
                                assert(h2@.contains_key(q));
                                assert(node_lookup(**h, q) is Some);
                            }
                        }
                        ne
                    },
                }
            },
            Entry::Bucket(b) => {
                match b.remove(k) {
                    None => {
                        return None;
                    },
                    Some(b2) => {
                        let ne = bucket_to_entry(b2);
                        proof {
                            assert forall|q: u64| #[trigger]
                                entry_lookup(ne, q) == if q == *k {
                                    None
                                } else {
                                    entry_lookup(old_e, q)
                                } by {
                                if q != *k && b@.contains_key(q) {
                                    assert(b2@[q] == b@[q]);
                                }
                            }
                            assert forall|q: u64| #[trigger] b2@.contains_key(q) implies slot_of(
                                q,
                                self.level,
                            ) == i by {
                                assert(b@.contains_key(q));
                            }
                        }
                        ne
                    },
                }
            },
        };
        proof {
            assert(drops(e, old_e, *k));
            assert(entry_wf(e, self.level, i as int));
        }
        let r = self.set_entry(i, e);
        proof {
            use_type_invariant(&r);
            assert forall|q: u64| #[trigger]
                node_lookup(r, q) == if q == *k {
                    None
                } else {
                    node_lookup(*self, q)
                } by {
                lemma_slot_range(q, self.level);
                assert(entry_lookup(e, q) == if q == *k {
                    None
                } else {
                    entry_lookup(old_e, q)
                });
            }
            assert(r@ =~= self@.remove(*k));
        }
        Some(r)
    }

    /// A fresh traversal of the pairs of this node, in the order of `pairs`.
    pub fn iter(&self) -> (r: HAMTIterator<'_, V>)
        ensures
            r.well_formed(),
            r.remaining() == self.pairs(),
    {
        let mut hamts: Vec<(&HAMT<V>, usize)> = Vec::new();
        hamts.push((self, 0));
        let r = HAMTIterator { hamts, bucket_iterator: None };
        proof {
            assert(r.stack() =~= seq![(*self, 0usize)]);
            assert(r.stack().drop_last() =~= Seq::<(HAMT<V>, usize)>::empty());
            assert(frames_pairs(r.stack()) == pairs_from(*self, 0) + frames_pairs(
                Seq::<(HAMT<V>, usize)>::empty(),
            ));
            assert(r.remaining() =~= self.pairs());
        }
        r
    }

    /// Whether the node holds exactly one pair.
    pub fn is_singleton(&self) -> (r: bool)
        ensures
            r == (self.pairs().len() == 1),
    {
        let mut it = self.iter();
        match it.next_shared() {
            None => false,
            Some(_) => it.next_shared().is_none(),
        }
    }

    /// The number of pairs, counted over the whole structure.
    pub fn size(&self) -> (r: usize)
        requires
            self.pairs().len() <= usize::MAX,
        ensures
            r == self.pairs().len(),
        decreases MAX_LEVEL - self.depth(),
    {
        proof {
            use_type_invariant(self);
        }
        let mut total: usize = 0;
        let mut i: usize = 0;
        while i < NUM_ENTRIES
            invariant
                i <= NUM_ENTRIES,
                self.wf(),
                self.pairs().len() <= usize::MAX,
                total + pairs_from(*self, i as nat).len() == self.pairs().len(),
            decreases NUM_ENTRIES - i,
        {
            proof {
                lemma_wf_slot(*self, i as int);
                assert(pairs_from(*self, i as nat) == entry_pairs(self.entries@[i as int]) + pairs_from(
                    *self,
                    (i + 1) as nat,
                ));
            }
            let n: usize = match &self.entries[i] {
                Entry::Empty => 0,
                Entry::KeyValue(_, _) => 1,
                Entry::HAMT(h) => h.size(),
                Entry::Bucket(b) => b.size(),
            };
            total = total + n;
            i += 1;
        }
        total
    }
}

/// Two nodes with the same depth and slots hold the same pairs and are alike well formed.
proof fn lemma_same_slots<V>(a: HAMT<V>, b: HAMT<V>, n: nat)
    requires
        a.level == b.level,
        a.entries@ == b.entries@,
    ensures
        slots_wf(a, n) == slots_wf(b, n),
        pairs_from(a, n) == pairs_from(b, n),
    decreases a.entries@.len() - n,
{
    if n < a.entries@.len() {
        lemma_same_slots(a, b, n + 1);
    }
}

/// A child node or bucket under slot `e` never holds exactly one pair, nor a bucket none.
spec fn entry_normal<V>(e: Entry<V>) -> bool
    decreases e, 0nat,
{
    match e {
        Entry::HAMT(h) => pairs_from(*h, 0).len() != 1 && normal_from(*h, 0),
        Entry::Bucket(b) => b.pairs().len() >= 2,
        _ => true,
    }
}

/// `entry_normal` holds of slots `n` and after of `h`.
spec fn normal_from<V>(h: HAMT<V>, n: nat) -> bool
    decreases h, h.entries@.len() - n,
{
    if n < h.entries@.len() {
        entry_normal(h.entries@[n as int]) && normal_from(h, n + 1)
    } else {
        true
    }
}

proof fn lemma_entry_normal<V>(e: Entry<V>, level: u8, i: int)
    requires
        entry_wf(e, level, i),
    ensures
        entry_normal(e),
    decreases e, 0nat,
{
    if let Entry::HAMT(h) = e {
        lemma_normal_from(shared_value(&h), 0);
    }
}

proof fn lemma_normal_from<V>(h: HAMT<V>, n: nat)
    requires
        node_wf(h),
        n <= NUM_ENTRIES,
    ensures
        normal_from(h, n),
    decreases h, NUM_ENTRIES - n,
{
    if n < NUM_ENTRIES {
        lemma_wf_slot(h, n as int);
        lemma_entry_normal(h.entries@[n as int], h.level, n as int);
        lemma_normal_from(h, n + 1);
    }
}

/// A traversal meets each key of the map exactly once: the pairs of a well-formed node
/// have unique keys, stand for its map, and are as many as its keys.
pub proof fn lemma_pairs_are_contents<V>(h: HAMT<V>)
    requires
        h.wf(),
    ensures
        unique_keys(h.pairs()),
        to_map(h.pairs()) == h@,
        h.pairs().len() == h@.dom().len(),
{
    lemma_node(h);
    lemma_to_map_len(h.pairs());
    assert(to_map(h.pairs()) =~= h@);
}

/// No child node or bucket of a well-formed node holds exactly one pair, and no bucket
/// is left empty; as `insert` and `remove` keep their results well formed, this holds
/// after any sequence of them.
pub proof fn lemma_normal<V>(h: HAMT<V>)
    requires
        h.wf(),
    ensures
        h.normal(),
{
    lemma_normal_from(h, 0);
}

impl<V> Clone for HAMT<V> {
    /// The same slots, sharing what they point to.
    fn clone(&self) -> (r: Self)
        ensures
            r@ == self@,
            r.pairs() == self.pairs(),
            r.depth() == self.depth(),
    {
        proof {
            use_type_invariant(self);
        }
        let es = self.copy_entries();
        proof {
            let g = HAMT { level: self.level, entries: es };
            lemma_same_slots(*self, g, 0);
        }
        let r = HAMT { level: self.level, entries: es };
        proof {
            lemma_same_slots(*self, r, 0);
            assert(r@ =~= self@);
        }
        r
    }
}

impl<V: PartialEq> HAMT<V> {
    /// Whether each pair of this node is in `other` with an equal value.
    fn pairs_within(&self, other: &Self) -> (r: bool)
        ensures
            vstd::laws_eq::obeys_concrete_eq::<V>() ==> (r <==> forall|j: int|
                0 <= j < self.pairs().len() ==> #[trigger] in_map(self.pairs()[j], other@)),
    {
        let ghost all = self.pairs();
        let mut it = self.iter();
        loop
            invariant
                it.well_formed(),
                all == self.pairs(),
                it.remaining().len() <= all.len(),
                it.remaining() == all.subrange(all.len() - it.remaining().len(), all.len() as int),
                vstd::laws_eq::obeys_concrete_eq::<V>() ==> forall|j: int|
                    0 <= j < all.len() - it.remaining().len() ==> #[trigger] in_map(all[j], other@),
            decreases it.remaining().len(),
        {
            let ghost before = it.remaining();
            let ghost done = all.len() - before.len();
            match it.next() {
                None => {
                    return true;
                },
                Some((k, v)) => {
                    assert(before[0] == all[done]);
                    assert(it.remaining() =~= all.subrange(done + 1, all.len() as int));
                    match other.get(&k) {
                        None => {
                            assert(!in_map(all[done], other@));
                            return false;
                        },
                        Some(w) => {
                            let same = v.eq(w);
                            proof {
                                reveal(vstd::laws_eq::obeys_concrete_eq);
                            }
                            if !same {
                                assert(vstd::laws_eq::obeys_concrete_eq::<V>() ==> !in_map(
                                    all[done],
                                    other@,
                                ));
                                return false;
                            }
                        },
                    }
                },
            }
        }
    }
}

/// Two maps are equal when they hold the same pairs, whatever their shape.
impl<V: PartialEq> PartialEq for HAMT<V> {
    fn eq(&self, other: &Self) -> (r: bool) {
        proof {
            use_type_invariant(self);
            use_type_invariant(other);
            lemma_pairs_are_contents(*self);
            lemma_pairs_are_contents(*other);
            lemma_maps_equal(self.pairs(), other.pairs());
        }
        self.pairs_within(other) && other.pairs_within(self)
    }
}

impl<V: PartialEq> vstd::std_specs::cmp::PartialEqSpecImpl for HAMT<V> {
    open spec fn obeys_eq_spec() -> bool {
        vstd::laws_eq::obeys_concrete_eq::<V>()
    }

    open spec fn eq_spec(&self, other: &HAMT<V>) -> bool {
        self@ == other@
    }
}

/// The pairs still to come from a stack of `(node, next slot)` frames, top frame first.
spec fn frames_pairs<V>(s: Seq<(HAMT<V>, usize)>) -> Seq<(u64, V)>
    decreases s.len(),
{
    if s.len() == 0 {
        Seq::empty()
    } else {
        pairs_from(s.last().0, s.last().1 as nat) + frames_pairs(s.drop_last())
    }
}

/// Steps a traversal takes over a slot: a child node's own steps, or one per pair of a
/// bucket and one to leave it.
spec fn entry_work<V>(e: Entry<V>) -> nat
    decreases e, 0nat,
{
    match e {
        Entry::HAMT(h) => work_from(*h, 0),
        Entry::Bucket(b) => b.pairs().len() + 1,
        _ => 0,
    }
}

/// Steps a traversal takes over slots `i` and after of `h`, and to leave `h`.
spec fn work_from<V>(h: HAMT<V>, i: nat) -> nat
    decreases h, h.entries@.len() - i,
{
    if i < h.entries@.len() {
        1 + entry_work(h.entries@[i as int]) + work_from(h, i + 1)
    } else {
        1
    }
}

/// Steps a traversal takes over a stack of frames.
spec fn frames_work<V>(s: Seq<(HAMT<V>, usize)>) -> nat
    decreases s.len(),
{
    if s.len() == 0 {
        0
    } else {
        work_from(s.last().0, s.last().1 as nat) + frames_work(s.drop_last())
    }
}

/// A depth-first traversal of a trie: a stack of `(node, next slot)` frames and, while a
/// bucket is being read, a cursor over it. It only reads the nodes.
#[derive(Clone, Debug)]
pub struct HAMTIterator<'a, V> {
    hamts: Vec<(&'a HAMT<V>, usize)>,
    bucket_iterator: Option<BucketIterator<'a, V>>,
}

impl<'a, V> HAMTIterator<'a, V> {
    spec fn stack(&self) -> Seq<(HAMT<V>, usize)> {
        self.hamts@.map_values(|p: (&'a HAMT<V>, usize)| (*p.0, p.1))
    }

    spec fn cursor_pairs(&self) -> Seq<(u64, V)> {
        match self.bucket_iterator {
            Some(b) => b.remaining(),
            None => Seq::empty(),
        }
    }

    /// The pairs not handed out yet, in the order they will come.
    pub closed spec fn remaining(&self) -> Seq<(u64, V)> {
        self.cursor_pairs() + frames_pairs(self.stack())
    }

    pub closed spec fn well_formed(&self) -> bool {
        &&& forall|j: int|
            0 <= j < self.stack().len() ==> #[trigger] self.stack()[j].1 <= self.stack()[j].0.entries@.len()
        &&& self.bucket_iterator matches Some(b) ==> b.well_formed()
    }

    spec fn work(&self) -> nat {
        (match self.bucket_iterator {
            Some(b) => b.remaining().len() + 1,
            None => 0,
        }) + frames_work(self.stack())
    }

    /// Hands out the next pair, with its value still shared.
    fn next_shared(&mut self) -> (r: Option<(u64, &'a Arc<V>)>)
        requires
            old(self).well_formed(),
        ensures
            final(self).well_formed(),
            match r {
                None => old(self).remaining().len() == 0 && final(self).remaining().len() == 0,
                Some(p) => old(self).remaining().len() > 0 && (p.0, **p.1) == old(
                    self,
                ).remaining()[0] && final(self).remaining() == old(self).remaining().drop_first(),
            },
    {
        loop
            invariant
                self.well_formed(),
                self.remaining() == old(self).remaining(),
            decreases self.work(),
        {
            let ghost before = *self;
            match self.bucket_iterator.take() {
                Some(mut b) => {
                    let ghost gb = b;
                    match b.next_shared() {
                        Some(p) => {
                            self.bucket_iterator = Some(b);
                            proof {
                                assert(self.stack() == before.stack());
                                assert(self.remaining() =~= before.remaining().drop_first());
                            }
                            return Some(p);
                        },
                        None => {
                            proof {
                                assert(self.stack() == before.stack());
                                assert(self.remaining() =~= before.remaining());
                            }
                        },
                    }
                },
                None => {
                    match self.hamts.pop() {
                        None => {
                            proof {
                                assert(before.stack().len() == 0);
                                assert(self.stack().len() == 0);
                            }
                            return None;
                        },
                        Some((h, i)) => {
                            let ghost rest = self.stack();
                            proof {
                                assert(rest =~= before.stack().drop_last());
                                assert(before.stack().last() == (*h, i));
                                assert(frames_work(before.stack()) == work_from(*h, i as nat) + frames_work(rest));
                                assert(frames_pairs(before.stack()) == pairs_from(*h, i as nat) + frames_pairs(rest));
                                assert forall|j: int| 0 <= j < rest.len() implies #[trigger] rest[j].1 <= rest[j].0.entries@.len() by {
                                    assert(rest[j] == before.stack()[j]);
                                }
                            }
                            if i < h.entries.len() {
                                self.hamts.push((h, i + 1));
                                proof {
                                    assert(self.stack() =~= rest.push((*h, (i + 1) as usize)));
                                    assert(self.stack().drop_last() =~= rest);
                                    assert(pairs_from(*h, i as nat) == entry_pairs(h.entries@[i as int])
                                        + pairs_from(*h, (i + 1) as nat));
                                    assert(work_from(*h, i as nat) == 1 + entry_work(h.entries@[i as int])
                                        + work_from(*h, (i + 1) as nat));
                                    assert(frames_work(self.stack()) == work_from(*h, (i + 1) as nat) + frames_work(rest));
                                    assert(frames_pairs(self.stack()) == pairs_from(*h, (i + 1) as nat) + frames_pairs(rest));
                                    assert forall|j: int| 0 <= j < self.stack().len() implies #[trigger] self.stack()[j].1
                                        <= self.stack()[j].0.entries@.len() by {
                                        if j < rest.len() {
                                            assert(self.stack()[j] == rest[j]);
                                        }
                                    }
                                }
                                match &h.entries[i] {
                                    Entry::Empty => {
                                        proof {
                                            assert(self.remaining() =~= before.remaining());
                                        }
                                    },
                                    Entry::KeyValue(k, v) => {
                                        proof {
                                            assert(self.remaining() =~= before.remaining().drop_first());
                                        }
                                        return Some((*k, v));
                                    },
                                    Entry::HAMT(c) => {
                                        let ghost mid = self.stack();
                                        self.hamts.push((&**c, 0));
                                        proof {
                                            assert(self.stack() =~= mid.push((**c, 0usize)));
                                            assert(self.stack().drop_last() =~= mid);
                                            assert(frames_work(self.stack()) == work_from(**c, 0) + frames_work(mid));
                                            assert(frames_pairs(self.stack()) == pairs_from(**c, 0) + frames_pairs(mid));
                                            assert forall|j: int| 0 <= j < self.stack().len() implies #[trigger] self.stack()[j].1
                                                <= self.stack()[j].0.entries@.len() by {
                                                if j < mid.len() {
                                                    assert(self.stack()[j] == mid[j]);
                                                }
                                            }
                                            assert(self.remaining() =~= before.remaining());
                                        }
                                    },
                                    Entry::Bucket(b) => {
                                        self.bucket_iterator = Some(b.iter());
                                        proof {
                                            assert(self.remaining() =~= before.remaining());
                                        }
                                    },
                                }
                            } else {
                                proof {
                                    assert(self.remaining() =~= before.remaining());
                                }
                            }
                        },
                    }
                },
            }
        }
    }

    /// Hands out the next pair.
    pub fn next(&mut self) -> (r: Option<(u64, &'a V)>)
        requires
            old(self).well_formed(),
        ensures
            final(self).well_formed(),
            match r {
                None => old(self).remaining().len() == 0 && final(self).remaining().len() == 0,
                Some(p) => old(self).remaining().len() > 0 && (p.0, *p.1) == old(
                    self,
                ).remaining()[0] && final(self).remaining() == old(self).remaining().drop_first(),
            },
    {
        match self.next_shared() {
            Some((k, v)) => Some((k, &**v)),
            None => None,
        }
    }
}

} // verus!
