//! Sequences of key-value pairs and the maps they denote.
use vstd::prelude::*;

verus! {

/// `k` is the key of some pair of `s`.
pub open spec fn has_key<V>(s: Seq<(u64, V)>, k: u64) -> bool {
    exists|j: int| 0 <= j < s.len() && s[j].0 == k
}

/// No two pairs of `s` share a key.
pub open spec fn unique_keys<V>(s: Seq<(u64, V)>) -> bool {
    forall|i: int, j: int|
        0 <= i < s.len() && 0 <= j < s.len() && i != j ==> s[i].0 != s[j].0
}

/// The value paired with `k` in `s` (meaningful when `has_key(s, k)`).
pub open spec fn value_of<V>(s: Seq<(u64, V)>, k: u64) -> V {
    s[choose|j: int| 0 <= j < s.len() && s[j].0 == k].1
}

/// The map that a sequence of pairs with unique keys stands for.
pub open spec fn to_map<V>(s: Seq<(u64, V)>) -> Map<u64, V> {
    Map::new(|k: u64| has_key(s, k), |k: u64| value_of(s, k))
}

/// The value of `k` in `s`, or `None` when no pair has that key.
pub open spec fn lookup<V>(s: Seq<(u64, V)>, k: u64) -> Option<V> {
    if has_key(s, k) {
        Some(value_of(s, k))
    } else {
        None
    }
}

/// Two sequences with unique keys and no key in common join into one with unique keys,
/// in which a key is looked up in the part that holds it.
pub proof fn lemma_concat<V>(a: Seq<(u64, V)>, b: Seq<(u64, V)>)
    requires
        unique_keys(a),
        unique_keys(b),
        forall|i: int, j: int| 0 <= i < a.len() && 0 <= j < b.len() ==> a[i].0 != b[j].0,
    ensures
        unique_keys(a + b),
        forall|k: u64| #[trigger]
            lookup(a + b, k) == if has_key(a, k) {
                lookup(a, k)
            } else {
                lookup(b, k)
            },
{
    let s = a + b;
    assert forall|i: int, j: int|
        0 <= i < s.len() && 0 <= j < s.len() && i != j implies s[i].0 != s[j].0 by {
        if i < a.len() && j >= a.len() {
            assert(s[j] == b[j - a.len()]);
        } else if j < a.len() && i >= a.len() {
            assert(s[i] == b[i - a.len()]);
        } else if i >= a.len() {
            assert(s[i] == b[i - a.len()] && s[j] == b[j - a.len()]);
        }
    }
    assert forall|k: u64| #[trigger]
        lookup(a + b, k) == if has_key(a, k) {
            lookup(a, k)
        } else {
            lookup(b, k)
        } by {
        if has_key(a, k) {
            let j = choose|j: int| 0 <= j < a.len() && a[j].0 == k;
            assert(s[j] == a[j]);
            lemma_to_map_at(s, j);
            lemma_to_map_at(a, j);
        } else if has_key(b, k) {
            let j = choose|j: int| 0 <= j < b.len() && b[j].0 == k;
            assert(s[j + a.len()] == b[j]);
            lemma_to_map_at(s, j + a.len());
            lemma_to_map_at(b, j);
        } else {
            if has_key(s, k) {
                let j = choose|j: int| 0 <= j < s.len() && s[j].0 == k;
                if j < a.len() {
                    assert(s[j] == a[j]);
                } else {
                    assert(s[j] == b[j - a.len()]);
                }
            }
        }
    }
}

/// A pair of a sequence with unique keys is what the map holds for its key.
pub proof fn lemma_to_map_at<V>(s: Seq<(u64, V)>, j: int)
    requires
        unique_keys(s),
        0 <= j < s.len(),
    ensures
        to_map(s).contains_key(s[j].0),
        to_map(s)[s[j].0] == s[j].1,
{
    assert(has_key(s, s[j].0));
    let c = choose|i: int| 0 <= i < s.len() && s[i].0 == s[j].0;
    assert(c == j);
}

/// The map of a sequence with unique keys has one key per pair.
pub proof fn lemma_to_map_len<V>(s: Seq<(u64, V)>)
    requires
        unique_keys(s),
    ensures
        to_map(s).dom().len() == s.len(),
        to_map(s).dom().finite(),
    decreases s.len(),
{
    if s.len() == 0 {
        assert(to_map(s).dom() =~= Set::empty());
    } else {
        let t = s.drop_last();
        let p = s.last();
        assert forall|i: int, j: int|
            0 <= i < t.len() && 0 <= j < t.len() && i != j implies t[i].0 != t[j].0 by {
            assert(t[i] == s[i] && t[j] == s[j]);
        }
        lemma_to_map_len(t);
        assert forall|k: u64| has_key(s, k) <==> (has_key(t, k) || k == p.0) by {
            if has_key(s, k) {
                let j = choose|j: int| 0 <= j < s.len() && s[j].0 == k;
                if j < t.len() {
                    assert(t[j] == s[j]);
                }
            }
            if has_key(t, k) {
                let j = choose|j: int| 0 <= j < t.len() && t[j].0 == k;
                assert(t[j] == s[j]);
            }
            if k == p.0 {
                assert(s[s.len() - 1].0 == k);
            }
        }
        assert(!has_key(t, p.0)) by {
            if has_key(t, p.0) {
                let j = choose|j: int| 0 <= j < t.len() && t[j].0 == p.0;
                assert(t[j] == s[j]);
                assert(s[j].0 == s[s.len() - 1].0);
            }
        }
        assert(to_map(s).dom() =~= to_map(t).dom().insert(p.0));
    }
}

/// Map `m` holds pair `p`.
pub open spec fn in_map<V>(p: (u64, V), m: Map<u64, V>) -> bool {
    m.contains_key(p.0) && m[p.0] == p.1
}

/// Two sequences with unique keys stand for the same map exactly when each holds the
/// pairs of the other.
pub proof fn lemma_maps_equal<V>(a: Seq<(u64, V)>, b: Seq<(u64, V)>)
    requires
        unique_keys(a),
        unique_keys(b),
    ensures
        ((forall|j: int| 0 <= j < a.len() ==> #[trigger] in_map(a[j], to_map(b))) && (forall|j: int|
            0 <= j < b.len() ==> #[trigger] in_map(b[j], to_map(a)))) <==> to_map(a) == to_map(b),
{
    if (forall|j: int| 0 <= j < a.len() ==> #[trigger] in_map(a[j], to_map(b))) && (forall|j: int|
        0 <= j < b.len() ==> #[trigger] in_map(b[j], to_map(a))) {
        assert forall|k: u64| #[trigger] to_map(a).contains_key(k) implies to_map(b).contains_key(k)
            && to_map(b)[k] == to_map(a)[k] by {
            let j = choose|j: int| 0 <= j < a.len() && a[j].0 == k;
            lemma_to_map_at(a, j);
            assert(in_map(a[j], to_map(b)));
        }
        assert forall|k: u64| #[trigger] to_map(b).contains_key(k) implies to_map(a).contains_key(k) by {
            let j = choose|j: int| 0 <= j < b.len() && b[j].0 == k;
            assert(in_map(b[j], to_map(a)));
        }
        assert(to_map(a) =~= to_map(b));
    }
    if to_map(a) == to_map(b) {
        assert forall|j: int| 0 <= j < a.len() implies #[trigger] in_map(a[j], to_map(b)) by {
            lemma_to_map_at(a, j);
        }
        assert forall|j: int| 0 <= j < b.len() implies #[trigger] in_map(b[j], to_map(a)) by {
            lemma_to_map_at(b, j);
        }
    }
}

/// A one-pair sequence stands for the map of that pair alone.
pub proof fn lemma_to_map_single<V>(s: Seq<(u64, V)>)
    requires
        s.len() == 1,
    ensures
        to_map(s) =~= map![s[0].0 => s[0].1],
{
    assert(unique_keys(s));
    lemma_to_map_at(s, 0);
    assert forall|k: u64| has_key(s, k) implies k == s[0].0 by {
    }
}

} // verus!
