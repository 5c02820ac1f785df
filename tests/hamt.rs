use hamt_map::hamt::{HAMT, MAX_LEVEL};
use std::collections::hash_map::DefaultHasher;
use std::collections::{HashMap, HashSet};
use std::hash::{Hash, Hasher};

const NUM_ITERATIONS: usize = 1 << 12;

fn hash(k: &u64) -> u64 {
    let mut h = DefaultHasher::new();
    k.hash(&mut h);
    h.finish()
}

/// A small deterministic source of pseudo-random numbers (xorshift).
struct Draws(u64);

impl Draws {
    fn next(&mut self) -> u64 {
        let mut x = self.0;
        x ^= x << 13;
        x ^= x >> 7;
        x ^= x << 17;
        self.0 = x;
        x
    }

    fn shuffle<T>(&mut self, v: &mut Vec<T>) {
        let n = v.len();
        for i in (1..n).rev() {
            let j = (self.next() % (i as u64 + 1)) as usize;
            v.swap(i, j);
        }
    }
}

fn collect<V: Clone>(h: &HAMT<V>) -> Vec<(u64, V)> {
    let mut it = h.iter();
    let mut out = Vec::new();
    while let Some((k, v)) = it.next() {
        out.push((k, v.clone()));
    }
    out
}

#[test]
fn hamt_new() {
    let _ = HAMT::new(0) as HAMT<usize>;
}

#[test]
fn hamt_insert() {
    let h = HAMT::new(0);

    assert_eq!(h.size(), 0);

    let (h, b) = h.insert(0, 0);

    assert!(b);
    assert_eq!(h.size(), 1);

    let (hh, b) = h.insert(0, 0);

    assert!(!b);
    assert_eq!(hh.size(), 1);

    let (h, b) = h.insert(1, 0);

    assert!(b);
    assert_eq!(h.size(), 2);
}

#[test]
fn insert_many_in_order() {
    let mut h = HAMT::new(0);

    for i in 0..NUM_ITERATIONS {
        let (hh, b) = h.insert(i as u64, i);
        h = hh;
        assert!(b);
        assert_eq!(h.size(), i + 1);
    }
}

#[test]
fn insert_many_at_random() {
    let mut d = Draws(0x2545_f491_4f6c_dd1d);
    let mut h: HAMT<u64> = HAMT::new(0);

    for i in 0..NUM_ITERATIONS {
        let k = d.next();
        h = h.insert(k, k).0;
        assert_eq!(h.size(), i + 1);
    }
}

#[test]
fn hamt_remove() {
    let h = HAMT::new(0);

    assert_eq!(h.insert(0, 0).0.remove(&0), Some(h.clone()));
    assert_eq!(h.insert(0, 0).0.remove(&1), None);
    assert_eq!(
        h.insert(0, 0).0.insert(1, 0).0.remove(&0),
        Some(h.insert(1, 0).0)
    );
    assert_eq!(
        h.insert(0, 0).0.insert(1, 0).0.remove(&1),
        Some(h.insert(0, 0).0)
    );
    assert_eq!(h.insert(0, 0).0.insert(1, 0).0.remove(&2), None);
}

#[test]
fn insert_delete_many() {
    let mut d = Draws(0x9e37_79b9_7f4a_7c15);
    let mut h: HAMT<i16> = HAMT::new(0);

    for _ in 0..NUM_ITERATIONS {
        let k = d.next() as u16 as u64;
        let s = h.size();
        let found = h.get(&k).is_some();

        if d.next() % 2 == 0 {
            h = h.insert(k, k as i16).0;

            assert_eq!(h.size(), if found { s } else { s + 1 });
            assert_eq!(h.get(&k), Some(&(k as i16)));
        } else {
            h = h.remove(&k).unwrap_or(h);

            assert_eq!(h.size(), if found { s - 1 } else { s });
            assert_eq!(h.get(&k), None);
        }

        assert!(h.is_normal());
    }
}

#[test]
fn hamt_get() {
    let h = HAMT::new(0);

    assert_eq!(h.insert(0, 0).0.get(&0), Some(&0));
    assert_eq!(h.insert(0, 0).0.get(&1), None);
    assert_eq!(h.insert(1, 0).0.get(&0), None);
    assert_eq!(h.insert(1, 0).0.get(&1), Some(&0));
    assert_eq!(h.insert(0, 0).0.insert(1, 0).0.get(&0), Some(&0));
    assert_eq!(h.insert(0, 0).0.insert(1, 0).0.get(&1), Some(&0));
    assert_eq!(h.insert(0, 0).0.insert(1, 0).0.get(&2), None);
}

#[test]
fn equality() {
    let mut d = Draws(0x0123_4567_89ab_cdef);

    for _ in 0..8 {
        let mut hs: [HAMT<i16>; 2] = [HAMT::new(0), HAMT::new(0)];
        let mut is: Vec<u64> = (0..NUM_ITERATIONS).map(|_| d.next() as u16 as u64).collect();
        let mut ds: Vec<u64> = (0..NUM_ITERATIONS).map(|_| d.next() as u16 as u64).collect();

        for h in hs.iter_mut() {
            d.shuffle(&mut is);
            d.shuffle(&mut ds);

            for i in &is {
                *h = h.insert(*i, *i as i16).0;
            }

            for k in &ds {
                *h = h.remove(k).unwrap_or(h.clone());
            }
        }

        assert_eq!(hs[0], hs[1]);
    }
}

#[test]
fn collision() {
    let mut h = HAMT::new(MAX_LEVEL);
    let mut s = HashSet::new();

    for k in 0u64.. {
        assert!(!h.contain_bucket());

        h = h.insert(k, k).0;

        let i = hash(&k) >> 60;

        if s.contains(&i) {
            break;
        }

        s.insert(i);
    }

    assert!(h.contain_bucket());
}

#[test]
fn iterator() {
    let mut d = Draws(0x5555_aaaa_1234_4321);
    let mut ss: Vec<usize> = (0..42).collect();

    for _ in 0..100 {
        ss.push(d.next() as usize % 1024);
    }

    for l in vec![0, MAX_LEVEL] {
        for s in &ss {
            let mut h: HAMT<i16> = HAMT::new(l);
            let mut m: HashMap<u64, i16> = HashMap::new();

            for _ in 0..*s {
                let k = d.next() as u16 as u64;
                let v = d.next() as i16;

                let (hh, _) = h.insert(k, v);
                h = hh;

                m.insert(k, v);
            }

            let mut s = 0;
            let mut it = h.iter();

            while let Some((k, v)) = it.next() {
                s += 1;

                assert_eq!(m[&k], *v);
            }

            assert_eq!(s, h.size());
        }
    }
}

#[test]
fn iterate_with_buckets() {
    let ks = (0..1000u64).collect::<Vec<_>>();

    let mut h = HAMT::new(MAX_LEVEL);

    for k in &ks {
        h = h.insert(*k, *k).0;
    }

    assert_eq!(ks.len(), collect(&h).len())
}

#[test]
fn scenario_versions() {
    let h0 = HAMT::new(0);
    let (h1, new1) = h0.insert(1, "a");
    assert!(new1);
    assert_eq!(h1.size(), 1);

    let (h2, new2) = h1.insert(1, "b");
    assert!(!new2);
    assert_eq!(h2.size(), 1);
    assert_eq!(h2.get(&1), Some(&"b"));

    let (h3, new3) = h2.insert(2, "c");
    assert!(new3);
    assert_eq!(h3.size(), 2);

    let h4 = h3.remove(&1).unwrap();
    assert_eq!(h4.size(), 1);
    assert_eq!(h4.get(&1), None);
    assert_eq!(h4.get(&2), Some(&"c"));

    assert!(h4.remove(&1).is_none());
    assert_eq!(h4.size(), 1);
}

#[test]
fn get_after_insert_holds_for_many_keys() {
    let mut d = Draws(77);
    let mut h: HAMT<u64> = HAMT::new(0);

    for _ in 0..500 {
        let k = d.next() % 2000;
        let v = d.next();
        h = h.insert(k, v).0;
        assert_eq!(h.get(&k), Some(&v));
    }
}

#[test]
fn reinsert_keeps_size() {
    let h = HAMT::new(0).insert(5, 1).0.insert(6, 2).0;
    let (h2, new) = h.insert(5, 9);

    assert!(!new);
    assert_eq!(h2.size(), h.size());
    assert_eq!(h2.get(&5), Some(&9));

    let (h3, new) = h2.insert(5, 9);
    assert!(!new);
    assert_eq!(h3.size(), 2);
}

#[test]
fn remove_undoes_insert() {
    let mut h: HAMT<u64> = HAMT::new(0);
    for k in 0..300u64 {
        h = h.insert(k * 7, k).0;
    }

    let back = h.insert(1000, 1).0.remove(&1000).unwrap();
    assert_eq!(back, h);
    assert_eq!(back.size(), h.size());
}

#[test]
fn old_version_is_unaffected_by_insert() {
    let mut h: HAMT<u64> = HAMT::new(0);
    for k in 0..200u64 {
        h = h.insert(k, k * 2).0;
    }
    let before = collect(&h);

    let (h2, _) = h.insert(50, 1);
    let (h3, _) = h2.insert(9999, 3);
    let h4 = h3.remove(&10).unwrap();

    assert_eq!(h.get(&50), Some(&100));
    assert_eq!(h.get(&9999), None);
    assert_eq!(h.get(&10), Some(&20));
    assert_eq!(collect(&h), before);
    assert_eq!(h4.get(&50), Some(&1));
    assert_eq!(h4.get(&10), None);
}

#[test]
fn iterate_yields_each_key_once() {
    let mut h: HAMT<u64> = HAMT::new(0);
    for k in 0..2000u64 {
        h = h.insert(k, k + 1).0;
    }
    for k in 0..500u64 {
        h = h.remove(&(k * 3)).unwrap();
    }

    let pairs = collect(&h);
    let keys: HashSet<u64> = pairs.iter().map(|p| p.0).collect();

    assert_eq!(pairs.len(), h.size());
    assert_eq!(keys.len(), pairs.len());
    for k in 0..2000u64 {
        assert_eq!(keys.contains(&k), k % 3 != 0 || k >= 1500);
    }
    for (k, v) in pairs {
        assert_eq!(v, k + 1);
    }
}

#[test]
fn bucket_branch_get_remove_size() {
    // Keys whose top four hash bits agree share a slot at the deepest level.
    let mut by_top: HashMap<u64, Vec<u64>> = HashMap::new();
    let mut k = 0u64;
    let group = loop {
        let e = by_top.entry(hash(&k) >> 60).or_default();
        e.push(k);
        if e.len() == 3 {
            break e.clone();
        }
        k += 1;
    };

    let mut h = HAMT::new(MAX_LEVEL);
    for (i, k) in group.iter().enumerate() {
        h = h.insert(*k, i).0;
    }

    assert!(h.contain_bucket());
    assert_eq!(h.size(), 3);
    assert_eq!(h.get(&group[1]), Some(&1));
    assert!(h.is_normal());

    let h2 = h.remove(&group[0]).unwrap();
    assert!(h2.contain_bucket());
    assert_eq!(h2.size(), 2);
    assert_eq!(h2.get(&group[0]), None);
    assert_eq!(h2.get(&group[2]), Some(&2));
    assert!(h2.remove(&group[0]).is_none());

    let h3 = h2.remove(&group[1]).unwrap();
    assert!(!h3.contain_bucket());
    assert_eq!(h3.size(), 1);
    assert_eq!(h3.get(&group[2]), Some(&2));
    assert!(h3.is_normal());

    let h4 = h3.remove(&group[2]).unwrap();
    assert_eq!(h4.size(), 0);
    assert_eq!(h4, HAMT::new(MAX_LEVEL));
}

#[test]
fn deep_collapse_keeps_tree_normal() {
    let mut h: HAMT<u64> = HAMT::new(0);
    for k in 0..3000u64 {
        h = h.insert(k, k).0;
    }
    for k in 0..2999u64 {
        h = h.remove(&k).unwrap();
        assert!(h.is_normal());
    }
    assert_eq!(h.size(), 1);
    assert!(h.is_singleton());
    assert_eq!(h.get(&2999), Some(&2999));
}
