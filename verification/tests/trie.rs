use contrie::hash::{IdentityHasher, NoHasher};
use contrie::raw::{Leaf, Raw, TraverseMode, TraverseState};
use contrie::raw::{LEVEL_BITS, LEVEL_CELLS, LEVEL_MASK, MAX_LEVELS};

#[test]
fn consts_consistent() {
    assert_eq!(LEVEL_BITS, LEVEL_MASK.count_ones() as usize);
    assert_eq!(LEVEL_BITS, (!LEVEL_MASK).trailing_zeros() as usize);
    assert_eq!(LEVEL_CELLS, 2usize.pow(LEVEL_BITS as u32));
}

#[test]
fn max_levels_consistent() {
    assert_eq!(MAX_LEVELS, 64 / LEVEL_BITS);
    assert_eq!(MAX_LEVELS * LEVEL_BITS, 64);
}

#[test]
fn leaf_accessors() {
    let l = Leaf::new(7u64, 13u64);
    assert_eq!(*l.key(), 7);
    assert_eq!(*l.value(), 13);
}

const A: u64 = 101;
const B: u64 = 202;
const C: u64 = 303;

#[test]
fn two_inserts_and_gets() {
    let t = &mut Raw::with_hasher(NoHasher);
    assert!(t.insert(Leaf::new(A, 1)).is_none());
    assert!(t.insert(Leaf::new(B, 2)).is_none());
    assert_eq!(*t.get(A).unwrap().value(), 1);
    assert_eq!(*t.get(B).unwrap().value(), 2);
    assert!(t.get(C).is_none());
}

#[test]
fn overwrite_returns_displaced() {
    let t = &mut Raw::with_hasher(NoHasher);
    assert!(t.insert(Leaf::new(A, 1)).is_none());
    let displaced = t.insert(Leaf::new(A, 2)).unwrap();
    assert_eq!(*displaced.key(), A);
    assert_eq!(*displaced.value(), 1);
    assert_eq!(*t.get(A).unwrap().value(), 2);
}

#[test]
fn remove_then_empty() {
    let t = &mut Raw::with_hasher(NoHasher);
    t.insert(Leaf::new(A, 1));
    let removed = t.remove(A).unwrap();
    assert_eq!(*removed.value(), 1);
    assert!(t.get(A).is_none());
    assert!(t.is_empty());
}

#[test]
fn get_or_insert_with_idempotent() {
    let t = &mut Raw::with_hasher(NoHasher);
    let first = t.get_or_insert_with(A, |k| Leaf::new(k, 1));
    assert_eq!(*first.value(), 1);
    let mut called = false;
    let second = t.get_or_insert_with(A, |k| {
        called = true;
        Leaf::new(k, 9)
    });
    assert_eq!(*second.value(), 1);
    assert!(!called);
    assert_eq!(*t.get(A).unwrap().value(), 1);
}

#[test]
fn remove_middle_of_collision_bucket() {
    let t = &mut Raw::with_hasher(NoHasher);
    t.insert(Leaf::new(A, 1));
    t.insert(Leaf::new(B, 2));
    t.insert(Leaf::new(C, 3));
    let removed = t.remove(B).unwrap();
    assert_eq!(*removed.value(), 2);
    assert_eq!(*t.get(A).unwrap().value(), 1);
    assert!(t.get(B).is_none());
    assert_eq!(*t.get(C).unwrap().value(), 3);
    assert!(!t.is_empty());
}

#[test]
fn thousand_keys_identity_hasher() {
    let t = &mut Raw::with_hasher(IdentityHasher);
    for k in 0..1000u64 {
        assert!(t.insert(Leaf::new(k, k * 2)).is_none());
    }
    for k in 0..1000u64 {
        assert_eq!(*t.get(k).unwrap().value(), k * 2);
    }
    for k in (0..1000u64).step_by(2) {
        let removed = t.remove(k).unwrap();
        assert_eq!(*removed.value(), k * 2);
    }
    assert!(!t.is_empty());
    for k in 0..1000u64 {
        if k % 2 == 0 {
            assert!(t.get(k).is_none());
        } else {
            assert_eq!(*t.get(k).unwrap().value(), k * 2);
        }
    }
}

/// Seventeen keys sharing their low four hash bits but differing in bits
/// four to seven force the root bucket to split exactly one level down.
#[test]
fn split_on_shared_low_bits() {
    let t = &mut Raw::with_hasher(IdentityHasher);
    let mut keys: Vec<u64> = (0..16u64).map(|i| 0x05 | (i << 4)).collect();
    keys.push(0x105);
    for (i, &k) in keys.iter().enumerate() {
        assert!(t.insert(Leaf::new(k, i as u64)).is_none());
    }
    for (i, &k) in keys.iter().enumerate() {
        assert_eq!(*t.get(k).unwrap().value(), i as u64);
    }
    for &k in keys.iter() {
        assert!(t.remove(k).is_some());
    }
    assert!(t.is_empty());
}

/// Keys with identical hashes exhaust all sixty-four hash bits and end in
/// one deep collision bucket; every operation still behaves like the map.
#[test]
fn identical_hashes_deep_bucket() {
    let t = &mut Raw::with_hasher(NoHasher);
    for k in 0..20u64 {
        assert!(t.insert(Leaf::new(k, 1000 + k)).is_none());
    }
    for k in 0..20u64 {
        assert_eq!(*t.get(k).unwrap().value(), 1000 + k);
    }
    for k in 0..20u64 {
        assert_eq!(*t.remove(k).unwrap().value(), 1000 + k);
        assert!(t.remove(k).is_none());
    }
    assert!(t.is_empty());
}

/// Removing the last payload of a bucket that sits two levels down prunes
/// the emptied inner nodes all the way back up to the root.
#[test]
fn remove_prunes_deep_branch() {
    let t = &mut Raw::with_hasher(IdentityHasher);
    t.insert(Leaf::new(0x000, 1));
    t.insert(Leaf::new(0x100, 2));
    assert_eq!(*t.remove(0x100).unwrap().value(), 2);
    assert_eq!(*t.get(0x000).unwrap().value(), 1);
    assert_eq!(*t.remove(0x000).unwrap().value(), 1);
    assert!(t.is_empty());
}

/// Removing a bucket whose sibling is an inner node keeps that subtree in
/// place (the prune outcome that keeps an equivalent node ends the upward
/// walk); the remaining keys stay reachable.
#[test]
fn remove_beside_inner_sibling() {
    let t = &mut Raw::with_hasher(IdentityHasher);
    t.insert(Leaf::new(0x0000, 1));
    t.insert(Leaf::new(0x0010, 2));
    t.insert(Leaf::new(0x0110, 3));
    assert_eq!(*t.remove(0x0000).unwrap().value(), 1);
    assert_eq!(*t.get(0x0010).unwrap().value(), 2);
    assert_eq!(*t.get(0x0110).unwrap().value(), 3);
    assert!(!t.is_empty());
}

#[test]
fn second_remove_returns_none() {
    let t = &mut Raw::with_hasher(IdentityHasher);
    t.insert(Leaf::new(A, 1));
    assert_eq!(*t.remove(A).unwrap().value(), 1);
    assert!(t.remove(A).is_none());
    assert!(t.is_empty());
}

#[test]
fn traverse_state_accessors() {
    let mut created = TraverseState::<fn(u64) -> Leaf<u64, u64>>::Created(Leaf::new(A, 5));
    assert_eq!(created.key(), A);
    let pl = created.payload();
    assert_eq!(*pl.value(), 5);
    assert!(created.into_return(TraverseMode::Overwrite).is_none());

    let future = TraverseState::Future { key: B, constructor: |k: u64| Leaf::new(k, 6) };
    assert_eq!(future.key(), B);
    let pl = future.into_payload();
    assert_eq!(*pl.key(), B);
    assert_eq!(*pl.value(), 6);

    let mut future = TraverseState::Future { key: C, constructor: |k: u64| Leaf::new(k, 7) };
    let pl = future.payload();
    assert_eq!(*pl.value(), 7);
    let ret = future.into_return(TraverseMode::IfMissing).unwrap();
    assert_eq!(*ret.value(), 7);
}

/// The mix of operations agrees with a reference map model.
#[test]
fn agrees_with_reference_model() {
    let t = &mut Raw::with_hasher(IdentityHasher);
    let mut model: std::collections::BTreeMap<u64, u64> = std::collections::BTreeMap::new();
    let mut x: u64 = 0x9e3779b97f4a7c15;
    for step in 0..2000u64 {
        x = x.wrapping_mul(6364136223846793005).wrapping_add(1442695040888963407);
        let k = (x >> 33) % 64;
        match step % 3 {
            0 => {
                let prev = t.insert(Leaf::new(k, step));
                assert_eq!(prev.map(|l| *l.value()), model.insert(k, step));
            }
            1 => {
                let got = t.get(k);
                assert_eq!(got.map(|l| *l.value()), model.get(&k).copied());
            }
            _ => {
                let removed = t.remove(k);
                assert_eq!(removed.map(|l| *l.value()), model.remove(&k));
            }
        }
    }
    for k in 0..64u64 {
        assert_eq!(t.get(k).map(|l| *l.value()), model.get(&k).copied());
    }
    assert_eq!(t.is_empty(), model.is_empty());
}
