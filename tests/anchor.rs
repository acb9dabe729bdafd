use std::cmp::{max, min};
use std::collections::{HashMap, HashSet};

use anchorhash::Anchor;
use rand::{Rng, SeedableRng};

#[test]
fn test_init_empty() {
    const WANT_SIZE: usize = 20;

    let a = Anchor::new(WANT_SIZE as _, 0);
    assert_eq!(a.anchor_values().len(), WANT_SIZE);
    assert!(a
        .anchor_values()
        .iter()
        .enumerate()
        .all(|(i, &v)| i == v as usize));

    assert_eq!(a.removed_stack().len(), WANT_SIZE); // Fully unused
    assert_eq!(a.working_count(), 0);

    assert_eq!(a.successors().len(), WANT_SIZE);
    assert_eq!(a.last_positions().len(), WANT_SIZE);
    assert_eq!(a.working_slots().len(), WANT_SIZE);

    for i in 0..WANT_SIZE {
        assert_eq!(a.successors()[i], i as u16);
        assert_eq!(a.last_positions()[i], i as u16);
        assert_eq!(a.working_slots()[i], i as u16);
    }
}

#[test]
fn test_init_populated() {
    const WANT_SIZE: usize = 20;
    const WORKING: usize = 15;

    let a = Anchor::new(WANT_SIZE as _, WORKING as _);
    assert_eq!(a.anchor_values().len(), WANT_SIZE);

    // All working buckets are 0.
    assert!(a.anchor_values().iter().take(WORKING).all(|&v| v == 0));

    // All non-working buckets hold their bucket index.
    for (&i, v) in a.anchor_values().iter().skip(WORKING).zip(WORKING..) {
        assert_eq!(i, v as u16);
    }

    // The stack holds the 5 end buckets.
    assert_eq!(*a.removed_stack(), vec![19, 18, 17, 16, 15]);
    assert_eq!(a.removed_stack().len(), WANT_SIZE - WORKING);

    assert_eq!(a.working_count(), WORKING as u16);

    assert_eq!(a.successors().len(), WANT_SIZE);
    assert_eq!(a.last_positions().len(), WANT_SIZE);
    assert_eq!(a.working_slots().len(), WANT_SIZE);

    for i in 0..WANT_SIZE {
        assert_eq!(a.successors()[i], i as u16);
        assert_eq!(a.last_positions()[i], i as u16);
        assert_eq!(a.working_slots()[i], i as u16);
    }
}

#[test]
fn test_add_bucket_full_anchor() {
    const SIZE: u16 = 20;
    let mut a = Anchor::new(SIZE, SIZE);
    if a.add_bucket().is_some() {
        panic!("adding bucket to full anchor should fail");
    }
}

#[test]
fn test_bucket_balance() {
    let mut rng = rand::thread_rng();

    // The number of working buckets; much smaller than the number of keys.
    const WORKING_BUCKETS: u16 = 10;

    // The number of keys hashed into the working buckets to measure balance.
    const KEYS: usize = 10_000;

    let a = Anchor::new(200, WORKING_BUCKETS);

    let mut seen = HashMap::new();
    for _ in 0..KEYS {
        let k = rng.gen();
        let got = a.get_bucket(k);
        let counter = seen.entry(got.id()).or_insert(0);
        *counter += 1;
    }

    // All working buckets must be used.
    assert_eq!(seen.len(), WORKING_BUCKETS as _);

    // All buckets are roughly balanced.
    let mut got_min = 0;
    let mut got_max = 0;
    for (k, v) in seen.into_iter() {
        println!("bucket {} has {} hits", k, v);
        got_min = min(v, got_min);
        got_max = max(v, got_max);
    }

    if (f64::from(got_max) * 0.9) < f64::from(got_min) {
        panic!(
            "expected max bucket hits ({}) to be within 10% of min bucket hits ({})",
            got_max, got_min
        );
    }
}

#[test]
fn get_returns_working_buckets_through_removals() {
    let num_buckets: u16 = 64;
    let mut a = Anchor::new(num_buckets, 0);
    let mut working = HashSet::new();
    for _ in 0..num_buckets {
        working.insert(a.add_bucket().unwrap());
    }
    let mut k: u32 = 12345;
    for _ in 0..5000 {
        k = k.wrapping_mul(1_664_525).wrapping_add(1_013_904_223);
        let got = a.get_bucket(k).id();
        assert!(working.contains(&got));
        assert_eq!(a.anchor_values()[got as usize], 0);
        if working.len() > 1 {
            a.remove_bucket(got);
            assert!(working.remove(&got));
        }
    }
}

#[test]
fn add_restores_buckets_in_ascending_order() {
    let mut a = Anchor::new(5, 2);
    assert_eq!(a.add_bucket(), Some(2));
    assert_eq!(a.add_bucket(), Some(3));
    assert_eq!(a.add_bucket(), Some(4));
    assert_eq!(a.add_bucket(), None);
    assert_eq!(a.working_buckets(), vec![0, 1, 2, 3, 4]);
}

#[test]
fn remove_then_add_restores_every_record() {
    let mut a = Anchor::new(30, 30);
    a.remove_bucket(7);
    a.remove_bucket(29);
    let before = a.clone();
    a.remove_bucket(3);
    assert_eq!(a.working_count(), 27);
    assert_eq!(a.anchor_values()[3], 27);
    assert_eq!(a.add_bucket(), Some(3));
    assert_eq!(a.anchor_values(), before.anchor_values());
    assert_eq!(a.removed_stack(), before.removed_stack());
    assert_eq!(a.working_slots(), before.working_slots());
    assert_eq!(a.successors(), before.successors());
    assert_eq!(a.last_positions(), before.last_positions());
}

#[test]
fn working_buckets_is_empty_without_working_buckets() {
    let a = Anchor::new(20, 0);
    assert!(a.working_buckets().is_empty());
    let mut b = Anchor::new(3, 1);
    b.remove_bucket(0);
    assert!(b.working_buckets().is_empty());
    assert_eq!(b.anchor_values()[0], 0);
}

#[test]
fn minimal_disruption_on_remove_and_readd() {
    let mut a = Anchor::new(100, 40);
    let keys: Vec<u32> = (0..2000u32)
        .map(|i| i.wrapping_mul(2_654_435_761).rotate_left(7))
        .collect();
    let before: Vec<u16> = keys.iter().map(|&k| a.get_bucket(k).id()).collect();
    let victim = before[0];
    a.remove_bucket(victim);
    let after: Vec<u16> = keys.iter().map(|&k| a.get_bucket(k).id()).collect();
    for i in 0..keys.len() {
        if before[i] == victim {
            assert_ne!(after[i], victim);
        } else {
            assert_eq!(after[i], before[i]);
        }
    }
    assert_eq!(a.add_bucket(), Some(victim));
    let again: Vec<u16> = keys.iter().map(|&k| a.get_bucket(k).id()).collect();
    assert_eq!(again, before);
}

#[test]
fn balance_over_working_buckets() {
    let mut rng = rand::rngs::StdRng::seed_from_u64(7);
    let a = Anchor::new(200, 10);
    let mut hits = vec![0u32; 200];
    for _ in 0..100_000 {
        let k: u32 = rng.gen();
        hits[a.get_bucket(k).id() as usize] += 1;
    }
    let used: Vec<u32> = hits.iter().copied().filter(|&h| h > 0).collect();
    assert_eq!(used.len(), 10);
    assert!(hits.iter().skip(10).all(|&h| h == 0));
    let lo = *used.iter().min().unwrap();
    let hi = *used.iter().max().unwrap();
    assert!(f64::from(lo) / f64::from(hi) >= 0.9);
}

#[test]
fn remapped_only_when_a_successor_is_followed() {
    let a = Anchor::new(10, 10);
    for k in [0u32, 1, 99, u32::MAX] {
        assert!(matches!(a.get_bucket(k), anchorhash::Bucket::Original(_)));
    }
}

#[test]
fn remapped_after_out_of_order_removals() {
    let mut a = Anchor::new(50, 50);
    for b in 0..40u16 {
        a.remove_bucket(b);
    }
    let mut remapped = 0;
    for i in 0..1000u32 {
        let k = i.wrapping_mul(2_654_435_761);
        let got = a.get_bucket(k);
        assert!(got.id() >= 40);
        if matches!(got, anchorhash::Bucket::Remapped(_)) {
            remapped += 1;
        }
    }
    assert!(remapped > 0);
}
