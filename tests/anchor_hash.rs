use std::collections::HashSet;

use anchorhash::{AnchorHash, Builder, Error};

#[derive(Debug, PartialEq)]
struct BackendServer {
    id: usize,
}

#[test]
fn test_build_with_resources() {
    let servers = vec!["A", "B", "C", "D"];

    let a: AnchorHash<usize, _, _> = Builder::default().with_resources(servers.clone()).build(10);

    // A bucket was allocated for each resource.
    let working = a.anchor().working_buckets();
    assert_eq!(working.len(), servers.len());

    // The resources are fully populated.
    assert_eq!(a.resources().len(), servers.len());

    // Every bucket holding a resource is working.
    for bucket in 0..10u16 {
        if a.resource_at(bucket).is_some() {
            assert!(working.contains(&bucket));
        }
    }

    // All the resources are present.
    let values = a.resources().into_iter().cloned().collect::<HashSet<_>>();
    assert_eq!(values, servers.into_iter().collect::<HashSet<_>>());
}

#[test]
fn test_anchorhash_borrowed_resources() {
    let server_a = BackendServer { id: 1 };
    let server_b = BackendServer { id: 2 };

    let mut a = Builder::default().build(20);

    a.add_resource(&server_a).unwrap();
    a.add_resource(&server_b).unwrap();

    let got = a.get_resource("a key").expect("should return a resource");
    assert!(got == &&server_a || got == &&server_b);

    a.remove_resource(&&server_b)
        .expect("removing existing resource should succeed");
    let got = a.get_resource("a key").expect("should return a resource");
    assert_eq!(got, &&server_a);
}

#[test]
fn test_anchorhash_owned_resources() {
    let server_a = BackendServer { id: 1 };
    let server_b = BackendServer { id: 2 };

    let mut a = Builder::default().build(20);

    a.add_resource(&server_a).unwrap();
    a.add_resource(&server_b).unwrap();

    let got = a.get_resource("a key").expect("should return a resource");
    assert!(got == &&server_a || got == &&server_b);

    a.remove_resource(&&server_b)
        .expect("removing existing resource should succeed");
    let got = a.get_resource("a key").expect("should return a resource");
    assert_eq!(got, &&server_a);
}

#[test]
fn owned_resource_values() {
    let server_a = BackendServer { id: 1 };
    let server_b = BackendServer { id: 2 };

    let mut a = Builder::default().build(20);

    a.add_resource(BackendServer { id: 1 }).unwrap();
    a.add_resource(BackendServer { id: 2 }).unwrap();

    let got = a.get_resource("a key").expect("should return a resource");
    assert!(got == &server_a || got == &server_b);

    a.remove_resource(&server_b)
        .expect("removing existing resource should succeed");
    let got = a.get_resource("a key").expect("should return a resource");
    assert_eq!(got, &server_a);
}

#[test]
fn test_full() {
    let mut a: AnchorHash<usize, _, _> = Builder::default().build(2);

    a.add_resource(1).unwrap();
    a.add_resource(2).unwrap();

    let err = a
        .add_resource(3)
        .expect_err("should not allow 3rd resource for capacity == 2");

    assert_eq!(err, Error::CapacityLimitReached);
}

#[test]
fn test_remove_not_found() {
    let mut a: AnchorHash<usize, _, _> = Builder::default().build(2);

    a.add_resource(1).unwrap();
    a.add_resource(2).unwrap();

    let err = a
        .remove_resource(&3)
        .expect_err("should not allow removing non-existant resource");

    assert_eq!(err, Error::ResourceNotFound);
    assert_eq!(a.resources().len(), 2);
}

#[test]
fn test_cloneable() {
    let mut a: AnchorHash<usize, _, _> = Builder::default().build(2);

    a.add_resource(1).unwrap();
    a.add_resource(2).unwrap();

    let b = a.clone();

    let got_a = a.resources().into_iter().cloned().collect::<HashSet<_>>();
    let got_b = b.resources().into_iter().cloned().collect::<HashSet<_>>();
    assert_eq!(got_a, got_b);

    for i in 0..100 {
        assert_eq!(a.get_resource(i), b.get_resource(i));
    }
}

#[test]
fn basic_routing_covers_all_resources() {
    let a: AnchorHash<String, _, _> = Builder::default()
        .with_resources(vec!["A", "B", "C"])
        .build(10);
    for key in ["user-1", "user-2", "user-3"] {
        let got = *a.get_resource(key.to_string()).unwrap();
        assert!(["A", "B", "C"].contains(&got));
    }
    let mut seen = HashSet::new();
    for i in 0..10_000u32 {
        seen.insert(*a.get_resource(format!("key-{}", i)).unwrap());
    }
    assert_eq!(seen.len(), 3);
}

#[test]
fn remove_keeps_keys_of_other_resources() {
    let mut a: AnchorHash<u32, _, _> = Builder::default()
        .with_resources(vec!["A", "B", "C"])
        .build(10);
    let keys: Vec<u32> = (0..1000u32).map(|i| i.wrapping_mul(2_654_435_761)).collect();
    let before: Vec<&str> = keys.iter().map(|&k| *a.get_resource(k).unwrap()).collect();
    a.remove_resource(&"B").unwrap();
    for (i, &k) in keys.iter().enumerate() {
        let now = *a.get_resource(k).unwrap();
        if before[i] == "B" {
            assert!(now == "A" || now == "C");
        } else {
            assert_eq!(now, before[i]);
        }
    }
}

#[test]
fn reclaimed_buckets_come_back_last_removed_first() {
    let mut a: AnchorHash<u32, _, _> = Builder::default()
        .with_resources(vec!["A", "B", "C", "D"])
        .build(4);
    assert_eq!(a.resource_at(1), Some(&"B"));
    assert_eq!(a.resource_at(3), Some(&"D"));
    a.remove_resource(&"B").unwrap();
    a.remove_resource(&"D").unwrap();
    a.add_resource("E").unwrap();
    a.add_resource("F").unwrap();
    assert_eq!(a.resource_at(3), Some(&"E"));
    assert_eq!(a.resource_at(1), Some(&"F"));
}

#[test]
fn clone_is_independent_of_its_source() {
    let mut a: AnchorHash<u32, _, _> = Builder::default().with_resources(vec!["A", "B"]).build(2);
    let c = a.clone();
    let before: Vec<&str> = (0..500u32).map(|k| *c.get_resource(k).unwrap()).collect();
    a.remove_resource(&"A").unwrap();
    for k in 0..500u32 {
        assert_eq!(*c.get_resource(k).unwrap(), before[k as usize]);
        assert_eq!(*a.get_resource(k).unwrap(), "B");
    }
}

#[test]
fn capacity_limit_exactly_when_full() {
    let mut a: AnchorHash<u32, _, _> = Builder::default().build(3);
    for r in 0..3 {
        assert_eq!(a.anchor().working_count(), r);
        assert_eq!(a.add_resource(r), Ok(()));
    }
    assert_eq!(a.add_resource(9), Err(Error::CapacityLimitReached));
    a.remove_resource(&1).unwrap();
    assert_eq!(a.add_resource(9), Ok(()));
    assert_eq!(a.add_resource(10), Err(Error::CapacityLimitReached));
}

#[test]
fn add_then_remove_restores_mapping() {
    let mut a: AnchorHash<u32, _, _> = Builder::default()
        .with_resources(vec![10u32, 20, 30, 40])
        .build(8);
    let before: Vec<u32> = (0..1000u32).map(|k| *a.get_resource(k).unwrap()).collect();
    a.add_resource(50).unwrap();
    assert!((0..1000u32).any(|k| *a.get_resource(k).unwrap() == 50));
    a.remove_resource(&50).unwrap();
    let after: Vec<u32> = (0..1000u32).map(|k| *a.get_resource(k).unwrap()).collect();
    assert_eq!(before, after);
}

#[test]
fn resource_count_follows_successful_changes() {
    let mut a: AnchorHash<u32, _, _> = Builder::default().build(3);
    let mut expected = 0usize;
    let ops: [(bool, u32); 8] = [
        (true, 1),
        (true, 2),
        (false, 7),
        (true, 3),
        (true, 4),
        (false, 2),
        (false, 2),
        (true, 5),
    ];
    for (add, r) in ops {
        let ok = if add {
            a.add_resource(r).is_ok()
        } else {
            a.remove_resource(&r).is_ok()
        };
        if ok {
            if add {
                expected += 1;
            } else {
                expected -= 1;
            }
        }
        assert_eq!(a.resources().len(), expected);
    }
    assert_eq!(expected, 3);
}

#[test]
fn same_hasher_and_history_give_same_mapping() {
    let build = || {
        let mut a: AnchorHash<u64, &str, fnv::FnvBuildHasher> =
            Builder::with_hasher(fnv::FnvBuildHasher::default())
                .with_resources(vec!["a", "b", "c", "d", "e"])
                .build(16);
        a.remove_resource(&"c").unwrap();
        a.add_resource("f").unwrap();
        a.remove_resource(&"a").unwrap();
        a
    };
    let x = build();
    let y = build();
    for k in 0..2000u64 {
        assert_eq!(x.get_resource(k), y.get_resource(k));
    }
}

#[test]
fn zero_capacity_holds_nothing() {
    let mut a: AnchorHash<u32, u32, _> = Builder::default().build(0);
    assert_eq!(a.get_resource(5), None);
    assert_eq!(a.add_resource(1), Err(Error::CapacityLimitReached));
    assert_eq!(a.remove_resource(&1), Err(Error::ResourceNotFound));
}

#[test]
fn empty_binding_returns_no_resource() {
    let mut a: AnchorHash<u32, _, _> = Builder::default().with_resources(vec![1u32]).build(4);
    assert_eq!(a.get_resource(3), Some(&1));
    a.remove_resource(&1).unwrap();
    assert_eq!(a.get_resource(3), None);
    assert_eq!(a.resource_for_hash(77), None);
    a.add_resource(2).unwrap();
    assert_eq!(a.resource_for_hash(77), Some(&2));
}

#[test]
fn duplicate_resources_remove_the_first_bucket() {
    let mut a: AnchorHash<u32, _, _> = Builder::default().with_resources(vec![7u32, 8, 7]).build(4);
    a.remove_resource(&7).unwrap();
    assert_eq!(a.resource_at(0), None);
    assert_eq!(a.resource_at(2), Some(&7));
}

#[test]
fn from_resources_fills_capacity() {
    let mut a: AnchorHash<u32, _, _> = AnchorHash::from_resources(vec!["A", "B"]);
    assert_eq!(a.anchor().capacity(), 2);
    assert_eq!(a.add_resource("C"), Err(Error::CapacityLimitReached));
}
