use std::iter::FusedIterator;

use anchorhash::AnchorHash;

fn assert_fused_impl<F: FusedIterator>(_iter: F) {}

#[test]
fn test_iter_fused() {
    let a = AnchorHash::<usize, _, _>::from_resources(vec!["A", "B", "C", "D"]);

    assert_fused_impl(a.resources().into_iter());
}

#[test]
fn test_iter_mut_fused() {
    let mut a = AnchorHash::<usize, _, _>::from_resources(vec!["A", "B", "C", "D"]);

    assert_fused_impl(a.resources_mut().into_iter());
}

#[test]
fn test_exact_size_iter() {
    let a = AnchorHash::<usize, _, _>::from_resources(vec!["A", "B", "C", "D"]);

    let got = a.resources().len();
    assert_eq!(got, 4);
}

#[test]
fn test_exact_size_iter_mut() {
    let mut a = AnchorHash::<usize, _, _>::from_resources(vec!["A", "B", "C", "D"]);

    let got = a.resources_mut().len();
    assert_eq!(got, 4);
}

#[test]
fn test_resource_iter() {
    let mut resources = vec!["A", "B", "C", "D"];
    let a = AnchorHash::<usize, _, _>::from_resources(resources.clone());

    let mut got = a.resources().into_iter().cloned().collect::<Vec<_>>();
    assert_eq!(resources.sort(), got.sort());
}

#[test]
fn resources_come_in_bucket_order() {
    let a = AnchorHash::<usize, _, _>::from_resources(vec!["A", "B", "C", "D"]);
    assert_eq!(a.resources(), vec![&"A", &"B", &"C", &"D"]);
}

#[test]
fn test_resource_iter_mut() {
    let mut resources = vec!["A", "B", "C", "D"];
    let mut a = AnchorHash::<usize, _, _>::from_resources(resources.clone());

    let mut got = a.resources_mut().into_iter().map(|v| v.clone()).collect::<Vec<_>>();
    assert_eq!(resources.sort(), got.sort());
}

#[test]
fn resources_mut_changes_what_keys_map_to() {
    let mut a = AnchorHash::<u32, _, _>::from_resources(vec![1u32, 2, 3]);
    let before: Vec<u32> = (0..200u32).map(|k| *a.get_resource(k).unwrap()).collect();
    for r in a.resources_mut() {
        *r *= 10;
    }
    for k in 0..200u32 {
        assert_eq!(*a.get_resource(k).unwrap(), before[k as usize] * 10);
    }
}
