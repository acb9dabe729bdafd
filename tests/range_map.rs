use anchorhash::range_map;

#[test]
fn range_map_takes_the_high_half_of_the_product() {
    assert_eq!(range_map(0x8000_0000, 10), 5);
    assert_eq!(range_map(u32::MAX, 7), 6);
    assert_eq!(range_map(0, 7), 0);
    assert_eq!(range_map(u32::MAX, 1), 0);
}

#[test]
fn range_map_stays_below_max() {
    let mut v: u32 = 1;
    for max in 1..2000u32 {
        v = v.wrapping_mul(747_796_405).wrapping_add(2_891_336_453);
        assert!(range_map(v, max) < max);
    }
}
