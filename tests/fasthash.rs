use anchorhash::fasthash;

#[test]
fn test_hash_impl() {
    let a = fasthash(42, 24);
    let b = fasthash(13, 31);

    assert_ne!(a, b);
}

#[test]
fn fasthash_is_fnv1a_of_little_endian_bytes() {
    assert_eq!(fasthash(42, 24), 3_598_636_114);
    assert_eq!(fasthash(13, 31), 264_716_850);
    assert_eq!(fasthash(1, 0), 1_446_362_257);
}
