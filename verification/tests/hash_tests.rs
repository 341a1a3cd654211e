use game_core::water::hash::{hash2, hash3, HASH_MUL};

#[test]
fn hash2_mixes_seed_and_value() {
    assert_eq!(hash2(0, 5), 5);
    assert_eq!(hash2(3, 7), 645664597763331021);
    let h = 3u64.wrapping_mul(HASH_MUL).wrapping_add(7);
    assert_eq!(hash2(3, 7), h ^ (h >> 33));
}

#[test]
fn hash3_mixes_coordinates_and_seed() {
    assert_eq!(hash3(0, 0, 7, 0), 7);
    assert_eq!(hash3(1, 2, 3, 42), 16698448568189256504);
}
