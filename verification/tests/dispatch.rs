use rtorch::dispatch::{clamp_groups, default_groups_x, inputs_hash, tile_groups, u32s_to_bytes, FNV_OFFSET};

#[test]
fn params_bytes_are_little_endian() {
    assert_eq!(u32s_to_bytes(&[]), Vec::<u8>::new());
    assert_eq!(u32s_to_bytes(&[1, 0x0403_0201]), vec![1, 0, 0, 0, 1, 2, 3, 4]);
    assert_eq!(u32s_to_bytes(&[u32::MAX]), vec![0xff; 4]);
}

#[test]
fn tile_groups_round_up() {
    assert_eq!(tile_groups(1, 1), [1, 1, 1]);
    assert_eq!(tile_groups(16, 17), [1, 2, 1]);
    assert_eq!(tile_groups(0, 33), [0, 3, 1]);
}

#[test]
fn default_groups_cover_outputs() {
    assert_eq!(default_groups_x(0), 1);
    assert_eq!(default_groups_x(4), 1);
    assert_eq!(default_groups_x(1024), 1);
    assert_eq!(default_groups_x(1028), 2);
}

#[test]
fn groups_are_at_least_one() {
    assert_eq!(clamp_groups(0, -5, 3), [1, 1, 3]);
    assert_eq!(clamp_groups(8, 1, 1), [8, 1, 1]);
}

#[test]
fn fnv_fingerprint_values() {
    assert_eq!(inputs_hash(&[]), FNV_OFFSET);
    assert_eq!(FNV_OFFSET, 0xcbf29ce484222325);
    assert_eq!(inputs_hash(&[vec![]]), 0xaf64724c8602eb6e);
    assert_eq!(inputs_hash(&[b"a".to_vec()]), 0x089bc907b544c769);
    // The separator keeps blob boundaries apart.
    assert_eq!(inputs_hash(&[b"a".to_vec(), b"b".to_vec()]), 0xd2b371819297f98a);
    assert_eq!(inputs_hash(&[b"ab".to_vec()]), 0xe7202e190542452f);
}
