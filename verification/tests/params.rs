use rtorch::params::ParamsCache;

#[test]
fn same_tag_and_bytes_reuse_the_buffer() {
    let mut c = ParamsCache::new();
    assert_eq!(c.lookup("add", &[1, 0, 0, 0]), None);
    c.insert("add", &[1, 0, 0, 0], 7);
    assert_eq!(c.lookup("add", &[1, 0, 0, 0]), Some(7));
    // Other bytes or another tag are other entries.
    assert_eq!(c.lookup("add", &[2, 0, 0, 0]), None);
    assert_eq!(c.lookup("tanh", &[1, 0, 0, 0]), None);
    c.insert("tanh", &[1, 0, 0, 0], 9);
    assert_eq!(c.lookup("tanh", &[1, 0, 0, 0]), Some(9));
    assert_eq!(c.lookup("add", &[1, 0, 0, 0]), Some(7));
}

#[test]
fn insert_replaces_an_entry() {
    let mut c = ParamsCache::new();
    c.insert("gemm", &[], 1);
    c.insert("gemm", &[], 2);
    assert_eq!(c.lookup("gemm", &[]), Some(2));
}
