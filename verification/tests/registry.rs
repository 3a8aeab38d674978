use rtorch::registry::KernelRegistry;

#[test]
fn insert_then_get() {
    let mut r = KernelRegistry::default();
    assert_eq!(r.get("add"), None);
    r.insert("gemm_tiled", 3);
    r.insert("add", 7);
    assert_eq!(r.get("add"), Some(7));
    assert_eq!(r.get("gemm_tiled"), Some(3));
    assert_eq!(r.get("tanh"), None);
}

#[test]
fn insert_overwrites() {
    let mut r = KernelRegistry::default();
    r.insert("add", 1);
    r.insert("add", 2);
    assert_eq!(r.get("add"), Some(2));
    assert_eq!(r.names(), vec!["add".to_string()]);
}

#[test]
fn names_are_sorted() {
    let mut r = KernelRegistry::default();
    for (n, p) in [("tanh", 1), ("add", 2), ("gemm_tiled", 3), ("gemm_tile32", 4), ("Zed", 5)] {
        r.insert(n, p);
    }
    assert_eq!(
        r.names(),
        vec!["Zed", "add", "gemm_tile32", "gemm_tiled", "tanh"]
            .into_iter()
            .map(String::from)
            .collect::<Vec<_>>()
    );
    assert!(KernelRegistry::default().names().is_empty());
}
