use rtorch::graph::topo;

#[test]
fn diamond_lists_shared_parent_once() {
    // 3 = f(1, 2), 1 = f(0), 2 = f(0)
    let g = vec![vec![], vec![0], vec![0], vec![1, 2]];
    assert_eq!(topo(&g, 3), vec![0, 1, 2, 3]);
    assert_eq!(topo(&g, 1), vec![0, 1]);
    assert_eq!(topo(&g, 0), vec![0]);
}

#[test]
fn unreachable_nodes_are_left_out() {
    let g = vec![vec![], vec![], vec![1, 1], vec![0]];
    assert_eq!(topo(&g, 2), vec![1, 2]);
}

#[test]
fn parents_come_first_in_any_dag() {
    // A node may be computed from a later-numbered one.
    let g = vec![vec![2, 3], vec![], vec![1], vec![1, 2]];
    let order = topo(&g, 0);
    assert_eq!(order, vec![1, 2, 3, 0]);
    for (k, v) in order.iter().enumerate() {
        for p in &g[*v] {
            assert!(order[..k].contains(p));
        }
    }
}

#[test]
fn cycles_still_terminate() {
    let g = vec![vec![1], vec![0], vec![1]];
    let order = topo(&g, 2);
    assert_eq!(order.len(), 3);
    assert_eq!(*order.last().unwrap(), 2);
}
