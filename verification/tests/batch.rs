use rtorch::batch::BatchState;

#[test]
fn frees_outside_a_batch_happen_now() {
    let mut b = BatchState::new();
    assert!(!b.is_open());
    assert_eq!(b.release(4), Some(4));
    assert_eq!(b.release(-1), Some(-1));
}

#[test]
fn frees_inside_a_batch_wait_for_its_end() {
    let mut b = BatchState::new();
    b.begin();
    assert!(b.is_open());
    assert_eq!(b.release(3), None);
    assert_eq!(b.release(1), None);
    assert_eq!(b.release(3), None);
    assert_eq!(b.end(), vec![3, 1, 3]);
    assert!(!b.is_open());
    assert_eq!(b.release(9), Some(9));
    b.begin();
    assert_eq!(b.end(), Vec::<i32>::new());
}
