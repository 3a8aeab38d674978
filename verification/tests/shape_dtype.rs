// Tensor metadata: dtype taxonomy, shape/strides/numel, the 2-D projection
// and broadcasting.
use rtorch::tensor::{bcast_shape, dims_product, grid_2d, DType, Shape};

#[test]
fn dtype_name_and_size() {
    assert_eq!(DType::F32.name(), "f32");
    assert_eq!(DType::F64.size(), 8);
    assert_eq!(DType::F16.size(), 2);
    assert_eq!(DType::BF16.size(), 2);
    assert_eq!(DType::I32.size(), 4);
}

#[test]
fn shape_numel_rank_strides() {
    let s = Shape::new(vec![2, 3, 4]); // [B,T,D]-style
    assert_eq!(s.rank(), 3);
    assert_eq!(s.numel(), 24);
    assert_eq!(s.dim(1), 3);
    // row-major contiguous strides: [12, 4, 1]
    assert_eq!(s.strides(), vec![12, 4, 1]);
}

#[test]
fn strides_edge_cases() {
    assert_eq!(Shape::new(vec![]).strides(), Vec::<usize>::new());
    assert_eq!(Shape::new(vec![5]).strides(), vec![1]);
    assert_eq!(Shape::new(vec![0, 3]).strides(), vec![3, 1]);
    assert_eq!(Shape::new(vec![]).numel(), 1);
    assert_eq!(Shape::new(vec![7, 0, 2]).numel(), 0);
    assert_eq!(Shape::new(vec![2, 3]).dims(), &[2, 3]);
    assert_eq!(DType::F64.name(), "f64");
    assert_eq!(DType::BF16.name(), "bf16");
    assert_eq!(DType::F32.size(), 4);
}

#[test]
fn grid_projects_to_rows_and_rest() {
    assert_eq!(grid_2d(&[2, 3, 4]), (2, 12));
    assert_eq!(grid_2d(&[5]), (5, 1));
    assert_eq!(grid_2d(&[]), (0, 0));
    assert_eq!(dims_product(&[3, 5, 7]), 105);
}

#[test]
fn broadcast_rule() {
    assert_eq!(bcast_shape(2, 3, 1, 3), Ok((2, 3)));
    assert_eq!(bcast_shape(3, 1, 3, 2), Ok((3, 2)));
    assert_eq!(bcast_shape(4, 4, 4, 4), Ok((4, 4)));
    assert_eq!(
        bcast_shape(2, 2, 3, 2).unwrap_err(),
        "shape: cannot broadcast 2×2 and 3×2 (row dims 2 vs 3 not equal or 1)"
    );
    assert_eq!(
        bcast_shape(2, 4, 2, 3).unwrap_err(),
        "shape: cannot broadcast 2×4 and 2×3 (col dims 4 vs 3 not equal or 1)"
    );
}

#[test]
fn transpose_moves_each_element() {
    use_transpose();
}

fn use_transpose() {
    let d = [1u32, 2, 3, 4, 5, 6];
    // 2×3 -> 3×2
    assert_eq!(rtorch::tensor::transpose_data(&d, 2, 3, 0), vec![1, 4, 2, 5, 3, 6]);
    // Longer data keeps the fill past the grid.
    assert_eq!(rtorch::tensor::transpose_data(&[1u32, 2, 3, 4, 9], 2, 2, 0), vec![1, 3, 2, 4, 0]);
    assert_eq!(rtorch::tensor::transpose_data::<u32>(&[], 0, 5, 7), Vec::<u32>::new());
}

#[test]
fn broadcast_message_writes_every_digit() {
    assert_eq!(
        bcast_shape(10, 1, 0, 3),
        Err("shape: cannot broadcast 10×1 and 0×3 (row dims 10 vs 0 not equal or 1)".to_string())
    );
    assert_eq!(
        bcast_shape(1, 1200, 7, 305),
        Err("shape: cannot broadcast 1×1200 and 7×305 (col dims 1200 vs 305 not equal or 1)".to_string())
    );
}
