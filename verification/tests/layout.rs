use sgpe::layout::{gather_column, scatter_column};

/// A 3 x 4 grid in standard layout with entry (r, c) = 10 r + c.
fn grid() -> Vec<u32> {
    (0..3).flat_map(|r| (0..4).map(move |c| 10 * r + c)).collect()
}

#[test]
fn gather_reads_a_strided_column() {
    let data = grid();
    let mut column = vec![0u32; 3];
    gather_column(&data, 4, 2, &mut column);
    assert_eq!(column, vec![2, 12, 22]);
}

#[test]
fn scatter_writes_only_its_column() {
    let mut data = grid();
    scatter_column(&mut data, 4, 1, &[7, 8, 9]);
    assert_eq!(data, vec![0, 7, 2, 3, 10, 8, 12, 13, 20, 9, 22, 23]);
}

#[test]
fn gather_then_scatter_is_identity() {
    let mut data = grid();
    let original = data.clone();
    let mut column = vec![0u32; 3];
    for col in 0..4 {
        gather_column(&data, 4, col, &mut column);
        scatter_column(&mut data, 4, col, &column);
    }
    assert_eq!(data, original);
}

#[test]
fn scatter_then_gather_reads_back() {
    let mut data = grid();
    scatter_column(&mut data, 4, 3, &[100, 200, 300]);
    let mut column = vec![0u32; 3];
    gather_column(&data, 4, 3, &mut column);
    assert_eq!(column, vec![100, 200, 300]);
}

#[test]
fn column_transform_through_scratch_buffer() {
    // Transform every column in place through a scratch buffer, as the 2D
    // FFT does, here with a simple reversal standing in for the transform.
    let mut data = grid();
    let mut column = vec![0u32; 3];
    for col in 0..4 {
        gather_column(&data, 4, col, &mut column);
        column.reverse();
        scatter_column(&mut data, 4, col, &column);
    }
    assert_eq!(data, vec![20, 21, 22, 23, 10, 11, 12, 13, 0, 1, 2, 3]);
}
