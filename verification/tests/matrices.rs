use blis_gemm::matrix::{Mat, Matrix};
use blis_gemm::pack::Packer;
use blis_gemm::panel::{ColumnPanelMatrix, RowPanelMatrix};

fn contents<M: Mat<u64>>(m: &M) -> Vec<Vec<u64>> {
    let mut rows = Vec::new();
    for y in 0..m.height() {
        let mut row = Vec::new();
        for x in 0..m.width() {
            row.push(m.get(y, x));
        }
        rows.push(row);
    }
    rows
}

#[test]
fn from_vec_rejects_wrong_length() {
    assert!(Matrix::<u64>::from_vec(2, 3, vec![1, 2, 3, 4, 5]).is_none());
    assert!(Matrix::<u64>::from_vec(2, 3, vec![1, 2, 3, 4, 5, 6]).is_some());
    assert!(Matrix::<u64>::from_vec(usize::MAX, 2, vec![]).is_none());
    assert!(Matrix::<u64>::from_vec(0, 5, vec![]).is_some());
}

#[test]
fn from_vec_is_row_major() {
    let m = Matrix::from_vec(2, 3, vec![1u64, 2, 3, 4, 5, 6]).unwrap();
    assert_eq!(contents(&m), vec![vec![1, 2, 3], vec![4, 5, 6]]);
}

#[test]
fn new_is_zero_and_viewed_whole() {
    let m: Matrix<u64> = Matrix::new(3, 2);
    assert_eq!(contents(&m), vec![vec![0, 0], vec![0, 0], vec![0, 0]]);
    assert_eq!((m.off_y(), m.off_x(), m.iter_height(), m.iter_width()), (0, 0, 3, 2));
}

#[test]
fn set_then_get_reads_back() {
    let mut m: Matrix<u64> = Matrix::new(3, 3);
    m.set(1, 2, 9);
    assert_eq!(m.get(1, 2), 9);
    assert_eq!(contents(&m), vec![vec![0, 0, 0], vec![0, 0, 9], vec![0, 0, 0]]);
}

#[test]
fn set_and_get_are_relative_to_the_view() {
    let mut m: Matrix<u64> = Matrix::new(4, 4);
    m.set_off_y(2);
    m.set_off_x(1);
    m.set_iter_height(2);
    m.set_iter_width(2);
    m.set(1, 1, 5);
    m.set_off_y(0);
    m.set_off_x(0);
    m.set_iter_height(4);
    m.set_iter_width(4);
    assert_eq!(m.get(3, 2), 5);
}

#[test]
fn adjust_y_view_cuts_last_block() {
    let mut m: Matrix<u64> = Matrix::new(10, 1);
    m.adjust_y_view(7, 2, 3, 6);
    assert_eq!((m.off_y(), m.iter_height()), (8, 1));
    m.adjust_y_view(7, 2, 3, 3);
    assert_eq!((m.off_y(), m.iter_height()), (5, 3));
}

#[test]
fn adjust_x_view_cuts_last_block() {
    let mut m: Matrix<u64> = Matrix::new(1, 10);
    m.adjust_x_view(5, 4, 4, 4);
    assert_eq!((m.off_x(), m.iter_width()), (8, 1));
}

#[test]
fn column_panels_store_and_read() {
    let mut m: ColumnPanelMatrix<u64> = ColumnPanelMatrix::new(3, 5, 2);
    for y in 0..3 {
        for x in 0..5 {
            m.set(y, x, (10 * y + x) as u64);
        }
    }
    assert_eq!(
        contents(&m),
        vec![vec![0, 1, 2, 3, 4], vec![10, 11, 12, 13, 14], vec![20, 21, 22, 23, 24]]
    );
}

#[test]
fn row_panels_store_and_read() {
    let mut m: RowPanelMatrix<u64> = RowPanelMatrix::new(5, 3, 2);
    for y in 0..5 {
        for x in 0..3 {
            m.set(y, x, (10 * y + x) as u64);
        }
    }
    assert_eq!(m.get(4, 2), 42);
    assert_eq!(m.get(2, 0), 20);
    assert_eq!(m.get(1, 1), 11);
}

#[test]
fn resize_to_fit_takes_view_shape() {
    let mut src = Matrix::from_vec(4, 4, (0..16u64).collect()).unwrap();
    src.set_iter_height(3);
    src.set_iter_width(2);
    let mut cp: ColumnPanelMatrix<u64> = ColumnPanelMatrix::new(0, 0, 4);
    cp.resize_to_fit(&src);
    assert_eq!((cp.iter_height(), cp.iter_width(), cp.off_y(), cp.off_x()), (3, 2, 0, 0));
    assert_eq!(contents(&cp), vec![vec![0, 0], vec![0, 0], vec![0, 0]]);
    let mut rp: RowPanelMatrix<u64> = RowPanelMatrix::new(1, 1, 2);
    rp.set(0, 0, 3);
    rp.resize_to_fit(&src);
    assert_eq!(contents(&rp), vec![vec![0, 0], vec![0, 0], vec![0, 0]]);
}

#[test]
fn packer_copies_the_view() {
    let mut src = Matrix::from_vec(3, 3, (1..10u64).collect()).unwrap();
    src.set_off_y(1);
    src.set_off_x(1);
    src.set_iter_height(2);
    src.set_iter_width(2);
    let mut dst: ColumnPanelMatrix<u64> = ColumnPanelMatrix::new(0, 0, 1);
    dst.resize_to_fit(&src);
    let packer = Packer::new();
    packer.pack(&src, &mut dst);
    assert_eq!(contents(&dst), vec![vec![5, 6], vec![8, 9]]);
}

#[test]
fn packer_leaves_outside_of_destination_view() {
    let src = Matrix::from_vec(1, 2, vec![7u64, 8]).unwrap();
    let mut dst = Matrix::from_vec(2, 3, vec![1u64, 1, 1, 1, 1, 1]).unwrap();
    dst.set_off_y(1);
    dst.set_off_x(1);
    dst.set_iter_height(1);
    dst.set_iter_width(2);
    let packer = Packer::new();
    packer.pack(&src, &mut dst);
    dst.set_off_y(0);
    dst.set_off_x(0);
    dst.set_iter_height(2);
    dst.set_iter_width(3);
    assert_eq!(contents(&dst), vec![vec![1, 1, 1], vec![1, 7, 8]]);
}

#[test]
fn panel_matrices_with_zero_panel_size_and_no_columns() {
    let m: ColumnPanelMatrix<u64> = ColumnPanelMatrix::new(3, 0, 0);
    assert_eq!((m.iter_height(), m.iter_width()), (3, 0));
    let r: RowPanelMatrix<u64> = RowPanelMatrix::new(0, 4, 0);
    assert_eq!((r.iter_height(), r.iter_width()), (0, 4));
}
