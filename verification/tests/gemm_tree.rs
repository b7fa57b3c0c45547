use blis_gemm::gemm::{
    GemmNode, PackAcp, PackArp, PackBcp, PackBrp, PartK, PartM, PartN, TripleLoopKernel,
};
use blis_gemm::matrix::{Mat, Matrix};
use blis_gemm::thread::ThreadInfo;

fn mat_u64(h: usize, w: usize, seed: u64) -> Matrix<u64> {
    let mut data = Vec::new();
    for i in 0..h * w {
        data.push((i as u64).wrapping_mul(7).wrapping_add(seed) % 13);
    }
    Matrix::from_vec(h, w, data).unwrap()
}

fn contents<M: Mat<u64>>(m: &M) -> Vec<Vec<u64>> {
    let mut rows = Vec::new();
    for y in 0..m.height() {
        let mut row = Vec::new();
        for x in 0..m.width() {
            row.push(m.get(y, x));
        }
        rows.push(row);
    }
    rows
}

fn naive(a: &Vec<Vec<u64>>, b: &Vec<Vec<u64>>, c: &Vec<Vec<u64>>) -> Vec<Vec<u64>> {
    let mut out = c.clone();
    for y in 0..c.len() {
        for x in 0..c[0].len() {
            for z in 0..b.len() {
                out[y][x] = a[y][z].wrapping_mul(b[z][x]).wrapping_add(out[y][x]);
            }
        }
    }
    out
}

fn thr() -> ThreadInfo {
    ThreadInfo::new(0, 1)
}

#[test]
fn kernel_multiplies_two_by_two() {
    let mut a = Matrix::from_vec(2, 2, vec![1u64, 2, 3, 4]).unwrap();
    let mut b = Matrix::from_vec(2, 2, vec![5u64, 6, 7, 8]).unwrap();
    let mut c = Matrix::from_vec(2, 2, vec![1u64, 1, 1, 1]).unwrap();
    let mut k = TripleLoopKernel::new();
    k.run(&mut a, &mut b, &mut c, &thr());
    assert_eq!(contents(&c), vec![vec![20, 23], vec![44, 51]]);
    assert_eq!(contents(&a), vec![vec![1, 2], vec![3, 4]]);
    assert_eq!(contents(&b), vec![vec![5, 6], vec![7, 8]]);
}

#[test]
fn kernel_rectangular_shapes() {
    let mut a = Matrix::from_vec(2, 3, vec![1u64, 2, 3, 4, 5, 6]).unwrap();
    let mut b = Matrix::from_vec(3, 1, vec![1u64, 0, 2]).unwrap();
    let mut c = Matrix::new(2, 1);
    let mut k = TripleLoopKernel::new();
    k.run(&mut a, &mut b, &mut c, &thr());
    assert_eq!(contents(&c), vec![vec![7], vec![16]]);
}

#[test]
fn kernel_wraps_modulo_two_to_the_64() {
    let mut a = Matrix::from_vec(1, 2, vec![u64::MAX, 2]).unwrap();
    let mut b = Matrix::from_vec(2, 1, vec![2u64, 3]).unwrap();
    let mut c = Matrix::from_vec(1, 1, vec![5u64]).unwrap();
    let mut k = TripleLoopKernel::new();
    k.run(&mut a, &mut b, &mut c, &thr());
    // 5 + (2^64 - 1) * 2 + 2 * 3 = 2^65 + 9 = 9 modulo 2^64
    assert_eq!(contents(&c), vec![vec![9]]);
}

#[test]
fn kernel_signed_entries() {
    let mut a = Matrix::from_vec(1, 2, vec![-3i64, 4]).unwrap();
    let mut b = Matrix::from_vec(2, 1, vec![5i64, -6]).unwrap();
    let mut c = Matrix::from_vec(1, 1, vec![10i64]).unwrap();
    let mut k = TripleLoopKernel::new();
    k.run(&mut a, &mut b, &mut c, &thr());
    assert_eq!(c.get(0, 0), 10 - 15 - 24);
}

#[test]
fn kernel_signed_wraps_modulo_two_to_the_64() {
    let mut a = Matrix::from_vec(1, 2, vec![i64::MAX, i64::MIN]).unwrap();
    let mut b = Matrix::from_vec(2, 1, vec![2i64, -1]).unwrap();
    let mut c = Matrix::from_vec(1, 1, vec![3i64]).unwrap();
    let mut node = PartK::new(1, TripleLoopKernel::new());
    node.run(&mut a, &mut b, &mut c, &thr());
    // 3 + (2^63 - 1) * 2 + (-2^63) * (-1) = 3 * 2^63 + 1, which is 2^63 + 1,
    // that is i64::MIN + 1, modulo 2^64
    assert_eq!(c.get(0, 0), i64::MIN + 1);
}

#[test]
fn kernel_touches_only_the_view_of_c() {
    let mut a = Matrix::from_vec(1, 1, vec![2u64]).unwrap();
    let mut b = Matrix::from_vec(1, 1, vec![3u64]).unwrap();
    let mut c = Matrix::from_vec(2, 2, vec![1u64, 1, 1, 1]).unwrap();
    c.set_off_y(1);
    c.set_off_x(1);
    c.set_iter_height(1);
    c.set_iter_width(1);
    let mut k = TripleLoopKernel::new();
    k.run(&mut a, &mut b, &mut c, &thr());
    c.set_off_y(0);
    c.set_off_x(0);
    c.set_iter_height(2);
    c.set_iter_width(2);
    assert_eq!(contents(&c), vec![vec![1, 1], vec![1, 7]]);
}

#[test]
fn part_m_matches_kernel_and_restores_views() {
    let mut a = mat_u64(5, 3, 1);
    let mut b = mat_u64(3, 4, 2);
    let mut c = mat_u64(5, 4, 3);
    let expect = naive(&contents(&a), &contents(&b), &contents(&c));
    let mut node = PartM::new(2, TripleLoopKernel::new());
    node.run(&mut a, &mut b, &mut c, &thr());
    assert_eq!(contents(&c), expect);
    assert_eq!((a.off_y(), a.iter_height(), c.off_y(), c.iter_height()), (0, 5, 0, 5));
}

#[test]
fn part_n_matches_kernel_and_restores_views() {
    let mut a = mat_u64(3, 4, 4);
    let mut b = mat_u64(4, 7, 5);
    let mut c = mat_u64(3, 7, 6);
    let expect = naive(&contents(&a), &contents(&b), &contents(&c));
    let mut node = PartN::new(3, TripleLoopKernel::new());
    node.run(&mut a, &mut b, &mut c, &thr());
    assert_eq!(contents(&c), expect);
    assert_eq!((b.off_x(), b.iter_width(), c.off_x(), c.iter_width()), (0, 7, 0, 7));
}

#[test]
fn part_k_matches_kernel_and_restores_views() {
    let mut a = mat_u64(3, 5, 7);
    let mut b = mat_u64(5, 2, 8);
    let mut c = mat_u64(3, 2, 9);
    let expect = naive(&contents(&a), &contents(&b), &contents(&c));
    let mut node = PartK::new(2, TripleLoopKernel::new());
    node.run(&mut a, &mut b, &mut c, &thr());
    assert_eq!(contents(&c), expect);
    assert_eq!((a.off_x(), a.iter_width(), b.off_y(), b.iter_height()), (0, 5, 0, 5));
}

#[test]
fn block_larger_than_dimension() {
    let mut a = mat_u64(3, 3, 1);
    let mut b = mat_u64(3, 3, 2);
    let mut c = mat_u64(3, 3, 3);
    let expect = naive(&contents(&a), &contents(&b), &contents(&c));
    let mut node = PartM::new(100, PartN::new(100, PartK::new(100, TripleLoopKernel::new())));
    node.run(&mut a, &mut b, &mut c, &thr());
    assert_eq!(contents(&c), expect);
}

#[test]
fn empty_dimensions_leave_c_unchanged() {
    let mut a: Matrix<u64> = Matrix::new(2, 0);
    let mut b: Matrix<u64> = Matrix::new(0, 2);
    let mut c = mat_u64(2, 2, 4);
    let before = contents(&c);
    let mut node = PartK::new(3, TripleLoopKernel::new());
    node.run(&mut a, &mut b, &mut c, &thr());
    assert_eq!(contents(&c), before);
}

#[test]
fn full_tree_matches_kernel() {
    let mut a = mat_u64(7, 9, 11);
    let mut b = mat_u64(9, 6, 12);
    let mut c = mat_u64(7, 6, 13);
    let mut c2 = mat_u64(7, 6, 13);
    let mut a2 = mat_u64(7, 9, 11);
    let mut b2 = mat_u64(9, 6, 12);
    let leaf = PartM::new(2, PartN::new(2, TripleLoopKernel::new()));
    let mut tree = PartN::new(4, PartK::new(3, PackArp::new(3, PackBcp::new(2, PartM::new(4, leaf)))));
    tree.run(&mut a, &mut b, &mut c, &thr());
    let mut plain = TripleLoopKernel::new();
    plain.run(&mut a2, &mut b2, &mut c2, &thr());
    assert_eq!(contents(&c), contents(&c2));
    assert_eq!(contents(&a), contents(&a2));
    assert_eq!(contents(&b), contents(&b2));
}

#[test]
fn pack_a_column_panels_matches_kernel() {
    let mut a = mat_u64(4, 5, 21);
    let mut b = mat_u64(5, 3, 22);
    let mut c = mat_u64(4, 3, 23);
    let expect = naive(&contents(&a), &contents(&b), &contents(&c));
    let mut node = PackAcp::new(2, TripleLoopKernel::new());
    node.run(&mut a, &mut b, &mut c, &thr());
    assert_eq!(contents(&c), expect);
}

#[test]
fn pack_b_row_panels_matches_kernel() {
    let mut a = mat_u64(4, 5, 31);
    let mut b = mat_u64(5, 3, 32);
    let mut c = mat_u64(4, 3, 33);
    let expect = naive(&contents(&a), &contents(&b), &contents(&c));
    let mut node = PackBrp::new(2, TripleLoopKernel::new());
    node.run(&mut a, &mut b, &mut c, &thr());
    assert_eq!(contents(&c), expect);
}

#[test]
fn pack_nodes_run_twice_with_different_shapes() {
    let mut node = PackAcp::new(3, PackBrp::new(2, TripleLoopKernel::new()));
    for (m, n, k) in [(4usize, 3usize, 5usize), (2, 6, 1)] {
        let mut a = mat_u64(m, k, 1);
        let mut b = mat_u64(k, n, 2);
        let mut c = mat_u64(m, n, 3);
        let expect = naive(&contents(&a), &contents(&b), &contents(&c));
        node.run(&mut a, &mut b, &mut c, &thr());
        assert_eq!(contents(&c), expect);
    }
}

#[test]
fn shadow_runs_like_its_source() {
    let node = PartM::new(2, PackAcp::new(2, TripleLoopKernel::new()));
    let mut copy = node.shadow();
    let mut a = mat_u64(5, 4, 41);
    let mut b = mat_u64(4, 3, 42);
    let mut c = mat_u64(5, 3, 43);
    let expect = naive(&contents(&a), &contents(&b), &contents(&c));
    copy.run(&mut a, &mut b, &mut c, &thr());
    assert_eq!(contents(&c), expect);
}

#[test]
fn views_inside_larger_matrices() {
    let mut a = mat_u64(6, 6, 51);
    let mut b = mat_u64(6, 6, 52);
    let mut c = mat_u64(6, 6, 53);
    let full_c = contents(&c);
    a.set_off_y(1);
    a.set_off_x(2);
    a.set_iter_height(3);
    a.set_iter_width(2);
    b.set_off_y(3);
    b.set_off_x(0);
    b.set_iter_height(2);
    b.set_iter_width(4);
    c.set_off_y(2);
    c.set_off_x(1);
    c.set_iter_height(3);
    c.set_iter_width(4);
    let expect_view = naive(&contents(&a), &contents(&b), &contents(&c));
    let mut node = PartM::new(2, PartK::new(1, PackAcp::new(1, TripleLoopKernel::new())));
    node.run(&mut a, &mut b, &mut c, &thr());
    assert_eq!(contents(&c), expect_view);
    c.set_off_y(0);
    c.set_off_x(0);
    c.set_iter_height(6);
    c.set_iter_width(6);
    let all = contents(&c);
    for i in 0..6 {
        for j in 0..6 {
            if !(2 <= i && i < 5 && 1 <= j && j < 5) {
                assert_eq!(all[i][j], full_c[i][j]);
            }
        }
    }
}

#[test]
fn zero_a_leaves_c_unchanged() {
    let mut a: Matrix<u64> = Matrix::new(3, 4);
    let mut b = mat_u64(4, 2, 61);
    let mut c = mat_u64(3, 2, 62);
    let before = contents(&c);
    let mut node = PartK::new(3, PackAcp::new(2, TripleLoopKernel::new()));
    node.run(&mut a, &mut b, &mut c, &thr());
    assert_eq!(contents(&c), before);
}

#[test]
fn running_twice_adds_the_product_twice() {
    let mut a = Matrix::from_vec(2, 2, vec![1u64, 2, 3, 4]).unwrap();
    let mut b = Matrix::from_vec(2, 2, vec![5u64, 6, 7, 8]).unwrap();
    let mut c = Matrix::from_vec(2, 2, vec![1u64, 1, 1, 1]).unwrap();
    let mut node = PartM::new(1, TripleLoopKernel::new());
    node.run(&mut a, &mut b, &mut c, &thr());
    node.run(&mut a, &mut b, &mut c, &thr());
    // A * B = [[19, 22], [43, 50]]
    assert_eq!(contents(&c), vec![vec![39, 45], vec![87, 101]]);
}

#[test]
fn running_twice_wraps_for_i64() {
    let mut a = Matrix::from_vec(1, 1, vec![i64::MAX]).unwrap();
    let mut b = Matrix::from_vec(1, 1, vec![1i64]).unwrap();
    let mut c = Matrix::from_vec(1, 1, vec![2i64]).unwrap();
    let mut node = TripleLoopKernel::new();
    node.run(&mut a, &mut b, &mut c, &thr());
    node.run(&mut a, &mut b, &mut c, &thr());
    // 2 + 2 * (2^63 - 1) = 2^64, which is 0 modulo 2^64
    assert_eq!(c.get(0, 0), 0);
}

#[test]
fn pack_nodes_accept_zero_panel_size() {
    let node: PackAcp<u64, Matrix<u64>, Matrix<u64>, Matrix<u64>, TripleLoopKernel> =
        PackAcp::new(0, TripleLoopKernel::new());
    let _ = node;
    let node: PackBrp<u64, Matrix<u64>, Matrix<u64>, Matrix<u64>, TripleLoopKernel> =
        PackBrp::new(0, TripleLoopKernel::new());
    let _ = node;
}

#[test]
fn shadow_of_pack_node_starts_empty_and_runs() {
    let node = PackBcp::new(2, PackArp::new(3, TripleLoopKernel::new()));
    let mut copy = node.shadow();
    let mut a = mat_u64(3, 4, 71);
    let mut b = mat_u64(4, 5, 72);
    let mut c = mat_u64(3, 5, 73);
    let expect = naive(&contents(&a), &contents(&b), &contents(&c));
    copy.run(&mut a, &mut b, &mut c, &thr());
    assert_eq!(contents(&c), expect);
}

#[test]
fn zero_block_size_on_empty_dimension_returns() {
    let mut a: Matrix<u64> = Matrix::new(0, 2);
    let mut b = mat_u64(2, 3, 81);
    let mut c: Matrix<u64> = Matrix::new(0, 3);
    let mut node = PartM::new(0, TripleLoopKernel::new());
    node.run(&mut a, &mut b, &mut c, &thr());
    assert_eq!(c.height(), 0);
    assert_eq!(c.width(), 3);

    let mut a = mat_u64(2, 2, 82);
    let mut b: Matrix<u64> = Matrix::new(2, 0);
    let mut c: Matrix<u64> = Matrix::new(2, 0);
    let mut node = PartN::new(0, TripleLoopKernel::new());
    node.run(&mut a, &mut b, &mut c, &thr());
    assert_eq!(c.width(), 0);

    let mut a: Matrix<u64> = Matrix::new(2, 0);
    let mut b: Matrix<u64> = Matrix::new(0, 2);
    let mut c = mat_u64(2, 2, 83);
    let before = contents(&c);
    let mut node = PartK::new(0, TripleLoopKernel::new());
    node.run(&mut a, &mut b, &mut c, &thr());
    assert_eq!(contents(&c), before);

    let mut a: Matrix<u64> = Matrix::new(2, 0);
    let mut b: Matrix<u64> = Matrix::new(0, 2);
    let mut c = mat_u64(2, 2, 84);
    let before = contents(&c);
    let mut node = PackAcp::new(0, TripleLoopKernel::new());
    node.run(&mut a, &mut b, &mut c, &thr());
    assert_eq!(contents(&c), before);
}
