use vstd::prelude::*;
use core::marker::PhantomData;
use crate::matrix::{Scalar, Mat, is_rect, view_in_bounds, view_at, same_view, same_mat, in_window};
use crate::thread::ThreadInfo;
use crate::panel::{ColumnPanelMatrix, RowPanelMatrix};
use crate::pack::{Packer, packed_from};
use crate::layout::{num_panels, panel_extent, lemma_panel_start, lemma_panel_next};

verus! {

/// The value the kernel leaves in an entry of C that held `c0`, after the
/// steps `z = 0 .. k`, each of which replaces the entry `c` by
/// `ag[ay][ax + z] * bg[by + z][bx] + c`: row `ay` of A from column `ax`
/// against column `bx` of B from row `by`.
pub open spec fn dot_from<T: Scalar>(
    c0: T,
    ag: Seq<Seq<T>>,
    ay: int,
    ax: int,
    bg: Seq<Seq<T>>,
    by: int,
    bx: int,
    k: nat,
) -> T
    decreases k,
{
    if k == 0 {
        c0
    } else {
        T::spec_mul_add(
            ag[ay][ax + k - 1],
            bg[by + k - 1][bx],
            dot_from(c0, ag, ay, ax, bg, by, bx, (k - 1) as nat),
        )
    }
}

/// Running the steps `0 .. i` and then, from where they stopped, `h` more
/// steps is running the steps `0 .. i + h`.
pub proof fn lemma_dot_split<T: Scalar>(
    c0: T,
    ag: Seq<Seq<T>>,
    ay: int,
    ax: int,
    bg: Seq<Seq<T>>,
    by: int,
    bx: int,
    i: nat,
    h: nat,
)
    ensures
        dot_from(dot_from(c0, ag, ay, ax, bg, by, bx, i), ag, ay, ax + i, bg, by + i, bx, h)
            == dot_from(c0, ag, ay, ax, bg, by, bx, i + h),
    decreases h,
{
    if h > 0 {
        lemma_dot_split(c0, ag, ay, ax, bg, by, bx, i, (h - 1) as nat);
        assert((i + h - 1) as nat == (i + (h - 1)) as nat);
    }
}

/// Entry `ax + z` of row `ay` of `ag`.
pub open spec fn row_entry<T>(ag: Seq<Seq<T>>, ay: int, ax: int, z: int) -> T {
    ag[ay][ax + z]
}

/// Entry `by + z` of column `bx` of `bg`.
pub open spec fn col_entry<T>(bg: Seq<Seq<T>>, by: int, bx: int, z: int) -> T {
    bg[by + z][bx]
}

/// The steps read nothing but the `k` entries of the row of A and the `k`
/// entries of the column of B: where those agree, so do the results.
pub proof fn lemma_dot_congr<T: Scalar>(
    c0: T,
    ag1: Seq<Seq<T>>,
    ay1: int,
    ax1: int,
    bg1: Seq<Seq<T>>,
    by1: int,
    bx1: int,
    ag2: Seq<Seq<T>>,
    ay2: int,
    ax2: int,
    bg2: Seq<Seq<T>>,
    by2: int,
    bx2: int,
    k: nat,
)
    requires
        forall|z: int| 0 <= z < k ==> #[trigger] row_entry(ag1, ay1, ax1, z) == row_entry(ag2, ay2, ax2, z),
        forall|z: int| 0 <= z < k ==> #[trigger] col_entry(bg1, by1, bx1, z) == col_entry(bg2, by2, bx2, z),
    ensures
        dot_from(c0, ag1, ay1, ax1, bg1, by1, bx1, k) == dot_from(c0, ag2, ay2, ax2, bg2, by2, bx2, k),
    decreases k,
{
    if k > 0 {
        lemma_dot_congr(c0, ag1, ay1, ax1, bg1, by1, bx1, ag2, ay2, ax2, bg2, by2, bx2, (k - 1) as nat);
        assert(row_entry(ag1, ay1, ax1, k - 1) == row_entry(ag2, ay2, ax2, k - 1));
        assert(col_entry(bg1, by1, bx1, k - 1) == col_entry(bg2, by2, bx2, k - 1));
    }
}

/// Entry `(y, x)` of the view of C after the first `k` steps of
/// `C += A * B` over the views of `a`, `b` and `c`.
pub open spec fn gemm_entry<T: Scalar, At: Mat<T>, Bt: Mat<T>, Ct: Mat<T>>(
    a: At,
    b: Bt,
    c: Ct,
    y: int,
    x: int,
    k: nat,
) -> T {
    dot_from(
        view_at::<T, Ct>(c, y, x),
        a.grid(),
        a.view_off_y() + y,
        a.view_off_x() as int,
        b.grid(),
        b.view_off_y() as int,
        b.view_off_x() + x,
        k,
    )
}

/// The sum `sum_{z < k} ag[ay][ax + z] * bg[by + z][bx]` over the integers.
pub open spec fn dot_sum(ag: Seq<Seq<u64>>, ay: int, ax: int, bg: Seq<Seq<u64>>, by: int, bx: int, k: nat) -> int
    decreases k,
{
    if k == 0 {
        0
    } else {
        dot_sum(ag, ay, ax, bg, by, bx, (k - 1) as nat) + ag[ay][ax + k - 1] as int * bg[by + k - 1][bx] as int
    }
}

/// For `u64` entries the kernel's steps compute `c0 + sum_z a * b` modulo
/// `2^64`.
pub proof fn lemma_u64_dot(c0: u64, ag: Seq<Seq<u64>>, ay: int, ax: int, bg: Seq<Seq<u64>>, by: int, bx: int, k: nat)
    ensures
        dot_from(c0, ag, ay, ax, bg, by, bx, k) as int == (c0 as int + dot_sum(ag, ay, ax, bg, by, bx, k))
            % 0x1_0000_0000_0000_0000,
    decreases k,
{
    let m: int = 0x1_0000_0000_0000_0000;
    if k == 0 {
        vstd::arithmetic::div_mod::lemma_small_mod(c0 as nat, m as nat);
    } else {
        lemma_u64_dot(c0, ag, ay, ax, bg, by, bx, (k - 1) as nat);
        let av = ag[ay][ax + k - 1];
        let bv = bg[by + k - 1][bx];
        let prev = dot_from(c0, ag, ay, ax, bg, by, bx, (k - 1) as nat);
        let s = dot_sum(ag, ay, ax, bg, by, bx, (k - 1) as nat);
        let p = av.wrapping_mul(bv);
        assert(p as int == (av as int * bv as int) % m);
        let r = p.wrapping_add(prev);
        assert(r as int == (p as int + prev as int) % m) by {
            if p as int + prev as int > u64::MAX {
                vstd::arithmetic::div_mod::lemma_mod_sub_multiples_vanish(p as int + prev as int, m);
                vstd::arithmetic::div_mod::lemma_small_mod((p as int + prev as int - m) as nat, m as nat);
            } else {
                vstd::arithmetic::div_mod::lemma_small_mod((p as int + prev as int) as nat, m as nat);
            }
        }
        vstd::arithmetic::div_mod::lemma_add_mod_noop(av as int * bv as int, c0 as int + s, m);
        vstd::arithmetic::div_mod::lemma_mod_twice(av as int * bv as int, m);
        vstd::arithmetic::div_mod::lemma_mod_twice(c0 as int + s, m);
        assert(r == dot_from(c0, ag, ay, ax, bg, by, bx, k));
        assert(c0 as int + dot_sum(ag, ay, ax, bg, by, bx, k) == (av as int * bv as int) + (c0 as int + s));
    }
}

/// The sum `sum_{z < k} ag[ay][ax + z] * bg[by + z][bx]` of signed entries
/// over the integers.
pub open spec fn dot_sum_i64(ag: Seq<Seq<i64>>, ay: int, ax: int, bg: Seq<Seq<i64>>, by: int, bx: int, k: nat) -> int
    decreases k,
{
    if k == 0 {
        0
    } else {
        dot_sum_i64(ag, ay, ax, bg, by, bx, (k - 1) as nat) + ag[ay][ax + k - 1] as int * bg[by + k - 1][bx] as int
    }
}

proof fn lemma_i64_wrapping_congruent(x: i64, y: i64)
    ensures
        (x.wrapping_mul(y) as int) % 0x1_0000_0000_0000_0000 == (x as int * y as int) % 0x1_0000_0000_0000_0000,
        (x.wrapping_add(y) as int) % 0x1_0000_0000_0000_0000 == (x as int + y as int) % 0x1_0000_0000_0000_0000,
{
    let m: int = 0x1_0000_0000_0000_0000;
    let prod = x as int * y as int;
    vstd::arithmetic::div_mod::lemma_mod_twice(prod, m);
    vstd::arithmetic::div_mod::lemma_mod_bound(prod, m);
    if prod % m > i64::MAX {
        vstd::arithmetic::div_mod::lemma_mod_sub_multiples_vanish(prod % m, m);
    }
    let sum = x as int + y as int;
    if sum > i64::MAX {
        vstd::arithmetic::div_mod::lemma_mod_sub_multiples_vanish(sum, m);
    } else if sum < i64::MIN {
        vstd::arithmetic::div_mod::lemma_mod_add_multiples_vanish(sum, m);
    }
}

/// For `i64` entries the kernel's steps compute `c0 + sum_z a * b` modulo
/// `2^64`: the result is the one `i64` congruent to that sum.
pub proof fn lemma_i64_dot(c0: i64, ag: Seq<Seq<i64>>, ay: int, ax: int, bg: Seq<Seq<i64>>, by: int, bx: int, k: nat)
    ensures
        (dot_from(c0, ag, ay, ax, bg, by, bx, k) as int) % 0x1_0000_0000_0000_0000 == (c0 as int
            + dot_sum_i64(ag, ay, ax, bg, by, bx, k)) % 0x1_0000_0000_0000_0000,
    decreases k,
{
    let m: int = 0x1_0000_0000_0000_0000;
    if k > 0 {
        lemma_i64_dot(c0, ag, ay, ax, bg, by, bx, (k - 1) as nat);
        let av = ag[ay][ax + k - 1];
        let bv = bg[by + k - 1][bx];
        let prev = dot_from(c0, ag, ay, ax, bg, by, bx, (k - 1) as nat);
        let s = dot_sum_i64(ag, ay, ax, bg, by, bx, (k - 1) as nat);
        let p = av.wrapping_mul(bv);
        lemma_i64_wrapping_congruent(av, bv);
        lemma_i64_wrapping_congruent(p, prev);
        assert(dot_from(c0, ag, ay, ax, bg, by, bx, k) == p.wrapping_add(prev));
        vstd::arithmetic::div_mod::lemma_add_mod_noop(p as int, prev as int, m);
        vstd::arithmetic::div_mod::lemma_add_mod_noop(av as int * bv as int, c0 as int + s, m);
        assert(c0 as int + dot_sum_i64(ag, ay, ax, bg, by, bx, k) == (av as int * bv as int) + (c0 as int + s));
    }
}

/// For `u64` matrices, entry `(y, x)` of C after `k` steps is
/// `c[y][x] + sum_{z < k} a[y][z] * b[z][x]` over the views, modulo `2^64`.
pub proof fn lemma_u64_gemm_entry<At: Mat<u64>, Bt: Mat<u64>, Ct: Mat<u64>>(a: At, b: Bt, c: Ct, y: int, x: int, k: nat)
    ensures
        gemm_entry::<u64, At, Bt, Ct>(a, b, c, y, x, k) as int == (view_at::<u64, Ct>(c, y, x) as int
            + dot_sum(a.grid(), a.view_off_y() + y, a.view_off_x() as int, b.grid(), b.view_off_y() as int,
            b.view_off_x() + x, k)) % 0x1_0000_0000_0000_0000,
{
    lemma_u64_dot(view_at::<u64, Ct>(c, y, x), a.grid(), a.view_off_y() + y, a.view_off_x() as int, b.grid(),
        b.view_off_y() as int, b.view_off_x() + x, k);
}

/// For `i64` matrices, entry `(y, x)` of C after `k` steps is congruent to
/// `c[y][x] + sum_{z < k} a[y][z] * b[z][x]` over the views, modulo `2^64`.
pub proof fn lemma_i64_gemm_entry<At: Mat<i64>, Bt: Mat<i64>, Ct: Mat<i64>>(a: At, b: Bt, c: Ct, y: int, x: int, k: nat)
    ensures
        (gemm_entry::<i64, At, Bt, Ct>(a, b, c, y, x, k) as int) % 0x1_0000_0000_0000_0000 == (view_at::<
            i64,
            Ct,
        >(c, y, x) as int + dot_sum_i64(a.grid(), a.view_off_y() + y, a.view_off_x() as int, b.grid(),
            b.view_off_y() as int, b.view_off_x() + x, k)) % 0x1_0000_0000_0000_0000,
{
    lemma_i64_dot(view_at::<i64, Ct>(c, y, x), a.grid(), a.view_off_y() + y, a.view_off_x() as int, b.grid(),
        b.view_off_y() as int, b.view_off_x() + x, k);
}

/// Steps over a row of A that holds only zeros leave the entry as it was.
pub proof fn lemma_dot_zero_row<T: Scalar>(
    c0: T,
    ag: Seq<Seq<T>>,
    ay: int,
    ax: int,
    bg: Seq<Seq<T>>,
    by: int,
    bx: int,
    k: nat,
)
    requires
        forall|z: int| 0 <= z < k ==> #[trigger] row_entry(ag, ay, ax, z) == T::spec_zero(),
    ensures
        dot_from(c0, ag, ay, ax, bg, by, bx, k) == c0,
    decreases k,
{
    if k > 0 {
        lemma_dot_zero_row(c0, ag, ay, ax, bg, by, bx, (k - 1) as nat);
        assert(row_entry(ag, ay, ax, k - 1) == T::spec_zero());
        T::lemma_zero_mul_add(bg[by + k - 1][bx], c0);
    }
}

/// Where every entry of C's view is left as it was, C is left as it was.
proof fn lemma_gemm_result_identity<T: Scalar, At: Mat<T>, Bt: Mat<T>, Ct: Mat<T>>(a: At, b: Bt, c0: Ct, c1: Ct)
    requires
        c0.wf(),
        gemm_result::<T, At, Bt, Ct>(a, b, c0, c1),
        forall|y: int, x: int|
            0 <= y < c1.view_height() && 0 <= x < c1.view_width() ==> #[trigger] gemm_entry::<T, At, Bt, Ct>(
                a,
                b,
                c0,
                y,
                x,
                a.view_width() as nat,
            ) == view_at::<T, Ct>(c0, y, x),
    ensures
        c1.grid() == c0.grid(),
{
    c0.lemma_shape();
    assert forall|i: int| 0 <= i < c1.grid().len() implies #[trigger] c1.grid()[i] == c0.grid()[i] by {
        assert forall|j: int| 0 <= j < c1.cols() implies #[trigger] c1.grid()[i][j] == c0.grid()[i][j] by {
            if in_window::<T, Ct>(c1, i, j) {
                let y = i - c1.view_off_y();
                let x = j - c1.view_off_x();
                assert(view_at::<T, Ct>(c1, y, x) == gemm_entry::<T, At, Bt, Ct>(a, b, c0, y, x, a.view_width() as nat));
            }
        }
        assert(c1.grid()[i] =~= c0.grid()[i]);
    }
    assert(c1.grid() =~= c0.grid());
}

/// With an empty inner dimension a node leaves C as it was.
pub proof fn lemma_gemm_empty_inner<T: Scalar, At: Mat<T>, Bt: Mat<T>, Ct: Mat<T>>(a: At, b: Bt, c0: Ct, c1: Ct)
    requires
        c0.wf(),
        gemm_result::<T, At, Bt, Ct>(a, b, c0, c1),
        a.view_width() == 0,
    ensures
        c1.grid() == c0.grid(),
{
    lemma_gemm_result_identity::<T, At, Bt, Ct>(a, b, c0, c1);
}

/// With every entry of A's view zero a node leaves C as it was.
pub proof fn lemma_gemm_zero_a<T: Scalar, At: Mat<T>, Bt: Mat<T>, Ct: Mat<T>>(a: At, b: Bt, c0: Ct, c1: Ct)
    requires
        c0.wf(),
        gemm_result::<T, At, Bt, Ct>(a, b, c0, c1),
        forall|y: int, z: int|
            0 <= y < a.view_height() && 0 <= z < a.view_width() ==> #[trigger] view_at::<T, At>(a, y, z)
                == T::spec_zero(),
        a.view_height() == c0.view_height(),
    ensures
        c1.grid() == c0.grid(),
{
    assert forall|y: int, x: int| 0 <= y < c1.view_height() && 0 <= x < c1.view_width() implies
        #[trigger] gemm_entry::<T, At, Bt, Ct>(a, b, c0, y, x, a.view_width() as nat) == view_at::<T, Ct>(c0, y, x) by {
        assert forall|z: int| 0 <= z < a.view_width() implies #[trigger] row_entry(
            a.grid(),
            a.view_off_y() + y,
            a.view_off_x() as int,
            z,
        ) == T::spec_zero() by {
            assert(view_at::<T, At>(a, y, z) == T::spec_zero());
        }
        lemma_dot_zero_row(view_at::<T, Ct>(c0, y, x), a.grid(), a.view_off_y() + y, a.view_off_x() as int,
            b.grid(), b.view_off_y() as int, b.view_off_x() + x, a.view_width() as nat);
    }
    lemma_gemm_result_identity::<T, At, Bt, Ct>(a, b, c0, c1);
}

/// Running a node twice on `u64` matrices adds the product twice: each entry
/// of C's view ends as `c[y][x] + 2 * sum_z a[y][z] * b[z][x]` modulo `2^64`.
pub proof fn lemma_u64_gemm_twice<At: Mat<u64>, Bt: Mat<u64>, Ct: Mat<u64>>(
    a0: At,
    b0: Bt,
    c0: Ct,
    a1: At,
    b1: Bt,
    c1: Ct,
    a2: At,
    b2: Bt,
    c2: Ct,
)
    requires
        gemm_post::<u64, At, Bt, Ct>(a0, b0, c0, a1, b1, c1),
        gemm_post::<u64, At, Bt, Ct>(a1, b1, c1, a2, b2, c2),
    ensures
        forall|y: int, x: int|
            0 <= y < c2.view_height() && 0 <= x < c2.view_width() ==> #[trigger] view_at::<u64, Ct>(c2, y, x)
                as int == (view_at::<u64, Ct>(c0, y, x) as int + 2 * dot_sum(a0.grid(), a0.view_off_y() + y,
                a0.view_off_x() as int, b0.grid(), b0.view_off_y() as int, b0.view_off_x() + x,
                a0.view_width() as nat)) % 0x1_0000_0000_0000_0000,
{
    let m: int = 0x1_0000_0000_0000_0000;
    assert forall|y: int, x: int| 0 <= y < c2.view_height() && 0 <= x < c2.view_width() implies
        #[trigger] view_at::<u64, Ct>(c2, y, x) as int == (view_at::<u64, Ct>(c0, y, x) as int + 2 * dot_sum(
            a0.grid(), a0.view_off_y() + y, a0.view_off_x() as int, b0.grid(), b0.view_off_y() as int,
            b0.view_off_x() + x, a0.view_width() as nat)) % m by {
        let k = a0.view_width() as nat;
        let sum = dot_sum(a0.grid(), a0.view_off_y() + y, a0.view_off_x() as int, b0.grid(),
            b0.view_off_y() as int, b0.view_off_x() + x, k);
        assert(view_at::<u64, Ct>(c1, y, x) == gemm_entry::<u64, At, Bt, Ct>(a0, b0, c0, y, x, k));
        assert(view_at::<u64, Ct>(c2, y, x) == gemm_entry::<u64, At, Bt, Ct>(a1, b1, c1, y, x, k));
        lemma_u64_gemm_entry::<At, Bt, Ct>(a0, b0, c0, y, x, k);
        lemma_u64_gemm_entry::<At, Bt, Ct>(a1, b1, c1, y, x, k);
        let v0 = view_at::<u64, Ct>(c0, y, x) as int;
        vstd::arithmetic::div_mod::lemma_add_mod_noop(v0 + sum, sum, m);
        vstd::arithmetic::div_mod::lemma_mod_twice(v0 + sum, m);
        vstd::arithmetic::div_mod::lemma_mod_twice(sum, m);
        vstd::arithmetic::div_mod::lemma_add_mod_noop((v0 + sum) % m, sum, m);
        vstd::arithmetic::div_mod::lemma_mod_bound(v0 + sum, m);
        vstd::arithmetic::div_mod::lemma_small_mod(((v0 + sum) % m) as nat, m as nat);
    }
}

/// Running a node twice on `i64` matrices adds the product twice: each entry
/// of C's view ends congruent to `c[y][x] + 2 * sum_z a[y][z] * b[z][x]`
/// modulo `2^64`.
pub proof fn lemma_i64_gemm_twice<At: Mat<i64>, Bt: Mat<i64>, Ct: Mat<i64>>(
    a0: At,
    b0: Bt,
    c0: Ct,
    a1: At,
    b1: Bt,
    c1: Ct,
    a2: At,
    b2: Bt,
    c2: Ct,
)
    requires
        gemm_post::<i64, At, Bt, Ct>(a0, b0, c0, a1, b1, c1),
        gemm_post::<i64, At, Bt, Ct>(a1, b1, c1, a2, b2, c2),
    ensures
        forall|y: int, x: int|
            0 <= y < c2.view_height() && 0 <= x < c2.view_width() ==> (#[trigger] view_at::<i64, Ct>(c2, y, x)
                as int) % 0x1_0000_0000_0000_0000 == (view_at::<i64, Ct>(c0, y, x) as int + 2 * dot_sum_i64(
                a0.grid(), a0.view_off_y() + y, a0.view_off_x() as int, b0.grid(), b0.view_off_y() as int,
                b0.view_off_x() + x, a0.view_width() as nat)) % 0x1_0000_0000_0000_0000,
{
    let m: int = 0x1_0000_0000_0000_0000;
    assert forall|y: int, x: int| 0 <= y < c2.view_height() && 0 <= x < c2.view_width() implies
        (#[trigger] view_at::<i64, Ct>(c2, y, x) as int) % m == (view_at::<i64, Ct>(c0, y, x) as int + 2
            * dot_sum_i64(a0.grid(), a0.view_off_y() + y, a0.view_off_x() as int, b0.grid(),
            b0.view_off_y() as int, b0.view_off_x() + x, a0.view_width() as nat)) % m by {
        let k = a0.view_width() as nat;
        let sum = dot_sum_i64(a0.grid(), a0.view_off_y() + y, a0.view_off_x() as int, b0.grid(),
            b0.view_off_y() as int, b0.view_off_x() + x, k);
        assert(view_at::<i64, Ct>(c1, y, x) == gemm_entry::<i64, At, Bt, Ct>(a0, b0, c0, y, x, k));
        assert(view_at::<i64, Ct>(c2, y, x) == gemm_entry::<i64, At, Bt, Ct>(a1, b1, c1, y, x, k));
        lemma_i64_gemm_entry::<At, Bt, Ct>(a0, b0, c0, y, x, k);
        lemma_i64_gemm_entry::<At, Bt, Ct>(a1, b1, c1, y, x, k);
        let v0 = view_at::<i64, Ct>(c0, y, x) as int;
        let v1 = view_at::<i64, Ct>(c1, y, x) as int;
        vstd::arithmetic::div_mod::lemma_add_mod_noop(v1, sum, m);
        vstd::arithmetic::div_mod::lemma_add_mod_noop(v0 + sum, sum, m);
        vstd::arithmetic::div_mod::lemma_mod_twice(sum, m);
    }
}

/// Entry `(y, x)` of the product `A * B` over the views of `a` and `b`: the
/// kernel's steps over the whole inner dimension, started from zero.
pub open spec fn product_entry<T: Scalar, At: Mat<T>, Bt: Mat<T>>(a: At, b: Bt, y: int, x: int) -> T {
    dot_from(
        T::spec_zero(),
        a.grid(),
        a.view_off_y() + y,
        a.view_off_x() as int,
        b.grid(),
        b.view_off_y() as int,
        b.view_off_x() + x,
        a.view_width() as nat,
    )
}

/// The steps add their products to the value they start from: starting
/// from `c0` ends at `c0` plus what starting from zero ends at.
pub proof fn lemma_dot_adds<T: Scalar>(
    c0: T,
    ag: Seq<Seq<T>>,
    ay: int,
    ax: int,
    bg: Seq<Seq<T>>,
    by: int,
    bx: int,
    k: nat,
)
    ensures
        dot_from(c0, ag, ay, ax, bg, by, bx, k) == T::spec_add(c0, dot_from(T::spec_zero(), ag, ay, ax, bg, by, bx, k)),
    decreases k,
{
    if k == 0 {
        T::lemma_add_zero(c0);
    } else {
        lemma_dot_adds(c0, ag, ay, ax, bg, by, bx, (k - 1) as nat);
        T::lemma_mul_add_shift(
            ag[ay][ax + k - 1],
            bg[by + k - 1][bx],
            c0,
            dot_from(T::spec_zero(), ag, ay, ax, bg, by, bx, (k - 1) as nat),
        );
    }
}

/// A node adds the product: every entry of C's view ends as
/// `c[y][x] + (A * B)[y][x]`, in the scalar's own addition.
pub proof fn lemma_gemm_adds_product<T: Scalar, At: Mat<T>, Bt: Mat<T>, Ct: Mat<T>>(a: At, b: Bt, c0: Ct, c1: Ct)
    requires
        gemm_result::<T, At, Bt, Ct>(a, b, c0, c1),
    ensures
        forall|y: int, x: int|
            0 <= y < c1.view_height() && 0 <= x < c1.view_width() ==> #[trigger] view_at::<T, Ct>(c1, y, x)
                == T::spec_add(view_at::<T, Ct>(c0, y, x), product_entry::<T, At, Bt>(a, b, y, x)),
{
    assert forall|y: int, x: int| 0 <= y < c1.view_height() && 0 <= x < c1.view_width() implies
        #[trigger] view_at::<T, Ct>(c1, y, x) == T::spec_add(view_at::<T, Ct>(c0, y, x), product_entry::<T, At, Bt>(a, b, y, x)) by {
        lemma_dot_adds(view_at::<T, Ct>(c0, y, x), a.grid(), a.view_off_y() + y, a.view_off_x() as int, b.grid(),
            b.view_off_y() as int, b.view_off_x() + x, a.view_width() as nat);
    }
}

/// Running a node twice adds the product twice, for every scalar: each
/// entry of C's view ends as `c[y][x] + ((A * B)[y][x] + (A * B)[y][x])`.
pub proof fn lemma_gemm_twice<T: Scalar, At: Mat<T>, Bt: Mat<T>, Ct: Mat<T>>(
    a0: At,
    b0: Bt,
    c0: Ct,
    a1: At,
    b1: Bt,
    c1: Ct,
    a2: At,
    b2: Bt,
    c2: Ct,
)
    requires
        gemm_post::<T, At, Bt, Ct>(a0, b0, c0, a1, b1, c1),
        gemm_post::<T, At, Bt, Ct>(a1, b1, c1, a2, b2, c2),
    ensures
        forall|y: int, x: int|
            0 <= y < c2.view_height() && 0 <= x < c2.view_width() ==> #[trigger] view_at::<T, Ct>(c2, y, x)
                == T::spec_add(
                view_at::<T, Ct>(c0, y, x),
                T::spec_add(product_entry::<T, At, Bt>(a0, b0, y, x), product_entry::<T, At, Bt>(a0, b0, y, x)),
            ),
{
    lemma_gemm_adds_product::<T, At, Bt, Ct>(a0, b0, c0, c1);
    lemma_gemm_adds_product::<T, At, Bt, Ct>(a1, b1, c1, c2);
    assert forall|y: int, x: int| 0 <= y < c2.view_height() && 0 <= x < c2.view_width() implies
        #[trigger] view_at::<T, Ct>(c2, y, x) == T::spec_add(
            view_at::<T, Ct>(c0, y, x),
            T::spec_add(product_entry::<T, At, Bt>(a0, b0, y, x), product_entry::<T, At, Bt>(a0, b0, y, x)),
        ) by {
        let p = product_entry::<T, At, Bt>(a0, b0, y, x);
        assert(product_entry::<T, At, Bt>(a1, b1, y, x) == p);
        assert(view_at::<T, Ct>(c1, y, x) == T::spec_add(view_at::<T, Ct>(c0, y, x), p));
        T::lemma_add_assoc(view_at::<T, Ct>(c0, y, x), p, p);
    }
}

/// Any two nodes run on the same views of A, B and C leave the same C: a
/// tree of partitions and packings computes exactly what the plain triple
/// loop computes.
pub proof fn lemma_gemm_result_unique<T: Scalar, At: Mat<T>, Bt: Mat<T>, Ct: Mat<T>>(a: At, b: Bt, c0: Ct, c1: Ct, c2: Ct)
    requires
        gemm_result::<T, At, Bt, Ct>(a, b, c0, c1),
        gemm_result::<T, At, Bt, Ct>(a, b, c0, c2),
    ensures
        c1.grid() == c2.grid(),
        same_view::<T, Ct>(c1, c2),
{
    assert forall|i: int| 0 <= i < c1.grid().len() implies #[trigger] c1.grid()[i] == c2.grid()[i] by {
        assert forall|j: int| 0 <= j < c1.cols() implies #[trigger] c1.grid()[i][j] == c2.grid()[i][j] by {
            if in_window::<T, Ct>(c1, i, j) {
                let y = i - c1.view_off_y();
                let x = j - c1.view_off_x();
                assert(view_at::<T, Ct>(c1, y, x) == view_at::<T, Ct>(c2, y, x));
            }
        }
        assert(c1.grid()[i] =~= c2.grid()[i]);
    }
    assert(c1.grid() =~= c2.grid());
}

/// The views of `a`, `b` and `c` lie in their matrices and have the shapes
/// of the product `C (m x n) += A (m x k) * B (k x n)`.
pub open spec fn gemm_pre<T: Scalar, At: Mat<T>, Bt: Mat<T>, Ct: Mat<T>>(a: At, b: Bt, c: Ct) -> bool {
    &&& a.wf()
    &&& b.wf()
    &&& c.wf()
    &&& view_in_bounds::<T, At>(a)
    &&& view_in_bounds::<T, Bt>(b)
    &&& view_in_bounds::<T, Ct>(c)
    &&& a.view_height() == c.view_height()
    &&& a.view_width() == b.view_height()
    &&& b.view_width() == c.view_width()
}

/// `c1` is `c0` after `C += A * B` over the views: same window and shape,
/// every entry of the window the kernel's sum over the whole inner
/// dimension, every entry outside the window unchanged.
pub open spec fn gemm_result<T: Scalar, At: Mat<T>, Bt: Mat<T>, Ct: Mat<T>>(
    a: At,
    b: Bt,
    c0: Ct,
    c1: Ct,
) -> bool {
    &&& c1.wf()
    &&& c1.layout() == c0.layout()
    &&& same_view::<T, Ct>(c0, c1)
    &&& c1.cols() == c0.cols()
    &&& c1.grid().len() == c0.grid().len()
    &&& is_rect(c1.grid(), c1.cols())
    &&& forall|y: int, x: int|
        0 <= y < c1.view_height() && 0 <= x < c1.view_width() ==> #[trigger] view_at::<T, Ct>(
            c1,
            y,
            x,
        ) == gemm_entry::<T, At, Bt, Ct>(a, b, c0, y, x, a.view_width() as nat)
    &&& forall|i: int, j: int|
        0 <= i < c1.grid().len() && 0 <= j < c1.cols() && !in_window::<T, Ct>(c1, i, j)
            ==> #[trigger] c1.grid()[i][j] == c0.grid()[i][j]
}

/// What a node of the multiplication tree does: `C += A * B` over the
/// views, leaving A and B (contents and views) as they were.
pub open spec fn gemm_post<T: Scalar, At: Mat<T>, Bt: Mat<T>, Ct: Mat<T>>(
    a0: At,
    b0: Bt,
    c0: Ct,
    a1: At,
    b1: Bt,
    c1: Ct,
) -> bool {
    &&& a1.wf()
    &&& b1.wf()
    &&& same_mat::<T, At>(a0, a1)
    &&& same_mat::<T, Bt>(b0, b1)
    &&& gemm_result::<T, At, Bt, Ct>(a0, b0, c0, c1)
}

/// A node of a matrix-multiplication tree: running it on views of A, B and
/// C performs `C += A * B` on those views.
pub trait GemmNode<T: Scalar, At: Mat<T>, Bt: Mat<T>, Ct: Mat<T>>: Sized {
    /// The node (and all nodes below it) is well formed.
    spec fn inv(&self) -> bool;

    /// The node can run `C (m x n) += A (m x k) * B (k x n)`: every block
    /// or panel size it cuts a non-empty dimension with is positive, at
    /// every node below it too.
    spec fn runs_on(&self, m: nat, n: nat, k: nat) -> bool;

    fn run(&mut self, a: &mut At, b: &mut Bt, c: &mut Ct, thr: &ThreadInfo)
        requires
            old(self).inv(),
            old(self).runs_on(
                old(c).view_height() as nat,
                old(c).view_width() as nat,
                old(a).view_width() as nat,
            ),
            gemm_pre::<T, At, Bt, Ct>(*old(a), *old(b), *old(c)),
        ensures
            final(self).inv(),
            forall|m: nat, n: nat, k: nat| #[trigger] final(self).runs_on(m, n, k) == old(self).runs_on(m, n, k),
            gemm_post::<T, At, Bt, Ct>(*old(a), *old(b), *old(c), *final(a), *final(b), *final(c)),
    ;

    /// `self` is a fresh node of the configuration of `src`: the same block
    /// and panel sizes at every node down to the leaves, and packing buffers
    /// of its own that are still empty.
    spec fn is_shadow_of(&self, src: Self) -> bool;

    /// A fresh node of the same configuration, with buffers of its own.
    fn shadow(&self) -> (r: Self)
        ensures
            r.inv(),
            r.is_shadow_of(*self),
            forall|m: nat, n: nat, k: nat| #[trigger] r.runs_on(m, n, k) == self.runs_on(m, n, k),
    ;
}

/// An empty packing buffer: no rows, no columns, viewed whole.
pub open spec fn is_empty_buffer<T: Scalar, M: Mat<T>>(m: M) -> bool {
    &&& m.wf()
    &&& m.grid().len() == 0
    &&& m.cols() == 0
    &&& m.view_off_y() == 0
    &&& m.view_off_x() == 0
    &&& m.view_height() == 0
    &&& m.view_width() == 0
}

/// A view window: its first row and column and its extents.
pub struct Window {
    pub off_y: usize,
    pub off_x: usize,
    pub height: usize,
    pub width: usize,
}

/// The view window of `m`.
pub open spec fn window_of<T: Scalar, M: Mat<T>>(m: M) -> Window {
    Window {
        off_y: m.view_off_y(),
        off_x: m.view_off_x(),
        height: m.view_height(),
        width: m.view_width(),
    }
}

/// The views a node handed its child in one call of the child's `run`.
pub struct ChildCall {
    pub a: Window,
    pub b: Window,
    pub c: Window,
}

/// The window of a packing buffer that holds the view of `m`: the whole
/// buffer, of the view's extents.
pub open spec fn packed_window<T: Scalar, M: Mat<T>>(m: M) -> Window {
    Window { off_y: 0, off_x: 0, height: m.view_height(), width: m.view_width() }
}

/// `buf` holds exactly a copy of the view of `src`: storage of the view's
/// extents, viewed whole, each entry that of `src`'s view.
pub open spec fn holds_copy_of<T: Scalar, D: Mat<T>, S: Mat<T>>(buf: D, src: S) -> bool {
    &&& buf.wf()
    &&& window_of::<T, D>(buf) == packed_window::<T, S>(src)
    &&& buf.grid().len() == src.view_height()
    &&& buf.cols() == src.view_width()
    &&& forall|y: int, x: int|
        0 <= y < src.view_height() && 0 <= x < src.view_width() ==> #[trigger] buf.grid()[y][x]
            == view_at::<T, S>(src, y, x)
}

/// The number of lines in block `j` when `len` lines are cut in blocks of
/// `bsz`.
pub open spec fn block_len(len: nat, bsz: usize, j: int) -> nat {
    panel_extent(len as int, bsz as int, j) as nat
}

/// `len` lines cut in blocks of `bsz` give `num_panels(len, bsz)` blocks.
pub open spec fn num_blocks(len: nat, bsz: usize) -> nat {
    num_panels(len as int, bsz as int) as nat
}

/// The calls of a node that cuts the rows of C (and A) in blocks of `bsz`:
/// one per block, top to bottom.
pub open spec fn row_blocks(a: Window, b: Window, c: Window, bsz: usize) -> Seq<ChildCall> {
    Seq::new(
        num_blocks(c.height as nat, bsz),
        |j: int|
            ChildCall {
                a: Window {
                    off_y: (a.off_y + j * bsz) as usize,
                    height: block_len(c.height as nat, bsz, j) as usize,
                    ..a
                },
                b: b,
                c: Window {
                    off_y: (c.off_y + j * bsz) as usize,
                    height: block_len(c.height as nat, bsz, j) as usize,
                    ..c
                },
            },
    )
}

/// The calls of a node that cuts the columns of C (and B) in blocks of
/// `bsz`: one per block, left to right.
pub open spec fn col_blocks(a: Window, b: Window, c: Window, bsz: usize) -> Seq<ChildCall> {
    Seq::new(
        num_blocks(c.width as nat, bsz),
        |j: int|
            ChildCall {
                a: a,
                b: Window {
                    off_x: (b.off_x + j * bsz) as usize,
                    width: block_len(c.width as nat, bsz, j) as usize,
                    ..b
                },
                c: Window {
                    off_x: (c.off_x + j * bsz) as usize,
                    width: block_len(c.width as nat, bsz, j) as usize,
                    ..c
                },
            },
    )
}

/// The calls of a node that cuts the inner dimension (the columns of A and
/// the rows of B) in blocks of `bsz`: one per block, in order.
pub open spec fn inner_blocks(a: Window, b: Window, c: Window, bsz: usize) -> Seq<ChildCall> {
    Seq::new(
        num_blocks(a.width as nat, bsz),
        |j: int|
            ChildCall {
                a: Window {
                    off_x: (a.off_x + j * bsz) as usize,
                    width: block_len(a.width as nat, bsz, j) as usize,
                    ..a
                },
                b: Window {
                    off_y: (b.off_y + j * bsz) as usize,
                    height: block_len(a.width as nat, bsz, j) as usize,
                    ..b
                },
                c: c,
            },
    )
}

/// Packs the view of A into a buffer of column panels and runs the child on the
/// packed copy.
pub struct PackAcp<T: Scalar, At: Mat<T>, Bt: Mat<T>, Ct: Mat<T>, S: GemmNode<T, ColumnPanelMatrix<T>, Bt, Ct>> {
    child: S,
    _panel_width: usize,
    packer: Packer<T, At, ColumnPanelMatrix<T>>,
    a_pack: ColumnPanelMatrix<T>,
    calls: Ghost<Seq<ChildCall>>,
    _t: PhantomData<T>,
    _at: PhantomData<At>,
    _bt: PhantomData<Bt>,
    _ct: PhantomData<Ct>,
}

impl<T: Scalar, At: Mat<T>, Bt: Mat<T>, Ct: Mat<T>, S: GemmNode<T, ColumnPanelMatrix<T>, Bt, Ct>> PackAcp<T, At, Bt, Ct, S> {
    pub closed spec fn panel_width(&self) -> usize {
        self._panel_width
    }

    pub closed spec fn child(&self) -> S {
        self.child
    }

    /// The buffer the view is packed into.
    pub closed spec fn buffer(&self) -> ColumnPanelMatrix<T> {
        self.a_pack
    }

    /// The views the child was run on in the last run of this node (none
    /// before the first run).
    pub closed spec fn last_calls(&self) -> Seq<ChildCall> {
        self.calls@
    }

    pub fn new(panel_width: usize, child: S) -> (p: PackAcp<T, At, Bt, Ct, S>)
        ensures
            p.panel_width() == panel_width,
            p.child() == child,
            is_empty_buffer::<T, ColumnPanelMatrix<T>>(p.buffer()),
            p.buffer().panel_width() == panel_width,
            p.buffer().layout() == panel_width,
            p.last_calls() == Seq::<ChildCall>::empty(),
            p.inv() <==> child.inv(),
    {
        let matrix = ColumnPanelMatrix::new(0, 0, panel_width);
        let packer = Packer::new();
        PackAcp { _panel_width: panel_width, child: child, a_pack: matrix, packer: packer,
               calls: Ghost(Seq::empty()),
               _t: PhantomData, _at: PhantomData, _bt: PhantomData, _ct: PhantomData }
    }
}

impl<T: Scalar, At: Mat<T>, Bt: Mat<T>, Ct: Mat<T>, S: GemmNode<T, ColumnPanelMatrix<T>, Bt, Ct>> GemmNode<T, At, Bt, Ct> for PackAcp<T, At, Bt, Ct, S> {
    /// The buffer is laid out in panels of the node's size.
    open spec fn inv(&self) -> bool {
        &&& self.buffer().wf()
        &&& self.buffer().layout() == self.panel_width()
        &&& self.child().inv()
    }

    /// Panels of no lines cannot hold a non-empty view: a size of zero
    /// packs only an operand that is empty across the panels.
    open spec fn runs_on(&self, m: nat, n: nat, k: nat) -> bool {
        &&& (0 < self.panel_width() || k == 0)
        &&& self.child().runs_on(m, n, k)
    }

    closed spec fn is_shadow_of(&self, src: Self) -> bool {
        &&& self._panel_width == src._panel_width
        &&& is_empty_buffer::<T, ColumnPanelMatrix<T>>(self.a_pack)
        &&& self.a_pack.layout() == src._panel_width
        &&& self.child.is_shadow_of(src.child)
    }

    fn run(&mut self, a: &mut At, b: &mut Bt, c: &mut Ct, thr: &ThreadInfo)
        ensures
            final(self).panel_width() == old(self).panel_width(),
            holds_copy_of::<T, ColumnPanelMatrix<T>, At>(final(self).buffer(), *old(a)),
            final(self).last_calls() == seq![
                ChildCall {
                    a: packed_window::<T, At>(*old(a)),
                    b: window_of::<T, Bt>(*old(b)),
                    c: window_of::<T, Ct>(*old(c)),
                },
            ],
    {
        let ghost a0 = *a;
        let ghost c0 = *c;
        proof {
            a.lemma_shape();
            let g = a.grid().len();
            let w = a.cols();
            assert(a.view_height() * a.view_width() <= g * w) by (nonlinear_arith)
                requires
                    a.view_height() <= g,
                    a.view_width() <= w,
            ;
        }
        proof {
            self.a_pack.lemma_layout_is_panel_size();
        }
        self.a_pack.resize_to_fit(a);
        let ghost before = self.a_pack;
        self.packer.pack(a, &mut self.a_pack);
        proof {
            assert(packed_from::<T, At, ColumnPanelMatrix<T>>(a0, before, self.a_pack));
        }
        let ghost ap = self.a_pack;
        self.calls = Ghost(Seq::empty().push(ChildCall {
            a: window_of::<T, ColumnPanelMatrix<T>>(self.a_pack),
            b: window_of::<T, Bt>(*b),
            c: window_of::<T, Ct>(*c),
        }));
        self.child.run(&mut self.a_pack, b, c, thr);
        proof {
            assert(before.grid().len() == a0.view_height());
            assert forall|y: int, x: int| 0 <= y < a0.view_height() && 0 <= x < a0.view_width()
                implies #[trigger] self.a_pack.grid()[y][x] == view_at::<T, At>(a0, y, x) by {
                assert(view_at::<T, ColumnPanelMatrix<T>>(ap, y, x) == view_at::<T, At>(a0, y, x));
            }
        }
        proof {
            assert forall|y: int, x: int|
                0 <= y < c.view_height() && 0 <= x < c.view_width() implies #[trigger] view_at::<T, Ct>(*c, y, x)
                    == gemm_entry::<T, At, Bt, Ct>(a0, *b, c0, y, x, a0.view_width() as nat) by {
                assert(view_at::<T, Ct>(*c, y, x) == gemm_entry::<T, ColumnPanelMatrix<T>, Bt, Ct>(ap, *b, c0, y, x, a0.view_width() as nat));
                assert forall|z: int| 0 <= z < a0.view_width() implies #[trigger] row_entry(ap.grid(), y, 0, z)
                    == row_entry(a0.grid(), a0.view_off_y() + y, a0.view_off_x() as int, z) by {
                    assert(view_at::<T, ColumnPanelMatrix<T>>(ap, y, z) == view_at::<T, At>(a0, y, z));
                }
                lemma_dot_congr(view_at::<T, Ct>(c0, y, x), ap.grid(), y, 0, b.grid(), b.view_off_y() as int,
                    b.view_off_x() + x, a0.grid(), a0.view_off_y() + y, a0.view_off_x() as int, b.grid(),
                    b.view_off_y() as int, b.view_off_x() + x, a0.view_width() as nat);
            }
        }
    }

    fn shadow(&self) -> (r: Self)
        ensures
            r.panel_width() == self.panel_width(),
            is_empty_buffer::<T, ColumnPanelMatrix<T>>(r.buffer()),
            r.buffer().panel_width() == self.panel_width(),
            r.child().is_shadow_of(self.child()),
            r.last_calls() == Seq::<ChildCall>::empty(),
    {
        PackAcp { _panel_width: self._panel_width,
               child: self.child.shadow(),
               a_pack: ColumnPanelMatrix::new(0, 0, self._panel_width),
               packer: Packer::new(),
               calls: Ghost(Seq::empty()),
               _t: PhantomData, _at: PhantomData, _bt: PhantomData, _ct: PhantomData }
    }
}

/// Packs the view of B into a buffer of column panels and runs the child on the
/// packed copy.
pub struct PackBcp<T: Scalar, At: Mat<T>, Bt: Mat<T>, Ct: Mat<T>, S: GemmNode<T, At, ColumnPanelMatrix<T>, Ct>> {
    child: S,
    _panel_width: usize,
    packer: Packer<T, Bt, ColumnPanelMatrix<T>>,
    b_pack: ColumnPanelMatrix<T>,
    calls: Ghost<Seq<ChildCall>>,
    _t: PhantomData<T>,
    _at: PhantomData<At>,
    _bt: PhantomData<Bt>,
    _ct: PhantomData<Ct>,
}

impl<T: Scalar, At: Mat<T>, Bt: Mat<T>, Ct: Mat<T>, S: GemmNode<T, At, ColumnPanelMatrix<T>, Ct>> PackBcp<T, At, Bt, Ct, S> {
    pub closed spec fn panel_width(&self) -> usize {
        self._panel_width
    }

    pub closed spec fn child(&self) -> S {
        self.child
    }

    /// The buffer the view is packed into.
    pub closed spec fn buffer(&self) -> ColumnPanelMatrix<T> {
        self.b_pack
    }

    /// The views the child was run on in the last run of this node (none
    /// before the first run).
    pub closed spec fn last_calls(&self) -> Seq<ChildCall> {
        self.calls@
    }

    pub fn new(panel_width: usize, child: S) -> (p: PackBcp<T, At, Bt, Ct, S>)
        ensures
            p.panel_width() == panel_width,
            p.child() == child,
            is_empty_buffer::<T, ColumnPanelMatrix<T>>(p.buffer()),
            p.buffer().panel_width() == panel_width,
            p.buffer().layout() == panel_width,
            p.last_calls() == Seq::<ChildCall>::empty(),
            p.inv() <==> child.inv(),
    {
        let matrix = ColumnPanelMatrix::new(0, 0, panel_width);
        let packer = Packer::new();
        PackBcp { _panel_width: panel_width, child: child, b_pack: matrix, packer: packer,
               calls: Ghost(Seq::empty()),
               _t: PhantomData, _at: PhantomData, _bt: PhantomData, _ct: PhantomData }
    }
}

impl<T: Scalar, At: Mat<T>, Bt: Mat<T>, Ct: Mat<T>, S: GemmNode<T, At, ColumnPanelMatrix<T>, Ct>> GemmNode<T, At, Bt, Ct> for PackBcp<T, At, Bt, Ct, S> {
    /// The buffer is laid out in panels of the node's size.
    open spec fn inv(&self) -> bool {
        &&& self.buffer().wf()
        &&& self.buffer().layout() == self.panel_width()
        &&& self.child().inv()
    }

    /// Panels of no lines cannot hold a non-empty view: a size of zero
    /// packs only an operand that is empty across the panels.
    open spec fn runs_on(&self, m: nat, n: nat, k: nat) -> bool {
        &&& (0 < self.panel_width() || n == 0)
        &&& self.child().runs_on(m, n, k)
    }

    closed spec fn is_shadow_of(&self, src: Self) -> bool {
        &&& self._panel_width == src._panel_width
        &&& is_empty_buffer::<T, ColumnPanelMatrix<T>>(self.b_pack)
        &&& self.b_pack.layout() == src._panel_width
        &&& self.child.is_shadow_of(src.child)
    }

    fn run(&mut self, a: &mut At, b: &mut Bt, c: &mut Ct, thr: &ThreadInfo)
        ensures
            final(self).panel_width() == old(self).panel_width(),
            holds_copy_of::<T, ColumnPanelMatrix<T>, Bt>(final(self).buffer(), *old(b)),
            final(self).last_calls() == seq![
                ChildCall {
                    a: window_of::<T, At>(*old(a)),
                    b: packed_window::<T, Bt>(*old(b)),
                    c: window_of::<T, Ct>(*old(c)),
                },
            ],
    {
        let ghost b0 = *b;
        let ghost c0 = *c;
        proof {
            b.lemma_shape();
            let g = b.grid().len();
            let w = b.cols();
            assert(b.view_height() * b.view_width() <= g * w) by (nonlinear_arith)
                requires
                    b.view_height() <= g,
                    b.view_width() <= w,
            ;
        }
        proof {
            self.b_pack.lemma_layout_is_panel_size();
        }
        self.b_pack.resize_to_fit(b);
        let ghost before = self.b_pack;
        self.packer.pack(b, &mut self.b_pack);
        proof {
            assert(packed_from::<T, Bt, ColumnPanelMatrix<T>>(b0, before, self.b_pack));
        }
        let ghost bp = self.b_pack;
        self.calls = Ghost(Seq::empty().push(ChildCall {
            a: window_of::<T, At>(*a),
            b: window_of::<T, ColumnPanelMatrix<T>>(self.b_pack),
            c: window_of::<T, Ct>(*c),
        }));
        self.child.run(a, &mut self.b_pack, c, thr);
        proof {
            assert(before.grid().len() == b0.view_height());
            assert forall|y: int, x: int| 0 <= y < b0.view_height() && 0 <= x < b0.view_width()
                implies #[trigger] self.b_pack.grid()[y][x] == view_at::<T, Bt>(b0, y, x) by {
                assert(view_at::<T, ColumnPanelMatrix<T>>(bp, y, x) == view_at::<T, Bt>(b0, y, x));
            }
        }
        proof {
            assert forall|y: int, x: int|
                0 <= y < c.view_height() && 0 <= x < c.view_width() implies #[trigger] view_at::<T, Ct>(*c, y, x)
                    == gemm_entry::<T, At, Bt, Ct>(*a, b0, c0, y, x, a.view_width() as nat) by {
                assert(view_at::<T, Ct>(*c, y, x) == gemm_entry::<T, At, ColumnPanelMatrix<T>, Ct>(*a, bp, c0, y, x, a.view_width() as nat));
                assert forall|z: int| 0 <= z < a.view_width() implies #[trigger] col_entry(bp.grid(), 0, x, z)
                    == col_entry(b0.grid(), b0.view_off_y() as int, b0.view_off_x() + x, z) by {
                    assert(view_at::<T, ColumnPanelMatrix<T>>(bp, z, x) == view_at::<T, Bt>(b0, z, x));
                }
                lemma_dot_congr(view_at::<T, Ct>(c0, y, x), a.grid(), a.view_off_y() + y, a.view_off_x() as int,
                    bp.grid(), 0, x, a.grid(), a.view_off_y() + y, a.view_off_x() as int,
                    b0.grid(), b0.view_off_y() as int, b0.view_off_x() + x, a.view_width() as nat);
            }
        }
    }

    fn shadow(&self) -> (r: Self)
        ensures
            r.panel_width() == self.panel_width(),
            is_empty_buffer::<T, ColumnPanelMatrix<T>>(r.buffer()),
            r.buffer().panel_width() == self.panel_width(),
            r.child().is_shadow_of(self.child()),
            r.last_calls() == Seq::<ChildCall>::empty(),
    {
        PackBcp { _panel_width: self._panel_width,
               child: self.child.shadow(),
               b_pack: ColumnPanelMatrix::new(0, 0, self._panel_width),
               packer: Packer::new(),
               calls: Ghost(Seq::empty()),
               _t: PhantomData, _at: PhantomData, _bt: PhantomData, _ct: PhantomData }
    }
}

/// Packs the view of A into a buffer of row panels and runs the child on the
/// packed copy.
pub struct PackArp<T: Scalar, At: Mat<T>, Bt: Mat<T>, Ct: Mat<T>, S: GemmNode<T, RowPanelMatrix<T>, Bt, Ct>> {
    child: S,
    _panel_height: usize,
    packer: Packer<T, At, RowPanelMatrix<T>>,
    a_pack: RowPanelMatrix<T>,
    calls: Ghost<Seq<ChildCall>>,
    _t: PhantomData<T>,
    _at: PhantomData<At>,
    _bt: PhantomData<Bt>,
    _ct: PhantomData<Ct>,
}

impl<T: Scalar, At: Mat<T>, Bt: Mat<T>, Ct: Mat<T>, S: GemmNode<T, RowPanelMatrix<T>, Bt, Ct>> PackArp<T, At, Bt, Ct, S> {
    pub closed spec fn panel_height(&self) -> usize {
        self._panel_height
    }

    pub closed spec fn child(&self) -> S {
        self.child
    }

    /// The buffer the view is packed into.
    pub closed spec fn buffer(&self) -> RowPanelMatrix<T> {
        self.a_pack
    }

    /// The views the child was run on in the last run of this node (none
    /// before the first run).
    pub closed spec fn last_calls(&self) -> Seq<ChildCall> {
        self.calls@
    }

    pub fn new(panel_height: usize, child: S) -> (p: PackArp<T, At, Bt, Ct, S>)
        ensures
            p.panel_height() == panel_height,
            p.child() == child,
            is_empty_buffer::<T, RowPanelMatrix<T>>(p.buffer()),
            p.buffer().panel_height() == panel_height,
            p.buffer().layout() == panel_height,
            p.last_calls() == Seq::<ChildCall>::empty(),
            p.inv() <==> child.inv(),
    {
        let matrix = RowPanelMatrix::new(0, 0, panel_height);
        let packer = Packer::new();
        PackArp { _panel_height: panel_height, child: child, a_pack: matrix, packer: packer,
               calls: Ghost(Seq::empty()),
               _t: PhantomData, _at: PhantomData, _bt: PhantomData, _ct: PhantomData }
    }
}

impl<T: Scalar, At: Mat<T>, Bt: Mat<T>, Ct: Mat<T>, S: GemmNode<T, RowPanelMatrix<T>, Bt, Ct>> GemmNode<T, At, Bt, Ct> for PackArp<T, At, Bt, Ct, S> {
    /// The buffer is laid out in panels of the node's size.
    open spec fn inv(&self) -> bool {
        &&& self.buffer().wf()
        &&& self.buffer().layout() == self.panel_height()
        &&& self.child().inv()
    }

    /// Panels of no lines cannot hold a non-empty view: a size of zero
    /// packs only an operand that is empty across the panels.
    open spec fn runs_on(&self, m: nat, n: nat, k: nat) -> bool {
        &&& (0 < self.panel_height() || m == 0)
        &&& self.child().runs_on(m, n, k)
    }

    closed spec fn is_shadow_of(&self, src: Self) -> bool {
        &&& self._panel_height == src._panel_height
        &&& is_empty_buffer::<T, RowPanelMatrix<T>>(self.a_pack)
        &&& self.a_pack.layout() == src._panel_height
        &&& self.child.is_shadow_of(src.child)
    }

    fn run(&mut self, a: &mut At, b: &mut Bt, c: &mut Ct, thr: &ThreadInfo)
        ensures
            final(self).panel_height() == old(self).panel_height(),
            holds_copy_of::<T, RowPanelMatrix<T>, At>(final(self).buffer(), *old(a)),
            final(self).last_calls() == seq![
                ChildCall {
                    a: packed_window::<T, At>(*old(a)),
                    b: window_of::<T, Bt>(*old(b)),
                    c: window_of::<T, Ct>(*old(c)),
                },
            ],
    {
        let ghost a0 = *a;
        let ghost c0 = *c;
        proof {
            a.lemma_shape();
            let g = a.grid().len();
            let w = a.cols();
            assert(a.view_height() * a.view_width() <= g * w) by (nonlinear_arith)
                requires
                    a.view_height() <= g,
                    a.view_width() <= w,
            ;
        }
        proof {
            self.a_pack.lemma_layout_is_panel_size();
        }
        self.a_pack.resize_to_fit(a);
        let ghost before = self.a_pack;
        self.packer.pack(a, &mut self.a_pack);
        proof {
            assert(packed_from::<T, At, RowPanelMatrix<T>>(a0, before, self.a_pack));
        }
        let ghost ap = self.a_pack;
        self.calls = Ghost(Seq::empty().push(ChildCall {
            a: window_of::<T, RowPanelMatrix<T>>(self.a_pack),
            b: window_of::<T, Bt>(*b),
            c: window_of::<T, Ct>(*c),
        }));
        self.child.run(&mut self.a_pack, b, c, thr);
        proof {
            assert(before.grid().len() == a0.view_height());
            assert forall|y: int, x: int| 0 <= y < a0.view_height() && 0 <= x < a0.view_width()
                implies #[trigger] self.a_pack.grid()[y][x] == view_at::<T, At>(a0, y, x) by {
                assert(view_at::<T, RowPanelMatrix<T>>(ap, y, x) == view_at::<T, At>(a0, y, x));
            }
        }
        proof {
            assert forall|y: int, x: int|
                0 <= y < c.view_height() && 0 <= x < c.view_width() implies #[trigger] view_at::<T, Ct>(*c, y, x)
                    == gemm_entry::<T, At, Bt, Ct>(a0, *b, c0, y, x, a0.view_width() as nat) by {
                assert(view_at::<T, Ct>(*c, y, x) == gemm_entry::<T, RowPanelMatrix<T>, Bt, Ct>(ap, *b, c0, y, x, a0.view_width() as nat));
                assert forall|z: int| 0 <= z < a0.view_width() implies #[trigger] row_entry(ap.grid(), y, 0, z)
                    == row_entry(a0.grid(), a0.view_off_y() + y, a0.view_off_x() as int, z) by {
                    assert(view_at::<T, RowPanelMatrix<T>>(ap, y, z) == view_at::<T, At>(a0, y, z));
                }
                lemma_dot_congr(view_at::<T, Ct>(c0, y, x), ap.grid(), y, 0, b.grid(), b.view_off_y() as int,
                    b.view_off_x() + x, a0.grid(), a0.view_off_y() + y, a0.view_off_x() as int, b.grid(),
                    b.view_off_y() as int, b.view_off_x() + x, a0.view_width() as nat);
            }
        }
    }

    fn shadow(&self) -> (r: Self)
        ensures
            r.panel_height() == self.panel_height(),
            is_empty_buffer::<T, RowPanelMatrix<T>>(r.buffer()),
            r.buffer().panel_height() == self.panel_height(),
            r.child().is_shadow_of(self.child()),
            r.last_calls() == Seq::<ChildCall>::empty(),
    {
        PackArp { _panel_height: self._panel_height,
               child: self.child.shadow(),
               a_pack: RowPanelMatrix::new(0, 0, self._panel_height),
               packer: Packer::new(),
               calls: Ghost(Seq::empty()),
               _t: PhantomData, _at: PhantomData, _bt: PhantomData, _ct: PhantomData }
    }
}

/// Packs the view of B into a buffer of row panels and runs the child on the
/// packed copy.
pub struct PackBrp<T: Scalar, At: Mat<T>, Bt: Mat<T>, Ct: Mat<T>, S: GemmNode<T, At, RowPanelMatrix<T>, Ct>> {
    child: S,
    _panel_height: usize,
    packer: Packer<T, Bt, RowPanelMatrix<T>>,
    b_pack: RowPanelMatrix<T>,
    calls: Ghost<Seq<ChildCall>>,
    _t: PhantomData<T>,
    _at: PhantomData<At>,
    _bt: PhantomData<Bt>,
    _ct: PhantomData<Ct>,
}

impl<T: Scalar, At: Mat<T>, Bt: Mat<T>, Ct: Mat<T>, S: GemmNode<T, At, RowPanelMatrix<T>, Ct>> PackBrp<T, At, Bt, Ct, S> {
    pub closed spec fn panel_height(&self) -> usize {
        self._panel_height
    }

    pub closed spec fn child(&self) -> S {
        self.child
    }

    /// The buffer the view is packed into.
    pub closed spec fn buffer(&self) -> RowPanelMatrix<T> {
        self.b_pack
    }

    /// The views the child was run on in the last run of this node (none
    /// before the first run).
    pub closed spec fn last_calls(&self) -> Seq<ChildCall> {
        self.calls@
    }

    pub fn new(panel_height: usize, child: S) -> (p: PackBrp<T, At, Bt, Ct, S>)
        ensures
            p.panel_height() == panel_height,
            p.child() == child,
            is_empty_buffer::<T, RowPanelMatrix<T>>(p.buffer()),
            p.buffer().panel_height() == panel_height,
            p.buffer().layout() == panel_height,
            p.last_calls() == Seq::<ChildCall>::empty(),
            p.inv() <==> child.inv(),
    {
        let matrix = RowPanelMatrix::new(0, 0, panel_height);
        let packer = Packer::new();
        PackBrp { _panel_height: panel_height, child: child, b_pack: matrix, packer: packer,
               calls: Ghost(Seq::empty()),
               _t: PhantomData, _at: PhantomData, _bt: PhantomData, _ct: PhantomData }
    }
}

impl<T: Scalar, At: Mat<T>, Bt: Mat<T>, Ct: Mat<T>, S: GemmNode<T, At, RowPanelMatrix<T>, Ct>> GemmNode<T, At, Bt, Ct> for PackBrp<T, At, Bt, Ct, S> {
    /// The buffer is laid out in panels of the node's size.
    open spec fn inv(&self) -> bool {
        &&& self.buffer().wf()
        &&& self.buffer().layout() == self.panel_height()
        &&& self.child().inv()
    }

    /// Panels of no lines cannot hold a non-empty view: a size of zero
    /// packs only an operand that is empty across the panels.
    open spec fn runs_on(&self, m: nat, n: nat, k: nat) -> bool {
        &&& (0 < self.panel_height() || k == 0)
        &&& self.child().runs_on(m, n, k)
    }

    closed spec fn is_shadow_of(&self, src: Self) -> bool {
        &&& self._panel_height == src._panel_height
        &&& is_empty_buffer::<T, RowPanelMatrix<T>>(self.b_pack)
        &&& self.b_pack.layout() == src._panel_height
        &&& self.child.is_shadow_of(src.child)
    }

    fn run(&mut self, a: &mut At, b: &mut Bt, c: &mut Ct, thr: &ThreadInfo)
        ensures
            final(self).panel_height() == old(self).panel_height(),
            holds_copy_of::<T, RowPanelMatrix<T>, Bt>(final(self).buffer(), *old(b)),
            final(self).last_calls() == seq![
                ChildCall {
                    a: window_of::<T, At>(*old(a)),
                    b: packed_window::<T, Bt>(*old(b)),
                    c: window_of::<T, Ct>(*old(c)),
                },
            ],
    {
        let ghost b0 = *b;
        let ghost c0 = *c;
        proof {
            b.lemma_shape();
            let g = b.grid().len();
            let w = b.cols();
            assert(b.view_height() * b.view_width() <= g * w) by (nonlinear_arith)
                requires
                    b.view_height() <= g,
                    b.view_width() <= w,
            ;
        }
        proof {
            self.b_pack.lemma_layout_is_panel_size();
        }
        self.b_pack.resize_to_fit(b);
        let ghost before = self.b_pack;
        self.packer.pack(b, &mut self.b_pack);
        proof {
            assert(packed_from::<T, Bt, RowPanelMatrix<T>>(b0, before, self.b_pack));
        }
        let ghost bp = self.b_pack;
        self.calls = Ghost(Seq::empty().push(ChildCall {
            a: window_of::<T, At>(*a),
            b: window_of::<T, RowPanelMatrix<T>>(self.b_pack),
            c: window_of::<T, Ct>(*c),
        }));
        self.child.run(a, &mut self.b_pack, c, thr);
        proof {
            assert(before.grid().len() == b0.view_height());
            assert forall|y: int, x: int| 0 <= y < b0.view_height() && 0 <= x < b0.view_width()
                implies #[trigger] self.b_pack.grid()[y][x] == view_at::<T, Bt>(b0, y, x) by {
                assert(view_at::<T, RowPanelMatrix<T>>(bp, y, x) == view_at::<T, Bt>(b0, y, x));
            }
        }
        proof {
            assert forall|y: int, x: int|
                0 <= y < c.view_height() && 0 <= x < c.view_width() implies #[trigger] view_at::<T, Ct>(*c, y, x)
                    == gemm_entry::<T, At, Bt, Ct>(*a, b0, c0, y, x, a.view_width() as nat) by {
                assert(view_at::<T, Ct>(*c, y, x) == gemm_entry::<T, At, RowPanelMatrix<T>, Ct>(*a, bp, c0, y, x, a.view_width() as nat));
                assert forall|z: int| 0 <= z < a.view_width() implies #[trigger] col_entry(bp.grid(), 0, x, z)
                    == col_entry(b0.grid(), b0.view_off_y() as int, b0.view_off_x() + x, z) by {
                    assert(view_at::<T, RowPanelMatrix<T>>(bp, z, x) == view_at::<T, Bt>(b0, z, x));
                }
                lemma_dot_congr(view_at::<T, Ct>(c0, y, x), a.grid(), a.view_off_y() + y, a.view_off_x() as int,
                    bp.grid(), 0, x, a.grid(), a.view_off_y() + y, a.view_off_x() as int,
                    b0.grid(), b0.view_off_y() as int, b0.view_off_x() + x, a.view_width() as nat);
            }
        }
    }

    fn shadow(&self) -> (r: Self)
        ensures
            r.panel_height() == self.panel_height(),
            is_empty_buffer::<T, RowPanelMatrix<T>>(r.buffer()),
            r.buffer().panel_height() == self.panel_height(),
            r.child().is_shadow_of(self.child()),
            r.last_calls() == Seq::<ChildCall>::empty(),
    {
        PackBrp { _panel_height: self._panel_height,
               child: self.child.shadow(),
               b_pack: RowPanelMatrix::new(0, 0, self._panel_height),
               packer: Packer::new(),
               calls: Ghost(Seq::empty()),
               _t: PhantomData, _at: PhantomData, _bt: PhantomData, _ct: PhantomData }
    }
}

/// Splits the rows of C (and of A) into blocks of `bsz` and runs the child
/// on each block in turn.
pub struct PartM<T: Scalar, At: Mat<T>, Bt: Mat<T>, Ct: Mat<T>, S: GemmNode<T, At, Bt, Ct>> {
    bsz: usize,
    child: S,
    calls: Ghost<Seq<ChildCall>>,
    _t: PhantomData<T>,
    _at: PhantomData<At>,
    _bt: PhantomData<Bt>,
    _ct: PhantomData<Ct>,
}

impl<T: Scalar, At: Mat<T>, Bt: Mat<T>, Ct: Mat<T>, S: GemmNode<T, At, Bt, Ct>> PartM<T, At, Bt, Ct, S> {
    pub closed spec fn block_size(&self) -> usize {
        self.bsz
    }

    pub closed spec fn child(&self) -> S {
        self.child
    }

    /// The views the child was run on in the last run of this node, in
    /// order (none before the first run).
    pub closed spec fn last_calls(&self) -> Seq<ChildCall> {
        self.calls@
    }

    pub fn new(bsz: usize, child: S) -> (p: PartM<T, At, Bt, Ct, S>)
        ensures
            p.block_size() == bsz,
            p.child() == child,
            p.last_calls() == Seq::<ChildCall>::empty(),
            p.inv() <==> child.inv(),
    {
        PartM {
            bsz: bsz,
            child: child,
            calls: Ghost(Seq::empty()),
            _t: PhantomData,
            _at: PhantomData,
            _bt: PhantomData,
            _ct: PhantomData,
        }
    }
}

impl<T: Scalar, At: Mat<T>, Bt: Mat<T>, Ct: Mat<T>, S: GemmNode<T, At, Bt, Ct>> GemmNode<T, At, Bt, Ct> for PartM<T, At, Bt, Ct, S> {
    open spec fn inv(&self) -> bool {
        self.child().inv()
    }

    /// A block size of zero never gets past the first block of non-empty
    /// rows; every block is run by the child.
    open spec fn runs_on(&self, m: nat, n: nat, k: nat) -> bool {
        m == 0 || (self.block_size() > 0 && forall|j: int|
            0 <= j < num_blocks(m, self.block_size()) ==> #[trigger] self.child().runs_on(
                block_len(m, self.block_size(), j),
                n,
                k,
            ))
    }

    closed spec fn is_shadow_of(&self, src: Self) -> bool {
        self.bsz == src.bsz && self.child.is_shadow_of(src.child)
    }

    fn run(&mut self, a: &mut At, b: &mut Bt, c: &mut Ct, thr: &ThreadInfo)
        ensures
            final(self).block_size() == old(self).block_size(),
            final(self).last_calls() == row_blocks(
                window_of::<T, At>(*old(a)),
                window_of::<T, Bt>(*old(b)),
                window_of::<T, Ct>(*old(c)),
                old(self).block_size(),
            ),
    {
        let ghost a0 = *a;
        let ghost b0 = *b;
        let ghost c0 = *c;
        let ghost s0 = *self;
        let m_save = c.iter_height();
        let ay_off_save = a.off_y();
        let cy_off_save = c.off_y();
        let ghost n = c0.view_width();
        let ghost kk = a0.view_width() as nat;
        let ghost bsz = self.bsz;
        let ghost np = num_blocks(m_save as nat, bsz) as int;
        let ghost expect = row_blocks(window_of::<T, At>(a0), window_of::<T, Bt>(b0), window_of::<T, Ct>(c0), bsz);
        proof {
            c.lemma_shape();
            a.lemma_shape();
        }
        self.calls = Ghost(Seq::empty());
        let mut i: usize = 0;
        while i < m_save
            invariant
                0 <= i <= m_save,
                a0.grid().len() <= usize::MAX,
                c0.grid().len() <= usize::MAX,
                m_save == c0.view_height(),
                ay_off_save == a0.view_off_y(),
                cy_off_save == c0.view_off_y(),
                n == c0.view_width(),
                kk == a0.view_width(),
                gemm_pre::<T, At, Bt, Ct>(a0, b0, c0),
                self.inv(),
                self.bsz == bsz,
                s0.runs_on(m_save as nat, n as nat, kk),
                s0.block_size() == bsz,
                forall|mm: nat, nn: nat, k2: nat| #[trigger] self.child.runs_on(mm, nn, k2) == s0.child().runs_on(mm, nn, k2),
                np == num_blocks(m_save as nat, bsz),
                expect == row_blocks(window_of::<T, At>(a0), window_of::<T, Bt>(b0), window_of::<T, Ct>(c0), bsz),
                self.calls@.len() <= np,
                i == (if self.calls@.len() == np { m_save as int } else { self.calls@.len() * bsz }),
                forall|q: int| 0 <= q < self.calls@.len() ==> #[trigger] self.calls@[q] == expect[q],
                a.wf(),
                a.grid() == a0.grid(),
                a.cols() == a0.cols(),
                a.view_off_x() == a0.view_off_x(),
                a.view_width() == a0.view_width(),
                b.wf(),
                same_mat::<T, Bt>(b0, *b),
                c.wf(),
                c.cols() == c0.cols(),
                a.layout() == a0.layout(),
                b.layout() == b0.layout(),
                c.layout() == c0.layout(),
                c.grid().len() == c0.grid().len(),
                is_rect(c.grid(), c.cols()),
                c.view_off_x() == c0.view_off_x(),
                c.view_width() == c0.view_width(),
                forall|yy: int, xx: int|
                    0 <= yy < m_save && 0 <= xx < n ==> #[trigger] c.grid()[cy_off_save + yy][c0.view_off_x() + xx]
                        == (if yy < i {
                        gemm_entry::<T, At, Bt, Ct>(a0, b0, c0, yy, xx, kk)
                    } else {
                        view_at::<T, Ct>(c0, yy, xx)
                    }),
                forall|p: int, q: int|
                    0 <= p < c.grid().len() && 0 <= q < c.cols() && !in_window::<T, Ct>(c0, p, q)
                        ==> #[trigger] c.grid()[p][q] == c0.grid()[p][q],
            decreases m_save - i,
        {
            let ghost j = self.calls@.len() as int;
            proof {
                lemma_panel_start(j, m_save as int, bsz as int);
            }
            a.adjust_y_view(m_save, ay_off_save, self.bsz, i);
            c.adjust_y_view(m_save, cy_off_save, self.bsz, i);
            let ghost ci = *c;
            let ghost ai = *a;
            let ghost h = c.view_height();
            proof {
                assert(self.child.runs_on(block_len(m_save as nat, bsz, j), n as nat, kk));
                assert(window_of::<T, At>(ai) == expect[j].a);
                assert(window_of::<T, Ct>(ci) == expect[j].c);
            }
            self.calls = Ghost(self.calls@.push(ChildCall { a: window_of::<T, At>(*a), b: window_of::<T, Bt>(*b), c: window_of::<T, Ct>(*c) }));
            self.child.run(a, b, c, thr);
            proof {
                assert forall|yy: int, xx: int|
                    0 <= yy < m_save && 0 <= xx < n implies #[trigger] c.grid()[cy_off_save + yy][c0.view_off_x() + xx]
                        == (if yy < i + h {
                        gemm_entry::<T, At, Bt, Ct>(a0, b0, c0, yy, xx, kk)
                    } else {
                        view_at::<T, Ct>(c0, yy, xx)
                    }) by {
                    if i <= yy < i + h {
                        assert(view_at::<T, Ct>(*c, yy - i, xx) == gemm_entry::<T, At, Bt, Ct>(ai, b0, ci, yy - i, xx, kk));
                        assert(view_at::<T, Ct>(ci, yy - i, xx) == ci.grid()[cy_off_save + yy][c0.view_off_x() + xx]);
                    } else {
                        assert(!in_window::<T, Ct>(*c, cy_off_save + yy, c0.view_off_x() + xx));
                    }
                }
                assert forall|p: int, q: int|
                    0 <= p < c.grid().len() && 0 <= q < c.cols() && !in_window::<T, Ct>(c0, p, q)
                        implies #[trigger] c.grid()[p][q] == c0.grid()[p][q] by {
                    assert(!in_window::<T, Ct>(*c, p, q));
                    assert(c.grid()[p][q] == ci.grid()[p][q]);
                }
                lemma_panel_next(j, m_save as int, bsz as int);
            }
            i = if m_save - i <= self.bsz {
                m_save
            } else {
                i + self.bsz
            };
        }
        proof {
            if self.calls@.len() < np {
                lemma_panel_start(self.calls@.len() as int, m_save as int, bsz as int);
            }
            assert(self.calls@ =~= expect);
        }
        a.set_iter_height(m_save);
        a.set_off_y(ay_off_save);
        c.set_iter_height(m_save);
        c.set_off_y(cy_off_save);
        proof {
            assert(a.grid() =~= a0.grid());
            assert forall|yy: int, xx: int|
                0 <= yy < c.view_height() && 0 <= xx < c.view_width() implies #[trigger] view_at::<T, Ct>(*c, yy, xx)
                    == gemm_entry::<T, At, Bt, Ct>(a0, b0, c0, yy, xx, kk) by {
                assert(c.grid()[cy_off_save + yy][c0.view_off_x() + xx] == gemm_entry::<T, At, Bt, Ct>(a0, b0, c0, yy, xx, kk));
            }
        }
        proof {
            assert forall|mm: nat, nn: nat, k2: nat| #[trigger] self.runs_on(mm, nn, k2) == s0.runs_on(mm, nn, k2) by {
                assert forall|j: int| 0 <= j < num_blocks(mm, bsz) implies self.child().runs_on(block_len(mm, bsz, j), nn, k2) == s0.child().runs_on(block_len(mm, bsz, j), nn, k2) by {}
            }
        }
    }

    fn shadow(&self) -> (r: Self)
        ensures
            r.block_size() == self.block_size(),
            r.child().is_shadow_of(self.child()),
            r.last_calls() == Seq::<ChildCall>::empty(),
    {
        let ghost bsz = self.bsz;
        let r = PartM {
            bsz: self.bsz,
            child: self.child.shadow(),
            calls: Ghost(Seq::empty()),
            _t: PhantomData,
            _at: PhantomData,
            _bt: PhantomData,
            _ct: PhantomData,
        };
        proof {
            assert forall|mm: nat, nn: nat, k2: nat| #[trigger] r.runs_on(mm, nn, k2) == self.runs_on(mm, nn, k2) by {
                assert forall|j: int| 0 <= j < num_blocks(mm, bsz) implies r.child().runs_on(block_len(mm, bsz, j), nn, k2) == self.child().runs_on(block_len(mm, bsz, j), nn, k2) by {}
            }
        }
        r
    }
}

/// Splits the columns of C (and of B) into blocks of `bsz` and runs the
/// child on each block in turn.
pub struct PartN<T: Scalar, At: Mat<T>, Bt: Mat<T>, Ct: Mat<T>, S: GemmNode<T, At, Bt, Ct>> {
    bsz: usize,
    child: S,
    calls: Ghost<Seq<ChildCall>>,
    _t: PhantomData<T>,
    _at: PhantomData<At>,
    _bt: PhantomData<Bt>,
    _ct: PhantomData<Ct>,
}

impl<T: Scalar, At: Mat<T>, Bt: Mat<T>, Ct: Mat<T>, S: GemmNode<T, At, Bt, Ct>> PartN<T, At, Bt, Ct, S> {
    pub closed spec fn block_size(&self) -> usize {
        self.bsz
    }

    pub closed spec fn child(&self) -> S {
        self.child
    }

    /// The views the child was run on in the last run of this node, in
    /// order (none before the first run).
    pub closed spec fn last_calls(&self) -> Seq<ChildCall> {
        self.calls@
    }

    pub fn new(bsz: usize, child: S) -> (p: PartN<T, At, Bt, Ct, S>)
        ensures
            p.block_size() == bsz,
            p.child() == child,
            p.last_calls() == Seq::<ChildCall>::empty(),
            p.inv() <==> child.inv(),
    {
        PartN {
            bsz: bsz,
            child: child,
            calls: Ghost(Seq::empty()),
            _t: PhantomData,
            _at: PhantomData,
            _bt: PhantomData,
            _ct: PhantomData,
        }
    }
}

impl<T: Scalar, At: Mat<T>, Bt: Mat<T>, Ct: Mat<T>, S: GemmNode<T, At, Bt, Ct>> GemmNode<T, At, Bt, Ct> for PartN<T, At, Bt, Ct, S> {
    open spec fn inv(&self) -> bool {
        self.child().inv()
    }

    /// A block size of zero never gets past the first block of non-empty
    /// columns; every block is run by the child.
    open spec fn runs_on(&self, m: nat, n: nat, k: nat) -> bool {
        n == 0 || (self.block_size() > 0 && forall|j: int|
            0 <= j < num_blocks(n, self.block_size()) ==> #[trigger] self.child().runs_on(
                m,
                block_len(n, self.block_size(), j),
                k,
            ))
    }

    closed spec fn is_shadow_of(&self, src: Self) -> bool {
        self.bsz == src.bsz && self.child.is_shadow_of(src.child)
    }

    fn run(&mut self, a: &mut At, b: &mut Bt, c: &mut Ct, thr: &ThreadInfo)
        ensures
            final(self).block_size() == old(self).block_size(),
            final(self).last_calls() == col_blocks(
                window_of::<T, At>(*old(a)),
                window_of::<T, Bt>(*old(b)),
                window_of::<T, Ct>(*old(c)),
                old(self).block_size(),
            ),
    {
        let ghost a0 = *a;
        let ghost b0 = *b;
        let ghost c0 = *c;
        let ghost s0 = *self;
        let n_save = c.iter_width();
        let bx_off_save = b.off_x();
        let cx_off_save = c.off_x();
        let ghost m = c0.view_height();
        let ghost kk = a0.view_width() as nat;
        let ghost bsz = self.bsz;
        let ghost np = num_blocks(n_save as nat, bsz) as int;
        let ghost expect = col_blocks(window_of::<T, At>(a0), window_of::<T, Bt>(b0), window_of::<T, Ct>(c0), bsz);
        proof {
            c.lemma_shape();
            b.lemma_shape();
        }
        self.calls = Ghost(Seq::empty());
        let mut i: usize = 0;
        while i < n_save
            invariant
                0 <= i <= n_save,
                b0.cols() <= usize::MAX,
                c0.cols() <= usize::MAX,
                n_save == c0.view_width(),
                bx_off_save == b0.view_off_x(),
                cx_off_save == c0.view_off_x(),
                m == c0.view_height(),
                kk == a0.view_width(),
                gemm_pre::<T, At, Bt, Ct>(a0, b0, c0),
                self.inv(),
                self.bsz == bsz,
                s0.runs_on(m as nat, n_save as nat, kk),
                s0.block_size() == bsz,
                forall|mm: nat, nn: nat, k2: nat| #[trigger] self.child.runs_on(mm, nn, k2) == s0.child().runs_on(mm, nn, k2),
                np == num_blocks(n_save as nat, bsz),
                expect == col_blocks(window_of::<T, At>(a0), window_of::<T, Bt>(b0), window_of::<T, Ct>(c0), bsz),
                self.calls@.len() <= np,
                i == (if self.calls@.len() == np { n_save as int } else { self.calls@.len() * bsz }),
                forall|q: int| 0 <= q < self.calls@.len() ==> #[trigger] self.calls@[q] == expect[q],
                a.wf(),
                same_mat::<T, At>(a0, *a),
                b.wf(),
                b.grid() == b0.grid(),
                b.cols() == b0.cols(),
                b.view_off_y() == b0.view_off_y(),
                b.view_height() == b0.view_height(),
                c.wf(),
                c.cols() == c0.cols(),
                a.layout() == a0.layout(),
                b.layout() == b0.layout(),
                c.layout() == c0.layout(),
                c.grid().len() == c0.grid().len(),
                is_rect(c.grid(), c.cols()),
                c.view_off_y() == c0.view_off_y(),
                c.view_height() == c0.view_height(),
                forall|yy: int, xx: int|
                    0 <= yy < m && 0 <= xx < n_save ==> #[trigger] c.grid()[c0.view_off_y() + yy][cx_off_save + xx]
                        == (if xx < i {
                        gemm_entry::<T, At, Bt, Ct>(a0, b0, c0, yy, xx, kk)
                    } else {
                        view_at::<T, Ct>(c0, yy, xx)
                    }),
                forall|p: int, q: int|
                    0 <= p < c.grid().len() && 0 <= q < c.cols() && !in_window::<T, Ct>(c0, p, q)
                        ==> #[trigger] c.grid()[p][q] == c0.grid()[p][q],
            decreases n_save - i,
        {
            let ghost j = self.calls@.len() as int;
            proof {
                lemma_panel_start(j, n_save as int, bsz as int);
            }
            b.adjust_x_view(n_save, bx_off_save, self.bsz, i);
            c.adjust_x_view(n_save, cx_off_save, self.bsz, i);
            let ghost ci = *c;
            let ghost bi = *b;
            let ghost h = c.view_width();
            proof {
                assert(self.child.runs_on(m as nat, block_len(n_save as nat, bsz, j), kk));
                assert(window_of::<T, Bt>(bi) == expect[j].b);
                assert(window_of::<T, Ct>(ci) == expect[j].c);
            }
            self.calls = Ghost(self.calls@.push(ChildCall { a: window_of::<T, At>(*a), b: window_of::<T, Bt>(*b), c: window_of::<T, Ct>(*c) }));
            self.child.run(a, b, c, thr);
            proof {
                assert forall|yy: int, xx: int|
                    0 <= yy < m && 0 <= xx < n_save implies #[trigger] c.grid()[c0.view_off_y() + yy][cx_off_save + xx]
                        == (if xx < i + h {
                        gemm_entry::<T, At, Bt, Ct>(a0, b0, c0, yy, xx, kk)
                    } else {
                        view_at::<T, Ct>(c0, yy, xx)
                    }) by {
                    if i <= xx < i + h {
                        assert(view_at::<T, Ct>(*c, yy, xx - i) == gemm_entry::<T, At, Bt, Ct>(a0, bi, ci, yy, xx - i, kk));
                        assert(view_at::<T, Ct>(ci, yy, xx - i) == ci.grid()[c0.view_off_y() + yy][cx_off_save + xx]);
                    } else {
                        assert(!in_window::<T, Ct>(*c, c0.view_off_y() + yy, cx_off_save + xx));
                    }
                }
                assert forall|p: int, q: int|
                    0 <= p < c.grid().len() && 0 <= q < c.cols() && !in_window::<T, Ct>(c0, p, q)
                        implies #[trigger] c.grid()[p][q] == c0.grid()[p][q] by {
                    assert(!in_window::<T, Ct>(*c, p, q));
                    assert(c.grid()[p][q] == ci.grid()[p][q]);
                }
                lemma_panel_next(j, n_save as int, bsz as int);
            }
            i = if n_save - i <= self.bsz {
                n_save
            } else {
                i + self.bsz
            };
        }
        proof {
            if self.calls@.len() < np {
                lemma_panel_start(self.calls@.len() as int, n_save as int, bsz as int);
            }
            assert(self.calls@ =~= expect);
        }
        b.set_iter_width(n_save);
        b.set_off_x(bx_off_save);
        c.set_iter_width(n_save);
        c.set_off_x(cx_off_save);
        proof {
            assert forall|yy: int, xx: int|
                0 <= yy < c.view_height() && 0 <= xx < c.view_width() implies #[trigger] view_at::<T, Ct>(*c, yy, xx)
                    == gemm_entry::<T, At, Bt, Ct>(a0, b0, c0, yy, xx, kk) by {
                assert(c.grid()[c0.view_off_y() + yy][cx_off_save + xx] == gemm_entry::<T, At, Bt, Ct>(a0, b0, c0, yy, xx, kk));
            }
        }
        proof {
            assert forall|mm: nat, nn: nat, k2: nat| #[trigger] self.runs_on(mm, nn, k2) == s0.runs_on(mm, nn, k2) by {
                assert forall|j: int| 0 <= j < num_blocks(nn, bsz) implies self.child().runs_on(mm, block_len(nn, bsz, j), k2) == s0.child().runs_on(mm, block_len(nn, bsz, j), k2) by {}
            }
        }
    }

    fn shadow(&self) -> (r: Self)
        ensures
            r.block_size() == self.block_size(),
            r.child().is_shadow_of(self.child()),
            r.last_calls() == Seq::<ChildCall>::empty(),
    {
        let ghost bsz = self.bsz;
        let r = PartN {
            bsz: self.bsz,
            child: self.child.shadow(),
            calls: Ghost(Seq::empty()),
            _t: PhantomData,
            _at: PhantomData,
            _bt: PhantomData,
            _ct: PhantomData,
        };
        proof {
            assert forall|mm: nat, nn: nat, k2: nat| #[trigger] r.runs_on(mm, nn, k2) == self.runs_on(mm, nn, k2) by {
                assert forall|j: int| 0 <= j < num_blocks(nn, bsz) implies r.child().runs_on(mm, block_len(nn, bsz, j), k2) == self.child().runs_on(mm, block_len(nn, bsz, j), k2) by {}
            }
        }
        r
    }
}

/// Splits the inner dimension (the columns of A and the rows of B) into
/// blocks of `bsz` and runs the child on each block in order, each one
/// adding its part of the product to C.
pub struct PartK<T: Scalar, At: Mat<T>, Bt: Mat<T>, Ct: Mat<T>, S: GemmNode<T, At, Bt, Ct>> {
    bsz: usize,
    child: S,
    calls: Ghost<Seq<ChildCall>>,
    _t: PhantomData<T>,
    _at: PhantomData<At>,
    _bt: PhantomData<Bt>,
    _ct: PhantomData<Ct>,
}

impl<T: Scalar, At: Mat<T>, Bt: Mat<T>, Ct: Mat<T>, S: GemmNode<T, At, Bt, Ct>> PartK<T, At, Bt, Ct, S> {
    pub closed spec fn block_size(&self) -> usize {
        self.bsz
    }

    pub closed spec fn child(&self) -> S {
        self.child
    }

    /// The views the child was run on in the last run of this node, in
    /// order (none before the first run).
    pub closed spec fn last_calls(&self) -> Seq<ChildCall> {
        self.calls@
    }

    pub fn new(bsz: usize, child: S) -> (p: PartK<T, At, Bt, Ct, S>)
        ensures
            p.block_size() == bsz,
            p.child() == child,
            p.last_calls() == Seq::<ChildCall>::empty(),
            p.inv() <==> child.inv(),
    {
        PartK { bsz: bsz, child: child, calls: Ghost(Seq::empty()), _t: PhantomData, _at: PhantomData, _bt: PhantomData, _ct: PhantomData }
    }
}

impl<T: Scalar, At: Mat<T>, Bt: Mat<T>, Ct: Mat<T>, S: GemmNode<T, At, Bt, Ct>> GemmNode<T, At, Bt, Ct> for PartK<T, At, Bt, Ct, S> {
    open spec fn inv(&self) -> bool {
        self.child().inv()
    }

    /// A block size of zero never gets past the first block of a non-empty
    /// inner dimension; every block is run by the child.
    open spec fn runs_on(&self, m: nat, n: nat, k: nat) -> bool {
        k == 0 || (self.block_size() > 0 && forall|j: int|
            0 <= j < num_blocks(k, self.block_size()) ==> #[trigger] self.child().runs_on(
                m,
                n,
                block_len(k, self.block_size(), j),
            ))
    }

    closed spec fn is_shadow_of(&self, src: Self) -> bool {
        self.bsz == src.bsz && self.child.is_shadow_of(src.child)
    }

    fn run(&mut self, a: &mut At, b: &mut Bt, c: &mut Ct, thr: &ThreadInfo)
        ensures
            final(self).block_size() == old(self).block_size(),
            final(self).last_calls() == inner_blocks(
                window_of::<T, At>(*old(a)),
                window_of::<T, Bt>(*old(b)),
                window_of::<T, Ct>(*old(c)),
                old(self).block_size(),
            ),
    {
        let ghost a0 = *a;
        let ghost b0 = *b;
        let ghost c0 = *c;
        let ghost s0 = *self;
        let k_save = a.iter_width();
        let ax_off_save = a.off_x();
        let by_off_save = b.off_y();
        let ghost bsz = self.bsz;
        let ghost np = num_blocks(k_save as nat, bsz) as int;
        let ghost expect = inner_blocks(window_of::<T, At>(a0), window_of::<T, Bt>(b0), window_of::<T, Ct>(c0), bsz);
        proof {
            a.lemma_shape();
            b.lemma_shape();
            c.lemma_shape();
        }
        self.calls = Ghost(Seq::empty());
        let mut i: usize = 0;
        while i < k_save
            invariant
                0 <= i <= k_save,
                a0.cols() <= usize::MAX,
                b0.grid().len() <= usize::MAX,
                k_save == a0.view_width(),
                ax_off_save == a0.view_off_x(),
                by_off_save == b0.view_off_y(),
                gemm_pre::<T, At, Bt, Ct>(a0, b0, c0),
                self.inv(),
                self.bsz == bsz,
                s0.runs_on(c0.view_height() as nat, c0.view_width() as nat, k_save as nat),
                s0.block_size() == bsz,
                forall|mm: nat, nn: nat, k2: nat| #[trigger] self.child.runs_on(mm, nn, k2) == s0.child().runs_on(mm, nn, k2),
                np == num_blocks(k_save as nat, bsz),
                expect == inner_blocks(window_of::<T, At>(a0), window_of::<T, Bt>(b0), window_of::<T, Ct>(c0), bsz),
                self.calls@.len() <= np,
                i == (if self.calls@.len() == np { k_save as int } else { self.calls@.len() * bsz }),
                forall|q: int| 0 <= q < self.calls@.len() ==> #[trigger] self.calls@[q] == expect[q],
                a.wf(),
                a.grid() == a0.grid(),
                a.cols() == a0.cols(),
                a.view_off_y() == a0.view_off_y(),
                a.view_height() == a0.view_height(),
                b.wf(),
                b.grid() == b0.grid(),
                b.cols() == b0.cols(),
                b.view_off_x() == b0.view_off_x(),
                b.view_width() == b0.view_width(),
                c.wf(),
                same_view::<T, Ct>(c0, *c),
                c.cols() == c0.cols(),
                a.layout() == a0.layout(),
                b.layout() == b0.layout(),
                c.layout() == c0.layout(),
                c.grid().len() == c0.grid().len(),
                is_rect(c.grid(), c.cols()),
                forall|yy: int, xx: int|
                    0 <= yy < c0.view_height() && 0 <= xx < c0.view_width() ==> #[trigger] view_at::<T, Ct>(*c, yy, xx)
                        == gemm_entry::<T, At, Bt, Ct>(a0, b0, c0, yy, xx, i as nat),
                forall|p: int, q: int|
                    0 <= p < c.grid().len() && 0 <= q < c.cols() && !in_window::<T, Ct>(c0, p, q)
                        ==> #[trigger] c.grid()[p][q] == c0.grid()[p][q],
            decreases k_save - i,
        {
            let ghost j = self.calls@.len() as int;
            proof {
                lemma_panel_start(j, k_save as int, bsz as int);
            }
            a.adjust_x_view(k_save, ax_off_save, self.bsz, i);
            b.adjust_y_view(k_save, by_off_save, self.bsz, i);
            let ghost ci = *c;
            let ghost ai = *a;
            let ghost bi = *b;
            let ghost h = a.view_width();
            proof {
                assert(self.child.runs_on(c0.view_height() as nat, c0.view_width() as nat, block_len(k_save as nat, bsz, j)));
                assert(window_of::<T, At>(ai) == expect[j].a);
                assert(window_of::<T, Bt>(bi) == expect[j].b);
                assert(window_of::<T, Ct>(ci) == expect[j].c);
            }
            self.calls = Ghost(self.calls@.push(ChildCall { a: window_of::<T, At>(*a), b: window_of::<T, Bt>(*b), c: window_of::<T, Ct>(*c) }));
            self.child.run(a, b, c, thr);
            proof {
                lemma_panel_next(j, k_save as int, bsz as int);
                assert forall|yy: int, xx: int|
                    0 <= yy < c0.view_height() && 0 <= xx < c0.view_width() implies #[trigger] view_at::<T, Ct>(*c, yy, xx)
                        == gemm_entry::<T, At, Bt, Ct>(a0, b0, c0, yy, xx, (i + h) as nat) by {
                    assert(view_at::<T, Ct>(*c, yy, xx) == gemm_entry::<T, At, Bt, Ct>(ai, bi, ci, yy, xx, h as nat));
                    assert(view_at::<T, Ct>(ci, yy, xx) == gemm_entry::<T, At, Bt, Ct>(a0, b0, c0, yy, xx, i as nat));
                    lemma_dot_split(
                        view_at::<T, Ct>(c0, yy, xx),
                        a0.grid(),
                        a0.view_off_y() + yy,
                        a0.view_off_x() as int,
                        b0.grid(),
                        b0.view_off_y() as int,
                        b0.view_off_x() + xx,
                        i as nat,
                        h as nat,
                    );
                }
                assert forall|p: int, q: int|
                    0 <= p < c.grid().len() && 0 <= q < c.cols() && !in_window::<T, Ct>(c0, p, q)
                        implies #[trigger] c.grid()[p][q] == c0.grid()[p][q] by {
                    assert(!in_window::<T, Ct>(*c, p, q));
                    assert(c.grid()[p][q] == ci.grid()[p][q]);
                }
            }
            i = if k_save - i <= self.bsz {
                k_save
            } else {
                i + self.bsz
            };
        }
        proof {
            if self.calls@.len() < np {
                lemma_panel_start(self.calls@.len() as int, k_save as int, bsz as int);
            }
            assert(self.calls@ =~= expect);
        }
        a.set_iter_width(k_save);
        a.set_off_x(ax_off_save);
        b.set_iter_height(k_save);
        b.set_off_y(by_off_save);
        proof {
            assert forall|mm: nat, nn: nat, k2: nat| #[trigger] self.runs_on(mm, nn, k2) == s0.runs_on(mm, nn, k2) by {
                assert forall|j: int| 0 <= j < num_blocks(k2, bsz) implies self.child().runs_on(mm, nn, block_len(k2, bsz, j)) == s0.child().runs_on(mm, nn, block_len(k2, bsz, j)) by {}
            }
        }
    }

    fn shadow(&self) -> (r: Self)
        ensures
            r.block_size() == self.block_size(),
            r.child().is_shadow_of(self.child()),
            r.last_calls() == Seq::<ChildCall>::empty(),
    {
        let ghost bsz = self.bsz;
        let r = PartK { bsz: self.bsz, child: self.child.shadow(), calls: Ghost(Seq::empty()), _t: PhantomData, _at: PhantomData, _bt: PhantomData, _ct: PhantomData };
        proof {
            assert forall|mm: nat, nn: nat, k2: nat| #[trigger] r.runs_on(mm, nn, k2) == self.runs_on(mm, nn, k2) by {
                assert forall|j: int| 0 <= j < num_blocks(k2, bsz) implies r.child().runs_on(mm, nn, block_len(k2, bsz, j)) == self.child().runs_on(mm, nn, block_len(k2, bsz, j)) by {}
            }
        }
        r
    }
}

/// The leaf of the tree: the plain triple loop.
pub struct TripleLoopKernel {}

impl TripleLoopKernel {
    pub fn new() -> (k: TripleLoopKernel) {
        TripleLoopKernel {  }
    }
}

impl<T: Scalar, At: Mat<T>, Bt: Mat<T>, Ct: Mat<T>> GemmNode<T, At, Bt, Ct> for TripleLoopKernel {
    open spec fn inv(&self) -> bool {
        true
    }

    open spec fn runs_on(&self, m: nat, n: nat, k: nat) -> bool {
        true
    }

    open spec fn is_shadow_of(&self, src: Self) -> bool {
        true
    }

    fn run(&mut self, a: &mut At, b: &mut Bt, c: &mut Ct, _thr: &ThreadInfo) {
        let ghost c0 = *c;
        let n = c.width();
        let k = a.width();
        let m = c.height();
        proof {
            c.lemma_shape();
        }
        let mut x: usize = 0;
        while x < n
            invariant
                0 <= x <= n,
                gemm_pre::<T, At, Bt, Ct>(*a, *b, *c),
                gemm_pre::<T, At, Bt, Ct>(*a, *b, c0),
                n == c.view_width(),
                k == a.view_width(),
                m == c.view_height(),
                same_view::<T, Ct>(c0, *c),
                c.cols() == c0.cols(),
                c.layout() == c0.layout(),
                c.grid().len() == c0.grid().len(),
                is_rect(c.grid(), c.cols()),
                forall|yy: int, xx: int|
                    0 <= yy < m && 0 <= xx < n ==> #[trigger] view_at::<T, Ct>(*c, yy, xx) == (if xx
                        < x {
                        gemm_entry::<T, At, Bt, Ct>(*a, *b, c0, yy, xx, k as nat)
                    } else {
                        view_at::<T, Ct>(c0, yy, xx)
                    }),
                forall|i: int, j: int|
                    0 <= i < c.grid().len() && 0 <= j < c.cols() && !in_window::<T, Ct>(*c, i, j)
                        ==> #[trigger] c.grid()[i][j] == c0.grid()[i][j],
            decreases n - x,
        {
            let mut z: usize = 0;
            while z < k
                invariant
                    0 <= x < n,
                    0 <= z <= k,
                    gemm_pre::<T, At, Bt, Ct>(*a, *b, *c),
                    gemm_pre::<T, At, Bt, Ct>(*a, *b, c0),
                    n == c.view_width(),
                    k == a.view_width(),
                    m == c.view_height(),
                    same_view::<T, Ct>(c0, *c),
                    c.cols() == c0.cols(),
                    c.layout() == c0.layout(),
                    c.grid().len() == c0.grid().len(),
                    is_rect(c.grid(), c.cols()),
                    forall|yy: int, xx: int|
                        0 <= yy < m && 0 <= xx < n ==> #[trigger] view_at::<T, Ct>(*c, yy, xx) == (
                        if xx < x {
                            gemm_entry::<T, At, Bt, Ct>(*a, *b, c0, yy, xx, k as nat)
                        } else if xx == x {
                            gemm_entry::<T, At, Bt, Ct>(*a, *b, c0, yy, xx, z as nat)
                        } else {
                            view_at::<T, Ct>(c0, yy, xx)
                        }),
                    forall|i: int, j: int|
                        0 <= i < c.grid().len() && 0 <= j < c.cols() && !in_window::<T, Ct>(
                            *c,
                            i,
                            j,
                        ) ==> #[trigger] c.grid()[i][j] == c0.grid()[i][j],
                decreases k - z,
            {
                let mut y: usize = 0;
                while y < m
                    invariant
                        0 <= x < n,
                        0 <= z < k,
                        0 <= y <= m,
                        gemm_pre::<T, At, Bt, Ct>(*a, *b, *c),
                        gemm_pre::<T, At, Bt, Ct>(*a, *b, c0),
                        n == c.view_width(),
                        k == a.view_width(),
                        m == c.view_height(),
                        same_view::<T, Ct>(c0, *c),
                        c.cols() == c0.cols(),
                        c.layout() == c0.layout(),
                        c.grid().len() == c0.grid().len(),
                        is_rect(c.grid(), c.cols()),
                        forall|yy: int, xx: int|
                            0 <= yy < m && 0 <= xx < n ==> #[trigger] view_at::<T, Ct>(*c, yy, xx)
                                == (if xx < x {
                                gemm_entry::<T, At, Bt, Ct>(*a, *b, c0, yy, xx, k as nat)
                            } else if xx == x && yy < y {
                                gemm_entry::<T, At, Bt, Ct>(*a, *b, c0, yy, xx, (z + 1) as nat)
                            } else if xx == x {
                                gemm_entry::<T, At, Bt, Ct>(*a, *b, c0, yy, xx, z as nat)
                            } else {
                                view_at::<T, Ct>(c0, yy, xx)
                            }),
                        forall|i: int, j: int|
                            0 <= i < c.grid().len() && 0 <= j < c.cols() && !in_window::<T, Ct>(
                                *c,
                                i,
                                j,
                            ) ==> #[trigger] c.grid()[i][j] == c0.grid()[i][j],
                    decreases m - y,
                {
                    let av = a.get(y, z);
                    let bv = b.get(z, x);
                    let cv = c.get(y, x);
                    let t = T::mul_add(av, bv, cv);
                    let ghost cb = *c;
                    assert(cv == view_at::<T, Ct>(cb, y as int, x as int));
                    c.set(y, x, t);
                    proof {
                        assert forall|yy: int, xx: int| 0 <= yy < m && 0 <= xx < n implies
                            #[trigger] view_at::<T, Ct>(*c, yy, xx) == (if xx < x {
                                gemm_entry::<T, At, Bt, Ct>(*a, *b, c0, yy, xx, k as nat)
                            } else if xx == x && yy < y + 1 {
                                gemm_entry::<T, At, Bt, Ct>(*a, *b, c0, yy, xx, (z + 1) as nat)
                            } else if xx == x {
                                gemm_entry::<T, At, Bt, Ct>(*a, *b, c0, yy, xx, z as nat)
                            } else {
                                view_at::<T, Ct>(c0, yy, xx)
                            }) by {
                            if xx == x && yy == y {
                                assert(view_at::<T, Ct>(*c, yy, xx) == t);
                                assert(cv == gemm_entry::<T, At, Bt, Ct>(*a, *b, c0, yy, xx, z as nat));
                                assert(gemm_entry::<T, At, Bt, Ct>(*a, *b, c0, yy, xx, (z + 1) as nat)
                                    == T::spec_mul_add(av, bv, cv));
                            } else {
                                assert(view_at::<T, Ct>(*c, yy, xx) == view_at::<T, Ct>(cb, yy, xx));
                            }
                        }
                    }
                    y = y + 1;
                }
                z = z + 1;
            }
            x = x + 1;
        }
    }

    fn shadow(&self) -> (r: Self) {
        TripleLoopKernel {  }
    }
}

} // verus!
