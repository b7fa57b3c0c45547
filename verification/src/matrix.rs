use vstd::prelude::*;
use crate::layout::{row_major, lemma_row_major_lt, lemma_row_major_inj};

verus! {

/// An element type of the matrices that the multiplication nodes work on.
///
/// The only arithmetic the nodes perform is the fused step `a * b + c` of the
/// inner kernel, so that is the one operation a scalar has to provide. The
/// addition it is built on is there to state what the steps add up to.
pub trait Scalar: Copy + Sized {
    /// The value of `a * b + c` in this scalar type.
    spec fn spec_mul_add(a: Self, b: Self, c: Self) -> Self;

    /// The value of `a + b` in this scalar type.
    spec fn spec_add(a: Self, b: Self) -> Self;

    /// The additive identity, used to fill freshly allocated buffers.
    spec fn spec_zero() -> Self;

    /// Zero is the additive identity and annihilates products:
    /// `0 * b + c == c`.
    proof fn lemma_zero_mul_add(b: Self, c: Self)
        ensures
            Self::spec_mul_add(Self::spec_zero(), b, c) == c,
    ;

    /// `c + 0 == c`.
    proof fn lemma_add_zero(c: Self)
        ensures
            Self::spec_add(c, Self::spec_zero()) == c,
    ;

    /// The step adds its product to whatever it is given:
    /// `a * b + (x + y) == x + (a * b + y)`.
    proof fn lemma_mul_add_shift(a: Self, b: Self, x: Self, y: Self)
        ensures
            Self::spec_mul_add(a, b, Self::spec_add(x, y)) == Self::spec_add(x, Self::spec_mul_add(a, b, y)),
    ;

    /// Addition is associative.
    proof fn lemma_add_assoc(x: Self, y: Self, z: Self)
        ensures
            Self::spec_add(Self::spec_add(x, y), z) == Self::spec_add(x, Self::spec_add(y, z)),
    ;

    fn mul_add(a: Self, b: Self, c: Self) -> (r: Self)
        ensures
            r == Self::spec_mul_add(a, b, c),
    ;

    fn zero() -> (r: Self)
        ensures
            r == Self::spec_zero(),
    ;
}

impl Scalar for u64 {
    open spec fn spec_mul_add(a: u64, b: u64, c: u64) -> u64 {
        a.wrapping_mul(b).wrapping_add(c)
    }

    open spec fn spec_add(a: u64, b: u64) -> u64 {
        a.wrapping_add(b)
    }

    open spec fn spec_zero() -> u64 {
        0
    }

    proof fn lemma_add_zero(c: u64) {
    }

    proof fn lemma_mul_add_shift(a: u64, b: u64, x: u64, y: u64) {
    }

    proof fn lemma_add_assoc(x: u64, y: u64, z: u64) {
    }

    proof fn lemma_zero_mul_add(b: u64, c: u64) {
    }

    fn mul_add(a: u64, b: u64, c: u64) -> (r: u64) {
        a.wrapping_mul(b).wrapping_add(c)
    }

    fn zero() -> (r: u64) {
        0
    }
}

impl Scalar for i64 {
    open spec fn spec_mul_add(a: i64, b: i64, c: i64) -> i64 {
        a.wrapping_mul(b).wrapping_add(c)
    }

    open spec fn spec_add(a: i64, b: i64) -> i64 {
        a.wrapping_add(b)
    }

    open spec fn spec_zero() -> i64 {
        0
    }

    proof fn lemma_add_zero(c: i64) {
    }

    proof fn lemma_mul_add_shift(a: i64, b: i64, x: i64, y: i64) {
    }

    proof fn lemma_add_assoc(x: i64, y: i64, z: i64) {
    }

    proof fn lemma_zero_mul_add(b: i64, c: i64) {
        assert(0i64.wrapping_mul(b) == 0) by {
            assert((0 * b) % 0x1_0000_0000_0000_0000 == 0);
        }
    }

    fn mul_add(a: i64, b: i64, c: i64) -> (r: i64) {
        a.wrapping_mul(b).wrapping_add(c)
    }

    fn zero() -> (r: i64) {
        0
    }
}

/// Every row of `g` has `cols` entries.
pub open spec fn is_rect<T>(g: Seq<Seq<T>>, cols: nat) -> bool {
    forall|i: int| 0 <= i < g.len() ==> #[trigger] g[i].len() == cols
}

/// A matrix seen through a view window.
///
/// The model of a matrix is its whole storage, `grid()`, a rectangle of
/// `grid().len()` rows and `cols()` columns, and a window into it that starts
/// at row `view_off_y()` and column `view_off_x()` and spans `view_height()`
/// rows and `view_width()` columns. Element accessors index relative to the
/// window. The window parameters are plain numbers that can be set freely;
/// only element access needs the window to lie inside the storage.
pub trait Mat<T: Scalar>: Sized {
    spec fn wf(&self) -> bool;

    spec fn grid(&self) -> Seq<Seq<T>>;

    spec fn cols(&self) -> nat;

    spec fn view_off_y(&self) -> usize;

    spec fn view_off_x(&self) -> usize;

    spec fn view_height(&self) -> usize;

    spec fn view_width(&self) -> usize;

    /// How the storage is laid out, where a kind of matrix has a choice
    /// (the panel size of a panel matrix); neither the contents nor the
    /// view depend on it, and only reallocation changes it.
    spec fn layout(&self) -> nat;

    /// The storage is a rectangle that fits in memory.
    proof fn lemma_shape(&self)
        requires
            self.wf(),
        ensures
            is_rect(self.grid(), self.cols()),
            self.grid().len() <= usize::MAX,
            self.cols() <= usize::MAX,
            self.grid().len() * self.cols() <= usize::MAX,
    ;

    fn iter_height(&self) -> (r: usize)
        requires
            self.wf(),
        ensures
            r == self.view_height(),
    ;

    fn iter_width(&self) -> (r: usize)
        requires
            self.wf(),
        ensures
            r == self.view_width(),
    ;

    fn height(&self) -> (r: usize)
        requires
            self.wf(),
        ensures
            r == self.view_height(),
    ;

    fn width(&self) -> (r: usize)
        requires
            self.wf(),
        ensures
            r == self.view_width(),
    ;

    fn off_y(&self) -> (r: usize)
        requires
            self.wf(),
        ensures
            r == self.view_off_y(),
    ;

    fn off_x(&self) -> (r: usize)
        requires
            self.wf(),
        ensures
            r == self.view_off_x(),
    ;

    fn set_iter_height(&mut self, h: usize)
        requires
            old(self).wf(),
        ensures
            final(self).wf(),
            final(self).layout() == old(self).layout(),
            final(self).grid() == old(self).grid(),
            final(self).cols() == old(self).cols(),
            final(self).view_height() == h,
            final(self).view_width() == old(self).view_width(),
            final(self).view_off_y() == old(self).view_off_y(),
            final(self).view_off_x() == old(self).view_off_x(),
    ;

    fn set_iter_width(&mut self, w: usize)
        requires
            old(self).wf(),
        ensures
            final(self).wf(),
            final(self).layout() == old(self).layout(),
            final(self).grid() == old(self).grid(),
            final(self).cols() == old(self).cols(),
            final(self).view_height() == old(self).view_height(),
            final(self).view_width() == w,
            final(self).view_off_y() == old(self).view_off_y(),
            final(self).view_off_x() == old(self).view_off_x(),
    ;

    fn set_off_y(&mut self, off: usize)
        requires
            old(self).wf(),
        ensures
            final(self).wf(),
            final(self).layout() == old(self).layout(),
            final(self).grid() == old(self).grid(),
            final(self).cols() == old(self).cols(),
            final(self).view_height() == old(self).view_height(),
            final(self).view_width() == old(self).view_width(),
            final(self).view_off_y() == off,
            final(self).view_off_x() == old(self).view_off_x(),
    ;

    fn set_off_x(&mut self, off: usize)
        requires
            old(self).wf(),
        ensures
            final(self).wf(),
            final(self).layout() == old(self).layout(),
            final(self).grid() == old(self).grid(),
            final(self).cols() == old(self).cols(),
            final(self).view_height() == old(self).view_height(),
            final(self).view_width() == old(self).view_width(),
            final(self).view_off_y() == old(self).view_off_y(),
            final(self).view_off_x() == off,
    ;

    /// Narrows the rows of the view to block `start .. start + blksz` of a
    /// parent view of `parent_height` rows starting at row `parent_off`; the
    /// last block is cut short at the parent's end.
    fn adjust_y_view(&mut self, parent_height: usize, parent_off: usize, blksz: usize, start: usize)
        requires
            old(self).wf(),
            start <= parent_height,
            parent_off + start <= usize::MAX,
        ensures
            final(self).wf(),
            final(self).layout() == old(self).layout(),
            final(self).grid() == old(self).grid(),
            final(self).cols() == old(self).cols(),
            final(self).view_off_y() == parent_off + start,
            final(self).view_height() == min_usize(blksz, (parent_height - start) as usize),
            final(self).view_width() == old(self).view_width(),
            final(self).view_off_x() == old(self).view_off_x(),
    ;

    /// Narrows the columns of the view, as `adjust_y_view` does the rows.
    fn adjust_x_view(&mut self, parent_width: usize, parent_off: usize, blksz: usize, start: usize)
        requires
            old(self).wf(),
            start <= parent_width,
            parent_off + start <= usize::MAX,
        ensures
            final(self).wf(),
            final(self).layout() == old(self).layout(),
            final(self).grid() == old(self).grid(),
            final(self).cols() == old(self).cols(),
            final(self).view_off_x() == parent_off + start,
            final(self).view_width() == min_usize(blksz, (parent_width - start) as usize),
            final(self).view_height() == old(self).view_height(),
            final(self).view_off_y() == old(self).view_off_y(),
    ;

    /// The element in row `y` and column `x` of the view.
    fn get(&self, y: usize, x: usize) -> (r: T)
        requires
            self.wf(),
            self.view_off_y() + self.view_height() <= self.grid().len(),
            self.view_off_x() + self.view_width() <= self.cols(),
            y < self.view_height(),
            x < self.view_width(),
        ensures
            r == self.grid()[self.view_off_y() + y][self.view_off_x() + x],
    ;

    /// Writes the element in row `y` and column `x` of the view.
    fn set(&mut self, y: usize, x: usize, v: T)
        requires
            old(self).wf(),
            old(self).view_off_y() + old(self).view_height() <= old(self).grid().len(),
            old(self).view_off_x() + old(self).view_width() <= old(self).cols(),
            y < old(self).view_height(),
            x < old(self).view_width(),
        ensures
            final(self).wf(),
            final(self).layout() == old(self).layout(),
            final(self).grid() == old(self).grid().update(
                old(self).view_off_y() + y,
                old(self).grid()[old(self).view_off_y() + y].update(old(self).view_off_x() + x, v),
            ),
            final(self).cols() == old(self).cols(),
            final(self).view_off_y() == old(self).view_off_y(),
            final(self).view_off_x() == old(self).view_off_x(),
            final(self).view_height() == old(self).view_height(),
            final(self).view_width() == old(self).view_width(),
    ;
}

pub open spec fn min_usize(a: usize, b: usize) -> usize {
    if a <= b {
        a
    } else {
        b
    }
}

/// The view window lies inside the storage.
pub open spec fn view_in_bounds<T: Scalar, M: Mat<T>>(m: M) -> bool {
    &&& m.view_off_y() + m.view_height() <= m.grid().len()
    &&& m.view_off_x() + m.view_width() <= m.cols()
}

/// Both matrices have the same view window.
pub open spec fn same_view<T: Scalar, M: Mat<T>>(m1: M, m2: M) -> bool {
    &&& m1.view_off_y() == m2.view_off_y()
    &&& m1.view_off_x() == m2.view_off_x()
    &&& m1.view_height() == m2.view_height()
    &&& m1.view_width() == m2.view_width()
}

/// Both matrices hold the same storage, laid out alike, and the same view
/// window.
pub open spec fn same_mat<T: Scalar, M: Mat<T>>(m1: M, m2: M) -> bool {
    &&& m1.grid() == m2.grid()
    &&& m1.layout() == m2.layout()
    &&& m1.cols() == m2.cols()
    &&& same_view::<T, M>(m1, m2)
}

/// The `(i, j)` storage position lies in the view window of `m`.
pub open spec fn in_window<T: Scalar, M: Mat<T>>(m: M, i: int, j: int) -> bool {
    &&& m.view_off_y() <= i < m.view_off_y() + m.view_height()
    &&& m.view_off_x() <= j < m.view_off_x() + m.view_width()
}

/// The element in row `y` and column `x` of the view.
pub open spec fn view_at<T: Scalar, M: Mat<T>>(m: M, y: int, x: int) -> T {
    m.grid()[m.view_off_y() + y][m.view_off_x() + x]
}

} // verus!

verus! {

/// The rectangle of `r` rows of `c` entries that a row-major buffer holds.
pub open spec fn row_major_grid<T>(data: Seq<T>, r: nat, c: nat) -> Seq<Seq<T>> {
    Seq::new(r, |i: int| Seq::new(c, |j: int| data[row_major(i, j, c as int)]))
}

/// What `set` leaves is read back by `get`: after writing `v` at `(y, x)`
/// of the view, the view holds `v` there and every other entry of the view
/// as before.
pub proof fn lemma_set_then_get<T: Scalar, M: Mat<T>>(m0: M, m1: M, y: int, x: int, v: T)
    requires
        m0.wf(),
        view_in_bounds::<T, M>(m0),
        0 <= y < m0.view_height(),
        0 <= x < m0.view_width(),
        same_view::<T, M>(m0, m1),
        m1.grid() == m0.grid().update(
            m0.view_off_y() + y,
            m0.grid()[m0.view_off_y() + y].update(m0.view_off_x() + x, v),
        ),
    ensures
        view_at::<T, M>(m1, y, x) == v,
        forall|yy: int, xx: int|
            0 <= yy < m0.view_height() && 0 <= xx < m0.view_width() && (yy != y || xx != x)
                ==> #[trigger] view_at::<T, M>(m1, yy, xx) == view_at::<T, M>(m0, yy, xx),
{
    m0.lemma_shape();
}

/// A buffer of `n` zeros.
pub fn zero_vec<T: Scalar>(n: usize) -> (v: Vec<T>)
    ensures
        v@ == Seq::new(n as nat, |k: int| T::spec_zero()),
{
    let mut v: Vec<T> = Vec::new();
    while v.len() < n
        invariant
            v.len() <= n,
            forall|k: int| 0 <= k < v.len() ==> v@[k] == T::spec_zero(),
        decreases n - v.len(),
    {
        v.push(T::zero());
    }
    assert(v@ =~= Seq::new(n as nat, |k: int| T::spec_zero()));
    v
}

/// A dense matrix stored row by row.
pub struct Matrix<T> {
    rows: usize,
    cols: usize,
    data: Vec<T>,
    off_y: usize,
    off_x: usize,
    iter_h: usize,
    iter_w: usize,
}

impl<T: Scalar> Mat<T> for Matrix<T> {
    closed spec fn wf(&self) -> bool {
        self.data.len() == self.rows * self.cols
    }

    closed spec fn grid(&self) -> Seq<Seq<T>> {
        row_major_grid(self.data@, self.rows as nat, self.cols as nat)
    }

    closed spec fn cols(&self) -> nat {
        self.cols as nat
    }

    closed spec fn view_off_y(&self) -> usize {
        self.off_y
    }

    closed spec fn view_off_x(&self) -> usize {
        self.off_x
    }

    closed spec fn view_height(&self) -> usize {
        self.iter_h
    }

    closed spec fn view_width(&self) -> usize {
        self.iter_w
    }

    closed spec fn layout(&self) -> nat {
        0
    }

    proof fn lemma_shape(&self) {
    }

    fn iter_height(&self) -> (r: usize) {
        self.iter_h
    }

    fn iter_width(&self) -> (r: usize) {
        self.iter_w
    }

    fn height(&self) -> (r: usize) {
        self.iter_h
    }

    fn width(&self) -> (r: usize) {
        self.iter_w
    }

    fn off_y(&self) -> (r: usize) {
        self.off_y
    }

    fn off_x(&self) -> (r: usize) {
        self.off_x
    }

    fn set_iter_height(&mut self, h: usize) {
        self.iter_h = h;
    }

    fn set_iter_width(&mut self, w: usize) {
        self.iter_w = w;
    }

    fn set_off_y(&mut self, off: usize) {
        self.off_y = off;
    }

    fn set_off_x(&mut self, off: usize) {
        self.off_x = off;
    }

    fn adjust_y_view(&mut self, parent_height: usize, parent_off: usize, blksz: usize, start: usize) {
        self.off_y = parent_off + start;
        let rest = parent_height - start;
        self.iter_h = if blksz <= rest { blksz } else { rest };
    }

    fn adjust_x_view(&mut self, parent_width: usize, parent_off: usize, blksz: usize, start: usize) {
        self.off_x = parent_off + start;
        let rest = parent_width - start;
        self.iter_w = if blksz <= rest { blksz } else { rest };
    }

    fn get(&self, y: usize, x: usize) -> (r: T) {
        let i = self.off_y + y;
        let j = self.off_x + x;
        proof {
            lemma_row_major_lt(i as int, j as int, self.rows as int, self.cols as int);
        }
        self.data[i * self.cols + j]
    }

    fn set(&mut self, y: usize, x: usize, v: T) {
        let i = self.off_y + y;
        let j = self.off_x + x;
        proof {
            lemma_row_major_lt(i as int, j as int, self.rows as int, self.cols as int);
        }
        let ghost g0 = self.grid();
        self.data.set(i * self.cols + j, v);
        proof {
            let g1 = self.grid();
            let expect = g0.update(i as int, g0[i as int].update(j as int, v));
            assert forall|p: int, q: int| 0 <= p < self.rows && 0 <= q < self.cols implies
                #[trigger] g1[p][q] == expect[p][q] by {
                lemma_row_major_lt(p, q, self.rows as int, self.cols as int);
                if row_major(p, q, self.cols as int) == row_major(i as int, j as int, self.cols as int) {
                    lemma_row_major_inj(p, q, i as int, j as int, self.cols as int);
                }
            }
            assert(g1 =~~= expect);
        }
    }
}

impl<T: Scalar> Matrix<T> {
    /// A `h` by `w` matrix of zeros whose view is the whole matrix.
    pub fn new(h: usize, w: usize) -> (m: Matrix<T>)
        requires
            h * w <= usize::MAX,
        ensures
            m.wf(),
            m.grid() == Seq::new(h as nat, |i: int| Seq::new(w as nat, |j: int| T::spec_zero())),
            m.cols() == w,
            m.view_off_y() == 0,
            m.view_off_x() == 0,
            m.view_height() == h,
            m.view_width() == w,
    {
        let data = zero_vec(h * w);
        let m = Matrix { rows: h, cols: w, data, off_y: 0, off_x: 0, iter_h: h, iter_w: w };
        proof {
            assert forall|i: int, j: int| 0 <= i < h && 0 <= j < w implies
                #[trigger] m.grid()[i][j] == T::spec_zero() by {
                lemma_row_major_lt(i, j, h as int, w as int);
            }
            assert(m.grid() =~~= Seq::new(h as nat, |i: int| Seq::new(w as nat, |j: int| T::spec_zero())));
        }
        m
    }

    /// The `h` by `w` matrix whose rows are stored one after another in
    /// `data`, viewed whole; `None` when `data` does not hold `h * w` entries.
    pub fn from_vec(h: usize, w: usize, data: Vec<T>) -> (res: Option<Matrix<T>>)
        ensures
            res is Some <==> data.len() == h * w,
            res matches Some(m) ==> {
                &&& m.wf()
                &&& m.grid() == row_major_grid(data@, h as nat, w as nat)
                &&& m.cols() == w
                &&& m.view_off_y() == 0
                &&& m.view_off_x() == 0
                &&& m.view_height() == h
                &&& m.view_width() == w
            },
    {
        match h.checked_mul(w) {
            Some(n) => {
                if data.len() == n {
                    Some(Matrix { rows: h, cols: w, data, off_y: 0, off_x: 0, iter_h: h, iter_w: w })
                } else {
                    None
                }
            },
            None => {
                assert(data.len() != h * w);
                None
            },
        }
    }
}

} // verus!
