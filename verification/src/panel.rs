use vstd::prelude::*;
use crate::layout::{
    num_panels, panel_extent, row_major, lemma_panel_of, lemma_panel_start, lemma_panel_inj,
    lemma_row_major_lt, lemma_row_major_inj,
};
use crate::matrix::{Scalar, Mat, zero_vec};

verus! {

/// The rectangle of zeros of `h` rows and `w` columns.
pub open spec fn zero_grid<T: Scalar>(h: nat, w: nat) -> Seq<Seq<T>> {
    Seq::new(h, |i: int| Seq::new(w, |j: int| T::spec_zero()))
}

/// Zero-filled panels for a matrix of `across` lines cut in panels of `pb`
/// lines, each line holding `along` entries.
fn alloc_panels<T: Scalar>(along: usize, across: usize, pb: usize) -> (panels: Vec<Vec<T>>)
    requires
        0 < pb || across == 0,
        along * across <= usize::MAX,
    ensures
        panels.len() == num_panels(across as int, pb as int),
        forall|p: int|
            0 <= p < panels.len() ==> #[trigger] panels@[p]@ == Seq::new(
                (along * panel_extent(across as int, pb as int, p)) as nat,
                |k: int| T::spec_zero(),
            ),
{
    let np: usize = if across == 0 {
        0
    } else {
        (across - 1) / pb + 1
    };
    let mut panels: Vec<Vec<T>> = Vec::new();
    while panels.len() < np
        invariant
            0 < pb || across == 0,
            along * across <= usize::MAX,
            np == num_panels(across as int, pb as int),
            panels.len() <= np,
            forall|p: int|
                0 <= p < panels.len() ==> #[trigger] panels@[p]@ == Seq::new(
                    (along * panel_extent(across as int, pb as int, p)) as nat,
                    |k: int| T::spec_zero(),
                ),
        decreases np - panels.len(),
    {
        let p = panels.len();
        proof {
            lemma_panel_start(p as int, across as int, pb as int);
        }
        let start = p * pb;
        let ext = if across - start < pb {
            across - start
        } else {
            pb
        };
        assert(along * ext <= along * across) by (nonlinear_arith)
            requires
                ext <= across,
        ;
        let panel = zero_vec(along * ext);
        panels.push(panel);
    }
    panels
}

/// Entry `(y, x)` of column panels of width `pw` over `w` columns: panel
/// `x / pw`, held row by row.
pub open spec fn column_panel_entry<T>(panels: Seq<Vec<T>>, w: int, pw: int, y: int, x: int) -> T {
    let p = x / pw;
    panels[p]@[row_major(y, x % pw, panel_extent(w, pw, p))]
}

/// The `h` by `w` rectangle that column panels of width `pw` hold.
pub open spec fn column_panel_grid<T>(panels: Seq<Vec<T>>, h: nat, w: nat, pw: int) -> Seq<Seq<T>> {
    Seq::new(h, |i: int| Seq::new(w, |j: int| column_panel_entry(panels, w as int, pw, i, j)))
}

/// A matrix stored as panels of `panel_width` consecutive columns (the last
/// panel may be narrower), each panel held row by row.
pub struct ColumnPanelMatrix<T> {
    h: usize,
    w: usize,
    pw: usize,
    panels: Vec<Vec<T>>,
    off_y: usize,
    off_x: usize,
    iter_h: usize,
    iter_w: usize,
}

impl<T: Scalar> ColumnPanelMatrix<T> {
    /// The number of columns in each panel but the last.
    pub closed spec fn panel_width(&self) -> usize {
        self.pw
    }

    /// The layout of a panel matrix is its panel size.
    pub proof fn lemma_layout_is_panel_size(&self)
        ensures
            self.layout() == self.panel_width(),
    {
    }

    /// A `h` by `w` matrix of zeros in panels of `panel_width` columns,
    /// viewed whole.
    pub fn new(h: usize, w: usize, panel_width: usize) -> (m: ColumnPanelMatrix<T>)
        requires
            0 < panel_width || w == 0,
            h * w <= usize::MAX,
        ensures
            m.wf(),
            m.grid() == zero_grid::<T>(h as nat, w as nat),
            m.cols() == w,
            m.panel_width() == panel_width,
            m.layout() == panel_width,
            m.view_off_y() == 0,
            m.view_off_x() == 0,
            m.view_height() == h,
            m.view_width() == w,
    {
        let panels = alloc_panels(h, w, panel_width);
        let m = ColumnPanelMatrix {
            h,
            w,
            pw: panel_width,
            panels,
            off_y: 0,
            off_x: 0,
            iter_h: h,
            iter_w: w,
        };
        proof {
            m.lemma_zero_grid();
        }
        m
    }

    proof fn lemma_zero_grid(&self)
        requires
            0 < self.pw || self.w == 0,
            self.h * self.w <= usize::MAX,
            self.panels.len() == num_panels(self.w as int, self.pw as int),
            forall|p: int|
                0 <= p < self.panels.len() ==> #[trigger] self.panels@[p]@ == Seq::new(
                    (self.h * panel_extent(self.w as int, self.pw as int, p)) as nat,
                    |k: int| T::spec_zero(),
                ),
        ensures
            self.wf(),
            self.grid() == zero_grid::<T>(self.h as nat, self.w as nat),
    {
        assert forall|p: int| 0 <= p < self.panels.len() implies #[trigger] self.panels@[p].len()
            == self.h * panel_extent(self.w as int, self.pw as int, p) by {
            lemma_panel_start(p, self.w as int, self.pw as int);
            assert(self.h * panel_extent(self.w as int, self.pw as int, p) >= 0) by (nonlinear_arith)
                requires
                    panel_extent(self.w as int, self.pw as int, p) > 0,
            ;
            assert(self.panels@[p]@.len() == self.h * panel_extent(self.w as int, self.pw as int, p));
        }
        assert forall|i: int, j: int| 0 <= i < self.h && 0 <= j < self.w implies
            #[trigger] self.grid()[i][j] == T::spec_zero() by {
            lemma_panel_of(j, self.w as int, self.pw as int);
            let p = j / (self.pw as int);
            lemma_row_major_lt(i, j % (self.pw as int), self.h as int,
                panel_extent(self.w as int, self.pw as int, p));
        }
        assert(self.grid() =~~= zero_grid::<T>(self.h as nat, self.w as nat));
    }

    /// Reallocates the storage to the size of `other`'s view, filled with
    /// zeros and viewed whole; the panel width is kept.
    pub fn resize_to_fit<M: Mat<T>>(&mut self, other: &M)
        requires
            old(self).wf(),
            other.wf(),
            0 < old(self).panel_width() || other.view_width() == 0,
            other.view_height() * other.view_width() <= usize::MAX,
        ensures
            final(self).wf(),
            final(self).grid() == zero_grid::<T>(other.view_height() as nat, other.view_width() as nat),
            final(self).cols() == other.view_width(),
            final(self).panel_width() == old(self).panel_width(),
            final(self).layout() == old(self).layout(),
            final(self).view_off_y() == 0,
            final(self).view_off_x() == 0,
            final(self).view_height() == other.view_height(),
            final(self).view_width() == other.view_width(),
    {
        let h = other.iter_height();
        let w = other.iter_width();
        self.panels = alloc_panels(h, w, self.pw);
        self.h = h;
        self.w = w;
        self.off_y = 0;
        self.off_x = 0;
        self.iter_h = h;
        self.iter_w = w;
        proof {
            self.lemma_zero_grid();
        }
    }
}

impl<T: Scalar> Mat<T> for ColumnPanelMatrix<T> {
    closed spec fn wf(&self) -> bool {
        &&& (0 < self.pw || self.w == 0)
        &&& self.h * self.w <= usize::MAX
        &&& self.panels.len() == num_panels(self.w as int, self.pw as int)
        &&& forall|p: int|
            0 <= p < self.panels.len() ==> #[trigger] self.panels@[p].len() == self.h
                * panel_extent(self.w as int, self.pw as int, p)
    }

    closed spec fn grid(&self) -> Seq<Seq<T>> {
        column_panel_grid(self.panels@, self.h as nat, self.w as nat, self.pw as int)
    }

    closed spec fn cols(&self) -> nat {
        self.w as nat
    }

    closed spec fn view_off_y(&self) -> usize {
        self.off_y
    }

    closed spec fn view_off_x(&self) -> usize {
        self.off_x
    }

    closed spec fn view_height(&self) -> usize {
        self.iter_h
    }

    closed spec fn view_width(&self) -> usize {
        self.iter_w
    }

    closed spec fn layout(&self) -> nat {
        self.pw as nat
    }

    proof fn lemma_shape(&self) {
    }

    fn iter_height(&self) -> (r: usize) {
        self.iter_h
    }

    fn iter_width(&self) -> (r: usize) {
        self.iter_w
    }

    fn height(&self) -> (r: usize) {
        self.iter_h
    }

    fn width(&self) -> (r: usize) {
        self.iter_w
    }

    fn off_y(&self) -> (r: usize) {
        self.off_y
    }

    fn off_x(&self) -> (r: usize) {
        self.off_x
    }

    fn set_iter_height(&mut self, h: usize) {
        self.iter_h = h;
    }

    fn set_iter_width(&mut self, w: usize) {
        self.iter_w = w;
    }

    fn set_off_y(&mut self, off: usize) {
        self.off_y = off;
    }

    fn set_off_x(&mut self, off: usize) {
        self.off_x = off;
    }

    fn adjust_y_view(&mut self, parent_height: usize, parent_off: usize, blksz: usize, start: usize) {
        self.off_y = parent_off + start;
        let rest = parent_height - start;
        self.iter_h = if blksz <= rest { blksz } else { rest };
    }

    fn adjust_x_view(&mut self, parent_width: usize, parent_off: usize, blksz: usize, start: usize) {
        self.off_x = parent_off + start;
        let rest = parent_width - start;
        self.iter_w = if blksz <= rest { blksz } else { rest };
    }

    fn get(&self, y: usize, x: usize) -> (r: T) {
        let i = self.off_y + y;
        let j = self.off_x + x;
        proof {
            lemma_panel_of(j as int, self.w as int, self.pw as int);
        }
        let p = j / self.pw;
        let xi = j % self.pw;
        let start = p * self.pw;
        let ext = if self.w - start < self.pw {
            self.w - start
        } else {
            self.pw
        };
        proof {
            lemma_row_major_lt(i as int, xi as int, self.h as int, ext as int);
            assert(self.panels@[p as int].len() == self.h * ext);
        }
        self.panels[p][i * ext + xi]
    }

    fn set(&mut self, y: usize, x: usize, v: T) {
        let i = self.off_y + y;
        let j = self.off_x + x;
        proof {
            lemma_panel_of(j as int, self.w as int, self.pw as int);
        }
        let p = j / self.pw;
        let xi = j % self.pw;
        let start = p * self.pw;
        let ext = if self.w - start < self.pw {
            self.w - start
        } else {
            self.pw
        };
        proof {
            lemma_row_major_lt(i as int, xi as int, self.h as int, ext as int);
            assert(self.panels@[p as int].len() == self.h * ext);
        }
        let ghost g0 = self.grid();
        let ghost old_panels = self.panels@;
        let k = i * ext + xi;
        self.panels[p].set(k, v);
        proof {
            let g1 = self.grid();
            let expect = g0.update(i as int, g0[i as int].update(j as int, v));
            assert forall|a: int, b: int| 0 <= a < self.h && 0 <= b < self.w implies
                #[trigger] g1[a][b] == expect[a][b] by {
                lemma_panel_of(b, self.w as int, self.pw as int);
                let q = b / (self.pw as int);
                let e = panel_extent(self.w as int, self.pw as int, q);
                lemma_row_major_lt(a, b % (self.pw as int), self.h as int, e);
                if q == p && row_major(a, b % (self.pw as int), e) == k {
                    lemma_row_major_inj(a, b % (self.pw as int), i as int, xi as int, e);
                    lemma_panel_inj(b, j as int, self.pw as int);
                }
            }
            assert(g1 =~~= expect);
        }
    }
}


/// Entry `(y, x)` of row panels of height `ph` over `h` rows: panel
/// `y / ph`, held column by column.
pub open spec fn row_panel_entry<T>(panels: Seq<Vec<T>>, h: int, ph: int, y: int, x: int) -> T {
    let p = y / ph;
    panels[p]@[row_major(x, y % ph, panel_extent(h, ph, p))]
}

/// The `h` by `w` rectangle that row panels of height `ph` hold.
pub open spec fn row_panel_grid<T>(panels: Seq<Vec<T>>, h: nat, w: nat, ph: int) -> Seq<Seq<T>> {
    Seq::new(h, |i: int| Seq::new(w, |j: int| row_panel_entry(panels, h as int, ph, i, j)))
}

/// A matrix stored as panels of `panel_height` consecutive rows (the last
/// panel may be lower), each panel held column by column.
pub struct RowPanelMatrix<T> {
    h: usize,
    w: usize,
    pw: usize,
    panels: Vec<Vec<T>>,
    off_y: usize,
    off_x: usize,
    iter_h: usize,
    iter_w: usize,
}

impl<T: Scalar> RowPanelMatrix<T> {
    /// The number of rows in each panel but the last.
    pub closed spec fn panel_height(&self) -> usize {
        self.pw
    }

    /// The layout of a panel matrix is its panel size.
    pub proof fn lemma_layout_is_panel_size(&self)
        ensures
            self.layout() == self.panel_height(),
    {
    }

    /// A `h` by `w` matrix of zeros in panels of `panel_height` rows,
    /// viewed whole.
    pub fn new(h: usize, w: usize, panel_height: usize) -> (m: RowPanelMatrix<T>)
        requires
            0 < panel_height || h == 0,
            h * w <= usize::MAX,
        ensures
            m.wf(),
            m.grid() == zero_grid::<T>(h as nat, w as nat),
            m.cols() == w,
            m.panel_height() == panel_height,
            m.layout() == panel_height,
            m.view_off_y() == 0,
            m.view_off_x() == 0,
            m.view_height() == h,
            m.view_width() == w,
    {
        assert(w * h == h * w) by (nonlinear_arith);
        let panels = alloc_panels(w, h, panel_height);
        let m = RowPanelMatrix {
            h,
            w,
            pw: panel_height,
            panels,
            off_y: 0,
            off_x: 0,
            iter_h: h,
            iter_w: w,
        };
        proof {
            m.lemma_zero_grid();
        }
        m
    }

    proof fn lemma_zero_grid(&self)
        requires
            0 < self.pw || self.h == 0,
            self.h * self.w <= usize::MAX,
            self.panels.len() == num_panels(self.h as int, self.pw as int),
            forall|p: int|
                0 <= p < self.panels.len() ==> #[trigger] self.panels@[p]@ == Seq::new(
                    (self.w * panel_extent(self.h as int, self.pw as int, p)) as nat,
                    |k: int| T::spec_zero(),
                ),
        ensures
            self.wf(),
            self.grid() == zero_grid::<T>(self.h as nat, self.w as nat),
    {
        assert forall|p: int| 0 <= p < self.panels.len() implies #[trigger] self.panels@[p].len()
            == self.w * panel_extent(self.h as int, self.pw as int, p) by {
            lemma_panel_start(p, self.h as int, self.pw as int);
            assert(self.w * panel_extent(self.h as int, self.pw as int, p) >= 0) by (nonlinear_arith)
                requires
                    panel_extent(self.h as int, self.pw as int, p) > 0,
            ;
            assert(self.panels@[p]@.len() == self.w * panel_extent(self.h as int, self.pw as int, p));
        }
        assert forall|i: int, j: int| 0 <= i < self.h && 0 <= j < self.w implies
            #[trigger] self.grid()[i][j] == T::spec_zero() by {
            lemma_panel_of(i, self.h as int, self.pw as int);
            let p = i / (self.pw as int);
            lemma_row_major_lt(j, i % (self.pw as int), self.w as int,
                panel_extent(self.h as int, self.pw as int, p));
        }
        assert(self.grid() =~~= zero_grid::<T>(self.h as nat, self.w as nat));
    }

    /// Reallocates the storage to the size of `other`'s view, filled with
    /// zeros and viewed whole; the panel height is kept.
    pub fn resize_to_fit<M: Mat<T>>(&mut self, other: &M)
        requires
            old(self).wf(),
            other.wf(),
            0 < old(self).panel_height() || other.view_height() == 0,
            other.view_height() * other.view_width() <= usize::MAX,
        ensures
            final(self).wf(),
            final(self).grid() == zero_grid::<T>(other.view_height() as nat, other.view_width() as nat),
            final(self).cols() == other.view_width(),
            final(self).panel_height() == old(self).panel_height(),
            final(self).layout() == old(self).layout(),
            final(self).view_off_y() == 0,
            final(self).view_off_x() == 0,
            final(self).view_height() == other.view_height(),
            final(self).view_width() == other.view_width(),
    {
        let h = other.iter_height();
        let w = other.iter_width();
        assert(w * h == h * w) by (nonlinear_arith);
        self.panels = alloc_panels(w, h, self.pw);
        self.h = h;
        self.w = w;
        self.off_y = 0;
        self.off_x = 0;
        self.iter_h = h;
        self.iter_w = w;
        proof {
            self.lemma_zero_grid();
        }
    }
}

impl<T: Scalar> Mat<T> for RowPanelMatrix<T> {
    closed spec fn wf(&self) -> bool {
        &&& (0 < self.pw || self.h == 0)
        &&& self.h * self.w <= usize::MAX
        &&& self.panels.len() == num_panels(self.h as int, self.pw as int)
        &&& forall|p: int|
            0 <= p < self.panels.len() ==> #[trigger] self.panels@[p].len() == self.w
                * panel_extent(self.h as int, self.pw as int, p)
    }

    closed spec fn grid(&self) -> Seq<Seq<T>> {
        row_panel_grid(self.panels@, self.h as nat, self.w as nat, self.pw as int)
    }

    closed spec fn cols(&self) -> nat {
        self.w as nat
    }

    closed spec fn view_off_y(&self) -> usize {
        self.off_y
    }

    closed spec fn view_off_x(&self) -> usize {
        self.off_x
    }

    closed spec fn view_height(&self) -> usize {
        self.iter_h
    }

    closed spec fn view_width(&self) -> usize {
        self.iter_w
    }

    closed spec fn layout(&self) -> nat {
        self.pw as nat
    }

    proof fn lemma_shape(&self) {
    }

    fn iter_height(&self) -> (r: usize) {
        self.iter_h
    }

    fn iter_width(&self) -> (r: usize) {
        self.iter_w
    }

    fn height(&self) -> (r: usize) {
        self.iter_h
    }

    fn width(&self) -> (r: usize) {
        self.iter_w
    }

    fn off_y(&self) -> (r: usize) {
        self.off_y
    }

    fn off_x(&self) -> (r: usize) {
        self.off_x
    }

    fn set_iter_height(&mut self, h: usize) {
        self.iter_h = h;
    }

    fn set_iter_width(&mut self, w: usize) {
        self.iter_w = w;
    }

    fn set_off_y(&mut self, off: usize) {
        self.off_y = off;
    }

    fn set_off_x(&mut self, off: usize) {
        self.off_x = off;
    }

    fn adjust_y_view(&mut self, parent_height: usize, parent_off: usize, blksz: usize, start: usize) {
        self.off_y = parent_off + start;
        let rest = parent_height - start;
        self.iter_h = if blksz <= rest { blksz } else { rest };
    }

    fn adjust_x_view(&mut self, parent_width: usize, parent_off: usize, blksz: usize, start: usize) {
        self.off_x = parent_off + start;
        let rest = parent_width - start;
        self.iter_w = if blksz <= rest { blksz } else { rest };
    }

    fn get(&self, y: usize, x: usize) -> (r: T) {
        let i = self.off_y + y;
        let j = self.off_x + x;
        proof {
            lemma_panel_of(i as int, self.h as int, self.pw as int);
        }
        let p = i / self.pw;
        let yi = i % self.pw;
        let start = p * self.pw;
        let ext = if self.h - start < self.pw {
            self.h - start
        } else {
            self.pw
        };
        proof {
            lemma_row_major_lt(j as int, yi as int, self.w as int, ext as int);
            assert(self.panels@[p as int].len() == self.w * ext);
        }
        self.panels[p][j * ext + yi]
    }

    fn set(&mut self, y: usize, x: usize, v: T) {
        let i = self.off_y + y;
        let j = self.off_x + x;
        proof {
            lemma_panel_of(i as int, self.h as int, self.pw as int);
        }
        let p = i / self.pw;
        let yi = i % self.pw;
        let start = p * self.pw;
        let ext = if self.h - start < self.pw {
            self.h - start
        } else {
            self.pw
        };
        proof {
            lemma_row_major_lt(j as int, yi as int, self.w as int, ext as int);
            assert(self.panels@[p as int].len() == self.w * ext);
        }
        let ghost g0 = self.grid();
        let k = j * ext + yi;
        self.panels[p].set(k, v);
        proof {
            let g1 = self.grid();
            let expect = g0.update(i as int, g0[i as int].update(j as int, v));
            assert forall|a: int, b: int| 0 <= a < self.h && 0 <= b < self.w implies
                #[trigger] g1[a][b] == expect[a][b] by {
                lemma_panel_of(a, self.h as int, self.pw as int);
                let q = a / (self.pw as int);
                let e = panel_extent(self.h as int, self.pw as int, q);
                lemma_row_major_lt(b, a % (self.pw as int), self.w as int, e);
                if q == p && row_major(b, a % (self.pw as int), e) == k {
                    lemma_row_major_inj(b, a % (self.pw as int), j as int, yi as int, e);
                    lemma_panel_inj(a, i as int, self.pw as int);
                }
            }
            assert(g1 =~~= expect);
        }
    }
}

} // verus!
