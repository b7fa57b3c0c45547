use vstd::prelude::*;
use core::marker::PhantomData;
use crate::matrix::{Scalar, Mat, is_rect, view_in_bounds, view_at, same_view, in_window};

verus! {

/// `after` is `before` with its view window overwritten by the view window of
/// `src`: same window, same shape and layout, the window's entries those of `src`'s
/// window, every other entry unchanged.
pub open spec fn packed_from<T: Scalar, S: Mat<T>, D: Mat<T>>(src: S, before: D, after: D) -> bool {
    &&& after.wf()
    &&& same_view::<T, D>(before, after)
    &&& after.cols() == before.cols()
    &&& after.layout() == before.layout()
    &&& after.grid().len() == before.grid().len()
    &&& is_rect(after.grid(), after.cols())
    &&& forall|y: int, x: int|
        0 <= y < after.view_height() && 0 <= x < after.view_width() ==> #[trigger] view_at::<T, D>(
            after,
            y,
            x,
        ) == view_at::<T, S>(src, y, x)
    &&& forall|i: int, j: int|
        0 <= i < after.grid().len() && 0 <= j < after.cols() && !in_window::<T, D>(after, i, j)
            ==> #[trigger] after.grid()[i][j] == before.grid()[i][j]
}

/// Copies the view of a matrix of one kind into the view of a matrix of
/// another kind, such as a panel layout.
pub struct Packer<T, At, Apt> {
    _t: PhantomData<T>,
    _at: PhantomData<At>,
    _apt: PhantomData<Apt>,
}

impl<T: Scalar, At: Mat<T>, Apt: Mat<T>> Packer<T, At, Apt> {
    pub fn new() -> (p: Packer<T, At, Apt>) {
        Packer { _t: PhantomData, _at: PhantomData, _apt: PhantomData }
    }

    /// Copies the view of `a` into the view of `a_pack`, which has the same
    /// height and width.
    pub fn pack(&self, a: &At, a_pack: &mut Apt)
        requires
            a.wf(),
            view_in_bounds::<T, At>(*a),
            old(a_pack).wf(),
            view_in_bounds::<T, Apt>(*old(a_pack)),
            old(a_pack).view_height() == a.view_height(),
            old(a_pack).view_width() == a.view_width(),
        ensures
            packed_from::<T, At, Apt>(*a, *old(a_pack), *final(a_pack)),
    {
        let h = a.iter_height();
        let w = a.iter_width();
        let ghost g0 = a_pack.grid();
        let ghost oy = a_pack.view_off_y() as int;
        let ghost ox = a_pack.view_off_x() as int;
        proof {
            a_pack.lemma_shape();
        }
        let mut y: usize = 0;
        while y < h
            invariant
                0 <= y <= h,
                h == a.view_height(),
                w == a.view_width(),
                a.wf(),
                view_in_bounds::<T, At>(*a),
                a_pack.wf(),
                same_view::<T, Apt>(*old(a_pack), *a_pack),
                a_pack.cols() == old(a_pack).cols(),
                a_pack.layout() == old(a_pack).layout(),
                g0 == old(a_pack).grid(),
                old(a_pack).view_height() == h,
                old(a_pack).view_width() == w,
                oy == a_pack.view_off_y(),
                ox == a_pack.view_off_x(),
                view_in_bounds::<T, Apt>(*a_pack),
                a_pack.grid().len() == g0.len(),
                is_rect(a_pack.grid(), a_pack.cols()),
                forall|yy: int, x: int|
                    0 <= yy < y && 0 <= x < w ==> #[trigger] a_pack.grid()[oy + yy][ox + x]
                        == view_at::<T, At>(*a, yy, x),
                forall|i: int, j: int|
                    0 <= i < g0.len() && 0 <= j < a_pack.cols() && !(oy <= i < oy + y && ox <= j
                        < ox + w) ==> #[trigger] a_pack.grid()[i][j] == g0[i][j],
            decreases h - y,
        {
            let mut x: usize = 0;
            while x < w
                invariant
                    0 <= y < h,
                    0 <= x <= w,
                    h == a.view_height(),
                    w == a.view_width(),
                    a.wf(),
                    view_in_bounds::<T, At>(*a),
                    a_pack.wf(),
                    same_view::<T, Apt>(*old(a_pack), *a_pack),
                    a_pack.cols() == old(a_pack).cols(),
                    a_pack.layout() == old(a_pack).layout(),
                    g0 == old(a_pack).grid(),
                    old(a_pack).view_height() == h,
                    old(a_pack).view_width() == w,
                    oy == a_pack.view_off_y(),
                    ox == a_pack.view_off_x(),
                    view_in_bounds::<T, Apt>(*a_pack),
                    a_pack.grid().len() == g0.len(),
                    is_rect(a_pack.grid(), a_pack.cols()),
                    forall|yy: int, xx: int|
                        (0 <= yy < y && 0 <= xx < w) || (yy == y && 0 <= xx < x)
                            ==> #[trigger] a_pack.grid()[oy + yy][ox + xx] == view_at::<T, At>(
                            *a,
                            yy,
                            xx,
                        ),
                    forall|i: int, j: int|
                        0 <= i < g0.len() && 0 <= j < a_pack.cols() && !(oy <= i < oy + y && ox
                            <= j < ox + w) && !(i == oy + y && ox <= j < ox + x)
                            ==> #[trigger] a_pack.grid()[i][j] == g0[i][j],
                decreases w - x,
            {
                let v = a.get(y, x);
                a_pack.set(y, x, v);
                x = x + 1;
            }
            y = y + 1;
        }
        proof {
            assert forall|yy: int, xx: int|
                0 <= yy < a_pack.view_height() && 0 <= xx < a_pack.view_width() implies
                #[trigger] view_at::<T, Apt>(*a_pack, yy, xx) == view_at::<T, At>(*a, yy, xx) by {
                assert(a_pack.grid()[oy + yy][ox + xx] == view_at::<T, At>(*a, yy, xx));
            }
        }
    }
}

} // verus!
