use vstd::prelude::*;
use vstd::arithmetic::div_mod::{lemma_fundamental_div_mod, lemma_mod_pos_bound, lemma_div_pos_is_pos, lemma_div_is_ordered};

verus! {

/// Row-major position of entry `(i, j)` in a buffer of rows of `c` entries.
pub open spec fn row_major(i: int, j: int, c: int) -> int {
    i * c + j
}

pub proof fn lemma_row_major_lt(i: int, j: int, r: int, c: int)
    requires
        0 <= i < r,
        0 <= j < c,
    ensures
        0 <= row_major(i, j, c) < r * c,
{
    assert(0 <= i * c + j < r * c) by (nonlinear_arith)
        requires
            0 <= i < r,
            0 <= j < c,
    ;
}

pub proof fn lemma_row_major_inj(i1: int, j1: int, i2: int, j2: int, c: int)
    requires
        0 <= i1,
        0 <= i2,
        0 <= j1 < c,
        0 <= j2 < c,
        row_major(i1, j1, c) == row_major(i2, j2, c),
    ensures
        i1 == i2,
        j1 == j2,
{
    assert(i1 == i2) by (nonlinear_arith)
        requires
            0 <= i1,
            0 <= i2,
            0 <= j1 < c,
            0 <= j2 < c,
            i1 * c + j1 == i2 * c + j2,
    {
        if i1 < i2 {
            assert(i1 * c + c <= i2 * c);
        } else if i2 < i1 {
            assert(i2 * c + c <= i1 * c);
        }
    }
}

/// The number of panels of `pb` lines that cover `n` lines; the last one
/// may be short.
pub open spec fn num_panels(n: int, pb: int) -> int {
    if n <= 0 {
        0
    } else {
        (n - 1) / pb + 1
    }
}

/// The number of lines in panel `p` when `n` lines are cut in panels of `pb`.
pub open spec fn panel_extent(n: int, pb: int, p: int) -> int {
    if n - p * pb < pb {
        n - p * pb
    } else {
        pb
    }
}

/// Line `x` lies in panel `x / pb`, at offset `x % pb` inside it.
pub proof fn lemma_panel_of(x: int, n: int, pb: int)
    requires
        0 <= x < n,
        0 < pb,
    ensures
        0 <= x / pb < num_panels(n, pb),
        0 <= (x / pb) * pb <= x,
        x % pb == x - (x / pb) * pb,
        0 <= x % pb < panel_extent(n, pb, x / pb),
        0 < panel_extent(n, pb, x / pb) <= pb,
{
    lemma_fundamental_div_mod(x, pb);
    lemma_mod_pos_bound(x, pb);
    lemma_div_pos_is_pos(x, pb);
    lemma_div_is_ordered(x, n - 1, pb);
    assert((x / pb) * pb == pb * (x / pb)) by (nonlinear_arith);
}

/// Panel `p` of the cover starts inside the `n` lines and ends by their end.
pub proof fn lemma_panel_start(p: int, n: int, pb: int)
    requires
        0 <= p < num_panels(n, pb),
        0 < pb,
    ensures
        0 <= p * pb < n,
        0 < panel_extent(n, pb, p) <= pb,
        p * pb + panel_extent(n, pb, p) <= n,
{
    let q = (n - 1) / pb;
    lemma_fundamental_div_mod(n - 1, pb);
    lemma_mod_pos_bound(n - 1, pb);
    assert(p * pb <= q * pb && 0 <= p * pb) by (nonlinear_arith)
        requires
            0 <= p <= q,
            0 < pb,
    ;
    assert(q * pb == pb * q) by (nonlinear_arith);
}

/// Panel `p`, when it starts inside the `n` lines, is a panel of the cover,
/// and the next one is too exactly when it starts inside them as well.
pub proof fn lemma_panel_next(p: int, n: int, pb: int)
    requires
        0 < pb,
        0 <= p,
        p * pb < n,
    ensures
        p < num_panels(n, pb),
        (p + 1 < num_panels(n, pb)) == ((p + 1) * pb < n),
        (p + 1) * pb == p * pb + pb,
{
    let q = (n - 1) / pb;
    let r = (n - 1) % pb;
    lemma_fundamental_div_mod(n - 1, pb);
    lemma_mod_pos_bound(n - 1, pb);
    assert(n - 1 == q * pb + r) by (nonlinear_arith)
        requires
            n - 1 == pb * q + r,
    ;
    assert(p <= q) by (nonlinear_arith)
        requires
            0 < pb,
            p * pb <= n - 1,
            n - 1 == q * pb + r,
            0 <= r < pb,
    ;
    assert((p + 1 <= q) == ((p + 1) * pb < n)) by (nonlinear_arith)
        requires
            0 < pb,
            n - 1 == q * pb + r,
            0 <= r < pb,
    ;
    assert((p + 1) * pb == p * pb + pb) by (nonlinear_arith);
}

/// Two lines in the same panel at the same offset are the same line.
pub proof fn lemma_panel_inj(x1: int, x2: int, pb: int)
    requires
        0 < pb,
        x1 / pb == x2 / pb,
        x1 % pb == x2 % pb,
    ensures
        x1 == x2,
{
    lemma_fundamental_div_mod(x1, pb);
    lemma_fundamental_div_mod(x2, pb);
}

} // verus!
