//! Elementwise kernels over 2-D strided layouts: `c[lc(i, j)] = f(a[la(i, j)],
//! b[lb(i, j)])` for every element, and the in-place form
//! `a[la(i, j)] = f(a[la(i, j)], b[lb(i, j)])`.
//!
//! Large problems whose layouts have no broadcast axis are walked in square
//! tiles (the output's smaller-stride axis innermost); the rest are walked in
//! column-major order. Both walks write each output element once, from its
//! own input elements.

use vstd::prelude::*;

use crate::layout::{Layout2, LayoutError, lemma_fits_mono};

verus! {

/// Problems of at least this many elements take the tiled walk.
pub const TILE_SWITCH: usize = 4096;

/// Edge of a square tile, in elements.
pub const TILE: usize = 64;

/// Some element of `region` sits at buffer position `p` of layout `lc`.
pub open spec fn hit_by(lc: Layout2, region: spec_fn(int, int) -> bool, p: int) -> bool {
    exists|i: int, j: int| lc.in_shape(i, j) && region(i, j) && #[trigger] lc.spec_index(i, j) == p
}

/// `c` is `c0` after the elements of `region` were written: when `lc` maps
/// no two elements to one position, each element `(i, j)` of `region` holds
/// a result of `f` on `(a[la(i, j)], b[lb(i, j)])`; every position that no
/// element of `region` maps to still holds its value in `c0`.
pub open spec fn applied<TA, TB, TC, F: Fn(TA, TB) -> TC>(
    c0: Seq<TC>,
    c: Seq<TC>,
    lc: Layout2,
    a: Seq<TA>,
    la: Layout2,
    b: Seq<TB>,
    lb: Layout2,
    f: F,
    region: spec_fn(int, int) -> bool,
) -> bool {
    &&& c.len() == c0.len()
    &&& lc.injective() ==> forall|i: int, j: int|
        lc.in_shape(i, j) && region(i, j) ==> f.ensures(
            (a[la.spec_index(i, j)], b[lb.spec_index(i, j)]),
            #[trigger] c[lc.spec_index(i, j)],
        )
    &&& forall|p: int| 0 <= p < c.len() && !hit_by(lc, region, p) ==> #[trigger] c[p] == c0[p]
}

/// The whole shape.
pub open spec fn everywhere() -> spec_fn(int, int) -> bool {
    |i: int, j: int| true
}

/// Elements before `(ic, jc)` in column-major order.
pub open spec fn col_major_before(ic: int, jc: int) -> spec_fn(int, int) -> bool {
    |i: int, j: int| j < jc || (j == jc && i < ic)
}

/// Elements visited by the tiled walk, in (slow, fast) coordinates `(u, v)`:
/// whole bands before `ts`, tiles of the band `[ts, se)` before `tf`, rows of
/// the tile `[tf, fe)` before `s`, and row `s` before `fp`.
pub open spec fn tiled_visited(ts: int, se: int, tf: int, fe: int, s: int, fp: int, u: int, v: int) -> bool {
    ||| u < ts
    ||| (ts <= u < se && v < tf)
    ||| (ts <= u < s && tf <= v < fe)
    ||| (u == s && tf <= v < fp)
}

/// The tiled walk's visited elements, as `(i, j)` pairs: the fast axis is
/// axis 0 when `fast0` holds, else axis 1.
pub open spec fn tiled_before(fast0: bool, ts: int, se: int, tf: int, fe: int, s: int, fp: int) -> spec_fn(
    int,
    int,
) -> bool {
    |i: int, j: int|
        if fast0 {
            tiled_visited(ts, se, tf, fe, s, fp, j, i)
        } else {
            tiled_visited(ts, se, tf, fe, s, fp, i, j)
        }
}

/// Writing one more element extends the written region by that element.
pub proof fn lemma_apply_step<TA, TB, TC, F: Fn(TA, TB) -> TC>(
    c0: Seq<TC>,
    c1: Seq<TC>,
    lc: Layout2,
    a: Seq<TA>,
    la: Layout2,
    b: Seq<TB>,
    lb: Layout2,
    f: F,
    r1: spec_fn(int, int) -> bool,
    r2: spec_fn(int, int) -> bool,
    i0: int,
    j0: int,
    v: TC,
)
    requires
        applied(c0, c1, lc, a, la, b, lb, f, r1),
        lc.fits(c1.len() as int),
        lc.in_shape(i0, j0),
        !r1(i0, j0),
        forall|i: int, j: int| #![trigger r2(i, j)] lc.in_shape(i, j) ==> (r2(i, j) == (r1(i, j) || (i == i0 && j == j0))),
        lc.injective() ==> f.ensures((a[la.spec_index(i0, j0)], b[lb.spec_index(i0, j0)]), v),
    ensures
        applied(c0, c1.update(lc.spec_index(i0, j0), v), lc, a, la, b, lb, f, r2),
{
    let p0 = lc.spec_index(i0, j0);
    let c2 = c1.update(p0, v);
    assert(0 <= p0 < c1.len());
    assert forall|p: int| 0 <= p < c2.len() && !hit_by(lc, r2, p) implies #[trigger] c2[p] == c0[p] by {
        if p == p0 {
            assert(r2(i0, j0));
            assert(hit_by(lc, r2, p));
        }
        if hit_by(lc, r1, p) {
            let (i, j) = choose|i: int, j: int| lc.in_shape(i, j) && r1(i, j) && #[trigger] lc.spec_index(i, j) == p;
            assert(r2(i, j));
            assert(hit_by(lc, r2, p));
        }
    }
    if lc.injective() {
        assert forall|i: int, j: int| lc.in_shape(i, j) && r2(i, j) implies f.ensures(
            (a[la.spec_index(i, j)], b[lb.spec_index(i, j)]),
            #[trigger] c2[lc.spec_index(i, j)],
        ) by {
            if i == i0 && j == j0 {
            } else {
                assert(r1(i, j));
                assert(lc.spec_index(i, j) != p0);
                assert(c1[lc.spec_index(i, j)] == c2[lc.spec_index(i, j)]);
            }
        }
    }
}

/// The written region may be restated by any predicate that agrees with it
/// on the shape.
pub proof fn lemma_region_ext<TA, TB, TC, F: Fn(TA, TB) -> TC>(
    c0: Seq<TC>,
    c: Seq<TC>,
    lc: Layout2,
    a: Seq<TA>,
    la: Layout2,
    b: Seq<TB>,
    lb: Layout2,
    f: F,
    r1: spec_fn(int, int) -> bool,
    r2: spec_fn(int, int) -> bool,
)
    requires
        applied(c0, c, lc, a, la, b, lb, f, r1),
        forall|i: int, j: int| #![trigger r2(i, j)] lc.in_shape(i, j) ==> r1(i, j) == r2(i, j),
    ensures
        applied(c0, c, lc, a, la, b, lb, f, r2),
{
    assert forall|p: int| 0 <= p < c.len() && !hit_by(lc, r2, p) implies #[trigger] c[p] == c0[p] by {
        if hit_by(lc, r1, p) {
            let (i, j) = choose|i: int, j: int| lc.in_shape(i, j) && r1(i, j) && #[trigger] lc.spec_index(i, j) == p;
            assert(r2(i, j));
            assert(hit_by(lc, r2, p));
        }
    }
    if lc.injective() {
        assert forall|i: int, j: int| lc.in_shape(i, j) && r2(i, j) implies f.ensures(
            (a[la.spec_index(i, j)], b[lb.spec_index(i, j)]),
            #[trigger] c[lc.spec_index(i, j)],
        ) by {
            assert(r1(i, j));
        }
    }
}

/// Nothing is written yet.
pub proof fn lemma_applied_start<TA, TB, TC, F: Fn(TA, TB) -> TC>(
    c: Seq<TC>,
    lc: Layout2,
    a: Seq<TA>,
    la: Layout2,
    b: Seq<TB>,
    lb: Layout2,
    f: F,
    r: spec_fn(int, int) -> bool,
)
    requires
        forall|i: int, j: int| #![trigger r(i, j)] lc.in_shape(i, j) ==> !r(i, j),
    ensures
        applied(c, c, lc, a, la, b, lb, f, r),
{
}

/// What every step of a walk relies on: each layout fits its buffer (and so
/// `usize`), the input layouts share the output's shape, and `f` accepts
/// every input pair.
pub open spec fn walk_inputs_ok<TA, TB, TC, F: Fn(TA, TB) -> TC>(
    n_c: int,
    lc: Layout2,
    n_a: int,
    la: Layout2,
    n_b: int,
    lb: Layout2,
    f: F,
) -> bool {
    &&& lc.fits(n_c)
    &&& la.fits(n_a)
    &&& lb.fits(n_b)
    &&& lc.fits(usize::MAX as int + 1)
    &&& la.fits(usize::MAX as int + 1)
    &&& lb.fits(usize::MAX as int + 1)
    &&& la.shape == lc.shape
    &&& lb.shape == lc.shape
    &&& forall|x: TA, y: TB| f.requires((x, y))
}

/// Column-major walk: `c[lc(i, j)] = f(a[la(i, j)], b[lb(i, j)])` with axis 0
/// innermost.
fn walk_col_major<TA: Copy, TB: Copy, TC, F: Fn(TA, TB) -> TC>(
    c: &mut Vec<TC>,
    lc: &Layout2,
    a: &[TA],
    la: &Layout2,
    b: &[TB],
    lb: &Layout2,
    f: &F,
)
    requires
        lc.fits(old(c)@.len() as int),
        la.fits(a@.len() as int),
        lb.fits(b@.len() as int),
        la.shape == lc.shape,
        lb.shape == lc.shape,
        forall|x: TA, y: TB| f.requires((x, y)),
    ensures
        applied(old(c)@, final(c)@, *lc, a@, *la, b@, *lb, *f, everywhere()),
{
    let ghost c0 = c@;
    proof {
        assert(c0.len() == c.len() && a@.len() == a.len() && b@.len() == b.len());
        lemma_fits_mono(*lc, c0.len() as int, usize::MAX as int + 1);
        lemma_fits_mono(*la, a@.len() as int, usize::MAX as int + 1);
        lemma_fits_mono(*lb, b@.len() as int, usize::MAX as int + 1);
        lemma_applied_start(c0, *lc, a@, *la, b@, *lb, *f, col_major_before(0, 0));
    }
    let d0 = lc.shape[0];
    let d1 = lc.shape[1];
    let mut j: usize = 0;
    while j < d1
        invariant
            walk_inputs_ok(c0.len() as int, *lc, a@.len() as int, *la, b@.len() as int, *lb, *f),
            d0 == lc.shape[0],
            d1 == lc.shape[1],
            j <= d1,
            applied(c0, c@, *lc, a@, *la, b@, *lb, *f, col_major_before(0, j as int)),
        decreases d1 - j,
    {
        let mut i: usize = 0;
        while i < d0
            invariant
                walk_inputs_ok(c0.len() as int, *lc, a@.len() as int, *la, b@.len() as int, *lb, *f),
                d0 == lc.shape[0],
                d1 == lc.shape[1],
                j < d1,
                i <= d0,
                applied(c0, c@, *lc, a@, *la, b@, *lb, *f, col_major_before(i as int, j as int)),
            decreases d0 - i,
        {
            let ic = lc.index_of(i, j);
            let ia = la.index_of(i, j);
            let ib = lb.index_of(i, j);
            proof {
                assert(lc.in_shape(i as int, j as int));
                assert(la.in_shape(i as int, j as int));
                assert(lb.in_shape(i as int, j as int));
            }
            let v = f(a[ia], b[ib]);
            let ghost c1 = c@;
            c[ic] = v;
            proof {
                lemma_apply_step(
                    c0,
                    c1,
                    *lc,
                    a@,
                    *la,
                    b@,
                    *lb,
                    *f,
                    col_major_before(i as int, j as int),
                    col_major_before(i + 1, j as int),
                    i as int,
                    j as int,
                    v,
                );
            }
            i = i + 1;
        }
        proof {
            lemma_region_ext(
                c0,
                c@,
                *lc,
                a@,
                *la,
                b@,
                *lb,
                *f,
                col_major_before(d0 as int, j as int),
                col_major_before(0, j + 1),
            );
        }
        j = j + 1;
    }
    proof {
        lemma_region_ext(c0, c@, *lc, a@, *la, b@, *lb, *f, col_major_before(0, d1 as int), everywhere());
    }
}

pub open spec fn abs_int(x: int) -> int {
    if x < 0 { -x } else { x }
}

/// Whether `|x| <= |y|` (computed without overflow).
fn abs_le(x: isize, y: isize) -> (r: bool)
    ensures
        r == (abs_int(x as int) <= abs_int(y as int)),
{
    let ax: i128 = if x < 0 { -(x as i128) } else { x as i128 };
    let ay: i128 = if y < 0 { -(y as i128) } else { y as i128 };
    ax <= ay
}

/// Tiled walk: `c[lc(i, j)] = f(a[la(i, j)], b[lb(i, j)])` over square tiles
/// of edge `TILE`; the axis on which `c` has the smaller stride (by absolute
/// value) is the fast one and runs innermost, bands of `TILE` slow-axis rows
/// go one after another, and the tiles of a band follow the fast axis.
fn walk_tiled<TA: Copy, TB: Copy, TC, F: Fn(TA, TB) -> TC>(
    c: &mut Vec<TC>,
    lc: &Layout2,
    a: &[TA],
    la: &Layout2,
    b: &[TB],
    lb: &Layout2,
    f: &F,
)
    requires
        lc.fits(old(c)@.len() as int),
        la.fits(a@.len() as int),
        lb.fits(b@.len() as int),
        la.shape == lc.shape,
        lb.shape == lc.shape,
        forall|x: TA, y: TB| f.requires((x, y)),
    ensures
        applied(old(c)@, final(c)@, *lc, a@, *la, b@, *lb, *f, everywhere()),
{
    let ghost c0 = c@;
    proof {
        assert(c0.len() == c.len() && a@.len() == a.len() && b@.len() == b.len());
        lemma_fits_mono(*lc, c0.len() as int, usize::MAX as int + 1);
        lemma_fits_mono(*la, a@.len() as int, usize::MAX as int + 1);
        lemma_fits_mono(*lb, b@.len() as int, usize::MAX as int + 1);
    }
    let d0 = lc.shape[0];
    let d1 = lc.shape[1];
    let fast0 = abs_le(lc.stride[0], lc.stride[1]);
    let df: usize = if fast0 { d0 } else { d1 };
    let ds: usize = if fast0 { d1 } else { d0 };
    proof {
        lemma_applied_start(c0, *lc, a@, *la, b@, *lb, *f, tiled_before(fast0, 0, 0, 0, 0, 0, 0));
    }
    let mut ts: usize = 0;
    while ts < ds
        invariant
            walk_inputs_ok(c0.len() as int, *lc, a@.len() as int, *la, b@.len() as int, *lb, *f),
            d0 == lc.shape[0],
            d1 == lc.shape[1],
            df == (if fast0 { d0 } else { d1 }),
            ds == (if fast0 { d1 } else { d0 }),
            ts <= ds,
            applied(c0, c@, *lc, a@, *la, b@, *lb, *f, tiled_before(fast0, ts as int, ts as int, 0, 0, ts as int, 0)),
        decreases ds - ts,
    {
        let se: usize = if ds - ts > TILE { ts + TILE } else { ds };
        proof {
            lemma_region_ext(c0, c@, *lc, a@, *la, b@, *lb, *f,
                tiled_before(fast0, ts as int, ts as int, 0, 0, ts as int, 0),
                tiled_before(fast0, ts as int, se as int, 0, 0, ts as int, 0));
        }
        let mut tf: usize = 0;
        while tf < df
            invariant
                walk_inputs_ok(c0.len() as int, *lc, a@.len() as int, *la, b@.len() as int, *lb, *f),
                d0 == lc.shape[0],
                d1 == lc.shape[1],
                df == (if fast0 { d0 } else { d1 }),
                ds == (if fast0 { d1 } else { d0 }),
                ts < se <= ds,
                tf <= df,
                applied(c0, c@, *lc, a@, *la, b@, *lb, *f, tiled_before(fast0, ts as int, se as int, tf as int, tf as int, ts as int, tf as int)),
            decreases df - tf,
        {
            let fe: usize = if df - tf > TILE { tf + TILE } else { df };
            proof {
                lemma_region_ext(c0, c@, *lc, a@, *la, b@, *lb, *f,
                    tiled_before(fast0, ts as int, se as int, tf as int, tf as int, ts as int, tf as int),
                    tiled_before(fast0, ts as int, se as int, tf as int, fe as int, ts as int, tf as int));
            }
            let mut s: usize = ts;
            while s < se
                invariant
                    walk_inputs_ok(c0.len() as int, *lc, a@.len() as int, *la, b@.len() as int, *lb, *f),
                    d0 == lc.shape[0],
                    d1 == lc.shape[1],
                    df == (if fast0 { d0 } else { d1 }),
                    ds == (if fast0 { d1 } else { d0 }),
                    ts <= s <= se,
                    se <= ds,
                    tf < fe <= df,
                    applied(c0, c@, *lc, a@, *la, b@, *lb, *f, tiled_before(fast0, ts as int, se as int, tf as int, fe as int, s as int, tf as int)),
                decreases se - s,
            {
                let mut fp: usize = tf;
                while fp < fe
                    invariant
                        walk_inputs_ok(c0.len() as int, *lc, a@.len() as int, *la, b@.len() as int, *lb, *f),
                        d0 == lc.shape[0],
                        d1 == lc.shape[1],
                        df == (if fast0 { d0 } else { d1 }),
                        ds == (if fast0 { d1 } else { d0 }),
                        ts <= s < se,
                        se <= ds,
                        tf <= fp <= fe,
                        fe <= df,
                        applied(c0, c@, *lc, a@, *la, b@, *lb, *f, tiled_before(fast0, ts as int, se as int, tf as int, fe as int, s as int, fp as int)),
                    decreases fe - fp,
                {
                    let i: usize = if fast0 { fp } else { s };
                    let j: usize = if fast0 { s } else { fp };
                    proof {
                        assert(lc.in_shape(i as int, j as int));
                        assert(la.in_shape(i as int, j as int));
                        assert(lb.in_shape(i as int, j as int));
                    }
                    let ic = lc.index_of(i, j);
                    let ia = la.index_of(i, j);
                    let ib = lb.index_of(i, j);
                    let v = f(a[ia], b[ib]);
                    let ghost c1 = c@;
                    c[ic] = v;
                    proof {
                        lemma_apply_step(c0, c1, *lc, a@, *la, b@, *lb, *f,
                            tiled_before(fast0, ts as int, se as int, tf as int, fe as int, s as int, fp as int),
                            tiled_before(fast0, ts as int, se as int, tf as int, fe as int, s as int, fp + 1),
                            i as int, j as int, v);
                    }
                    fp = fp + 1;
                }
                proof {
                    lemma_region_ext(c0, c@, *lc, a@, *la, b@, *lb, *f,
                        tiled_before(fast0, ts as int, se as int, tf as int, fe as int, s as int, fe as int),
                        tiled_before(fast0, ts as int, se as int, tf as int, fe as int, s + 1, tf as int));
                }
                s = s + 1;
            }
            proof {
                lemma_region_ext(c0, c@, *lc, a@, *la, b@, *lb, *f,
                    tiled_before(fast0, ts as int, se as int, tf as int, fe as int, se as int, tf as int),
                    tiled_before(fast0, ts as int, se as int, fe as int, fe as int, ts as int, fe as int));
            }
            tf = fe;
        }
        proof {
            lemma_region_ext(c0, c@, *lc, a@, *la, b@, *lb, *f,
                tiled_before(fast0, ts as int, se as int, tf as int, tf as int, ts as int, tf as int),
                tiled_before(fast0, se as int, se as int, 0, 0, se as int, 0));
        }
        ts = se;
    }
    proof {
        lemma_region_ext(c0, c@, *lc, a@, *la, b@, *lb, *f,
            tiled_before(fast0, ts as int, ts as int, 0, 0, ts as int, 0), everywhere());
    }
}

/// With `lc` injective, the position of an element that the walk has not
/// reached yet still holds its first value.
pub proof fn lemma_not_yet_written<TA, TB, TC, F: Fn(TA, TB) -> TC>(
    c0: Seq<TC>,
    c: Seq<TC>,
    lc: Layout2,
    a: Seq<TA>,
    la: Layout2,
    b: Seq<TB>,
    lb: Layout2,
    f: F,
    r: spec_fn(int, int) -> bool,
    i0: int,
    j0: int,
)
    requires
        applied(c0, c, lc, a, la, b, lb, f, r),
        lc.fits(c.len() as int),
        lc.in_shape(i0, j0),
        !r(i0, j0),
    ensures
        lc.injective() ==> c[lc.spec_index(i0, j0)] == c0[lc.spec_index(i0, j0)],
{
    let p = lc.spec_index(i0, j0);
    if lc.injective() && hit_by(lc, r, p) {
        let (i, j) = choose|i: int, j: int| lc.in_shape(i, j) && r(i, j) && #[trigger] lc.spec_index(i, j) == p;
        assert(i == i0 && j == j0);
    }
}

/// In-place column-major walk: `c[lc(i, j)] = f(c[lc(i, j)], b[lb(i, j)])`.
fn walk_col_major_inplace<TA: Copy, TB: Copy, F: Fn(TA, TB) -> TA>(
    c: &mut Vec<TA>,
    lc: &Layout2,
    b: &[TB],
    lb: &Layout2,
    f: &F,
)
    requires
        lc.fits(old(c)@.len() as int),
        lb.fits(b@.len() as int),
        lb.shape == lc.shape,
        forall|x: TA, y: TB| f.requires((x, y)),
    ensures
        applied(old(c)@, final(c)@, *lc, old(c)@, *lc, b@, *lb, *f, everywhere()),
{
    let ghost c0 = c@;
    proof {
        assert(c0.len() == c.len() && b@.len() == b.len());
        lemma_fits_mono(*lc, c0.len() as int, usize::MAX as int + 1);
        lemma_fits_mono(*lb, b@.len() as int, usize::MAX as int + 1);
        lemma_applied_start(c0, *lc, c0, *lc, b@, *lb, *f, col_major_before(0, 0));
    }
    let d0 = lc.shape[0];
    let d1 = lc.shape[1];
    let mut j: usize = 0;
    while j < d1
        invariant
            walk_inputs_ok(c0.len() as int, *lc, c0.len() as int, *lc, b@.len() as int, *lb, *f),
            d0 == lc.shape[0],
            d1 == lc.shape[1],
            j <= d1,
            applied(c0, c@, *lc, c0, *lc, b@, *lb, *f, col_major_before(0, j as int)),
        decreases d1 - j,
    {
        let mut i: usize = 0;
        while i < d0
            invariant
                walk_inputs_ok(c0.len() as int, *lc, c0.len() as int, *lc, b@.len() as int, *lb, *f),
                d0 == lc.shape[0],
                d1 == lc.shape[1],
                j < d1,
                i <= d0,
                applied(c0, c@, *lc, c0, *lc, b@, *lb, *f, col_major_before(i as int, j as int)),
            decreases d0 - i,
        {
            let ic = lc.index_of(i, j);
            let ib = lb.index_of(i, j);
            proof {
                assert(lc.in_shape(i as int, j as int));
                assert(lb.in_shape(i as int, j as int));
            }
            let v = f(c[ic], b[ib]);
            let ghost c1 = c@;
            proof {
                lemma_not_yet_written(c0, c1, *lc, c0, *lc, b@, *lb, *f, col_major_before(i as int, j as int), i as int, j as int);
            }
            c[ic] = v;
            proof {
                lemma_apply_step(
                    c0,
                    c1,
                    *lc,
                    c0,
                    *lc,
                    b@,
                    *lb,
                    *f,
                    col_major_before(i as int, j as int),
                    col_major_before(i + 1, j as int),
                    i as int,
                    j as int,
                    v,
                );
            }
            i = i + 1;
        }
        proof {
            lemma_region_ext(
                c0,
                c@,
                *lc,
                c0,
                *lc,
                b@,
                *lb,
                *f,
                col_major_before(d0 as int, j as int),
                col_major_before(0, j + 1),
            );
        }
        j = j + 1;
    }
    proof {
        lemma_region_ext(c0, c@, *lc, c0, *lc, b@, *lb, *f, col_major_before(0, d1 as int), everywhere());
    }
}

/// In-place tiled walk: `c[lc(i, j)] = f(c[lc(i, j)], b[lb(i, j)])`, tiles as
/// in [`walk_tiled`].
fn walk_tiled_inplace<TA: Copy, TB: Copy, F: Fn(TA, TB) -> TA>(
    c: &mut Vec<TA>,
    lc: &Layout2,
    b: &[TB],
    lb: &Layout2,
    f: &F,
)
    requires
        lc.fits(old(c)@.len() as int),
        lb.fits(b@.len() as int),
        lb.shape == lc.shape,
        forall|x: TA, y: TB| f.requires((x, y)),
    ensures
        applied(old(c)@, final(c)@, *lc, old(c)@, *lc, b@, *lb, *f, everywhere()),
{
    let ghost c0 = c@;
    proof {
        assert(c0.len() == c.len() && b@.len() == b.len());
        lemma_fits_mono(*lc, c0.len() as int, usize::MAX as int + 1);
        lemma_fits_mono(*lb, b@.len() as int, usize::MAX as int + 1);
    }
    let d0 = lc.shape[0];
    let d1 = lc.shape[1];
    let fast0 = abs_le(lc.stride[0], lc.stride[1]);
    let df: usize = if fast0 { d0 } else { d1 };
    let ds: usize = if fast0 { d1 } else { d0 };
    proof {
        lemma_applied_start(c0, *lc, c0, *lc, b@, *lb, *f, tiled_before(fast0, 0, 0, 0, 0, 0, 0));
    }
    let mut ts: usize = 0;
    while ts < ds
        invariant
            walk_inputs_ok(c0.len() as int, *lc, c0.len() as int, *lc, b@.len() as int, *lb, *f),
            d0 == lc.shape[0],
            d1 == lc.shape[1],
            df == (if fast0 { d0 } else { d1 }),
            ds == (if fast0 { d1 } else { d0 }),
            ts <= ds,
            applied(c0, c@, *lc, c0, *lc, b@, *lb, *f, tiled_before(fast0, ts as int, ts as int, 0, 0, ts as int, 0)),
        decreases ds - ts,
    {
        let se: usize = if ds - ts > TILE { ts + TILE } else { ds };
        proof {
            lemma_region_ext(c0, c@, *lc, c0, *lc, b@, *lb, *f,
                tiled_before(fast0, ts as int, ts as int, 0, 0, ts as int, 0),
                tiled_before(fast0, ts as int, se as int, 0, 0, ts as int, 0));
        }
        let mut tf: usize = 0;
        while tf < df
            invariant
                walk_inputs_ok(c0.len() as int, *lc, c0.len() as int, *lc, b@.len() as int, *lb, *f),
                d0 == lc.shape[0],
                d1 == lc.shape[1],
                df == (if fast0 { d0 } else { d1 }),
                ds == (if fast0 { d1 } else { d0 }),
                ts < se <= ds,
                tf <= df,
                applied(c0, c@, *lc, c0, *lc, b@, *lb, *f, tiled_before(fast0, ts as int, se as int, tf as int, tf as int, ts as int, tf as int)),
            decreases df - tf,
        {
            let fe: usize = if df - tf > TILE { tf + TILE } else { df };
            proof {
                lemma_region_ext(c0, c@, *lc, c0, *lc, b@, *lb, *f,
                    tiled_before(fast0, ts as int, se as int, tf as int, tf as int, ts as int, tf as int),
                    tiled_before(fast0, ts as int, se as int, tf as int, fe as int, ts as int, tf as int));
            }
            let mut s: usize = ts;
            while s < se
                invariant
                    walk_inputs_ok(c0.len() as int, *lc, c0.len() as int, *lc, b@.len() as int, *lb, *f),
                    d0 == lc.shape[0],
                    d1 == lc.shape[1],
                    df == (if fast0 { d0 } else { d1 }),
                    ds == (if fast0 { d1 } else { d0 }),
                    ts <= s <= se,
                    se <= ds,
                    tf < fe <= df,
                    applied(c0, c@, *lc, c0, *lc, b@, *lb, *f, tiled_before(fast0, ts as int, se as int, tf as int, fe as int, s as int, tf as int)),
                decreases se - s,
            {
                let mut fp: usize = tf;
                while fp < fe
                    invariant
                        walk_inputs_ok(c0.len() as int, *lc, c0.len() as int, *lc, b@.len() as int, *lb, *f),
                        d0 == lc.shape[0],
                        d1 == lc.shape[1],
                        df == (if fast0 { d0 } else { d1 }),
                        ds == (if fast0 { d1 } else { d0 }),
                        ts <= s < se,
                        se <= ds,
                        tf <= fp <= fe,
                        fe <= df,
                        applied(c0, c@, *lc, c0, *lc, b@, *lb, *f, tiled_before(fast0, ts as int, se as int, tf as int, fe as int, s as int, fp as int)),
                    decreases fe - fp,
                {
                    let i: usize = if fast0 { fp } else { s };
                    let j: usize = if fast0 { s } else { fp };
                    proof {
                        assert(lc.in_shape(i as int, j as int));
                                assert(lb.in_shape(i as int, j as int));
                    }
                    let ic = lc.index_of(i, j);
                            let ib = lb.index_of(i, j);
                    let v = f(c[ic], b[ib]);
                    let ghost c1 = c@;
            proof {
                lemma_not_yet_written(c0, c1, *lc, c0, *lc, b@, *lb, *f, tiled_before(fast0, ts as int, se as int, tf as int, fe as int, s as int, fp as int), i as int, j as int);
            }
                    c[ic] = v;
                    proof {
                        lemma_apply_step(c0, c1, *lc, c0, *lc, b@, *lb, *f,
                            tiled_before(fast0, ts as int, se as int, tf as int, fe as int, s as int, fp as int),
                            tiled_before(fast0, ts as int, se as int, tf as int, fe as int, s as int, fp + 1),
                            i as int, j as int, v);
                    }
                    fp = fp + 1;
                }
                proof {
                    lemma_region_ext(c0, c@, *lc, c0, *lc, b@, *lb, *f,
                        tiled_before(fast0, ts as int, se as int, tf as int, fe as int, s as int, fe as int),
                        tiled_before(fast0, ts as int, se as int, tf as int, fe as int, s + 1, tf as int));
                }
                s = s + 1;
            }
            proof {
                lemma_region_ext(c0, c@, *lc, c0, *lc, b@, *lb, *f,
                    tiled_before(fast0, ts as int, se as int, tf as int, fe as int, se as int, tf as int),
                    tiled_before(fast0, ts as int, se as int, fe as int, fe as int, ts as int, fe as int));
            }
            tf = fe;
        }
        proof {
            lemma_region_ext(c0, c@, *lc, c0, *lc, b@, *lb, *f,
                tiled_before(fast0, ts as int, se as int, tf as int, tf as int, ts as int, tf as int),
                tiled_before(fast0, se as int, se as int, 0, 0, se as int, 0));
        }
        ts = se;
    }
    proof {
        lemma_region_ext(c0, c@, *lc, c0, *lc, b@, *lb, *f,
            tiled_before(fast0, ts as int, ts as int, 0, 0, ts as int, 0), everywhere());
    }
}

/// Whether a problem of shape `d0 x d1` has at least `TILE_SWITCH` elements.
fn large_enough(d0: usize, d1: usize) -> (r: bool)
    ensures
        r == (d0 * d1 >= TILE_SWITCH),
{
    proof {
        assert(d0 * d1 <= 0xffff_ffff_ffff_ffffint * 0xffff_ffff_ffff_ffffint) by (nonlinear_arith)
            requires
                d0 <= 0xffff_ffff_ffff_ffffint,
                d1 <= 0xffff_ffff_ffff_ffffint,
        ;
    }
    (d0 as u128) * (d1 as u128) >= TILE_SWITCH as u128
}

/// Elementwise kernel `c[lc(i, j)] = f(a[la(i, j)], b[lb(i, j)])` over every
/// element `(i, j)` of the shape.
///
/// Fails, leaving `c` alone, when the three layouts do not share one shape
/// (`ShapeMismatch`), or when some element of a layout lies outside its
/// buffer (`OutOfBounds`). Problems of at least `TILE_SWITCH` elements whose
/// layouts have no broadcast axis take the tiled walk, the rest the
/// column-major walk; either way, when `lc` maps no two elements to one
/// position, every element of `c` holds `f` of its own inputs, and the
/// positions of `c` that `lc` does not reach keep their values.
pub fn op_mutc_refa_refb_func<TA: Copy, TB: Copy, TC, F: Fn(TA, TB) -> TC>(
    c: &mut Vec<TC>,
    lc: &Layout2,
    a: &[TA],
    la: &Layout2,
    b: &[TB],
    lb: &Layout2,
    f: F,
) -> (r: Result<(), LayoutError>)
    requires
        forall|x: TA, y: TB| f.requires((x, y)),
    ensures
        (r == Err::<(), LayoutError>(LayoutError::ShapeMismatch)) <==> !(la.shape == lc.shape
            && lb.shape == lc.shape),
        (r == Err::<(), LayoutError>(LayoutError::OutOfBounds)) <==> (la.shape == lc.shape
            && lb.shape == lc.shape && !(lc.fits(old(c)@.len() as int) && la.fits(a@.len() as int)
            && lb.fits(b@.len() as int))),
        r is Err ==> final(c)@ == old(c)@,
        r is Ok ==> applied(old(c)@, final(c)@, *lc, a@, *la, b@, *lb, f, everywhere()),
{
    if !(la.shape[0] == lc.shape[0] && la.shape[1] == lc.shape[1] && lb.shape[0] == lc.shape[0]
        && lb.shape[1] == lc.shape[1]) {
        proof {
            if la.shape == lc.shape && lb.shape == lc.shape {
                assert(la.shape[0] == lc.shape[0]);
            }
        }
        return Err(LayoutError::ShapeMismatch);
    }
    proof {
        assert(la.shape =~= lc.shape);
        assert(lb.shape =~= lc.shape);
    }
    if !(lc.fits_in(c.len() as u128) && la.fits_in(a.len() as u128) && lb.fits_in(b.len() as u128)) {
        return Err(LayoutError::OutOfBounds);
    }
    if large_enough(lc.shape[0], lc.shape[1]) && !lc.broadcast_axis() && !la.broadcast_axis()
        && !lb.broadcast_axis() {
        walk_tiled(c, lc, a, la, b, lb, &f);
    } else {
        walk_col_major(c, lc, a, la, b, lb, &f);
    }
    Ok(())
}

/// In-place elementwise kernel `a[la(i, j)] = f(a[la(i, j)], b[lb(i, j)])`
/// over every element `(i, j)` of the shape.
///
/// Fails, leaving `a` alone, when the layouts do not share one shape
/// (`ShapeMismatch`) or when some element lies outside its buffer
/// (`OutOfBounds`). When `la` maps no two elements to one position, every
/// element of `a` holds `f` of its first value and its element of `b`; the
/// positions of `a` that `la` does not reach keep their values.
pub fn op_muta_refb_func<TA: Copy, TB: Copy, F: Fn(TA, TB) -> TA>(
    a: &mut Vec<TA>,
    la: &Layout2,
    b: &[TB],
    lb: &Layout2,
    f: F,
) -> (r: Result<(), LayoutError>)
    requires
        forall|x: TA, y: TB| f.requires((x, y)),
    ensures
        (r == Err::<(), LayoutError>(LayoutError::ShapeMismatch)) <==> !(lb.shape == la.shape),
        (r == Err::<(), LayoutError>(LayoutError::OutOfBounds)) <==> (lb.shape == la.shape && !(
        la.fits(old(a)@.len() as int) && lb.fits(b@.len() as int))),
        r is Err ==> final(a)@ == old(a)@,
        r is Ok ==> applied(old(a)@, final(a)@, *la, old(a)@, *la, b@, *lb, f, everywhere()),
{
    if !(lb.shape[0] == la.shape[0] && lb.shape[1] == la.shape[1]) {
        proof {
            if lb.shape == la.shape {
                assert(lb.shape[0] == la.shape[0]);
            }
        }
        return Err(LayoutError::ShapeMismatch);
    }
    proof {
        assert(lb.shape =~= la.shape);
    }
    if !(la.fits_in(a.len() as u128) && lb.fits_in(b.len() as u128)) {
        return Err(LayoutError::OutOfBounds);
    }
    if large_enough(la.shape[0], la.shape[1]) && !la.broadcast_axis() && !lb.broadcast_axis() {
        walk_tiled_inplace(a, la, b, lb, &f);
    } else {
        walk_col_major_inplace(a, la, b, lb, &f);
    }
    Ok(())
}

/// `f` gives one result per input pair.
pub open spec fn deterministic<TA, TB, TC, F: Fn(TA, TB) -> TC>(f: F) -> bool {
    forall|x: TA, y: TB, r1: TC, r2: TC|
        #[trigger] f.ensures((x, y), r1) && #[trigger] f.ensures((x, y), r2) ==> r1 == r2
}

/// The visit order does not matter: for a deterministic `f` and an output
/// layout that maps no two elements to one position, any two complete walks
/// from the same buffer leave the same buffer (so the tiled and the
/// column-major walk agree).
pub proof fn law_walk_order_irrelevant<TA, TB, TC, F: Fn(TA, TB) -> TC>(
    c0: Seq<TC>,
    c1: Seq<TC>,
    c2: Seq<TC>,
    lc: Layout2,
    a: Seq<TA>,
    la: Layout2,
    b: Seq<TB>,
    lb: Layout2,
    f: F,
)
    requires
        lc.injective(),
        deterministic(f),
        applied(c0, c1, lc, a, la, b, lb, f, everywhere()),
        applied(c0, c2, lc, a, la, b, lb, f, everywhere()),
    ensures
        c1 == c2,
{
    assert forall|p: int| 0 <= p < c1.len() implies #[trigger] c1[p] == c2[p] by {
        if hit_by(lc, everywhere(), p) {
            let (i, j) = choose|i: int, j: int|
                lc.in_shape(i, j) && everywhere()(i, j) && #[trigger] lc.spec_index(i, j) == p;
            assert(f.ensures((a[la.spec_index(i, j)], b[lb.spec_index(i, j)]), c1[lc.spec_index(i, j)]));
            assert(f.ensures((a[la.spec_index(i, j)], b[lb.spec_index(i, j)]), c2[lc.spec_index(i, j)]));
        }
    }
    assert(c1 =~= c2);
}

} // verus!
