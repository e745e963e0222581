//! 2-D strided layouts: a shape, a signed stride per axis and an offset into
//! a flat buffer.

use vstd::prelude::*;

verus! {

/// Why an elementwise kernel or a layout walk refused its layouts.
#[derive(Clone, Copy, Debug, PartialEq, Eq, Structural)]
pub enum LayoutError {
    /// The layouts do not share one shape.
    ShapeMismatch,
    /// Some element of a layout lies outside its buffer (or below 0).
    OutOfBounds,
}

/// A 2-D strided layout: element `(i, j)` lives at
/// `offset + i * stride[0] + j * stride[1]` of the buffer.
#[derive(Clone, Copy, Debug)]
pub struct Layout2 {
    pub shape: [usize; 2],
    pub stride: [isize; 2],
    pub offset: usize,
}

/// Smallest of `0` and `x`.
pub open spec fn neg_part(x: int) -> int {
    if x < 0 { x } else { 0 }
}

/// Largest of `0` and `x`.
pub open spec fn pos_part(x: int) -> int {
    if x > 0 { x } else { 0 }
}

impl Layout2 {
    pub open spec fn dim0(self) -> int {
        self.shape[0] as int
    }

    pub open spec fn dim1(self) -> int {
        self.shape[1] as int
    }

    /// Number of elements.
    pub open spec fn size(self) -> int {
        self.dim0() * self.dim1()
    }

    pub open spec fn in_shape(self, i: int, j: int) -> bool {
        0 <= i < self.dim0() && 0 <= j < self.dim1()
    }

    /// Buffer position of element `(i, j)`.
    pub open spec fn spec_index(self, i: int, j: int) -> int {
        self.offset + i * self.stride[0] + j * self.stride[1]
    }

    /// Every element lies in `[0, len)`.
    pub open spec fn fits(self, len: int) -> bool {
        forall|i: int, j: int| #[trigger]
            self.in_shape(i, j) ==> 0 <= self.spec_index(i, j) < len
    }

    /// No two elements share a buffer position.
    pub open spec fn injective(self) -> bool {
        forall|i1: int, j1: int, i2: int, j2: int|
            self.in_shape(i1, j1) && self.in_shape(i2, j2) && #[trigger] self.spec_index(i1, j1)
                == #[trigger] self.spec_index(i2, j2) ==> i1 == i2 && j1 == j2
    }

    /// Lowest buffer position of a non-empty layout.
    pub open spec fn min_index(self) -> int {
        self.offset + neg_part((self.dim0() - 1) * self.stride[0]) + neg_part(
            (self.dim1() - 1) * self.stride[1],
        )
    }

    /// Highest buffer position of a non-empty layout.
    pub open spec fn max_index(self) -> int {
        self.offset + pos_part((self.dim0() - 1) * self.stride[0]) + pos_part(
            (self.dim1() - 1) * self.stride[1],
        )
    }

    /// Whether an axis is broadcast: more than one element and stride 0.
    pub open spec fn has_broadcast_axis(self) -> bool {
        (self.shape[0] > 1 && self.stride[0] == 0) || (self.shape[1] > 1 && self.stride[1] == 0)
    }

    /// A layout of the given parts; nothing is checked here (the kernels
    /// check the bounds against their buffers).
    pub fn new(shape: [usize; 2], stride: [isize; 2], offset: usize) -> (r: Layout2)
        ensures
            r.shape == shape,
            r.stride == stride,
            r.offset == offset,
    {
        Layout2 { shape, stride, offset }
    }

    /// Whether some axis is broadcast.
    pub fn broadcast_axis(&self) -> (r: bool)
        ensures
            r == self.has_broadcast_axis(),
    {
        (self.shape[0] > 1 && self.stride[0] == 0) || (self.shape[1] > 1 && self.stride[1] == 0)
    }

    /// Whether every element lies in `[0, len)`.
    pub fn fits_in(&self, len: u128) -> (r: bool)
        requires
            len <= usize::MAX as int + 1,
        ensures
            r == self.fits(len as int),
    {
        let d0 = self.shape[0];
        let d1 = self.shape[1];
        if d0 == 0 || d1 == 0 {
            proof {
                assert forall|i: int, j: int| #[trigger] self.in_shape(i, j) implies 0 <= self.spec_index(i, j) < len by {}
            }
            return true;
        }
        proof {
            lemma_fits_iff_bounds(*self, len as int);
            lemma_term_bounds(d0 as int, self.stride[0] as int);
            lemma_term_bounds(d1 as int, self.stride[1] as int);
        }
        let t0: i128 = (d0 - 1) as i128 * self.stride[0] as i128;
        let t1: i128 = (d1 - 1) as i128 * self.stride[1] as i128;
        let n0: i128 = if t0 < 0 { t0 } else { 0 };
        let n1: i128 = if t1 < 0 { t1 } else { 0 };
        let p0: i128 = if t0 > 0 { t0 } else { 0 };
        let p1: i128 = if t1 > 0 { t1 } else { 0 };
        let lo: i128 = self.offset as i128 + n0;
        if lo < 0 {
            return false;
        }
        let lo: i128 = lo + n1;
        if lo < 0 {
            return false;
        }
        let hi: i128 = self.offset as i128 + p0;
        if hi as u128 >= len {
            return false;
        }
        let hi: i128 = hi + p1;
        (hi as u128) < len
    }

    /// Buffer position of element `(i, j)` of a layout that fits in `usize`.
    pub fn index_of(&self, i: usize, j: usize) -> (r: usize)
        requires
            self.fits(usize::MAX as int + 1),
            self.in_shape(i as int, j as int),
        ensures
            r as int == self.spec_index(i as int, j as int),
    {
        proof {
            assert(self.in_shape(0, 0));
            assert(self.in_shape(i as int, 0));
            assert(self.in_shape(0, j as int));
            assert(0 <= self.spec_index(i as int, 0) <= usize::MAX);
            assert(0 <= self.spec_index(0, j as int) <= usize::MAX);
            assert(0 <= self.spec_index(0, 0) <= usize::MAX);
        }
        let a: i128 = i as i128 * self.stride[0] as i128;
        let b: i128 = j as i128 * self.stride[1] as i128;
        let r: i128 = self.offset as i128 + a + b;
        r as usize
    }

    /// Buffer positions of all elements in column-major order (axis 0
    /// fastest): position `j * shape[0] + i` holds element `(i, j)`.
    /// Fails when some element lies below 0 or beyond `usize::MAX`.
    pub fn col_major_offsets(&self) -> (r: Result<Vec<usize>, LayoutError>)
        ensures
            r is Ok <==> self.fits(usize::MAX as int + 1),
            r is Err ==> r == Err::<Vec<usize>, LayoutError>(LayoutError::OutOfBounds),
            r matches Ok(v) ==> v@.len() == self.size() && forall|i: int, j: int| #[trigger]
                self.in_shape(i, j) ==> v@[j * self.dim0() + i] == self.spec_index(i, j),
    {
        if !self.fits_in(usize::MAX as u128 + 1) {
            return Err(LayoutError::OutOfBounds);
        }
        let d0 = self.shape[0];
        let d1 = self.shape[1];
        let mut v: Vec<usize> = Vec::new();
        let mut j: usize = 0;
        while j < d1
            invariant
                self.fits(usize::MAX as int + 1),
                d0 == self.shape[0],
                d1 == self.shape[1],
                j <= d1,
                v@.len() == j * d0,
                forall|ii: int, jj: int| #[trigger]
                    self.in_shape(ii, jj) && jj < j ==> v@[jj * d0 + ii] == self.spec_index(ii, jj),
            decreases d1 - j,
        {
            let mut i: usize = 0;
            while i < d0
                invariant
                    self.fits(usize::MAX as int + 1),
                    d0 == self.shape[0],
                    d1 == self.shape[1],
                    j < d1,
                    i <= d0,
                    v@.len() == j * d0 + i,
                    forall|ii: int, jj: int| #[trigger]
                        self.in_shape(ii, jj) && (jj < j || (jj == j && ii < i)) ==> v@[jj * d0
                            + ii] == self.spec_index(ii, jj),
                decreases d0 - i,
            {
                let k = self.index_of(i, j);
                v.push(k);
                proof {
                    assert forall|ii: int, jj: int| #[trigger]
                        self.in_shape(ii, jj) && (jj < j || (jj == j && ii < i + 1)) implies v@[jj
                        * d0 + ii] == self.spec_index(ii, jj) by {
                        lemma_col_major_pos(d0 as int, ii, jj, i as int, j as int);
                    }
                }
                i = i + 1;
            }
            proof {
                assert((j + 1) * d0 == j * d0 + d0) by (nonlinear_arith);
            }
            j = j + 1;
        }
        proof {
            assert(j * d0 == d0 * d1) by (nonlinear_arith)
                requires
                    j == d1,
            ;
            assert forall|i: int, j: int| #[trigger] self.in_shape(i, j) implies v@[j * self.dim0()
                + i] == self.spec_index(i, j) by {}
        }
        Ok(v)
    }
}

/// Position `jj * d0 + ii` lies before position `j * d0 + i` when `(ii, jj)`
/// comes first in column-major order, and equals it only for the same pair.
pub proof fn lemma_col_major_pos(d0: int, ii: int, jj: int, i: int, j: int)
    requires
        0 <= ii < d0,
        0 <= i < d0,
        0 <= jj,
        0 <= j,
    ensures
        (jj < j || (jj == j && ii < i)) ==> jj * d0 + ii < j * d0 + i,
        (jj == j && ii == i) ==> jj * d0 + ii == j * d0 + i,
{
    if jj < j {
        assert(jj * d0 + d0 <= j * d0) by (nonlinear_arith)
            requires
                jj < j,
                0 < d0,
        ;
    }
}

/// `i * s` stays between the negative and the positive part of `(d - 1) * s`
/// for `0 <= i < d`, and that product is small enough for `i128`.
pub proof fn lemma_term_bounds(d: int, s: int)
    requires
        1 <= d <= usize::MAX,
        isize::MIN <= s <= isize::MAX,
    ensures
        forall|i: int|
            0 <= i < d ==> neg_part((d - 1) * s) <= #[trigger] (i * s) <= pos_part((d - 1) * s),
        -0x7fff_ffff_ffff_ffff_0000_0000_0000_0000int <= (d - 1) * s
            <= 0x7fff_ffff_ffff_ffff_0000_0000_0000_0000int,
        s >= 0 ==> (d - 1) * s >= 0,
        s <= 0 ==> (d - 1) * s <= 0,
{
    assert forall|i: int| 0 <= i < d implies neg_part((d - 1) * s) <= #[trigger] (i * s)
        <= pos_part((d - 1) * s) by {
        if s >= 0 {
            assert(0 <= i * s <= (d - 1) * s) by (nonlinear_arith)
                requires
                    0 <= i < d,
                    s >= 0,
            ;
        } else {
            assert((d - 1) * s <= i * s <= 0) by (nonlinear_arith)
                requires
                    0 <= i < d,
                    s < 0,
            ;
        }
    }
    if s >= 0 {
        assert((d - 1) * s <= (d - 1) * 0x8000_0000_0000_0000int) by (nonlinear_arith)
            requires
                d >= 1,
                0 <= s <= 0x8000_0000_0000_0000int,
        ;
        assert(0 <= (d - 1) * s) by (nonlinear_arith)
            requires
                d >= 1,
                s >= 0,
        ;
    } else {
        assert((d - 1) * s >= (d - 1) * (-0x8000_0000_0000_0000int)) by (nonlinear_arith)
            requires
                d >= 1,
                -0x8000_0000_0000_0000int <= s < 0,
        ;
        assert((d - 1) * s <= 0) by (nonlinear_arith)
            requires
                d >= 1,
                s < 0,
        ;
    }
}

/// A non-empty layout fits in `[0, len)` exactly when its lowest position is
/// at least 0 and its highest below `len`.
pub proof fn lemma_fits_iff_bounds(l: Layout2, len: int)
    requires
        l.dim0() >= 1,
        l.dim1() >= 1,
    ensures
        l.fits(len) <==> (l.min_index() >= 0 && l.max_index() < len),
{
    let d0 = l.dim0();
    let d1 = l.dim1();
    lemma_term_bounds(d0, l.stride[0] as int);
    lemma_term_bounds(d1, l.stride[1] as int);
    let imin = if l.stride[0] < 0 { d0 - 1 } else { 0 };
    let jmin = if l.stride[1] < 0 { d1 - 1 } else { 0 };
    let imax = if l.stride[0] > 0 { d0 - 1 } else { 0 };
    let jmax = if l.stride[1] > 0 { d1 - 1 } else { 0 };
    assert(imin * l.stride[0] == neg_part((d0 - 1) * l.stride[0]));
    assert(jmin * l.stride[1] == neg_part((d1 - 1) * l.stride[1]));
    assert(imax * l.stride[0] == pos_part((d0 - 1) * l.stride[0]));
    assert(jmax * l.stride[1] == pos_part((d1 - 1) * l.stride[1]));
    assert(l.spec_index(imin, jmin) == l.min_index());
    assert(l.spec_index(imax, jmax) == l.max_index());
    assert(l.in_shape(imin, jmin));
    assert(l.in_shape(imax, jmax));
    if l.min_index() >= 0 && l.max_index() < len {
        assert forall|i: int, j: int| #[trigger] l.in_shape(i, j) implies 0 <= l.spec_index(i, j)
            < len by {
            assert(neg_part((d0 - 1) * l.stride[0]) <= i * l.stride[0]);
            assert(neg_part((d1 - 1) * l.stride[1]) <= j * l.stride[1]);
            assert(i * l.stride[0] <= pos_part((d0 - 1) * l.stride[0]));
            assert(j * l.stride[1] <= pos_part((d1 - 1) * l.stride[1]));
        }
    }
}

/// Fitting in a buffer means fitting in any longer one.
pub proof fn lemma_fits_mono(l: Layout2, len1: int, len2: int)
    requires
        l.fits(len1),
        len1 <= len2,
    ensures
        l.fits(len2),
{
    assert forall|i: int, j: int| #[trigger] l.in_shape(i, j) implies 0 <= l.spec_index(i, j)
        < len2 by {}
}

pub open spec fn abs_stride(s: isize) -> int {
    if s < 0 { -(s as int) } else { s as int }
}

/// The stride test of a valid layout: an axis of more than one element has
/// a non-zero stride, and one axis spans less than the other axis' stride.
pub open spec fn strides_separate(l: Layout2) -> bool {
    &&& (l.dim0() <= 1 || l.stride[0] != 0)
    &&& (l.dim1() <= 1 || l.stride[1] != 0)
    &&& (abs_stride(l.stride[0]) * (l.dim0() - 1) < abs_stride(l.stride[1]) || abs_stride(
        l.stride[1],
    ) * (l.dim1() - 1) < abs_stride(l.stride[0]))
}

/// `|k * s| <= (d - 1) * |s|` for `|k| < d`, and `|k * s| >= |s|` for
/// `k != 0`.
proof fn lemma_span(k: int, d: int, s: int, a: int)
    requires
        -d < k < d,
        d >= 1,
        a == (if s < 0 { -s } else { s }),
    ensures
        -(a * (d - 1)) <= k * s <= a * (d - 1),
        k != 0 ==> (k * s >= a || k * s <= -a),
        k * s == 0 ==> k == 0 || s == 0,
        k == 0 ==> k * s == 0,
{
    assert(-(a * (d - 1)) <= k * s <= a * (d - 1)) by (nonlinear_arith)
        requires
            -d < k < d,
            d >= 1,
            a == (if s < 0 { -s } else { s }),
    ;
    assert(k != 0 ==> (k * s >= a || k * s <= -a)) by (nonlinear_arith)
        requires
            a == (if s < 0 { -s } else { s }),
    ;
    assert(k * s == 0 ==> k == 0 || s == 0) by (nonlinear_arith);
    assert(k == 0 ==> k * s == 0) by (nonlinear_arith);
}

/// A layout that passes the stride test maps no two elements to one
/// position: the kernels' full contracts apply to it.
pub proof fn law_separate_strides_are_injective(l: Layout2)
    requires
        strides_separate(l),
    ensures
        l.injective(),
{
    assert forall|i1: int, j1: int, i2: int, j2: int|
        l.in_shape(i1, j1) && l.in_shape(i2, j2) && #[trigger] l.spec_index(i1, j1)
            == #[trigger] l.spec_index(i2, j2) implies i1 == i2 && j1 == j2 by {
        let s0 = l.stride[0] as int;
        let s1 = l.stride[1] as int;
        let a0 = abs_stride(l.stride[0]);
        let a1 = abs_stride(l.stride[1]);
        let di = i1 - i2;
        let dj = j1 - j2;
        assert(di * s0 + dj * s1 == 0) by (nonlinear_arith)
            requires
                l.offset + i1 * s0 + j1 * s1 == l.offset + i2 * s0 + j2 * s1,
                di == i1 - i2,
                dj == j1 - j2,
        ;
        lemma_span(di, l.dim0(), s0, a0);
        lemma_span(dj, l.dim1(), s1, a1);
        assert(a0 == (if s0 < 0 { -s0 } else { s0 }));
        assert(a1 == (if s1 < 0 { -s1 } else { s1 }));
        if a0 * (l.dim0() - 1) < a1 {
            assert(dj == 0);
            assert(di * s0 == 0);
            assert(di == 0);
        } else {
            assert(a1 * (l.dim1() - 1) < a0);
            assert(di == 0);
            assert(dj * s1 == 0);
            assert(dj == 0);
        }
    }
}

/// An axis is broadcast when it has more than one element and stride 0,
/// and either axis counts; a non-empty layout with a broadcast axis maps
/// two elements to one position.
pub proof fn law_broadcast_axis(l: Layout2)
    ensures
        forall|k: int| 0 <= k < 2 && l.shape[k] > 1 && l.stride[k] == 0 ==> l.has_broadcast_axis(),
        l.has_broadcast_axis() ==> exists|k: int| 0 <= k < 2 && l.shape[k] > 1 && l.stride[k] == 0,
        l.has_broadcast_axis() && l.shape[0] > 0 && l.shape[1] > 0 ==> !l.injective(),
{
    if l.has_broadcast_axis() && l.shape[0] > 0 && l.shape[1] > 0 {
        if l.shape[0] > 1 && l.stride[0] == 0 {
            assert(l.in_shape(0, 0) && l.in_shape(1, 0));
            assert(l.spec_index(0, 0) == l.spec_index(1, 0));
        } else {
            assert(l.in_shape(0, 0) && l.in_shape(0, 1));
            assert(l.spec_index(0, 0) == l.spec_index(0, 1));
        }
    }
    if l.has_broadcast_axis() {
        if l.shape[0] > 1 && l.stride[0] == 0 {
            assert(0 <= 0int < 2 && l.shape[0int] > 1 && l.stride[0int] == 0);
        } else {
            assert(0 <= 1int < 2 && l.shape[1int] > 1 && l.stride[1int] == 0);
        }
    }
}

} // verus!
