use vstd::prelude::*;

verus! {

/// An IEEE-754 double as the scan kernels see it.
///
/// A non-NaN value is carried by an integer key: two non-NaN doubles compare
/// (`<`, `==`) exactly as their keys do (so `-0.0` and `+0.0` share a key).
/// `Nan` compares false with everything, itself included.
#[derive(Clone, Copy, Debug)]
pub enum F64Key {
    Nan,
    Num(i64),
}

/// Mask of the exponent field of a double's bit pattern.
pub const EXP_MASK: u64 = 0x7FF0_0000_0000_0000u64;

/// Mask of the mantissa field of a double's bit pattern.
pub const MANT_MASK: u64 = 0x000F_FFFF_FFFF_FFFFu64;

/// Mask of everything but the sign bit.
pub const MAG_MASK: u64 = 0x7FFF_FFFF_FFFF_FFFFu64;

/// Mask of the sign bit.
pub const SIGN_MASK: u64 = 0x8000_0000_0000_0000u64;

/// Whether a bit pattern encodes a NaN: all exponent bits set, mantissa non-zero.
pub open spec fn bits_are_nan(bits: u64) -> bool {
    (bits & EXP_MASK) == EXP_MASK && (bits & MANT_MASK) != 0
}

/// The ordered key of a non-NaN bit pattern: the magnitude, negated when the
/// sign bit is set.
pub open spec fn bits_key(bits: u64) -> int {
    if (bits & SIGN_MASK) == 0 {
        (bits & MAG_MASK) as int
    } else {
        -((bits & MAG_MASK) as int)
    }
}

impl F64Key {
    pub open spec fn spec_is_nan(self) -> bool {
        self is Nan
    }

    /// The key of a non-NaN value (meaningless for `Nan`).
    pub open spec fn key(self) -> int {
        match self {
            F64Key::Nan => 0,
            F64Key::Num(k) => k as int,
        }
    }

    /// IEEE `self > other`: false when either side is NaN.
    pub open spec fn spec_gt(self, other: F64Key) -> bool {
        !self.spec_is_nan() && !other.spec_is_nan() && self.key() > other.key()
    }

    /// IEEE `self <= other`: false when either side is NaN.
    pub open spec fn spec_le(self, other: F64Key) -> bool {
        !self.spec_is_nan() && !other.spec_is_nan() && self.key() <= other.key()
    }

    /// IEEE `self == other`: false when either side is NaN.
    pub open spec fn spec_feq(self, other: F64Key) -> bool {
        !self.spec_is_nan() && !other.spec_is_nan() && self.key() == other.key()
    }

    /// The value that a double with bit pattern `bits` stands for.
    pub open spec fn spec_from_bits(bits: u64) -> F64Key {
        if bits_are_nan(bits) {
            F64Key::Nan
        } else {
            F64Key::Num(bits_key(bits) as i64)
        }
    }

    /// Classify the bit pattern of a double (as `f64::to_bits` gives it).
    pub fn from_bits(bits: u64) -> (r: F64Key)
        ensures
            r == Self::spec_from_bits(bits),
            !r.spec_is_nan() ==> r.key() == bits_key(bits),
    {
        if (bits & EXP_MASK) == EXP_MASK && (bits & MANT_MASK) != 0 {
            F64Key::Nan
        } else {
            let mag: u64 = bits & MAG_MASK;
            assert(mag <= 0x7FFF_FFFF_FFFF_FFFFu64) by (bit_vector)
                requires mag == bits & 0x7FFF_FFFF_FFFF_FFFFu64;
            let k: i64 = mag as i64;
            if (bits & SIGN_MASK) == 0 {
                F64Key::Num(k)
            } else {
                F64Key::Num(-k)
            }
        }
    }

    /// `x != x`, the NaN test of the kernels.
    pub fn is_nan(&self) -> (r: bool)
        ensures
            r == self.spec_is_nan(),
    {
        match self {
            F64Key::Nan => true,
            F64Key::Num(_) => false,
        }
    }

    /// IEEE `self > other`.
    pub fn gt(&self, other: &F64Key) -> (r: bool)
        ensures
            r == self.spec_gt(*other),
    {
        match (self, other) {
            (F64Key::Num(a), F64Key::Num(b)) => *a > *b,
            _ => false,
        }
    }

    /// IEEE `self <= other`.
    pub fn le(&self, other: &F64Key) -> (r: bool)
        ensures
            r == self.spec_le(*other),
    {
        match (self, other) {
            (F64Key::Num(a), F64Key::Num(b)) => *a <= *b,
            _ => false,
        }
    }

    /// IEEE `self == other`.
    pub fn feq(&self, other: &F64Key) -> (r: bool)
        ensures
            r == self.spec_feq(*other),
    {
        match (self, other) {
            (F64Key::Num(a), F64Key::Num(b)) => *a == *b,
            _ => false,
        }
    }
}

/// Which bit patterns are NaN: exactly those whose exponent field is all
/// ones and whose mantissa is non-zero, whatever the sign bit (`x != x`
/// holds for every NaN). Flipping the sign bit keeps a NaN a NaN, and
/// negates the key of any other value (`-0.0` and `+0.0` share key 0).
pub proof fn law_from_bits_classifies(bits: u64)
    ensures
        F64Key::spec_from_bits(bits).spec_is_nan() <==> ((bits & 0x7FF0_0000_0000_0000u64)
            == 0x7FF0_0000_0000_0000u64 && (bits & 0x000F_FFFF_FFFF_FFFFu64) != 0),
        F64Key::spec_from_bits(bits).spec_is_nan() == F64Key::spec_from_bits(
            bits ^ 0x8000_0000_0000_0000u64,
        ).spec_is_nan(),
        !F64Key::spec_from_bits(bits).spec_is_nan() ==> F64Key::spec_from_bits(
            bits ^ 0x8000_0000_0000_0000u64,
        ).key() == -F64Key::spec_from_bits(bits).key(),
        !F64Key::spec_from_bits(bits).spec_is_nan() && bits < 0x8000_0000_0000_0000u64
            ==> F64Key::spec_from_bits(bits).key() == bits as int,
{
    let f = bits ^ 0x8000_0000_0000_0000u64;
    assert((f & 0x7FF0_0000_0000_0000u64) == (bits & 0x7FF0_0000_0000_0000u64)) by (bit_vector)
        requires
            f == bits ^ 0x8000_0000_0000_0000u64,
    ;
    assert((f & 0x000F_FFFF_FFFF_FFFFu64) == (bits & 0x000F_FFFF_FFFF_FFFFu64)) by (bit_vector)
        requires
            f == bits ^ 0x8000_0000_0000_0000u64,
    ;
    assert((f & 0x7FFF_FFFF_FFFF_FFFFu64) == (bits & 0x7FFF_FFFF_FFFF_FFFFu64)) by (bit_vector)
        requires
            f == bits ^ 0x8000_0000_0000_0000u64,
    ;
    assert(((f & 0x8000_0000_0000_0000u64) == 0) == ((bits & 0x8000_0000_0000_0000u64) != 0)) by (bit_vector)
        requires
            f == bits ^ 0x8000_0000_0000_0000u64,
    ;
    assert((bits & 0x7FFF_FFFF_FFFF_FFFFu64) <= 0x7FFF_FFFF_FFFF_FFFFu64) by (bit_vector);
    assert(bits < 0x8000_0000_0000_0000u64 ==> (bits & 0x8000_0000_0000_0000u64) == 0
        && (bits & 0x7FFF_FFFF_FFFF_FFFFu64) == bits) by (bit_vector);
}

/// IEEE comparisons: `==`, `>` and `<=` are false as soon as either side is
/// NaN (so `x == x` fails exactly for NaN); `==` is symmetric; `<=` is `<`
/// or `==`; two non-NaN values are ordered one way, the other, or equal.
pub proof fn law_ieee_compare(x: F64Key, y: F64Key)
    ensures
        x.spec_feq(y) ==> !x.spec_is_nan() && !y.spec_is_nan(),
        x.spec_gt(y) ==> !x.spec_is_nan() && !y.spec_is_nan(),
        x.spec_le(y) ==> !x.spec_is_nan() && !y.spec_is_nan(),
        x.spec_feq(y) == y.spec_feq(x),
        x.spec_feq(x) == !x.spec_is_nan(),
        x.spec_gt(y) ==> !y.spec_gt(x) && !x.spec_feq(y),
        x.spec_le(y) == (y.spec_gt(x) || x.spec_feq(y)),
        !x.spec_is_nan() && !y.spec_is_nan() ==> (x.spec_gt(y) || y.spec_gt(x) || x.spec_feq(y)),
{
}

/// `>` is transitive, and so is `==`.
pub proof fn law_ieee_transitive(x: F64Key, y: F64Key, z: F64Key)
    ensures
        x.spec_gt(y) && y.spec_gt(z) ==> x.spec_gt(z),
        x.spec_feq(y) && y.spec_feq(z) ==> x.spec_feq(z),
        x.spec_gt(y) && y.spec_feq(z) ==> x.spec_gt(z),
{
}

} // verus!
