//! Resource-usage snapshots of the fault study and their differences.

use vstd::prelude::*;

verus! {

/// Microseconds per second.
pub const MICROS_PER_SEC: i64 = 1_000_000;

/// Snapshot of the resource-usage counters that the page-fault study reads.
#[derive(Clone, Copy, Debug)]
pub struct Rusage {
    /// Minor (soft) page faults.
    pub min_flt: i64,
    /// Major page faults.
    pub maj_flt: i64,
    /// User CPU time, microseconds.
    pub utime_us: i64,
    /// System CPU time, microseconds.
    pub stime_us: i64,
}

/// A `timeval` (seconds and microseconds) in microseconds.
pub fn timeval_us(sec: i64, usec: i64) -> (r: i64)
    requires
        0 <= usec < 1_000_000,
        i64::MIN <= sec * 1_000_000,
        sec * 1_000_000 + usec <= i64::MAX,
    ensures
        r == sec * 1_000_000 + usec,
{
    sec * MICROS_PER_SEC + usec
}

impl Rusage {
    /// Every field difference `self - before` fits in `i64`.
    pub open spec fn delta_fits(self, before: Rusage) -> bool {
        &&& i64::MIN <= self.min_flt - before.min_flt <= i64::MAX
        &&& i64::MIN <= self.maj_flt - before.maj_flt <= i64::MAX
        &&& i64::MIN <= self.utime_us - before.utime_us <= i64::MAX
        &&& i64::MIN <= self.stime_us - before.stime_us <= i64::MAX
    }

    /// Counter differences `self - before`, field by field.
    pub open spec fn spec_delta(self, before: Rusage) -> Rusage {
        Rusage {
            min_flt: (self.min_flt - before.min_flt) as i64,
            maj_flt: (self.maj_flt - before.maj_flt) as i64,
            utime_us: (self.utime_us - before.utime_us) as i64,
            stime_us: (self.stime_us - before.stime_us) as i64,
        }
    }

    /// Counter differences `self - before`, field by field.
    pub fn delta(&self, before: &Rusage) -> (r: Rusage)
        requires
            self.delta_fits(*before),
        ensures
            r == self.spec_delta(*before),
            r.min_flt == self.min_flt - before.min_flt,
            r.maj_flt == self.maj_flt - before.maj_flt,
            r.utime_us == self.utime_us - before.utime_us,
            r.stime_us == self.stime_us - before.stime_us,
    {
        Rusage {
            min_flt: self.min_flt - before.min_flt,
            maj_flt: self.maj_flt - before.maj_flt,
            utime_us: self.utime_us - before.utime_us,
            stime_us: self.stime_us - before.stime_us,
        }
    }
}

/// Deltas chain: from `a` to `c` is from `a` to `b` plus from `b` to `c`,
/// field by field.
pub proof fn law_delta_chain(a: Rusage, b: Rusage, c: Rusage)
    requires
        c.delta_fits(a),
        c.delta_fits(b),
        b.delta_fits(a),
    ensures
        c.spec_delta(a).min_flt == c.spec_delta(b).min_flt + b.spec_delta(a).min_flt,
        c.spec_delta(a).maj_flt == c.spec_delta(b).maj_flt + b.spec_delta(a).maj_flt,
        c.spec_delta(a).utime_us == c.spec_delta(b).utime_us + b.spec_delta(a).utime_us,
        c.spec_delta(a).stime_us == c.spec_delta(b).stime_us + b.spec_delta(a).stime_us,
{
}

/// A snapshot's delta against itself is zero in every field.
pub proof fn law_delta_self_zero(a: Rusage)
    ensures
        a.delta_fits(a),
        a.spec_delta(a) == (Rusage { min_flt: 0, maj_flt: 0, utime_us: 0, stime_us: 0 }),
{
}

} // verus!
