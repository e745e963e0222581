//! The argmax scan variants: eight lanes take the elements whose index is the
//! lane modulo 8, then a reduction picks the winning lane.

use vstd::prelude::*;

use crate::float_key::F64Key;
use crate::scan_spec::{
    best_lane, is_first_max, lane_indices, lane_state, lane_values, lemma_best_lane_nan_front,
    lemma_first_max_join, lemma_lane_nan_front, lemma_lane_origin, lemma_plain_select,
    lemma_lane_nan_cases, lemma_rules_agree_without_nan, nan_first_result, nan_free,
    no_early_return_result, plain_scan_result, prescan_result, select_result, some_lane_nan,
    tiled_result,
};

verus! {

/// Lanes `(values, indices)` hold the state that the elements before `p`
/// left under a rule.
pub open spec fn lanes_at(
    vs: Seq<F64Key>,
    idx: Seq<usize>,
    s: Seq<F64Key>,
    fused: bool,
    p: int,
) -> bool {
    &&& vs.len() == 8
    &&& idx.len() == 8
    &&& forall|l: int| 0 <= l < 8 ==> (#[trigger] vs[l]) == lane_state(s, fused, l, p).0
    &&& forall|l: int| 0 <= l < 8 ==> (#[trigger] idx[l]) == lane_state(s, fused, l, p).1
}

/// The final reduction over the eight lanes.
fn reduce_lanes(vs: &[F64Key; 8], idx: &[usize; 8]) -> (bi: usize)
    ensures
        bi < 8,
        bi as int == best_lane(vs@, idx@, 8),
{
    let mut bi: usize = 0;
    for l in 1..8
        invariant
            bi < l,
            bi as int == best_lane(vs@, idx@, l as int),
    {
        if vs[l].gt(&vs[bi]) || (vs[l].feq(&vs[bi]) && idx[l] < idx[bi]) {
            bi = l;
        }
    }
    bi
}

/// The value handed back after the reduction: 0 when the best lane never
/// took an element, else the best lane's index.
fn finish(vs: &[F64Key; 8], idx: &[usize; 8]) -> (r: usize)
    ensures
        r as int == select_result(vs@, idx@),
{
    let bi = reduce_lanes(vs, idx);
    if idx[bi] == usize::MAX {
        0
    } else {
        idx[bi]
    }
}

/// Element `p` goes through its lane (`p` modulo 8) under the plain rule
/// `x > v`.
fn take_plain(vs: &mut [F64Key; 8], idx: &mut [usize; 8], xs: &[F64Key], p: usize)
    requires
        p < xs.len(),
        lanes_at(old(vs)@, old(idx)@, xs@, false, p as int),
    ensures
        lanes_at(final(vs)@, final(idx)@, xs@, false, p + 1),
{
    let l = p % 8;
    let x = xs[p];
    let ghost vs0 = vs@;
    let ghost idx0 = idx@;
    if x.gt(&vs[l]) {
        vs[l] = x;
        idx[l] = p;
        assert(vs@ == vs0.update(l as int, x));
        assert(idx@ == idx0.update(l as int, p));
    }
    assert forall|k: int| 0 <= k < 8 implies (#[trigger] vs@[k]) == lane_state(xs@, false, k, p + 1).0
        && idx@[k] == lane_state(xs@, false, k, p + 1).1 by {
        assert(p % 8 == k <==> k == l as int);
        assert(vs0[k] == lane_state(xs@, false, k, p as int).0);
        assert(idx0[k] == lane_state(xs@, false, k, p as int).1);
    }
}

/// Plain 8-lane argmax scan: NaN never wins an update.
///
/// Returns the first index of the largest non-NaN element; when `xs[0]` is
/// NaN no lane ever takes an element and the result is index 0.
pub fn scan_plain(xs: &[F64Key]) -> (r: usize)
    requires
        xs.len() >= 1,
    ensures
        plain_scan_result(xs@, r as int),
{
    let ghost s = xs@;
    let n = xs.len();
    let mut vs: [F64Key; 8] = [xs[0]; 8];
    let mut idx: [usize; 8] = [usize::MAX; 8];
    let mut base: usize = 0;
    while n - base >= 8
        invariant
            n == s.len(),
            s == xs@,
            n >= 1,
            base <= n,
            base % 8 == 0,
            lanes_at(vs@, idx@, s, false, base as int),
        decreases n - base,
    {
        for l in 0..8
            invariant
                n == s.len(),
                s == xs@,
                base + 8 <= n,
                base % 8 == 0,
                lanes_at(vs@, idx@, s, false, base + l),
        {
            take_plain(&mut vs, &mut idx, xs, base + l);
        }
        base = base + 8;
    }
    let rem = n - base;
    for l in 0..rem
        invariant
            n == s.len(),
            s == xs@,
            base + rem == n,
            rem < 8,
            base % 8 == 0,
            lanes_at(vs@, idx@, s, false, base + l),
    {
        take_plain(&mut vs, &mut idx, xs, base + l);
    }
    let r = finish(&vs, &idx);
    proof {
        assert(vs@ =~= lane_values(s, false, n as int));
        assert(idx@ =~= lane_indices(s, false, n as int));
        if !s[0].spec_is_nan() {
            lemma_plain_select(s, n as int);
            assert(s.take(n as int) =~= s);
        } else {
            assert forall|l: int| 0 <= l < 8 implies lane_state(s, false, l, n as int) == (s[0], usize::MAX) by {
                lemma_lane_nan_front(s, false, l, n as int);
            }
            lemma_best_lane_nan_front(vs@, idx@, 8);
        }
    }
    r
}

/// Element `p` goes through its lane under the fused rule `!(x <= v)`, given
/// that no element before it is NaN. Returns whether the lane took a NaN,
/// in which case `xs[p]` is NaN; otherwise the lanes are those of the plain
/// rule after `p + 1` elements.
fn take_fused(vs: &mut [F64Key; 8], idx: &mut [usize; 8], xs: &[F64Key], p: usize) -> (took_nan: bool)
    requires
        p < xs.len(),
        lanes_at(old(vs)@, old(idx)@, xs@, false, p as int),
        forall|i: int| 0 <= i < p ==> !(#[trigger] xs@[i]).spec_is_nan(),
    ensures
        took_nan == xs@[p as int].spec_is_nan(),
        !took_nan ==> lanes_at(final(vs)@, final(idx)@, xs@, false, p + 1),
{
    let ghost s = xs@;
    let l = p % 8;
    let x = xs[p];
    let ghost vs0 = vs@;
    let ghost idx0 = idx@;
    proof {
        lemma_lane_origin(s, false, l as int, p as int);
        if p > 0 {
            assert(!s[0].spec_is_nan());
        }
    }
    if !x.le(&vs[l]) {
        vs[l] = x;
        idx[l] = p;
        if !vs[l].feq(&vs[l]) {
            return true;
        }
        assert(vs@ == vs0.update(l as int, x));
        assert(idx@ == idx0.update(l as int, p));
    }
    assert forall|k: int| 0 <= k < 8 implies (#[trigger] vs@[k]) == lane_state(s, false, k, p + 1).0
        && idx@[k] == lane_state(s, false, k, p + 1).1 by {
        assert(p % 8 == k <==> k == l as int);
        assert(vs0[k] == lane_state(s, false, k, p as int).0);
        assert(idx0[k] == lane_state(s, false, k, p as int).1);
    }
    false
}

/// Element `p` goes through its lane under the fused rule, whatever came
/// before it. Returns whether the lane took a NaN (which it does exactly
/// when `xs[p]` is NaN).
fn take_fused_any(vs: &mut [F64Key; 8], idx: &mut [usize; 8], xs: &[F64Key], p: usize) -> (took_nan: bool)
    requires
        p < xs.len(),
        lanes_at(old(vs)@, old(idx)@, xs@, true, p as int),
    ensures
        lanes_at(final(vs)@, final(idx)@, xs@, true, p + 1),
        took_nan == xs@[p as int].spec_is_nan(),
{
    let l = p % 8;
    let x = xs[p];
    let ghost vs0 = vs@;
    let ghost idx0 = idx@;
    let mut took_nan = false;
    if !x.le(&vs[l]) {
        vs[l] = x;
        idx[l] = p;
        took_nan = vs[l].is_nan();
        assert(vs@ == vs0.update(l as int, x));
        assert(idx@ == idx0.update(l as int, p));
    }
    assert forall|k: int| 0 <= k < 8 implies (#[trigger] vs@[k]) == lane_state(xs@, true, k, p + 1).0
        && idx@[k] == lane_state(xs@, true, k, p + 1).1 by {
        assert(p % 8 == k <==> k == l as int);
        assert(vs0[k] == lane_state(xs@, true, k, p as int).0);
        assert(idx0[k] == lane_state(xs@, true, k, p as int).1);
    }
    took_nan
}

/// NaN pre-scan: the index of the first NaN, or `usize::MAX` without one.
pub fn prescan_only(xs: &[F64Key]) -> (r: usize)
    ensures
        prescan_result(xs@, r as int),
{
    for i in 0..xs.len()
        invariant
            forall|j: int| 0 <= j < i ==> !(#[trigger] xs@[j]).spec_is_nan(),
    {
        if xs[i].is_nan() {
            return i;
        }
    }
    usize::MAX
}

/// NaN pre-scan over the whole buffer, then one plain scan: the first NaN
/// wins, else the first maximum.
pub fn scan_pre_whole(xs: &[F64Key]) -> (r: usize)
    requires
        xs.len() >= 1,
    ensures
        nan_first_result(xs@, r as int),
{
    let i = prescan_only(xs);
    if i != usize::MAX {
        return i;
    }
    proof {
        if !nan_free(xs@) {
            assert(i < xs.len());
        }
    }
    scan_plain(xs)
}

/// Length of the blocks of the tiled pre-scan.
pub const TILED_BLOCK: usize = 2048;


/// Block-tiled pre-scan plus scan: per block of 2048 elements, look for a
/// NaN (and return its index), then run the plain scan over the block and
/// keep the block's maximum when it beats the ones before. The first NaN
/// wins, else the first maximum; an empty buffer gives 0.
pub fn scan_tiled(xs: &[F64Key]) -> (r: usize)
    ensures
        tiled_result(xs@, r as int),
{
    let ghost s = xs@;
    let n = xs.len();
    let mut offset: usize = 0;
    let mut best: usize = 0;
    let mut best_val: F64Key = F64Key::Nan;
    while offset < n
        invariant
            n == xs.len(),
            s == xs@,
            offset <= n,
            forall|j: int| 0 <= j < offset ==> !(#[trigger] s[j]).spec_is_nan(),
            offset > 0 ==> is_first_max(s.take(offset as int), best as int) && best_val == s[best as int],
            offset == 0 ==> best == 0,
        decreases n - offset,
    {
        let end: usize = if n - offset > TILED_BLOCK { offset + TILED_BLOCK } else { n };
        let block = &xs[offset..end];
        for i in 0..block.len()
            invariant
                block@ == s.subrange(offset as int, end as int),
                s == xs@,
                offset < end <= n,
                n == xs.len(),
                forall|j: int| 0 <= j < offset + i ==> !(#[trigger] s[j]).spec_is_nan(),
        {
            if block[i].is_nan() {
                return offset + i;
            }
        }
        let rb = scan_plain(block);
        proof {
            assert(!block@[0].spec_is_nan());
            assert(block@[rb as int] == s[offset + rb]);
            if offset > 0 {
                lemma_first_max_join(s, offset as int, end as int, best as int, offset + rb);
            } else {
                assert(s.take(end as int) =~= block@);
            }
        }
        if offset == 0 || block[rb].gt(&best_val) {
            best = offset + rb;
            best_val = block[rb];
        }
        offset = end;
    }
    proof {
        if n > 0 {
            assert(s.take(n as int) =~= s);
        }
    }
    best
}

/// Fused scan with early return: a lane takes `x` when `!(x <= v)`, so a NaN
/// wins and is returned at once. The first NaN wins, else the first maximum.
pub fn scan_fused(xs: &[F64Key]) -> (r: usize)
    requires
        xs.len() >= 1,
    ensures
        nan_first_result(xs@, r as int),
{
    let ghost s = xs@;
    let n = xs.len();
    let mut vs: [F64Key; 8] = [xs[0]; 8];
    let mut idx: [usize; 8] = [usize::MAX; 8];
    let mut base: usize = 0;
    while n - base >= 8
        invariant
            n == s.len(),
            s == xs@,
            n >= 1,
            base <= n,
            base % 8 == 0,
            lanes_at(vs@, idx@, s, false, base as int),
            forall|j: int| 0 <= j < base ==> !(#[trigger] s[j]).spec_is_nan(),
        decreases n - base,
    {
        for l in 0..8
            invariant
                n == s.len(),
                s == xs@,
                base + 8 <= n,
                base % 8 == 0,
                lanes_at(vs@, idx@, s, false, base + l),
                forall|j: int| 0 <= j < base + l ==> !(#[trigger] s[j]).spec_is_nan(),
        {
            if take_fused(&mut vs, &mut idx, xs, base + l) {
                return base + l;
            }
        }
        base = base + 8;
    }
    let rem = n - base;
    for l in 0..rem
        invariant
            n == s.len(),
            s == xs@,
            base + rem == n,
            base % 8 == 0,
            lanes_at(vs@, idx@, s, false, base + l),
            forall|j: int| 0 <= j < base + l ==> !(#[trigger] s[j]).spec_is_nan(),
    {
        if take_fused(&mut vs, &mut idx, xs, base + l) {
            return base + l;
        }
    }
    let r = finish(&vs, &idx);
    proof {
        assert(vs@ =~= lane_values(s, false, n as int));
        assert(idx@ =~= lane_indices(s, false, n as int));
        lemma_plain_select(s, n as int);
        assert(s.take(n as int) =~= s);
    }
    r
}

/// Plain scan plus a NaN check per chunk of 8 (an or-reduce of the eight
/// `x != x` tests, then a scalar search in the chunk); the trailing elements
/// are checked one by one. The first NaN wins, else the first maximum.
pub fn scan_block8(xs: &[F64Key]) -> (r: usize)
    requires
        xs.len() >= 1,
    ensures
        nan_first_result(xs@, r as int),
{
    let ghost s = xs@;
    let n = xs.len();
    let mut vs: [F64Key; 8] = [xs[0]; 8];
    let mut idx: [usize; 8] = [usize::MAX; 8];
    let mut base: usize = 0;
    while n - base >= 8
        invariant
            n == s.len(),
            s == xs@,
            n >= 1,
            base <= n,
            base % 8 == 0,
            lanes_at(vs@, idx@, s, false, base as int),
            forall|j: int| 0 <= j < base ==> !(#[trigger] s[j]).spec_is_nan(),
        decreases n - base,
    {
        let has_nan = xs[base].is_nan() || xs[base + 1].is_nan() || xs[base + 2].is_nan()
            || xs[base + 3].is_nan() || xs[base + 4].is_nan() || xs[base + 5].is_nan()
            || xs[base + 6].is_nan() || xs[base + 7].is_nan();
        if has_nan {
            for l in 0..8
                invariant
                    n == s.len(),
                    s == xs@,
                    base + 8 <= n,
                    forall|j: int| 0 <= j < base + l ==> !(#[trigger] s[j]).spec_is_nan(),
            {
                if xs[base + l].is_nan() {
                    return base + l;
                }
            }
        }
        assert forall|j: int| 0 <= j < base + 8 implies !(#[trigger] s[j]).spec_is_nan() by {
            if j >= base {
                assert(j == base || j == base + 1 || j == base + 2 || j == base + 3 || j == base + 4
                    || j == base + 5 || j == base + 6 || j == base + 7);
            }
        }
        for l in 0..8
            invariant
                n == s.len(),
                s == xs@,
                base + 8 <= n,
                base % 8 == 0,
                lanes_at(vs@, idx@, s, false, base + l),
        {
            take_plain(&mut vs, &mut idx, xs, base + l);
        }
        base = base + 8;
    }
    let rem = n - base;
    for l in 0..rem
        invariant
            n == s.len(),
            s == xs@,
            base + rem == n,
            rem < 8,
            base % 8 == 0,
            lanes_at(vs@, idx@, s, false, base + l),
            forall|j: int| 0 <= j < base + l ==> !(#[trigger] s[j]).spec_is_nan(),
    {
        if xs[base + l].is_nan() {
            return base + l;
        }
        take_plain(&mut vs, &mut idx, xs, base + l);
    }
    let r = finish(&vs, &idx);
    proof {
        assert(vs@ =~= lane_values(s, false, n as int));
        assert(idx@ =~= lane_indices(s, false, n as int));
        lemma_plain_select(s, n as int);
        assert(s.take(n as int) =~= s);
    }
    r
}

/// The first maximum of the non-NaN elements, by one scalar pass that skips
/// NaN.
fn first_max_skipping_nan(xs: &[F64Key]) -> (r: usize)
    requires
        exists|i: int| 0 <= i < xs@.len() && !(#[trigger] xs@[i]).spec_is_nan(),
    ensures
        is_first_max(xs@, r as int),
{
    let ghost s = xs@;
    let n = xs.len();
    let mut found = false;
    let mut best: usize = 0;
    for i in 0..n
        invariant
            n == s.len(),
            s == xs@,
            found == exists|j: int| 0 <= j < i && !(#[trigger] s[j]).spec_is_nan(),
            found ==> best < i && is_first_max(s.take(i as int), best as int),
    {
        if !xs[i].is_nan() && (!found || xs[i].gt(&xs[best])) {
            best = i;
            found = true;
        }
        proof {
            let t = s.take(i + 1);
            assert forall|k: int| 0 <= k < i + 1 implies #[trigger] t[k] == s[k] by {}
            if found {
                assert(s.take(i as int) =~= t.take(i as int));
                assert forall|k: int| 0 <= k < t.len() && !(#[trigger] t[k]).spec_is_nan() implies t[k].key()
                    <= t[best as int].key() by {
                    if k < i {
                        assert(s.take(i as int)[k] == s[k]);
                    }
                }
                assert forall|k: int| 0 <= k < best && !(#[trigger] t[k]).spec_is_nan() implies t[k].key()
                    < t[best as int].key() by {
                    if k < i {
                        assert(s.take(i as int)[k] == s[k]);
                    }
                }
            }
        }
    }
    proof {
        assert(s.take(n as int) =~= s);
    }
    best
}

/// Fused scan without the early return. A NaN that wins a lane is replaced
/// by every later element of the lane (`!(x <= NaN)` always holds), so its
/// index is lost and the result is a plain maximum: the first maximum of the
/// non-NaN elements (the lanes, which a NaN may have reset, no longer hold
/// it, so it is computed by a scalar pass). When a NaN is the last element
/// of its lane it survives there, and the first NaN of the buffer is
/// returned.
#[allow(non_snake_case)]
pub fn scan_fused_no_earlyret_BROKEN(xs: &[F64Key]) -> (r: usize)
    requires
        xs.len() >= 1,
    ensures
        no_early_return_result(xs@, r as int),
{
    let ghost s = xs@;
    let n = xs.len();
    let mut vs: [F64Key; 8] = [xs[0]; 8];
    let mut idx: [usize; 8] = [usize::MAX; 8];
    let mut took_nan = false;
    let mut base: usize = 0;
    while n - base >= 8
        invariant
            n == s.len(),
            s == xs@,
            n >= 1,
            base <= n,
            base % 8 == 0,
            lanes_at(vs@, idx@, s, true, base as int),
            took_nan == exists|j: int| 0 <= j < base && (#[trigger] s[j]).spec_is_nan(),
        decreases n - base,
    {
        for l in 0..8
            invariant
                n == s.len(),
                s == xs@,
                base + 8 <= n,
                lanes_at(vs@, idx@, s, true, base + l),
                took_nan == exists|j: int| 0 <= j < base + l && (#[trigger] s[j]).spec_is_nan(),
        {
            let t = take_fused_any(&mut vs, &mut idx, xs, base + l);
            took_nan = took_nan || t;
            proof {
                if t {
                    assert(s[base + l].spec_is_nan());
                }
            }
        }
        base = base + 8;
    }
    let rem = n - base;
    for l in 0..rem
        invariant
            n == s.len(),
            s == xs@,
            base + rem == n,
            lanes_at(vs@, idx@, s, true, base + l),
            took_nan == exists|j: int| 0 <= j < base + l && (#[trigger] s[j]).spec_is_nan(),
    {
        let t = take_fused_any(&mut vs, &mut idx, xs, base + l);
        took_nan = took_nan || t;
        proof {
            if t {
                assert(s[base + l].spec_is_nan());
            }
        }
    }
    let mut any_nan = false;
    for l in 0..8
        invariant
            lanes_at(vs@, idx@, s, true, n as int),
            n == s.len(),
            any_nan == exists|k: int| 0 <= k < l && (#[trigger] vs@[k]).spec_is_nan(),
    {
        if vs[l].is_nan() {
            any_nan = true;
        }
    }
    proof {
        lemma_lane_nan_cases(s);
        assert(any_nan == some_lane_nan(s)) by {
            if some_lane_nan(s) {
                let k = choose|k: int| 0 <= k < 8 && (#[trigger] lane_state(s, true, k, s.len() as int)).0.spec_is_nan();
                assert(vs@[k].spec_is_nan());
            }
            if any_nan {
                let k = choose|k: int| 0 <= k < 8 && (#[trigger] vs@[k]).spec_is_nan();
                assert(lane_state(s, true, k, s.len() as int).0.spec_is_nan());
            }
        }
    }
    if any_nan {
        for i in 0..n
            invariant
                n == s.len(),
                s == xs@,
                some_lane_nan(s),
                !nan_free(s),
                forall|j: int| 0 <= j < i ==> !(#[trigger] s[j]).spec_is_nan(),
        {
            if xs[i].is_nan() {
                return i;
            }
        }
    }
    if took_nan {
        return first_max_skipping_nan(xs);
    }
    let r = finish(&vs, &idx);
    proof {
        assert forall|l: int| 0 <= l < 8 implies #[trigger] lane_state(s, true, l, n as int)
            == lane_state(s, false, l, n as int) by {
            lemma_rules_agree_without_nan(s, l, n as int);
        }
        assert(vs@ =~= lane_values(s, false, n as int));
        assert(idx@ =~= lane_indices(s, false, n as int));
        assert(!s[0].spec_is_nan());
        lemma_plain_select(s, n as int);
        assert(s.take(n as int) =~= s);
    }
    r
}

} // verus!
