use vstd::prelude::*;

use crate::float_key::F64Key;

verus! {

/// No element of `s` is NaN.
pub open spec fn nan_free(s: Seq<F64Key>) -> bool {
    forall|i: int| 0 <= i < s.len() ==> !(#[trigger] s[i]).spec_is_nan()
}

/// `k` is the index of the first NaN of `s`.
pub open spec fn is_first_nan(s: Seq<F64Key>, k: int) -> bool {
    &&& 0 <= k < s.len()
    &&& s[k].spec_is_nan()
    &&& forall|i: int| 0 <= i < k ==> !(#[trigger] s[i]).spec_is_nan()
}

/// `k` is the first index of the largest non-NaN element of `s`
/// (NaN elements take no part in the comparison).
pub open spec fn is_first_max(s: Seq<F64Key>, k: int) -> bool {
    &&& 0 <= k < s.len()
    &&& !s[k].spec_is_nan()
    &&& forall|i: int|
        0 <= i < s.len() && !(#[trigger] s[i]).spec_is_nan() ==> s[i].key() <= s[k].key()
    &&& forall|i: int| 0 <= i < k && !(#[trigger] s[i]).spec_is_nan() ==> s[i].key() < s[k].key()
}

/// What the plain scan returns: NaN never wins an update, and a NaN in front
/// poisons the result to index 0 (an all-NaN input included).
pub open spec fn plain_scan_result(s: Seq<F64Key>, r: int) -> bool {
    if s[0].spec_is_nan() {
        r == 0
    } else {
        is_first_max(s, r)
    }
}

/// NaN-first semantics: the first NaN wins; without NaN, the first maximum.
pub open spec fn nan_first_result(s: Seq<F64Key>, r: int) -> bool {
    if nan_free(s) {
        is_first_max(s, r)
    } else {
        is_first_nan(s, r)
    }
}

/// What the pre-scan returns: the first NaN, or `usize::MAX` without one.
pub open spec fn prescan_result(s: Seq<F64Key>, r: int) -> bool {
    if nan_free(s) {
        r == usize::MAX as int
    } else {
        is_first_nan(s, r)
    }
}

/// What the tiled pre-scan plus scan returns: NaN-first semantics, and 0 on
/// an empty buffer.
pub open spec fn tiled_result(s: Seq<F64Key>, r: int) -> bool {
    if s.len() == 0 {
        r == 0
    } else {
        nan_first_result(s, r)
    }
}

/// Whether a lane holding `v` takes the element `x`: the plain rule is
/// `x > v`; the fused rule is `!(x <= v)`, which NaN on either side passes.
pub open spec fn lane_takes(fused: bool, x: F64Key, v: F64Key) -> bool {
    if fused {
        !x.spec_le(v)
    } else {
        x.spec_gt(v)
    }
}

/// State (value, index) of lane `l` after the elements before `n` went
/// through it; the elements of lane `l` are those whose index is `l` modulo 8.
pub open spec fn lane_state(s: Seq<F64Key>, fused: bool, l: int, n: int) -> (F64Key, usize)
    decreases n,
{
    if n <= 0 {
        (s[0], usize::MAX)
    } else {
        let prev = lane_state(s, fused, l, n - 1);
        if (n - 1) % 8 == l && lane_takes(fused, s[n - 1], prev.0) {
            (s[n - 1], (n - 1) as usize)
        } else {
            prev
        }
    }
}

pub open spec fn lane_values(s: Seq<F64Key>, fused: bool, n: int) -> Seq<F64Key> {
    Seq::new(8, |l: int| lane_state(s, fused, l, n).0)
}

pub open spec fn lane_indices(s: Seq<F64Key>, fused: bool, n: int) -> Seq<usize> {
    Seq::new(8, |l: int| lane_state(s, fused, l, n).1)
}

/// The lane that the final reduction over lanes `0..k` picks: a later lane
/// replaces the pick when its value is greater, or equal with a smaller index.
pub open spec fn best_lane(vs: Seq<F64Key>, ix: Seq<usize>, k: int) -> int
    decreases k,
{
    if k <= 1 {
        0
    } else {
        let b = best_lane(vs, ix, k - 1);
        let l = k - 1;
        if vs[l].spec_gt(vs[b]) || (vs[l].spec_feq(vs[b]) && ix[l] < ix[b]) {
            l
        } else {
            b
        }
    }
}

/// The result that the reduction hands back: index 0 when the best lane never
/// took an element (it still holds the first one), else the best lane's index.
pub open spec fn select_result(vs: Seq<F64Key>, ix: Seq<usize>) -> int {
    let b = best_lane(vs, ix, 8);
    if ix[b] == usize::MAX {
        0
    } else {
        ix[b] as int
    }
}

/// Result of the lanes after the first `n` elements under a rule.
pub open spec fn lanes_result(s: Seq<F64Key>, fused: bool, n: int) -> int {
    select_result(lane_values(s, fused, n), lane_indices(s, fused, n))
}

/// Whether some lane holds NaN after all of `s` went through the fused rule.
pub open spec fn some_lane_nan(s: Seq<F64Key>) -> bool {
    exists|l: int| 0 <= l < 8 && (#[trigger] lane_state(s, true, l, s.len() as int)).0.spec_is_nan()
}

/// What the fused scan without early return returns: when a NaN survives
/// in a lane (nothing of its lane follows it), the first NaN of `s`;
/// otherwise every NaN was replaced by later elements, its index is lost,
/// and the result is the first maximum of the non-NaN elements.
pub open spec fn no_early_return_result(s: Seq<F64Key>, r: int) -> bool {
    if some_lane_nan(s) {
        is_first_nan(s, r)
    } else {
        is_first_max(s, r)
    }
}

/// What the plain rule leaves in lane `l` after `n` elements, when the first
/// element is not NaN: either the lane never took an element (and none of its
/// elements beats the first one), or it holds its first largest element.
pub open spec fn plain_lane_ok(s: Seq<F64Key>, l: int, n: int, st: (F64Key, usize)) -> bool {
    ||| {
        &&& st.1 == usize::MAX
        &&& st.0 == s[0]
        &&& forall|i: int|
            0 <= i < n && i % 8 == l && !(#[trigger] s[i]).spec_is_nan() ==> s[i].key()
                <= s[0].key()
    }
    ||| {
        &&& st.1 < n
        &&& (st.1 as int) % 8 == l
        &&& st.0 == s[st.1 as int]
        &&& !st.0.spec_is_nan()
        &&& st.0.key() > s[0].key()
        &&& forall|i: int|
            0 <= i < n && i % 8 == l && !(#[trigger] s[i]).spec_is_nan() ==> s[i].key()
                <= st.0.key() && (i < st.1 ==> s[i].key() < st.0.key())
    }
}

pub proof fn lemma_plain_lane(s: Seq<F64Key>, l: int, n: int)
    requires
        0 <= l < 8,
        0 <= n <= s.len(),
        1 <= s.len() <= usize::MAX,
        !s[0].spec_is_nan(),
    ensures
        plain_lane_ok(s, l, n, lane_state(s, false, l, n)),
    decreases n,
{
    if n > 0 {
        lemma_plain_lane(s, l, n - 1);
    }
}

/// A lane's value is always the first element or an element it took.
pub proof fn lemma_lane_origin(s: Seq<F64Key>, fused: bool, l: int, n: int)
    requires
        0 <= n <= s.len(),
        1 <= s.len() <= usize::MAX,
    ensures
        ({
            let st = lane_state(s, fused, l, n);
            (st.1 == usize::MAX && st.0 == s[0]) || (st.1 < n && st.0 == s[st.1 as int])
        }),
    decreases n,
{
    if n > 0 {
        lemma_lane_origin(s, fused, l, n - 1);
    }
}

/// Under the plain rule a NaN in front is never replaced.
pub proof fn lemma_lane_nan_front(s: Seq<F64Key>, fused: bool, l: int, n: int)
    requires
        0 <= n <= s.len(),
        1 <= s.len() <= usize::MAX,
        s[0].spec_is_nan(),
        !fused,
    ensures
        lane_state(s, fused, l, n) == (s[0], usize::MAX),
    decreases n,
{
    if n > 0 {
        lemma_lane_nan_front(s, fused, l, n - 1);
    }
}

/// With NaN nowhere in the first `n` elements, both rules fill the lanes alike.
pub proof fn lemma_rules_agree_without_nan(s: Seq<F64Key>, l: int, n: int)
    requires
        0 <= n <= s.len(),
        1 <= s.len() <= usize::MAX,
        forall|i: int| 0 <= i < n ==> !(#[trigger] s[i]).spec_is_nan(),
        n == 0 || !s[0].spec_is_nan(),
    ensures
        lane_state(s, true, l, n) == lane_state(s, false, l, n),
    decreases n,
{
    if n > 0 {
        lemma_rules_agree_without_nan(s, l, n - 1);
        lemma_lane_origin(s, false, l, n - 1);
    }
}

/// Properties of the reduction over lanes that hold no NaN.
pub proof fn lemma_best_lane(vs: Seq<F64Key>, ix: Seq<usize>, k: int)
    requires
        1 <= k <= vs.len(),
        k <= ix.len(),
        forall|l: int| 0 <= l < k ==> !(#[trigger] vs[l]).spec_is_nan(),
    ensures
        0 <= best_lane(vs, ix, k) < k,
        forall|l: int|
            0 <= l < k ==> (#[trigger] vs[l]).key() <= vs[best_lane(vs, ix, k)].key() && (
            vs[l].key() == vs[best_lane(vs, ix, k)].key() ==> ix[best_lane(vs, ix, k)] <= ix[l]),
    decreases k,
{
    if k > 1 {
        lemma_best_lane(vs, ix, k - 1);
    }
}

/// The reduction never leaves lane 0 while lane 0 holds NaN.
pub proof fn lemma_best_lane_nan_front(vs: Seq<F64Key>, ix: Seq<usize>, k: int)
    requires
        1 <= k <= vs.len(),
        vs[0].spec_is_nan(),
    ensures
        best_lane(vs, ix, k) == 0,
    decreases k,
{
    if k > 1 {
        lemma_best_lane_nan_front(vs, ix, k - 1);
    }
}

/// The lanes of the plain rule reduce to the first maximum of the first `n`
/// elements, when the first element is not NaN.
pub proof fn lemma_plain_select(s: Seq<F64Key>, n: int)
    requires
        1 <= n <= s.len(),
        s.len() <= usize::MAX,
        !s[0].spec_is_nan(),
    ensures
        is_first_max(s.take(n), lanes_result(s, false, n)),
{
    let t = s.take(n);
    let vs = lane_values(s, false, n);
    let ix = lane_indices(s, false, n);
    assert forall|l: int| 0 <= l < 8 implies plain_lane_ok(s, l, n, (vs[l], ix[l])) && !(
    #[trigger] vs[l]).spec_is_nan() by {
        lemma_plain_lane(s, l, n);
    }
    lemma_best_lane(vs, ix, 8);
    let b = best_lane(vs, ix, 8);
    let r = lanes_result(s, false, n);
    if exists|j: int| 0 <= j < n && !(#[trigger] s[j]).spec_is_nan() && s[j].key() > s[0].key() {
        let j = choose|j: int| 0 <= j < n && !(#[trigger] s[j]).spec_is_nan() && s[j].key() > s[0].key();
        let lj = j % 8;
        assert(plain_lane_ok(s, lj, n, (vs[lj], ix[lj])));
        assert(vs[lj].key() >= s[j].key());
        assert(vs[b].key() >= vs[lj].key());
        assert(plain_lane_ok(s, b, n, (vs[b], ix[b])));
        assert(ix[b] < n);
        assert(r == ix[b] as int);
        assert forall|i: int| 0 <= i < t.len() && !(#[trigger] t[i]).spec_is_nan() implies t[i].key()
            <= t[r].key() by {
            let li = i % 8;
            assert(plain_lane_ok(s, li, n, (vs[li], ix[li])));
            assert(s[i] == t[i]);
        }
        assert forall|i: int| 0 <= i < r && !(#[trigger] t[i]).spec_is_nan() implies t[i].key()
            < t[r].key() by {
            let li = i % 8;
            assert(plain_lane_ok(s, li, n, (vs[li], ix[li])));
            assert(s[i] == t[i]);
            if t[i].key() == t[r].key() {
                assert(s[i].key() > s[0].key());
                assert(ix[li] <= i);
                assert(vs[li].key() == vs[b].key());
                assert(ix[b] <= ix[li]);
            }
        }
    } else {
        assert forall|l: int| 0 <= l < 8 implies (#[trigger] ix[l]) == usize::MAX && vs[l]
            == s[0] by {
            assert(plain_lane_ok(s, l, n, (vs[l], ix[l])));
            if ix[l] != usize::MAX {
                let k = ix[l] as int;
                assert(!s[k].spec_is_nan() && s[k].key() > s[0].key());
            }
        }
        assert(r == 0);
        assert forall|i: int| 0 <= i < t.len() && !(#[trigger] t[i]).spec_is_nan() implies t[i].key()
            <= t[r].key() by {
            assert(s[i] == t[i]);
        }
    }
}

/// The first maximum of a sequence is one index: two scans that both return
/// it return the same index.
pub proof fn law_first_max_unique(s: Seq<F64Key>, r1: int, r2: int)
    requires
        is_first_max(s, r1),
        is_first_max(s, r2),
    ensures
        r1 == r2,
{
    if r1 < r2 {
        assert(s[r1].key() < s[r2].key());
        assert(s[r1].key() <= s[r1].key());
    } else if r2 < r1 {
        assert(s[r2].key() < s[r1].key());
    }
}

/// The first NaN of a sequence is one index.
pub proof fn law_first_nan_unique(s: Seq<F64Key>, r1: int, r2: int)
    requires
        is_first_nan(s, r1),
        is_first_nan(s, r2),
    ensures
        r1 == r2,
{
    if r1 < r2 {
        assert(!s[r1].spec_is_nan());
    } else if r2 < r1 {
        assert(!s[r2].spec_is_nan());
    }
}

/// The NaN-first variants agree: the fused scan, the block-8 scan, the
/// pre-scan followed by the plain scan and the tiled scan return the same
/// index on every non-empty input.
pub proof fn law_nan_first_variants_agree(s: Seq<F64Key>, r1: int, r2: int)
    requires
        nan_first_result(s, r1),
        nan_first_result(s, r2),
    ensures
        r1 == r2,
{
    if nan_free(s) {
        law_first_max_unique(s, r1, r2);
    } else {
        law_first_nan_unique(s, r1, r2);
    }
}

/// Without NaN, the plain scan and the NaN-first variants return the same
/// index: the first maximum.
pub proof fn law_plain_agrees_without_nan(s: Seq<F64Key>, r1: int, r2: int)
    requires
        s.len() >= 1,
        nan_free(s),
        plain_scan_result(s, r1),
        nan_first_result(s, r2),
    ensures
        r1 == r2,
{
    assert(!s[0].spec_is_nan());
    law_first_max_unique(s, r1, r2);
}

/// Without NaN, the fused scan without early return is the plain scan.
pub proof fn law_no_early_return_is_plain_without_nan(s: Seq<F64Key>, r: int)
    requires
        1 <= s.len() <= usize::MAX,
        nan_free(s),
        no_early_return_result(s, r),
    ensures
        plain_scan_result(s, r),
{
    assert(!s[0].spec_is_nan());
    if some_lane_nan(s) {
        let l = choose|l: int| 0 <= l < 8 && (#[trigger] lane_state(s, true, l, s.len() as int)).0.spec_is_nan();
        lemma_lane_origin(s, true, l, s.len() as int);
    }
}

/// A NaN at the end of the buffer is the last element of its lane and
/// survives there: the fused scan without early return then returns the
/// first NaN of the buffer.
pub proof fn law_no_early_return_trailing_nan(s: Seq<F64Key>, r: int)
    requires
        1 <= s.len() <= usize::MAX,
        s[s.len() - 1].spec_is_nan(),
        no_early_return_result(s, r),
    ensures
        is_first_nan(s, r),
{
    let n = s.len() as int;
    let l = (n - 1) % 8;
    assert(lane_state(s, true, l, n).0 == s[n - 1]);
    assert(some_lane_nan(s));
}

/// Whether some lane holds NaN decides between the two answers: a lane's
/// value is the first element or one it took, so a NaN lane means a NaN in
/// `s`, and no NaN lane means a non-NaN element exists.
pub proof fn lemma_lane_nan_cases(s: Seq<F64Key>)
    requires
        1 <= s.len() <= usize::MAX,
    ensures
        some_lane_nan(s) ==> !nan_free(s),
        !some_lane_nan(s) ==> exists|i: int| 0 <= i < s.len() && !(#[trigger] s[i]).spec_is_nan(),
{
    let n = s.len() as int;
    if some_lane_nan(s) {
        let l = choose|l: int| 0 <= l < 8 && (#[trigger] lane_state(s, true, l, n)).0.spec_is_nan();
        lemma_lane_origin(s, true, l, n);
        let st = lane_state(s, true, l, n);
        if st.1 == usize::MAX {
            assert(s[0].spec_is_nan());
        } else {
            assert(s[st.1 as int].spec_is_nan());
        }
    } else {
        lemma_lane_origin(s, true, 0, n);
        let st = lane_state(s, true, 0, n);
        assert(!st.0.spec_is_nan());
        if st.1 == usize::MAX {
            assert(!s[0].spec_is_nan());
        } else {
            assert(!s[st.1 as int].spec_is_nan());
        }
    }
}

/// Whenever the buffer holds a NaN, the pre-scan and the NaN-first scans
/// (pre-scan then plain, tiled, fused, block-8) all return the index of the
/// first one.
pub proof fn law_nan_wins_everywhere(s: Seq<F64Key>, r1: int, r2: int)
    requires
        !nan_free(s),
        prescan_result(s, r1),
        nan_first_result(s, r2),
    ensures
        r1 == r2,
{
    law_first_nan_unique(s, r1, r2);
}

/// Joining two neighbouring NaN-free pieces: the first maximum of `s[..e]` is
/// the one of `s[..m]`, unless the first maximum `g` of `s[m..e]` is greater.
pub proof fn lemma_first_max_join(s: Seq<F64Key>, m: int, e: int, b: int, g: int)
    requires
        0 < m < e <= s.len(),
        is_first_max(s.take(m), b),
        is_first_max(s.subrange(m, e), g - m),
    ensures
        is_first_max(s.take(e), if s[g].spec_gt(s[b]) { g } else { b }),
{
    let t = s.take(e);
    let left = s.take(m);
    let right = s.subrange(m, e);
    assert(left[b] == s[b]);
    assert(right[g - m] == s[g]);
    let r = if s[g].spec_gt(s[b]) { g } else { b };
    assert forall|i: int| 0 <= i < t.len() && !(#[trigger] t[i]).spec_is_nan() implies t[i].key()
        <= t[r].key() by {
        assert(t[i] == s[i]);
        if i < m {
            assert(left[i] == s[i]);
        } else {
            assert(right[i - m] == s[i]);
        }
    }
    assert forall|i: int| 0 <= i < r && !(#[trigger] t[i]).spec_is_nan() implies t[i].key()
        < t[r].key() by {
        assert(t[i] == s[i]);
        if i < m {
            assert(left[i] == s[i]);
        } else {
            assert(right[i - m] == s[i]);
        }
    }
}

/// The lane rules on their own: the plain rule takes `x` only when both are
/// numbers and `x` is greater; the fused rule takes `x` when either is NaN
/// or `x` is greater, so a lane holding NaN takes every later element.
pub proof fn law_lane_rules(x: F64Key, v: F64Key)
    ensures
        lane_takes(false, x, v) <==> (!x.spec_is_nan() && !v.spec_is_nan() && x.key() > v.key()),
        lane_takes(true, x, v) <==> (x.spec_is_nan() || v.spec_is_nan() || x.key() > v.key()),
        v.spec_is_nan() ==> lane_takes(true, x, v),
        x.spec_is_nan() ==> lane_takes(true, x, v),
{
}

/// Index of the last element of lane `l` among the first `n`, or 0 when the
/// lane has none (it then still holds the first element).
pub open spec fn lane_last(l: int, n: int) -> int {
    if n > l {
        l + ((n - 1 - l) / 8) * 8
    } else {
        0
    }
}

/// Under the fused rule a lane ends on NaN exactly when the last element it
/// saw is NaN.
pub proof fn lemma_fused_lane_nan(s: Seq<F64Key>, l: int, n: int)
    requires
        0 <= l < 8,
        0 <= n <= s.len(),
        1 <= s.len() <= usize::MAX,
    ensures
        lane_state(s, true, l, n).0.spec_is_nan() <==> s[lane_last(l, n)].spec_is_nan(),
        0 <= lane_last(l, n) < (if n > 0 { n } else { 1 }),
    decreases n,
{
    if n > 0 {
        lemma_fused_lane_nan(s, l, n - 1);
        if (n - 1) % 8 == l {
            assert(lane_last(l, n) == n - 1);
        } else {
            assert(lane_last(l, n) == lane_last(l, n - 1));
        }
    }
}

/// Some lane of the fused scan ends on NaN exactly when one of the last
/// eight elements (each the last of its lane) is NaN.
pub proof fn law_some_lane_nan_iff_tail_nan(s: Seq<F64Key>)
    requires
        1 <= s.len() <= usize::MAX,
    ensures
        some_lane_nan(s) <==> exists|i: int|
            0 <= i < s.len() && s.len() - 8 <= i && (#[trigger] s[i]).spec_is_nan(),
{
    let n = s.len() as int;
    if some_lane_nan(s) {
        let l = choose|l: int| 0 <= l < 8 && (#[trigger] lane_state(s, true, l, n)).0.spec_is_nan();
        lemma_fused_lane_nan(s, l, n);
        let i = lane_last(l, n);
        assert(0 <= i < n && n - 8 <= i && s[i].spec_is_nan());
    }
    if exists|i: int| 0 <= i < n && n - 8 <= i && (#[trigger] s[i]).spec_is_nan() {
        let i = choose|i: int| 0 <= i < n && n - 8 <= i && (#[trigger] s[i]).spec_is_nan();
        let l = i % 8;
        lemma_fused_lane_nan(s, l, n);
        assert(lane_last(l, n) == i);
        assert(lane_state(s, true, l, n).0.spec_is_nan());
    }
}

} // verus!
