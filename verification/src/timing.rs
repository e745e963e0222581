//! Statistics of the timing loops: the samples are sorted, then the median
//! and the minimum are read off.

use vstd::prelude::*;

verus! {

/// `s` is in ascending order.
pub open spec fn ascending(s: Seq<u64>) -> bool {
    forall|i: int, j: int| 0 <= i <= j < s.len() ==> #[trigger] s[i] <= #[trigger] s[j]
}

/// `slice::sort` of std on `u64`: afterwards the vector holds the same
/// elements, as often each, in ascending order.
#[verifier::external_body]
fn sort_samples(v: &mut Vec<u64>)
    ensures
        final(v)@.to_multiset() == old(v)@.to_multiset(),
        ascending(final(v)@),
{
    v.sort();
}

/// Sort the samples in place and return `(median, minimum)`: the element at
/// position `len / 2` and the one at position 0 of the sorted samples.
pub fn summarize_samples(samples: &mut Vec<u64>) -> (r: (u64, u64))
    requires
        old(samples)@.len() >= 1,
    ensures
        final(samples)@.to_multiset() == old(samples)@.to_multiset(),
        ascending(final(samples)@),
        r.0 == final(samples)@[(final(samples)@.len() / 2) as int],
        r.1 == final(samples)@[0],
        old(samples)@.contains(r.1),
        forall|i: int| 0 <= i < old(samples)@.len() ==> r.1 <= #[trigger] old(samples)@[i],
{
    let ghost s0 = samples@;
    sort_samples(samples);
    proof {
        broadcast use vstd::seq_lib::group_to_multiset_ensures;

        let s = samples@;
        assert(s.len() == s0.len()) by {
            assert(s.to_multiset().len() == s0.to_multiset().len());
        }
        assert(s.contains(s[0]));
        assert(s.to_multiset().count(s[0]) > 0);
        assert(s0.to_multiset().count(s[0]) > 0);
        assert(s0.contains(s[0]));
        assert forall|i: int| 0 <= i < s0.len() implies s[0] <= #[trigger] s0[i] by {
            assert(s0.contains(s0[i]));
            assert(s0.to_multiset().count(s0[i]) > 0);
            assert(s.to_multiset().count(s0[i]) > 0);
            assert(s.contains(s0[i]));
            let k = choose|k: int| 0 <= k < s.len() && s[k] == s0[i];
            assert(s[0] <= s[k]);
        }
    }
    let n = samples.len();
    (samples[n / 2], samples[0])
}

} // verus!
