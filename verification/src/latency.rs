//! Per-document latency percentile statistics.
//!
//! Elapsed times are recorded in any fixed integer unit (the service uses
//! nanoseconds) and summarized by nearest-rank percentiles: the sorted list
//! of times is read at index `floor(n * pct / 100)`.

use vstd::prelude::*;
use vstd::relations::sorted_by;
use vstd::relations::total_ordering;
use vstd::seq_lib::lemma_sorted_unique;

verus! {

/// Ascending order on recorded times.
pub open spec fn time_order() -> spec_fn(u64, u64) -> bool {
    |a: u64, b: u64| a <= b
}

/// The recorded times, in ascending order.
pub open spec fn ascending_times(times: Seq<u64>) -> Seq<u64> {
    times.sort_by(time_order())
}

proof fn lemma_time_order_total()
    ensures
        total_ordering(time_order()),
{
    assert(total_ordering(time_order())) by {
        assert forall|a: u64, b: u64| #[trigger] time_order()(a, b) || time_order()(b, a) by {}
    }
}

/// Sorts the recorded times ascending.
fn sort_times(times: &Vec<u64>) -> (r: Vec<u64>)
    ensures
        r@ == ascending_times(times@),
{
    broadcast use vstd::seq_lib::group_to_multiset_ensures;
    broadcast use vstd::multiset::group_multiset_axioms;

    let mut r: Vec<u64> = Vec::new();
    let mut i: usize = 0;
    while i < times.len()
        invariant
            i <= times@.len(),
            sorted_by(r@, time_order()),
            r@.to_multiset() == times@.subrange(0, i as int).to_multiset(),
        decreases times@.len() - i,
    {
        let x = times[i];
        let mut p: usize = 0;
        while p < r.len() && r[p] <= x
            invariant
                p <= r@.len(),
                sorted_by(r@, time_order()),
                forall|j: int| 0 <= j < p ==> (#[trigger] r@[j]) <= x,
            decreases r@.len() - p,
        {
            p = p + 1;
        }
        let ghost prev = r@;
        r.insert(p, x);
        proof {
            let a = prev.subrange(0, p as int);
            let b = prev.subrange(p as int, prev.len() as int);
            assert(r@ =~= a.push(x) + b);
            assert(prev =~= a + b);
            assert forall|j: int, k: int|
                0 <= j < k < r@.len() implies #[trigger] time_order()(r@[j], r@[k]) by {
                if j == p && k > p {
                    // the scan stopped at an element larger than x
                    assert(time_order()(prev[p as int], prev[k - 1]));
                }
            }
            assert(r@.to_multiset() =~= prev.to_multiset().insert(x)) by {
                vstd::seq_lib::lemma_multiset_commutative(a.push(x), b);
                vstd::seq_lib::lemma_multiset_commutative(a, b);
                vstd::seq_lib::to_multiset_build(a, x);
                assert(r@.to_multiset() == a.push(x).to_multiset().add(b.to_multiset()));
                assert(prev.to_multiset() == a.to_multiset().add(b.to_multiset()));
            }
            assert(times@.subrange(0, i as int + 1).to_multiset() =~= times@.subrange(
                0,
                i as int,
            ).to_multiset().insert(x)) by {
                assert(times@.subrange(0, i as int + 1) =~= times@.subrange(0, i as int).push(x));
                vstd::seq_lib::to_multiset_build(times@.subrange(0, i as int), x);
            }
        }
        i = i + 1;
    }
    proof {
        assert(times@.subrange(0, i as int) =~= times@);
        lemma_time_order_total();
        times@.lemma_sort_by_ensures(time_order());
        lemma_sorted_unique(r@, ascending_times(times@), time_order());
    }
    r
}

/// Reports the nearest-rank p50 and p95 of the recorded per-document times:
/// the sorted times read at index `floor(n * 50 / 100)` and
/// `floor(n * 95 / 100)`. An empty record yields `(0, 0)`.
pub fn percentiles(times: &Vec<u64>) -> (r: (u64, u64))
    ensures
        times@.len() == 0 ==> r == (0u64, 0u64),
        times@.len() > 0 ==> {
            let sorted = ascending_times(times@);
            &&& r.0 == sorted[(times@.len() * 50 / 100) as int]
            &&& r.1 == sorted[(times@.len() * 95 / 100) as int]
        },
{
    let n = times.len();
    if n == 0 {
        return (0, 0);
    }
    let sorted = sort_times(times);
    proof {
        lemma_time_order_total();
        times@.lemma_sort_by_ensures(time_order());
        broadcast use vstd::seq_lib::group_to_multiset_ensures;

        assert(sorted@.to_multiset() == times@.to_multiset());
        assert(sorted@.to_multiset().len() == sorted@.len());
        assert(times@.to_multiset().len() == times@.len());
        assert(sorted@.len() == times@.len());
    }
    let p50: usize = ((n as u128) * 50 / 100) as usize;
    let p95: usize = ((n as u128) * 95 / 100) as usize;
    (sorted[p50], sorted[p95])
}

} // verus!
