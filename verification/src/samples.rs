//! Order statistics of a list of samples.

use vstd::prelude::*;

verus! {

pub open spec fn at_most() -> spec_fn(u64, u64) -> bool {
    |a: u64, b: u64| a <= b
}

/// The samples in increasing order.
pub open spec fn in_order(samples: Seq<u64>) -> Seq<u64> {
    samples.sort_by(at_most())
}

proof fn lemma_total()
    ensures
        vstd::relations::total_ordering(at_most()),
{
}

/// Sorts samples in increasing order.
pub fn sorted(samples: &Vec<u64>) -> (out: Vec<u64>)
    ensures
        out@ == in_order(samples@),
        out@.len() == samples@.len(),
{
    let mut out: Vec<u64> = Vec::new();
    let mut i: usize = 0;
    assert(samples@.take(0) =~= out@);
    while i < samples.len()
        invariant
            i <= samples.len(),
            out@.len() == i,
            vstd::relations::sorted_by(out@, at_most()),
            out@.to_multiset() == samples@.take(i as int).to_multiset(),
        decreases samples.len() - i,
    {
        let sample: u64 = samples[i];
        let ghost before = out@;
        let mut at: usize = out.len();
        while at > 0 && out[at - 1] > sample
            invariant
                at <= out@.len(),
                out@ == before,
                forall|j: int| at <= j < before.len() ==> sample <= #[trigger] before[j],
            decreases at,
        {
            at = at - 1;
        }
        proof {
            assert forall|j: int| 0 <= j < at implies #[trigger] before[j] <= sample by {
                if j < at - 1 {
                    assert(at_most()(before[j], before[at - 1]));
                }
            }
        }
        out.insert(at, sample);
        proof {
            vstd::seq_lib::to_multiset_insert(before, at as int, sample);
            assert(samples@.take(i + 1) =~= samples@.take(i as int).push(sample));
            vstd::seq_lib::to_multiset_build(samples@.take(i as int), sample);
            assert(out@ =~= before.insert(at as int, sample));
            assert forall|a: int, b: int| 0 <= a < b < out@.len() implies #[trigger] at_most()(
                out@[a],
                out@[b],
            ) by {
                let x = if a < at {
                    a
                } else {
                    a - 1
                };
                let y = if b < at {
                    b
                } else {
                    b - 1
                };
                if a != at && b != at {
                    assert(at_most()(before[x], before[y]));
                }
            }
        }
        i = i + 1;
    }
    proof {
        assert(samples@.take(i as int) =~= samples@);
        lemma_total();
        samples@.lemma_sort_by_ensures(at_most());
        vstd::seq_lib::lemma_sorted_unique(out@, in_order(samples@), at_most());
    }
    out
}

pub proof fn lemma_in_order(samples: Seq<u64>)
    ensures
        in_order(samples).len() == samples.len(),
        in_order(samples).to_multiset() == samples.to_multiset(),
        forall|i: int, j: int|
            0 <= i <= j < samples.len() ==> #[trigger] in_order(samples)[i]
                <= #[trigger] in_order(samples)[j],
{
    lemma_total();
    samples.lemma_sort_by_ensures(at_most());
    samples.to_multiset_ensures();
    in_order(samples).to_multiset_ensures();
    assert forall|i: int, j: int| 0 <= i <= j < samples.len() implies #[trigger] in_order(samples)[i]
        <= #[trigger] in_order(samples)[j] by {
        if i < j {
            assert(at_most()(in_order(samples)[i], in_order(samples)[j]));
        }
    }
}

/// The rank nearest to `percent` of the way through `n` samples, halves going
/// up.
pub open spec fn rank_at(percent: int, n: int) -> int {
    (percent * (n - 1) + 50) / 100
}

/// The sample at a percentage, zero where there is none.
pub open spec fn percentile_of(samples: Seq<u64>, percent: int) -> u64 {
    if samples.len() == 0 {
        0
    } else {
        in_order(samples)[rank_at(percent, samples.len() as int)]
    }
}

pub fn percentile(samples: &Vec<u64>, percent: u8) -> (value: u64)
    requires
        percent <= 100,
        samples@.len() <= 0xffff_ffff_ffff,
    ensures
        value == percentile_of(samples@, percent as int),
{
    if samples.len() == 0 {
        return 0;
    }
    let ordered: Vec<u64> = sorted(samples);
    let last: u64 = (samples.len() - 1) as u64;
    proof {
        assert(percent * last <= 100 * last) by (nonlinear_arith)
            requires
                percent <= 100,
        ;
        assert(0 <= percent * last) by (nonlinear_arith);
    }
    let rank: u64 = (percent as u64 * last + 50) / 100;
    ordered[rank as usize]
}

/// Every percentile is one of the samples, and a larger percentage never gives
/// a smaller one.
pub proof fn law_percentiles_are_samples_in_order(samples: Seq<u64>, low: int, high: int)
    requires
        samples.len() > 0,
        0 <= low <= high <= 100,
    ensures
        samples.contains(percentile_of(samples, low)),
        percentile_of(samples, low) <= percentile_of(samples, high),
{
    let n = samples.len() as int;
    lemma_in_order(samples);
    assert(0 <= low * (n - 1) <= high * (n - 1) <= 100 * (n - 1)) by (nonlinear_arith)
        requires
            0 <= low <= high <= 100,
            n >= 1,
    ;
    let rank = rank_at(low, n);
    assert(0 <= rank <= rank_at(high, n) < n);
    samples.to_multiset_ensures();
    in_order(samples).to_multiset_ensures();
    let value = in_order(samples)[rank];
    assert(in_order(samples).contains(value));
    assert(in_order(samples).to_multiset().count(value) > 0);
}

} // verus!
