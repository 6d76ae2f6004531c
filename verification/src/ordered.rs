//! Strictly increasing sequences.

use vstd::prelude::*;

verus! {

pub open spec fn increasing(s: Seq<int>) -> bool {
    forall|i: int, j: int| 0 <= i < j < s.len() ==> (#[trigger] s[i]) < (#[trigger] s[j])
}

/// A strictly increasing sequence is determined by its elements.
pub proof fn lemma_increasing_is_unique(a: Seq<int>, b: Seq<int>)
    requires
        increasing(a),
        increasing(b),
        forall|x: int| #[trigger] a.contains(x) <==> b.contains(x),
    ensures
        a == b,
{
    lemma_prefix_matches(a, b, a.len() as int);
    lemma_prefix_matches(b, a, b.len() as int);
    assert(a =~= b);
}

proof fn lemma_prefix_matches(a: Seq<int>, b: Seq<int>, n: int)
    requires
        increasing(a),
        increasing(b),
        forall|x: int| #[trigger] a.contains(x) <==> b.contains(x),
        0 <= n <= a.len(),
    ensures
        n <= b.len(),
        forall|i: int| 0 <= i < n ==> #[trigger] a[i] == b[i],
    decreases n,
{
    if n > 0 {
        lemma_prefix_matches(a, b, n - 1);
        let x = a[n - 1];
        assert(a.contains(x));
        assert(b.contains(x));
        let j = choose|j: int| 0 <= j < b.len() && b[j] == x;
        if j < n - 1 {
            assert(a[j] == b[j]);
            assert(a[j] < a[n - 1]);
        }
        assert(b.len() >= n);
        let y = b[n - 1];
        assert(b.contains(y));
        assert(a.contains(y));
        let k = choose|k: int| 0 <= k < a.len() && a[k] == y;
        if k < n - 1 {
            assert(a[k] == b[k]);
            assert(b[k] < b[n - 1]);
        }
        if k > n - 1 {
            assert(a[n - 1] < a[k]);
            assert(j > n - 1 ==> b[n - 1] < b[j]);
        }
    }
}

} // verus!
