use vstd::prelude::*;

verus! {

/// The sum of a sequence of integers, the empty sum being 0.
pub open spec fn seq_sum(s: Seq<int>) -> int
    decreases s.len(),
{
    if s.len() == 0 {
        0
    } else {
        seq_sum(s.drop_last()) + s.last()
    }
}

/// Every contiguous stretch of `s` (the empty one included) has a sum that an
/// `i32` can hold.
pub open spec fn sums_fit_i32(s: Seq<int>) -> bool {
    forall|a: int, b: int|
        0 <= a <= b <= s.len() ==> i32::MIN <= #[trigger] seq_sum(s.subrange(a, b)) <= i32::MAX
}

/// A sequence of `n` zeros.
pub open spec fn zeros(n: nat) -> Seq<int> {
    Seq::new(n, |i: int| 0int)
}

/// The sum of a concatenation is the sum of its parts.
pub proof fn lemma_sum_concat(a: Seq<int>, b: Seq<int>)
    ensures
        seq_sum(a + b) == seq_sum(a) + seq_sum(b),
    decreases b.len(),
{
    if b.len() == 0 {
        assert(a + b =~= a);
    } else {
        lemma_sum_concat(a, b.drop_last());
        assert((a + b).drop_last() =~= a + b.drop_last());
    }
}

/// A sequence of zeros sums to 0.
pub proof fn lemma_sum_zeros(n: nat)
    ensures
        seq_sum(zeros(n)) == 0,
    decreases n,
{
    if n > 0 {
        lemma_sum_zeros((n - 1) as nat);
        assert(zeros(n).drop_last() =~= zeros((n - 1) as nat));
    }
}

/// Every stretch of a sequence of zeros sums to 0, so such a sequence fits.
pub proof fn lemma_zeros_fit(n: nat)
    ensures
        sums_fit_i32(zeros(n)),
{
    assert forall|a: int, b: int| 0 <= a <= b <= n implies seq_sum(zeros(n).subrange(a, b)) == 0 by {
        assert(zeros(n).subrange(a, b) =~= zeros((b - a) as nat));
        lemma_sum_zeros((b - a) as nat);
    }
}

/// A stretch of a sequence that fits fits too.
pub proof fn lemma_fit_subrange(s: Seq<int>, a: int, b: int)
    requires
        sums_fit_i32(s),
        0 <= a <= b <= s.len(),
    ensures
        sums_fit_i32(s.subrange(a, b)),
{
    let t = s.subrange(a, b);
    assert forall|c: int, d: int| 0 <= c <= d <= t.len() implies i32::MIN <= #[trigger] seq_sum(
        t.subrange(c, d),
    ) <= i32::MAX by {
        assert(t.subrange(c, d) =~= s.subrange(a + c, a + d));
    }
}

/// A sum of values bounded by `bound` in magnitude is bounded by
/// `len * bound`.
pub proof fn lemma_sum_bounded(s: Seq<int>, bound: int)
    requires
        forall|i: int| 0 <= i < s.len() ==> -bound <= #[trigger] s[i] <= bound,
    ensures
        -(s.len() * bound) <= seq_sum(s) <= s.len() * bound,
    decreases s.len(),
{
    if s.len() > 0 {
        let t = s.drop_last();
        lemma_sum_bounded(t, bound);
        assert(s.len() * bound == t.len() * bound + bound) by (nonlinear_arith)
            requires
                s.len() == t.len() + 1,
        ;
    }
}

/// A sequence whose values are bounded by `bound` in magnitude fits when
/// `len * bound` does.
pub proof fn lemma_bounded_values_fit(s: Seq<int>, bound: int)
    requires
        0 <= bound,
        forall|i: int| 0 <= i < s.len() ==> -bound <= #[trigger] s[i] <= bound,
        s.len() * bound <= i32::MAX,
    ensures
        sums_fit_i32(s),
{
    assert forall|a: int, b: int| 0 <= a <= b <= s.len() implies i32::MIN <= #[trigger] seq_sum(
        s.subrange(a, b),
    ) <= i32::MAX by {
        let t = s.subrange(a, b);
        assert forall|i: int| 0 <= i < t.len() implies -bound <= #[trigger] t[i] <= bound by {
            assert(t[i] == s[a + i]);
        }
        lemma_sum_bounded(t, bound);
        assert(t.len() * bound <= s.len() * bound) by (nonlinear_arith)
            requires
                t.len() <= s.len(),
                0 <= bound,
        ;
    }
}

} // verus!
