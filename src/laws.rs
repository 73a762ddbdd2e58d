use vstd::prelude::*;

use crate::sums::{seq_sum, zeros};
use crate::tree::SegTree;

verus! {

/// The values after applying `updates` to `s` in order, each `(k, v)` setting
/// entry `k` to `v`: what successive successful calls of `revise` do to a
/// tree's values.
pub open spec fn replay(s: Seq<int>, updates: Seq<(int, int)>) -> Seq<int>
    decreases updates.len(),
{
    if updates.len() == 0 {
        s
    } else {
        replay(s, updates.drop_last()).update(updates.last().0, updates.last().1)
    }
}

/// The value that the last update of entry `k` in `updates` set, or 0 when
/// no update names `k`.
pub open spec fn latest(updates: Seq<(int, int)>, k: int) -> int
    decreases updates.len(),
{
    if updates.len() == 0 {
        0
    } else if updates.last().0 == k {
        updates.last().1
    } else {
        latest(updates.drop_last(), k)
    }
}

/// After a fresh tree of `n` indices (all values 0) has received `updates` in
/// order, every entry holds the value most recently set for it, or 0; so a
/// query over any range sums exactly those values.
pub proof fn law_query_sums_latest_values(n: nat, updates: Seq<(int, int)>, a: int, b: int)
    requires
        forall|j: int| 0 <= j < updates.len() ==> 0 <= #[trigger] updates[j].0 < n,
        0 <= a <= b <= n,
    ensures
        replay(zeros(n), updates) == Seq::new(n, |k: int| latest(updates, k)),
        seq_sum(replay(zeros(n), updates).subrange(a, b)) == seq_sum(
            Seq::new((b - a) as nat, |k: int| latest(updates, a + k)),
        ),
    decreases updates.len(),
{
    if updates.len() > 0 {
        let earlier = updates.drop_last();
        assert forall|j: int| 0 <= j < earlier.len() implies 0 <= #[trigger] earlier[j].0 < n by {
            assert(earlier[j] == updates[j]);
        }
        law_query_sums_latest_values(n, earlier, a, b);
        assert(0 <= updates[updates.len() - 1].0 < n);
    }
    assert(replay(zeros(n), updates) =~= Seq::new(n, |k: int| latest(updates, k)));
    assert(replay(zeros(n), updates).subrange(a, b) =~= Seq::new(
        (b - a) as nat,
        |k: int| latest(updates, a + k),
    ));
}

/// A query over the whole interval a tree covers sums all of its values,
/// which is the value held at the root.
pub proof fn law_full_query_is_total(t: SegTree)
    requires
        t.wf(),
    ensures
        t@.subrange(t.lo() - t.lo(), t.hi() - t.lo()) == t@,
        seq_sum(t@.subrange(t.lo() - t.lo(), t.hi() - t.lo())) == seq_sum(t@),
{
    t.lemma_view_len();
    assert(t@.subrange(t.lo() - t.lo(), t.hi() - t.lo()) =~= t@);
}

/// Setting an entry twice to the same value leaves the same values as setting
/// it once, so every query answers the same.
pub proof fn law_update_idempotent(s: Seq<int>, k: int, v: int, a: int, b: int)
    requires
        0 <= k < s.len(),
        0 <= a <= b <= s.len(),
    ensures
        s.update(k, v).update(k, v) == s.update(k, v),
        seq_sum(s.update(k, v).update(k, v).subrange(a, b)) == seq_sum(s.update(k, v).subrange(a, b)),
{
    assert(s.update(k, v).update(k, v) =~= s.update(k, v));
}

} // verus!
