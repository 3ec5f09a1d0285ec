use vstd::prelude::*;

verus! {

/// Shared progress of one folder's load: how many of its images have been
/// attempted so far, successfully or not. The consumer-facing fraction is
/// `completed / total`, formed at the presentation edge; with the invariant
/// `completed <= total` it never exceeds one, and a finished load reports
/// exactly `total / total`.
pub struct ProgressTracker {
    completed: usize,
    total: usize,
}

impl ProgressTracker {
    pub closed spec fn spec_completed(&self) -> int {
        self.completed as int
    }

    pub closed spec fn spec_total(&self) -> int {
        self.total as int
    }

    pub open spec fn wf(&self) -> bool {
        0 <= self.spec_completed() <= self.spec_total()
    }

    pub fn new(total: usize) -> (t: Self)
        ensures
            t.wf(),
            t.spec_total() == total,
            t.spec_completed() == 0,
    {
        ProgressTracker { completed: 0, total }
    }

    /// Record one finished attempt, whether it produced a thumbnail or failed.
    pub fn record_completion(&mut self)
        requires
            old(self).wf(),
            old(self).spec_completed() < old(self).spec_total(),
        ensures
            final(self).wf(),
            final(self).spec_total() == old(self).spec_total(),
            final(self).spec_completed() == old(self).spec_completed() + 1,
    {
        self.completed = self.completed + 1;
    }

    /// Numerator and denominator of the progress fraction.
    pub fn progress(&self) -> (r: (usize, usize))
        ensures
            r.0 == self.spec_completed(),
            r.1 == self.spec_total(),
    {
        (self.completed, self.total)
    }

    pub fn is_done(&self) -> (r: bool)
        ensures
            r == (self.spec_completed() == self.spec_total()),
    {
        self.completed == self.total
    }
}

/// One recorded attempt as the consumer sees it: the numerator advances by
/// one, the denominator stays.
pub open spec fn progress_step(pre: (int, int), post: (int, int)) -> bool {
    post.0 == pre.0 + 1 && post.1 == pre.1
}

proof fn lemma_progress_value(states: Seq<(int, int)>, k: int, i: int)
    requires
        k >= 0,
        states.len() == k + 1,
        states[0] == (0int, k),
        forall|t: int| 0 <= t < k ==> progress_step(#[trigger] states[t], states[t + 1]),
        0 <= i <= k,
    ensures
        states[i].0 == i,
        states[i].1 == k,
    decreases i,
{
    if i > 0 {
        lemma_progress_value(states, k, i - 1);
        assert(progress_step(states[i - 1], states[i]));
    }
}

/// Progress is monotone and terminal: over one folder load of `k` images that
/// starts at `0 / k` and records every attempt — failed loads included — the
/// observed numerators never decrease and the last observation is `k / k`,
/// the fraction one.
pub proof fn lemma_progress_monotonic(states: Seq<(int, int)>, k: int)
    requires
        k >= 0,
        states.len() == k + 1,
        states[0] == (0int, k),
        forall|t: int| 0 <= t < k ==> progress_step(#[trigger] states[t], states[t + 1]),
    ensures
        forall|i: int, j: int|
            0 <= i <= j <= k ==> (#[trigger] states[i]).0 <= (#[trigger] states[j]).0,
        states[k].0 == k && states[k].1 == k,
{
    assert forall|i: int| 0 <= i <= k implies (#[trigger] states[i]).0 == i && states[i].1
        == k by {
        lemma_progress_value(states, k, i);
    }
}

} // verus!
