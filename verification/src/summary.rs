//! Run-wide aggregation of group outcomes.
//!
//! A run processes many groups, possibly concurrently; each finished group
//! contributes one classification to the run summary.  The summary is a
//! plain counter triple, and its value depends only on which outcomes were
//! recorded, never on the order they arrived in — which is what makes the
//! concurrent aggregation of the caller sound.

use vstd::prelude::*;

use crate::merger::GroupStatus;

verus! {

broadcast use vstd::seq_lib::group_to_multiset_ensures, vstd::multiset::group_multiset_axioms;

/// Aggregate counts over all processed groups of one run.
#[derive(Debug, Clone, Copy, PartialEq, Eq, Structural)]
pub struct RunSummary {
    /// Groups that resolved to any classification.
    pub processed: u64,
    /// Groups classified `Merged`.
    pub merged: u64,
    /// Groups classified `Skipped`.
    pub skipped: u64,
}

/// How many entries of `s` equal `which`.
pub open spec fn count_of(s: Seq<GroupStatus>, which: GroupStatus) -> nat
    decreases s.len(),
{
    if s.len() == 0 {
        0nat
    } else {
        count_of(s.drop_last(), which) + (if s.last() == which {
            1nat
        } else {
            0nat
        })
    }
}

impl RunSummary {
    /// The counters are consistent: merged and skipped groups were processed.
    pub open spec fn wf(self) -> bool {
        self.merged + self.skipped <= self.processed
    }

    /// A fresh summary with nothing recorded.
    pub fn new() -> (s: Self)
        ensures
            s.processed == 0,
            s.merged == 0,
            s.skipped == 0,
            s.wf(),
    {
        RunSummary { processed: 0, merged: 0, skipped: 0 }
    }

    /// Records one group's classification: processed always grows by one,
    /// merged and skipped by one exactly for their own classification.
    pub fn record(&mut self, status: GroupStatus)
        requires
            old(self).wf(),
            old(self).processed < u64::MAX,
        ensures
            final(self).wf(),
            final(self).processed == old(self).processed + 1,
            final(self).merged == old(self).merged + (if status is Merged {
                1int
            } else {
                0int
            }),
            final(self).skipped == old(self).skipped + (if status is Skipped {
                1int
            } else {
                0int
            }),
    {
        self.processed = self.processed + 1;
        match status {
            GroupStatus::Merged => {
                self.merged = self.merged + 1;
            },
            GroupStatus::Skipped => {
                self.skipped = self.skipped + 1;
            },
            GroupStatus::Failed => {},
        }
    }
}

/// Folds a sequence of group classifications into a summary, one at a time.
pub fn summarize(outcomes: &Vec<GroupStatus>) -> (s: RunSummary)
    ensures
        s.processed == outcomes@.len(),
        s.merged == count_of(outcomes@, GroupStatus::Merged),
        s.skipped == count_of(outcomes@, GroupStatus::Skipped),
{
    let n = outcomes.len();
    let mut s = RunSummary::new();
    let mut i: usize = 0;
    while i < n
        invariant
            n == outcomes@.len(),
            i <= n,
            s.wf(),
            s.processed == i,
            s.merged == count_of(outcomes@.take(i as int), GroupStatus::Merged),
            s.skipped == count_of(outcomes@.take(i as int), GroupStatus::Skipped),
        decreases n - i,
    {
        proof {
            assert(outcomes@.take(i + 1).drop_last() =~= outcomes@.take(i as int));
            assert(outcomes@.take(i + 1).last() == outcomes@[i as int]);
        }
        s.record(outcomes[i]);
        i = i + 1;
    }
    proof {
        assert(outcomes@.take(n as int) =~= outcomes@);
    }
    s
}

proof fn lemma_count_of_multiset(s: Seq<GroupStatus>, which: GroupStatus)
    ensures
        count_of(s, which) == s.to_multiset().count(which),
    decreases s.len(),
{
    if s.len() == 0 {
        if s.to_multiset().count(which) > 0 {
            assert(s.contains(which));
        }
    } else {
        lemma_count_of_multiset(s.drop_last(), which);
        assert(s =~= s.drop_last().push(s.last()));
        assert(s.drop_last().push(s.last()).to_multiset() =~= s.drop_last().to_multiset().insert(
            s.last(),
        ));
    }
}

/// Order independence of the run summary: two runs that record the same
/// outcomes, in whatever order each of them finishes its groups, count the
/// same number of processed, merged and skipped groups.
pub proof fn lemma_counts_order_independent(a: Seq<GroupStatus>, b: Seq<GroupStatus>)
    requires
        a.to_multiset() == b.to_multiset(),
    ensures
        a.len() == b.len(),
        forall|w: GroupStatus| #[trigger] count_of(a, w) == count_of(b, w),
{
    assert(a.len() == a.to_multiset().len());
    assert(b.len() == b.to_multiset().len());
    assert forall|w: GroupStatus| #[trigger] count_of(a, w) == count_of(b, w) by {
        lemma_count_of_multiset(a, w);
        lemma_count_of_multiset(b, w);
    }
}

} // verus!
