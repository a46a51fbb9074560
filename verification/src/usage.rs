//! How often each expert was selected.

use vstd::prelude::*;
use crate::tally::{at_most, counted, count_in, is_ranking, ranking_of, sum_over, ExpertId, Tally};

verus! {

/// Selections by expert.
pub struct UsageHistory {
    counts: Tally<ExpertId>,
}

impl View for UsageHistory {
    type V = Map<ExpertId, u64>;

    closed spec fn view(&self) -> Map<ExpertId, u64> {
        self.counts@
    }
}

impl UsageHistory {
    pub closed spec fn wf(&self) -> bool {
        self.counts.wf()
    }

    /// A history without selections.
    pub fn new() -> (h: UsageHistory)
        ensures
            h.wf(),
            h@ == Map::<ExpertId, u64>::empty(),
    {
        UsageHistory { counts: Tally::new() }
    }

    /// Counts `n` selections of an expert.
    pub fn add(&mut self, layer: usize, eid: usize, n: u64)
        requires
            old(self).wf(),
        ensures
            final(self).wf(),
            final(self)@ == counted(old(self)@, ExpertId { layer, eid }, n),
    {
        self.counts.count(ExpertId { layer, eid }, n);
    }

    /// Counts everything that a tally counted.
    pub fn add_all(&mut self, counts: &Tally<ExpertId>)
        requires
            old(self).wf(),
            counts.wf(),
        ensures
            final(self).wf(),
            final(self)@ == crate::tally::merged(old(self)@, counts@),
    {
        self.counts.absorb(counts);
    }

    /// How often an expert was selected.
    pub fn get(&self, layer: usize, eid: usize) -> (n: u64)
        requires
            self.wf(),
        ensures
            n == count_in(self@, ExpertId { layer, eid }),
    {
        self.counts.get(ExpertId { layer, eid })
    }

    /// All selections.
    pub fn total(&self) -> (n: u64)
        requires
            self.wf(),
        ensures
            n == sum_over(self@, ranking_of(self@)),
    {
        self.counts.total()
    }

    /// The selections of the `n` hottest experts.
    pub fn top_total(&self, n: usize) -> (sum: u64)
        requires
            self.wf(),
        ensures
            sum == sum_over(
                self@,
                ranking_of(self@).take(at_most(n as int, ranking_of(self@).len() as int)),
            ),
    {
        self.counts.top_total(n)
    }

    /// The selected experts, hottest first.
    pub fn ranked(&self) -> (r: Vec<ExpertId>)
        requires
            self.wf(),
        ensures
            is_ranking(r@, self@),
            r@ == ranking_of(self@),
    {
        self.counts.ranked()
    }
}

/// What was added is what is read back, and what is ranked is what was added; the totals
/// add up the counts from the hottest on.
pub proof fn totals_add_up_from_the_hottest(
    h: UsageHistory,
    r: Vec<ExpertId>,
    n: usize,
    count: u64,
    few: u64,
    more: u64,
    all: u64,
)
    requires
        h.wf(),
        n < r@.len(),
        call_ensures(UsageHistory::ranked, (&h,), r),
        call_ensures(UsageHistory::get, (&h, r@[n as int].layer, r@[n as int].eid), count),
        call_ensures(UsageHistory::top_total, (&h, n), few),
        call_ensures(UsageHistory::top_total, (&h, (n + 1) as usize), more),
        call_ensures(UsageHistory::total, (&h,), all),
    ensures
        h@.dom().contains(r@[n as int]),
        count == h@[r@[n as int]],
        n > 0 ==> h@[r@[n - 1]] >= count,
        n == 0 ==> few == 0,
        more < u64::MAX ==> more == few + count,
        more == u64::MAX ==> few + count >= u64::MAX,
        n + 1 == r@.len() ==> more == all,
{
    let k = r@[n as int];
    assert(k == (ExpertId { layer: k.layer, eid: k.eid }));
    assert(r@.contains(k));
    let longer = r@.take(n + 1);
    assert(longer.drop_last() =~= r@.take(n as int));
    assert(longer.last() == k);
    assert(r@.len() <= usize::MAX) by {
        assert(r.len() == r@.len());
    }
    if n + 1 == r@.len() {
        assert(longer =~= r@);
    }
    if n > 0 {
        assert(crate::tally::hotter(h@, r@[n - 1], k));
    }
}

/// What was added is read back on top of what was there, and no other count moves; adding
/// a whole tally adds each of its counts.
pub proof fn what_was_added_is_read_back(
    h: &mut UsageHistory,
    layer: usize,
    eid: usize,
    n: u64,
    before: u64,
    after: u64,
    other: ExpertId,
    all: &mut UsageHistory,
    counts: Tally<ExpertId>,
)
    requires
        old(h).wf(),
        call_ensures(UsageHistory::get, (&*old(h), layer, eid), before),
        call_ensures(UsageHistory::add, (h, layer, eid, n), ()),
        call_ensures(UsageHistory::get, (&*final(h), layer, eid), after),
        other != (ExpertId { layer, eid }),
        old(all).wf(),
        counts.wf(),
        call_ensures(UsageHistory::add_all, (all, &counts), ()),
    ensures
        before + n <= u64::MAX ==> after == before + n,
        before + n > u64::MAX ==> after == u64::MAX,
        count_in(final(h)@, other) == count_in(old(h)@, other),
        count_in(old(all)@, other) + count_in(counts@, other) <= u64::MAX ==> count_in(
            final(all)@,
            other,
        ) == count_in(old(all)@, other) + count_in(counts@, other),
        final(all)@.dom().contains(other) <==> old(all)@.dom().contains(other)
            || counts@.dom().contains(other),
{
}

} // verus!
