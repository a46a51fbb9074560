//! A resident, budget-bounded cache in front of any expert provider.

use std::sync::Arc;
use vstd::prelude::*;
use crate::expert::{capped, Expert, ExpertProvider, LoadError};
use crate::guard::{larger, minus, Guard, Reading, Verdict, FLOOR_MIN};
use crate::predictor::{ahead_predicts_next_layer, Predictor, PREFETCH_AHEAD_MIN, PREFETCH_AHEAD_MIN_PCT};
use crate::residency::{
    absent, eviction_keeps_order, is_resident, place_of, Entry, Holdings, State,
};
use crate::tally::{ranking_of, sum_over, ExpertId};
use crate::usage::UsageHistory;

verus! {

/// Passes that a reservation may take to free its room.
pub const MAX_PASSES: usize = 4;

/// A snapshot of the cache's counters.
#[derive(Debug, Clone, Copy, PartialEq, Eq, Structural)]
pub struct CacheStats {
    pub hits: u64,
    pub misses: u64,
    pub evictions: u64,
    /// Experts resident.
    pub resident: usize,
    /// Bytes resident.
    pub bytes: u64,
    /// Byte budget.
    pub budget: u64,
}

/// A request for the background loader: these experts of this layer.
#[derive(Debug, PartialEq, Eq)]
pub struct Ahead {
    pub layer: usize,
    pub eids: Vec<usize>,
}

/// The sum of two counts that begin again at zero behind `u64::MAX`.
pub open spec fn wrapped_sum(a: u64, b: u64) -> u64 {
    if a + b > u64::MAX {
        (a + b - 0x1_0000_0000_0000_0000) as u64
    } else {
        (a + b) as u64
    }
}

/// A reservation that still has to free its room.
#[derive(Debug, Clone, Copy, PartialEq, Eq, Structural)]
pub struct Claim {
    /// Bytes reserved.
    pub bytes: u64,
    /// Free memory that makes room for them.
    pub need: u64,
    /// Passes left.
    pub passes_left: usize,
    /// Free memory seen last.
    pub seen: u64,
}

/// A resident, budget-bounded cache in front of a provider.
pub struct ExpertCache<P: ExpertProvider> {
    /// Where experts come from on a miss.
    pub inner: P,
    /// The byte budget in force.
    pub budget: u64,
    /// The standing fill target; zero while no guard manages the budget.
    pub fill_target: u64,
    /// Free memory that a reservation has to leave.
    pub hard_floor: u64,
    /// Bytes reserved for allocations other than experts.
    pub reserved: u64,
    /// The model's routed-expert count; zero where it is not known.
    pub n_experts: u64,
    /// The bookkeeping.
    pub state: State,
    /// The next-layer predictor, once prefetching is on.
    pub predictor: Option<Predictor>,
}

/// Whether two caches differ in nothing but their bookkeeping.
pub open spec fn same_but_state<P: ExpertProvider>(a: ExpertCache<P>, b: ExpertCache<P>) -> bool {
    &&& a.inner == b.inner
    &&& a.budget == b.budget
    &&& a.fill_target == b.fill_target
    &&& a.hard_floor == b.hard_floor
    &&& a.reserved == b.reserved
    &&& a.n_experts == b.n_experts
    &&& a.predictor == b.predictor
}

/// Whether `r` is what asking for `id` comes to: the resident expert where there
/// is one, else what the provider answers.
pub open spec fn finds<P: ExpertProvider>(
    inner: P,
    h: Holdings,
    id: ExpertId,
    r: Result<Arc<Expert>, LoadError>,
) -> bool {
    if is_resident(h.entries, id) {
        r == Ok::<Arc<Expert>, LoadError>(h.entries[place_of(h.entries, id)].expert)
    } else {
        call_ensures(P::expert, (&inner, id.layer, id.eid), r)
    }
}

/// The holdings after asking for `id` came to `r`.
#[verifier::opaque]
pub open spec fn fetched(
    h: Holdings,
    id: ExpertId,
    record: bool,
    budget: u64,
    r: Result<Arc<Expert>, LoadError>,
) -> Holdings {
    match r {
        Ok(e) => h.looked_up(id, record).admitted(id, e, budget),
        Err(_) => h.looked_up(id, record),
    }
}

/// Bytes of all experts in `got`.
pub open spec fn bytes_of(got: Seq<Arc<Expert>>) -> nat
    decreases got.len(),
{
    if got.len() == 0 {
        0
    } else {
        bytes_of(got.drop_last()) + capped(got.last().held() as int) as nat
    }
}

/// The holdings after the first `n` of `ids` were fetched and pinned, where
/// fetching came to `got`.
pub open spec fn pins_made(
    h: Holdings,
    ids: Seq<ExpertId>,
    got: Seq<Arc<Expert>>,
    budget: u64,
    n: nat,
) -> Holdings
    decreases n,
{
    if n == 0 {
        h
    } else {
        let k = (n - 1) as nat;
        fetched(pins_made(h, ids, got, budget, k), ids[k as int], false, budget, Ok(got[k as int])).pinning(
            ids[k as int],
        )
    }
}

/// Whether fetching `ids` one after another, each pinned before the next, comes
/// to `got`.
pub open spec fn finds_all<P: ExpertProvider>(
    inner: P,
    h: Holdings,
    ids: Seq<ExpertId>,
    got: Seq<Arc<Expert>>,
    budget: u64,
) -> bool {
    &&& got.len() <= ids.len()
    &&& forall|k: int|
        0 <= k < got.len() ==> finds(
            inner,
            pins_made(h, ids, got, budget, k as nat),
            ids[k],
            Ok(#[trigger] got[k]),
        )
}

/// Whether pinning from the front of `ids` ends after `n` experts: the first is
/// pinned in any case, each other one fits `byte_cap` together with those before
/// it, and then all are pinned, `count_cap` is reached, or the next one, which is
/// fetched and left unpinned, does not fit.
pub open spec fn is_pinning<P: ExpertProvider>(
    inner: P,
    before: Holdings,
    ids: Seq<ExpertId>,
    budget: u64,
    byte_cap: u64,
    count_cap: nat,
    got: Seq<Arc<Expert>>,
    n: usize,
    bytes: u64,
    after: Holdings,
) -> bool {
    &&& finds_all(inner, before, ids, got, budget)
    &&& n <= got.len()
    &&& n <= count_cap
    &&& bytes == bytes_of(got.take(n as int))
    &&& forall|k: int| 1 < k <= n ==> bytes_of(#[trigger] got.take(k)) <= byte_cap
    &&& if n < ids.len() && n < count_cap {
        &&& n > 0
        &&& got.len() == n + 1
        &&& bytes_of(got) > byte_cap
        &&& after == fetched(
            pins_made(before, ids, got, budget, n as nat),
            ids[n as int],
            false,
            budget,
            Ok(got[n as int]),
        )
    } else {
        &&& got.len() == n
        &&& after == pins_made(before, ids, got, budget, n as nat)
    }
}

/// Whether pinning from the front of `ids` fails with `e`: all that were fetched
/// before are pinned, and the next one cannot be had.
pub open spec fn fails_pinning<P: ExpertProvider>(
    inner: P,
    before: Holdings,
    ids: Seq<ExpertId>,
    budget: u64,
    byte_cap: u64,
    count_cap: nat,
    got: Seq<Arc<Expert>>,
    e: LoadError,
    after: Holdings,
) -> bool {
    let h = pins_made(before, ids, got, budget, got.len());
    &&& finds_all(inner, before, ids, got, budget)
    &&& got.len() < ids.len()
    &&& got.len() < count_cap
    &&& forall|k: int| 1 < k <= got.len() ==> bytes_of(#[trigger] got.take(k)) <= byte_cap
    &&& finds(inner, h, ids[got.len() as int], Err(e))
    &&& after == fetched(h, ids[got.len() as int], false, budget, Err(e))
}

/// Whether pinning from the front of `ids` comes to `n` experts of `bytes` bytes,
/// for some answers of the provider.
pub open spec fn pins<P: ExpertProvider>(
    inner: P,
    before: Holdings,
    ids: Seq<ExpertId>,
    budget: u64,
    byte_cap: u64,
    count_cap: nat,
    n: usize,
    bytes: u64,
    after: Holdings,
) -> bool {
    exists|got: Seq<Arc<Expert>>| #[trigger]
        is_pinning(inner, before, ids, budget, byte_cap, count_cap, got, n, bytes, after)
}

/// Whether pinning from the front of `ids` comes to `n` experts, for some answers
/// of the provider.
pub open spec fn pins_count<P: ExpertProvider>(
    inner: P,
    before: Holdings,
    ids: Seq<ExpertId>,
    budget: u64,
    byte_cap: u64,
    count_cap: nat,
    n: usize,
    after: Holdings,
) -> bool {
    exists|bytes: u64| #[trigger]
        pins(inner, before, ids, budget, byte_cap, count_cap, n, bytes, after)
}

/// Whether pinning from the front of `ids` comes to the error `e`, for some
/// answers of the provider.
pub open spec fn pins_until<P: ExpertProvider>(
    inner: P,
    before: Holdings,
    ids: Seq<ExpertId>,
    budget: u64,
    byte_cap: u64,
    count_cap: nat,
    e: LoadError,
    after: Holdings,
) -> bool {
    exists|got: Seq<Arc<Expert>>| #[trigger]
        fails_pinning(inner, before, ids, budget, byte_cap, count_cap, got, e, after)
}

proof fn a_hit_stays_resident(h: Holdings, id: ExpertId, record: bool)
    ensures
        is_resident(h.entries, id) ==> is_resident(h.looked_up(id, record).entries, id),
{
    if is_resident(h.entries, id) {
        let i = place_of(h.entries, id);
        assert(h.looked_up(id, record).entries[i].id == id);
    }
}

proof fn fetching_keeps_usage(
    h: Holdings,
    id: ExpertId,
    budget: u64,
    r: Result<Arc<Expert>, LoadError>,
)
    ensures
        fetched(h, id, false, budget, r).usage == h.usage,
{
    reveal(fetched);
}

proof fn pins_made_ignores_later(
    h: Holdings,
    ids: Seq<ExpertId>,
    got: Seq<Arc<Expert>>,
    e: Arc<Expert>,
    budget: u64,
    n: nat,
)
    requires
        n <= got.len(),
    ensures
        pins_made(h, ids, got.push(e), budget, n) == pins_made(h, ids, got, budget, n),
    decreases n,
{
    if n > 0 {
        pins_made_ignores_later(h, ids, got, e, budget, (n - 1) as nat);
    }
}

proof fn finds_one_more<P: ExpertProvider>(
    inner: P,
    h: Holdings,
    ids: Seq<ExpertId>,
    got: Seq<Arc<Expert>>,
    e: Arc<Expert>,
    budget: u64,
)
    requires
        finds_all(inner, h, ids, got, budget),
        got.len() < ids.len(),
        finds(inner, pins_made(h, ids, got, budget, got.len()), ids[got.len() as int], Ok(e)),
    ensures
        finds_all(inner, h, ids, got.push(e), budget),
{
    let more = got.push(e);
    assert forall|k: int| 0 <= k < more.len() implies finds(
        inner,
        pins_made(h, ids, more, budget, k as nat),
        ids[k],
        Ok(#[trigger] more[k]),
    ) by {
        pins_made_ignores_later(h, ids, got, e, budget, k as nat);
        if k < got.len() {
            assert(more[k] == got[k]);
        }
    }
}

/// How far pinning has come: fetching came to `got`, all of it is pinned, and it
/// fits `byte_cap` but for a first expert that does not.
spec fn pinned_so_far<P: ExpertProvider>(
    inner: P,
    before: Holdings,
    ids: Seq<ExpertId>,
    budget: u64,
    byte_cap: u64,
    got: Seq<Arc<Expert>>,
    h: Holdings,
) -> bool {
    &&& finds_all(inner, before, ids, got, budget)
    &&& h == pins_made(before, ids, got, budget, got.len())
    &&& forall|k: int| 1 < k <= got.len() ==> bytes_of(#[trigger] got.take(k)) <= byte_cap
    &&& h.usage == before.usage
}

proof fn one_more_is_pinned<P: ExpertProvider>(
    inner: P,
    before: Holdings,
    ids: Seq<ExpertId>,
    budget: u64,
    byte_cap: u64,
    got: Seq<Arc<Expert>>,
    h: Holdings,
    e: Arc<Expert>,
)
    requires
        pinned_so_far(inner, before, ids, budget, byte_cap, got, h),
        got.len() < ids.len(),
        finds(inner, h, ids[got.len() as int], Ok(e)),
        got.len() == 0 || bytes_of(got) + capped(e.held() as int) <= byte_cap,
    ensures
        bytes_of(got.push(e)) == bytes_of(got) + capped(e.held() as int),
        pinned_so_far(
            inner,
            before,
            ids,
            budget,
            byte_cap,
            got.push(e),
            fetched(h, ids[got.len() as int], false, budget, Ok(e)).pinning(ids[got.len() as int]),
        ),
{
    let more = got.push(e);
    assert(more.drop_last() =~= got);
    finds_one_more(inner, before, ids, got, e, budget);
    pins_made_ignores_later(before, ids, got, e, budget, got.len());
    fetching_keeps_usage(h, ids[got.len() as int], budget, Ok(e));
    assert forall|k: int| 1 < k <= more.len() implies bytes_of(#[trigger] more.take(k))
        <= byte_cap by {
        if k <= got.len() {
            assert(more.take(k) =~= got.take(k));
        } else {
            assert(more.take(k) =~= more);
        }
    }
}

proof fn the_next_does_not_fit<P: ExpertProvider>(
    inner: P,
    before: Holdings,
    ids: Seq<ExpertId>,
    budget: u64,
    byte_cap: u64,
    count_cap: nat,
    got: Seq<Arc<Expert>>,
    h: Holdings,
    e: Arc<Expert>,
    n: usize,
    bytes: u64,
)
    requires
        pinned_so_far(inner, before, ids, budget, byte_cap, got, h),
        n == got.len(),
        0 < n < ids.len(),
        n < count_cap,
        bytes == bytes_of(got),
        finds(inner, h, ids[n as int], Ok(e)),
        bytes + capped(e.held() as int) > byte_cap,
    ensures
        pins(
            inner,
            before,
            ids,
            budget,
            byte_cap,
            count_cap,
            n,
            bytes,
            fetched(h, ids[n as int], false, budget, Ok(e)),
        ),
        fetched(h, ids[n as int], false, budget, Ok(e)).usage == before.usage,
{
    let more = got.push(e);
    assert(more.drop_last() =~= got);
    finds_one_more(inner, before, ids, got, e, budget);
    pins_made_ignores_later(before, ids, got, e, budget, got.len());
    fetching_keeps_usage(h, ids[n as int], budget, Ok(e));
    assert(more.take(n as int) =~= got);
    assert forall|k: int| 1 < k <= n implies bytes_of(#[trigger] more.take(k)) <= byte_cap by {
        assert(more.take(k) =~= got.take(k));
    }
    assert(is_pinning(
        inner,
        before,
        ids,
        budget,
        byte_cap,
        count_cap,
        more,
        n,
        bytes,
        fetched(h, ids[n as int], false, budget, Ok(e)),
    ));
}

proof fn nothing_more_to_pin<P: ExpertProvider>(
    inner: P,
    before: Holdings,
    ids: Seq<ExpertId>,
    budget: u64,
    byte_cap: u64,
    count_cap: nat,
    got: Seq<Arc<Expert>>,
    h: Holdings,
    n: usize,
    bytes: u64,
)
    requires
        pinned_so_far(inner, before, ids, budget, byte_cap, got, h),
        n == got.len(),
        n <= ids.len(),
        n <= count_cap,
        n == ids.len() || n == count_cap,
        bytes == bytes_of(got),
    ensures
        pins(inner, before, ids, budget, byte_cap, count_cap, n, bytes, h),
{
    assert(got.take(n as int) =~= got);
    assert(is_pinning(inner, before, ids, budget, byte_cap, count_cap, got, n, bytes, h));
}

proof fn the_next_cannot_be_had<P: ExpertProvider>(
    inner: P,
    before: Holdings,
    ids: Seq<ExpertId>,
    budget: u64,
    byte_cap: u64,
    count_cap: nat,
    got: Seq<Arc<Expert>>,
    h: Holdings,
    err: LoadError,
)
    requires
        pinned_so_far(inner, before, ids, budget, byte_cap, got, h),
        got.len() < ids.len(),
        got.len() < count_cap,
        finds(inner, h, ids[got.len() as int], Err(err)),
    ensures
        pins_until(
            inner,
            before,
            ids,
            budget,
            byte_cap,
            count_cap,
            err,
            fetched(h, ids[got.len() as int], false, budget, Err(err)),
        ),
        fetched(h, ids[got.len() as int], false, budget, Err(err)).usage == before.usage,
{
    fetching_keeps_usage(h, ids[got.len() as int], budget, Err(err));
    assert(fails_pinning(
        inner,
        before,
        ids,
        budget,
        byte_cap,
        count_cap,
        got,
        err,
        fetched(h, ids[got.len() as int], false, budget, Err(err)),
    ));
}

impl<P: ExpertProvider> ExpertCache<P> {
    /// The bookkeeping and the predictor are in order.
    pub open spec fn wf(&self) -> bool {
        &&& self.state.wf()
        &&& self.predictor is Some ==> self.predictor->0.wf()
    }

    /// Wraps `inner` with a cache of up to `budget_bytes`; `u64::MAX` never
    /// evicts.
    pub fn new(inner: P, budget_bytes: u64) -> (c: ExpertCache<P>)
        ensures
            c.wf(),
            c.inner == inner,
            c.budget == budget_bytes,
            c.fill_target == 0,
            c.hard_floor == 0,
            c.reserved == 0,
            c.n_experts == 0,
            c.predictor is None,
            c.state@ == Holdings::nothing(),
    {
        ExpertCache {
            inner,
            budget: budget_bytes,
            fill_target: 0,
            hard_floor: 0,
            reserved: 0,
            n_experts: 0,
            state: State::new(),
            predictor: None,
        }
    }

    /// Core access. A hit hands out the resident expert; a miss loads it, makes
    /// it resident and comes down to the budget. `record` counts the access as a
    /// router selection. A provider that fails leaves the miss counted and
    /// nothing else changed.
    pub fn fetch(&mut self, layer: usize, eid: usize, record: bool) -> (r: Result<
        Arc<Expert>,
        LoadError,
    >)
        requires
            old(self).wf(),
        ensures
            final(self).wf(),
            same_but_state(*old(self), *final(self)),
            finds(old(self).inner, old(self).state@, ExpertId { layer, eid }, r),
            final(self).state@ == fetched(
                old(self).state@,
                ExpertId { layer, eid },
                record,
                old(self).budget,
                r,
            ),
    {
        let id: ExpertId = ExpertId { layer, eid };
        proof {
            reveal(fetched);
            a_hit_stays_resident(self.state@, id, record);
        }
        match self.state.look_up(id, record) {
            Some(e) => Ok(e),
            None => {
                let answer: Result<Arc<Expert>, LoadError> = self.inner.expert(layer, eid);
                self.settle(id, answer)
            },
        }
    }

    /// The second half of a miss: takes in what the provider answered and comes
    /// down to the budget. Where the expert arrived meanwhile, the one that is
    /// there is handed out and nothing changes.
    pub fn settle(&mut self, id: ExpertId, answer: Result<Arc<Expert>, LoadError>) -> (r: Result<
        Arc<Expert>,
        LoadError,
    >)
        requires
            old(self).wf(),
        ensures
            final(self).wf(),
            same_but_state(*old(self), *final(self)),
            match answer {
                Ok(e) => {
                    &&& final(self).state@ == old(self).state@.admitted(id, e, old(self).budget)
                    &&& r == Ok::<Arc<Expert>, LoadError>(
                        if is_resident(old(self).state@.entries, id) {
                            old(self).state@.entries[place_of(
                                old(self).state@.entries,
                                id,
                            )].expert
                        } else {
                            e
                        },
                    )
                },
                Err(_) => final(self).state@ == old(self).state@ && r == answer,
            },
    {
        match answer {
            Ok(e) => Ok(self.state.let_in(id, e, self.budget)),
            Err(err) => Err(err),
        }
    }

    /// One expert that the router selected.
    pub fn expert(&mut self, layer: usize, eid: usize) -> (r: Result<Arc<Expert>, LoadError>)
        requires
            old(self).wf(),
        ensures
            final(self).wf(),
            same_but_state(*old(self), *final(self)),
            finds(old(self).inner, old(self).state@, ExpertId { layer, eid }, r),
            final(self).state@ == fetched(
                old(self).state@,
                ExpertId { layer, eid },
                true,
                old(self).budget,
                r,
            ),
    {
        self.fetch(layer, eid, true)
    }

    /// Pins an expert into the hot-store, loading it first. The load is not
    /// counted as usage.
    pub fn pin(&mut self, layer: usize, eid: usize) -> (r: Result<(), LoadError>)
        requires
            old(self).wf(),
        ensures
            final(self).wf(),
            same_but_state(*old(self), *final(self)),
            exists|f: Result<Arc<Expert>, LoadError>|
                {
                    let h = fetched(
                        old(self).state@,
                        ExpertId { layer, eid },
                        false,
                        old(self).budget,
                        f,
                    );
                    &&& #[trigger] finds(
                        old(self).inner,
                        old(self).state@,
                        ExpertId { layer, eid },
                        f,
                    )
                    &&& match r {
                        Ok(_) => f is Ok && final(self).state@ == h.pinning(ExpertId { layer, eid }),
                        Err(e) => f == Err::<Arc<Expert>, LoadError>(e) && final(self).state@ == h,
                    }
                },
    {
        let f: Result<Arc<Expert>, LoadError> = self.fetch(layer, eid, false);
        assert(finds(old(self).inner, old(self).state@, ExpertId { layer, eid }, f));
        match f {
            Ok(_) => {
                self.state.pin(ExpertId { layer, eid });
                Ok(())
            },
            Err(err) => Err(err),
        }
    }

    /// Pins the first of `ranked`, hottest first, until `byte_cap` bytes or
    /// `count_cap` experts are reached, whichever comes first; the first one in
    /// any case. Answers with how many were pinned, and their bytes.
    pub fn pin_ranked(&mut self, ranked: &Vec<ExpertId>, byte_cap: u64, count_cap: usize) -> (r:
        Result<(usize, u64), LoadError>)
        requires
            old(self).wf(),
        ensures
            final(self).wf(),
            same_but_state(*old(self), *final(self)),
            final(self).state@.usage == old(self).state@.usage,
            match r {
                Ok((n, bytes)) => pins(
                    old(self).inner,
                    old(self).state@,
                    ranked@,
                    old(self).budget,
                    byte_cap,
                    count_cap as nat,
                    n,
                    bytes,
                    final(self).state@,
                ),
                Err(e) => pins_until(
                    old(self).inner,
                    old(self).state@,
                    ranked@,
                    old(self).budget,
                    byte_cap,
                    count_cap as nat,
                    e,
                    final(self).state@,
                ),
            },
    {
        let mut bytes: u64 = 0;
        let mut n: usize = 0;
        let ghost before = self.state@;
        let ghost mut got: Seq<Arc<Expert>> = Seq::empty();
        while n < ranked.len() && n < count_cap
            invariant
                self.wf(),
                same_but_state(*old(self), *self),
                before == old(self).state@,
                n <= ranked@.len(),
                n <= count_cap,
                got.len() == n,
                pinned_so_far(
                    self.inner,
                    before,
                    ranked@,
                    self.budget,
                    byte_cap,
                    got,
                    self.state@,
                ),
                bytes == bytes_of(got),
            decreases ranked@.len() - n,
        {
            let id: ExpertId = ranked[n];
            let ghost h = self.state@;
            match self.fetch(id.layer, id.eid, false) {
                Ok(e) => {
                    let b: u64 = e.bytes();
                    if n > 0 && bytes as u128 + b as u128 > byte_cap as u128 {
                        proof {
                            the_next_does_not_fit(
                                self.inner,
                                before,
                                ranked@,
                                self.budget,
                                byte_cap,
                                count_cap as nat,
                                got,
                                h,
                                e,
                                n,
                                bytes,
                            );
                        }
                        return Ok((n, bytes));
                    }
                    proof {
                        one_more_is_pinned(
                            self.inner,
                            before,
                            ranked@,
                            self.budget,
                            byte_cap,
                            got,
                            h,
                            e,
                        );
                        got = got.push(e);
                    }
                    self.state.pin(id);
                    bytes = bytes + b;
                    n = n + 1;
                },
                Err(err) => {
                    proof {
                        the_next_cannot_be_had(
                            self.inner,
                            before,
                            ranked@,
                            self.budget,
                            byte_cap,
                            count_cap as nat,
                            got,
                            h,
                            err,
                        );
                    }
                    return Err(err);
                },
            }
        }
        proof {
            nothing_more_to_pin(
                self.inner,
                before,
                ranked@,
                self.budget,
                byte_cap,
                count_cap as nat,
                got,
                self.state@,
                n,
                bytes,
            );
        }
        Ok((n, bytes))
    }

    /// Pins the hottest experts of a usage history until `pin_budget_bytes` is
    /// reached. Answers with how many were pinned.
    pub fn warm_pin(&mut self, history: &UsageHistory, pin_budget_bytes: u64) -> (r: Result<
        usize,
        LoadError,
    >)
        requires
            old(self).wf(),
            history.wf(),
        ensures
            final(self).wf(),
            same_but_state(*old(self), *final(self)),
            final(self).state@.usage == old(self).state@.usage,
            match r {
                Ok(n) => pins_count(
                    old(self).inner,
                    old(self).state@,
                    ranking_of(history@),
                    old(self).budget,
                    pin_budget_bytes,
                    usize::MAX as nat,
                    n,
                    final(self).state@,
                ),
                Err(e) => pins_until(
                    old(self).inner,
                    old(self).state@,
                    ranking_of(history@),
                    old(self).budget,
                    pin_budget_bytes,
                    usize::MAX as nat,
                    e,
                    final(self).state@,
                ),
            },
    {
        let ranked: Vec<ExpertId> = history.ranked();
        match self.pin_ranked(&ranked, pin_budget_bytes, usize::MAX) {
            Ok((n, _)) => Ok(n),
            Err(e) => Err(e),
        }
    }

    /// Pins the hot head of a usage curve: the `knee` hottest experts, as far as
    /// they fit four fifths of the cache, so that the cold tail keeps room to
    /// stream through. Answers with how many were pinned, their bytes, and how
    /// many of the history's selections they account for.
    pub fn warm_pin_auto(
        &mut self,
        history: &UsageHistory,
        knee: usize,
        cache_budget_bytes: u64,
    ) -> (r: Result<(usize, u64, u64), LoadError>)
        requires
            old(self).wf(),
            history.wf(),
        ensures
            final(self).wf(),
            same_but_state(*old(self), *final(self)),
            final(self).state@.usage == old(self).state@.usage,
            match r {
                Ok((n, bytes, covered)) => pins(
                    old(self).inner,
                    old(self).state@,
                    ranking_of(history@),
                    old(self).budget,
                    (cache_budget_bytes / 5 * 4) as u64,
                    knee as nat,
                    n,
                    bytes,
                    final(self).state@,
                ) && covered == sum_over(history@, ranking_of(history@).take(n as int)),
                Err(e) => pins_until(
                    old(self).inner,
                    old(self).state@,
                    ranking_of(history@),
                    old(self).budget,
                    (cache_budget_bytes / 5 * 4) as u64,
                    knee as nat,
                    e,
                    final(self).state@,
                ),
            },
    {
        let ranked: Vec<ExpertId> = history.ranked();
        match self.pin_ranked(&ranked, cache_budget_bytes / 5 * 4, knee) {
            Ok((n, bytes)) => {
                let covered: u64 = history.top_total(n);
                Ok((n, bytes, covered))
            },
            Err(e) => Err(e),
        }
    }

    /// This session's selections.
    pub fn usage_snapshot(&self) -> (h: UsageHistory)
        requires
            self.wf(),
        ensures
            h.wf(),
            h@ == self.state@.usage,
    {
        let mut h: UsageHistory = UsageHistory::new();
        h.add_all(&self.state.session_usage);
        assert(h@ =~= self.state@.usage);
        h
    }

    /// How many experts are pinned.
    pub fn pinned_count(&self) -> (n: usize)
        ensures
            n == self.state@.pinned.len(),
    {
        self.state.pinned.len()
    }

    /// The counters.
    pub fn stats(&self) -> (s: CacheStats)
        requires
            self.wf(),
        ensures
            s.hits == self.state@.hits,
            s.misses == self.state@.misses,
            s.evictions == self.state@.evictions,
            s.resident == self.state@.entries.len(),
            s.bytes == capped(self.state@.bytes() as int),
            s.budget == self.budget,
    {
        CacheStats {
            hits: self.state.hits,
            misses: self.state.misses,
            evictions: self.state.evictions,
            resident: self.state.entries.len(),
            bytes: if self.state.bytes > u64::MAX as u128 {
                u64::MAX
            } else {
                self.state.bytes as u64
            },
            budget: self.budget,
        }
    }
}

/// Whether a layer's routed set is taken as the next layer's.
pub open spec fn ahead_fires(n_routed: nat, n_experts: u64) -> bool {
    n_routed >= PREFETCH_AHEAD_MIN && (n_experts == 0 || n_routed * 100 >= n_experts
        * PREFETCH_AHEAD_MIN_PCT)
}

/// Whether the provider answers a request for several experts with `r`.
pub open spec fn answers_batch<P: ExpertProvider>(
    inner: P,
    layer: usize,
    eids: Seq<usize>,
    r: Result<Vec<Arc<Expert>>, LoadError>,
) -> bool {
    exists|v: Vec<usize>|
        v@ == eids && #[trigger] call_ensures(P::experts_batch, (&inner, layer, &v), r)
}

/// Whether asking for `eids` one by one brings `loaded`: those that the provider
/// has, in order.
pub open spec fn supplied_singly<P: ExpertProvider>(
    inner: P,
    layer: usize,
    eids: Seq<usize>,
    loaded: Seq<(usize, Arc<Expert>)>,
) -> bool
    decreases eids.len(),
{
    if eids.len() == 0 {
        loaded.len() == 0
    } else {
        exists|r: Result<Arc<Expert>, LoadError>|
            {
                &&& #[trigger] call_ensures(P::expert, (&inner, layer, eids.last()), r)
                &&& match r {
                    Ok(e) => {
                        &&& loaded.len() > 0
                        &&& loaded.last() == (eids.last(), e)
                        &&& supplied_singly(inner, layer, eids.drop_last(), loaded.drop_last())
                    },
                    Err(_) => supplied_singly(inner, layer, eids.drop_last(), loaded),
                }
            }
    }
}

/// Whether the provider supplies `loaded` for `missing`: all of it where it
/// answers the whole request, else what it has of it one by one.
pub open spec fn supplied<P: ExpertProvider>(
    inner: P,
    layer: usize,
    missing: Seq<usize>,
    loaded: Seq<(usize, Arc<Expert>)>,
) -> bool {
    exists|r: Result<Vec<Arc<Expert>>, LoadError>|
        {
            &&& #[trigger] answers_batch(inner, layer, missing, r)
            &&& if r is Ok && r->Ok_0@.len() == missing.len() {
                loaded == Seq::new(missing.len(), |i: int| (missing[i], r->Ok_0@[i]))
            } else {
                supplied_singly(inner, layer, missing, loaded)
            }
        }
}

/// Whether loading `missing` leads from `before` to `after`, for some answers of
/// the provider.
pub open spec fn loads<P: ExpertProvider>(
    inner: P,
    before: Holdings,
    layer: usize,
    missing: Seq<usize>,
    budget: u64,
    after: Holdings,
) -> bool {
    exists|loaded: Seq<(usize, Arc<Expert>)>| #[trigger]
        supplied(inner, layer, missing, loaded) && after == before.batch_loaded(
            layer,
            missing,
            loaded,
            budget,
        )
}

/// Whether `r` is what the background loader is asked for while `layer` computes
/// with `eids`, and `after` is what the predictor has learned by then: the same
/// experts of the next layer where they predict it, else what the predictor
/// expects.
pub open spec fn asks_ahead(
    before: Option<Predictor>,
    after: Option<Predictor>,
    n_experts: u64,
    layer: usize,
    eids: Seq<usize>,
    ahead_on: bool,
    r: Option<Ahead>,
) -> bool {
    match before {
        None => r is None && after is None,
        Some(p) => if ahead_on && ahead_fires(eids.len(), n_experts) {
            &&& after == before
            &&& r is Some
            &&& r->0.layer == layer + 1
            &&& r->0.eids@ == eids
        } else {
            let wanted = p@.after(layer, eids).prediction((layer + 1) as usize, eids);
            &&& after is Some
            &&& after->0@ == p@.after(layer, eids)
            &&& r is None <==> wanted.len() == 0
            &&& r is Some ==> r->0.layer == layer + 1 && r->0.eids@ == wanted
        },
    }
}

/// Two caches that differ in nothing but their predictor.
pub open spec fn same_but_predictor<P: ExpertProvider>(a: ExpertCache<P>, b: ExpertCache<P>) -> bool {
    &&& a.inner == b.inner
    &&& a.budget == b.budget
    &&& a.fill_target == b.fill_target
    &&& a.hard_floor == b.hard_floor
    &&& a.reserved == b.reserved
    &&& a.n_experts == b.n_experts
    &&& a.state == b.state
}

/// What a provider hands out of `missing`, each with its number: the whole batch at
/// once, or where that fails what it has of it one by one.
pub fn load_missing<P: ExpertProvider>(inner: &P, layer: usize, missing: &Vec<usize>) -> (loaded:
    Vec<(usize, Arc<Expert>)>)
    ensures
        supplied(*inner, layer, missing@, loaded@),
        forall|j: int| 0 <= j < loaded@.len() ==> missing@.contains((#[trigger] loaded@[j]).0),
{
    let mut loaded: Vec<(usize, Arc<Expert>)> = Vec::new();
    let batch: Result<Vec<Arc<Expert>>, LoadError> = inner.experts_batch(layer, missing);
    if let Ok(all) = &batch {
        if all.len() == missing.len() {
            for i in 0..missing.len()
                invariant
                    all@.len() == missing@.len(),
                    loaded@ == Seq::new(i as nat, |j: int| (missing@[j], all@[j])),
                    forall|j: int|
                        0 <= j < loaded@.len() ==> missing@.contains(
                            (#[trigger] loaded@[j]).0,
                        ),
            {
                assert(missing@.contains(missing@[i as int]));
                loaded.push((missing[i], crate::residency::share(&all[i])));
                assert(loaded@ =~= Seq::new((i + 1) as nat, |j: int| (missing@[j], all@[j])));
            }
            assert(answers_batch(*inner, layer, missing@, batch));
            return loaded;
        }
    }
    assert(missing@.take(0) =~= Seq::<usize>::empty());
    for i in 0..missing.len()
        invariant
            supplied_singly(*inner, layer, missing@.take(i as int), loaded@),
            forall|j: int|
                0 <= j < loaded@.len() ==> missing@.contains((#[trigger] loaded@[j]).0),
    {
        let ghost before = loaded@;
        assert(missing@.contains(missing@[i as int]));
        assert(missing@.take(i + 1).drop_last() =~= missing@.take(i as int));
        let r: Result<Arc<Expert>, LoadError> = inner.expert(layer, missing[i]);
        assert(call_ensures(P::expert, (inner, layer, missing@[i as int]), r));
        if let Ok(e) = r {
            loaded.push((missing[i], e));
            assert(loaded@.drop_last() =~= before);
        }
    }
    assert(missing@.take(missing@.len() as int) =~= missing@);
    assert(answers_batch(*inner, layer, missing@, batch));
    loaded
}

impl<P: ExpertProvider> ExpertCache<P> {
    /// Loads those of `eids` that are absent. The whole batch is asked for at
    /// once; where that fails, each expert on its own, and one that cannot be
    /// had is left for later. Everything arrives together, then one eviction
    /// spares the batch. Loads are not router selections.
    pub fn load_batch(&mut self, layer: usize, eids: &Vec<usize>)
        requires
            old(self).wf(),
        ensures
            final(self).wf(),
            same_but_state(*old(self), *final(self)),
            absent(old(self).state@.entries, layer, eids@).len() == 0 ==> final(self).state@
                == old(self).state@,
            absent(old(self).state@.entries, layer, eids@).len() > 0 ==> loads(
                old(self).inner,
                old(self).state@,
                layer,
                absent(old(self).state@.entries, layer, eids@),
                old(self).budget,
                final(self).state@,
            ),
    {
        let missing: Vec<usize> = self.state.missing(layer, eids);
        if missing.len() == 0 {
            return ;
        }
        let loaded: Vec<(usize, Arc<Expert>)> = load_missing(&self.inner, layer, &missing);
        self.state.take_in(layer, &missing, &loaded, self.budget);
        assert(supplied(self.inner, layer, missing@, loaded@));
    }

    /// Turns speculative prefetch on: at most `topn` predicted experts per
    /// layer. `n_experts` is the model's routed-expert count, zero if unknown.
    pub fn enable_prefetch(&mut self, topn: usize, n_experts: u64)
        requires
            old(self).wf(),
        ensures
            final(self).wf(),
            final(self).n_experts == n_experts,
            final(self).predictor is Some,
            final(self).predictor->0@ == (crate::predictor::Learned {
                topn: topn as nat,
                freq: Map::empty(),
                trans: Map::empty(),
                last: None,
            }),
            final(self).state == old(self).state,
            final(self).budget == old(self).budget,
            final(self).fill_target == old(self).fill_target,
            final(self).hard_floor == old(self).hard_floor,
            final(self).reserved == old(self).reserved,
            final(self).inner == old(self).inner,
    {
        self.n_experts = n_experts;
        self.predictor = Some(Predictor::new(topn));
    }

    /// What the background loader is asked for while `layer` computes with
    /// `eids`: the same experts of the next layer where a layer routes to most
    /// of them and `ahead_on` allows it, else what the predictor expects.
    pub fn plan_ahead(&mut self, layer: usize, eids: &Vec<usize>, ahead_on: bool) -> (r: Option<
        Ahead,
    >)
        requires
            old(self).wf(),
            layer < usize::MAX,
        ensures
            final(self).wf(),
            same_but_predictor(*old(self), *final(self)),
            asks_ahead(
                old(self).predictor,
                final(self).predictor,
                old(self).n_experts,
                layer,
                eids@,
                ahead_on,
                r,
            ),
    {
        if self.predictor.is_none() {
            return None;
        }
        if ahead_on && ahead_predicts_next_layer(eids.len(), self.n_experts) {
            let mut copy: Vec<usize> = Vec::new();
            for i in 0..eids.len()
                invariant
                    copy@ == eids@.take(i as int),
            {
                copy.push(eids[i]);
                assert(copy@ =~= eids@.take(i + 1));
            }
            assert(copy@ =~= eids@);
            return Some(Ahead { layer: layer + 1, eids: copy });
        }
        let mut taken: Option<Predictor> = self.predictor.take();
        if let Some(mut p) = taken {
            let wanted: Vec<usize> = p.observe_and_predict(layer, eids);
            self.predictor = Some(p);
            if wanted.len() == 0 {
                return None;
            }
            return Some(Ahead { layer: layer + 1, eids: wanted });
        }
        None
    }

    /// Prepares a layer: says what the background loader is asked for while it
    /// computes, and loads those of its own experts that are absent.
    pub fn prefetch(&mut self, layer: usize, eids: &Vec<usize>, ahead_on: bool) -> (r: Option<Ahead>)
        requires
            old(self).wf(),
            layer < usize::MAX,
        ensures
            final(self).wf(),
            final(self).budget == old(self).budget,
            final(self).fill_target == old(self).fill_target,
            final(self).hard_floor == old(self).hard_floor,
            final(self).reserved == old(self).reserved,
            final(self).inner == old(self).inner,
            final(self).n_experts == old(self).n_experts,
            asks_ahead(
                old(self).predictor,
                final(self).predictor,
                old(self).n_experts,
                layer,
                eids@,
                ahead_on,
                r,
            ),
            absent(old(self).state@.entries, layer, eids@).len() == 0 ==> final(self).state@
                == old(self).state@,
            absent(old(self).state@.entries, layer, eids@).len() > 0 ==> loads(
                old(self).inner,
                old(self).state@,
                layer,
                absent(old(self).state@.entries, layer, eids@),
                old(self).budget,
                final(self).state@,
            ),
    {
        let r: Option<Ahead> = self.plan_ahead(layer, eids, ahead_on);
        self.load_batch(layer, eids);
        r
    }

    /// Puts the budget under a guard: it starts at the fill target, and the
    /// guard's ticks move it from there.
    pub fn spawn_adaptive_budget(
        &mut self,
        fill_target: u64,
        danger_floor: u64,
        hard_floor: u64,
        swap: Option<u64>,
        avail: Option<u64>,
    ) -> (g: Guard)
        requires
            old(self).wf(),
        ensures
            final(self).wf(),
            g == Guard::started(fill_target, danger_floor, hard_floor, swap, avail),
            final(self).fill_target == g.fill_target,
            final(self).hard_floor == g.hard_floor,
            final(self).budget == g.fill_target,
            final(self).reserved == old(self).reserved,
            final(self).state == old(self).state,
            final(self).inner == old(self).inner,
            final(self).n_experts == old(self).n_experts,
            final(self).predictor == old(self).predictor,
    {
        let g: Guard = Guard::start(fill_target, danger_floor, hard_floor, swap, avail);
        self.fill_target = g.fill_target;
        self.hard_floor = g.hard_floor;
        self.budget = g.fill_target;
        g
    }

    /// One tick of the guard: the budget follows its verdict, and the cache
    /// comes down to it where the verdict says so.
    pub fn guard_tick(&mut self, guard: &mut Guard, avail: u64, swap: Option<u64>)
        requires
            old(self).wf(),
        ensures
            final(self).wf(),
            *final(guard) == old(guard).after(old(self).reading(avail, swap)),
            final(self).budget == old(guard).budget_after(old(self).reading(avail, swap)),
            final(self).state@ == if old(guard).pressure(old(self).reading(avail, swap))
                != crate::guard::Pressure::Soft || final(self).budget < old(self).reading(
                avail,
                swap,
            ).resident {
                old(self).state@.evicted(final(self).budget, Seq::empty())
            } else {
                old(self).state@
            },
            final(self).fill_target == old(self).fill_target,
            final(self).hard_floor == old(self).hard_floor,
            final(self).reserved == old(self).reserved,
            final(self).inner == old(self).inner,
            final(self).n_experts == old(self).n_experts,
            final(self).predictor == old(self).predictor,
    {
        let resident: u64 = self.stats().bytes;
        let v: Verdict = guard.tick(
            Reading { avail, swap, resident, budget: self.budget, reserved: self.reserved },
        );
        self.budget = v.budget;
        if v.evict {
            self.state.evict_to(v.budget);
        }
    }

    /// What the guard sees of this cache at a tick.
    pub open spec fn reading(self, avail: u64, swap: Option<u64>) -> Reading {
        Reading {
            avail,
            swap,
            resident: capped(self.state@.bytes() as int),
            budget: self.budget,
            reserved: self.reserved,
        }
    }

    /// Reserves `bytes` for an allocation other than experts. `None` grants it
    /// at once: nothing manages the budget, the system tells nothing of its
    /// memory, or there is room. Otherwise the claim has to make room by
    /// `reserve_pass`, and `reserve_finish` settles it. The count of what is reserved
    /// wraps.
    pub fn reserve_ram(&mut self, bytes: u64, avail: Option<u64>) -> (r: Option<Claim>)
        requires
            old(self).wf(),
        ensures
            final(self).wf(),
            final(self).reserved == wrapped_sum(old(self).reserved, bytes),
            final(self).state == old(self).state,
            final(self).budget == old(self).budget,
            final(self).fill_target == old(self).fill_target,
            final(self).hard_floor == old(self).hard_floor,
            final(self).inner == old(self).inner,
            final(self).n_experts == old(self).n_experts,
            final(self).predictor == old(self).predictor,
            r == if old(self).fill_target == 0 || avail is None || avail->0 >= capped(
                bytes + old(self).hard_floor,
            ) {
                None::<Claim>
            } else {
                Some(
                    Claim {
                        bytes,
                        need: capped(bytes + old(self).hard_floor),
                        passes_left: MAX_PASSES,
                        seen: avail->0,
                    },
                )
            },
    {
        self.reserved = self.reserved.wrapping_add(bytes);
        if self.fill_target == 0 {
            return None;
        }
        match avail {
            None => None,
            Some(a) => {
                let need: u64 = bytes.saturating_add(self.hard_floor);
                if a >= need {
                    None
                } else {
                    Some(Claim { bytes, need, passes_left: MAX_PASSES, seen: a })
                }
            },
        }
    }

    /// Whether a pass at free memory `now` evicts anything: room is still
    /// missing, and the cache is above the smallest budget.
    pub open spec fn pass_evicts(self, c: Claim, now: Option<u64>) -> bool {
        &&& c.passes_left > 0
        &&& now is Some
        &&& now->0 < c.need
        &&& self.pass_target(c, now->0) < capped(self.state@.bytes() as int)
    }

    /// The budget of a pass: what is resident less what is still missing.
    pub open spec fn pass_target(self, c: Claim, now: u64) -> u64 {
        larger(minus(capped(self.state@.bytes() as int), (c.need - now) as u64), FLOOR_MIN)
    }

    /// One pass of making room, at free memory `now`. Freeing cache does not
    /// raise free memory by as much, so each pass looks again and evicts the
    /// remainder. Answers whether another pass may help.
    pub fn reserve_pass(&mut self, c: &mut Claim, now: Option<u64>) -> (more: bool)
        requires
            old(self).wf(),
        ensures
            final(self).wf(),
            more == old(self).pass_evicts(*old(c), now),
            final(c).bytes == old(c).bytes,
            final(c).need == old(c).need,
            final(c).seen == if old(c).passes_left > 0 && now is Some {
                now->0
            } else {
                old(c).seen
            },
            final(c).passes_left == if more { (old(c).passes_left - 1) as usize } else { 0 },
            more ==> {
                &&& final(self).budget == old(self).pass_target(*old(c), now->0)
                &&& final(self).state@ == old(self).state@.evicted(
                    final(self).budget,
                    Seq::empty(),
                )
            },
            !more ==> final(self).budget == old(self).budget && final(self).state@ == old(
                self,
            ).state@,
            final(self).reserved == old(self).reserved,
            final(self).fill_target == old(self).fill_target,
            final(self).hard_floor == old(self).hard_floor,
            final(self).inner == old(self).inner,
            final(self).n_experts == old(self).n_experts,
            final(self).predictor == old(self).predictor,
    {
        if c.passes_left == 0 {
            return false;
        }
        let left: usize = c.passes_left - 1;
        c.passes_left = 0;
        match now {
            None => false,
            Some(a) => {
                c.seen = a;
                if a >= c.need {
                    return false;
                }
                let held: u64 = self.stats().bytes;
                let less: u64 = held.saturating_sub(c.need - a);
                let target: u64 = if less >= FLOOR_MIN { less } else { FLOOR_MIN };
                if target >= held {
                    return false;
                }
                self.state.evict_to(target);
                self.budget = target;
                c.passes_left = left;
                true
            },
        }
    }

    /// Settles a claim on a fresh look at free memory, or on the last one seen.
    /// A refused claim is rolled back.
    pub fn reserve_finish(&mut self, c: Claim, fresh: Option<u64>) -> (ok: bool)
        requires
            old(self).wf(),
        ensures
            final(self).wf(),
            ok == (match fresh {
                Some(a) => a,
                None => c.seen,
            } >= c.need),
            final(self).reserved == if ok {
                old(self).reserved
            } else {
                minus(old(self).reserved, c.bytes)
            },
            final(self).state == old(self).state,
            final(self).budget == old(self).budget,
            final(self).fill_target == old(self).fill_target,
            final(self).hard_floor == old(self).hard_floor,
            final(self).inner == old(self).inner,
            final(self).n_experts == old(self).n_experts,
            final(self).predictor == old(self).predictor,
    {
        let seen: u64 = match fresh {
            Some(a) => a,
            None => c.seen,
        };
        let ok: bool = seen >= c.need;
        if !ok {
            self.release_ram(c.bytes);
        }
        ok
    }

    /// Releases a reservation. Only the counter drops; the guard lets the cache
    /// grow back at its own pace.
    pub fn release_ram(&mut self, bytes: u64)
        requires
            old(self).wf(),
        ensures
            final(self).wf(),
            final(self).reserved == minus(old(self).reserved, bytes),
            final(self).state == old(self).state,
            final(self).budget == old(self).budget,
            final(self).fill_target == old(self).fill_target,
            final(self).hard_floor == old(self).hard_floor,
            final(self).inner == old(self).inner,
            final(self).n_experts == old(self).n_experts,
            final(self).predictor == old(self).predictor,
    {
        self.reserved = self.reserved.saturating_sub(bytes);
    }
}

/// Releasing what was reserved leaves the reservations as they were, as long as
/// their sum can be counted.
pub proof fn release_undoes_reserve(reserved: u64, bytes: u64)
    requires
        reserved + bytes <= u64::MAX,
    ensures
        minus(wrapped_sum(reserved, bytes), bytes) == reserved,
{
}

/// A resident expert is handed out as it is, and the request is a hit; nothing is loaded
/// or given up for it.
pub proof fn a_resident_expert_is_handed_out<P: ExpertProvider>(
    c: &mut ExpertCache<P>,
    layer: usize,
    eid: usize,
    record: bool,
    r: Result<Arc<Expert>, LoadError>,
    i: int,
)
    requires
        old(c).wf(),
        call_ensures(ExpertCache::<P>::fetch, (c, layer, eid, record), r),
        0 <= i < old(c).state.entries@.len(),
        old(c).state.entries@[i].id == (ExpertId { layer, eid }),
        old(c).state.hits < u64::MAX,
    ensures
        r == Ok::<Arc<Expert>, LoadError>(old(c).state.entries@[i].expert),
        final(c).state.hits == old(c).state.hits + 1,
        final(c).state.misses == old(c).state.misses,
        final(c).state.evictions == old(c).state.evictions,
        final(c).state.entries@.len() == old(c).state.entries@.len(),
        final(c).state.entries@[i].last == final(c).state.clock,
        final(c).state.entries@[i].expert == old(c).state.entries@[i].expert,
        final(c).budget == old(c).budget,
{
    reveal(fetched);
    let id = ExpertId { layer, eid };
    let h = old(c).state@;
    let f = final(c).state@;
    assert(h.entries[i].id == id);
    assert(is_resident(h.entries, id));
    let p = place_of(h.entries, id);
    assert(0 <= p < h.entries.len() && h.entries[p].id == id);
    assert(p == i);
    a_hit_stays_resident(h, id, record);
    assert(f.hits == final(c).state.hits && f.entries == final(c).state.entries@);
}

/// An expert that is not resident is asked of the provider and counted as missed. What
/// the provider answers is handed on; what it has is resident behind the others where
/// there is room, and a refusal changes nothing else.
pub proof fn a_missing_expert_is_loaded<P: ExpertProvider>(
    c: &mut ExpertCache<P>,
    layer: usize,
    eid: usize,
    record: bool,
    r: Result<Arc<Expert>, LoadError>,
)
    requires
        old(c).wf(),
        call_ensures(ExpertCache::<P>::fetch, (c, layer, eid, record), r),
        forall|k: int|
            0 <= k < old(c).state.entries@.len() ==> (#[trigger] old(c).state.entries@[k]).id != (
            ExpertId { layer, eid }),
        old(c).state.misses < u64::MAX,
        old(c).state.entries@.len() < usize::MAX,
    ensures
        call_ensures(P::expert, (&old(c).inner, layer, eid), r),
        final(c).state.misses == old(c).state.misses + 1,
        final(c).state.hits == old(c).state.hits,
        r is Err ==> final(c).state.entries@ == old(c).state.entries@ && final(c).state.evictions
            == old(c).state.evictions,
        r matches Ok(e) ==> old(c).state.bytes + e.held() <= old(c).budget ==> {
            let last = final(c).state.entries@.last();
            &&& final(c).state.entries@.len() == old(c).state.entries@.len() + 1
            &&& final(c).state.entries@.drop_last() == old(c).state.entries@
            &&& last.id == (ExpertId { layer, eid }) && last.expert == e && last.bytes == e.held()
            &&& last.last == final(c).state.clock && last.heat == 1
            &&& final(c).state.evictions == old(c).state.evictions
        },
        final(c).state.bytes <= old(c).budget || r is Err || forall|k: int|
            0 <= k < final(c).state.entries@.len() ==> old(c).state.pinned@.contains(
                (#[trigger] final(c).state.entries@[k]).id,
            ),
{
    reveal(fetched);
    let id = ExpertId { layer, eid };
    let h = old(c).state@;
    let f = final(c).state@;
    assert(!is_resident(h.entries, id));
    assert(f.entries == final(c).state.entries@ && f.misses == final(c).state.misses && f.hits
        == final(c).state.hits && f.evictions == final(c).state.evictions);
    if let Ok(e) = r {
        let l = h.looked_up(id, record);
        let a = l.arrived(id, e);
        assert(l.entries == h.entries);
        assert(a.entries.drop_last() =~= h.entries);
        crate::residency::arrival_keeps_residents(l, id, e);
        if f.bytes() > old(c).budget {
            crate::residency::eviction_meets_the_budget(a, old(c).budget, Seq::empty());
            assert forall|k: int| 0 <= k < f.entries.len() implies h.pinned.contains(
                (#[trigger] f.entries[k]).id,
            ) by {
                assert(a.evicted(old(c).budget, Seq::empty()).entries[k].id == f.entries[k].id);
            }
        }
    }
}

/// Only what the router selected counts as use: by one for that expert, and for no other.
pub proof fn only_selections_count_as_use<P: ExpertProvider>(
    c: &mut ExpertCache<P>,
    d: &mut ExpertCache<P>,
    layer: usize,
    eid: usize,
    other: ExpertId,
    r: Result<Arc<Expert>, LoadError>,
    s: Result<Arc<Expert>, LoadError>,
)
    requires
        old(c).wf(),
        old(d).wf(),
        call_ensures(ExpertCache::<P>::expert, (c, layer, eid), r),
        call_ensures(ExpertCache::<P>::fetch, (d, layer, eid, false), s),
        crate::tally::count_in(old(c).state@.usage, ExpertId { layer, eid }) < u64::MAX,
        other != (ExpertId { layer, eid }),
    ensures
        crate::tally::count_in(final(c).state@.usage, ExpertId { layer, eid })
            == crate::tally::count_in(old(c).state@.usage, ExpertId { layer, eid }) + 1,
        crate::tally::count_in(final(c).state@.usage, other) == crate::tally::count_in(
            old(c).state@.usage,
            other,
        ),
        final(d).state@.usage == old(d).state@.usage,
{
    reveal(fetched);
}

proof fn fetching_keeps_pins(
    h: Holdings,
    id: ExpertId,
    record: bool,
    budget: u64,
    r: Result<Arc<Expert>, LoadError>,
)
    ensures
        fetched(h, id, record, budget, r).pinned == h.pinned,
{
    reveal(fetched);
}

/// An expert that was pinned is among the pinned ones; one that could not be had is not
/// pinned, and no other pin is touched. Pinning is not a selection.
pub proof fn pinning_pins_what_it_loads<P: ExpertProvider>(
    c: &mut ExpertCache<P>,
    layer: usize,
    eid: usize,
    other: ExpertId,
    r: Result<(), LoadError>,
)
    requires
        old(c).wf(),
        call_ensures(ExpertCache::<P>::pin, (c, layer, eid), r),
        other != (ExpertId { layer, eid }),
    ensures
        r is Ok ==> final(c).state.pinned@.contains(ExpertId { layer, eid }),
        r is Err ==> final(c).state.pinned@ == old(c).state.pinned@,
        final(c).state.pinned@.contains(other) <==> old(c).state.pinned@.contains(other),
        final(c).state@.usage == old(c).state@.usage,
{
    let id = ExpertId { layer, eid };
    let h = old(c).state@;
    let f = choose|f: Result<Arc<Expert>, LoadError>|
        {
            let h = fetched(old(c).state@, ExpertId { layer, eid }, false, old(c).budget, f);
            &&& #[trigger] finds(old(c).inner, old(c).state@, ExpertId { layer, eid }, f)
            &&& match r {
                Ok(_) => f is Ok && final(c).state@ == h.pinning(ExpertId { layer, eid }),
                Err(e) => f == Err::<Arc<Expert>, LoadError>(e) && final(c).state@ == h,
            }
        };
    fetching_keeps_pins(h, id, false, old(c).budget, f);
    fetching_keeps_usage(h, id, old(c).budget, f);
    let m = fetched(h, id, false, old(c).budget, f);
    assert(final(c).state@.pinned == final(c).state.pinned@);
    pinned_once_more(m, id, id);
    pinned_once_more(m, id, other);
}

proof fn pinned_once_more(h: Holdings, id: ExpertId, x: ExpertId)
    ensures
        h.pinning(id).pinned.contains(x) <==> h.pinned.contains(x) || x == id,
{
    if !h.pinned.contains(id) {
        let more = h.pinned.push(id);
        assert(more[h.pinned.len() as int] == id);
        if h.pinned.contains(x) {
            let k = choose|k: int| 0 <= k < h.pinned.len() && h.pinned[k] == x;
            assert(more[k] == x);
        }
    }
}

proof fn exactly_these_are_pinned(
    h: Holdings,
    ids: Seq<ExpertId>,
    got: Seq<Arc<Expert>>,
    budget: u64,
    n: nat,
    x: ExpertId,
)
    requires
        n <= ids.len(),
    ensures
        pins_made(h, ids, got, budget, n).pinned.contains(x) <==> h.pinned.contains(x) || exists|k: int|
            0 <= k < n && #[trigger] ids[k] == x,
    decreases n,
{
    if n > 0 {
        let k = (n - 1) as nat;
        exactly_these_are_pinned(h, ids, got, budget, k, x);
        let before = pins_made(h, ids, got, budget, k);
        fetching_keeps_pins(before, ids[k as int], false, budget, Ok(got[k as int]));
        pinned_once_more(
            fetched(before, ids[k as int], false, budget, Ok(got[k as int])),
            ids[k as int],
            x,
        );
    }
}

/// The experts that are pinned from a list are its first ones, as many as are answered,
/// and nothing else is pinned.
pub proof fn the_head_of_the_list_is_pinned<P: ExpertProvider>(
    c: &mut ExpertCache<P>,
    ranked: Vec<ExpertId>,
    byte_cap: u64,
    count_cap: usize,
    n: usize,
    bytes: u64,
    x: ExpertId,
)
    requires
        old(c).wf(),
        call_ensures(
            ExpertCache::<P>::pin_ranked,
            (c, &ranked, byte_cap, count_cap),
            Ok::<(usize, u64), LoadError>((n, bytes)),
        ),
    ensures
        n <= ranked@.len() && n <= count_cap,
        n > 1 ==> bytes <= byte_cap,
        n == 0 ==> bytes == 0 && (ranked@.len() == 0 || count_cap == 0),
        final(c).state.pinned@.contains(x) <==> old(c).state.pinned@.contains(x) || exists|k: int|
            0 <= k < n && #[trigger] ranked@[k] == x,
        final(c).state@.usage == old(c).state@.usage,
{
    let h = old(c).state@;
    let f = final(c).state@;
    let budget = old(c).budget;
    let ids = ranked@;
    let got = choose|got: Seq<Arc<Expert>>| #[trigger]
        is_pinning(old(c).inner, h, ids, budget, byte_cap, count_cap as nat, got, n, bytes, f);
    assert(f.pinned == final(c).state.pinned@ && h.pinned == old(c).state.pinned@);
    exactly_these_are_pinned(h, ids, got, budget, n as nat, x);
    if n < ids.len() && n < count_cap {
        fetching_keeps_pins(
            pins_made(h, ids, got, budget, n as nat),
            ids[n as int],
            false,
            budget,
            Ok(got[n as int]),
        );
    }
    if n > 1 {
        assert(bytes_of(got.take(n as int)) <= byte_cap);
    }
    if n == 0 {
        assert(got.take(0).len() == 0);
    }
}

/// Whether every resident expert holds `size` bytes.
pub open spec fn are_sized(entries: Seq<Entry>, size: nat) -> bool {
    forall|i: int| 0 <= i < entries.len() ==> (#[trigger] entries[i]).expert.held() == size
}

/// Whether every expert that a provider hands out holds `size` bytes.
pub open spec fn provides_sized<P: ExpertProvider>(inner: P, size: nat) -> bool {
    forall|layer: usize, eid: usize, e: Arc<Expert>| #[trigger]
        call_ensures(P::expert, (&inner, layer, eid), Ok(e)) ==> e.held() == size
}

proof fn fetching_keeps_sizes(h: Holdings, id: ExpertId, budget: u64, e: Arc<Expert>, size: nat)
    requires
        h.valid(),
        are_sized(h.entries, size),
        e.held() == size,
    ensures
        fetched(h, id, false, budget, Ok(e)).valid(),
        are_sized(fetched(h, id, false, budget, Ok(e)).entries, size),
{
    reveal(fetched);
    let l = h.looked_up(id, false);
    crate::residency::asking_keeps_what_is_resident(h, id, false);
    assert(are_sized(l.entries, size)) by {
        assert forall|i: int| 0 <= i < l.entries.len() implies (#[trigger] l.entries[i]).expert.held()
            == size by {
            assert(l.entries[i].expert == h.entries[i].expert);
        }
    }
    if !is_resident(l.entries, id) {
        let a = l.arrived(id, e);
        crate::residency::arrival_keeps_residents(l, id, e);
        assert(are_sized(a.entries, size));
        eviction_keeps_order(a, budget, Seq::empty());
        let left = a.evicted(budget, Seq::empty()).entries;
        assert forall|i: int| 0 <= i < left.len() implies (#[trigger] left[i]).expert.held()
            == size by {
            assert(a.entries.contains(left[i]));
            let k = choose|k: int| 0 <= k < a.entries.len() && a.entries[k] == left[i];
            assert(a.entries[k].expert.held() == size);
        }
    }
}

proof fn one_more_pin_is_sized(
    h: Holdings,
    id: ExpertId,
    budget: u64,
    e: Arc<Expert>,
    size: nat,
)
    requires
        h.valid(),
        are_sized(h.entries, size),
        e.held() == size,
    ensures
        fetched(h, id, false, budget, Ok(e)).pinning(id).valid(),
        are_sized(fetched(h, id, false, budget, Ok(e)).pinning(id).entries, size),
{
    fetching_keeps_sizes(h, id, budget, e, size);
}

proof fn pinned_experts_are_sized<P: ExpertProvider>(
    inner: P,
    h: Holdings,
    ids: Seq<ExpertId>,
    got: Seq<Arc<Expert>>,
    budget: u64,
    size: nat,
    n: nat,
)
    requires
        h.valid(),
        are_sized(h.entries, size),
        provides_sized(inner, size),
        finds_all(inner, h, ids, got, budget),
        n <= got.len(),
    ensures
        pins_made(h, ids, got, budget, n).valid(),
        are_sized(pins_made(h, ids, got, budget, n).entries, size),
        n < got.len() ==> got[n as int].held() == size,
    decreases n,
{
    if n > 0 {
        let k = (n - 1) as nat;
        pinned_experts_are_sized(inner, h, ids, got, budget, size, k);
        one_more_pin_is_sized(
            pins_made(h, ids, got, budget, k),
            ids[k as int],
            budget,
            got[k as int],
            size,
        );
    }
    if n < got.len() {
        let m = pins_made(h, ids, got, budget, n);
        let id = ids[n as int];
        assert(finds(inner, m, id, Ok(got[n as int])));
        found_experts_are_sized(inner, m, id, got[n as int], size);
    }
}

proof fn found_experts_are_sized<P: ExpertProvider>(
    inner: P,
    h: Holdings,
    id: ExpertId,
    e: Arc<Expert>,
    size: nat,
)
    requires
        are_sized(h.entries, size),
        provides_sized(inner, size),
        finds(inner, h, id, Ok(e)),
    ensures
        e.held() == size,
{
    if is_resident(h.entries, id) {
        let p = place_of(h.entries, id);
        assert(0 <= p < h.entries.len() && h.entries[p].id == id);
        assert(h.entries[p].expert.held() == size);
    }
}

proof fn sized_bytes_add_up<P: ExpertProvider>(
    inner: P,
    h: Holdings,
    ids: Seq<ExpertId>,
    got: Seq<Arc<Expert>>,
    budget: u64,
    size: nat,
    n: nat,
)
    requires
        h.valid(),
        are_sized(h.entries, size),
        provides_sized(inner, size),
        finds_all(inner, h, ids, got, budget),
        n <= got.len(),
        size <= u64::MAX,
    ensures
        bytes_of(got.take(n as int)) == n * size,
    decreases n,
{
    if n == 0 {
        assert(got.take(0).len() == 0);
        assert(0 * size == 0);
    } else {
        let k = (n - 1) as nat;
        sized_bytes_add_up(inner, h, ids, got, budget, size, k);
        pinned_experts_are_sized(inner, h, ids, got, budget, size, k);
        let longer = got.take(n as int);
        assert(longer.drop_last() =~= got.take(k as int));
        assert(longer.last() == got[k as int]);
        assert(n * size == k * size + size) by (nonlinear_arith)
            requires
                n == k + 1,
        ;
    }
}

/// Of experts of one size, as many are pinned as fit the cap: the first in any case, and
/// then one more as long as there is one, the count allows it and the bytes do.
pub proof fn as_many_are_pinned_as_fit<P: ExpertProvider>(
    c: &mut ExpertCache<P>,
    ranked: Vec<ExpertId>,
    byte_cap: u64,
    count_cap: usize,
    n: usize,
    bytes: u64,
    size: nat,
)
    requires
        old(c).wf(),
        call_ensures(
            ExpertCache::<P>::pin_ranked,
            (c, &ranked, byte_cap, count_cap),
            Ok::<(usize, u64), LoadError>((n, bytes)),
        ),
        are_sized(old(c).state.entries@, size),
        provides_sized(old(c).inner, size),
        size <= u64::MAX,
    ensures
        bytes == n * size,
        n > 1 ==> n * size <= byte_cap,
        n < ranked@.len() && n < count_cap ==> n >= 1 && (n + 1) * size > byte_cap,
{
    pins_as_many_as_fit(
        old(c).inner,
        old(c).state@,
        ranked@,
        old(c).budget,
        byte_cap,
        count_cap as nat,
        n,
        bytes,
        final(c).state@,
        size,
    );
}

proof fn pins_as_many_as_fit<P: ExpertProvider>(
    inner: P,
    before: Holdings,
    ids: Seq<ExpertId>,
    budget: u64,
    byte_cap: u64,
    count_cap: nat,
    n: usize,
    bytes: u64,
    after: Holdings,
    size: nat,
)
    requires
        before.valid(),
        pins(inner, before, ids, budget, byte_cap, count_cap, n, bytes, after),
        are_sized(before.entries, size),
        provides_sized(inner, size),
        size <= u64::MAX,
    ensures
        n <= ids.len() && n <= count_cap,
        bytes == n * size,
        n > 1 ==> n * size <= byte_cap,
        n < ids.len() && n < count_cap ==> n >= 1 && (n + 1) * size > byte_cap,
{
    let got = choose|got: Seq<Arc<Expert>>| #[trigger]
        is_pinning(inner, before, ids, budget, byte_cap, count_cap, got, n, bytes, after);
    sized_bytes_add_up(inner, before, ids, got, budget, size, n as nat);
    sized_bytes_add_up(inner, before, ids, got, budget, size, got.len());
    assert(got.take(got.len() as int) =~= got);
    if n > 1 {
        assert(bytes_of(got.take(n as int)) <= byte_cap);
    }
}

/// Warming pins the hottest experts of a history, as many as fit: all the budget that is
/// given, or four fifths of the cache up to the knee. What is answered as covered is what
/// the history counts for those.
pub proof fn warming_pins_the_hottest<P: ExpertProvider>(
    c: &mut ExpertCache<P>,
    d: &mut ExpertCache<P>,
    history: UsageHistory,
    ranked: Vec<ExpertId>,
    budget: u64,
    knee: usize,
    n: usize,
    auto: (usize, u64, u64),
    hottest: u64,
    size: nat,
)
    requires
        old(c).wf(),
        old(d).wf(),
        history.wf(),
        call_ensures(UsageHistory::ranked, (&history,), ranked),
        call_ensures(
            ExpertCache::<P>::warm_pin,
            (c, &history, budget),
            Ok::<usize, LoadError>(n),
        ),
        call_ensures(
            ExpertCache::<P>::warm_pin_auto,
            (d, &history, knee, budget),
            Ok::<(usize, u64, u64), LoadError>(auto),
        ),
        call_ensures(UsageHistory::top_total, (&history, auto.0), hottest),
        are_sized(old(c).state.entries@, size),
        are_sized(old(d).state.entries@, size),
        provides_sized(old(c).inner, size),
        provides_sized(old(d).inner, size),
        size <= u64::MAX,
        ranked@.len() < usize::MAX,
    ensures
        n <= ranked@.len(),
        n > 1 ==> n * size <= budget,
        n < ranked@.len() ==> n >= 1 && (n + 1) * size > budget,
        auto.0 <= ranked@.len() && auto.0 <= knee,
        auto.1 == auto.0 * size,
        auto.0 > 1 ==> 5 * auto.1 <= 4 * budget,
        auto.0 < ranked@.len() && auto.0 < knee ==> auto.0 >= 1 && 5 * ((auto.0 + 1) * size) + 16
            > 4 * budget,
        auto.2 == hottest,
{
    let ids = ranked@;
    let bytes = choose|bytes: u64| #[trigger]
        pins(
            old(c).inner,
            old(c).state@,
            ids,
            old(c).budget,
            budget,
            usize::MAX as nat,
            n,
            bytes,
            final(c).state@,
        );
    pins_as_many_as_fit(
        old(c).inner,
        old(c).state@,
        ids,
        old(c).budget,
        budget,
        usize::MAX as nat,
        n,
        bytes,
        final(c).state@,
        size,
    );
    pins_as_many_as_fit(
        old(d).inner,
        old(d).state@,
        ids,
        old(d).budget,
        (budget / 5 * 4) as u64,
        knee as nat,
        auto.0,
        auto.1,
        final(d).state@,
        size,
    );
}

proof fn singles_are_among_the_asked<P: ExpertProvider>(
    inner: P,
    layer: usize,
    eids: Seq<usize>,
    loaded: Seq<(usize, Arc<Expert>)>,
)
    requires
        supplied_singly(inner, layer, eids, loaded),
    ensures
        loaded.len() <= eids.len(),
        forall|j: int| 0 <= j < loaded.len() ==> eids.contains((#[trigger] loaded[j]).0),
    decreases eids.len(),
{
    if eids.len() > 0 {
        let r = choose|r: Result<Arc<Expert>, LoadError>|
            {
                &&& #[trigger] call_ensures(P::expert, (&inner, layer, eids.last()), r)
                &&& match r {
                    Ok(e) => {
                        &&& loaded.len() > 0
                        &&& loaded.last() == (eids.last(), e)
                        &&& supplied_singly(inner, layer, eids.drop_last(), loaded.drop_last())
                    },
                    Err(_) => supplied_singly(inner, layer, eids.drop_last(), loaded),
                }
            };
        let front = eids.drop_last();
        let rest = if r is Ok {
            loaded.drop_last()
        } else {
            loaded
        };
        singles_are_among_the_asked(inner, layer, front, rest);
        assert forall|j: int| 0 <= j < loaded.len() implies eids.contains((#[trigger] loaded[j]).0) by {
            if j < rest.len() {
                assert(rest[j] == loaded[j]);
                let k = choose|k: int| 0 <= k < front.len() && front[k] == loaded[j].0;
                assert(eids[k] == loaded[j].0);
            } else {
                assert(eids[eids.len() - 1] == loaded[j].0);
            }
        }
    }
}

proof fn what_is_supplied_was_asked_for<P: ExpertProvider>(
    inner: P,
    layer: usize,
    missing: Seq<usize>,
    loaded: Seq<(usize, Arc<Expert>)>,
)
    requires
        supplied(inner, layer, missing, loaded),
    ensures
        loaded.len() <= missing.len(),
        forall|j: int| 0 <= j < loaded.len() ==> missing.contains((#[trigger] loaded[j]).0),
        (forall|v: Vec<usize>, r: Result<Vec<Arc<Expert>>, LoadError>| #[trigger]
            call_ensures(P::experts_batch, (&inner, layer, &v), r) ==> r is Ok && r->Ok_0@.len()
                == v@.len()) ==> loaded.len() == missing.len() && forall|j: int|
            0 <= j < loaded.len() ==> (#[trigger] loaded[j]).0 == missing[j],
{
    let r = choose|r: Result<Vec<Arc<Expert>>, LoadError>|
        {
            &&& #[trigger] answers_batch(inner, layer, missing, r)
            &&& if r is Ok && r->Ok_0@.len() == missing.len() {
                loaded == Seq::new(missing.len(), |i: int| (missing[i], r->Ok_0@[i]))
            } else {
                supplied_singly(inner, layer, missing, loaded)
            }
        };
    let v = choose|v: Vec<usize>|
        v@ == missing && #[trigger] call_ensures(P::experts_batch, (&inner, layer, &v), r);
    if r is Ok && r->Ok_0@.len() == missing.len() {
        assert forall|j: int| 0 <= j < loaded.len() implies missing.contains(
            (#[trigger] loaded[j]).0,
        ) by {
            assert(missing[j] == loaded[j].0);
        }
    } else {
        singles_are_among_the_asked(inner, layer, missing, loaded);
    }
}

/// A load brings what was asked for and not there, and nothing else; it is no selection
/// and takes no tick. From a provider that has all of it, all of it is there afterwards.
pub proof fn a_load_brings_what_was_asked_for<P: ExpertProvider>(
    c: &mut ExpertCache<P>,
    layer: usize,
    eids: Vec<usize>,
    i: int,
    j: int,
)
    requires
        old(c).wf(),
        call_ensures(ExpertCache::<P>::load_batch, (c, layer, &eids), ()),
        0 <= i < eids@.len(),
        0 <= j < final(c).state.entries@.len(),
    ensures
        ({
            let e = final(c).state.entries@[j];
            old(c).state.entries@.contains(e) || e.id.layer == layer && eids@.contains(e.id.eid)
        }),
        (forall|v: Vec<usize>, r: Result<Vec<Arc<Expert>>, LoadError>| #[trigger]
            call_ensures(P::experts_batch, (&old(c).inner, layer, &v), r) ==> r is Ok
                && r->Ok_0@.len() == v@.len()) && !is_resident(
            old(c).state.entries@,
            ExpertId { layer, eid: eids@[i] },
        ) ==> is_resident(final(c).state.entries@, ExpertId { layer, eid: eids@[i] }),
        final(c).state@.usage == old(c).state@.usage,
        final(c).state.clock == old(c).state.clock,
        final(c).state.hits == old(c).state.hits,
        final(c).state.pinned@ == old(c).state.pinned@,
        final(c).budget == old(c).budget,
{
    let h = old(c).state@;
    let f = final(c).state@;
    assert(f.entries == final(c).state.entries@ && h.entries == old(c).state.entries@);
    assert(f.clock == final(c).state.clock && f.hits == final(c).state.hits && f.pinned
        == final(c).state.pinned@);
    let missing = absent(h.entries, layer, eids@);
    absent_are_asked_for(h.entries, layer, eids@);
    let id = ExpertId { layer, eid: eids@[i] };
    if missing.len() == 0 {
        assert(h.entries.contains(f.entries[j]));
        if !is_resident(h.entries, id) {
            assert(missing.contains(eids@[i]));
        }
    } else {
        let loaded = choose|loaded: Seq<(usize, Arc<Expert>)>| #[trigger]
            supplied(old(c).inner, layer, missing, loaded) && f == h.batch_loaded(
                layer,
                missing,
                loaded,
                old(c).budget,
            );
        what_is_supplied_was_asked_for(old(c).inner, layer, missing, loaded);
        let a = h.batch_arrived(layer, loaded);
        newcomers_were_loaded(h, layer, loaded);
        crate::residency::batch_is_resident(h, layer, loaded);
        let batch = crate::residency::ids_in(layer, missing);
        eviction_keeps_order(a, old(c).budget, batch);
        assert(a.entries.contains(f.entries[j])) by {
            assert(a.evicted(old(c).budget, batch).entries[j] == f.entries[j]);
        }
        let e = f.entries[j];
        if !h.entries.contains(e) {
            let q = choose|q: int| 0 <= q < a.entries.len() && a.entries[q] == e;
            let k = choose|k: int|
                0 <= k < loaded.len() && e.id == (ExpertId { layer, eid: (#[trigger] loaded[k]).0 });
            assert(missing.contains(loaded[k].0));
        }
        if !is_resident(h.entries, id) {
            assert(missing.contains(eids@[i]));
            let q = choose|q: int| 0 <= q < missing.len() && missing[q] == eids@[i];
            crate::residency::a_batch_survives_its_own_eviction(
                h,
                layer,
                missing,
                loaded,
                old(c).budget,
            );
            if loaded.len() == missing.len() && loaded[q].0 == missing[q] {
                assert(is_resident(f.entries, ExpertId { layer, eid: loaded[q].0 }));
            }
        }
    }
}

proof fn absent_are_asked_for(entries: Seq<Entry>, layer: usize, eids: Seq<usize>)
    ensures
        forall|e: usize| #[trigger]
            absent(entries, layer, eids).contains(e) <==> eids.contains(e) && !is_resident(
                entries,
                ExpertId { layer, eid: e },
            ),
    decreases eids.len(),
{
    if eids.len() > 0 {
        let front = eids.drop_last();
        absent_are_asked_for(entries, layer, front);
        let a = absent(entries, layer, front);
        let all = absent(entries, layer, eids);
        let last = eids.last();
        assert(eids[eids.len() - 1] == last);
        assert forall|e: usize| #[trigger] all.contains(e) <==> eids.contains(e) && !is_resident(
            entries,
            ExpertId { layer, eid: e },
        ) by {
            assert(eids.contains(e) <==> front.contains(e) || e == last) by {
                if eids.contains(e) {
                    let k = choose|k: int| 0 <= k < eids.len() && eids[k] == e;
                    if k < front.len() {
                        assert(front[k] == e);
                    }
                }
                if front.contains(e) {
                    let k = choose|k: int| 0 <= k < front.len() && front[k] == e;
                    assert(eids[k] == e);
                }
            }
            if !is_resident(entries, ExpertId { layer, eid: last }) {
                assert(all[a.len() as int] == last);
                if a.contains(e) {
                    let k = choose|k: int| 0 <= k < a.len() && a[k] == e;
                    assert(all[k] == e);
                }
                if all.contains(e) && e != last {
                    let k = choose|k: int| 0 <= k < all.len() && all[k] == e;
                    assert(a[k] == e);
                }
            }
        }
    }
}

proof fn newcomers_were_loaded(h: Holdings, layer: usize, loaded: Seq<(usize, Arc<Expert>)>)
    ensures
        ({
            let a = h.batch_arrived(layer, loaded);
            &&& a.usage == h.usage && a.clock == h.clock && a.hits == h.hits && a.pinned == h.pinned
            &&& forall|x: Entry| #[trigger]
                a.entries.contains(x) ==> h.entries.contains(x) || exists|k: int|
                    0 <= k < loaded.len() && x.id == (ExpertId {
                        layer,
                        eid: (#[trigger] loaded[k]).0,
                    })
        }),
    decreases loaded.len(),
{
    if loaded.len() > 0 {
        let front = loaded.drop_last();
        newcomers_were_loaded(h, layer, front);
        let m = h.batch_arrived(layer, front);
        let a = h.batch_arrived(layer, loaded);
        assert forall|x: Entry| #[trigger] a.entries.contains(x) implies h.entries.contains(x)
            || exists|k: int|
            0 <= k < loaded.len() && x.id == (ExpertId { layer, eid: (#[trigger] loaded[k]).0 }) by {
            let i = choose|i: int| 0 <= i < a.entries.len() && a.entries[i] == x;
            if i < m.entries.len() {
                assert(m.entries[i] == x);
                assert(m.entries.contains(x));
                if !h.entries.contains(x) {
                    let k = choose|k: int|
                        0 <= k < front.len() && x.id == (ExpertId {
                            layer,
                            eid: (#[trigger] front[k]).0,
                        });
                    assert(loaded[k] == front[k]);
                }
            } else {
                assert(x.id == (ExpertId { layer, eid: loaded[loaded.len() - 1].0 }));
            }
        }
    }
}

/// What is asked for ahead is of the next layer. Without a predictor nothing is; a layer
/// that routes to 64 experts or more, and to half of all or more where their number is
/// known, asks for the same again, and the predictor learns nothing from it.
pub proof fn what_is_asked_ahead_is_of_the_next_layer<P: ExpertProvider>(
    c: &mut ExpertCache<P>,
    layer: usize,
    eids: Vec<usize>,
    ahead_on: bool,
    r: Option<Ahead>,
)
    requires
        old(c).wf(),
        layer < usize::MAX,
        call_ensures(ExpertCache::<P>::plan_ahead, (c, layer, &eids, ahead_on), r),
    ensures
        old(c).predictor is None ==> r is None && final(c).predictor is None,
        r is Some ==> r->0.layer == layer + 1 && r->0.eids@.len() > 0,
        ({
            let wide = eids@.len() > 63 && (old(c).n_experts == 0 || 2 * eids@.len()
                >= old(c).n_experts);
            &&& old(c).predictor is Some && ahead_on && wide ==> r is Some && r->0.eids@ == eids@
                && final(c).predictor == old(c).predictor
            &&& old(c).predictor is Some && !(ahead_on && wide) ==> {
                let learned = old(c).predictor->0@.after(layer, eids@);
                &&& final(c).predictor is Some && final(c).predictor->0@ == learned
                &&& r is Some ==> r->0.eids@ == learned.prediction((layer + 1) as usize, eids@)
                &&& r is None ==> learned.prediction((layer + 1) as usize, eids@).len() == 0
            }
        }),
        final(c).state == old(c).state,
        final(c).budget == old(c).budget,
{
}

/// A layer is prepared by asking ahead for the next one and loading its own experts: each
/// as if alone.
pub proof fn a_layer_is_prepared_by_both<P: ExpertProvider>(
    c: &mut ExpertCache<P>,
    layer: usize,
    eids: Vec<usize>,
    ahead_on: bool,
    r: Option<Ahead>,
    i: int,
)
    requires
        old(c).wf(),
        layer < usize::MAX,
        call_ensures(ExpertCache::<P>::prefetch, (c, layer, &eids, ahead_on), r),
        0 <= i < eids@.len(),
    ensures
        old(c).predictor is None ==> r is None,
        r is Some ==> r->0.layer == layer + 1 && r->0.eids@.len() > 0,
        (forall|k: int|
            0 <= k < eids@.len() ==> is_resident(
                old(c).state.entries@,
                ExpertId { layer, eid: #[trigger] eids@[k] },
            )) ==> final(c).state@ == old(c).state@,
        (forall|v: Vec<usize>, a: Result<Vec<Arc<Expert>>, LoadError>| #[trigger]
            call_ensures(P::experts_batch, (&old(c).inner, layer, &v), a) ==> a is Ok
                && a->Ok_0@.len() == v@.len()) && !is_resident(
            old(c).state.entries@,
            ExpertId { layer, eid: eids@[i] },
        ) ==> is_resident(final(c).state.entries@, ExpertId { layer, eid: eids@[i] }),
{
    let h = old(c).state@;
    let f = final(c).state@;
    assert(f.entries == final(c).state.entries@ && h.entries == old(c).state.entries@);
    let missing = absent(h.entries, layer, eids@);
    absent_are_asked_for(h.entries, layer, eids@);
    if missing.len() > 0 {
        assert(missing.contains(missing[0]));
        let k = choose|k: int| 0 <= k < eids@.len() && eids@[k] == missing[0];
        assert(!is_resident(h.entries, ExpertId { layer, eid: eids@[k] }));
        let loaded = choose|loaded: Seq<(usize, Arc<Expert>)>| #[trigger]
            supplied(old(c).inner, layer, missing, loaded) && f == h.batch_loaded(
                layer,
                missing,
                loaded,
                old(c).budget,
            );
        what_is_supplied_was_asked_for(old(c).inner, layer, missing, loaded);
        if !is_resident(h.entries, ExpertId { layer, eid: eids@[i] }) {
            assert(missing.contains(eids@[i]));
            let q = choose|q: int| 0 <= q < missing.len() && missing[q] == eids@[i];
            crate::residency::a_batch_survives_its_own_eviction(
                h,
                layer,
                missing,
                loaded,
                old(c).budget,
            );
            if loaded.len() == missing.len() && loaded[q].0 == missing[q] {
                assert(is_resident(f.entries, ExpertId { layer, eid: loaded[q].0 }));
            }
        }
    } else if !is_resident(h.entries, ExpertId { layer, eid: eids@[i] }) {
        assert(missing.contains(eids@[i]));
    }
}

/// A reservation is granted at once where nobody manages the budget, nothing is known of
/// the memory, or what is free holds it above the hard floor; else it is a claim with
/// four passes. It is counted either way.
pub proof fn a_reservation_leaves_the_hard_floor<P: ExpertProvider>(
    c: &mut ExpertCache<P>,
    bytes: u64,
    avail: Option<u64>,
    r: Option<Claim>,
)
    requires
        old(c).wf(),
        call_ensures(ExpertCache::<P>::reserve_ram, (c, bytes, avail), r),
        bytes + old(c).hard_floor <= u64::MAX,
        old(c).reserved + bytes <= u64::MAX,
    ensures
        final(c).reserved == old(c).reserved + bytes,
        r is None <==> old(c).fill_target == 0 || avail is None || avail->0 - bytes >= old(c).hard_floor,
        r is Some ==> r->0.bytes == bytes && r->0.need - bytes == old(c).hard_floor
            && r->0.passes_left == 4 && r->0.seen == avail->0,
        final(c).budget == old(c).budget,
        final(c).state == old(c).state,
{
}

/// A pass that frees anything takes the cache down by what is missing, but not under
/// 2 GiB, and uses up one pass; a pass that frees nothing is the last.
pub proof fn a_pass_frees_what_is_missing<P: ExpertProvider>(
    c: &mut ExpertCache<P>,
    claim: &mut Claim,
    now: Option<u64>,
    more: bool,
)
    requires
        old(c).wf(),
        old(c).state.bytes <= u64::MAX,
        call_ensures(ExpertCache::<P>::reserve_pass, (c, claim, now), more),
    ensures
        more ==> {
            &&& old(claim).passes_left > 0 && final(claim).passes_left == old(claim).passes_left - 1
            &&& now is Some && now->0 < old(claim).need
            &&& old(c).state.bytes > 0x8000_0000
            &&& final(c).budget >= 0x8000_0000
            &&& final(c).budget < old(c).state.bytes
            &&& final(c).budget == 0x8000_0000 || final(c).budget + (old(claim).need - now->0)
                == old(c).state.bytes
            &&& final(c).budget + (old(claim).need - now->0) >= old(c).state.bytes
            &&& final(c).state@ == old(c).state@.evicted(final(c).budget, Seq::empty())
        },
        !more ==> {
            &&& final(claim).passes_left == 0
            &&& final(c).budget == old(c).budget && final(c).state@ == old(c).state@
            &&& old(claim).passes_left == 0 || now is None || now->0 >= old(claim).need
                || old(c).state.bytes <= 0x8000_0000
        },
        old(claim).passes_left > 0 && now is Some ==> final(claim).seen == now->0,
        final(claim).need == old(claim).need && final(claim).bytes == old(claim).bytes,
        final(c).reserved == old(c).reserved,
{
}

/// A claim is granted exactly where, on the last look, what is free reaches what it
/// needs; a refused one leaves the reservations as they were before it.
pub proof fn a_refused_claim_is_rolled_back<P: ExpertProvider>(
    c: &mut ExpertCache<P>,
    later: &mut ExpertCache<P>,
    bytes: u64,
    avail: Option<u64>,
    claim: Claim,
    settled: Claim,
    fresh: Option<u64>,
    ok: bool,
)
    requires
        old(c).wf(),
        old(later).wf(),
        old(c).reserved + bytes <= u64::MAX,
        call_ensures(ExpertCache::<P>::reserve_ram, (c, bytes, avail), Some(claim)),
        old(later).reserved == final(c).reserved,
        settled.bytes == claim.bytes,
        settled.need == claim.need,
        call_ensures(ExpertCache::<P>::reserve_finish, (later, settled, fresh), ok),
    ensures
        fresh is Some ==> (ok <==> fresh->0 >= claim.need),
        fresh is None ==> (ok <==> settled.seen >= claim.need),
        ok ==> final(later).reserved == old(c).reserved + bytes,
        !ok ==> final(later).reserved == old(c).reserved,
        final(later).budget == old(later).budget,
{
}

/// Releasing gives back what was reserved, and never more.
pub proof fn a_release_gives_back_no_more<P: ExpertProvider>(c: &mut ExpertCache<P>, bytes: u64)
    requires
        old(c).wf(),
        call_ensures(ExpertCache::<P>::release_ram, (c, bytes), ()),
    ensures
        old(c).reserved >= bytes ==> final(c).reserved + bytes == old(c).reserved,
        old(c).reserved < bytes ==> final(c).reserved == 0,
        final(c).state == old(c).state,
        final(c).budget == old(c).budget,
{
}

/// A tick sets the budget, never under 2 GiB, and the cache is within it afterwards but
/// for what is pinned.
pub proof fn a_tick_keeps_the_cache_within_its_budget<P: ExpertProvider>(
    c: &mut ExpertCache<P>,
    guard: &mut Guard,
    avail: u64,
    swap: Option<u64>,
    i: int,
)
    requires
        old(c).wf(),
        call_ensures(ExpertCache::<P>::guard_tick, (c, guard, avail, swap), ()),
        old(c).state.bytes <= u64::MAX,
        0 <= i < final(c).state.entries@.len(),
    ensures
        final(c).budget >= 0x8000_0000,
        final(c).state.bytes <= final(c).budget || old(c).state.pinned@.contains(
            final(c).state.entries@[i].id,
        ),
        old(c).state.entries@.contains(final(c).state.entries@[i]),
        final(guard).prev_avail == avail,
        final(c).reserved == old(c).reserved,
        final(c).fill_target == old(c).fill_target,
{
    let h = old(c).state@;
    let f = final(c).state@;
    assert(f.entries == final(c).state.entries@ && h.entries == old(c).state.entries@);
    assert(old(c).state.entries.len() == h.entries.len());
    let b = final(c).budget;
    crate::residency::eviction_meets_the_budget(h, b, Seq::empty());
    eviction_keeps_order(h, b, Seq::empty());
    if f == h.evicted(b, Seq::empty()) {
        assert(h.entries.contains(h.evicted(b, Seq::empty()).entries[i]));
    } else {
        assert(f == h);
        assert(h.entries.contains(h.entries[i]));
    }
}

/// A guard that takes over sets the budget to its plan and the floor for reservations to
/// its own.
pub proof fn a_guard_takes_over_the_budget<P: ExpertProvider>(
    c: &mut ExpertCache<P>,
    fill_target: u64,
    danger_floor: u64,
    hard_floor: u64,
    swap: Option<u64>,
    avail: Option<u64>,
    g: Guard,
    alone: Guard,
)
    requires
        old(c).wf(),
        call_ensures(
            ExpertCache::<P>::spawn_adaptive_budget,
            (c, fill_target, danger_floor, hard_floor, swap, avail),
            g,
        ),
        call_ensures(Guard::start, (fill_target, danger_floor, hard_floor, swap, avail), alone),
    ensures
        g == alone,
        final(c).budget == g.fill_target,
        final(c).fill_target == g.fill_target,
        final(c).hard_floor == g.hard_floor,
        final(c).fill_target > 0,
        final(c).state == old(c).state,
{
}

/// The counters are read off the bookkeeping: bytes are those of all residents.
pub proof fn the_counters_are_read_off<P: ExpertProvider>(
    c: ExpertCache<P>,
    s: CacheStats,
    h: UsageHistory,
    pins: usize,
    id: ExpertId,
)
    requires
        c.wf(),
        call_ensures(ExpertCache::<P>::stats, (&c,), s),
        call_ensures(ExpertCache::<P>::usage_snapshot, (&c,), h),
        call_ensures(ExpertCache::<P>::pinned_count, (&c,), pins),
    ensures
        s.hits == c.state.hits && s.misses == c.state.misses && s.evictions == c.state.evictions,
        s.resident == c.state.entries@.len() && s.budget == c.budget,
        c.state.bytes <= u64::MAX ==> s.bytes == c.state.bytes,
        c.state.bytes > u64::MAX ==> s.bytes == u64::MAX,
        pins == c.state.pinned@.len(),
        crate::tally::count_in(h@, id) == crate::tally::count_in(c.state.session_usage@, id),
        h@.dom().contains(id) <==> c.state.session_usage@.dom().contains(id),
{
}

/// The answer to a miss is settled: an expert that arrived meanwhile is handed out in its
/// place, one that is new is let in, and a refusal is handed on with nothing changed.
pub proof fn a_miss_is_settled_by_its_answer<P: ExpertProvider>(
    c: &mut ExpertCache<P>,
    id: ExpertId,
    answer: Result<Arc<Expert>, LoadError>,
    r: Result<Arc<Expert>, LoadError>,
    i: int,
)
    requires
        old(c).wf(),
        call_ensures(ExpertCache::<P>::settle, (c, id, answer), r),
    ensures
        answer is Err ==> r == answer && final(c).state@ == old(c).state@,
        answer is Ok && 0 <= i < old(c).state.entries@.len() && old(c).state.entries@[i].id == id
            ==> r == Ok::<Arc<Expert>, LoadError>(old(c).state.entries@[i].expert)
            && final(c).state@ == old(c).state@,
        answer is Ok && (forall|k: int|
            0 <= k < old(c).state.entries@.len() ==> (#[trigger] old(c).state.entries@[k]).id != id)
            ==> {
            let after = final(c).state.entries@;
            &&& r == answer
            &&& old(c).state.bytes + answer->Ok_0.held() <= old(c).budget ==> after.len() == old(c).state.entries@.len() + 1 && after.last().id == id
        },
        final(c).budget == old(c).budget && final(c).reserved == old(c).reserved,
{
    let h = old(c).state@;
    assert(h.entries == old(c).state.entries@);
    assert(final(c).state@.entries == final(c).state.entries@);
    if is_resident(h.entries, id) {
        let p = place_of(h.entries, id);
        assert(0 <= p < h.entries.len() && h.entries[p].id == id);
    }
    if answer is Ok && !is_resident(h.entries, id) {
        let a = h.arrived(id, answer->Ok_0);
        assert(a.entries.drop_last() =~= h.entries);
    }
}

/// A cache begins empty and unmanaged, with the budget that it was given; prefetching
/// begins with nothing learned and leaves what is resident.
pub proof fn a_cache_begins_empty<P: ExpertProvider>(
    inner: P,
    budget: u64,
    c: ExpertCache<P>,
    d: &mut ExpertCache<P>,
    topn: usize,
    n_experts: u64,
    x: ExpertId,
)
    requires
        call_ensures(ExpertCache::<P>::new, (inner, budget), c),
        old(d).wf(),
        call_ensures(ExpertCache::<P>::enable_prefetch, (d, topn, n_experts), ()),
    ensures
        c.inner == inner && c.budget == budget && c.fill_target == 0 && c.reserved == 0,
        c.state.entries@.len() == 0 && c.state.pinned@.len() == 0 && c.state.bytes == 0,
        c.state.hits == 0 && c.state.misses == 0 && c.state.evictions == 0 && c.state.clock == 0,
        c.predictor is None && crate::tally::count_in(c.state@.usage, x) == 0,
        final(d).n_experts == n_experts && final(d).predictor is Some,
        final(d).predictor->0@.topn == topn && final(d).predictor->0@.last is None,
        crate::tally::count_in(final(d).predictor->0@.freq, x) == 0,
        final(d).state == old(d).state && final(d).budget == old(d).budget,
{
    let h = c.state@;
    assert(h == Holdings::nothing());
    assert(h.entries == c.state.entries@ && h.pinned == c.state.pinned@ && h.hits == c.state.hits
        && h.misses == c.state.misses && h.evictions == c.state.evictions && h.clock
        == c.state.clock);
}

} // verus!
