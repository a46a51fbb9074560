//! What a cache has been through, and what its counters say after it.
//!
//! Every operation of the cache does a few [`Deed`]s, one after the other. What
//! holds after any sequence of deeds holds after any sequence of operations.

use std::sync::Arc;
use vstd::prelude::*;
use crate::cache::{
    fails_pinning, fetched, finds, is_pinning, loads, pins, pins_made, pins_until, supplied,
    ExpertCache,
};
use crate::expert::{capped, Expert, ExpertProvider, LoadError};
use crate::residency::{
    absent, arrival_keeps_residents, asking_keeps_what_is_resident, batch_is_resident,
    eviction_counts_what_it_gives_up, eviction_keeps_order, eviction_spares_pinned_and_protected, ids_in, is_resident,
    place_of, total, Entry, Holdings,
};
use crate::tally::ExpertId;

verus! {

/// One thing that happens to a cache's holdings.
pub enum Deed {
    /// An expert is asked for, which comes to `answer`.
    Fetched { id: ExpertId, record: bool, budget: u64, answer: Result<Arc<Expert>, LoadError> },
    /// An expert is pinned.
    Pinned { id: ExpertId },
    /// `loaded` arrives for the absent experts `missing`.
    Loaded { layer: usize, missing: Seq<usize>, loaded: Seq<(usize, Arc<Expert>)>, budget: u64 },
    /// The cache comes down to a budget.
    Cut { budget: u64 },
}

impl Holdings {
    /// How many of `loaded` are absent when their turn comes.
    pub open spec fn newcomers(self, layer: usize, loaded: Seq<(usize, Arc<Expert>)>) -> nat
        decreases loaded.len(),
    {
        if loaded.len() == 0 {
            0
        } else {
            let front = loaded.drop_last();
            let id = ExpertId { layer, eid: loaded.last().0 };
            self.newcomers(layer, front) + if is_resident(
                self.batch_arrived(layer, front).entries,
                id,
            ) {
                0nat
            } else {
                1
            }
        }
    }

    /// The holdings after a deed.
    pub open spec fn did(self, d: Deed) -> Holdings {
        match d {
            Deed::Fetched { id, record, budget, answer } => fetched(
                self,
                id,
                record,
                budget,
                answer,
            ),
            Deed::Pinned { id } => self.pinning(id),
            Deed::Loaded { layer, missing, loaded, budget } => self.batch_loaded(
                layer,
                missing,
                loaded,
                budget,
            ),
            Deed::Cut { budget } => self.evicted(budget, Seq::empty()),
        }
    }

    /// The holdings after all of `deeds`.
    pub open spec fn after_deeds(self, deeds: Seq<Deed>) -> Holdings
        decreases deeds.len(),
    {
        if deeds.len() == 0 {
            self
        } else {
            self.after_deeds(deeds.drop_last()).did(deeds.last())
        }
    }

    /// Whether a deed is an access that finds its expert resident.
    pub open spec fn found_by(self, d: Deed) -> bool {
        d matches Deed::Fetched { id, .. } && is_resident(self.entries, id)
    }

    /// How many experts a deed makes resident.
    pub open spec fn inserted_by(self, d: Deed) -> nat {
        match d {
            Deed::Fetched { id, answer, .. } => if answer is Ok && !is_resident(self.entries, id) {
                1
            } else {
                0
            },
            Deed::Loaded { layer, loaded, .. } => self.newcomers(layer, loaded),
            _ => 0,
        }
    }

    /// How many experts a deed counts as missed: one that was asked for and is
    /// absent, and each that a batch makes resident.
    pub open spec fn missed_by(self, d: Deed) -> nat {
        match d {
            Deed::Fetched { id, .. } => if is_resident(self.entries, id) {
                0
            } else {
                1
            },
            Deed::Loaded { layer, loaded, .. } => self.newcomers(layer, loaded),
            _ => 0,
        }
    }

    /// How many experts a deed gives up.
    pub open spec fn evicted_by(self, d: Deed) -> nat {
        match d {
            Deed::Fetched { id, record, budget, answer } => if !is_resident(self.entries, id) {
                match answer {
                    Ok(e) => self.looked_up(id, record).arrived(id, e).given_up(
                        budget,
                        Seq::empty(),
                    ),
                    Err(_) => 0,
                }
            } else {
                0
            },
            Deed::Pinned { .. } => 0,
            Deed::Loaded { layer, missing, loaded, budget } => self.batch_arrived(
                layer,
                loaded,
            ).given_up(budget, ids_in(layer, missing)),
            Deed::Cut { budget } => self.given_up(budget, Seq::empty()),
        }
    }
}

/// What happened, counted without bound.
pub struct Account {
    /// Accesses that found their expert resident.
    pub found: nat,
    pub missed: nat,
    /// Experts ever made resident.
    pub inserted: nat,
    /// Experts ever given up.
    pub evicted: nat,
}

/// What happened to `h` during `deeds`.
pub open spec fn account_of(h: Holdings, deeds: Seq<Deed>) -> Account
    decreases deeds.len(),
{
    if deeds.len() == 0 {
        Account { found: 0, missed: 0, inserted: 0, evicted: 0 }
    } else {
        let a = account_of(h, deeds.drop_last());
        let now = h.after_deeds(deeds.drop_last());
        let d = deeds.last();
        Account {
            found: a.found + if now.found_by(d) {
                1nat
            } else {
                0
            },
            missed: a.missed + now.missed_by(d),
            inserted: a.inserted + now.inserted_by(d),
            evicted: a.evicted + now.evicted_by(d),
        }
    }
}

/// Whether the counters of `h` tell what happened to a cache that was empty at
/// first: hits are the accesses that found their expert, and what is resident is
/// what was ever made resident less what was given up.
pub open spec fn tells(h: Holdings, a: Account) -> bool {
    &&& h.hits == capped(a.found as int)
    &&& h.misses == capped(a.missed as int)
    &&& h.evictions == capped(a.evicted as int)
    &&& h.entries.len() + a.evicted == a.inserted
    &&& a.evicted <= u64::MAX ==> h.entries.len() == a.inserted - h.evictions
}

proof fn newcomers_are_counted(h: Holdings, layer: usize, loaded: Seq<(usize, Arc<Expert>)>)
    requires
        h.valid(),
    ensures
        ({
            let n = h.newcomers(layer, loaded);
            let b = h.batch_arrived(layer, loaded);
            &&& b.entries.len() == h.entries.len() + n
            &&& b.misses == capped(h.misses + n)
            &&& b.hits == h.hits
            &&& b.evictions == h.evictions
            &&& b.pinned == h.pinned
        }),
    decreases loaded.len(),
{
    if loaded.len() > 0 {
        newcomers_are_counted(h, layer, loaded.drop_last());
    }
}

proof fn a_deed_is_accounted_for(h: Holdings, d: Deed)
    requires
        h.valid(),
    ensures
        h.did(d).valid(),
        h.did(d).entries.len() + h.evicted_by(d) == h.entries.len() + h.inserted_by(d),
        h.did(d).hits == capped(h.hits + if h.found_by(d) { 1int } else { 0 }),
        h.did(d).misses == capped(h.misses + h.missed_by(d)),
        h.did(d).evictions == capped(h.evictions + h.evicted_by(d)),
{
    reveal(fetched);
    match d {
        Deed::Fetched { id, record, budget, answer } => {
            asking_keeps_what_is_resident(h, id, record);
            let l = h.looked_up(id, record);
            match answer {
                Ok(e) => {
                    if !is_resident(l.entries, id) {
                        arrival_keeps_residents(l, id, e);
                        let a = l.arrived(id, e);
                        eviction_counts_what_it_gives_up(a, budget, Seq::empty());
                        eviction_keeps_order(a, budget, Seq::empty());
                    }
                },
                Err(_) => {},
            }
        },
        Deed::Pinned { id } => {
            if !h.pinned.contains(id) {
                assert(h.pinning(id).pinned.no_duplicates());
            }
        },
        Deed::Loaded { layer, missing, loaded, budget } => {
            newcomers_are_counted(h, layer, loaded);
            batch_is_resident(h, layer, loaded);
            let b = h.batch_arrived(layer, loaded);
            eviction_counts_what_it_gives_up(b, budget, ids_in(layer, missing));
            eviction_keeps_order(b, budget, ids_in(layer, missing));
        },
        Deed::Cut { budget } => {
            eviction_counts_what_it_gives_up(h, budget, Seq::empty());
            eviction_keeps_order(h, budget, Seq::empty());
        },
    }
}

/// Whatever a cache goes through from its beginning, its counters tell what
/// happened.
pub proof fn the_counters_tell_what_happened(deeds: Seq<Deed>)
    ensures
        Holdings::nothing().after_deeds(deeds).valid(),
        tells(
            Holdings::nothing().after_deeds(deeds),
            account_of(Holdings::nothing(), deeds),
        ),
    decreases deeds.len(),
{
    if deeds.len() > 0 {
        the_counters_tell_what_happened(deeds.drop_last());
        a_deed_is_accounted_for(
            Holdings::nothing().after_deeds(deeds.drop_last()),
            deeds.last(),
        );
    }
}

proof fn a_deed_keeps_pinned_experts(h: Holdings, d: Deed, pinned: ExpertId)
    requires
        h.valid(),
        h.pinned.contains(pinned),
        is_resident(h.entries, pinned),
    ensures
        h.did(d).pinned.contains(pinned),
        is_resident(h.did(d).entries, pinned),
{
    reveal(fetched);
    match d {
        Deed::Fetched { id, record, budget, answer } => {
            asking_keeps_what_is_resident(h, id, record);
            let l = h.looked_up(id, record);
            assert(is_resident(l.entries, pinned));
            match answer {
                Ok(e) => {
                    if !is_resident(l.entries, id) {
                        arrival_keeps_residents(l, id, e);
                        eviction_spares_pinned_and_protected(
                            l.arrived(id, e),
                            budget,
                            Seq::empty(),
                            pinned,
                        );
                    }
                },
                Err(_) => {},
            }
        },
        Deed::Pinned { id } => {
            if !h.pinned.contains(id) {
                let i = choose|i: int| 0 <= i < h.pinned.len() && h.pinned[i] == pinned;
                assert(h.pinning(id).pinned[i] == pinned);
            }
        },
        Deed::Loaded { layer, missing, loaded, budget } => {
            newcomers_are_counted(h, layer, loaded);
            batch_is_resident(h, layer, loaded);
            eviction_spares_pinned_and_protected(
                h.batch_arrived(layer, loaded),
                budget,
                ids_in(layer, missing),
                pinned,
            );
        },
        Deed::Cut { budget } => {
            eviction_spares_pinned_and_protected(h, budget, Seq::empty(), pinned);
        },
    }
}

/// A pinned expert that is resident stays pinned and resident whatever happens:
/// requests, batch loads, more pins, and every cut that a guard or a reservation
/// makes.
pub proof fn pinned_experts_stay_resident(h: Holdings, deeds: Seq<Deed>, pinned: ExpertId)
    requires
        h.valid(),
        h.pinned.contains(pinned),
        is_resident(h.entries, pinned),
    ensures
        h.after_deeds(deeds).valid(),
        h.after_deeds(deeds).pinned.contains(pinned),
        is_resident(h.after_deeds(deeds).entries, pinned),
    decreases deeds.len(),
{
    if deeds.len() > 0 {
        let now = h.after_deeds(deeds.drop_last());
        pinned_experts_stay_resident(h, deeds.drop_last(), pinned);
        a_deed_is_accounted_for(now, deeds.last());
        a_deed_keeps_pinned_experts(now, deeds.last(), pinned);
    }
}

/// Whether every entry weighs what its expert holds.
pub open spec fn weighed(entries: Seq<Entry>) -> bool {
    forall|k: int|
        0 <= k < entries.len() ==> (#[trigger] entries[k]).bytes == capped(
            entries[k].expert.held() as int,
        )
}

/// The bytes of the resident experts.
pub open spec fn held_by(entries: Seq<Entry>) -> nat
    decreases entries.len(),
{
    if entries.len() == 0 {
        0
    } else {
        held_by(entries.drop_last()) + capped(entries.last().expert.held() as int) as nat
    }
}

proof fn weighed_entries_add_up(entries: Seq<Entry>)
    requires
        weighed(entries),
    ensures
        total(entries) == held_by(entries),
    decreases entries.len(),
{
    if entries.len() > 0 {
        let front = entries.drop_last();
        assert forall|k: int| 0 <= k < front.len() implies (#[trigger] front[k]).bytes == capped(
            front[k].expert.held() as int,
        ) by {
            assert(front[k] == entries[k]);
        }
        weighed_entries_add_up(front);
    }
}

proof fn eviction_keeps_weights(h: Holdings, budget: u64, protect: Seq<ExpertId>)
    requires
        h.valid(),
        weighed(h.entries),
    ensures
        weighed(h.evicted(budget, protect).entries),
{
    eviction_keeps_order(h, budget, protect);
}

proof fn batch_keeps_weights(h: Holdings, layer: usize, loaded: Seq<(usize, Arc<Expert>)>)
    requires
        weighed(h.entries),
    ensures
        weighed(h.batch_arrived(layer, loaded).entries),
    decreases loaded.len(),
{
    if loaded.len() > 0 {
        batch_keeps_weights(h, layer, loaded.drop_last());
    }
}

proof fn a_deed_keeps_weights(h: Holdings, d: Deed)
    requires
        h.valid(),
        weighed(h.entries),
    ensures
        weighed(h.did(d).entries),
{
    reveal(fetched);
    match d {
        Deed::Fetched { id, record, budget, answer } => {
            asking_keeps_what_is_resident(h, id, record);
            let l = h.looked_up(id, record);
            match answer {
                Ok(e) => {
                    if !is_resident(l.entries, id) {
                        arrival_keeps_residents(l, id, e);
                        eviction_keeps_weights(l.arrived(id, e), budget, Seq::empty());
                    }
                },
                Err(_) => {},
            }
        },
        Deed::Pinned { .. } => {},
        Deed::Loaded { layer, missing, loaded, budget } => {
            batch_is_resident(h, layer, loaded);
            batch_keeps_weights(h, layer, loaded);
            eviction_keeps_weights(
                h.batch_arrived(layer, loaded),
                budget,
                ids_in(layer, missing),
            );
        },
        Deed::Cut { budget } => {
            eviction_keeps_weights(h, budget, Seq::empty());
        },
    }
}

/// Whatever a cache goes through from its beginning, its bytes are those of the
/// experts that are resident.
pub proof fn the_bytes_are_those_of_the_residents(deeds: Seq<Deed>)
    ensures
        weighed(Holdings::nothing().after_deeds(deeds).entries),
        Holdings::nothing().after_deeds(deeds).bytes() == held_by(
            Holdings::nothing().after_deeds(deeds).entries,
        ),
    decreases deeds.len(),
{
    if deeds.len() > 0 {
        the_bytes_are_those_of_the_residents(deeds.drop_last());
        the_counters_tell_what_happened(deeds.drop_last());
        a_deed_keeps_weights(Holdings::nothing().after_deeds(deeds.drop_last()), deeds.last());
    }
    weighed_entries_add_up(Holdings::nothing().after_deeds(deeds).entries);
}

/// An operation of a cache, with what its provider answered.
pub enum Operation {
    /// One expert is asked for: `fetch` and `expert`.
    Fetch { id: ExpertId, record: bool, answer: Result<Arc<Expert>, LoadError> },
    /// One expert is pinned: `pin`.
    Pin { id: ExpertId, answer: Result<Arc<Expert>, LoadError> },
    /// Experts are pinned in order, for which fetching came to `got`: `pin_ranked`,
    /// `warm_pin` and `warm_pin_auto`.
    PinAll {
        ids: Seq<ExpertId>,
        byte_cap: u64,
        count_cap: nat,
        got: Seq<Arc<Expert>>,
        n: usize,
        bytes: u64,
    },
    /// As `PinAll`, but the one behind `got` could not be had.
    PinSome {
        ids: Seq<ExpertId>,
        byte_cap: u64,
        count_cap: nat,
        got: Seq<Arc<Expert>>,
        fault: LoadError,
    },
    /// A batch is loaded: `load_batch` and `prefetch`.
    Load { layer: usize, eids: Seq<usize>, loaded: Seq<(usize, Arc<Expert>)> },
    /// The cache comes down to a budget: `guard_tick` and `reserve_pass`.
    Trim { budget: u64 },
    /// What is resident is left alone: any other operation, and those above that
    /// find nothing to do.
    Rest,
}

/// Whether an operation leads from one cache to the other, as its contract says.
pub open spec fn is_step<P: ExpertProvider>(
    before: ExpertCache<P>,
    op: Operation,
    after: ExpertCache<P>,
) -> bool {
    let h = before.state@;
    match op {
        Operation::Fetch { id, record, answer } => {
            &&& finds(before.inner, h, id, answer)
            &&& after.state@ == fetched(h, id, record, before.budget, answer)
        },
        Operation::Pin { id, answer } => {
            let f = fetched(h, id, false, before.budget, answer);
            &&& finds(before.inner, h, id, answer)
            &&& after.state@ == if answer is Ok {
                f.pinning(id)
            } else {
                f
            }
        },
        Operation::PinAll { ids, byte_cap, count_cap, got, n, bytes } => is_pinning(
            before.inner,
            h,
            ids,
            before.budget,
            byte_cap,
            count_cap,
            got,
            n,
            bytes,
            after.state@,
        ),
        Operation::PinSome { ids, byte_cap, count_cap, got, fault } => fails_pinning(
            before.inner,
            h,
            ids,
            before.budget,
            byte_cap,
            count_cap,
            got,
            fault,
            after.state@,
        ),
        Operation::Load { layer, eids, loaded } => {
            let missing = absent(h.entries, layer, eids);
            &&& supplied(before.inner, layer, missing, loaded)
            &&& after.state@ == h.batch_loaded(layer, missing, loaded, before.budget)
        },
        Operation::Trim { budget } => after.state@ == h.evicted(budget, Seq::empty()),
        Operation::Rest => after.state@ == h,
    }
}

/// Pinning that came to an end is a step, whatever the provider answered.
pub proof fn pinning_is_a_step<P: ExpertProvider>(
    before: ExpertCache<P>,
    after: ExpertCache<P>,
    ids: Seq<ExpertId>,
    byte_cap: u64,
    count_cap: nat,
    n: usize,
    bytes: u64,
) -> (op: Operation)
    requires
        pins(
            before.inner,
            before.state@,
            ids,
            before.budget,
            byte_cap,
            count_cap,
            n,
            bytes,
            after.state@,
        ),
    ensures
        is_step(before, op, after),
        op is PinAll,
{
    let got = choose|got: Seq<Arc<Expert>>| #[trigger]
        is_pinning(
            before.inner,
            before.state@,
            ids,
            before.budget,
            byte_cap,
            count_cap,
            got,
            n,
            bytes,
            after.state@,
        );
    Operation::PinAll { ids, byte_cap, count_cap, got, n, bytes }
}

/// Pinning that the provider broke off is a step.
pub proof fn broken_off_pinning_is_a_step<P: ExpertProvider>(
    before: ExpertCache<P>,
    after: ExpertCache<P>,
    ids: Seq<ExpertId>,
    byte_cap: u64,
    count_cap: nat,
    fault: LoadError,
) -> (op: Operation)
    requires
        pins_until(
            before.inner,
            before.state@,
            ids,
            before.budget,
            byte_cap,
            count_cap,
            fault,
            after.state@,
        ),
    ensures
        is_step(before, op, after),
        op is PinSome,
{
    let got = choose|got: Seq<Arc<Expert>>| #[trigger]
        fails_pinning(
            before.inner,
            before.state@,
            ids,
            before.budget,
            byte_cap,
            count_cap,
            got,
            fault,
            after.state@,
        );
    Operation::PinSome { ids, byte_cap, count_cap, got, fault }
}

/// A batch load is a step, whatever the provider answered.
pub proof fn loading_is_a_step<P: ExpertProvider>(
    before: ExpertCache<P>,
    after: ExpertCache<P>,
    layer: usize,
    eids: Seq<usize>,
) -> (op: Operation)
    requires
        loads(
            before.inner,
            before.state@,
            layer,
            absent(before.state@.entries, layer, eids),
            before.budget,
            after.state@,
        ),
    ensures
        is_step(before, op, after),
        op is Load,
{
    let missing = absent(before.state@.entries, layer, eids);
    let loaded = choose|loaded: Seq<(usize, Arc<Expert>)>| #[trigger]
        supplied(before.inner, layer, missing, loaded) && after.state@
            == before.state@.batch_loaded(layer, missing, loaded, before.budget);
    Operation::Load { layer, eids, loaded }
}

/// The deeds of fetching and pinning the first `n` of `ids`.
pub open spec fn pin_deeds(
    ids: Seq<ExpertId>,
    got: Seq<Arc<Expert>>,
    budget: u64,
    n: nat,
) -> Seq<Deed>
    decreases n,
{
    if n == 0 {
        Seq::empty()
    } else {
        let k = n - 1;
        pin_deeds(ids, got, budget, k as nat).push(
            Deed::Fetched { id: ids[k], record: false, budget, answer: Ok(got[k]) },
        ).push(Deed::Pinned { id: ids[k] })
    }
}

/// The deeds of an operation on a cache.
pub open spec fn deeds_of<P: ExpertProvider>(c: ExpertCache<P>, op: Operation) -> Seq<Deed> {
    let budget = c.budget;
    match op {
        Operation::Fetch { id, record, answer } => seq![
            Deed::Fetched { id, record, budget, answer },
        ],
        Operation::Pin { id, answer } => {
            let asked = seq![Deed::Fetched { id, record: false, budget, answer }];
            if answer is Ok {
                asked.push(Deed::Pinned { id })
            } else {
                asked
            }
        },
        Operation::PinAll { ids, got, n, .. } => {
            let pinned = pin_deeds(ids, got, budget, n as nat);
            if got.len() > n {
                pinned.push(
                    Deed::Fetched {
                        id: ids[n as int],
                        record: false,
                        budget,
                        answer: Ok(got[n as int]),
                    },
                )
            } else {
                pinned
            }
        },
        Operation::PinSome { ids, got, fault, .. } => pin_deeds(ids, got, budget, got.len()).push(
            Deed::Fetched {
                id: ids[got.len() as int],
                record: false,
                budget,
                answer: Err(fault),
            },
        ),
        Operation::Load { layer, eids, loaded } => seq![
            Deed::Loaded {
                layer,
                missing: absent(c.state@.entries, layer, eids),
                loaded,
                budget,
            },
        ],
        Operation::Trim { budget } => seq![Deed::Cut { budget }],
        Operation::Rest => Seq::empty(),
    }
}

proof fn one_more_deed(h: Holdings, deeds: Seq<Deed>, d: Deed)
    ensures
        h.after_deeds(deeds.push(d)) == h.after_deeds(deeds).did(d),
{
    assert(deeds.push(d).drop_last() =~= deeds);
}

proof fn one_deed(h: Holdings, d: Deed)
    ensures
        h.after_deeds(seq![d]) == h.did(d),
{
    one_more_deed(h, Seq::empty(), d);
    assert(Seq::<Deed>::empty().push(d) =~= seq![d]);
}

proof fn pin_deeds_pin(
    h: Holdings,
    ids: Seq<ExpertId>,
    got: Seq<Arc<Expert>>,
    budget: u64,
    n: nat,
)
    ensures
        h.after_deeds(pin_deeds(ids, got, budget, n)) == pins_made(h, ids, got, budget, n),
    decreases n,
{
    if n > 0 {
        let k = n - 1;
        pin_deeds_pin(h, ids, got, budget, k as nat);
        let front = pin_deeds(ids, got, budget, k as nat);
        let ask = Deed::Fetched { id: ids[k], record: false, budget, answer: Ok(got[k]) };
        one_more_deed(h, front, ask);
        one_more_deed(h, front.push(ask), Deed::Pinned { id: ids[k] });
    }
}

/// Every operation of a cache does its deeds and nothing else.
pub proof fn a_step_does_its_deeds<P: ExpertProvider>(
    before: ExpertCache<P>,
    op: Operation,
    after: ExpertCache<P>,
)
    requires
        is_step(before, op, after),
    ensures
        after.state@ == before.state@.after_deeds(deeds_of(before, op)),
{
    let h = before.state@;
    let budget = before.budget;
    match op {
        Operation::Fetch { id, record, answer } => {
            one_deed(h, Deed::Fetched { id, record, budget, answer });
        },
        Operation::Pin { id, answer } => {
            let d = Deed::Fetched { id, record: false, budget, answer };
            one_deed(h, d);
            one_more_deed(h, seq![d], Deed::Pinned { id });
        },
        Operation::PinAll { ids, got, n, .. } => {
            pin_deeds_pin(h, ids, got, budget, n as nat);
            one_more_deed(
                h,
                pin_deeds(ids, got, budget, n as nat),
                Deed::Fetched {
                    id: ids[n as int],
                    record: false,
                    budget,
                    answer: Ok(got[n as int]),
                },
            );
        },
        Operation::PinSome { ids, got, fault, .. } => {
            pin_deeds_pin(h, ids, got, budget, got.len());
            one_more_deed(
                h,
                pin_deeds(ids, got, budget, got.len()),
                Deed::Fetched {
                    id: ids[got.len() as int],
                    record: false,
                    budget,
                    answer: Err(fault),
                },
            );
        },
        Operation::Load { layer, eids, loaded } => {
            let missing = absent(h.entries, layer, eids);
            one_deed(h, Deed::Loaded { layer, missing, loaded, budget });
        },
        Operation::Trim { budget } => {
            one_deed(h, Deed::Cut { budget });
        },
        Operation::Rest => {},
    }
}

/// Whether `caches` are the states that a cache goes through while `ops` are
/// performed on it.
pub open spec fn is_use<P: ExpertProvider>(
    caches: Seq<ExpertCache<P>>,
    ops: Seq<Operation>,
) -> bool {
    &&& caches.len() == ops.len() + 1
    &&& forall|i: int| 0 <= i < ops.len() ==> is_step(caches[i], #[trigger] ops[i], caches[i + 1])
}

/// The deeds of the first `n` operations.
pub open spec fn deeds_until<P: ExpertProvider>(
    caches: Seq<ExpertCache<P>>,
    ops: Seq<Operation>,
    n: nat,
) -> Seq<Deed>
    decreases n,
{
    if n == 0 {
        Seq::empty()
    } else {
        deeds_until(caches, ops, (n - 1) as nat) + deeds_of(caches[n - 1], ops[n - 1])
    }
}

proof fn deeds_in_parts(h: Holdings, a: Seq<Deed>, b: Seq<Deed>)
    ensures
        h.after_deeds(a + b) == h.after_deeds(a).after_deeds(b),
    decreases b.len(),
{
    if b.len() == 0 {
        assert(a + b =~= a);
    } else {
        deeds_in_parts(h, a, b.drop_last());
        assert((a + b).drop_last() =~= a + b.drop_last());
    }
}

proof fn a_use_does_its_deeds<P: ExpertProvider>(
    caches: Seq<ExpertCache<P>>,
    ops: Seq<Operation>,
    n: nat,
)
    requires
        is_use(caches, ops),
        n <= ops.len(),
    ensures
        caches[n as int].state@ == caches[0].state@.after_deeds(deeds_until(caches, ops, n)),
    decreases n,
{
    if n > 0 {
        let m = n - 1;
        a_use_does_its_deeds(caches, ops, m as nat);
        assert(is_step(caches[m], ops[m], caches[m + 1]));
        a_step_does_its_deeds(caches[m], ops[m], caches[n as int]);
        deeds_in_parts(
            caches[0].state@,
            deeds_until(caches, ops, m as nat),
            deeds_of(caches[m], ops[m]),
        );
    }
}

/// After any sequence of operations on a new cache, its counters tell what
/// happened: hits are the accesses that found their expert resident, and the
/// experts resident are those ever inserted less those evicted.
pub proof fn stats_hold_after_any_use<P: ExpertProvider>(
    caches: Seq<ExpertCache<P>>,
    ops: Seq<Operation>,
)
    requires
        is_use(caches, ops),
        caches[0].state@ == Holdings::nothing(),
    ensures
        tells(
            caches.last().state@,
            account_of(Holdings::nothing(), deeds_until(caches, ops, ops.len())),
        ),
        caches.last().state@.valid(),
{
    a_use_does_its_deeds(caches, ops, ops.len());
    the_counters_tell_what_happened(deeds_until(caches, ops, ops.len()));
}

/// After any sequence of operations on a new cache, every entry weighs what its
/// expert holds, and the bytes that are reported are those of the resident experts.
pub proof fn bytes_hold_after_any_use<P: ExpertProvider>(
    caches: Seq<ExpertCache<P>>,
    ops: Seq<Operation>,
)
    requires
        is_use(caches, ops),
        caches[0].state@ == Holdings::nothing(),
    ensures
        forall|k: int|
            0 <= k < caches.last().state@.entries.len() ==> (
            #[trigger] caches.last().state@.entries[k]).bytes == capped(
                caches.last().state@.entries[k].expert.held() as int,
            ),
        caches.last().state@.bytes() == held_by(caches.last().state@.entries),
{
    a_use_does_its_deeds(caches, ops, ops.len());
    the_bytes_are_those_of_the_residents(deeds_until(caches, ops, ops.len()));
}

/// An expert that is pinned and resident is so after any sequence of operations,
/// and whoever asks for it then finds it there.
pub proof fn pins_hold_after_any_use<P: ExpertProvider>(
    caches: Seq<ExpertCache<P>>,
    ops: Seq<Operation>,
    pinned: ExpertId,
)
    requires
        is_use(caches, ops),
        caches[0].state@.valid(),
        caches[0].state@.pinned.contains(pinned),
        is_resident(caches[0].state@.entries, pinned),
    ensures
        caches.last().state@.pinned.contains(pinned),
        is_resident(caches.last().state@.entries, pinned),
        forall|answer: Result<Arc<Expert>, LoadError>| #[trigger]
            finds(caches.last().inner, caches.last().state@, pinned, answer) ==> answer == Ok::<
                Arc<Expert>,
                LoadError,
            >(
                caches.last().state@.entries[place_of(
                    caches.last().state@.entries,
                    pinned,
                )].expert,
            ),
{
    a_use_does_its_deeds(caches, ops, ops.len());
    pinned_experts_stay_resident(
        caches[0].state@,
        deeds_until(caches, ops, ops.len()),
        pinned,
    );
}

} // verus!
