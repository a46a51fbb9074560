//! Which experts are resident, and which of them are given up under pressure.
//!
//! [`State`] is the bookkeeping of the expert cache: entries with their use
//! counts, the pinned hot-store, and the byte total that a budget bounds. The
//! cache itself, with the provider behind it, is in [`crate::cache`].

use std::sync::Arc;
use vstd::prelude::*;
use crate::expert::{capped, Expert};
use crate::order::{better, sorted};
use crate::tally::{counted, hotter, is_ranking, ranking_of, sum_capped, ExpertId, Tally};
use crate::tier::{evict_score, score_of};

verus! {

/// One resident expert and how it was used.
pub struct Entry {
    pub id: ExpertId,
    pub expert: Arc<Expert>,
    pub bytes: u64,
    pub heat: u32,
    pub last: u32,
}

/// The mathematical state of the bookkeeping.
#[verifier::ext_equal]
pub struct Holdings {
    /// Resident experts, oldest arrival first.
    pub entries: Seq<Entry>,
    /// Experts that are never evicted.
    pub pinned: Seq<ExpertId>,
    pub clock: u32,
    pub hits: u64,
    pub misses: u64,
    pub evictions: u64,
    /// Router selections of this session.
    pub usage: Map<ExpertId, u64>,
    /// The resident bytes last reported to the memory ledger.
    pub published: nat,
}

/// Bytes of all `entries`.
pub open spec fn total(entries: Seq<Entry>) -> nat
    decreases entries.len(),
{
    if entries.len() == 0 {
        0
    } else {
        total(entries.drop_last()) + entries.last().bytes as nat
    }
}

/// Whether `id` is resident.
pub open spec fn is_resident(entries: Seq<Entry>, id: ExpertId) -> bool {
    exists|i: int| 0 <= i < entries.len() && #[trigger] entries[i].id == id
}

/// Where `id` is resident.
pub open spec fn place_of(entries: Seq<Entry>, id: ExpertId) -> int {
    choose|i: int| 0 <= i < entries.len() && #[trigger] entries[i].id == id
}

/// Whether no expert is resident twice.
pub open spec fn ids_differ(entries: Seq<Entry>) -> bool {
    forall|i: int, j: int|
        0 <= i < entries.len() && 0 <= j < entries.len() && i != j ==> #[trigger] entries[i].id
            != #[trigger] entries[j].id
}

/// The experts that may be evicted, by place, with how cold each is.
pub open spec fn coldness(
    entries: Seq<Entry>,
    pinned: Seq<ExpertId>,
    protect: Seq<ExpertId>,
    clock: u32,
) -> Map<usize, u64> {
    Map::new(
        |i: usize|
            i < entries.len() && !pinned.contains(entries[i as int].id) && !protect.contains(
                entries[i as int].id,
            ),
        |i: usize|
            (u64::MAX - score_of(entries[i as int].heat, entries[i as int].last, clock)) as u64,
    )
}

/// How many places of `order` are given up before at most `budget` bytes of
/// `bytes` are left.
pub open spec fn victims_needed(
    entries: Seq<Entry>,
    order: Seq<usize>,
    bytes: int,
    budget: int,
) -> nat
    decreases order.len(),
{
    if bytes <= budget || order.len() == 0 {
        0
    } else {
        1 + victims_needed(
            entries,
            order.drop_first(),
            bytes - entries[order[0] as int].bytes,
            budget,
        )
    }
}

/// Whether place `i` is among `gone`.
pub open spec fn is_gone(gone: Seq<usize>, i: int) -> bool {
    0 <= i <= usize::MAX && gone.contains(i as usize)
}

/// `entries` without the places `gone`.
pub open spec fn kept(entries: Seq<Entry>, gone: Seq<usize>) -> Seq<Entry>
    decreases entries.len(),
{
    if entries.len() == 0 {
        entries
    } else {
        let front = kept(entries.drop_last(), gone);
        if is_gone(gone, entries.len() - 1) {
            front
        } else {
            front.push(entries.last())
        }
    }
}

impl Holdings {
    /// Nothing resident, nothing counted.
    pub open spec fn nothing() -> Holdings {
        Holdings {
            entries: Seq::empty(),
            pinned: Seq::empty(),
            clock: 0,
            hits: 0,
            misses: 0,
            evictions: 0,
            usage: Map::empty(),
            published: 0,
        }
    }

    /// Bytes resident.
    pub open spec fn bytes(self) -> nat {
        total(self.entries)
    }

    /// The evictable places, coldest first.
    pub open spec fn order(self, protect: Seq<ExpertId>) -> Seq<usize> {
        ranking_of(coldness(self.entries, self.pinned, protect, self.clock))
    }

    /// The places given up to come down to `budget`.
    pub open spec fn victims(self, budget: u64, protect: Seq<ExpertId>) -> Seq<usize> {
        let order = self.order(protect);
        order.take(
            victims_needed(self.entries, order, self.bytes() as int, budget as int) as int,
        )
    }

    /// How many experts eviction down to `budget` gives up.
    pub open spec fn given_up(self, budget: u64, protect: Seq<ExpertId>) -> nat {
        if self.bytes() <= budget {
            0
        } else {
            self.victims(budget, protect).len()
        }
    }

    /// The holdings after eviction down to `budget`: the coldest experts go,
    /// one by one, while more than `budget` is resident.
    pub open spec fn evicted(self, budget: u64, protect: Seq<ExpertId>) -> Holdings {
        if self.bytes() <= budget {
            Holdings { published: self.bytes(), ..self }
        } else {
            let gone = self.victims(budget, protect);
            let left = kept(self.entries, gone);
            Holdings {
                entries: left,
                evictions: capped(self.evictions + gone.len()),
                published: total(left),
                ..self
            }
        }
    }

    /// Every resident expert is resident once, and every pin is kept once.
    pub open spec fn valid(self) -> bool {
        &&& ids_differ(self.entries)
        &&& self.pinned.no_duplicates()
    }
}

pub proof fn victims_needed_fits(entries: Seq<Entry>, order: Seq<usize>, bytes: int, budget: int)
    ensures
        victims_needed(entries, order, bytes, budget) <= order.len(),
    decreases order.len(),
{
    if !(bytes <= budget || order.len() == 0) {
        victims_needed_fits(
            entries,
            order.drop_first(),
            bytes - entries[order[0] as int].bytes,
            budget,
        );
    }
}

proof fn one_more_gone(gone: Seq<usize>, v: usize, i: int)
    ensures
        is_gone(gone.push(v), i) <==> is_gone(gone, i) || i == v,
{
    let more = gone.push(v);
    assert(more[gone.len() as int] == v);
    if is_gone(gone, i) {
        let k = choose|k: int| 0 <= k < gone.len() && gone[k] == i as usize;
        assert(more[k] == i as usize);
    }
}

proof fn kept_drops_one(entries: Seq<Entry>, gone: Seq<usize>, v: usize)
    requires
        v < entries.len(),
        !gone.contains(v),
    ensures
        total(kept(entries, gone.push(v))) + entries[v as int].bytes == total(kept(entries, gone)),
        kept(entries, gone.push(v)).len() + 1 == kept(entries, gone).len(),
    decreases entries.len(),
{
    let n = entries.len() - 1;
    let front = entries.drop_last();
    let more = gone.push(v);
    one_more_gone(gone, v, n);
    if v == n {
        kept_ignores_later(front, gone, v);
        assert(kept(front, more) == kept(front, gone));
        assert(kept(entries, gone).drop_last() =~= kept(front, gone));
    } else {
        kept_drops_one(front, gone, v);
        if !is_gone(gone, n) {
            assert(kept(entries, gone).drop_last() =~= kept(front, gone));
            assert(kept(entries, more).drop_last() =~= kept(front, more));
        }
    }
}

proof fn kept_ignores_later(entries: Seq<Entry>, gone: Seq<usize>, v: usize)
    requires
        entries.len() <= v,
    ensures
        kept(entries, gone.push(v)) == kept(entries, gone),
    decreases entries.len(),
{
    if entries.len() > 0 {
        kept_ignores_later(entries.drop_last(), gone, v);
        one_more_gone(gone, v, entries.len() - 1);
    }
}

proof fn kept_of_nothing(entries: Seq<Entry>)
    ensures
        kept(entries, Seq::empty()) == entries,
    decreases entries.len(),
{
    if entries.len() > 0 {
        kept_of_nothing(entries.drop_last());
        assert(kept(entries, Seq::empty()) =~= entries);
    }
}

proof fn kept_are_entries(entries: Seq<Entry>, gone: Seq<usize>)
    requires
        ids_differ(entries),
    ensures
        ids_differ(kept(entries, gone)),
        kept(entries, gone).len() <= entries.len(),
        forall|x: Entry| #[trigger]
            kept(entries, gone).contains(x) <==> exists|i: int|
                0 <= i < entries.len() && entries[i] == x && !is_gone(gone, i),
    decreases entries.len(),
{
    let all = kept(entries, gone);
    if entries.len() > 0 {
        let n = entries.len() - 1;
        let front = entries.drop_last();
        let p = kept(front, gone);
        assert(ids_differ(front)) by {
            assert forall|i: int, j: int|
                0 <= i < front.len() && 0 <= j < front.len() && i
                    != j implies #[trigger] front[i].id != #[trigger] front[j].id by {
                assert(entries[i].id != entries[j].id);
            }
        }
        kept_are_entries(front, gone);
        assert forall|x: Entry| #[trigger] all.contains(x) implies exists|i: int|
            0 <= i < entries.len() && entries[i] == x && !is_gone(gone, i) by {
            let j = choose|j: int| 0 <= j < all.len() && all[j] == x;
            if j < p.len() {
                assert(p[j] == x);
                assert(p.contains(x));
                let i = choose|i: int|
                    0 <= i < front.len() && front[i] == x && !is_gone(gone, i);
                assert(entries[i] == x);
            } else {
                assert(entries[n] == x);
            }
        }
        assert forall|x: Entry|
            (exists|i: int|
                0 <= i < entries.len() && entries[i] == x && !is_gone(gone, i)) implies #[trigger] all.contains(x) by {
            let i = choose|i: int|
                0 <= i < entries.len() && entries[i] == x && !is_gone(gone, i);
            if i < n {
                assert(front[i] == x);
                assert(p.contains(x));
                let j = choose|j: int| 0 <= j < p.len() && p[j] == x;
                assert(all[j] == x);
            } else {
                assert(all[p.len() as int] == x);
            }
        }
        assert forall|a: int, b: int|
            0 <= a < all.len() && 0 <= b < all.len() && a != b implies #[trigger] all[a].id
            != #[trigger] all[b].id by {
            if a < p.len() && b < p.len() {
                assert(p[a].id != p[b].id);
            } else {
                let c = if a < p.len() { a } else { b };
                assert(p[c] == all[c]);
                assert(p.contains(p[c]));
                let i = choose|i: int|
                    0 <= i < front.len() && front[i] == p[c] && !is_gone(gone, i);
                assert(entries[i].id != entries[n].id);
            }
        }
    }
}

/// The bookkeeping of the expert cache.
pub struct State {
    pub entries: Vec<Entry>,
    pub pinned: Vec<ExpertId>,
    /// Bytes resident.
    pub bytes: u128,
    pub clock: u32,
    pub hits: u64,
    pub misses: u64,
    pub evictions: u64,
    /// Router selections of this session.
    pub session_usage: Tally<ExpertId>,
    /// The resident bytes last reported to the memory ledger.
    pub published: u128,
}

impl View for State {
    type V = Holdings;

    open spec fn view(&self) -> Holdings {
        Holdings {
            entries: self.entries@,
            pinned: self.pinned@,
            clock: self.clock,
            hits: self.hits,
            misses: self.misses,
            evictions: self.evictions,
            usage: self.session_usage@,
            published: self.published as nat,
        }
    }
}

/// Whether `ids` holds `id`.
pub fn holds_id(ids: &Vec<ExpertId>, id: ExpertId) -> (b: bool)
    ensures
        b == ids@.contains(id),
{
    for i in 0..ids.len()
        invariant
            forall|j: int| 0 <= j < i ==> ids@[j] != id,
    {
        if ids[i].layer == id.layer && ids[i].eid == id.eid {
            assert(ids@[i as int] == id);
            return true;
        }
    }
    false
}

proof fn total_is_bounded(entries: Seq<Entry>)
    ensures
        total(entries) <= entries.len() * u64::MAX,
    decreases entries.len(),
{
    if entries.len() > 0 {
        total_is_bounded(entries.drop_last());
        assert((entries.len() - 1) * u64::MAX + u64::MAX == entries.len() * u64::MAX)
            by (nonlinear_arith);
    }
}

impl State {
    /// The byte total is that of the entries, and nothing is held twice.
    pub open spec fn wf(&self) -> bool {
        &&& self@.valid()
        &&& self.bytes == total(self.entries@)
        &&& self.session_usage.wf()
    }

    /// Nothing resident, nothing counted.
    pub fn new() -> (s: State)
        ensures
            s.wf(),
            s@ == Holdings::nothing(),
    {
        let s = State {
            entries: Vec::new(),
            pinned: Vec::new(),
            bytes: 0,
            clock: 0,
            hits: 0,
            misses: 0,
            evictions: 0,
            session_usage: Tally::new(),
            published: 0,
        };
        assert(s.entries@ =~= Seq::<Entry>::empty());
        assert(s.pinned@ =~= Seq::<ExpertId>::empty());
        s
    }

    /// Reports the resident bytes to the memory ledger. Every eviction ends with
    /// this, also one that had nothing to do, so the ledger is never behind.
    pub fn publish_ram(&mut self)
        requires
            old(self).wf(),
        ensures
            final(self).wf(),
            final(self)@ == (Holdings { published: old(self)@.bytes(), ..old(self)@ }),
    {
        self.published = self.bytes;
    }

    /// The evictable places, coldest first.
    fn eviction_order(&self, protect: &Vec<ExpertId>) -> (order: Vec<usize>)
        requires
            self.wf(),
        ensures
            order@ == self@.order(protect@),
            is_ranking(order@, coldness(self.entries@, self.pinned@, protect@, self.clock)),
    {
        let ghost all = coldness(self.entries@, self.pinned@, protect@, self.clock);
        let mut cold: Vec<u64> = Vec::new();
        let mut places: Vec<usize> = Vec::new();
        let n: usize = self.entries.len();
        for i in 0..n
            invariant
                n == self.entries@.len(),
                all == coldness(self.entries@, self.pinned@, protect@, self.clock),
                cold@.len() == i,
                forall|j: int|
                    0 <= j < i ==> #[trigger] cold@[j] == u64::MAX - score_of(
                        self.entries@[j].heat,
                        self.entries@[j].last,
                        self.clock,
                    ),
                forall|k: int|
                    0 <= k < places@.len() ==> #[trigger] places@[k] < i && all.dom().contains(
                        places@[k],
                    ),
                places@.no_duplicates(),
                forall|j: usize|
                    j < i && #[trigger] all.dom().contains(j) ==> places@.contains(j),
        {
            let id: ExpertId = self.entries[i].id;
            let score: u64 = evict_score(self.entries[i].heat, self.entries[i].last, self.clock);
            cold.push(u64::MAX - score);
            let ghost before = places@;
            if !holds_id(&self.pinned, id) && !holds_id(protect, id) {
                places.push(i);
                proof {
                    assert(all.dom().contains(i));
                    assert(places@[before.len() as int] == i);
                    assert forall|j: usize|
                        j < i + 1 && #[trigger] all.dom().contains(j) implies places@.contains(
                        j,
                    ) by {
                        if j < i {
                            assert(before.contains(j));
                            let k = choose|k: int| 0 <= k < before.len() && before[k] == j;
                            assert(places@[k] == j);
                        }
                    }
                }
            }
        }
        let ghost listed = places@;
        let order: Vec<usize> = sorted(&cold, places);
        proof {
            assert forall|x: usize| #[trigger] order@.contains(x) <==> all.dom().contains(x) by {
                if order@.contains(x) {
                    assert(listed.contains(x));
                    let k = choose|k: int| 0 <= k < listed.len() && listed[k] == x;
                    assert(all.dom().contains(listed[k]));
                }
                if all.dom().contains(x) {
                    assert(listed.contains(x));
                }
            }
            assert forall|i: int, j: int| 0 <= i < j < order@.len() implies hotter(
                all,
                order@[i],
                order@[j],
            ) by {
                assert(order@.contains(order@[i]) && order@.contains(order@[j]));
                assert(better(cold@, order@[i], order@[j]));
                assert(cold@[order@[i] as int] == all[order@[i]]);
                assert(cold@[order@[j] as int] == all[order@[j]]);
            }
            assert(is_ranking(order@, all));
            crate::tally::ranking_is_unique(order@, ranking_of(all), all);
        }
        order
    }

    /// Evicts the least recently used unpinned experts until at most `budget`
    /// bytes are resident.
    pub fn evict_to(&mut self, budget: u64)
        requires
            old(self).wf(),
        ensures
            final(self).wf(),
            final(self)@ == old(self)@.evicted(budget, Seq::empty()),
    {
        let nobody: Vec<ExpertId> = Vec::new();
        assert(nobody@ =~= Seq::<ExpertId>::empty());
        self.evict_to_protecting(budget, &nobody);
    }

    /// Like `evict_to`, but never evicts an expert in `protect`: a batch that
    /// was just loaded must survive until it is used.
    pub fn evict_to_protecting(&mut self, budget: u64, protect: &Vec<ExpertId>)
        requires
            old(self).wf(),
        ensures
            final(self).wf(),
            final(self)@ == old(self)@.evicted(budget, protect@),
    {
        if self.bytes <= budget as u128 {
            self.publish_ram();
            return ;
        }
        let ghost start = self@;
        let ghost entries = self.entries@;
        let order: Vec<usize> = self.eviction_order(protect);
        let mut gone: Vec<bool> = Vec::new();
        for i in 0..self.entries.len()
            invariant
                gone@.len() == i,
                forall|j: int| 0 <= j < i ==> !gone@[j],
        {
            gone.push(false);
        }
        let mut k: usize = 0;
        proof {
            kept_of_nothing(entries);
            assert(order@.take(0) =~= Seq::<usize>::empty());
            assert(order@.skip(0) =~= order@);
        }
        while k < order.len() && self.bytes > budget as u128
            invariant
                k <= order@.len(),
                entries == self.entries@,
                start == (Holdings { evictions: start.evictions, ..self@ }),
                is_ranking(order@, coldness(entries, self.pinned@, protect@, self.clock)),
                gone@.len() == entries.len(),
                entries.len() <= usize::MAX,
                self.session_usage.wf(),
                forall|j: int| #![trigger gone@[j]]
                    0 <= j < gone@.len() ==> gone@[j] == order@.take(k as int).contains(j as usize),
                self.bytes == total(kept(entries, order@.take(k as int))),
                k + victims_needed(
                    entries,
                    order@.skip(k as int),
                    self.bytes as int,
                    budget as int,
                ) == victims_needed(entries, order@, total(entries) as int, budget as int),
                self.evictions == capped(start.evictions + k),
            decreases order@.len() - k,
        {
            let v: usize = order[k];
            proof {
                assert(order@.contains(v));
                assert(!order@.take(k as int).contains(v)) by {
                    if order@.take(k as int).contains(v) {
                        let j = choose|j: int| 0 <= j < k && order@.take(k as int)[j] == v;
                        assert(order@[j] == order@[k as int]);
                    }
                }
                kept_drops_one(entries, order@.take(k as int), v);
                assert(order@.take(k as int).push(v) =~= order@.take(k + 1));
                assert(order@.skip(k as int).drop_first() =~= order@.skip(k + 1));
                assert forall|j: usize| order@.take(k + 1).contains(j) <==> order@.take(
                    k as int,
                ).contains(j) || j == v by {
                    let longer = order@.take(k + 1);
                    let shorter = order@.take(k as int);
                    if shorter.contains(j) {
                        let i = choose|i: int| 0 <= i < shorter.len() && shorter[i] == j;
                        assert(longer[i] == j);
                    }
                    if longer.contains(j) {
                        let i = choose|i: int| 0 <= i < longer.len() && longer[i] == j;
                        if i < k {
                            assert(shorter[i] == j);
                        }
                    }
                    assert(longer[k as int] == v);
                }
            }
            self.bytes = self.bytes - self.entries[v].bytes as u128;
            self.evictions = self.evictions.saturating_add(1);
            gone.set(v, true);
            k = k + 1;
        }
        let ghost victims = order@.take(k as int);
        let mut before: Vec<Entry> = Vec::new();
        core::mem::swap(&mut before, &mut self.entries);
        let mut left: Vec<Entry> = Vec::new();
        let mut i: usize = 0;
        assert(entries.take(0) =~= Seq::<Entry>::empty());
        for e in it: before
            invariant
                i == it.index(),
                it.seq() == entries,
                gone@.len() == entries.len(),
                entries.len() <= usize::MAX,
                forall|j: int| #![trigger gone@[j]]
                    0 <= j < gone@.len() ==> gone@[j] == victims.contains(j as usize),
                left@ == kept(entries.take(i as int), victims),
        {
            proof {
                assert(entries.take(i + 1).drop_last() =~= entries.take(i as int));
            }
            if !gone[i] {
                left.push(e);
            }
            i = i + 1;
        }
        assert(entries.take(entries.len() as int) =~= entries);
        self.entries = left;
        proof {
            kept_are_entries(entries, victims);
        }
        self.publish_ram();
        assert(self@ =~= start.evicted(budget, protect@));
    }
}

/// Whether place `i` may be evicted.
pub open spec fn evictable(h: Holdings, protect: Seq<ExpertId>, i: usize) -> bool {
    coldness(h.entries, h.pinned, protect, h.clock).dom().contains(i)
}

/// Whether place `i` goes before place `j`: used longer ago, then used less,
/// then resident longer.
pub open spec fn colder(h: Holdings, i: usize, j: usize) -> bool {
    let a = score_of(h.entries[i as int].heat, h.entries[i as int].last, h.clock);
    let b = score_of(h.entries[j as int].heat, h.entries[j as int].last, h.clock);
    a < b || (a == b && i < j)
}

/// Bytes resident once the first `n` places of `order` are gone.
pub open spec fn bytes_after(entries: Seq<Entry>, order: Seq<usize>, n: int) -> nat {
    total(kept(entries, order.take(n)))
}

/// `v` is what comes of taking the coldest evictable expert again and again
/// while more than `budget` bytes are resident.
pub open spec fn is_repeated_min(
    h: Holdings,
    budget: u64,
    protect: Seq<ExpertId>,
    v: Seq<usize>,
) -> bool {
    &&& forall|n: int|
        0 <= n < v.len() ==> {
            &&& bytes_after(h.entries, v, n) > budget
            &&& evictable(h, protect, #[trigger] v[n])
            &&& !v.take(n).contains(v[n])
            &&& forall|i: usize| #[trigger]
                evictable(h, protect, i) && !v.take(n).contains(i) && i != v[n] ==> colder(
                    h,
                    v[n],
                    i,
                )
        }
    &&& total(kept(h.entries, v)) <= budget || forall|i: usize| #[trigger]
        evictable(h, protect, i) ==> v.contains(i)
}

proof fn order_facts(h: Holdings, protect: Seq<ExpertId>)
    ensures
        is_ranking(h.order(protect), coldness(h.entries, h.pinned, protect, h.clock)),
        forall|n: int|
            0 <= n < h.order(protect).len() ==> #[trigger] h.order(protect)[n] < h.entries.len(),
        forall|i: usize, j: usize|
            evictable(h, protect, i) && evictable(h, protect, j) ==> (#[trigger] hotter(
                coldness(h.entries, h.pinned, protect, h.clock),
                i,
                j,
            ) <==> colder(h, i, j)),
{
    let m = coldness(h.entries, h.pinned, protect, h.clock);
    let places = Seq::new(h.entries.len(), |i: int| i as usize);
    vstd::seq_lib::seq_to_set_is_finite(places);
    assert(m.dom().subset_of(places.to_set())) by {
        assert forall|i: usize| m.dom().contains(i) implies places.to_set().contains(i) by {
            assert(places[i as int] == i);
        }
    }
    vstd::set_lib::lemma_set_subset_finite(places.to_set(), m.dom());
    let r = crate::tally::ranking_exists(m);
    assert forall|n: int| 0 <= n < h.order(protect).len() implies #[trigger] h.order(protect)[n]
        < h.entries.len() by {
        assert(h.order(protect).contains(h.order(protect)[n]));
    }
}

proof fn bytes_after_next(entries: Seq<Entry>, order: Seq<usize>, n: int)
    requires
        order.no_duplicates(),
        0 <= n < order.len(),
        order[n] < entries.len(),
    ensures
        bytes_after(entries, order, n + 1) + entries[order[n] as int].bytes == bytes_after(
            entries,
            order,
            n,
        ),
{
    let v = order[n];
    if order.take(n).contains(v) {
        let j = choose|j: int| 0 <= j < n && order.take(n)[j] == v;
        assert(order[j] == order[n]);
    }
    kept_drops_one(entries, order.take(n), v);
    assert(order.take(n).push(v) =~= order.take(n + 1));
}

proof fn needed_run(entries: Seq<Entry>, order: Seq<usize>, t: int, budget: int) -> (n: int)
    requires
        order.no_duplicates(),
        forall|j: int| 0 <= j < order.len() ==> #[trigger] order[j] < entries.len(),
        0 <= t <= order.len(),
    ensures
        n == t + victims_needed(
            entries,
            order.skip(t),
            bytes_after(entries, order, t) as int,
            budget,
        ),
        t <= n <= order.len(),
        forall|u: int| t <= u < n ==> #[trigger] bytes_after(entries, order, u) > budget,
        bytes_after(entries, order, n) <= budget || n == order.len(),
    decreases order.len() - t,
{
    if bytes_after(entries, order, t) <= budget || t == order.len() {
        t
    } else {
        bytes_after_next(entries, order, t);
        let n = needed_run(entries, order, t + 1, budget);
        assert(order.skip(t).drop_first() =~= order.skip(t + 1));
        n
    }
}

/// What eviction gives up: while it evicts more than `budget` is resident, and
/// it stops only once no more than that is, or nothing evictable is left.
proof fn victims_facts(h: Holdings, budget: u64, protect: Seq<ExpertId>)
    ensures
        h.victims(budget, protect).len() <= h.order(protect).len(),
        h.victims(budget, protect) == h.order(protect).take(
            h.victims(budget, protect).len() as int,
        ),
        forall|u: int|
            0 <= u < h.victims(budget, protect).len() ==> #[trigger] bytes_after(
                h.entries,
                h.order(protect),
                u,
            ) > budget,
        total(kept(h.entries, h.victims(budget, protect))) <= budget || h.victims(
            budget,
            protect,
        ) == h.order(protect),
{
    order_facts(h, protect);
    let order = h.order(protect);
    let n = needed_run(h.entries, order, 0, budget as int);
    kept_of_nothing(h.entries);
    assert(order.take(0) =~= Seq::<usize>::empty());
    assert(order.skip(0) =~= order);
    assert(h.victims(budget, protect) =~= order.take(n));
    assert(order.take(order.len() as int) =~= order);
}

/// Ranking the experts once and evicting down the list gives up exactly the
/// experts, in the same order, that looking for the coldest one again and again
/// would.
pub proof fn batch_eviction_is_repeated_min(
    h: Holdings,
    budget: u64,
    protect: Seq<ExpertId>,
    v: Seq<usize>,
)
    requires
        is_repeated_min(h, budget, protect, v),
    ensures
        v == h.victims(budget, protect),
{
    order_facts(h, protect);
    victims_facts(h, budget, protect);
    let m = coldness(h.entries, h.pinned, protect, h.clock);
    let order = h.order(protect);
    let n = h.victims(budget, protect).len() as int;
    min_prefix(h, budget, protect, v, v.len() as int);
    assert(v.take(v.len() as int) =~= v);
    assert(v =~= order.take(v.len() as int));
    if v.len() < n {
        assert(bytes_after(h.entries, order, v.len() as int) > budget);
        assert(order.contains(order[v.len() as int]));
        assert(evictable(h, protect, order[v.len() as int]));
        assert(v.contains(order[v.len() as int]));
        let j = choose|j: int| 0 <= j < v.len() && v[j] == order[v.len() as int];
        assert(order[j] == order[v.len() as int]);
    }
    if n < v.len() {
        assert(bytes_after(h.entries, v, n) > budget) by {
            assert(evictable(h, protect, v[n]));
        }
        assert(v.take(n) =~= order.take(n));
    }
}

proof fn min_prefix(h: Holdings, budget: u64, protect: Seq<ExpertId>, v: Seq<usize>, n: int)
    requires
        is_repeated_min(h, budget, protect, v),
        0 <= n <= v.len(),
    ensures
        n <= h.order(protect).len(),
        v.take(n) == h.order(protect).take(n),
    decreases n,
{
    order_facts(h, protect);
    let m = coldness(h.entries, h.pinned, protect, h.clock);
    let order = h.order(protect);
    if n == 0 {
        assert(v.take(0) =~= order.take(0));
    } else {
        let t = n - 1;
        min_prefix(h, budget, protect, v, t);
        let x = v[t];
        assert(evictable(h, protect, x));
        assert(order.contains(x));
        let q = choose|q: int| 0 <= q < order.len() && order[q] == x;
        if q < t {
            assert(order.take(t)[q] == x);
            assert(v.take(t).contains(x));
        }
        if q > t {
            let y = order[t];
            assert(order.contains(y));
            assert(evictable(h, protect, y));
            if v.take(t).contains(y) {
                let j = choose|j: int| 0 <= j < t && v.take(t)[j] == y;
                assert(order.take(t)[j] == y);
                assert(order[j] == order[t]);
            }
            assert(colder(h, x, y));
            assert(hotter(m, order[t], order[q]));
            assert(hotter(m, y, x) <==> colder(h, y, x));
        }
        assert(v.take(n) =~= v.take(t).push(x));
        assert(order.take(n) =~= order.take(t).push(x));
    }
}

/// An expert that is pinned or protected and resident stays resident.
pub proof fn eviction_spares_pinned_and_protected(
    h: Holdings,
    budget: u64,
    protect: Seq<ExpertId>,
    id: ExpertId,
)
    requires
        h.valid(),
        is_resident(h.entries, id),
        h.pinned.contains(id) || protect.contains(id),
    ensures
        is_resident(h.evicted(budget, protect).entries, id),
{
    order_facts(h, protect);
    victims_facts(h, budget, protect);
    let order = h.order(protect);
    let gone = h.victims(budget, protect);
    let i = place_of(h.entries, id);
    if is_gone(gone, i) {
        let j = choose|j: int| 0 <= j < gone.len() && gone[j] == i as usize;
        assert(order[j] == i as usize);
        assert(order.contains(i as usize));
    }
    kept_are_entries(h.entries, gone);
    let left = kept(h.entries, gone);
    assert(left.contains(h.entries[i]));
    let k = choose|k: int| 0 <= k < left.len() && left[k] == h.entries[i];
    assert(left[k].id == id);
}

/// Eviction leaves nothing resident twice, never makes more resident, and reports
/// what is left.
pub proof fn eviction_keeps_order(h: Holdings, budget: u64, protect: Seq<ExpertId>)
    requires
        h.valid(),
    ensures
        h.evicted(budget, protect).valid(),
        h.evicted(budget, protect).bytes() <= h.bytes(),
        h.evicted(budget, protect).published == h.evicted(budget, protect).bytes(),
        forall|i: int|
            0 <= i < h.evicted(budget, protect).entries.len() ==> h.entries.contains(
                #[trigger] h.evicted(budget, protect).entries[i],
            ),
{
    if h.bytes() > budget {
        let gone = h.victims(budget, protect);
        let left = kept(h.entries, gone);
        kept_are_entries(h.entries, gone);
        kept_is_smaller(h.entries, gone);
        assert forall|i: int| 0 <= i < left.len() implies h.entries.contains(
            #[trigger] left[i],
        ) by {
            assert(left.contains(left[i]));
        }
    }
}

/// After eviction the budget holds, or every expert left is pinned or
/// protected.
pub proof fn eviction_meets_the_budget(h: Holdings, budget: u64, protect: Seq<ExpertId>)
    requires
        h.valid(),
        h.entries.len() <= usize::MAX,
    ensures
        h.evicted(budget, protect).bytes() <= budget || forall|i: int|
            0 <= i < h.evicted(budget, protect).entries.len() ==> h.pinned.contains(
                #[trigger] h.evicted(budget, protect).entries[i].id,
            ) || protect.contains(h.evicted(budget, protect).entries[i].id),
{
    if h.bytes() > budget {
        order_facts(h, protect);
        victims_facts(h, budget, protect);
        let order = h.order(protect);
        let gone = h.victims(budget, protect);
        let left = kept(h.entries, gone);
        kept_are_entries(h.entries, gone);
        if total(left) > budget {
            assert forall|i: int| 0 <= i < left.len() implies h.pinned.contains(
                #[trigger] left[i].id,
            ) || protect.contains(left[i].id) by {
                assert(left.contains(left[i]));
                let j = choose|j: int|
                    0 <= j < h.entries.len() && h.entries[j] == left[i] && !is_gone(gone, j);
                if !h.pinned.contains(left[i].id) && !protect.contains(left[i].id) {
                    assert(evictable(h, protect, j as usize));
                    assert(order.contains(j as usize));
                }
            }
        }
    }
}

proof fn kept_is_smaller(entries: Seq<Entry>, gone: Seq<usize>)
    ensures
        total(kept(entries, gone)) <= total(entries),
    decreases entries.len(),
{
    if entries.len() > 0 {
        kept_is_smaller(entries.drop_last(), gone);
        if !is_gone(gone, entries.len() - 1) {
            assert(kept(entries, gone).drop_last() =~= kept(entries.drop_last(), gone));
        }
    }
}

/// Eviction never goes further than it has to: with the last victim still
/// resident, the budget would be exceeded.
pub proof fn eviction_stops_in_time(h: Holdings, budget: u64, protect: Seq<ExpertId>)
    requires
        h.valid(),
        h.victims(budget, protect).len() > 0,
    ensures
        total(kept(h.entries, h.victims(budget, protect).drop_last())) > budget,
{
    victims_facts(h, budget, protect);
    let order = h.order(protect);
    let n = h.victims(budget, protect).len() as int;
    assert(bytes_after(h.entries, order, n - 1) > budget);
    assert(h.victims(budget, protect).drop_last() =~= order.take(n - 1));
}

proof fn kept_counts(entries: Seq<Entry>, order: Seq<usize>, n: int)
    requires
        order.no_duplicates(),
        forall|j: int| 0 <= j < order.len() ==> #[trigger] order[j] < entries.len(),
        0 <= n <= order.len(),
    ensures
        kept(entries, order.take(n)).len() + n == entries.len(),
    decreases n,
{
    if n == 0 {
        kept_of_nothing(entries);
        assert(order.take(0) =~= Seq::<usize>::empty());
    } else {
        let v = order[n - 1];
        kept_counts(entries, order, n - 1);
        let front = order.take(n - 1);
        if front.contains(v) {
            let j = choose|j: int| 0 <= j < front.len() && front[j] == v;
            assert(order[j] == order[n - 1]);
        }
        kept_drops_one(entries, front, v);
        assert(front.push(v) =~= order.take(n));
    }
}

/// What eviction gives up is no longer resident, and is counted.
pub proof fn eviction_counts_what_it_gives_up(h: Holdings, budget: u64, protect: Seq<ExpertId>)
    requires
        h.valid(),
    ensures
        h.evicted(budget, protect).entries.len() + h.given_up(budget, protect) == h.entries.len(),
        h.evicted(budget, protect).evictions == capped(
            h.evictions + h.given_up(budget, protect),
        ),
{
    if h.bytes() > budget {
        order_facts(h, protect);
        victims_facts(h, budget, protect);
        kept_counts(h.entries, h.order(protect), h.victims(budget, protect).len() as int);
    }
}

/// The clock one tick on.
pub open spec fn ticked(clock: u32) -> u32 {
    if clock == u32::MAX {
        0
    } else {
        (clock + 1) as u32
    }
}

/// An entry after one more use at `clock`.
pub open spec fn warmed(e: Entry, clock: u32) -> Entry {
    Entry { heat: if e.heat == u32::MAX { u32::MAX } else { (e.heat + 1) as u32 }, last: clock, ..e }
}

/// The entry of an expert that just arrived.
pub open spec fn arrival(id: ExpertId, expert: Arc<Expert>, clock: u32) -> Entry {
    Entry { id, expert, bytes: capped(expert.held() as int), heat: 1, last: clock }
}

impl Holdings {
    /// The holdings after `id` was asked for: a hit warms its entry, a miss is
    /// counted. Only a router selection (`record`) counts as usage.
    pub open spec fn looked_up(self, id: ExpertId, record: bool) -> Holdings {
        let clock = ticked(self.clock);
        let usage = if record { counted(self.usage, id, 1) } else { self.usage };
        if is_resident(self.entries, id) {
            let i = place_of(self.entries, id);
            Holdings {
                clock,
                usage,
                entries: self.entries.update(i, warmed(self.entries[i], clock)),
                hits: sum_capped(self.hits, 1),
                ..self
            }
        } else {
            Holdings { clock, usage, misses: sum_capped(self.misses, 1), ..self }
        }
    }

    /// The holdings after a loaded expert arrived. One that is already there
    /// stays as it is.
    pub open spec fn arrived(self, id: ExpertId, expert: Arc<Expert>) -> Holdings {
        if is_resident(self.entries, id) {
            self
        } else {
            Holdings { entries: self.entries.push(arrival(id, expert, self.clock)), ..self }
        }
    }

    /// The holdings after an expert that was missed arrived.
    pub open spec fn admitted(self, id: ExpertId, expert: Arc<Expert>, budget: u64) -> Holdings {
        if is_resident(self.entries, id) {
            self
        } else {
            self.arrived(id, expert).evicted(budget, Seq::empty())
        }
    }

    /// The holdings after the experts of a batch arrived, each that was absent
    /// counted as a miss.
    pub open spec fn batch_arrived(self, layer: usize, loaded: Seq<(usize, Arc<Expert>)>) -> Holdings
        decreases loaded.len(),
    {
        if loaded.len() == 0 {
            self
        } else {
            let h = self.batch_arrived(layer, loaded.drop_last());
            let id = ExpertId { layer, eid: loaded.last().0 };
            if is_resident(h.entries, id) {
                h
            } else {
                Holdings { misses: sum_capped(h.misses, 1), ..h.arrived(id, loaded.last().1) }
            }
        }
    }

    /// The holdings after a batch was loaded: everything arrives, then one
    /// eviction that spares the whole batch.
    pub open spec fn batch_loaded(
        self,
        layer: usize,
        missing: Seq<usize>,
        loaded: Seq<(usize, Arc<Expert>)>,
        budget: u64,
    ) -> Holdings {
        self.batch_arrived(layer, loaded).evicted(budget, ids_in(layer, missing))
    }

    /// The holdings once `id` is pinned.
    pub open spec fn pinning(self, id: ExpertId) -> Holdings {
        if self.pinned.contains(id) {
            self
        } else {
            Holdings { pinned: self.pinned.push(id), ..self }
        }
    }
}

/// Experts `eids` of `layer`.
pub open spec fn ids_in(layer: usize, eids: Seq<usize>) -> Seq<ExpertId> {
    eids.map_values(|e: usize| ExpertId { layer, eid: e })
}

/// The experts among `eids` that are not resident.
pub open spec fn absent(entries: Seq<Entry>, layer: usize, eids: Seq<usize>) -> Seq<usize>
    decreases eids.len(),
{
    if eids.len() == 0 {
        eids
    } else {
        let front = absent(entries, layer, eids.drop_last());
        if is_resident(entries, ExpertId { layer, eid: eids.last() }) {
            front
        } else {
            front.push(eids.last())
        }
    }
}

/// A second owner of an expert: `std::sync::Arc::clone`, which gives another
/// pointer to the same value.
#[verifier::external_body]
pub(crate) fn share(e: &Arc<Expert>) -> (r: Arc<Expert>)
    ensures
        r == *e,
{
    Arc::clone(e)
}

proof fn total_of_update(entries: Seq<Entry>, i: int, e: Entry)
    requires
        0 <= i < entries.len(),
        e.bytes == entries[i].bytes,
    ensures
        total(entries.update(i, e)) == total(entries),
    decreases entries.len(),
{
    let after = entries.update(i, e);
    if i == entries.len() - 1 {
        assert(after.drop_last() =~= entries.drop_last());
    } else {
        total_of_update(entries.drop_last(), i, e);
        assert(after.drop_last() =~= entries.drop_last().update(i, e));
    }
}

impl State {
    /// Where `id` is resident, if it is.
    fn place(&self, id: ExpertId) -> (r: Option<usize>)
        requires
            self.wf(),
        ensures
            match r {
                Some(i) => is_resident(self.entries@, id) && i == place_of(self.entries@, id) && i
                    < self.entries@.len() && self.entries@[i as int].id == id,
                None => !is_resident(self.entries@, id),
            },
    {
        for i in 0..self.entries.len()
            invariant
                self.wf(),
                forall|j: int| 0 <= j < i ==> #[trigger] self.entries@[j].id != id,
        {
            if self.entries[i].id.layer == id.layer && self.entries[i].id.eid == id.eid {
                proof {
                    assert(self.entries@[i as int].id == id);
                    let p = place_of(self.entries@, id);
                    if p != i {
                        assert(self.entries@[p].id != self.entries@[i as int].id);
                    }
                }
                return Some(i);
            }
        }
        None
    }

    /// Asks for an expert. A resident one is handed out and warmed; a missing
    /// one is counted as a miss, and the caller loads it.
    pub fn look_up(&mut self, id: ExpertId, record: bool) -> (r: Option<Arc<Expert>>)
        requires
            old(self).wf(),
        ensures
            final(self).wf(),
            final(self)@ == old(self)@.looked_up(id, record),
            final(self).bytes == old(self).bytes,
            r == if is_resident(old(self)@.entries, id) {
                Some(old(self)@.entries[place_of(old(self)@.entries, id)].expert)
            } else {
                None
            },
    {
        let ghost before = self@;
        self.clock = self.clock.wrapping_add(1);
        if record {
            self.session_usage.count(id, 1);
        }
        match self.place(id) {
            Some(i) => {
                let heat: u32 = self.entries[i].heat.saturating_add(1);
                let clock: u32 = self.clock;
                let shared: Arc<Expert> = share(&self.entries[i].expert);
                self.entries[i].heat = heat;
                self.entries[i].last = clock;
                self.hits = self.hits.saturating_add(1);
                proof {
                    let after = self.entries@;
                    assert(after =~= before.entries.update(
                        i as int,
                        warmed(before.entries[i as int], clock),
                    ));
                    total_of_update(
                        before.entries,
                        i as int,
                        warmed(before.entries[i as int], clock),
                    );
                    assert forall|a: int, b: int|
                        0 <= a < after.len() && 0 <= b < after.len() && a
                            != b implies #[trigger] after[a].id != #[trigger] after[b].id by {
                        assert(before.entries[a].id != before.entries[b].id);
                    }
                    assert(self@ =~= before.looked_up(id, record));
                }
                Some(shared)
            },
            None => {
                self.misses = self.misses.saturating_add(1);
                assert(self@ =~= before.looked_up(id, record));
                None
            },
        }
    }

    /// Makes an absent expert resident.
    fn arrive(&mut self, id: ExpertId, expert: Arc<Expert>)
        requires
            old(self).wf(),
            !is_resident(old(self)@.entries, id),
        ensures
            final(self).wf(),
            final(self)@ == old(self)@.arrived(id, expert),
    {
        let ghost before = self@;
        let bytes: u64 = expert.bytes();
        let clock: u32 = self.clock;
        self.entries.push(Entry { id, expert, bytes, heat: 1, last: clock });
        let n: usize = self.entries.len();
        proof {
            let after = self.entries@;
            assert(after.len() == n);
            assert(after.drop_last() =~= before.entries);
            total_is_bounded(after);
            assert(after.len() * u64::MAX <= usize::MAX * u64::MAX) by (nonlinear_arith)
                requires
                    after.len() <= usize::MAX,
            ;
            assert forall|a: int, b: int|
                0 <= a < after.len() && 0 <= b < after.len() && a != b implies #[trigger] after[a].id
                != #[trigger] after[b].id by {
                if a < before.entries.len() && b < before.entries.len() {
                    assert(before.entries[a].id != before.entries[b].id);
                } else {
                    let c = if a < before.entries.len() { a } else { b };
                    assert(before.entries[c] == after[c]);
                    assert(before.entries[c].id != id);
                }
            }
        }
        self.bytes = self.bytes + bytes as u128;
    }

    /// Takes in an expert that was missed and loaded, then comes down to
    /// `budget`. Where it arrived meanwhile, nothing changes, and the one that is
    /// there is handed out.
    pub fn let_in(&mut self, id: ExpertId, expert: Arc<Expert>, budget: u64) -> (r: Arc<Expert>)
        requires
            old(self).wf(),
        ensures
            final(self).wf(),
            final(self)@ == old(self)@.admitted(id, expert, budget),
            r == if is_resident(old(self)@.entries, id) {
                old(self)@.entries[place_of(old(self)@.entries, id)].expert
            } else {
                expert
            },
    {
        match self.place(id) {
            Some(i) => share(&self.entries[i].expert),
            None => {
                self.arrive(id, share(&expert));
                self.evict_to(budget);
                expert
            },
        }
    }

    /// The experts of `layer` among `eids` that are not resident.
    pub fn missing(&self, layer: usize, eids: &Vec<usize>) -> (m: Vec<usize>)
        requires
            self.wf(),
        ensures
            m@ == absent(self@.entries, layer, eids@),
    {
        let mut m: Vec<usize> = Vec::new();
        assert(eids@.take(0) =~= Seq::<usize>::empty());
        for i in 0..eids.len()
            invariant
                self.wf(),
                m@ == absent(self@.entries, layer, eids@.take(i as int)),
        {
            assert(eids@.take(i + 1).drop_last() =~= eids@.take(i as int));
            if self.place(ExpertId { layer, eid: eids[i] }).is_none() {
                m.push(eids[i]);
            }
        }
        assert(eids@.take(eids@.len() as int) =~= eids@);
        m
    }

    /// Takes in a batch of loaded experts, then comes down to `budget` once,
    /// sparing everything that the batch was to bring.
    pub fn take_in(
        &mut self,
        layer: usize,
        missing: &Vec<usize>,
        loaded: &Vec<(usize, Arc<Expert>)>,
        budget: u64,
    )
        requires
            old(self).wf(),
        ensures
            final(self).wf(),
            final(self)@ == old(self)@.batch_loaded(layer, missing@, loaded@, budget),
    {
        let ghost before = self@;
        assert(loaded@.take(0) =~= Seq::<(usize, Arc<Expert>)>::empty());
        for i in 0..loaded.len()
            invariant
                self.wf(),
                self@ == before.batch_arrived(layer, loaded@.take(i as int)),
        {
            assert(loaded@.take(i + 1).drop_last() =~= loaded@.take(i as int));
            let id: ExpertId = ExpertId { layer, eid: loaded[i].0 };
            if self.place(id).is_none() {
                self.arrive(id, share(&loaded[i].1));
                self.misses = self.misses.saturating_add(1);
            }
        }
        assert(loaded@.take(loaded@.len() as int) =~= loaded@);
        let mut batch: Vec<ExpertId> = Vec::new();
        for i in 0..missing.len()
            invariant
                batch@ =~= ids_in(layer, missing@.take(i as int)),
        {
            batch.push(ExpertId { layer, eid: missing[i] });
            assert(batch@ =~= ids_in(layer, missing@.take(i + 1)));
        }
        assert(missing@.take(missing@.len() as int) =~= missing@);
        self.evict_to_protecting(budget, &batch);
    }

    /// Pins an expert: from now on it is never evicted.
    pub fn pin(&mut self, id: ExpertId)
        requires
            old(self).wf(),
        ensures
            final(self).wf(),
            final(self)@ == old(self)@.pinning(id),
    {
        if !holds_id(&self.pinned, id) {
            self.pinned.push(id);
        }
    }
}

/// Asking for an expert changes neither what is resident nor how much.
pub proof fn asking_keeps_what_is_resident(h: Holdings, id: ExpertId, record: bool)
    requires
        h.valid(),
    ensures
        h.looked_up(id, record).valid(),
        h.looked_up(id, record).entries.len() == h.entries.len(),
        h.looked_up(id, record).bytes() == h.bytes(),
        forall|x: ExpertId| #[trigger]
            is_resident(h.looked_up(id, record).entries, x) <==> is_resident(h.entries, x),
{
    let l = h.looked_up(id, record);
    if is_resident(h.entries, id) {
        let i = place_of(h.entries, id);
        total_of_update(h.entries, i, warmed(h.entries[i], l.clock));
        assert forall|a: int, b: int|
            0 <= a < l.entries.len() && 0 <= b < l.entries.len() && a
                != b implies #[trigger] l.entries[a].id != #[trigger] l.entries[b].id by {
            assert(h.entries[a].id != h.entries[b].id);
        }
        assert forall|x: ExpertId| #[trigger]
            is_resident(l.entries, x) <==> is_resident(h.entries, x) by {
            if is_resident(l.entries, x) {
                let j = place_of(l.entries, x);
                assert(h.entries[j].id == x);
            }
            if is_resident(h.entries, x) {
                let j = place_of(h.entries, x);
                assert(l.entries[j].id == x);
            }
        }
    }
}

/// Every request is counted once, as a hit if the expert was resident and as a
/// miss if not. Only a router selection shows up as usage.
pub proof fn every_request_is_a_hit_or_a_miss(h: Holdings, id: ExpertId, record: bool)
    requires
        h.valid(),
        h.hits < u64::MAX,
        h.misses < u64::MAX,
    ensures
        h.looked_up(id, record).hits - h.hits == if is_resident(h.entries, id) { 1int } else { 0 },
        h.looked_up(id, record).misses - h.misses == if is_resident(h.entries, id) { 0int } else {
            1
        },
        !record ==> h.looked_up(id, record).usage == h.usage,
{
}

/// A loaded expert is resident once it arrived, and displaces nothing.
pub proof fn arrival_keeps_residents(h: Holdings, id: ExpertId, expert: Arc<Expert>)
    requires
        h.valid(),
    ensures
        h.arrived(id, expert).valid(),
        h.arrived(id, expert).entries.len() <= h.entries.len() + 1,
        is_resident(h.arrived(id, expert).entries, id),
        forall|x: ExpertId|
            is_resident(h.entries, x) ==> #[trigger] is_resident(h.arrived(id, expert).entries, x),
{
    if !is_resident(h.entries, id) {
        let a = h.arrived(id, expert).entries;
        assert(a[h.entries.len() as int].id == id);
        assert forall|x: ExpertId| is_resident(h.entries, x) implies #[trigger] is_resident(
            a,
            x,
        ) by {
            let j = place_of(h.entries, x);
            assert(a[j].id == x);
        }
        assert forall|i: int, j: int|
            0 <= i < a.len() && 0 <= j < a.len() && i != j implies #[trigger] a[i].id
            != #[trigger] a[j].id by {
            if i < h.entries.len() && j < h.entries.len() {
                assert(h.entries[i].id != h.entries[j].id);
            } else {
                let c = if i < h.entries.len() { i } else { j };
                assert(h.entries[c] == a[c]);
                assert(h.entries[c].id != id);
            }
        }
    }
}

/// Everything that a batch brought is resident once it arrived, and displaces
/// nothing.
pub proof fn batch_is_resident(h: Holdings, layer: usize, loaded: Seq<(usize, Arc<Expert>)>)
    requires
        h.valid(),
    ensures
        h.batch_arrived(layer, loaded).valid(),
        h.batch_arrived(layer, loaded).entries.len() <= h.entries.len() + loaded.len(),
        forall|j: int|
            0 <= j < loaded.len() ==> is_resident(
                h.batch_arrived(layer, loaded).entries,
                ExpertId { layer, eid: (#[trigger] loaded[j]).0 },
            ),
        forall|x: ExpertId|
            is_resident(h.entries, x) ==> #[trigger] is_resident(
                h.batch_arrived(layer, loaded).entries,
                x,
            ),
    decreases loaded.len(),
{
    if loaded.len() > 0 {
        let front = loaded.drop_last();
        batch_is_resident(h, layer, front);
        let m = h.batch_arrived(layer, front);
        let id = ExpertId { layer, eid: loaded.last().0 };
        arrival_keeps_residents(m, id, loaded.last().1);
        assert forall|j: int| 0 <= j < loaded.len() implies is_resident(
            h.batch_arrived(layer, loaded).entries,
            ExpertId { layer, eid: (#[trigger] loaded[j]).0 },
        ) by {
            if j < front.len() {
                assert(front[j] == loaded[j]);
                assert(is_resident(m.entries, ExpertId { layer, eid: front[j].0 }));
            }
        }
    }
}

/// Every expert that a batch brought in is resident afterwards, however tight
/// the budget: a batch is never evicted by its own arrival.
pub proof fn a_batch_survives_its_own_eviction(
    h: Holdings,
    layer: usize,
    missing: Seq<usize>,
    loaded: Seq<(usize, Arc<Expert>)>,
    budget: u64,
)
    requires
        h.valid(),
        forall|j: int| 0 <= j < loaded.len() ==> missing.contains((#[trigger] loaded[j]).0),
    ensures
        forall|j: int|
            0 <= j < loaded.len() ==> is_resident(
                h.batch_loaded(layer, missing, loaded, budget).entries,
                ExpertId { layer, eid: (#[trigger] loaded[j]).0 },
            ),
{
    batch_is_resident(h, layer, loaded);
    let m = h.batch_arrived(layer, loaded);
    let batch = ids_in(layer, missing);
    assert forall|j: int| 0 <= j < loaded.len() implies is_resident(
        h.batch_loaded(layer, missing, loaded, budget).entries,
        ExpertId { layer, eid: (#[trigger] loaded[j]).0 },
    ) by {
        let id = ExpertId { layer, eid: loaded[j].0 };
        let k = choose|k: int| 0 <= k < missing.len() && missing[k] == loaded[j].0;
        assert(batch[k] == id);
        eviction_spares_pinned_and_protected(m, budget, batch, id);
    }
}

/// The bytes of all residents are the sum of the bytes of each.
pub proof fn every_resident_counts_with_its_bytes(entries: Seq<Entry>)
    ensures
        total(entries) == entries.fold_left(0int, |n: int, e: Entry| n + e.bytes),
    decreases entries.len(),
{
    reveal(Seq::fold_left);
    if entries.len() > 0 {
        every_resident_counts_with_its_bytes(entries.drop_last());
    }
}

/// A request takes one tick. A resident expert is handed out, one use warmer and the
/// most recent of all; what is not resident is not handed out. Requests are counted as
/// hits or misses, and a router selection as one more use of that expert alone.
pub proof fn a_request_warms_what_it_finds(
    s: &mut State,
    id: ExpertId,
    record: bool,
    r: Option<Arc<Expert>>,
    i: int,
    other: ExpertId,
)
    requires
        old(s).wf(),
        call_ensures(State::look_up, (s, id, record), r),
        0 <= i < old(s).entries@.len(),
        other != id,
        old(s).hits < u64::MAX,
        old(s).misses < u64::MAX,
        crate::tally::count_in(old(s)@.usage, id) < u64::MAX,
    ensures
        final(s).clock == (old(s).clock + 1) % 0x1_0000_0000,
        final(s).entries@.len() == old(s).entries@.len(),
        ({
            let was = old(s).entries@[i];
            let now = final(s).entries@[i];
            &&& was.id != id ==> now == was
            &&& was.id == id ==> {
                &&& r == Some(was.expert)
                &&& now.id == id && now.expert == was.expert && now.bytes == was.bytes
                &&& now.last == final(s).clock
                &&& now.heat == was.heat + 1 || was.heat == u32::MAX && now.heat == u32::MAX
            }
        }),
        r is Some ==> final(s).hits == old(s).hits + 1 && final(s).misses == old(s).misses,
        r is None ==> final(s).hits == old(s).hits && final(s).misses == old(s).misses + 1,
        r is Some ==> exists|k: int|
            0 <= k < old(s).entries@.len() && (#[trigger] old(s).entries@[k]).id == id,
        crate::tally::count_in(final(s)@.usage, id) == crate::tally::count_in(old(s)@.usage, id)
            + if record { 1int } else { 0 },
        crate::tally::count_in(final(s)@.usage, other) == crate::tally::count_in(
            old(s)@.usage,
            other,
        ),
        final(s).pinned@ == old(s).pinned@,
        final(s).evictions == old(s).evictions,
        final(s).published == old(s).published,
{
    let h = old(s)@;
    assert(h.entries == old(s).entries@);
    let f = final(s)@;
    assert(f.entries == final(s).entries@);
    assert(f.clock == final(s).clock && f.hits == final(s).hits && f.misses == final(s).misses
        && f.pinned == final(s).pinned@ && f.evictions == final(s).evictions && f.published
        == final(s).published);
    if is_resident(h.entries, id) {
        let p = place_of(h.entries, id);
        assert(0 <= p < h.entries.len() && h.entries[p].id == id);
        if p != i {
            assert(h.entries[p].id != h.entries[i].id);
        }
    }
}

/// An expert that is let in where there is room is there behind the others, used once and
/// just now, with all its bytes. One that is there already stays as it is, and is the one
/// handed out.
pub proof fn a_newcomer_comes_last(
    s: &mut State,
    id: ExpertId,
    expert: Arc<Expert>,
    budget: u64,
    r: Arc<Expert>,
    i: int,
)
    requires
        old(s).wf(),
        call_ensures(State::let_in, (s, id, expert, budget), r),
        old(s).bytes + expert.held() <= budget,
    ensures
        (forall|k: int| 0 <= k < old(s).entries@.len() ==> (#[trigger] old(s).entries@[k]).id != id)
            ==> {
            let e = final(s).entries@.last();
            &&& final(s).entries@.len() == old(s).entries@.len() + 1
            &&& final(s).entries@.drop_last() == old(s).entries@
            &&& e.id == id && e.expert == expert && e.bytes == expert.held() && e.heat == 1
            &&& e.last == old(s).clock
            &&& r == expert
            &&& final(s).published == old(s).bytes + expert.held()
        },
        0 <= i < old(s).entries@.len() && old(s).entries@[i].id == id ==> final(s)@ == old(s)@ && r
            == old(s).entries@[i].expert,
        final(s).clock == old(s).clock,
        final(s).hits == old(s).hits && final(s).misses == old(s).misses && final(s).evictions
            == old(s).evictions,
        final(s).pinned@ == old(s).pinned@,
{
    let h = old(s)@;
    assert(h.entries == old(s).entries@);
    let f = final(s)@;
    assert(f.entries == final(s).entries@);
    assert(f.clock == final(s).clock && f.hits == final(s).hits && f.misses == final(s).misses
        && f.pinned == final(s).pinned@ && f.evictions == final(s).evictions && f.published
        == final(s).published);
    if is_resident(h.entries, id) {
        let p = place_of(h.entries, id);
        assert(0 <= p < h.entries.len() && h.entries[p].id == id);
        if 0 <= i < h.entries.len() && h.entries[i].id == id && p != i {
            assert(h.entries[p].id != h.entries[i].id);
        }
    } else {
        let a = h.arrived(id, expert);
        assert(a.entries.drop_last() =~= h.entries);
        assert(a.bytes() == h.bytes() + expert.held());
    }
}

/// Eviction gives up what was used longest ago, of experts used at the same tick the one
/// used less, of equal ones the one that came first; it never gives up a pinned expert or
/// one of the batch at hand, nor anything where all fits, and what goes is counted.
pub proof fn the_least_recently_used_goes_first(
    s: &mut State,
    budget: u64,
    protect: Vec<ExpertId>,
    i: int,
    j: int,
)
    requires
        old(s).wf(),
        call_ensures(State::evict_to_protecting, (s, budget, &protect), ()),
        0 <= i < old(s).entries@.len(),
        0 <= j < old(s).entries@.len(),
    ensures
        ({
            let before = old(s).entries@;
            let after = final(s).entries@;
            let spared = |k: int|
                old(s).pinned@.contains(before[k].id) || protect@.contains(before[k].id);
            let ticks_ago = |k: int| (old(s).clock - before[k].last) % 0x1_0000_0000;
            &&& spared(i) ==> after.contains(before[i])
            &&& !after.contains(before[i]) && after.contains(before[j]) && !spared(j) ==> ticks_ago(i)
                >= ticks_ago(j) && (ticks_ago(i) == ticks_ago(j) ==> before[i].heat
                <= before[j].heat && (before[i].heat == before[j].heat ==> i < j))
            &&& old(s).bytes <= budget ==> after == before
            &&& final(s).bytes > budget && after.contains(before[i]) ==> spared(i)
            &&& old(s).evictions + (before.len() - after.len()) < u64::MAX ==> final(s).evictions
                == old(s).evictions + (before.len() - after.len())
        }),
        final(s).published == final(s).bytes,
        final(s).clock == old(s).clock,
        final(s).hits == old(s).hits && final(s).misses == old(s).misses,
        final(s).pinned@ == old(s).pinned@,
{
    let h = old(s)@;
    let f = final(s)@;
    let before = h.entries;
    let after = f.entries;
    assert(before == old(s).entries@ && after == final(s).entries@);
    assert(f.clock == final(s).clock && f.hits == final(s).hits && f.misses == final(s).misses
        && f.pinned == final(s).pinned@ && f.evictions == final(s).evictions && f.published
        == final(s).published);
    assert(old(s).entries.len() == before.len());
    let p = protect@;
    eviction_meets_the_budget(h, budget, p);
    eviction_counts_what_it_gives_up(h, budget, p);
    if h.bytes() > budget {
        order_facts(h, p);
        victims_facts(h, budget, p);
        let m = coldness(h.entries, h.pinned, p, h.clock);
        let order = h.order(p);
        let gone = h.victims(budget, p);
        let n = gone.len() as int;
        kept_are_entries(before, gone);
        assert(after == kept(before, gone));
        stays_unless_gone(before, gone, i);
        stays_unless_gone(before, gone, j);
        assert(m.dom().contains(i as usize) <==> !(h.pinned.contains(before[i].id) || p.contains(
            before[i].id,
        )));
        assert(m.dom().contains(j as usize) <==> !(h.pinned.contains(before[j].id) || p.contains(
            before[j].id,
        )));
        if is_gone(gone, i) {
            let k = choose|k: int| 0 <= k < gone.len() && gone[k] == i as usize;
            assert(order[k] == i as usize);
            assert(order.contains(i as usize));
            if !is_gone(gone, j) && m.dom().contains(j as usize) {
                assert(order.contains(j as usize));
                let q = choose|q: int| 0 <= q < order.len() && order[q] == j as usize;
                if q < n {
                    assert(gone[q] == j as usize);
                }
                assert(hotter(m, order[k], order[q]));
                let a = before[i];
                let b = before[j];
                assert(m[i as usize] == u64::MAX - score_of(a.heat, a.last, h.clock));
                assert(m[j as usize] == u64::MAX - score_of(b.heat, b.last, h.clock));
                crate::tier::recency_decides_first(a.heat, a.last, b.heat, b.last, h.clock);
                crate::tier::recency_decides_first(b.heat, b.last, a.heat, a.last, h.clock);
            }
        }
        if f.bytes() > budget && after.contains(before[i]) {
            let k = choose|k: int| 0 <= k < after.len() && after[k] == before[i];
            assert(f.entries[k].id == before[i].id);
        }
    }
}

proof fn stays_unless_gone(entries: Seq<Entry>, gone: Seq<usize>, i: int)
    requires
        ids_differ(entries),
        0 <= i < entries.len(),
    ensures
        kept(entries, gone).contains(entries[i]) <==> !is_gone(gone, i),
{
    kept_are_entries(entries, gone);
    let left = kept(entries, gone);
    if left.contains(entries[i]) {
        let q = choose|q: int| 0 <= q < entries.len() && entries[q] == entries[i] && !is_gone(gone, q);
        if q != i {
            assert(entries[q].id != entries[i].id);
        }
    }
}

/// Eviction without a batch at hand is eviction with an empty one.
pub proof fn eviction_without_a_batch(s: &mut State, o: &mut State, budget: u64, nobody: Vec<ExpertId>)
    requires
        old(s).wf(),
        *old(o) == *old(s),
        nobody@.len() == 0,
        call_ensures(State::evict_to, (s, budget), ()),
        call_ensures(State::evict_to_protecting, (o, budget, &nobody), ()),
    ensures
        final(s)@ == final(o)@,
{
    assert(nobody@ =~= Seq::<ExpertId>::empty());
}

/// What is missing is what was asked for without what is there, in the order in which it
/// was asked for.
pub proof fn what_is_missing_is_not_there(s: State, layer: usize, eids: Vec<usize>, m: Vec<usize>)
    requires
        s.wf(),
        call_ensures(State::missing, (&s, layer, &eids), m),
    ensures
        m@ == eids@.filter(
            |e: usize|
                forall|k: int|
                    0 <= k < s.entries@.len() ==> (#[trigger] s.entries@[k]).id != (ExpertId {
                        layer,
                        eid: e,
                    }),
        ),
{
    assert(s@.entries == s.entries@);
    absent_is_a_filter(s.entries@, layer, eids@);
}

proof fn absent_is_a_filter(entries: Seq<Entry>, layer: usize, eids: Seq<usize>)
    ensures
        absent(entries, layer, eids) == eids.filter(
            |e: usize|
                forall|k: int|
                    0 <= k < entries.len() ==> (#[trigger] entries[k]).id != (ExpertId {
                        layer,
                        eid: e,
                    }),
        ),
    decreases eids.len(),
{
    reveal(Seq::filter);
    if eids.len() > 0 {
        absent_is_a_filter(entries, layer, eids.drop_last());
        let id = ExpertId { layer, eid: eids.last() };
        assert(is_resident(entries, id) <==> !(forall|k: int|
            0 <= k < entries.len() ==> (#[trigger] entries[k]).id != id));
    } else {
        assert(eids =~= Seq::<usize>::empty());
    }
}

/// Of a batch, what was not there yet is there in order behind the others, used once and
/// just now, and is counted as missed; what was there stays as it was.
pub proof fn a_batch_arrives_in_order(
    h: Holdings,
    layer: usize,
    loaded: Seq<(usize, Arc<Expert>)>,
    i: int,
)
    requires
        h.valid(),
        h.misses + loaded.len() < u64::MAX,
    ensures
        ({
            let after = h.batch_arrived(layer, loaded);
            let n = h.entries.len();
            &&& after.entries.len() >= n
            &&& after.entries.take(n as int) == h.entries
            &&& after.misses - h.misses == after.entries.len() - n
            &&& after.clock == h.clock && after.hits == h.hits && after.evictions == h.evictions
            &&& after.pinned == h.pinned && after.usage == h.usage && after.published == h.published
            &&& n <= i < after.entries.len() ==> {
                let e = after.entries[i];
                &&& e.heat == 1 && e.last == h.clock && e.id.layer == layer
                &&& e.bytes == e.expert.held() || e.bytes == u64::MAX && e.expert.held() > u64::MAX
                &&& exists|k: int|
                    0 <= k < loaded.len() && (#[trigger] loaded[k]).0 == e.id.eid && loaded[k].1
                        == e.expert
                &&& !is_resident(h.entries, e.id)
            }
        }),
    decreases loaded.len(),
{
    let after = h.batch_arrived(layer, loaded);
    let n = h.entries.len();
    if loaded.len() == 0 {
        assert(after.entries.take(n as int) =~= h.entries);
    } else {
        let front = loaded.drop_last();
        let m = h.batch_arrived(layer, front);
        a_batch_arrives_in_order(h, layer, front, i);
        batch_is_resident(h, layer, front);
        let id = ExpertId { layer, eid: loaded.last().0 };
        assert(after.entries.take(n as int) =~= m.entries.take(n as int));
        if n <= i < m.entries.len() {
            let k = choose|k: int|
                0 <= k < front.len() && (#[trigger] front[k]).0 == m.entries[i].id.eid && front[k].1
                    == m.entries[i].expert;
            assert(loaded[k] == front[k]);
        } else if i == m.entries.len() && i < after.entries.len() {
            let e = after.entries[i];
            assert(e == arrival(id, loaded.last().1, m.clock));
            let k = loaded.len() - 1;
            assert(loaded[k].0 == e.id.eid && loaded[k].1 == e.expert);
            if is_resident(h.entries, id) {
                let q = place_of(h.entries, id);
                assert(m.entries.take(n as int)[q] == m.entries[q]);
                assert(m.entries[q].id == id);
                assert(is_resident(m.entries, id));
            }
        }
    }
}

/// A batch that is taken in where there is room arrives, and nothing else happens. The
/// budget is met by one eviction that spares all of it.
pub proof fn a_batch_is_taken_in_at_once(
    s: &mut State,
    layer: usize,
    missing: Vec<usize>,
    loaded: Vec<(usize, Arc<Expert>)>,
    budget: u64,
    arrived: Holdings,
    i: int,
)
    requires
        old(s).wf(),
        call_ensures(State::take_in, (s, layer, &missing, &loaded, budget), ()),
        arrived == old(s)@.batch_arrived(layer, loaded@),
        0 <= i < arrived.entries.len(),
        arrived.entries.len() <= usize::MAX,
    ensures
        arrived.bytes() <= budget ==> final(s).entries@ == arrived.entries,
        final(s).bytes <= arrived.bytes(),
        final(s).misses == arrived.misses,
        final(s).published == final(s).bytes,
        missing@.contains(arrived.entries[i].id.eid) && arrived.entries[i].id.layer == layer
            ==> final(s).entries@.contains(arrived.entries[i]),
        old(s).pinned@.contains(arrived.entries[i].id) ==> final(s).entries@.contains(
            arrived.entries[i],
        ),
        final(s).bytes > budget && final(s).entries@.contains(arrived.entries[i]) ==> old(
            s,
        ).pinned@.contains(arrived.entries[i].id) || missing@.contains(arrived.entries[i].id.eid)
            && arrived.entries[i].id.layer == layer,
{
    let h = old(s)@;
    let f = final(s)@;
    assert(f.entries == final(s).entries@ && f.misses == final(s).misses && f.published
        == final(s).published);
    batch_is_resident(h, layer, loaded@);
    let batch = ids_in(layer, missing@);
    let e = arrived.entries[i];
    same_pins(h, layer, loaded@);
    assert(f == arrived.evicted(budget, batch));
    eviction_keeps_order(arrived, budget, batch);
    eviction_meets_the_budget(arrived, budget, batch);
    assert(batch.contains(e.id) <==> missing@.contains(e.id.eid) && e.id.layer == layer) by {
        if missing@.contains(e.id.eid) && e.id.layer == layer {
            let k = choose|k: int| 0 <= k < missing@.len() && missing@[k] == e.id.eid;
            assert(batch[k] == e.id);
        }
        if batch.contains(e.id) {
            let k = choose|k: int| 0 <= k < batch.len() && batch[k] == e.id;
            assert(missing@[k] == e.id.eid);
        }
    }
    if arrived.bytes() > budget {
        order_facts(arrived, batch);
        victims_facts(arrived, budget, batch);
        let gone = arrived.victims(budget, batch);
        stays_unless_gone(arrived.entries, gone, i);
        if is_gone(gone, i) {
            let k = choose|k: int| 0 <= k < gone.len() && gone[k] == i as usize;
            assert(arrived.order(batch)[k] == i as usize);
            assert(arrived.order(batch).contains(i as usize));
        }
    }
    if f.bytes() > budget && f.entries.contains(e) {
        let k = choose|k: int| 0 <= k < f.entries.len() && f.entries[k] == e;
        assert(f.entries[k].id == e.id);
    }
}

proof fn same_pins(h: Holdings, layer: usize, loaded: Seq<(usize, Arc<Expert>)>)
    ensures
        h.batch_arrived(layer, loaded).pinned == h.pinned,
    decreases loaded.len(),
{
    if loaded.len() > 0 {
        same_pins(h, layer, loaded.drop_last());
    }
}

/// What is pinned stays pinned, what was pinned comes first, and nothing is pinned twice.
pub proof fn pins_are_kept_once(s: &mut State, id: ExpertId)
    requires
        old(s).wf(),
        call_ensures(State::pin, (s, id), ()),
    ensures
        final(s).pinned@.contains(id),
        final(s).pinned@.no_duplicates(),
        old(s).pinned@.contains(id) ==> final(s)@ == old(s)@,
        !old(s).pinned@.contains(id) ==> final(s).pinned@.drop_last() == old(s).pinned@
            && final(s).pinned@.last() == id,
        final(s).entries@ == old(s).entries@,
{
    let h = old(s)@;
    let f = final(s)@;
    assert(h.pinned == old(s).pinned@ && f.pinned == final(s).pinned@);
    assert(h.entries == old(s).entries@ && f.entries == final(s).entries@);
    if !h.pinned.contains(id) {
        assert(f.pinned[f.pinned.len() - 1] == id);
        assert(f.pinned.drop_last() =~= h.pinned);
    }
}

} // verus!
