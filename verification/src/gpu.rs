//! What the device is used for: which weights stay on it, what it keeps of the
//! cache, and which kernel runs.

use vstd::prelude::*;
use crate::guard::minus;
use crate::order::{best_first, better, sorted};
use crate::residency::ticked;
use crate::tally::sum_capped;

verus! {

/// Memory left on the device for everything but cached weights: 14 GiB.
pub const DEVICE_RESERVE: u64 = 0x3_8000_0000;

/// A weight that is resident on the device.
#[derive(Debug, Clone, Copy, PartialEq, Eq, Structural)]
pub struct GpuEntry {
    /// What identifies the weight.
    pub key: usize,
    pub bytes: u64,
    pub heat: u32,
    pub last: u32,
}

/// Bytes of all `entries`.
pub open spec fn device_total(entries: Seq<GpuEntry>) -> nat
    decreases entries.len(),
{
    if entries.len() == 0 {
        0
    } else {
        device_total(entries.drop_last()) + entries.last().bytes as nat
    }
}

/// `entries` without the places `gone`.
pub open spec fn left_over(entries: Seq<GpuEntry>, gone: Seq<usize>) -> Seq<GpuEntry>
    decreases entries.len(),
{
    if entries.len() == 0 {
        entries
    } else {
        let front = left_over(entries.drop_last(), gone);
        if gone.contains((entries.len() - 1) as usize) {
            front
        } else {
            front.push(entries.last())
        }
    }
}

/// Whether place `i` may be evicted: it is there, and not needed by the operation
/// at hand.
pub open spec fn may_go(entries: Seq<GpuEntry>, protect: Seq<usize>, i: usize) -> bool {
    i < entries.len() && !protect.contains(entries[i as int].key)
}

/// Whether place `a` goes before place `b`: the lower score first, then the one
/// that is there longer.
pub open spec fn goes_before(scores: Seq<u64>, a: usize, b: usize) -> bool {
    scores[a as int] < scores[b as int] || (scores[a as int] == scores[b as int] && a < b)
}

/// Whether `v` is what comes of giving up the lowest-scored place that may go,
/// again and again while more than `budget` bytes are there.
pub open spec fn is_give_up(
    entries: Seq<GpuEntry>,
    protect: Seq<usize>,
    scores: Seq<u64>,
    budget: u64,
    v: Seq<usize>,
) -> bool {
    &&& v.no_duplicates()
    &&& forall|n: int|
        0 <= n < v.len() ==> {
            &&& may_go(entries, protect, #[trigger] v[n])
            &&& device_total(left_over(entries, v.take(n))) > budget
            &&& forall|i: usize| #[trigger]
                may_go(entries, protect, i) && !v.take(n).contains(i) && i != v[n] ==> goes_before(
                    scores,
                    v[n],
                    i,
                )
        }
    &&& device_total(left_over(entries, v)) <= budget || forall|i: usize| #[trigger]
        may_go(entries, protect, i) ==> v.contains(i)
}

proof fn left_over_of_nothing(entries: Seq<GpuEntry>)
    ensures
        left_over(entries, Seq::empty()) == entries,
    decreases entries.len(),
{
    if entries.len() > 0 {
        left_over_of_nothing(entries.drop_last());
        assert(left_over(entries, Seq::empty()) =~= entries);
    }
}

proof fn left_over_ignores_later(entries: Seq<GpuEntry>, gone: Seq<usize>, v: usize)
    requires
        entries.len() <= v,
    ensures
        left_over(entries, gone.push(v)) == left_over(entries, gone),
    decreases entries.len(),
{
    if entries.len() > 0 {
        let n = (entries.len() - 1) as usize;
        let more = gone.push(v);
        left_over_ignores_later(entries.drop_last(), gone, v);
        assert(more.contains(n) <==> gone.contains(n)) by {
            if gone.contains(n) {
                let i = choose|i: int| 0 <= i < gone.len() && gone[i] == n;
                assert(more[i] == n);
            }
        }
    }
}

proof fn left_over_drops_one(entries: Seq<GpuEntry>, gone: Seq<usize>, v: usize)
    requires
        entries.len() <= usize::MAX,
        v < entries.len(),
        !gone.contains(v),
    ensures
        device_total(left_over(entries, gone.push(v))) + entries[v as int].bytes == device_total(
            left_over(entries, gone),
        ),
    decreases entries.len(),
{
    let n = (entries.len() - 1) as usize;
    let front = entries.drop_last();
    let more = gone.push(v);
    assert(more.contains(n) <==> gone.contains(n) || n == v) by {
        if gone.contains(n) {
            let i = choose|i: int| 0 <= i < gone.len() && gone[i] == n;
            assert(more[i] == n);
        }
        assert(more[gone.len() as int] == v);
    }
    if v == n {
        left_over_ignores_later(front, gone, v);
        assert(left_over(entries, gone).drop_last() =~= left_over(front, gone));
    } else {
        left_over_drops_one(front, gone, v);
        if !gone.contains(n) {
            assert(left_over(entries, gone).drop_last() =~= left_over(front, gone));
            assert(left_over(entries, more).drop_last() =~= left_over(front, more));
        }
    }
}

proof fn left_over_keys(entries: Seq<GpuEntry>, gone: Seq<usize>)
    requires
        entries.len() <= usize::MAX,
        keys_are_distinct(entries),
    ensures
        keys_are_distinct(left_over(entries, gone)),
        forall|x: GpuEntry| #[trigger]
            left_over(entries, gone).contains(x) <==> exists|i: int|
                0 <= i < entries.len() && entries[i] == x && !gone.contains(i as usize),
    decreases entries.len(),
{
    let all = left_over(entries, gone);
    if entries.len() > 0 {
        let n = entries.len() - 1;
        let front = entries.drop_last();
        let p = left_over(front, gone);
        assert forall|i: int, j: int|
            0 <= i < front.len() && 0 <= j < front.len() && i != j implies #[trigger] front[i].key
            != #[trigger] front[j].key by {
            assert(entries[i].key != entries[j].key);
        }
        left_over_keys(front, gone);
        assert forall|x: GpuEntry| #[trigger] all.contains(x) implies exists|i: int|
            0 <= i < entries.len() && entries[i] == x && !gone.contains(i as usize) by {
            let j = choose|j: int| 0 <= j < all.len() && all[j] == x;
            if j < p.len() {
                assert(p[j] == x);
                assert(p.contains(x));
                let i = choose|i: int|
                    0 <= i < front.len() && front[i] == x && !gone.contains(i as usize);
                assert(entries[i] == x);
            } else {
                assert(entries[n] == x);
            }
        }
        assert forall|x: GpuEntry|
            (exists|i: int|
                0 <= i < entries.len() && entries[i] == x && !gone.contains(
                    i as usize,
                )) implies #[trigger] all.contains(x) by {
            let i = choose|i: int|
                0 <= i < entries.len() && entries[i] == x && !gone.contains(i as usize);
            if i < n {
                assert(front[i] == x);
                assert(p.contains(x));
                let j = choose|j: int| 0 <= j < p.len() && p[j] == x;
                assert(all[j] == x);
            } else {
                assert(all[p.len() as int] == x);
            }
        }
        assert forall|a: int, b: int|
            0 <= a < all.len() && 0 <= b < all.len() && a != b implies #[trigger] all[a].key
            != #[trigger] all[b].key by {
            if a < p.len() && b < p.len() {
                assert(p[a].key != p[b].key);
            } else {
                let c = if a < p.len() { a } else { b };
                assert(p[c] == all[c]);
                assert(p.contains(p[c]));
                let i = choose|i: int|
                    0 <= i < front.len() && front[i] == p[c] && !gone.contains(i as usize);
                assert(entries[i].key != entries[n].key);
            }
        }
    }
}

/// Whether no weight is there twice.
pub open spec fn keys_are_distinct(entries: Seq<GpuEntry>) -> bool {
    forall|i: int, j: int|
        0 <= i < entries.len() && 0 <= j < entries.len() && i != j ==> #[trigger] entries[i].key
            != #[trigger] entries[j].key
}

/// The places that may go, coldest first, are given up from the front.
proof fn a_head_is_given_up(
    entries: Seq<GpuEntry>,
    protect: Seq<usize>,
    scores: Seq<u64>,
    cold: Seq<u64>,
    order: Seq<usize>,
    budget: u64,
    k: int,
)
    requires
        scores.len() == entries.len(),
        cold.len() == entries.len(),
        forall|j: int| 0 <= j < cold.len() ==> #[trigger] cold[j] == u64::MAX - scores[j],
        order.no_duplicates(),
        best_first(cold, order),
        forall|x: usize| #[trigger] order.contains(x) <==> may_go(entries, protect, x),
        0 <= k <= order.len(),
        forall|t: int|
            0 <= t < k ==> device_total(left_over(entries, #[trigger] order.take(t))) > budget,
        k == order.len() || device_total(left_over(entries, order.take(k))) <= budget,
    ensures
        is_give_up(entries, protect, scores, budget, order.take(k)),
{
    let v = order.take(k);
    assert forall|t: int| 0 <= t < v.len() implies {
        &&& may_go(entries, protect, #[trigger] v[t])
        &&& device_total(left_over(entries, v.take(t))) > budget
        &&& forall|i: usize| #[trigger]
            may_go(entries, protect, i) && !v.take(t).contains(i) && i != v[t] ==> goes_before(
                scores,
                v[t],
                i,
            )
    } by {
        assert(order.contains(order[t]));
        assert(v.take(t) =~= order.take(t));
        assert forall|i: usize| #[trigger]
            may_go(entries, protect, i) && !v.take(t).contains(i) && i != v[t] implies goes_before(
            scores,
            v[t],
            i,
        ) by {
            assert(order.contains(i));
            let q = choose|q: int| 0 <= q < order.len() && order[q] == i;
            if q < t {
                assert(v.take(t)[q] == i);
            }
            assert(better(cold, order[t], order[q]));
        }
    }
    if device_total(left_over(entries, v)) > budget {
        assert(v =~= order);
    }
}

/// Weights that stay on the device, within a budget of its memory.
pub struct GpuFfnCache {
    pub entries: Vec<GpuEntry>,
    pub bytes: u128,
    pub budget: u64,
    pub clock: u32,
    pub evictions: u64,
}

proof fn device_total_is_bounded(entries: Seq<GpuEntry>)
    ensures
        device_total(entries) <= entries.len() * u64::MAX,
    decreases entries.len(),
{
    if entries.len() > 0 {
        device_total_is_bounded(entries.drop_last());
        assert((entries.len() - 1) * u64::MAX + u64::MAX == entries.len() * u64::MAX)
            by (nonlinear_arith);
    }
}

fn holds_key(keys: &Vec<usize>, k: usize) -> (b: bool)
    ensures
        b == keys@.contains(k),
{
    for i in 0..keys.len()
        invariant
            forall|j: int| 0 <= j < i ==> keys@[j] != k,
    {
        if keys[i] == k {
            assert(keys@[i as int] == k);
            return true;
        }
    }
    false
}

impl GpuFfnCache {
    /// The byte total is that of the entries, and no weight is there twice.
    pub open spec fn wf(&self) -> bool {
        &&& self.bytes == device_total(self.entries@)
        &&& keys_are_distinct(self.entries@)
    }

    /// Where a weight is.
    pub open spec fn resident(&self, key: usize) -> bool {
        exists|i: int| 0 <= i < self.entries@.len() && #[trigger] self.entries@[i].key == key
    }

    /// An empty cache with this budget.
    pub fn new(budget: u64) -> (c: GpuFfnCache)
        ensures
            c.wf(),
            c.entries@.len() == 0,
            c.budget == budget,
            c.clock == 0,
            c.evictions == 0,
    {
        GpuFfnCache { entries: Vec::new(), bytes: 0, budget, clock: 0, evictions: 0 }
    }

    /// Gives up the lowest-scored weights until at most `budget` bytes are there,
    /// but none that the operation at hand still needs. `scores` holds one score
    /// per entry.
    pub fn evict_to(&mut self, budget: u64, protect: &Vec<usize>, scores: &Vec<u64>)
        requires
            old(self).wf(),
            scores@.len() == old(self).entries@.len(),
        ensures
            final(self).wf(),
            final(self).budget == old(self).budget,
            final(self).clock == old(self).clock,
            exists|v: Seq<usize>|
                {
                    &&& #[trigger] is_give_up(
                        old(self).entries@,
                        protect@,
                        scores@,
                        budget,
                        v,
                    )
                    &&& final(self).entries@ == left_over(old(self).entries@, v)
                    &&& final(self).evictions == sum_capped(old(self).evictions, v.len() as u64)
                },
    {
        let ghost entries = self.entries@;
        let n: usize = self.entries.len();
        let mut cold: Vec<u64> = Vec::new();
        let mut places: Vec<usize> = Vec::new();
        for i in 0..n
            invariant
                n == self.entries@.len(),
                entries == self.entries@,
                scores@.len() == n,
                cold@.len() == i,
                forall|j: int| 0 <= j < i ==> #[trigger] cold@[j] == u64::MAX - scores@[j],
                forall|k: int|
                    0 <= k < places@.len() ==> #[trigger] places@[k] < i && may_go(
                        entries,
                        protect@,
                        places@[k],
                    ),
                places@.no_duplicates(),
                forall|j: usize|
                    j < i && #[trigger] may_go(entries, protect@, j) ==> places@.contains(j),
        {
            cold.push(u64::MAX - scores[i]);
            let ghost before = places@;
            if !holds_key(protect, self.entries[i].key) {
                places.push(i);
                proof {
                    assert(places@[before.len() as int] == i);
                    assert forall|j: usize|
                        j < i + 1 && #[trigger] may_go(
                            entries,
                            protect@,
                            j,
                        ) implies places@.contains(j) by {
                        if j < i {
                            assert(before.contains(j));
                            let k = choose|k: int| 0 <= k < before.len() && before[k] == j;
                            assert(places@[k] == j);
                        }
                    }
                }
            }
        }
        let ghost listed = places@;
        let order: Vec<usize> = sorted(&cold, places);
        proof {
            assert forall|x: usize| #[trigger] order@.contains(x) <==> may_go(
                entries,
                protect@,
                x,
            ) by {
                if order@.contains(x) {
                    assert(listed.contains(x));
                    let k = choose|k: int| 0 <= k < listed.len() && listed[k] == x;
                    assert(may_go(entries, protect@, listed[k]));
                }
            }
            left_over_of_nothing(entries);
            assert(order@.take(0) =~= Seq::<usize>::empty());
        }
        let mut gone: Vec<bool> = Vec::new();
        for i in 0..n
            invariant
                gone@.len() == i,
                forall|j: int| 0 <= j < i ==> !gone@[j],
        {
            gone.push(false);
        }
        let mut k: usize = 0;
        while k < order.len() && self.bytes > budget as u128
            invariant
                k <= order@.len(),
                n == entries.len(),
                entries == self.entries@,
                self.entries@ == old(self).entries@,
                self.budget == old(self).budget,
                self.clock == old(self).clock,
                keys_are_distinct(entries),
                order@.no_duplicates(),
                forall|x: usize| #[trigger] order@.contains(x) <==> may_go(entries, protect@, x),
                gone@.len() == n,
                forall|j: int|
                    #![trigger gone@[j]]
                    0 <= j < n ==> gone@[j] == order@.take(k as int).contains(j as usize),
                self.bytes == device_total(left_over(entries, order@.take(k as int))),
                forall|t: int|
                    0 <= t < k ==> device_total(left_over(entries, #[trigger] order@.take(t)))
                        > budget,
                self.evictions == sum_capped(old(self).evictions, k as u64),
            decreases order@.len() - k,
        {
            let v: usize = order[k];
            proof {
                assert(order@.contains(v));
                let shorter = order@.take(k as int);
                let longer = order@.take(k + 1);
                assert(!shorter.contains(v)) by {
                    if shorter.contains(v) {
                        let j = choose|j: int| 0 <= j < k && shorter[j] == v;
                        assert(order@[j] == order@[k as int]);
                    }
                }
                left_over_drops_one(entries, shorter, v);
                assert(shorter.push(v) =~= longer);
                assert forall|j: usize| longer.contains(j) <==> shorter.contains(j) || j == v by {
                    if shorter.contains(j) {
                        let i = choose|i: int| 0 <= i < shorter.len() && shorter[i] == j;
                        assert(longer[i] == j);
                    }
                    if longer.contains(j) {
                        let i = choose|i: int| 0 <= i < longer.len() && longer[i] == j;
                        if i < k {
                            assert(shorter[i] == j);
                        }
                    }
                    assert(longer[k as int] == v);
                }
            }
            self.bytes = self.bytes - self.entries[v].bytes as u128;
            self.evictions = self.evictions.saturating_add(1);
            gone.set(v, true);
            k = k + 1;
        }
        let ghost victims = order@.take(k as int);
        let mut left: Vec<GpuEntry> = Vec::new();
        assert(entries.take(0) =~= Seq::<GpuEntry>::empty());
        for i in 0..n
            invariant
                n == entries.len(),
                entries == self.entries@,
                gone@.len() == n,
                forall|j: int|
                    #![trigger gone@[j]]
                    0 <= j < n ==> gone@[j] == victims.contains(j as usize),
                left@ == left_over(entries.take(i as int), victims),
        {
            assert(entries.take(i + 1).drop_last() =~= entries.take(i as int));
            if !gone[i] {
                left.push(self.entries[i]);
            }
        }
        assert(entries.take(n as int) =~= entries);
        self.entries = left;
        proof {
            left_over_keys(entries, victims);
            a_head_is_given_up(entries, protect@, scores@, cold@, order@, budget, k as int);
        }
    }

    /// Asks for a weight: one that is there is warmed.
    pub fn touch(&mut self, key: usize) -> (hit: bool)
        requires
            old(self).wf(),
        ensures
            final(self).wf(),
            hit == old(self).resident(key),
            final(self).clock == ticked(old(self).clock),
            final(self).budget == old(self).budget,
            final(self).evictions == old(self).evictions,
            final(self).entries@.len() == old(self).entries@.len(),
            forall|i: int|
                0 <= i < old(self).entries@.len() ==> #[trigger] final(self).entries@[i] == if old(
                    self,
                ).entries@[i].key == key {
                    GpuEntry {
                        heat: if old(self).entries@[i].heat == u32::MAX {
                            u32::MAX
                        } else {
                            (old(self).entries@[i].heat + 1) as u32
                        },
                        last: ticked(old(self).clock),
                        ..old(self).entries@[i]
                    }
                } else {
                    old(self).entries@[i]
                },
    {
        self.clock = self.clock.wrapping_add(1);
        let n: usize = self.entries.len();
        for i in 0..n
            invariant
                n == self.entries@.len(),
                self.wf(),
                self.entries@ == old(self).entries@,
                self.clock == ticked(old(self).clock),
                self.budget == old(self).budget,
                self.evictions == old(self).evictions,
                forall|j: int| 0 <= j < i ==> (#[trigger] self.entries@[j]).key != key,
        {
            if self.entries[i].key == key {
                let ghost before = self.entries@;
                let e: GpuEntry = self.entries[i];
                let warm: GpuEntry = GpuEntry {
                    heat: e.heat.saturating_add(1),
                    last: self.clock,
                    ..e
                };
                self.entries.set(i, warm);
                proof {
                    assert(before[i as int].key == key);
                    update_keeps_total(before, i as int, warm);
                    assert forall|a: int, b: int|
                        0 <= a < before.len() && 0 <= b < before.len() && a
                            != b implies #[trigger] self.entries@[a].key
                        != #[trigger] self.entries@[b].key by {
                        assert(before[a].key != before[b].key);
                    }
                    assert forall|j: int| 0 <= j < before.len() && j != i implies (
                    #[trigger] before[j]).key != key by {
                        assert(before[j].key != before[i as int].key);
                    }
                }
                return true;
            }
        }
        false
    }

    /// Room for a weight of `bytes` more: what the cache comes down to before it
    /// is brought over.
    pub fn make_room(&mut self, bytes: u64, protect: &Vec<usize>, scores: &Vec<u64>)
        requires
            old(self).wf(),
            scores@.len() == old(self).entries@.len(),
        ensures
            final(self).wf(),
            final(self).budget == old(self).budget,
            final(self).clock == old(self).clock,
            exists|v: Seq<usize>|
                {
                    &&& #[trigger] is_give_up(
                        old(self).entries@,
                        protect@,
                        scores@,
                        minus(old(self).budget, bytes),
                        v,
                    )
                    &&& final(self).entries@ == left_over(old(self).entries@, v)
                    &&& final(self).evictions == sum_capped(old(self).evictions, v.len() as u64)
                },
    {
        let room: u64 = self.budget.saturating_sub(bytes);
        assert(room == minus(self.budget, bytes));
        self.evict_to(room, protect, scores);
    }

    /// Counts in a weight that was brought over and holds `bytes` there.
    pub fn insert(&mut self, key: usize, bytes: u64)
        requires
            old(self).wf(),
            !old(self).resident(key),
        ensures
            final(self).wf(),
            final(self).entries@ == old(self).entries@.push(
                GpuEntry { key, bytes, heat: 1, last: old(self).clock },
            ),
            final(self).budget == old(self).budget,
            final(self).clock == old(self).clock,
            final(self).evictions == old(self).evictions,
    {
        let ghost before = self.entries@;
        self.entries.push(GpuEntry { key, bytes, heat: 1, last: self.clock });
        let n: usize = self.entries.len();
        proof {
            let after = self.entries@;
            assert(after.len() == n);
            assert(after.drop_last() =~= before);
            device_total_is_bounded(after);
            assert(after.len() * u64::MAX <= usize::MAX * u64::MAX) by (nonlinear_arith)
                requires
                    after.len() <= usize::MAX,
            ;
            assert forall|a: int, b: int|
                0 <= a < after.len() && 0 <= b < after.len() && a
                    != b implies #[trigger] after[a].key != #[trigger] after[b].key by {
                if a < before.len() && b < before.len() {
                    assert(before[a].key != before[b].key);
                } else {
                    let c = if a < before.len() { a } else { b };
                    assert(before[c] == after[c]);
                    assert(before[c].key != key);
                }
            }
        }
        self.bytes = self.bytes + bytes as u128;
    }

    /// Weights, bytes, evictions and budget.
    pub fn ffn_cache_stats(&self) -> (r: (usize, u128, u64, u64))
        ensures
            r == (self.entries@.len() as usize, self.bytes, self.evictions, self.budget),
    {
        (self.entries.len(), self.bytes, self.evictions, self.budget)
    }
}

proof fn update_keeps_total(entries: Seq<GpuEntry>, i: int, e: GpuEntry)
    requires
        0 <= i < entries.len(),
        e.bytes == entries[i].bytes,
    ensures
        device_total(entries.update(i, e)) == device_total(entries),
    decreases entries.len(),
{
    let after = entries.update(i, e);
    if i == entries.len() - 1 {
        assert(after.drop_last() =~= entries.drop_last());
    } else {
        update_keeps_total(entries.drop_last(), i, e);
        assert(after.drop_last() =~= entries.drop_last().update(i, e));
    }
}

/// A weight that the operation at hand needs is never given up.
pub proof fn needed_weights_stay(
    entries: Seq<GpuEntry>,
    protect: Seq<usize>,
    scores: Seq<u64>,
    budget: u64,
    v: Seq<usize>,
    i: int,
)
    requires
        entries.len() <= usize::MAX,
        keys_are_distinct(entries),
        is_give_up(entries, protect, scores, budget, v),
        0 <= i < entries.len(),
        protect.contains(entries[i].key),
    ensures
        left_over(entries, v).contains(entries[i]),
{
    left_over_keys(entries, v);
    if v.contains(i as usize) {
        let n = choose|n: int| 0 <= n < v.len() && v[n] == i as usize;
        assert(may_go(entries, protect, v[n]));
    }
    assert(entries[i] == entries[i] && !v.contains(i as usize));
}

/// The device memory for weights: the configured number of gibibytes, else what
/// is free less the reserve, else all there is.
pub fn ffn_budget(configured_gb: Option<u64>, free: Option<u64>) -> (b: u64)
    ensures
        b == match configured_gb {
            Some(g) => (g * 0x4000_0000 % 0x1_0000_0000_0000_0000) as u64,
            None => match free {
                Some(f) => if f >= DEVICE_RESERVE { (f - DEVICE_RESERVE) as u64 } else { 0 },
                None => u64::MAX,
            },
        },
{
    match configured_gb {
        Some(g) => g.wrapping_mul(0x4000_0000),
        None => {
            match free {
                Some(f) => f.saturating_sub(DEVICE_RESERVE),
                None => u64::MAX,
            }
        },
    }
}

/// How resident weights reach the device.
#[derive(Debug, Clone, Copy, PartialEq, Eq, Structural)]
pub enum WeightResidency {
    /// As a copy in device memory.
    Upload,
    /// In place, from host memory.
    ZeroCopy,
}

/// Whether the device can use host memory in place: there is one, it can read
/// pageable memory, and it is not switched off.
pub fn zerocopy(available: bool, disabled: bool, pageable: bool) -> (b: bool)
    ensures
        b == (available && !disabled && pageable),
{
    available && !disabled && pageable
}

/// How weights reach the device in fact: in place only where that works.
pub fn weight_residency(wanted: WeightResidency, zerocopy: bool) -> (r: WeightResidency)
    ensures
        r == if wanted == WeightResidency::ZeroCopy && !zerocopy {
            WeightResidency::Upload
        } else {
            wanted
        },
{
    if wanted == WeightResidency::ZeroCopy && !zerocopy {
        return WeightResidency::Upload;
    }
    wanted
}

/// What the device is told when the wanted residency changes: whether to read
/// weights in place. A device that is not there is told nothing.
pub fn set_weight_residency(wanted: WeightResidency, available: bool, zerocopy: bool) -> (told:
    Option<bool>)
    ensures
        told == if available {
            Some(wanted == WeightResidency::ZeroCopy && zerocopy)
        } else {
            None
        },
{
    if available {
        Some(wanted == WeightResidency::ZeroCopy && zerocopy)
    } else {
        None
    }
}

/// Whether routed experts run the exact per-row path.
#[derive(Debug, Clone, Copy, PartialEq, Eq, Structural)]
pub struct ExactExperts {
    pub on: bool,
}

impl ExactExperts {
    /// Whether the exact path is on.
    pub fn exact_experts(&self) -> (b: bool)
        ensures
            b == self.on,
    {
        self.on
    }
}

/// What the setting was before a scope changed it.
#[derive(Debug, Clone, Copy, PartialEq, Eq, Structural)]
pub struct ExactExpertsGuard {
    pub prev: bool,
}

impl ExactExpertsGuard {
    /// Enters a scope with the exact path on or off.
    pub fn new(flag: &mut ExactExperts, on: bool) -> (g: ExactExpertsGuard)
        ensures
            final(flag).on == on,
            g.prev == old(flag).on,
    {
        let prev: bool = flag.on;
        flag.on = on;
        ExactExpertsGuard { prev }
    }

    /// Leaves the scope: the setting is what it was before.
    pub fn leave(self, flag: &mut ExactExperts)
        ensures
            final(flag).on == self.prev,
    {
        flag.on = self.prev;
    }
}

/// How often each kind of work ran on the device.
#[derive(Debug, Clone, Copy, PartialEq, Eq, Structural)]
pub struct GpuCounts {
    pub matmuls: u64,
    pub ffns: u64,
    pub attns: u64,
}

/// A kind of device work.
#[derive(Debug, Clone, Copy, PartialEq, Eq, Structural)]
pub enum Work {
    Matmul,
    Ffn,
    Attn,
}

impl GpuCounts {
    /// Nothing counted.
    pub fn new() -> (c: GpuCounts)
        ensures
            c == (GpuCounts { matmuls: 0, ffns: 0, attns: 0 }),
    {
        GpuCounts { matmuls: 0, ffns: 0, attns: 0 }
    }

    /// Counts work that was tried: only what ran there.
    pub fn tried(&mut self, w: Work, ran: bool)
        ensures
            *final(self) == if !ran {
                *old(self)
            } else {
                match w {
                    Work::Matmul => GpuCounts {
                        matmuls: sum_capped(old(self).matmuls, 1),
                        ..*old(self)
                    },
                    Work::Ffn => GpuCounts { ffns: sum_capped(old(self).ffns, 1), ..*old(self) },
                    Work::Attn => GpuCounts { attns: sum_capped(old(self).attns, 1), ..*old(self) },
                }
            },
    {
        if !ran {
            return ;
        }
        match w {
            Work::Matmul => {
                self.matmuls = self.matmuls.saturating_add(1);
            },
            Work::Ffn => {
                self.ffns = self.ffns.saturating_add(1);
            },
            Work::Attn => {
                self.attns = self.attns.saturating_add(1);
            },
        }
    }

    /// Matrix products that ran on the device.
    pub fn matmul_count(&self) -> (n: u64)
        ensures
            n == self.matmuls,
    {
        self.matmuls
    }

    /// Expert blocks that ran on the device.
    pub fn ffn_count(&self) -> (n: u64)
        ensures
            n == self.ffns,
    {
        self.ffns
    }

    /// Attention cores that ran on the device.
    pub fn attn_count(&self) -> (n: u64)
        ensures
            n == self.attns,
    {
        self.attns
    }
}

/// Rows of one layer's cache that the device holds.
#[derive(Debug, Clone, Copy, PartialEq, Eq, Structural)]
pub struct DevLayer {
    pub allocated: bool,
    /// Rows there that are those of the host.
    pub valid: usize,
}

/// What a sync has to do: allocate first, then bring over rows `from .. to`.
#[derive(Debug, Clone, Copy, PartialEq, Eq, Structural)]
pub struct SyncPlan {
    pub allocate: bool,
    pub from: usize,
    pub to: usize,
}

/// How a sync went.
#[derive(Debug, Clone, Copy, PartialEq, Eq, Structural)]
pub enum Synced {
    /// Nothing could be allocated.
    NoMemory,
    /// The rows could not be brought over.
    NotBrought,
    /// The rows are there.
    Brought,
}

impl DevLayer {
    /// Nothing there.
    pub fn new() -> (l: DevLayer)
        ensures
            l == (DevLayer { allocated: false, valid: 0 }),
    {
        DevLayer { allocated: false, valid: 0 }
    }

    /// Rows that are good before a sync: rewriting from `pos_base` on makes what
    /// is behind it stale.
    pub open spec fn good(self, pos_base: usize) -> usize {
        if !self.allocated {
            0
        } else if pos_base < self.valid {
            pos_base
        } else {
            self.valid
        }
    }

    /// Plans to bring the device's rows up to `tk`, where the host rewrote those
    /// from `pos_base` on. Only missing rows are brought over.
    pub fn sync(&mut self, pos_base: usize, tk: usize) -> (plan: SyncPlan)
        ensures
            plan.allocate == !old(self).allocated,
            plan.from == old(self).good(pos_base),
            plan.to == if tk > plan.from { tk } else { plan.from },
            final(self).valid == old(self).good(pos_base),
            final(self).allocated,
    {
        let allocate: bool = !self.allocated;
        if allocate {
            self.allocated = true;
            self.valid = 0;
        }
        if pos_base < self.valid {
            self.valid = pos_base;
        }
        SyncPlan { allocate, from: self.valid, to: if tk > self.valid { tk } else { self.valid } }
    }

    /// Goes on after a sync was carried out, or could not be.
    pub fn synced(&mut self, plan: SyncPlan, outcome: Synced)
        ensures
            *final(self) == match outcome {
                Synced::NoMemory => DevLayer { allocated: false, valid: 0 },
                Synced::NotBrought => *old(self),
                Synced::Brought => DevLayer { allocated: old(self).allocated, valid: plan.to },
            },
    {
        match outcome {
            Synced::NoMemory => {
                self.allocated = false;
                self.valid = 0;
            },
            Synced::NotBrought => {},
            Synced::Brought => {
                self.valid = plan.to;
            },
        }
    }
}

/// The device's copy of a cache, layer by layer.
pub struct DeviceKv {
    pub layers: Vec<DevLayer>,
    pub max_t: usize,
}

impl DeviceKv {
    /// Whether no layer claims rows that it has no room for.
    pub open spec fn wf(&self) -> bool {
        forall|l: int|
            0 <= l < self.layers@.len() ==> (#[trigger] self.layers@[l]).valid <= self.max_t && (
            !self.layers@[l].allocated ==> self.layers@[l].valid == 0)
    }

    /// `n_layers` layers with room for `max_t` rows each, none of it allocated.
    pub fn new(n_layers: usize, max_t: usize) -> (kv: DeviceKv)
        ensures
            kv.wf(),
            kv.max_t == max_t,
            kv.layers@.len() == n_layers,
            forall|l: int|
                0 <= l < n_layers ==> #[trigger] kv.layers@[l] == (DevLayer {
                    allocated: false,
                    valid: 0,
                }),
    {
        let mut layers: Vec<DevLayer> = Vec::new();
        for l in 0..n_layers
            invariant
                layers@.len() == l,
                forall|k: int|
                    0 <= k < l ==> #[trigger] layers@[k] == (DevLayer {
                        allocated: false,
                        valid: 0,
                    }),
        {
            layers.push(DevLayer::new());
        }
        DeviceKv { layers, max_t }
    }

    /// Plans to bring one layer's rows up to `tk`, where the host rewrote those from
    /// `pos_base` on. The other layers stay as they are.
    pub fn sync(&mut self, layer: usize, pos_base: usize, tk: usize) -> (plan: SyncPlan)
        requires
            old(self).wf(),
            layer < old(self).layers@.len(),
            tk <= old(self).max_t,
        ensures
            final(self).wf(),
            final(self).max_t == old(self).max_t,
            ({
                let l = old(self).layers@[layer as int];
                let good = l.good(pos_base);
                &&& plan == (SyncPlan {
                    allocate: !l.allocated,
                    from: good,
                    to: if tk > good { tk } else { good },
                })
                &&& final(self).layers@ == old(self).layers@.update(
                    layer as int,
                    DevLayer { allocated: true, valid: good },
                )
            }),
            plan.to <= final(self).max_t,
    {
        let mut l: DevLayer = self.layers[layer];
        let plan: SyncPlan = l.sync(pos_base, tk);
        self.layers.set(layer, l);
        plan
    }

    /// Goes on after a layer's sync was carried out, or could not be.
    pub fn synced(&mut self, layer: usize, plan: SyncPlan, outcome: Synced)
        requires
            old(self).wf(),
            layer < old(self).layers@.len(),
            old(self).layers@[layer as int].allocated,
            plan.to <= old(self).max_t,
        ensures
            final(self).wf(),
            final(self).max_t == old(self).max_t,
            final(self).layers@ == old(self).layers@.update(
                layer as int,
                match outcome {
                    Synced::NoMemory => DevLayer { allocated: false, valid: 0 },
                    Synced::NotBrought => old(self).layers@[layer as int],
                    Synced::Brought => DevLayer { allocated: true, valid: plan.to },
                },
            ),
    {
        let mut l: DevLayer = self.layers[layer];
        l.synced(plan, outcome);
        self.layers.set(layer, l);
    }
}

/// Whether the first `n` rows of two stores are the same.
pub open spec fn rows_agree(host: Seq<Seq<u32>>, device: Seq<Seq<u32>>, n: nat) -> bool {
    &&& n <= host.len()
    &&& n <= device.len()
    &&& forall|p: int| 0 <= p < n ==> host[p] == device[p]
}

/// After a sync the device holds what the host holds: rows that were good stay so
/// when the host rewrites those from `pos_base` on, and the rest is brought over.
pub proof fn a_sync_makes_the_device_agree(
    l: DevLayer,
    pos_base: usize,
    tk: usize,
    before: Seq<Seq<u32>>,
    host: Seq<Seq<u32>>,
    device: Seq<Seq<u32>>,
    synced: Seq<Seq<u32>>,
)
    requires
        rows_agree(before, device, l.valid as nat),
        host.len() >= before.len(),
        forall|p: int| 0 <= p < pos_base && p < before.len() ==> host[p] == before[p],
        host.len() >= tk,
        pos_base <= tk,
        synced.len() == host.len(),
        ({
            let from = l.good(pos_base);
            forall|p: int|
                0 <= p < tk ==> #[trigger] synced[p] == if p < from {
                    device[p]
                } else {
                    host[p]
                }
        }),
    ensures
        rows_agree(host, synced, tk as nat),
{
    assert forall|p: int| 0 <= p < tk implies host[p] == synced[p] by {
        if p < l.good(pos_base) {
            assert(before[p] == device[p]);
        }
    }
}

/// The lengths that a scan is handed.
#[derive(Debug, Clone, Copy, PartialEq, Eq, Structural)]
pub struct ScanLens {
    pub state: usize,
    pub y: usize,
    pub hidden: usize,
    pub b: usize,
    pub c: usize,
    pub dt: usize,
    pub da: usize,
    pub d: usize,
}

/// Whether the buffers of a scan over `seq` tokens are what the kernel indexes.
pub open spec fn scan_lens_fit(
    l: ScanLens,
    n_heads: int,
    head_dim: int,
    d_state: int,
    n_groups: int,
    seq: int,
) -> bool {
    &&& l.state == n_heads * head_dim * d_state
    &&& l.y == seq * (n_heads * head_dim)
    &&& l.hidden == seq * (n_heads * head_dim)
    &&& l.b == seq * (n_groups * d_state)
    &&& l.c == seq * (n_groups * d_state)
    &&& l.dt == seq * n_heads
    &&& l.da == seq * n_heads
    &&& l.d == n_heads
    &&& n_groups != 0
    &&& n_heads % n_groups == 0
}

fn product(a: usize, b: usize) -> (p: u128)
    ensures
        p == a * b,
{
    proof {
        assert(0 <= a * b <= u128::MAX) by (nonlinear_arith)
            requires
                0 <= a <= 0xffff_ffff_ffff_ffff,
                0 <= b <= 0xffff_ffff_ffff_ffff,
        ;
    }
    a as u128 * b as u128
}

/// Whether `len` is `a` times `b` times `c`.
fn is_product3(len: usize, a: usize, b: usize, c: usize) -> (r: bool)
    ensures
        r == (len == a * (b * c)),
{
    let bc: u128 = product(b, c);
    if a == 0 || bc == 0 {
        assert(a * (b * c) == 0) by (nonlinear_arith)
            requires
                a == 0 || b * c == 0,
        ;
        return len == 0;
    }
    if bc > usize::MAX as u128 {
        assert(a * (b * c) > usize::MAX) by (nonlinear_arith)
            requires
                a >= 1,
                b * c > usize::MAX,
        ;
        return false;
    }
    len as u128 == product(a, bc as usize)
}

/// Whether a scan over `seq` tokens can be handed to the device.
pub fn scan_sizes_fit(
    l: ScanLens,
    n_heads: usize,
    head_dim: usize,
    d_state: usize,
    n_groups: usize,
    seq: usize,
) -> (b: bool)
    ensures
        b == scan_lens_fit(
            l,
            n_heads as int,
            head_dim as int,
            d_state as int,
            n_groups as int,
            seq as int,
        ),
{
    proof {
        assert(n_heads * (head_dim * d_state) == n_heads * head_dim * d_state) by (nonlinear_arith);
    }
    is_product3(l.state, n_heads, head_dim, d_state) && is_product3(l.y, seq, n_heads, head_dim)
        && is_product3(l.hidden, seq, n_heads, head_dim) && is_product3(l.b, seq, n_groups, d_state)
        && is_product3(l.c, seq, n_groups, d_state) && l.dt as u128 == product(seq, n_heads)
        && l.da as u128 == product(seq, n_heads) && l.d == n_heads && n_groups != 0 && n_heads
        % n_groups == 0
}

/// Whether one token's scan can run on the device.
pub fn try_mamba2_scan(
    available: bool,
    l: ScanLens,
    n_heads: usize,
    head_dim: usize,
    d_state: usize,
    n_groups: usize,
) -> (b: bool)
    ensures
        b == (available && scan_lens_fit(
            l,
            n_heads as int,
            head_dim as int,
            d_state as int,
            n_groups as int,
            1,
        )),
{
    available && scan_sizes_fit(l, n_heads, head_dim, d_state, n_groups, 1)
}

/// Whether a scan over `seq` tokens can run on the device.
pub fn try_mamba2_scan_seq(
    available: bool,
    enabled: bool,
    l: ScanLens,
    n_heads: usize,
    head_dim: usize,
    d_state: usize,
    n_groups: usize,
    seq: usize,
) -> (b: bool)
    ensures
        b == (available && enabled && seq != 0 && scan_lens_fit(
            l,
            n_heads as int,
            head_dim as int,
            d_state as int,
            n_groups as int,
            seq as int,
        )),
{
    available && enabled && seq != 0 && scan_sizes_fit(
        l,
        n_heads,
        head_dim,
        d_state,
        n_groups,
        seq,
    )
}

/// Whether an indexer's scores can be computed on the device: something to score,
/// at most 32 heads, and buffers that are long enough.
pub open spec fn index_lens_fit(
    scores: int,
    qi: int,
    hw: int,
    keys: int,
    nsp: int,
    nh: int,
    hd: int,
    t_len: int,
) -> bool {
    &&& nsp > 0
    &&& 0 < nh <= 32
    &&& hd > 0
    &&& t_len > 0
    &&& qi >= nsp * (nh * hd)
    &&& hw >= nsp * nh
    &&& keys >= t_len * hd
    &&& scores >= nsp * t_len
}

/// Whether `len` is at least `a` times `b` times `c`.
fn at_least_product3(len: usize, a: usize, b: usize, c: usize) -> (r: bool)
    ensures
        r == (len >= a * (b * c)),
{
    let bc: u128 = product(b, c);
    if a == 0 || bc == 0 {
        assert(a * (b * c) == 0) by (nonlinear_arith)
            requires
                a == 0 || b * c == 0,
        ;
        return true;
    }
    if bc > usize::MAX as u128 {
        assert(a * (b * c) > usize::MAX) by (nonlinear_arith)
            requires
                a >= 1,
                b * c > usize::MAX,
        ;
        return false;
    }
    len as u128 >= product(a, bc as usize)
}

/// Whether an indexer's scores can be computed on the device.
pub fn try_dsa_indexer_scores(
    available: bool,
    scores: usize,
    qi: usize,
    hw: usize,
    keys: usize,
    nsp: usize,
    nh: usize,
    hd: usize,
    t_len: usize,
) -> (b: bool)
    ensures
        b == (available && index_lens_fit(
            scores as int,
            qi as int,
            hw as int,
            keys as int,
            nsp as int,
            nh as int,
            hd as int,
            t_len as int,
        )),
{
    if !available || nsp == 0 || nh == 0 || nh > 32 || hd == 0 || t_len == 0 {
        return false;
    }
    at_least_product3(qi, nsp, nh, hd) && hw as u128 >= product(nsp, nh) && keys as u128 >= product(
        t_len,
        hd,
    ) && scores as u128 >= product(nsp, t_len)
}

/// Whether sparse window attention can run on the device: head widths in warps, at
/// least one key row, and buffers that are long enough.
pub open spec fn sparse_lens_fit(
    out: int,
    q: int,
    kv: int,
    sink: int,
    idxs: int,
    s: int,
    h: int,
    hd: int,
    topk: int,
) -> bool {
    &&& s > 0
    &&& h > 0
    &&& hd > 0
    &&& topk > 0
    &&& hd % 32 == 0
    &&& kv / hd > 0
    &&& q >= s * (h * hd)
    &&& out >= s * (h * hd)
    &&& sink >= h
    &&& idxs >= s * topk
}

/// The key rows that sparse window attention goes over on the device, if it can
/// run there.
pub fn try_dsv4_sparse_attn(
    available: bool,
    enabled: bool,
    out: usize,
    q: usize,
    kv: usize,
    sink: usize,
    idxs: usize,
    s: usize,
    h: usize,
    hd: usize,
    topk: usize,
) -> (rows: Option<usize>)
    ensures
        rows == if available && enabled && sparse_lens_fit(
            out as int,
            q as int,
            kv as int,
            sink as int,
            idxs as int,
            s as int,
            h as int,
            hd as int,
            topk as int,
        ) {
            Some((kv as int / hd as int) as usize)
        } else {
            None
        },
{
    if !enabled || !available || s == 0 || h == 0 || hd == 0 || topk == 0 || hd % 32 != 0 {
        return None;
    }
    let rows: usize = kv / hd;
    if rows == 0 || !at_least_product3(q, s, h, hd) || !at_least_product3(out, s, h, hd) || sink < h
        || (idxs as u128) < product(s, topk) {
        return None;
    }
    Some(rows)
}

/// Whether a slice of heads can run sparse attention on the device: one selection
/// per query, something kept, and heads that exist.
pub fn try_attention_absorb_sparse(
    available: bool,
    eligible: bool,
    selections: usize,
    s: usize,
    index_topk: usize,
    h0: usize,
    hc: usize,
    h: usize,
) -> (b: bool)
    ensures
        b == (available && eligible && selections == s && index_topk != 0 && h0 + hc <= h && hc
            != 0),
{
    available && eligible && selections == s && index_topk != 0 && h0 <= h && hc <= h - h0 && hc
        != 0
}

/// Which buffer a matrix product reads on the device.
#[derive(Debug, Clone, Copy, PartialEq, Eq, Structural)]
pub enum MatmulRoute {
    /// Not on the device.
    Host,
    /// The four-bit block format, with its own entry point.
    Nvfp4,
    /// The f32 buffer.
    Floats,
    /// The int8 buffer.
    Bytes,
    /// The packed buffer, whose rows the device sizes by the format.
    Packed,
}

/// The device route of a matrix product with a weight of format `fmt`.
pub fn try_matmul_qt(available: bool, eligible: bool, fmt: i32) -> (r: MatmulRoute)
    ensures
        r == if !(available && eligible) {
            MatmulRoute::Host
        } else if fmt == 5 {
            MatmulRoute::Nvfp4
        } else if fmt == 0 {
            MatmulRoute::Floats
        } else if fmt == 1 {
            MatmulRoute::Bytes
        } else if fmt == 2 || fmt == 3 {
            MatmulRoute::Packed
        } else {
            MatmulRoute::Host
        },
{
    if !eligible || !available {
        return MatmulRoute::Host;
    }
    match fmt {
        5 => MatmulRoute::Nvfp4,
        0 => MatmulRoute::Floats,
        1 => MatmulRoute::Bytes,
        3 => MatmulRoute::Packed,
        2 => MatmulRoute::Packed,
        _ => MatmulRoute::Host,
    }
}

/// Whether a dense f32 product can run on the device: the weight has to be whole.
pub fn try_matmul_f32(available: bool, w_len: usize, i: usize, o: usize) -> (b: bool)
    ensures
        b == (available && w_len == o * i),
{
    available && w_len as u128 == product(o, i)
}

/// The buffer that holds a weight's values.
#[derive(Debug, Clone, Copy, PartialEq, Eq, Structural)]
pub enum Store {
    Floats,
    Bytes,
    Packed,
}

/// The buffer of a weight of format `fmt`. Its address is what the weight is known
/// by on the device.
pub fn weight_ptr(fmt: i32) -> (s: Store)
    ensures
        s == if fmt == 0 {
            Store::Floats
        } else if fmt == 1 {
            Store::Bytes
        } else {
            Store::Packed
        },
{
    match fmt {
        0 => Store::Floats,
        1 => Store::Bytes,
        _ => Store::Packed,
    }
}

/// How a weight is given to the device where it lies in host memory.
#[derive(Debug, Clone, Copy, PartialEq, Eq, Structural)]
pub enum Wrap {
    /// Packed values, block scales of eight bits and a scale over all.
    Nvfp4,
    /// Packed values, power-of-two block scales and a scale over all.
    Mxfp4,
    /// One buffer of values and a scale per row.
    Scaled(Store),
}

/// How a weight of format `fmt` is given to the device in place.
pub fn wrap_fresh(fmt: i32) -> (w: Wrap)
    ensures
        fmt == 5 <==> w == Wrap::Nvfp4,
        fmt == 6 <==> w == Wrap::Mxfp4,
        fmt == 0 <==> w == Wrap::Scaled(Store::Floats),
        fmt == 1 <==> w == Wrap::Scaled(Store::Bytes),
        fmt < 0 || 2 <= fmt <= 4 || fmt > 6 <==> w == Wrap::Scaled(Store::Packed),
{
    match fmt {
        5 => Wrap::Nvfp4,
        6 => Wrap::Mxfp4,
        _ => Wrap::Scaled(weight_ptr(fmt)),
    }
}

proof fn left_over_counts(entries: Seq<GpuEntry>, gone: Seq<usize>, v: usize)
    requires
        entries.len() <= usize::MAX,
        v < entries.len(),
        !gone.contains(v),
    ensures
        left_over(entries, gone.push(v)).len() + 1 == left_over(entries, gone).len(),
    decreases entries.len(),
{
    let n = (entries.len() - 1) as usize;
    let front = entries.drop_last();
    let more = gone.push(v);
    assert(more[gone.len() as int] == v);
    assert(more.contains(v));
    assert(more.contains(n) <==> gone.contains(n) || n == v) by {
        if gone.contains(n) {
            let i = choose|i: int| 0 <= i < gone.len() && gone[i] == n;
            assert(more[i] == n);
        }
        if more.contains(n) {
            let i = choose|i: int| 0 <= i < more.len() && more[i] == n;
            if i < gone.len() {
                assert(gone[i] == n);
            }
        }
    }
    if v == n {
        left_over_ignores_later(front, gone, v);
    } else {
        left_over_counts(front, gone, v);
    }
}

proof fn all_that_went_are_counted(entries: Seq<GpuEntry>, v: Seq<usize>)
    requires
        entries.len() <= usize::MAX,
        v.no_duplicates(),
        forall|n: int| 0 <= n < v.len() ==> #[trigger] v[n] < entries.len(),
    ensures
        left_over(entries, v).len() + v.len() == entries.len(),
    decreases v.len(),
{
    if v.len() == 0 {
        assert(v =~= Seq::empty());
        left_over_of_nothing(entries);
    } else {
        let front = v.drop_last();
        assert(front.push(v.last()) =~= v);
        all_that_went_are_counted(entries, front);
        if front.contains(v.last()) {
            let k = choose|k: int| 0 <= k < front.len() && front[k] == v.last();
            assert(v[k] == v[v.len() - 1]);
        }
        left_over_counts(entries, front, v.last());
    }
}

/// The bytes of all weights are the sum of the bytes of each.
pub proof fn every_weight_counts_with_its_bytes(entries: Seq<GpuEntry>)
    ensures
        device_total(entries) == entries.fold_left(0int, |n: int, e: GpuEntry| n + e.bytes),
    decreases entries.len(),
{
    reveal(Seq::fold_left);
    if entries.len() > 0 {
        every_weight_counts_with_its_bytes(entries.drop_last());
    }
}

/// Eviction gives up the coldest weights first and never one that is needed; it gives up
/// nothing where all fits, and stops as soon as the rest does or nothing else may go.
/// Every weight that goes is counted.
pub proof fn eviction_gives_up_the_coldest(
    c: &mut GpuFfnCache,
    budget: u64,
    protect: Vec<usize>,
    scores: Vec<u64>,
    i: usize,
    j: usize,
)
    requires
        old(c).wf(),
        scores@.len() == old(c).entries@.len(),
        call_ensures(GpuFfnCache::evict_to, (c, budget, &protect, &scores), ()),
        i < old(c).entries@.len(),
        j < old(c).entries@.len(),
    ensures
        ({
            let before = old(c).entries@;
            let after = final(c).entries@;
            let went = |k: usize| k < before.len() && !after.contains(before[k as int]);
            &&& forall|x: GpuEntry| #[trigger] after.contains(x) ==> before.contains(x)
            &&& protect@.contains(before[i as int].key) ==> !went(i)
            &&& went(i) && !went(j) && !protect@.contains(before[j as int].key)
                ==> scores@[i as int] <= scores@[j as int] && (scores@[i as int]
                == scores@[j as int] ==> i < j)
            &&& old(c).bytes <= budget ==> after == before
            &&& final(c).bytes > budget && !went(i) ==> protect@.contains(before[i as int].key)
            &&& went(i) && (forall|k: usize| #[trigger]
                went(k) && k != i ==> scores@[k as int] < scores@[i as int] || scores@[k as int]
                    == scores@[i as int] && k < i) ==> final(c).bytes + before[i as int].bytes
                > budget
            &&& old(c).evictions + (before.len() - after.len()) < u64::MAX ==> final(c).evictions
                == old(c).evictions + (before.len() - after.len())
        }),
        final(c).budget == old(c).budget,
        final(c).clock == old(c).clock,
        final(c).wf(),
{
    let before = old(c).entries@;
    let after = final(c).entries@;
    assert(old(c).entries.len() == before.len());
    let v = choose|v: Seq<usize>|
        {
            &&& #[trigger] is_give_up(before, protect@, scores@, budget, v)
            &&& after == left_over(before, v)
            &&& final(c).evictions == sum_capped(old(c).evictions, v.len() as u64)
        };
    left_over_keys(before, v);
    all_that_went_are_counted(before, v);
    let went = |k: usize| k < before.len() && !after.contains(before[k as int]);
    assert forall|k: usize| #[trigger] went(k) <==> k < before.len() && v.contains(k) by {
        if k < before.len() && after.contains(before[k as int]) {
            let q = choose|q: int|
                0 <= q < before.len() && before[q] == before[k as int] && !v.contains(q as usize);
            if q != k {
                assert(before[q].key != before[k as int].key);
            }
        }
    }
    assert(went(i) <==> v.contains(i));
    assert(went(j) <==> v.contains(j));
    assert(may_go(before, protect@, i) <==> !protect@.contains(before[i as int].key));
    assert(may_go(before, protect@, j) <==> !protect@.contains(before[j as int].key));
    if v.len() > 0 {
        assert(may_go(before, protect@, v[0]));
        assert(v.take(0) =~= Seq::<usize>::empty());
        left_over_of_nothing(before);
    } else {
        assert(v =~= Seq::<usize>::empty());
        left_over_of_nothing(before);
    }
    if v.contains(i) {
        let n = choose|n: int| 0 <= n < v.len() && v[n] == i;
        assert(may_go(before, protect@, v[n]));
        if !v.contains(j) && may_go(before, protect@, j) {
            assert(!v.take(n).contains(j)) by {
                if v.take(n).contains(j) {
                    let q = choose|q: int| 0 <= q < n && v.take(n)[q] == j;
                    assert(v[q] == j);
                }
            }
            assert(goes_before(scores@, v[n], j));
        }
        let m = v.len() - 1;
        let last = v[m];
        assert(v.contains(last));
        assert(may_go(before, protect@, last));
        assert(went(last));
        if n != m {
            assert(!v.take(n).contains(last)) by {
                if v.take(n).contains(last) {
                    let q = choose|q: int| 0 <= q < n && v.take(n)[q] == last;
                    assert(v[q] == last);
                }
            }
            assert(goes_before(scores@, v[n], last));
        } else {
            let front = v.take(m);
            assert(front.push(last) =~= v);
            assert(!front.contains(last)) by {
                if front.contains(last) {
                    let q = choose|q: int| 0 <= q < m && front[q] == last;
                    assert(v[q] == last);
                }
            }
            left_over_drops_one(before, front, last);
        }
    }
}

/// Room is made for a weight to come: behind it the weight fits, or nothing is left that
/// could go.
pub proof fn room_is_made_for_the_newcomer(
    c: &mut GpuFfnCache,
    bytes: u64,
    protect: Vec<usize>,
    scores: Vec<u64>,
    i: int,
)
    requires
        old(c).wf(),
        scores@.len() == old(c).entries@.len(),
        call_ensures(GpuFfnCache::make_room, (c, bytes, &protect, &scores), ()),
        0 <= i < final(c).entries@.len(),
    ensures
        final(c).bytes + bytes <= old(c).budget || bytes > old(c).budget && final(c).bytes == 0
            || protect@.contains(final(c).entries@[i].key),
        old(c).bytes + bytes <= old(c).budget ==> final(c).entries@ == old(c).entries@,
        old(c).entries@.contains(final(c).entries@[i]),
        final(c).budget == old(c).budget,
        final(c).clock == old(c).clock,
{
    let before = old(c).entries@;
    let after = final(c).entries@;
    assert(old(c).entries.len() == before.len());
    let room = minus(old(c).budget, bytes);
    let v = choose|v: Seq<usize>|
        {
            &&& #[trigger] is_give_up(before, protect@, scores@, room, v)
            &&& after == left_over(before, v)
            &&& final(c).evictions == sum_capped(old(c).evictions, v.len() as u64)
        };
    left_over_keys(before, v);
    assert(after.contains(after[i]));
    let q = choose|q: int|
        0 <= q < before.len() && before[q] == after[i] && !v.contains(q as usize);
    assert(may_go(before, protect@, q as usize) <==> !protect@.contains(before[q].key));
    if v.len() > 0 {
        assert(may_go(before, protect@, v[0]));
        assert(v.take(0) =~= Seq::<usize>::empty());
    } else {
        assert(v =~= Seq::<usize>::empty());
    }
    left_over_of_nothing(before);
}

/// A weight that is asked for is warmed by one use and is the newest; nothing else
/// changes. One that comes in is there, used once, with its bytes counted.
pub proof fn a_weight_is_warmed_by_its_use(
    c: &mut GpuFfnCache,
    d: &mut GpuFfnCache,
    key: usize,
    bytes: u64,
    hit: bool,
    i: int,
)
    requires
        old(c).wf(),
        call_ensures(GpuFfnCache::touch, (c, key), hit),
        old(d).wf(),
        !old(d).resident(key),
        call_ensures(GpuFfnCache::insert, (d, key, bytes), ()),
        0 <= i < old(c).entries@.len(),
    ensures
        final(c).clock == (old(c).clock + 1) % 0x1_0000_0000,
        old(c).entries@[i].key == key ==> hit,
        hit ==> exists|k: int|
            0 <= k < old(c).entries@.len() && #[trigger] old(c).entries@[k].key == key,
        final(c).entries@.len() == old(c).entries@.len(),
        old(c).entries@[i].key != key ==> final(c).entries@[i] == old(c).entries@[i],
        old(c).entries@[i].key == key ==> {
            let was = old(c).entries@[i];
            let now = final(c).entries@[i];
            &&& now.key == key && now.bytes == was.bytes && now.last == final(c).clock
            &&& was.heat < u32::MAX ==> now.heat == was.heat + 1
            &&& was.heat == u32::MAX ==> now.heat == u32::MAX
        },
        final(c).budget == old(c).budget && final(c).evictions == old(c).evictions,
        final(c).wf(),
        final(d).wf(),
        final(d).bytes == old(d).bytes + bytes,
        final(d).entries@.len() == old(d).entries@.len() + 1,
        final(d).entries@.drop_last() == old(d).entries@,
        ({
            let e = final(d).entries@.last();
            e.key == key && e.bytes == bytes && e.heat == 1 && e.last == old(d).clock
        }),
        final(d).clock == old(d).clock && final(d).budget == old(d).budget && final(d).evictions
            == old(d).evictions,
{
    assert(final(d).entries@.drop_last() =~= old(d).entries@);
}

/// The device's memory for weights is the configured gibibytes, or what is free less
/// 14 GiB.
pub proof fn the_device_keeps_a_reserve(configured: Option<u64>, free: Option<u64>, b: u64)
    requires
        call_ensures(ffn_budget, (configured, free), b),
    ensures
        configured matches Some(g) ==> g < 0x4_0000_0000 ==> b == g * 1073741824,
        configured is None ==> (free matches Some(f) ==> (f >= 15032385536 ==> b + 15032385536 == f)
            && (f < 15032385536 ==> b == 0)),
        configured is None && free is None ==> b == u64::MAX,
{
}

/// Weights are read in place exactly where that is wanted and works, and what the device
/// is told is what is done.
pub proof fn weights_are_read_in_place_where_that_works(
    wanted: WeightResidency,
    available: bool,
    disabled: bool,
    pageable: bool,
    works: bool,
    r: WeightResidency,
    told: Option<bool>,
)
    requires
        call_ensures(zerocopy, (available, disabled, pageable), works),
        call_ensures(weight_residency, (wanted, works), r),
        call_ensures(set_weight_residency, (wanted, available, works), told),
    ensures
        works ==> available && pageable && !disabled,
        !works ==> !available || !pageable || disabled,
        r == WeightResidency::ZeroCopy <==> wanted == WeightResidency::ZeroCopy && works,
        told is Some <==> available,
        told is Some ==> (told->0 <==> r == WeightResidency::ZeroCopy),
{
}

/// A scope that changes the setting puts it back: whatever it was set to in between.
pub proof fn a_scope_puts_the_setting_back(
    flag: &mut ExactExperts,
    later: &mut ExactExperts,
    on: bool,
    g: ExactExpertsGuard,
)
    requires
        call_ensures(ExactExpertsGuard::new, (flag, on), g),
        call_ensures(ExactExpertsGuard::leave, (g, later), ()),
    ensures
        final(flag).on == on,
        final(later).on == old(flag).on,
{
}

/// Work is counted where it ran, under its own kind and no other.
pub proof fn only_work_that_ran_is_counted(c: &mut GpuCounts, w: Work, ran: bool)
    requires
        call_ensures(GpuCounts::tried, (c, w, ran), ()),
        old(c).matmuls < u64::MAX,
        old(c).ffns < u64::MAX,
        old(c).attns < u64::MAX,
    ensures
        final(c).matmuls - old(c).matmuls == if ran && w == Work::Matmul { 1int } else { 0 },
        final(c).ffns - old(c).ffns == if ran && w == Work::Ffn { 1int } else { 0 },
        final(c).attns - old(c).attns == if ran && w == Work::Attn { 1int } else { 0 },
{
}

/// A layer whose missing rows were brought over is that of the host, also where the host
/// rewrote rows that the device had. Rows that are still good are not brought again, and
/// the other layers stay. Where the rows could not be brought, what the layer claims is
/// still right.
pub proof fn a_brought_layer_is_that_of_the_host(
    kv: &mut DeviceKv,
    later: &mut DeviceKv,
    layer: usize,
    pos_base: usize,
    tk: usize,
    plan: SyncPlan,
    outcome: Synced,
    before: spec_fn(int) -> Seq<u32>,
    host: spec_fn(int) -> Seq<u32>,
    device: spec_fn(int) -> Seq<u32>,
    other: int,
    p: int,
)
    requires
        old(kv).wf(),
        layer < old(kv).layers@.len(),
        tk <= old(kv).max_t,
        call_ensures(DeviceKv::sync, (kv, layer, pos_base, tk), plan),
        *old(later) == *final(kv),
        call_ensures(DeviceKv::synced, (later, layer, plan, outcome), ()),
        forall|q: int| 0 <= q < old(kv).layers@[layer as int].valid ==> #[trigger] device(q) == before(q),
        forall|q: int| 0 <= q < pos_base ==> #[trigger] host(q) == before(q),
        0 <= other < old(kv).layers@.len(),
        other != layer,
    ensures
        ({
            let was = old(kv).layers@[layer as int];
            let now = final(later).layers@[layer as int];
            let there = |q: int|
                if outcome == Synced::Brought && plan.from <= q < plan.to {
                    host(q)
                } else {
                    device(q)
                };
            &&& 0 <= p < now.valid ==> there(p) == host(p)
            &&& outcome == Synced::Brought ==> now.allocated && now.valid >= tk
            &&& outcome == Synced::NoMemory ==> !now.allocated && now.valid == 0
            &&& outcome == Synced::NotBrought ==> now.allocated
            &&& plan.allocate <==> !was.allocated
            &&& was.allocated && was.valid <= pos_base ==> plan.from == was.valid
            &&& was.allocated && was.valid > pos_base ==> plan.from == pos_base
            &&& plan.to <= old(kv).max_t
            &&& plan.from <= plan.to
        }),
        final(later).layers@.len() == old(kv).layers@.len(),
        final(later).layers@[other] == old(kv).layers@[other],
        final(later).max_t == old(kv).max_t,
        final(later).wf(),
{
}

/// A scan is handed over where every buffer has exactly the values that its tokens,
/// heads and groups make up, and the heads are spread evenly over the groups.
pub proof fn a_scan_has_whole_buffers(
    available: bool,
    enabled: bool,
    l: ScanLens,
    n_heads: usize,
    head_dim: usize,
    d_state: usize,
    n_groups: usize,
    seq: usize,
    step: bool,
    many: bool,
)
    requires
        call_ensures(
            try_mamba2_scan,
            (available, l, n_heads, head_dim, d_state, n_groups),
            step,
        ),
        call_ensures(
            try_mamba2_scan_seq,
            (available, enabled, l, n_heads, head_dim, d_state, n_groups, seq),
            many,
        ),
    ensures
        step || many ==> available && n_groups >= 1 && n_heads as int % n_groups as int == 0,
        step || many ==> l.state == n_heads * head_dim * d_state && l.d == n_heads && l.y
            == l.hidden && l.b == l.c && l.dt == l.da,
        many ==> enabled && seq >= 1 && l.dt == seq * n_heads && l.b == seq * (n_groups * d_state)
            && l.y == seq * (n_heads * head_dim),
        step ==> l.dt == n_heads && l.b == n_groups * d_state && l.y == n_heads * head_dim,
        !step && available && n_groups >= 1 && n_heads as int % n_groups as int == 0 && l.state
            == n_heads * head_dim * d_state && l.d == n_heads ==> l.dt != n_heads || l.da != n_heads
            || l.b != n_groups * d_state || l.c != n_groups * d_state || l.y != n_heads * head_dim
            || l.hidden != n_heads * head_dim,
        enabled && seq == 1 ==> step == many,
        enabled && seq >= 1 && !many && available && n_groups >= 1 && n_heads as int
            % n_groups as int == 0 && l.state == n_heads * head_dim * d_state && l.d == n_heads
            ==> l.dt != seq * n_heads || l.da != seq * n_heads || l.b != seq * (n_groups * d_state)
            || l.c != seq * (n_groups * d_state) || l.y != seq * (n_heads * head_dim) || l.hidden
            != seq * (n_heads * head_dim),
{
    assert(1 * (n_groups * d_state) == n_groups * d_state);
    assert(1 * (n_heads * head_dim) == n_heads * head_dim);
    assert(1 * n_heads == n_heads);
}

/// Scores are computed on the device for at most 32 heads, where no buffer is too short
/// for what there is.
pub proof fn scores_need_long_enough_buffers(
    available: bool,
    scores: usize,
    qi: usize,
    hw: usize,
    keys: usize,
    nsp: usize,
    nh: usize,
    hd: usize,
    t_len: usize,
    b: bool,
)
    requires
        call_ensures(
            try_dsa_indexer_scores,
            (available, scores, qi, hw, keys, nsp, nh, hd, t_len),
            b,
        ),
    ensures
        b ==> available && nsp >= 1 && 1 <= nh <= 32 && hd >= 1 && t_len >= 1,
        b ==> nsp * (nh * hd) <= qi && nsp * nh <= hw && t_len * hd <= keys && nsp * t_len <= scores,
        !b && available && nsp >= 1 && 1 <= nh <= 32 && hd >= 1 && t_len >= 1 ==> nsp * (nh * hd)
            > qi || nsp * nh > hw || t_len * hd > keys || nsp * t_len > scores,
{
}

/// Sparse attention goes over all whole key rows, where heads are a multiple of 32 wide
/// and no buffer is too short.
pub proof fn sparse_attention_goes_over_whole_rows(
    available: bool,
    enabled: bool,
    out: usize,
    q: usize,
    kv: usize,
    sink: usize,
    idxs: usize,
    s: usize,
    h: usize,
    hd: usize,
    topk: usize,
    rows: Option<usize>,
)
    requires
        call_ensures(
            try_dsv4_sparse_attn,
            (available, enabled, out, q, kv, sink, idxs, s, h, hd, topk),
            rows,
        ),
    ensures
        rows matches Some(n) ==> {
            &&& available && enabled && s >= 1 && h >= 1 && topk >= 1 && n >= 1
            &&& hd >= 32 && hd % 32 == 0
            &&& n * hd <= kv < (n + 1) * hd
            &&& s * (h * hd) <= q && s * (h * hd) <= out && h <= sink && s * topk <= idxs
        },
        rows is None && available && enabled && s >= 1 && h >= 1 && topk >= 1 && hd >= 1 && hd % 32
            == 0 ==> kv < hd || s * (h * hd) > q || s * (h * hd) > out || h > sink || s * topk > idxs,
{
    if hd > 0 {
        let d = hd as int;
        let n = kv as int / d;
        vstd::arithmetic::div_mod::lemma_fundamental_div_mod(kv as int, d);
        vstd::arithmetic::div_mod::lemma_mod_bound(kv as int, d);
        assert(n * d <= kv < (n + 1) * d) by (nonlinear_arith)
            requires
                kv == d * n + kv as int % d,
                0 <= kv as int % d < d,
        ;
        vstd::arithmetic::div_mod::lemma_div_pos_is_pos(kv as int, d);
        if n == 0 {
            assert(kv < d) by (nonlinear_arith)
                requires
                    n == 0,
                    kv < (n + 1) * d,
            ;
        }
        assert(n <= kv) by (nonlinear_arith)
            requires
                n * d <= kv,
                d >= 1,
                n >= 0,
        ;
    }
}

/// A slice of heads runs sparsely where there is a selection for each query, it keeps
/// something, and the slice is one of the heads that there are.
pub proof fn a_slice_is_of_heads_that_exist(
    available: bool,
    eligible: bool,
    selections: usize,
    s: usize,
    topk: usize,
    h0: usize,
    hc: usize,
    h: usize,
    b: bool,
)
    requires
        call_ensures(
            try_attention_absorb_sparse,
            (available, eligible, selections, s, topk, h0, hc, h),
            b,
        ),
    ensures
        b ==> available && eligible && selections == s && topk >= 1 && hc >= 1 && h0 + hc <= h,
        available && eligible && selections == s && topk >= 1 && hc >= 1 && h0 + hc <= h ==> b,
{
}

/// Every format has its buffer: floats as floats, eight bits as bytes, all others packed.
/// A product runs on the device from that buffer, the four-bit block format by an entry of
/// its own; 8-bit floats and the MX format do not.
pub proof fn every_format_has_its_buffer(
    available: bool,
    eligible: bool,
    fmt: i32,
    r: MatmulRoute,
    s: Store,
    w: Wrap,
)
    requires
        call_ensures(try_matmul_qt, (available, eligible, fmt), r),
        call_ensures(weight_ptr, (fmt,), s),
        call_ensures(wrap_fresh, (fmt,), w),
    ensures
        r != MatmulRoute::Host <==> available && eligible && (0 <= fmt <= 3 || fmt == 5),
        r == MatmulRoute::Nvfp4 ==> fmt == 5 && w == Wrap::Nvfp4,
        r == MatmulRoute::Floats ==> fmt == 0 && s == Store::Floats,
        r == MatmulRoute::Bytes ==> fmt == 1 && s == Store::Bytes,
        r == MatmulRoute::Packed ==> (fmt == 2 || fmt == 3) && s == Store::Packed,
        s == Store::Floats <==> fmt == 0,
        s == Store::Bytes <==> fmt == 1,
        w matches Wrap::Scaled(t) ==> t == s && fmt != 5 && fmt != 6,
        w == Wrap::Mxfp4 ==> fmt == 6,
{
}

/// A dense product needs a whole weight, row by row.
pub proof fn a_dense_weight_is_whole(available: bool, w_len: usize, i: usize, o: usize, b: bool)
    requires
        call_ensures(try_matmul_f32, (available, w_len, i, o), b),
    ensures
        b ==> available && w_len == i * o,
        available && w_len == i * o ==> b,
{
    assert(i * o == o * i) by (nonlinear_arith);
}

} // verus!
