//! Counters by key, and the ranking of what was counted.

use vstd::prelude::*;

verus! {

/// A key of a [`Tally`]: copyable, comparable, and totally ordered.
pub trait Key: Copy + Sized {
    /// The strict order that breaks ties in a ranking.
    spec fn precedes(self, other: Self) -> bool;

    /// `precedes` is a strict total order.
    proof fn precedes_is_total(a: Self, b: Self, c: Self)
        ensures
            !a.precedes(a),
            a != b ==> (a.precedes(b) <==> !b.precedes(a)),
            a.precedes(b) && b.precedes(c) ==> a.precedes(c),
    ;

    /// Whether two keys are the same.
    fn same(&self, other: &Self) -> (b: bool)
        ensures
            b == (*self == *other),
    ;

    /// Whether this key precedes the other.
    fn is_before(&self, other: &Self) -> (b: bool)
        ensures
            b == (*self).precedes(*other),
    ;
}

impl Key for usize {
    open spec fn precedes(self, other: usize) -> bool {
        self < other
    }

    proof fn precedes_is_total(a: usize, b: usize, c: usize) {
    }

    fn same(&self, other: &usize) -> (b: bool) {
        *self == *other
    }

    fn is_before(&self, other: &usize) -> (b: bool) {
        *self < *other
    }
}

/// A routed expert: its layer and its number within the layer.
#[derive(Debug, Clone, Copy, PartialEq, Eq, Structural)]
pub struct ExpertId {
    pub layer: usize,
    pub eid: usize,
}

impl Key for ExpertId {
    open spec fn precedes(self, other: ExpertId) -> bool {
        self.layer < other.layer || (self.layer == other.layer && self.eid < other.eid)
    }

    proof fn precedes_is_total(a: ExpertId, b: ExpertId, c: ExpertId) {
    }

    fn same(&self, other: &ExpertId) -> (b: bool) {
        self.layer == other.layer && self.eid == other.eid
    }

    fn is_before(&self, other: &ExpertId) -> (b: bool) {
        self.layer < other.layer || (self.layer == other.layer && self.eid < other.eid)
    }
}

/// Expert `to` of `layer` used right after expert `from` of the layer before.
#[derive(Debug, Clone, Copy, PartialEq, Eq, Structural)]
pub struct Transition {
    pub layer: usize,
    pub from: usize,
    pub to: usize,
}

impl Key for Transition {
    open spec fn precedes(self, other: Transition) -> bool {
        ||| self.layer < other.layer
        ||| self.layer == other.layer && self.from < other.from
        ||| self.layer == other.layer && self.from == other.from && self.to < other.to
    }

    proof fn precedes_is_total(a: Transition, b: Transition, c: Transition) {
    }

    fn same(&self, other: &Transition) -> (b: bool) {
        self.layer == other.layer && self.from == other.from && self.to == other.to
    }

    fn is_before(&self, other: &Transition) -> (b: bool) {
        self.layer < other.layer || (self.layer == other.layer && self.from < other.from) || (
        self.layer == other.layer && self.from == other.from && self.to < other.to)
    }
}

/// The sum of two counts, held at the largest count there is.
pub open spec fn sum_capped(a: u64, b: u64) -> u64 {
    if a + b > u64::MAX {
        u64::MAX
    } else {
        (a + b) as u64
    }
}

/// What a map of counts holds for `k`: zero where it holds nothing.
pub open spec fn count_in<K>(m: Map<K, u64>, k: K) -> u64 {
    if m.dom().contains(k) {
        m[k]
    } else {
        0
    }
}

/// A map of counts after `by` more of `k`.
pub open spec fn counted<K>(m: Map<K, u64>, k: K, by: u64) -> Map<K, u64> {
    m.insert(k, sum_capped(count_in(m, k), by))
}

/// Whether `a` ranks before `b`: the higher count first, then the smaller key.
pub open spec fn hotter<K: Key>(m: Map<K, u64>, a: K, b: K) -> bool {
    m[a] > m[b] || (m[a] == m[b] && a.precedes(b))
}

/// Whether `r` lists exactly the counted keys, hottest first.
pub open spec fn is_ranking<K: Key>(r: Seq<K>, m: Map<K, u64>) -> bool {
    &&& r.no_duplicates()
    &&& forall|k: K| #[trigger] r.contains(k) <==> m.dom().contains(k)
    &&& forall|i: int, j: int| 0 <= i < j < r.len() ==> hotter(m, r[i], r[j])
}

/// A map of counts has one ranking only.
pub proof fn ranking_is_unique<K: Key>(a: Seq<K>, b: Seq<K>, m: Map<K, u64>)
    requires
        is_ranking(a, m),
        is_ranking(b, m),
    ensures
        a == b,
{
    a.unique_seq_to_set();
    b.unique_seq_to_set();
    assert(a.to_set() =~= b.to_set());
    assert(a.len() == b.len());
    assert forall|i: int| 0 <= i < a.len() implies a[i] == b[i] by {
        same_rank(a, b, m, i);
    }
    assert(a =~= b);
}

/// Where `k` belongs among `r`.
spec fn slot<K: Key>(r: Seq<K>, m: Map<K, u64>, k: K) -> int
    decreases r.len(),
{
    if r.len() == 0 || !hotter(m, r[0], k) {
        0
    } else {
        1 + slot(r.drop_first(), m, k)
    }
}

proof fn slot_facts<K: Key>(r: Seq<K>, m: Map<K, u64>, k: K)
    ensures
        0 <= slot(r, m, k) <= r.len(),
        forall|j: int| 0 <= j < slot(r, m, k) ==> hotter(m, #[trigger] r[j], k),
        slot(r, m, k) < r.len() ==> !hotter(m, r[slot(r, m, k)], k),
    decreases r.len(),
{
    if !(r.len() == 0 || !hotter(m, r[0], k)) {
        let rest = r.drop_first();
        slot_facts(rest, m, k);
        let p = slot(r, m, k);
        assert forall|j: int| 0 <= j < p implies hotter(m, #[trigger] r[j], k) by {
            if j > 0 {
                assert(rest[j - 1] == r[j]);
                assert(hotter(m, rest[j - 1], k));
            }
        }
        if p < r.len() {
            assert(rest[p - 1] == r[p]);
        }
    }
}

/// Whatever finite map of counts there is, its keys can be ranked.
pub proof fn ranking_exists<K: Key>(m: Map<K, u64>) -> (r: Seq<K>)
    requires
        m.dom().finite(),
    ensures
        is_ranking(r, m),
        r == ranking_of(m),
    decreases m.dom().len(),
{
    let r = if m.dom().len() == 0 {
        assert(m.dom() =~= Set::empty());
        assert(is_ranking(Seq::<K>::empty(), m));
        Seq::<K>::empty()
    } else {
        let k = m.dom().choose();
        let rest = m.remove(k);
        let r2 = ranking_exists(rest);
        slot_facts(r2, m, k);
        let p = slot(r2, m, k);
        let r = r2.insert(p, k);
        assert forall|j: int| 0 <= j < r2.len() implies m.dom().contains(#[trigger] r2[j]) && r2[j]
            != k && m[r2[j]] == rest[r2[j]] by {
            assert(r2.contains(r2[j]));
        }
        assert forall|j: int| p <= j < r2.len() implies hotter(m, k, #[trigger] r2[j]) by {
            K::precedes_is_total(k, r2[p], r2[j]);
            if j > p {
                assert(hotter(rest, r2[p], r2[j]));
            }
        }
        assert forall|i: int, j: int| 0 <= i < j < r.len() implies hotter(m, r[i], r[j]) by {
            if i < p && j < p {
                assert(hotter(rest, r2[i], r2[j]));
            } else if i < p && j > p {
                assert(hotter(rest, r2[i], r2[j - 1]));
            } else if i > p {
                assert(hotter(rest, r2[i - 1], r2[j - 1]));
            } else if i < p {
                assert(hotter(m, r2[i], k));
            } else {
                assert(hotter(m, k, r2[j - 1]));
            }
        }
        assert forall|i: int, j: int| 0 <= i < r.len() && 0 <= j < r.len() && i != j implies r[i]
            != r[j] by {
            K::precedes_is_total(r[i], r[j], r[i]);
            if i < j {
                assert(hotter(m, r[i], r[j]));
            } else {
                assert(hotter(m, r[j], r[i]));
            }
        }
        assert forall|x: K| #[trigger] r.contains(x) <==> m.dom().contains(x) by {
            if r.contains(x) {
                let j = choose|j: int| 0 <= j < r.len() && r[j] == x;
                if j < p {
                    assert(r2[j] == x);
                } else if j > p {
                    assert(r2[j - 1] == x);
                }
            }
            if m.dom().contains(x) {
                if x == k {
                    assert(r[p] == x);
                } else {
                    assert(rest.dom().contains(x));
                    assert(r2.contains(x));
                    let j = choose|j: int| 0 <= j < r2.len() && r2[j] == x;
                    if j < p {
                        assert(r[j] == x);
                    } else {
                        assert(r[j + 1] == x);
                    }
                }
            }
        }
        assert(is_ranking(r, m));
        r
    };
    assert(is_ranking(r, m));
    ranking_is_unique(r, ranking_of(m), m);
    r
}

proof fn same_rank<K: Key>(a: Seq<K>, b: Seq<K>, m: Map<K, u64>, i: int)
    requires
        is_ranking(a, m),
        is_ranking(b, m),
        a.len() == b.len(),
        0 <= i < a.len(),
    ensures
        a[i] == b[i],
    decreases i,
{
    assert forall|j: int| 0 <= j < i implies a[j] == b[j] by {
        same_rank(a, b, m, j);
    }
    if a[i] != b[i] {
        assert(a.contains(a[i]) && b.contains(b[i]));
        let p = choose|p: int| 0 <= p < b.len() && b[p] == a[i];
        let q = choose|q: int| 0 <= q < a.len() && a[q] == b[i];
        assert(b.contains(a[i]));
        assert(a.contains(b[i]));
        if p < i {
            assert(a[p] == a[i]);
        }
        if q < i {
            assert(b[q] == b[i]);
        }
        assert(hotter(m, b[i], b[p]));
        assert(hotter(m, a[i], a[q]));
        K::precedes_is_total(a[i], b[i], a[i]);
    }
}

/// Counts by key.
pub struct Tally<K: Key> {
    rows: Vec<(K, u64)>,
}

/// Whether the first `n` rows hold `k`.
pub open spec fn rows_hold<K>(rows: Seq<(K, u64)>, k: K) -> bool {
    exists|i: int| 0 <= i < rows.len() && #[trigger] rows[i].0 == k
}

/// The count that stands beside `k`.
pub open spec fn row_count<K>(rows: Seq<(K, u64)>, k: K) -> u64 {
    rows[choose|i: int| 0 <= i < rows.len() && #[trigger] rows[i].0 == k].1
}

/// The counts that `rows` stand for.
pub open spec fn counts_of<K>(rows: Seq<(K, u64)>) -> Map<K, u64> {
    Map::new(|k: K| rows_hold(rows, k), |k: K| row_count(rows, k))
}

/// Whether no key stands in two rows.
pub open spec fn keys_differ<K>(rows: Seq<(K, u64)>) -> bool {
    forall|i: int, j: int|
        0 <= i < rows.len() && 0 <= j < rows.len() && i != j ==> #[trigger] rows[i].0
            != #[trigger] rows[j].0
}

proof fn row_is_its_count<K>(rows: Seq<(K, u64)>, i: int)
    requires
        keys_differ(rows),
        0 <= i < rows.len(),
    ensures
        counts_of(rows).dom().contains(rows[i].0),
        counts_of(rows)[rows[i].0] == rows[i].1,
{
    let k = rows[i].0;
    let j = choose|j: int| 0 <= j < rows.len() && #[trigger] rows[j].0 == k;
    assert(rows[i].0 == k);
    assert(0 <= j < rows.len() && rows[j].0 == k);
    if j != i {
        assert(rows[i].0 != rows[j].0);
    }
}

impl<K: Key> View for Tally<K> {
    type V = Map<K, u64>;

    closed spec fn view(&self) -> Map<K, u64> {
        counts_of(self.rows@)
    }
}

impl<K: Key> Tally<K> {
    /// No key is counted in two places.
    pub closed spec fn wf(&self) -> bool {
        keys_differ(self.rows@)
    }

    /// An empty tally.
    pub fn new() -> (t: Tally<K>)
        ensures
            t.wf(),
            t@ == Map::<K, u64>::empty(),
    {
        let t = Tally { rows: Vec::new() };
        assert(t@ =~= Map::<K, u64>::empty());
        t
    }

    /// The row that counts `k`, if there is one.
    fn find(&self, k: K) -> (r: Option<usize>)
        requires
            self.wf(),
        ensures
            match r {
                Some(i) => i < self.rows@.len() && self.rows@[i as int].0 == k,
                None => !self@.dom().contains(k),
            },
    {
        for i in 0..self.rows.len()
            invariant
                forall|j: int| 0 <= j < i ==> #[trigger] self.rows@[j].0 != k,
        {
            if self.rows[i].0.same(&k) {
                return Some(i);
            }
        }
        None
    }

    /// How often `k` was counted.
    pub fn get(&self, k: K) -> (n: u64)
        requires
            self.wf(),
        ensures
            n == count_in(self@, k),
    {
        match self.find(k) {
            Some(i) => {
                proof {
                    row_is_its_count(self.rows@, i as int);
                }
                self.rows[i].1
            },
            None => 0,
        }
    }

    /// Counts `k` another `by` times. A count never passes `u64::MAX`.
    pub fn count(&mut self, k: K, by: u64)
        requires
            old(self).wf(),
        ensures
            final(self).wf(),
            final(self)@ == counted(old(self)@, k, by),
    {
        let ghost before = self.rows@;
        match self.find(k) {
            Some(i) => {
                let n: u64 = self.rows[i].1.saturating_add(by);
                self.rows.set(i, (k, n));
                proof {
                    row_is_its_count(before, i as int);
                    counts_after_set(before, i as int, n);
                }
            },
            None => {
                self.rows.push((k, by));
                proof {
                    counts_after_push(before, k, by);
                }
            },
        }
        assert(self@ =~= counted(counts_of(before), k, by));
    }

    /// Counts everything that `other` counted on top of what was counted here.
    pub fn absorb(&mut self, other: &Tally<K>)
        requires
            old(self).wf(),
            other.wf(),
        ensures
            final(self).wf(),
            final(self)@ == merged(old(self)@, other@),
    {
        let ghost before = self@;
        let ghost theirs = other.rows@;
        assert(theirs.take(0) =~= Seq::<(K, u64)>::empty());
        assert(self@ =~= merged(before, counts_of(theirs.take(0))));
        for i in 0..other.rows.len()
            invariant
                self.wf(),
                other.wf(),
                theirs == other.rows@,
                self@ == merged(before, counts_of(theirs.take(i as int))),
        {
            let (k, n): (K, u64) = other.rows[i];
            self.count(k, n);
            proof {
                counts_of_longer(theirs, i as int);
                assert(self@ =~= merged(before, counts_of(theirs.take(i + 1))));
            }
        }
        assert(theirs.take(theirs.len() as int) =~= theirs);
    }

    /// The counted keys, hottest first, ties by key.
    pub fn ranked(&self) -> (r: Vec<K>)
        requires
            self.wf(),
        ensures
            is_ranking(r@, self@),
            r@ == ranking_of(self@),
    {
        let mut out: Vec<(K, u64)> = Vec::new();
        let ghost rows = self.rows@;
        for i in 0..self.rows.len()
            invariant
                keys_differ(rows),
                rows == self.rows@,
                rows_ranked(out@),
                forall|x: (K, u64)| #[trigger] out@.contains(x) <==> rows.take(i as int).contains(x),
        {
            let row: (K, u64) = self.rows[i];
            let mut p: usize = 0;
            while p < out.len() && (out[p].1 > row.1 || (out[p].1 == row.1
                && out[p].0.is_before(&row.0)))
                invariant
                    p <= out@.len(),
                    forall|j: int| 0 <= j < p ==> row_before(#[trigger] out@[j], row),
                decreases out@.len() - p,
            {
                p = p + 1;
            }
            let ghost prev = out@;
            out.insert(p, row);
            proof {
                insertion_keeps_ranking(prev, p as int, row, rows, i as int);
            }
        }
        assert(rows.take(rows.len() as int) =~= rows);
        let mut r: Vec<K> = Vec::new();
        for i in 0..out.len()
            invariant
                r@.len() == i,
                forall|j: int| 0 <= j < i ==> r@[j] == out@[j].0,
        {
            r.push(out[i].0);
        }
        proof {
            rows_give_ranking(rows, out@, r@);
            ranking_is_unique(r@, ranking_of(self@), self@);
        }
        r
    }

    /// The sum of the counts of the `n` hottest keys.
    pub fn top_total(&self, n: usize) -> (sum: u64)
        requires
            self.wf(),
        ensures
            sum == sum_over(self@, ranking_of(self@).take(at_most(n as int, ranking_of(self@).len() as int))),
    {
        let r: Vec<K> = self.ranked();
        let upto: usize = if n < r.len() { n } else { r.len() };
        let mut sum: u64 = 0;
        assert(r@.take(0) =~= Seq::<K>::empty());
        for i in 0..upto
            invariant
                self.wf(),
                upto <= r@.len(),
                sum == sum_over(self@, r@.take(i as int)),
        {
            sum = sum.saturating_add(self.get(r[i]));
            assert(r@.take(i + 1).drop_last() =~= r@.take(i as int));
        }
        sum
    }

    /// The sum of all counts.
    pub fn total(&self) -> (sum: u64)
        requires
            self.wf(),
        ensures
            sum == sum_over(self@, ranking_of(self@)),
    {
        let r: Vec<K> = self.ranked();
        assert(r@.take(r@.len() as int) =~= r@);
        self.top_total(r.len())
    }
}

/// The ranking of what was counted.
pub open spec fn ranking_of<K: Key>(m: Map<K, u64>) -> Seq<K> {
    choose|r: Seq<K>| is_ranking(r, m)
}

/// The smaller of two numbers.
pub open spec fn at_most(a: int, b: int) -> int {
    if a < b {
        a
    } else {
        b
    }
}

/// The sum of the counts of `keys`, never past `u64::MAX`.
pub open spec fn sum_over<K>(m: Map<K, u64>, keys: Seq<K>) -> u64
    decreases keys.len(),
{
    if keys.len() == 0 {
        0
    } else {
        sum_capped(sum_over(m, keys.drop_last()), count_in(m, keys.last()))
    }
}

/// Two maps of counts put together.
pub open spec fn merged<K>(a: Map<K, u64>, b: Map<K, u64>) -> Map<K, u64> {
    Map::new(
        |k: K| a.dom().contains(k) || b.dom().contains(k),
        |k: K| sum_capped(count_in(a, k), count_in(b, k)),
    )
}

/// Whether row `a` ranks before row `b`.
spec fn row_before<K: Key>(a: (K, u64), b: (K, u64)) -> bool {
    a.1 > b.1 || (a.1 == b.1 && a.0.precedes(b.0))
}

spec fn rows_ranked<K: Key>(rows: Seq<(K, u64)>) -> bool {
    forall|i: int, j: int|
        0 <= i < j < rows.len() ==> row_before(#[trigger] rows[i], #[trigger] rows[j])
}

proof fn counts_after_push<K>(rows: Seq<(K, u64)>, k: K, n: u64)
    requires
        keys_differ(rows),
        !counts_of(rows).dom().contains(k),
    ensures
        keys_differ(rows.push((k, n))),
        counts_of(rows.push((k, n))) == counts_of(rows).insert(k, n),
{
    let after = rows.push((k, n));
    assert(!rows_hold(rows, k));
    assert(forall|j: int| 0 <= j < rows.len() ==> after[j] == rows[j]);
    assert(forall|j: int| 0 <= j < rows.len() ==> (#[trigger] rows[j]).0 != k);
    assert forall|x: int, y: int|
        0 <= x < after.len() && 0 <= y < after.len() && x != y implies #[trigger] after[x].0
        != #[trigger] after[y].0 by {
        if x < rows.len() && y < rows.len() {
            assert(rows[x].0 != rows[y].0);
        }
    }
    assert forall|x: K| #[trigger]
        counts_of(after).dom().contains(x) <==> counts_of(rows).insert(k, n).dom().contains(x) by {
        if rows_hold(after, x) {
            let j = choose|j: int| 0 <= j < after.len() && #[trigger] after[j].0 == x;
            if j < rows.len() {
                assert(rows[j].0 == x);
            }
        }
        if rows_hold(rows, x) {
            let j = choose|j: int| 0 <= j < rows.len() && #[trigger] rows[j].0 == x;
            assert(after[j].0 == x);
        }
        if x == k {
            assert(after[rows.len() as int].0 == x);
        }
    }
    assert forall|x: K| counts_of(after).dom().contains(x) implies #[trigger] counts_of(after)[x]
        == counts_of(rows).insert(k, n)[x] by {
        let j = choose|j: int| 0 <= j < after.len() && #[trigger] after[j].0 == x;
        row_is_its_count(after, j);
        if j < rows.len() {
            row_is_its_count(rows, j);
        }
    }
    assert(counts_of(after) =~= counts_of(rows).insert(k, n));
}

proof fn counts_after_set<K>(rows: Seq<(K, u64)>, i: int, n: u64)
    requires
        keys_differ(rows),
        0 <= i < rows.len(),
    ensures
        keys_differ(rows.update(i, (rows[i].0, n))),
        counts_of(rows.update(i, (rows[i].0, n))) == counts_of(rows).insert(rows[i].0, n),
{
    let k = rows[i].0;
    let after = rows.update(i, (k, n));
    assert(forall|j: int| 0 <= j < after.len() ==> after[j].0 == rows[j].0);
    assert forall|x: int, y: int|
        0 <= x < after.len() && 0 <= y < after.len() && x != y implies #[trigger] after[x].0
        != #[trigger] after[y].0 by {
        assert(rows[x].0 != rows[y].0);
    }
    assert forall|x: K| #[trigger]
        counts_of(after).dom().contains(x) <==> counts_of(rows).insert(k, n).dom().contains(x) by {
        if rows_hold(after, x) {
            let j = choose|j: int| 0 <= j < after.len() && #[trigger] after[j].0 == x;
            assert(rows[j].0 == x);
        }
        if rows_hold(rows, x) {
            let j = choose|j: int| 0 <= j < rows.len() && #[trigger] rows[j].0 == x;
            assert(after[j].0 == x);
        }
        if x == k {
            assert(after[i].0 == x);
        }
    }
    assert forall|x: K| counts_of(after).dom().contains(x) implies #[trigger] counts_of(after)[x]
        == counts_of(rows).insert(k, n)[x] by {
        let j = choose|j: int| 0 <= j < after.len() && #[trigger] after[j].0 == x;
        row_is_its_count(after, j);
        row_is_its_count(rows, j);
        if x == k {
            row_is_its_count(after, i);
        } else {
            assert(j != i);
        }
    }
    assert(counts_of(after) =~= counts_of(rows).insert(k, n));
}

proof fn counts_of_longer<K>(rows: Seq<(K, u64)>, i: int)
    requires
        keys_differ(rows),
        0 <= i < rows.len(),
    ensures
        keys_differ(rows.take(i)),
        !counts_of(rows.take(i)).dom().contains(rows[i].0),
        counts_of(rows.take(i + 1)) == counts_of(rows.take(i)).insert(rows[i].0, rows[i].1),
{
    let t = rows.take(i);
    assert forall|x: int, y: int|
        0 <= x < t.len() && 0 <= y < t.len() && x != y implies #[trigger] t[x].0
        != #[trigger] t[y].0 by {
        assert(rows[x].0 != rows[y].0);
    }
    if rows_hold(t, rows[i].0) {
        let j = choose|j: int| 0 <= j < t.len() && #[trigger] t[j].0 == rows[i].0;
        assert(rows[j].0 != rows[i].0);
    }
    counts_after_push(t, rows[i].0, rows[i].1);
    assert(rows.take(i + 1) =~= t.push((rows[i].0, rows[i].1)));
}

proof fn insertion_keeps_ranking<K: Key>(
    out: Seq<(K, u64)>,
    p: int,
    row: (K, u64),
    rows: Seq<(K, u64)>,
    i: int,
)
    requires
        keys_differ(rows),
        0 <= i < rows.len(),
        row == rows[i],
        rows_ranked(out),
        0 <= p <= out.len(),
        forall|x: (K, u64)| #[trigger] out.contains(x) <==> rows.take(i).contains(x),
        forall|j: int| 0 <= j < p ==> row_before(#[trigger] out[j], row),
        p < out.len() ==> !row_before(out[p], row),
    ensures
        rows_ranked(out.insert(p, row)),
        forall|x: (K, u64)| #[trigger]
            out.insert(p, row).contains(x) <==> rows.take(i + 1).contains(x),
{
    let after = out.insert(p, row);
    assert forall|j: int| p <= j < out.len() implies row_before(row, #[trigger] out[j]) by {
        assert(out.contains(out[j]));
        assert(rows.take(i).contains(out[j]));
        let m = choose|m: int| 0 <= m < i && rows.take(i)[m] == out[j];
        assert(rows[m].0 != rows[i].0);
        assert(out.contains(out[p]));
        assert(rows.take(i).contains(out[p]));
        let q = choose|q: int| 0 <= q < i && rows.take(i)[q] == out[p];
        assert(rows[q].0 != rows[i].0);
        K::precedes_is_total(row.0, out[p].0, out[j].0);
        if j > p {
            assert(row_before(out[p], out[j]));
        }
    }
    assert forall|a: int, b: int| 0 <= a < b < after.len() implies row_before(
        #[trigger] after[a],
        #[trigger] after[b],
    ) by {
        if a < p && b < p {
            assert(row_before(out[a], out[b]));
        } else if a < p && b > p {
            assert(row_before(out[a], out[b - 1]));
        } else if a > p {
            assert(row_before(out[a - 1], out[b - 1]));
        } else if a < p && b == p {
            assert(row_before(out[a], row));
        } else {
            assert(row_before(row, out[b - 1]));
        }
    }
    assert forall|x: (K, u64)| #[trigger] after.contains(x) <==> rows.take(i + 1).contains(x) by {
        if after.contains(x) {
            let j = choose|j: int| 0 <= j < after.len() && after[j] == x;
            if j < p {
                assert(out.contains(out[j]));
                let m = choose|m: int| 0 <= m < i && rows.take(i)[m] == x;
                assert(rows.take(i + 1)[m] == x);
            } else if j > p {
                assert(out.contains(out[j - 1]));
                let m = choose|m: int| 0 <= m < i && rows.take(i)[m] == x;
                assert(rows.take(i + 1)[m] == x);
            } else {
                assert(rows.take(i + 1)[i] == x);
            }
        }
        if rows.take(i + 1).contains(x) {
            let longer = rows.take(i + 1);
            let m = choose|m: int| 0 <= m < longer.len() && longer[m] == x;
            if m < i {
                assert(rows.take(i)[m] == x);
                assert(out.contains(x));
                let j = choose|j: int| 0 <= j < out.len() && out[j] == x;
                if j < p {
                    assert(after[j] == x);
                } else {
                    assert(after[j + 1] == x);
                }
            } else {
                assert(after[p] == x);
            }
        }
    }
}

proof fn rows_give_ranking<K: Key>(rows: Seq<(K, u64)>, out: Seq<(K, u64)>, r: Seq<K>)
    requires
        keys_differ(rows),
        rows_ranked(out),
        forall|x: (K, u64)| #[trigger] out.contains(x) <==> rows.contains(x),
        r.len() == out.len(),
        forall|j: int| 0 <= j < r.len() ==> r[j] == out[j].0,
    ensures
        is_ranking(r, counts_of(rows)),
{
    let m = counts_of(rows);
    assert forall|j: int| 0 <= j < r.len() implies m.dom().contains(#[trigger] r[j]) && m[r[j]]
        == out[j].1 by {
        assert(out.contains(out[j]));
        let q = choose|q: int| 0 <= q < rows.len() && rows[q] == out[j];
        row_is_its_count(rows, q);
    }
    assert forall|i: int, j: int| 0 <= i < j < r.len() implies hotter(m, r[i], r[j]) by {
        assert(row_before(out[i], out[j]));
    }
    assert forall|i: int, j: int| 0 <= i < r.len() && 0 <= j < r.len() && i != j implies r[i]
        != r[j] by {
        K::precedes_is_total(r[i], r[j], r[i]);
        if i < j {
            assert(hotter(m, r[i], r[j]));
        } else {
            assert(hotter(m, r[j], r[i]));
        }
    }
    assert forall|k: K| #[trigger] r.contains(k) <==> m.dom().contains(k) by {
        if m.dom().contains(k) {
            let q = choose|q: int| 0 <= q < rows.len() && #[trigger] rows[q].0 == k;
            assert(rows.contains(rows[q]));
            assert(out.contains(rows[q]));
            let j = choose|j: int| 0 <= j < out.len() && out[j] == rows[q];
            assert(r[j] == k);
        }
    }
}

/// The experts counted in one layer.
pub open spec fn in_layer(m: Map<ExpertId, u64>, layer: usize) -> Map<usize, u64> {
    Map::new(
        |e: usize| m.dom().contains(ExpertId { layer, eid: e }),
        |e: usize| m[ExpertId { layer, eid: e }],
    )
}

/// The experts of `layer` counted after expert `from` of the layer before.
pub open spec fn successors_of(m: Map<Transition, u64>, layer: usize, from: usize) -> Map<
    usize,
    u64,
> {
    Map::new(
        |e: usize| m.dom().contains(Transition { layer, from, to: e }),
        |e: usize| m[Transition { layer, from, to: e }],
    )
}

impl Tally<ExpertId> {
    /// What was counted in one layer.
    pub fn of_layer(&self, layer: usize) -> (t: Tally<usize>)
        requires
            self.wf(),
        ensures
            t.wf(),
            t@ == in_layer(self@, layer),
    {
        let mut t: Tally<usize> = Tally::new();
        let ghost rows = self.rows@;
        assert(rows.take(0) =~= Seq::<(ExpertId, u64)>::empty());
        assert(t@ =~= in_layer(counts_of(rows.take(0)), layer));
        for i in 0..self.rows.len()
            invariant
                t.wf(),
                rows == self.rows@,
                keys_differ(rows),
                t@ == in_layer(counts_of(rows.take(i as int)), layer),
        {
            proof {
                counts_of_longer(rows, i as int);
            }
            let (k, n): (ExpertId, u64) = self.rows[i];
            if k.layer == layer {
                t.count(k.eid, n);
            }
            assert(t@ =~= in_layer(counts_of(rows.take(i + 1)), layer));
        }
        assert(rows.take(rows.len() as int) =~= rows);
        t
    }
}

impl Tally<Transition> {
    /// What was counted after expert `from`.
    pub fn successors(&self, layer: usize, from: usize) -> (t: Tally<usize>)
        requires
            self.wf(),
        ensures
            t.wf(),
            t@ == successors_of(self@, layer, from),
    {
        let mut t: Tally<usize> = Tally::new();
        let ghost rows = self.rows@;
        assert(rows.take(0) =~= Seq::<(Transition, u64)>::empty());
        assert(t@ =~= successors_of(counts_of(rows.take(0)), layer, from));
        for i in 0..self.rows.len()
            invariant
                t.wf(),
                rows == self.rows@,
                keys_differ(rows),
                t@ == successors_of(counts_of(rows.take(i as int)), layer, from),
        {
            proof {
                counts_of_longer(rows, i as int);
            }
            let (k, n): (Transition, u64) = self.rows[i];
            if k.layer == layer && k.from == from {
                t.count(k.to, n);
            }
            assert(t@ =~= successors_of(counts_of(rows.take(i + 1)), layer, from));
        }
        assert(rows.take(rows.len() as int) =~= rows);
        t
    }
}

/// Keys are in order of their layer first, then of the expert before, then of the expert.
pub proof fn keys_go_by_layer_first(
    a: ExpertId,
    b: ExpertId,
    s: Transition,
    t: Transition,
    m: usize,
    n: usize,
)
    ensures
        a.layer < b.layer ==> a.precedes(b) && !b.precedes(a),
        a.layer == b.layer ==> (a.precedes(b) <==> a.eid < b.eid),
        s.layer < t.layer ==> s.precedes(t) && !t.precedes(s),
        s.layer == t.layer && s.from < t.from ==> s.precedes(t) && !t.precedes(s),
        s.layer == t.layer && s.from == t.from ==> (s.precedes(t) <==> s.to < t.to),
        m.precedes(n) <==> m < n,
{
}

/// Counting adds to one key alone: no other count moves, and a count that is full stays.
pub proof fn counting_adds_to_one_key<K>(m: Map<K, u64>, k: K, other: K, by: u64)
    requires
        other != k,
    ensures
        count_in(counted(m, k, by), other) == count_in(m, other),
        counted(m, k, by).dom() == m.dom().insert(k),
        count_in(m, k) + by <= u64::MAX ==> count_in(counted(m, k, by), k) == count_in(m, k) + by,
        count_in(m, k) + by > u64::MAX ==> count_in(counted(m, k, by), k) == u64::MAX,
        m.dom().contains(k) ==> count_in(m, k) == m[k],
        !m.dom().contains(k) ==> count_in(m, k) == 0,
{
}

/// Putting counts together adds them key by key, whichever comes first, and keeps every
/// key that either has.
pub proof fn putting_together_adds<K>(a: Map<K, u64>, b: Map<K, u64>, k: K)
    ensures
        merged(a, b) == merged(b, a),
        merged(a, b).dom().contains(k) <==> a.dom().contains(k) || b.dom().contains(k),
        count_in(a, k) + count_in(b, k) <= u64::MAX ==> count_in(merged(a, b), k) == count_in(a, k)
            + count_in(b, k),
        count_in(a, k) + count_in(b, k) > u64::MAX ==> count_in(merged(a, b), k) == u64::MAX,
{
    assert(merged(a, b) =~= merged(b, a));
}

/// A ranking lists every counted key once: higher counts first, and of equal counts the
/// key that precedes.
pub proof fn a_ranking_goes_by_count<K: Key>(t: Tally<K>, r: Vec<K>, i: int, j: int, k: K)
    requires
        t.wf(),
        call_ensures(Tally::<K>::ranked, (&t,), r),
        0 <= i < j < r@.len(),
    ensures
        t@[r@[i]] >= t@[r@[j]],
        t@[r@[i]] == t@[r@[j]] ==> r@[i].precedes(r@[j]),
        r@[i] != r@[j],
        r@.contains(k) <==> t@.dom().contains(k),
{
    assert(hotter(t@, r@[i], r@[j]));
}

spec fn plain_sum<K>(m: Map<K, u64>, keys: Seq<K>) -> int
    decreases keys.len(),
{
    if keys.len() == 0 {
        0
    } else {
        plain_sum(m, keys.drop_last()) + count_in(m, keys.last())
    }
}

proof fn sums_are_capped<K>(m: Map<K, u64>, keys: Seq<K>)
    ensures
        plain_sum(m, keys) >= 0,
        sum_over(m, keys) == if plain_sum(m, keys) > u64::MAX {
            u64::MAX as int
        } else {
            plain_sum(m, keys)
        },
        plain_sum(m, keys) == keys.fold_left(0int, |a: int, k: K| a + count_in(m, k)),
    decreases keys.len(),
{
    reveal(Seq::fold_left);
    if keys.len() > 0 {
        sums_are_capped(m, keys.drop_last());
    }
}

proof fn sum_without<K>(m: Map<K, u64>, keys: Seq<K>, p: int)
    requires
        0 <= p < keys.len(),
    ensures
        plain_sum(m, keys) == plain_sum(m, keys.remove(p)) + count_in(m, keys[p]),
    decreases keys.len(),
{
    if p == keys.len() - 1 {
        assert(keys.remove(p) =~= keys.drop_last());
    } else {
        sum_without(m, keys.drop_last(), p);
        let rest = keys.remove(p);
        assert(rest.drop_last() =~= keys.drop_last().remove(p));
        assert(rest.last() == keys.last());
    }
}

proof fn sums_do_not_depend_on_order<K>(m: Map<K, u64>, a: Seq<K>, b: Seq<K>)
    requires
        a.no_duplicates(),
        b.no_duplicates(),
        forall|k: K| #[trigger] a.contains(k) <==> b.contains(k),
    ensures
        plain_sum(m, a) == plain_sum(m, b),
    decreases a.len(),
{
    if a.len() == 0 {
        if b.len() > 0 {
            assert(b.contains(b[0]));
            assert(a.contains(b[0]));
        }
    } else {
        let x = a.last();
        assert(a[a.len() - 1] == x);
        assert(a.contains(x));
        let p = choose|p: int| 0 <= p < b.len() && b[p] == x;
        let front = a.drop_last();
        let rest = b.remove(p);
        assert forall|k: K| #[trigger] front.contains(k) <==> rest.contains(k) by {
            if front.contains(k) {
                let q = choose|q: int| 0 <= q < front.len() && front[q] == k;
                assert(a[q] == k);
                assert(a.contains(k));
                assert(k != x);
                let r = choose|r: int| 0 <= r < b.len() && b[r] == k;
                if r < p {
                    assert(rest[r] == k);
                } else {
                    assert(rest[r - 1] == k);
                }
            }
            if rest.contains(k) {
                let r = choose|r: int| 0 <= r < rest.len() && rest[r] == k;
                let at = if r < p {
                    r
                } else {
                    r + 1
                };
                assert(b[at] == k);
                assert(b.contains(k));
                assert(k != x);
                assert(a.contains(k));
                let q = choose|q: int| 0 <= q < a.len() && a[q] == k;
                assert(front[q] == k);
            }
        }
        assert(rest.no_duplicates());
        sums_do_not_depend_on_order(m, front, rest);
        sum_without(m, b, p);
    }
}

/// The total is the sum of all counts, in whatever order they are added, held at the
/// largest number there is.
pub proof fn a_total_is_the_sum_of_all_counts<K: Key>(t: Tally<K>, r: Vec<K>, keys: Seq<K>, n: u64)
    requires
        t.wf(),
        call_ensures(Tally::<K>::ranked, (&t,), r),
        call_ensures(Tally::<K>::total, (&t,), n),
        keys.no_duplicates(),
        forall|k: K| #[trigger] keys.contains(k) <==> t@.dom().contains(k),
    ensures
        ({
            let all = keys.fold_left(
                0int,
                |a: int, k: K| a + if t@.dom().contains(k) { t@[k] } else { 0 },
            );
            &&& all <= u64::MAX ==> n == all
            &&& all > u64::MAX ==> n == u64::MAX
        }),
{
    sums_are_capped(t@, r@);
    sums_are_capped(t@, keys);
    assert forall|k: K| #[trigger] keys.contains(k) <==> r@.contains(k) by {}
    sums_do_not_depend_on_order(t@, keys, r@);
    same_fold(t@, keys);
}

proof fn same_fold<K>(m: Map<K, u64>, keys: Seq<K>)
    ensures
        keys.fold_left(0int, |a: int, k: K| a + if m.dom().contains(k) { m[k] } else { 0 })
            == plain_sum(m, keys),
    decreases keys.len(),
{
    reveal(Seq::fold_left);
    if keys.len() > 0 {
        same_fold(m, keys.drop_last());
    }
}

/// One more key among the hottest adds its count; asking for more than there are asks for
/// all.
pub proof fn the_hottest_are_added_up<K: Key>(
    t: Tally<K>,
    r: Vec<K>,
    n: usize,
    few: u64,
    more: u64,
    all: u64,
)
    requires
        t.wf(),
        n < usize::MAX,
        call_ensures(Tally::<K>::ranked, (&t,), r),
        call_ensures(Tally::<K>::top_total, (&t, n), few),
        call_ensures(Tally::<K>::top_total, (&t, (n + 1) as usize), more),
        call_ensures(Tally::<K>::total, (&t,), all),
    ensures
        n == 0 ==> few == 0,
        n < r@.len() && more < u64::MAX ==> more == few + t@[r@[n as int]],
        n < r@.len() && more == u64::MAX ==> few + t@[r@[n as int]] >= u64::MAX,
        n >= r@.len() ==> few == all && more == all,
{
    let m = t@;
    if n < r@.len() {
        let longer = r@.take(n + 1);
        assert(longer.drop_last() =~= r@.take(n as int));
        assert(longer.last() == r@[n as int]);
        assert(r@.contains(r@[n as int]));
    } else {
        assert(r@.take(r@.len() as int) =~= r@);
    }
}

/// What was counted of a layer, or after an expert, is what was counted with it.
pub proof fn a_part_keeps_its_counts(
    t: Tally<ExpertId>,
    s: Tally<Transition>,
    layer: usize,
    from: usize,
    of: Tally<usize>,
    after: Tally<usize>,
    e: usize,
)
    requires
        t.wf(),
        s.wf(),
        call_ensures(Tally::<ExpertId>::of_layer, (&t, layer), of),
        call_ensures(Tally::<Transition>::successors, (&s, layer, from), after),
    ensures
        count_in(of@, e) == count_in(t@, ExpertId { layer, eid: e }),
        of@.dom().contains(e) <==> t@.dom().contains(ExpertId { layer, eid: e }),
        count_in(after@, e) == count_in(s@, Transition { layer, from, to: e }),
        after@.dom().contains(e) <==> s@.dom().contains(Transition { layer, from, to: e }),
{
}

/// What was counted is read back on top of what was there, and no other count moves.
pub proof fn what_was_counted_is_read_back<K: Key>(
    t: &mut Tally<K>,
    k: K,
    by: u64,
    before: u64,
    after: u64,
    other: K,
    empty: Tally<K>,
)
    requires
        old(t).wf(),
        call_ensures(Tally::<K>::get, (&*old(t), k), before),
        call_ensures(Tally::<K>::count, (t, k, by), ()),
        call_ensures(Tally::<K>::get, (&*final(t), k), after),
        call_ensures(Tally::<K>::new, (), empty),
        other != k,
    ensures
        before + by <= u64::MAX ==> after == before + by,
        before + by > u64::MAX ==> after == u64::MAX,
        count_in(final(t)@, other) == count_in(old(t)@, other),
        final(t)@.dom() == old(t)@.dom().insert(k),
        count_in(empty@, k) == 0,
{
}

/// Counts that are taken over are added key by key.
pub proof fn counts_taken_over_are_added<K: Key>(t: &mut Tally<K>, other: Tally<K>, k: K)
    requires
        old(t).wf(),
        other.wf(),
        call_ensures(Tally::<K>::absorb, (t, &other), ()),
    ensures
        count_in(old(t)@, k) + count_in(other@, k) <= u64::MAX ==> count_in(final(t)@, k)
            == count_in(old(t)@, k) + count_in(other@, k),
        count_in(old(t)@, k) + count_in(other@, k) > u64::MAX ==> count_in(final(t)@, k) == u64::MAX,
        final(t)@.dom().contains(k) <==> old(t)@.dom().contains(k) || other@.dom().contains(k),
{
}

} // verus!
