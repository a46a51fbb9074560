//! The raw key/value rows of sliding-window attention.
//!
//! Attention over a window reads the last rows only, so they are kept in a ring:
//! position `p` lies in slot `p % ring`. The ring is sized from the span that a
//! call reads back, in the same breath as the span is computed, so that no two
//! positions of a span ever share a slot.

use vstd::prelude::*;

verus! {

/// The positions that an attention call touches.
#[derive(Debug, Clone, Copy, PartialEq, Eq, Structural)]
pub struct RawSpan {
    /// The earliest position that any query of the call can reach.
    pub raw_lo: usize,
    /// One past the last position.
    pub total: usize,
    /// The window in force: the whole sequence where there is none.
    pub win: usize,
}

/// The smaller of two numbers.
pub open spec fn min_int(a: int, b: int) -> int {
    if a <= b {
        a
    } else {
        b
    }
}

/// The window in force for a sequence of `total` positions.
pub open spec fn window_of(window: i32, total: int) -> int {
    if window > 0 {
        window as int
    } else {
        total
    }
}

/// The earliest position that a query at `pos` reaches through a window of `win`.
pub open spec fn reach(pos: int, win: int) -> int {
    pos + 1 - min_int(win, pos + 1)
}

/// The span that a call with `s` tokens at `pos_base` touches.
pub open spec fn span_of(pos_base: int, s: int, window: i32) -> (int, int, int) {
    let total = pos_base + s;
    let win = window_of(window, total);
    (reach(pos_base, win), total, win)
}

/// The span that a call with `s` tokens at `pos_base` touches; a window of zero
/// or less is none.
pub fn dsv4_raw_span(pos_base: usize, s: usize, window: i32) -> (r: RawSpan)
    requires
        pos_base + s <= usize::MAX,
        pos_base < usize::MAX,
    ensures
        (r.raw_lo as int, r.total as int, r.win as int) == span_of(
            pos_base as int,
            s as int,
            window,
        ),
        r.raw_lo <= r.total || s == 0,
{
    let total: usize = pos_base + s;
    let win: usize = if window > 0 { window as usize } else { total };
    let open: usize = if win <= pos_base + 1 { win } else { pos_base + 1 };
    RawSpan { raw_lo: (pos_base + 1) - open, total, win }
}

/// A row of f32 values given by their bits.
pub type Row = Vec<u32>;

/// Raw rows by position, in a ring once a window asks for one.
pub struct RawKv {
    /// Values per row.
    width: usize,
    /// Slots of the ring; zero while rows are kept by absolute position.
    ring: usize,
    rows: Vec<Row>,
    /// The positions whose rows are still there: `lo .. hi`.
    lo: usize,
    hi: usize,
}

/// What a store of raw rows holds.
pub struct RawRows {
    pub width: nat,
    pub ring: nat,
    pub lo: nat,
    pub hi: nat,
}

proof fn slots_differ(p: int, q: int, r: int)
    requires
        r > 0,
        0 <= p,
        0 <= q,
        p != q,
        -r < p - q < r,
    ensures
        p % r != q % r,
{
    vstd::arithmetic::div_mod::lemma_fundamental_div_mod(p, r);
    vstd::arithmetic::div_mod::lemma_fundamental_div_mod(q, r);
    if p % r == q % r {
        let a = p / r;
        let b = q / r;
        assert(p - q == r * (a - b)) by (nonlinear_arith)
            requires
                p == r * a + p % r,
                q == r * b + q % r,
                p % r == q % r,
        ;
        assert(a == b) by (nonlinear_arith)
            requires
                p - q == r * (a - b),
                -r < p - q < r,
                r > 0,
        ;
    }
}

fn copy_row(r: &Row) -> (c: Row)
    ensures
        c@ == r@,
{
    let mut c: Row = Vec::new();
    for i in 0..r.len()
        invariant
            c@ == r@.take(i as int),
    {
        c.push(r[i]);
        assert(c@ =~= r@.take(i + 1));
    }
    assert(r@.take(r@.len() as int) =~= r@);
    c
}

impl View for RawKv {
    type V = RawRows;

    closed spec fn view(&self) -> RawRows {
        RawRows {
            width: self.width as nat,
            ring: self.ring as nat,
            lo: self.lo as nat,
            hi: self.hi as nat,
        }
    }
}

impl RawKv {
    spec fn slot(&self, p: int) -> int {
        if self.ring == 0 {
            p
        } else {
            p % (self.ring as int)
        }
    }

    /// The row of position `p`, while it is there.
    pub closed spec fn row_at(&self, p: int) -> Seq<u32> {
        self.rows@[self.slot(p)]@
    }

    /// No two positions that are still there share a slot.
    pub closed spec fn wf(&self) -> bool {
        &&& self.lo <= self.hi
        &&& self.ring == 0 ==> self.rows@.len() == self.hi
        &&& self.ring > 0 ==> self.rows@.len() == self.ring && self.hi - self.lo <= self.ring
        &&& forall|p: int| self.lo <= p < self.hi ==> (#[trigger] self.row_at(p)).len() == self.width
    }

    /// Whether the rows still there are those of the sequence `h`.
    pub open spec fn holds(&self, h: Seq<Seq<u32>>) -> bool {
        &&& h.len() == self@.hi
        &&& forall|p: int| self@.lo <= p < self@.hi ==> #[trigger] self.row_at(p) == h[p]
    }

    /// Whether a call that goes on where the rows end finds every row that its
    /// window reaches.
    pub open spec fn covers(&self, window: i32) -> bool {
        if window > 0 {
            self@.lo <= reach(self@.hi as int, window as int)
        } else {
            self@.lo == 0 && self@.ring == 0
        }
    }

    /// An empty store for rows of `width` values.
    pub fn new(width: usize) -> (k: RawKv)
        ensures
            k.wf(),
            k@ == (RawRows { width: width as nat, ring: 0, lo: 0, hi: 0 }),
            k.holds(Seq::empty()),
    {
        RawKv { width, ring: 0, rows: Vec::new(), lo: 0, hi: 0 }
    }

    /// Slots of the ring; zero while there is none.
    pub fn ring(&self) -> (n: usize)
        ensures
            n == self@.ring,
    {
        self.ring
    }

    /// One past the last position whose row is there.
    pub fn hi(&self) -> (n: usize)
        ensures
            n == self@.hi,
    {
        self.hi
    }

    /// Widens the ring to at least `n` slots. Rows keep their positions; a ring
    /// never shrinks, so this costs a comparison once it is wide enough.
    pub fn ring_ensure(&mut self, n: usize)
        requires
            old(self).wf(),
        ensures
            final(self).wf(),
            final(self)@.width == old(self)@.width,
            final(self)@.hi == old(self)@.hi,
            final(self)@.ring == if n > old(self)@.ring { n as nat } else { old(self)@.ring },
            final(self)@.lo == if n > old(self)@.ring && old(self)@.hi - old(self)@.lo > n {
                (old(self)@.hi - n) as nat
            } else {
                old(self)@.lo
            },
            forall|p: int|
                final(self)@.lo <= p < final(self)@.hi ==> #[trigger] final(self).row_at(p) == old(
                    self,
                ).row_at(p),
    {
        if n <= self.ring {
            return ;
        }
        let lo: usize = if self.hi - self.lo > n { self.hi - n } else { self.lo };
        let mut rows: Vec<Row> = Vec::new();
        for i in 0..n
            invariant
                rows@.len() == i,
        {
            rows.push(Vec::new());
        }
        let mut p: usize = lo;
        while p < self.hi
            invariant
                n > 0,
                self.wf(),
                *self == *old(self),
                self.lo <= lo <= p <= self.hi,
                self.hi - lo <= n,
                rows@.len() == n,
                forall|q: int| lo <= q < p ==> #[trigger] rows@[q % n as int]@ == self.row_at(q),
            decreases self.hi - p,
        {
            let from: usize = if self.ring == 0 { p } else { p % self.ring };
            let to: usize = p % n;
            assert(from == self.slot(p as int));
            let ghost before = rows@;
            rows.set(to, copy_row(&self.rows[from]));
            assert forall|q: int| lo <= q < p + 1 implies #[trigger] rows@[q % n as int]@
                == self.row_at(q) by {
                if q < p {
                    slots_differ(q, p as int, n as int);
                    assert(before[q % n as int]@ == self.row_at(q));
                }
            }
            p = p + 1;
        }
        self.rows = rows;
        self.ring = n;
        self.lo = lo;
        assert forall|q: int| self.lo <= q < self.hi implies #[trigger] self.row_at(q) == old(
            self,
        ).row_at(q) by {
            assert(rows@[q % n as int]@ == old(self).row_at(q));
        }
    }

    /// Puts the row of position `p`, which goes on where the rows end or writes
    /// over one of them; rows behind it are then void. In a full ring the oldest
    /// row makes room.
    pub fn write(&mut self, p: usize, row: Row)
        requires
            old(self).wf(),
            old(self)@.lo <= p <= old(self)@.hi,
            p < usize::MAX,
            row@.len() == old(self)@.width,
        ensures
            final(self).wf(),
            final(self)@.width == old(self)@.width,
            final(self)@.ring == old(self)@.ring,
            final(self)@.hi == p + 1,
            final(self)@.lo == if old(self)@.ring > 0 && p + 1 - old(self)@.lo > old(self)@.ring {
                (p + 1 - old(self)@.ring) as nat
            } else {
                old(self)@.lo
            },
            final(self).row_at(p as int) == row@,
            forall|q: int|
                final(self)@.lo <= q < p ==> #[trigger] final(self).row_at(q) == old(self).row_at(
                    q,
                ),
    {
        let ghost before = *self;
        let ghost written = row@;
        if self.ring == 0 {
            self.rows.truncate(p);
            self.rows.push(row);
        } else {
            let slot: usize = p % self.ring;
            self.rows.set(slot, row);
            if p + 1 - self.lo > self.ring {
                self.lo = p + 1 - self.ring;
            }
        }
        self.hi = p + 1;
        proof {
            assert forall|q: int| self.lo <= q < p implies #[trigger] self.row_at(q)
                == before.row_at(q) by {
                if self.ring > 0 {
                    slots_differ(q, p as int, self.ring as int);
                }
            }
            assert forall|q: int| self.lo <= q < self.hi implies (#[trigger] self.row_at(q)).len()
                == self.width by {
                if q < p {
                    assert(self.row_at(q) == before.row_at(q));
                } else {
                    assert(self.row_at(q) == written);
                }
            }
        }
    }

    /// The rows of positions `from .. to`, in order. In a ring they lie in one
    /// run, or in two once it has wrapped.
    pub fn read(&self, from: usize, to: usize) -> (out: Vec<Row>)
        requires
            self.wf(),
            self@.lo <= from <= to <= self@.hi,
        ensures
            out@.len() == to - from,
            forall|i: int| 0 <= i < out@.len() ==> (#[trigger] out@[i])@ == self.row_at(from + i),
    {
        let mut out: Vec<Row> = Vec::new();
        let mut p: usize = from;
        while p < to
            invariant
                self.wf(),
                self@.lo <= from <= p <= to <= self@.hi,
                out@.len() == p - from,
                forall|i: int|
                    0 <= i < out@.len() ==> (#[trigger] out@[i])@ == self.row_at(from + i),
            decreases to - p,
        {
            let slot: usize = if self.ring == 0 { p } else { p % self.ring };
            assert(slot == self.slot(p as int));
            out.push(copy_row(&self.rows[slot]));
            p = p + 1;
        }
        out
    }

    /// One attention call over `rows` new rows: sizes the ring for the span that
    /// the call reads, writes the rows, and reads the span back. Whatever rows
    /// came before, what is read is what a store without a ring would give.
    pub fn attend(&mut self, rows: &Vec<Row>, window: i32) -> (keys: Vec<Row>)
        requires
            old(self).wf(),
            old(self).covers(window),
            rows@.len() > 0 || window > 0 || old(self)@.hi > 0,
            old(self)@.hi + rows@.len() < usize::MAX,
            forall|i: int| 0 <= i < rows@.len() ==> (#[trigger] rows@[i])@.len() == old(self)@.width,
        ensures
            final(self).wf(),
            final(self).covers(window),
            final(self)@.width == old(self)@.width,
            final(self)@.hi == old(self)@.hi + rows@.len(),
            ({
                let (lo, total, _) = span_of(old(self)@.hi as int, rows@.len() as int, window);
                &&& keys@.len() == total - lo
                &&& final(self)@.ring == if window > 0 && total - lo > old(self)@.ring {
                    (total - lo) as nat
                } else {
                    old(self)@.ring
                }
                &&& forall|h: Seq<Seq<u32>>| #[trigger]
                    old(self).holds(h) ==> {
                        let all = h + rows@.map_values(|r: Row| r@);
                        &&& final(self).holds(all)
                        &&& forall|i: int|
                            0 <= i < keys@.len() ==> (#[trigger] keys@[i])@ == all[lo + i]
                    }
            }),
    {
        let pos_base: usize = self.hi;
        let s: usize = rows.len();
        let span: RawSpan = dsv4_ring_for(self, pos_base, s, window);
        let ghost sized = *self;
        let ghost texts = rows@.map_values(|r: Row| r@);
        assert(self@.lo <= span.raw_lo);
        for i in 0..s
            invariant
                s == rows@.len(),
                texts == rows@.map_values(|r: Row| r@),
                pos_base + s < usize::MAX,
                forall|j: int| 0 <= j < s ==> (#[trigger] rows@[j])@.len() == sized@.width,
                self.wf(),
                self@.hi == pos_base + i,
                self@.width == sized@.width,
                self@.ring == sized@.ring,
                self@.lo <= span.raw_lo <= pos_base,
                sized@.lo <= self@.lo,
                window > 0 ==> self@.ring >= span.total - span.raw_lo,
                window <= 0 ==> self@.lo == 0 && self@.ring == 0,
                span.total == pos_base + s,
                sized@.hi == pos_base,
                forall|p: int|
                    self@.lo <= p < pos_base ==> #[trigger] self.row_at(p) == sized.row_at(p),
                forall|p: int|
                    pos_base <= p < pos_base + i && self@.lo <= p ==> #[trigger] self.row_at(p)
                        == texts[p - pos_base],
        {
            let ghost before = *self;
            self.write(pos_base + i, copy_row(&rows[i]));
            proof {
                assert forall|p: int|
                    pos_base <= p < pos_base + i + 1 && self@.lo <= p implies #[trigger] self.row_at(
                    p,
                ) == texts[p - pos_base] by {
                    if p < pos_base + i {
                        assert(self.row_at(p) == before.row_at(p));
                    }
                }
                assert forall|p: int| self@.lo <= p < pos_base implies #[trigger] self.row_at(p)
                    == sized.row_at(p) by {
                    assert(self.row_at(p) == before.row_at(p));
                }
            }
        }
        let keys: Vec<Row> = self.read(span.raw_lo, span.total);
        proof {
            let lo = span.raw_lo as int;
            assert forall|h: Seq<Seq<u32>>| #[trigger] old(self).holds(h) implies {
                let all = h + texts;
                &&& self.holds(all)
                &&& forall|i: int| 0 <= i < keys@.len() ==> (#[trigger] keys@[i])@ == all[lo + i]
            } by {
                let all = h + texts;
                assert forall|p: int| self@.lo <= p < self@.hi implies #[trigger] self.row_at(p)
                    == all[p] by {
                    if p < pos_base {
                        assert(self.row_at(p) == sized.row_at(p));
                        assert(sized.row_at(p) == old(self).row_at(p));
                    }
                }
                assert forall|i: int| 0 <= i < keys@.len() implies (#[trigger] keys@[i])@ == all[lo
                    + i] by {
                    assert(self.row_at(lo + i) == all[lo + i]);
                }
            }
        }
        keys
    }
}

/// The span of a call, with the ring widened to hold it. Without a window rows
/// stay where their position puts them.
pub fn dsv4_ring_for(kv: &mut RawKv, pos_base: usize, s: usize, window: i32) -> (r: RawSpan)
    requires
        old(kv).wf(),
        pos_base + s <= usize::MAX,
        pos_base < usize::MAX,
        s > 0 || window > 0 || pos_base > 0,
    ensures
        final(kv).wf(),
        (r.raw_lo as int, r.total as int, r.win as int) == span_of(
            pos_base as int,
            s as int,
            window,
        ),
        r.raw_lo <= pos_base,
        final(kv)@.width == old(kv)@.width,
        final(kv)@.hi == old(kv)@.hi,
        final(kv)@.ring == if window > 0 && r.total - r.raw_lo > old(kv)@.ring {
            (r.total - r.raw_lo) as nat
        } else {
            old(kv)@.ring
        },
        final(kv)@.lo == if window > 0 && r.total - r.raw_lo > old(kv)@.ring && old(kv)@.hi - old(kv)@.lo > r.total - r.raw_lo {
            (old(kv)@.hi - (r.total - r.raw_lo)) as nat
        } else {
            old(kv)@.lo
        },
        forall|p: int|
            final(kv)@.lo <= p < final(kv)@.hi ==> #[trigger] final(kv).row_at(p) == old(kv).row_at(
                p,
            ),
{
    let span: RawSpan = dsv4_raw_span(pos_base, s, window);
    if window > 0 {
        kv.ring_ensure(span.total - span.raw_lo);
    }
    span
}

/// A call reads no more rows than its own tokens and the rest of one window, and
/// a single step no more than the window: the ring stays that small however long
/// the sequence gets.
pub proof fn a_span_is_bounded_by_the_window(pos_base: int, s: int, window: i32)
    requires
        pos_base >= 0,
        s >= 1,
        window > 0,
    ensures
        ({
            let (lo, total, _) = span_of(pos_base, s, window);
            &&& total - lo <= s + window - 1
            &&& s == 1 ==> total - lo <= window
            &&& pos_base == 0 ==> total - lo == s
        }),
{
}

/// Every position that a query of the call may see lies in the span.
pub proof fn the_span_holds_every_window(pos_base: int, s: int, window: i32, i: int)
    requires
        pos_base >= 0,
        0 <= i < s,
    ensures
        ({
            let (lo, total, win) = span_of(pos_base, s, window);
            lo <= reach(pos_base + i, win) && pos_base + i < total
        }),
{
}

/// What a window of `win` rows reaches from `pos`: of the positions up to it exactly
/// the last `win`. No window reaches all.
pub proof fn a_window_is_the_last_positions(pos: int, window: i32, total: int, q: int)
    requires
        0 <= q <= pos < total,
    ensures
        reach(pos, window_of(window, total)) <= q <==> window <= 0 || pos - q < window,
        0 <= reach(pos, window_of(window, total)) <= pos + 1,
{
}

/// The span of a call: it ends with the call's last token and begins where the window
/// of its first one does.
pub proof fn a_span_is_what_its_queries_reach(pos_base: int, s: int, window: i32, q: int)
    requires
        pos_base >= 0,
        s > 0,
    ensures
        ({
            let (lo, total, win) = span_of(pos_base, s, window);
            &&& total == pos_base + s
            &&& 0 <= lo <= pos_base
            &&& 0 <= q < total ==> (lo <= q <==> exists|i: int|
                0 <= i < s && q <= #[trigger] (pos_base + i) && (window <= 0 || pos_base + i - q
                    < window))
        }),
{
    let (lo, total, win) = span_of(pos_base, s, window);
    if 0 <= q < total {
        if lo <= q {
            let i = if q <= pos_base {
                0
            } else {
                q - pos_base
            };
            assert(q <= pos_base + i && (window <= 0 || pos_base + i - q < window));
        }
    }
}

/// A row that was written is read back, and so are the rows before it that are still
/// there; those behind it are gone. A ring keeps as many rows as it has room for.
pub proof fn a_written_row_is_read_back(
    kv: &mut RawKv,
    p: usize,
    row: Row,
    from: usize,
    to: usize,
    out: Vec<Row>,
    q: int,
)
    requires
        old(kv).wf(),
        old(kv)@.lo <= p <= old(kv)@.hi,
        p < usize::MAX,
        row@.len() == old(kv)@.width,
        call_ensures(RawKv::write, (kv, p, row), ()),
        final(kv)@.lo <= from <= to <= final(kv)@.hi,
        call_ensures(RawKv::read, (&*final(kv), from, to), out),
        from <= q < to,
    ensures
        out@.len() == to - from,
        q == p ==> out@[q - from]@ == row@,
        q < p ==> out@[q - from]@ == old(kv).row_at(q),
        q <= p,
        final(kv)@.hi == p + 1,
        old(kv)@.ring == 0 ==> final(kv)@.lo == old(kv)@.lo,
        old(kv)@.ring > 0 ==> final(kv)@.lo == old(kv)@.lo || final(kv)@.hi - final(kv)@.lo == old(kv)@.ring,
        old(kv)@.ring > 0 ==> final(kv)@.hi - final(kv)@.lo <= old(kv)@.ring,
        final(kv)@.ring == old(kv)@.ring,
{
    assert(out@[q - from]@ == final(kv).row_at(q));
}

/// Making the ring larger loses nothing that it has room for, and a ring never becomes
/// smaller.
pub proof fn a_larger_ring_keeps_the_latest_rows(kv: &mut RawKv, n: usize, q: int)
    requires
        old(kv).wf(),
        call_ensures(RawKv::ring_ensure, (kv, n), ()),
        old(kv)@.hi - n <= q < old(kv)@.hi,
        old(kv)@.lo <= q,
    ensures
        final(kv)@.lo <= q < final(kv)@.hi,
        final(kv).row_at(q) == old(kv).row_at(q),
        final(kv)@.ring >= n && final(kv)@.ring >= old(kv)@.ring,
        final(kv)@.ring == n || final(kv)@.ring == old(kv)@.ring,
        final(kv)@.hi == old(kv)@.hi,
{
}

/// A call's keys are the latest rows, its own among them: without a window all rows there
/// ever were, with one its own and as many before them as its first token's window still
/// reaches.
pub proof fn keys_are_the_latest_rows(
    kv: &mut RawKv,
    rows: Vec<Row>,
    window: i32,
    keys: Vec<Row>,
    h: Seq<Seq<u32>>,
    i: int,
)
    requires
        old(kv).wf(),
        old(kv).covers(window),
        rows@.len() > 0,
        old(kv)@.hi + rows@.len() < usize::MAX,
        forall|i: int| 0 <= i < rows@.len() ==> (#[trigger] rows@[i])@.len() == old(kv)@.width,
        call_ensures(RawKv::attend, (kv, &rows, window), keys),
        old(kv).holds(h),
        0 <= i < keys@.len(),
    ensures
        ({
            let all = h + rows@.map_values(|r: Row| r@);
            let before = keys@.len() - rows@.len();
            &&& final(kv).holds(all)
            &&& keys@[i]@ == all[all.len() - keys@.len() + i]
            &&& window <= 0 ==> before == h.len()
            &&& window > 0 && h.len() < window ==> before == h.len()
            &&& window > 0 && h.len() >= window ==> before == window - 1
        }),
        window > 0 ==> final(kv)@.ring >= keys@.len(),
{
}

} // verus!
