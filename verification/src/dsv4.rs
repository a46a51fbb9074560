//! Attention over a sliding window and compressed context.
//!
//! Keys are the raw rows of a sliding window and, for everything older, rows
//! that a compressor pools from `ratio` tokens each. An indexer picks which
//! compressed rows a query attends to once there are more than it may keep.

use vstd::prelude::*;
use crate::capacity::div_up;
use crate::dsa::{is_above, keys_of, select_topk, the_best_scored_are_selected};
use crate::order::is_top;
use crate::ring::{
    a_span_is_bounded_by_the_window, dsv4_raw_span, min_int, reach, span_of,
    the_span_holds_every_window, window_of, RawKv, RawSpan, Row,
};
use crate::tally::sum_capped;

verus! {

/// The compression ratio of the layers that have an indexer.
pub const INDEXED_RATIO: usize = 4;

/// Tokens per prefill call: as many as the budget for raw rows allows, and all of
/// them where they fit. A configured size overrides that; zero never splits.
pub open spec fn prefill_chunk(
    configured: Option<usize>,
    row_bytes: int,
    budget_bytes: int,
    window: i32,
    s: int,
) -> int {
    match configured {
        Some(n) => if n == 0 {
            usize::MAX as int
        } else {
            n as int
        },
        None => {
            let row = if row_bytes < 1 { 1 } else { row_bytes };
            let least = if window < 1 { 1 } else { window as int };
            let rows = if budget_bytes / row < least { least } else { budget_bytes / row };
            if s <= rows {
                usize::MAX as int
            } else {
                rows
            }
        },
    }
}

/// Tokens per prefill call for a prompt of `s` tokens.
pub fn dsv4_prefill_chunk(
    configured: Option<usize>,
    row_bytes: usize,
    budget_bytes: usize,
    window: i32,
    s: usize,
) -> (chunk: usize)
    ensures
        chunk == prefill_chunk(
            configured,
            row_bytes as int,
            budget_bytes as int,
            window,
            s as int,
        ),
        chunk >= 1,
{
    match configured {
        Some(n) => if n == 0 {
            usize::MAX
        } else {
            n
        },
        None => {
            let row: usize = if row_bytes < 1 { 1 } else { row_bytes };
            let least: usize = if window < 1 { 1 } else { window as usize };
            let fit: usize = budget_bytes / row;
            let rows: usize = if fit < least { least } else { fit };
            if s <= rows {
                usize::MAX
            } else {
                rows
            }
        },
    }
}

/// A prompt that fits the budget runs in one call; one that does not is split as
/// coarsely as the budget allows.
pub proof fn prompts_are_split_only_over_budget(
    row_bytes: int,
    budget_bytes: int,
    window: i32,
    s: int,
)
    requires
        row_bytes > 0,
        0 <= budget_bytes <= usize::MAX,
        0 <= s <= usize::MAX,
    ensures
        s * row_bytes <= budget_bytes ==> prefill_chunk(None, row_bytes, budget_bytes, window, s)
            == usize::MAX,
        prefill_chunk(None, row_bytes, budget_bytes, window, s) < usize::MAX ==> {
            let chunk = prefill_chunk(None, row_bytes, budget_bytes, window, s);
            &&& s > chunk
            &&& chunk >= window
            &&& chunk == window || chunk == 1 || chunk * row_bytes <= budget_bytes < (chunk + 1)
                * row_bytes
        },
{
    let q = budget_bytes / row_bytes;
    vstd::arithmetic::div_mod::lemma_fundamental_div_mod(budget_bytes, row_bytes);
    assert(q * row_bytes == row_bytes * q) by (nonlinear_arith);
    assert((q + 1) * row_bytes == row_bytes * q + row_bytes) by (nonlinear_arith);
    if s * row_bytes <= budget_bytes {
        assert(s <= q) by (nonlinear_arith)
            requires
                s * row_bytes <= budget_bytes,
                budget_bytes < row_bytes * q + row_bytes,
                row_bytes > 0,
        ;
    }
}

/// One call of a split prefill: `n` tokens from `off` on.
#[derive(Debug, Clone, Copy, PartialEq, Eq, Structural)]
pub struct Slice {
    pub off: usize,
    pub n: usize,
}

/// Whether `plan` splits `s` tokens into calls of `chunk`: one call where they
/// fit, else full calls and what is left.
pub open spec fn is_split(plan: Seq<Slice>, s: int, chunk: int) -> bool {
    if s <= chunk {
        plan.len() == 1 && plan[0].off == 0 && plan[0].n == s
    } else {
        &&& plan.len() == div_up(s, chunk)
        &&& forall|k: int|
            0 <= k < plan.len() ==> (#[trigger] plan[k]).off == k * chunk && plan[k].n == min_int(
                chunk,
                s - k * chunk,
            ) && plan[k].n > 0
    }
}

/// The calls of a prefill of `s` tokens, at most `chunk` each.
pub fn dsv4_forward_chunked(s: usize, chunk: usize) -> (plan: Vec<Slice>)
    ensures
        is_split(plan@, s as int, if chunk < 1 { 1 } else { chunk as int }),
{
    let chunk: usize = if chunk < 1 { 1 } else { chunk };
    let mut plan: Vec<Slice> = Vec::new();
    if s <= chunk {
        plan.push(Slice { off: 0, n: s });
        return plan;
    }
    let mut off: usize = 0;
    assert(0 * chunk == 0) by (nonlinear_arith);
    while off < s
        invariant
            0 < chunk < s,
            off <= s,
            off < s ==> off == plan@.len() * chunk,
            off == s ==> plan@.len() == div_up(s as int, chunk as int),
            forall|k: int|
                0 <= k < plan@.len() ==> (#[trigger] plan@[k]).off == k * chunk && plan@[k].n
                    == min_int(chunk as int, s - k * chunk) && plan@[k].n > 0,
        decreases s - off,
    {
        let left: usize = s - off;
        let n: usize = if chunk <= left { chunk } else { left };
        let ghost k = plan@.len() as int;
        plan.push(Slice { off, n });
        off = off + n;
        proof {
            assert((k + 1) * chunk == k * chunk + chunk) by (nonlinear_arith);
            if off == s {
                assert(s + chunk - 1 == (k + 1) * chunk + (n - 1));
                vstd::arithmetic::div_mod::lemma_fundamental_div_mod_converse(
                    s + chunk - 1,
                    chunk as int,
                    k + 1,
                    n - 1,
                );
            }
        }
    }
    plan
}

/// The calls cover every token once: the first begins at zero, each begins where
/// the one before ends, and the last ends at the last token.
pub proof fn calls_cover_the_prompt(plan: Seq<Slice>, s: int, chunk: int, k: int)
    requires
        is_split(plan, s, chunk),
        s >= 0,
        chunk >= 1,
        0 <= k < plan.len(),
    ensures
        plan.len() > 0,
        plan[0].off == 0,
        k + 1 < plan.len() ==> plan[k + 1].off == plan[k].off + plan[k].n,
        k + 1 == plan.len() ==> plan[k].off + plan[k].n == s,
        plan[k].n <= chunk,
{
    if s > chunk {
        let n = plan.len() as int;
        vstd::arithmetic::div_mod::lemma_fundamental_div_mod(s + chunk - 1, chunk);
        assert(n * chunk <= s + chunk - 1 && s + chunk - 1 < n * chunk + chunk) by (nonlinear_arith)
            requires
                s + chunk - 1 == chunk * n + (s + chunk - 1) % chunk,
                0 <= (s + chunk - 1) % chunk < chunk,
        ;
        assert((k + 1) * chunk == k * chunk + chunk) by (nonlinear_arith);
        assert(0 * chunk == 0) by (nonlinear_arith);
        if k + 1 < n {
            assert((k + 2) * chunk <= n * chunk) by (nonlinear_arith)
                requires
                    k + 2 <= n,
                    chunk > 0,
            ;
            assert((k + 2) * chunk == (k + 1) * chunk + chunk) by (nonlinear_arith);
        }
    }
}

/// However long the prompt is, each call of a split prefill reads back at most a
/// window and a call of rows: that bounds the ring.
pub proof fn a_split_prefill_keeps_the_ring_small(
    plan: Seq<Slice>,
    s: int,
    chunk: int,
    k: int,
    pos_base: int,
    window: i32,
)
    requires
        is_split(plan, s, chunk),
        s >= 1,
        chunk >= 1,
        0 <= k < plan.len(),
        pos_base >= 0,
        window > 0,
    ensures
        ({
            let (lo, total, _) = span_of(pos_base + plan[k].off, plan[k].n as int, window);
            total - lo <= window + chunk - 1
        }),
{
    calls_cover_the_prompt(plan, s, chunk, k);
    a_span_is_bounded_by_the_window(pos_base + plan[k].off, plan[k].n as int, window);
}

/// Compressed rows that the query at position `p` may see: those whose tokens
/// have all come.
pub open spec fn closed_rows(p: int, ratio: int, n_comp: int) -> int {
    if ratio > 0 {
        min_int((p + 1) / ratio, n_comp)
    } else {
        0
    }
}

/// Compressed rows that a query may see.
pub fn comp_avail(p: usize, ratio: usize, n_comp: usize) -> (n: usize)
    requires
        p < usize::MAX,
    ensures
        n == closed_rows(p as int, ratio as int, n_comp as int),
{
    if ratio > 0 {
        let closed: usize = (p + 1) / ratio;
        if closed <= n_comp {
            closed
        } else {
            n_comp
        }
    } else {
        0
    }
}

/// A compressed row is never seen before its last token: row `t` pools the tokens
/// `t * ratio .. (t + 1) * ratio`.
pub proof fn compressed_rows_are_causal(p: int, ratio: int, n_comp: int, t: int)
    requires
        p >= 0,
        ratio > 0,
        0 <= t < closed_rows(p, ratio, n_comp),
    ensures
        (t + 1) * ratio <= p + 1,
{
    vstd::arithmetic::div_mod::lemma_fundamental_div_mod(p + 1, ratio);
    let q = (p + 1) / ratio;
    assert((t + 1) * ratio <= q * ratio) by (nonlinear_arith)
        requires
            t + 1 <= q,
            ratio > 0,
    ;
    assert(q * ratio == ratio * q) by (nonlinear_arith);
}

/// The position at which the `bi`-th row of a call is placed when `base` rows were
/// there before the call: that of its first token.
pub fn block_position(base: usize, bi: usize, ratio: usize) -> (p: usize)
    requires
        (base + bi) * ratio <= usize::MAX,
        base + bi <= usize::MAX,
    ensures
        p == (base + bi) * ratio,
{
    (base + bi) * ratio
}

/// Whether the compressor pools all of a call's tokens at once. It does so only
/// where the sequence begins; later it goes token by token, since the block that a
/// call begins in may have been begun by the call before.
pub fn pools_whole_batch(pos_base: usize) -> (b: bool)
    ensures
        b == (pos_base == 0),
{
    pos_base == 0
}

/// Compressed rows that a call over the positions `pos_base .. pos_base + s`
/// emits: one for each block of `ratio` tokens that ends in it.
pub open spec fn emitted_rows(pos_base: int, s: int, ratio: int) -> int {
    if ratio > 0 {
        (pos_base + s) / ratio - pos_base / ratio
    } else {
        0
    }
}

/// Compressed rows that a call of `s` tokens from `pos_base` on emits.
pub fn rows_emitted(pos_base: usize, s: usize, ratio: usize) -> (n: usize)
    requires
        pos_base + s <= usize::MAX,
    ensures
        n == emitted_rows(pos_base as int, s as int, ratio as int),
        n <= s,
{
    if ratio == 0 {
        return 0;
    }
    proof {
        vstd::arithmetic::div_mod::lemma_div_is_ordered(
            pos_base as int,
            pos_base + s,
            ratio as int,
        );
        let a = pos_base as int / ratio as int;
        let b = (pos_base + s) / ratio as int;
        vstd::arithmetic::div_mod::lemma_fundamental_div_mod(pos_base as int, ratio as int);
        vstd::arithmetic::div_mod::lemma_fundamental_div_mod(pos_base + s, ratio as int);
        assert(b - a <= s) by (nonlinear_arith)
            requires
                pos_base == ratio * a + pos_base as int % ratio as int,
                pos_base + s == ratio * b + (pos_base + s) % ratio as int,
                0 <= pos_base as int % ratio as int,
                pos_base as int % (ratio as int) < ratio,
                0 <= (pos_base + s) % ratio as int,
                a <= b,
                ratio >= 1,
                s >= 0,
        ;
    }
    (pos_base + s) / ratio - pos_base / ratio
}

/// Where the rows that a call emits are placed: each at the first token of its
/// block, counted on from the rows that were there.
pub open spec fn row_places(pos_base: int, s: int, ratio: int) -> Seq<int> {
    Seq::new(
        emitted_rows(pos_base, s, ratio) as nat,
        |bi: int| (pos_base / ratio + bi) * ratio,
    )
}

/// Where the rows of the first `n` calls of a split prefill are placed.
pub open spec fn places_of_calls(plan: Seq<Slice>, pos_base: int, ratio: int, n: nat) -> Seq<int>
    decreases n,
{
    if n == 0 {
        Seq::empty()
    } else {
        places_of_calls(plan, pos_base, ratio, (n - 1) as nat) + row_places(
            pos_base + plan[n - 1].off,
            plan[n - 1].n as int,
            ratio,
        )
    }
}

/// Two calls emit the rows, and at the places, that one call over all their tokens
/// emits.
pub proof fn emitted_rows_do_not_depend_on_the_split(pos_base: int, a: int, b: int, ratio: int)
    requires
        pos_base >= 0,
        a >= 0,
        b >= 0,
        ratio >= 0,
    ensures
        emitted_rows(pos_base, a, ratio) >= 0,
        emitted_rows(pos_base, a, ratio) + emitted_rows(pos_base + a, b, ratio) == emitted_rows(
            pos_base,
            a + b,
            ratio,
        ),
        row_places(pos_base, a, ratio) + row_places(pos_base + a, b, ratio) == row_places(
            pos_base,
            a + b,
            ratio,
        ),
{
    if ratio > 0 {
        vstd::arithmetic::div_mod::lemma_div_is_ordered(pos_base, pos_base + a, ratio);
        vstd::arithmetic::div_mod::lemma_div_is_ordered(pos_base + a, pos_base + a + b, ratio);
    }
    assert(row_places(pos_base, a, ratio) + row_places(pos_base + a, b, ratio) =~= row_places(
        pos_base,
        a + b,
        ratio,
    ));
}

/// A token at a time, a row is emitted exactly where a block ends.
pub proof fn a_row_is_emitted_where_a_block_ends(p: int, ratio: int)
    requires
        p >= 0,
        ratio > 0,
    ensures
        emitted_rows(p, 1, ratio) == if (p + 1) % ratio == 0 {
            1int
        } else {
            0
        },
{
    let a = p / ratio;
    let b = (p + 1) / ratio;
    let r = p % ratio;
    let q = (p + 1) % ratio;
    vstd::arithmetic::div_mod::lemma_fundamental_div_mod(p, ratio);
    vstd::arithmetic::div_mod::lemma_fundamental_div_mod(p + 1, ratio);
    assert(q == 0 ==> b == a + 1) by (nonlinear_arith)
        requires
            p == ratio * a + r,
            p + 1 == ratio * b + q,
            0 <= r < ratio,
            0 <= q < ratio,
    ;
    assert(q != 0 ==> b == a) by (nonlinear_arith)
        requires
            p == ratio * a + r,
            p + 1 == ratio * b + q,
            0 <= r < ratio,
            0 <= q < ratio,
    ;
}

proof fn calls_emit_a_prefix(
    plan: Seq<Slice>,
    s: int,
    chunk: int,
    pos_base: int,
    ratio: int,
    n: nat,
)
    requires
        is_split(plan, s, chunk),
        s >= 0,
        chunk >= 1,
        pos_base >= 0,
        ratio >= 0,
        0 < n <= plan.len(),
    ensures
        places_of_calls(plan, pos_base, ratio, n) == row_places(
            pos_base,
            plan[n - 1].off + plan[n - 1].n,
            ratio,
        ),
    decreases n,
{
    let k = n - 1;
    calls_cover_the_prompt(plan, s, chunk, k);
    if k == 0 {
        assert(places_of_calls(plan, pos_base, ratio, 0) =~= Seq::<int>::empty());
        assert(places_of_calls(plan, pos_base, ratio, 1) =~= row_places(
            pos_base,
            plan[0].n as int,
            ratio,
        ));
    } else {
        calls_emit_a_prefix(plan, s, chunk, pos_base, ratio, k as nat);
        calls_cover_the_prompt(plan, s, chunk, k - 1);
        emitted_rows_do_not_depend_on_the_split(
            pos_base,
            plan[k].off as int,
            plan[k].n as int,
            ratio,
        );
    }
}

/// A prefill in calls emits the rows, and at the places, that it emits in one
/// call.
pub proof fn a_split_prefill_emits_the_same_rows(
    plan: Seq<Slice>,
    s: int,
    chunk: int,
    pos_base: int,
    ratio: int,
)
    requires
        is_split(plan, s, chunk),
        s >= 0,
        chunk >= 1,
        pos_base >= 0,
        ratio >= 0,
    ensures
        places_of_calls(plan, pos_base, ratio, plan.len()) == row_places(pos_base, s, ratio),
{
    assert(plan.len() > 0) by {
        if s > chunk {
            vstd::arithmetic::div_mod::lemma_div_non_zero(s + chunk - 1, chunk);
        }
    }
    let k = plan.len() - 1;
    calls_cover_the_prompt(plan, s, chunk, k);
    calls_emit_a_prefix(plan, s, chunk, pos_base, ratio, plan.len());
}

/// Once a call has run, the compressed rows there are those that its last query may
/// see: every closed block has its row.
pub proof fn every_closed_block_has_its_row(pos_base: int, s: int, ratio: int)
    requires
        pos_base >= 0,
        s > 0,
        ratio > 0,
    ensures
        ({
            let there = pos_base / ratio + emitted_rows(pos_base, s, ratio);
            closed_rows(pos_base + s - 1, ratio, there) == there
        }),
{
}

/// Whether the rotation table, `half` values to a position, reaches position `p`. A
/// compressed row behind its end is kept unrotated.
pub fn rope_reaches(p: usize, half: usize, table: usize) -> (b: bool)
    ensures
        b == ((p + 1) * half <= table),
{
    proof {
        assert((p + 1) * half <= u128::MAX && (p + 1) * half >= 0) by (nonlinear_arith)
            requires
                0 <= p <= 0xffff_ffff_ffff_ffff,
                0 <= half <= 0xffff_ffff_ffff_ffff,
        ;
    }
    (p as u128 + 1) * half as u128 <= table as u128
}

/// Whether the indexer selects, and if not, why.
#[derive(Debug, Clone, Copy, PartialEq, Eq, Structural)]
pub enum Indexer {
    Active,
    /// Switched off, or a layer without compression.
    Off,
    /// The layer has no indexer.
    NoWeights,
    /// The layer has an indexer without its compressor.
    NoCompressor,
    /// There is no place for the indexer's own rows.
    NotReady,
    /// The indexer's compressor has not emitted a row yet.
    NoRows,
}

/// What the indexer's state depends on.
#[derive(Debug, Clone, Copy, PartialEq, Eq, Structural)]
pub struct IndexerSetup {
    pub enabled: bool,
    pub ratio: usize,
    pub has_query_weights: bool,
    pub has_compressor: bool,
    pub ready: bool,
    /// Rows that the indexer's own compressor has emitted, this call's included.
    pub rows: usize,
}

impl IndexerSetup {
    /// Whether the indexer selects, and if not, the first reason.
    pub open spec fn indexer(self) -> Indexer {
        if !self.enabled || self.ratio == 0 {
            Indexer::Off
        } else if !self.has_query_weights {
            Indexer::NoWeights
        } else if !self.has_compressor {
            Indexer::NoCompressor
        } else if !self.ready {
            Indexer::NotReady
        } else if self.rows == 0 {
            Indexer::NoRows
        } else {
            Indexer::Active
        }
    }

    /// Whether the indexer selects, and if not, why.
    pub fn status(self) -> (i: Indexer)
        ensures
            i == self.indexer(),
    {
        if !self.enabled || self.ratio == 0 {
            Indexer::Off
        } else if !self.has_query_weights {
            Indexer::NoWeights
        } else if !self.has_compressor {
            Indexer::NoCompressor
        } else if !self.ready {
            Indexer::NotReady
        } else if self.rows == 0 {
            Indexer::NoRows
        } else {
            Indexer::Active
        }
    }

    /// Whether an indexer that does not select is a fault: only layers of one
    /// ratio have one.
    pub fn is_fault(self) -> (b: bool)
        ensures
            b == (self.ratio == INDEXED_RATIO && self.enabled && self.indexer()
                != Indexer::Active),
    {
        self.ratio == INDEXED_RATIO && self.enabled && self.status() != Indexer::Active
    }
}

/// How much the indexer pruned.
#[derive(Debug, Clone, Copy, PartialEq, Eq, Structural)]
pub struct IndexerStats {
    /// Queries that were scored.
    pub scored: u64,
    /// Rows that they could have attended to.
    pub seen: u64,
    /// Rows that they kept.
    pub kept: u64,
    /// Queries that kept everything without scoring.
    pub skipped: u64,
    /// The most rows that such a query kept.
    pub skip_max: u64,
}

impl IndexerStats {
    /// Nothing counted.
    pub fn new() -> (s: IndexerStats)
        ensures
            s == (IndexerStats { scored: 0, seen: 0, kept: 0, skipped: 0, skip_max: 0 }),
    {
        IndexerStats { scored: 0, seen: 0, kept: 0, skipped: 0, skip_max: 0 }
    }

    /// Queries scored, rows they could have attended to, rows they kept. All zero
    /// means that nothing was ever scored.
    pub fn dsv4_indexer_stats(&self) -> (r: (u64, u64, u64))
        ensures
            r == (self.scored, self.seen, self.kept),
    {
        (self.scored, self.seen, self.kept)
    }

    /// Queries that kept everything, and the most rows one of them kept.
    pub fn dsv4_indexer_skips(&self) -> (r: (u64, u64))
        ensures
            r == (self.skipped, self.skip_max),
    {
        (self.skipped, self.skip_max)
    }

    /// The counts after a query with `avail` rows to choose from.
    pub open spec fn after_query(self, avail: nat, topk: nat) -> IndexerStats {
        if avail == 0 {
            self
        } else if topk == 0 || avail <= topk {
            IndexerStats {
                skipped: sum_capped(self.skipped, 1),
                skip_max: if avail as u64 > self.skip_max { avail as u64 } else { self.skip_max },
                ..self
            }
        } else {
            IndexerStats {
                scored: sum_capped(self.scored, 1),
                seen: sum_capped(self.seen, avail as u64),
                kept: sum_capped(self.kept, topk as u64),
                ..self
            }
        }
    }

    fn count(&mut self, avail: usize, topk: usize)
        ensures
            *final(self) == old(self).after_query(avail as nat, topk as nat),
    {
        if avail == 0 {
            return ;
        }
        if topk == 0 || avail <= topk {
            self.skipped = self.skipped.saturating_add(1);
            if avail as u64 > self.skip_max {
                self.skip_max = avail as u64;
            }
        } else {
            self.scored = self.scored.saturating_add(1);
            self.seen = self.seen.saturating_add(avail as u64);
            self.kept = self.kept.saturating_add(topk as u64);
        }
    }
}

/// All numbers below `n`.
pub open spec fn below(n: nat) -> Seq<usize> {
    Seq::new(n, |i: int| i as usize)
}

fn numbers_below(n: usize) -> (v: Vec<usize>)
    ensures
        v@ == below(n as nat),
{
    let mut v: Vec<usize> = Vec::new();
    for i in 0..n
        invariant
            v@ == below(i as nat),
    {
        v.push(i);
        assert(v@ =~= below((i + 1) as nat));
    }
    v
}

/// One attention call's choice of compressed rows.
#[derive(Debug, Clone, Copy, PartialEq, Eq, Structural)]
pub struct CompressCall {
    pub setup: IndexerSetup,
    /// Compressed rows there are.
    pub n_comp: usize,
    /// Position of the first query.
    pub pos_base: usize,
    /// Rows that the indexer keeps per query; zero keeps all.
    pub topk: usize,
}

impl CompressCall {
    /// Rows that query `i` could attend to.
    pub open spec fn choices(self, i: int) -> int {
        let closed = closed_rows(
            self.pos_base + i,
            self.setup.ratio as int,
            self.n_comp as int,
        );
        if self.setup.indexer() == Indexer::Active {
            min_int(closed, self.setup.rows as int)
        } else {
            closed
        }
    }

    /// Whether query `i` is scored.
    pub open spec fn scores_query(self, i: int) -> bool {
        &&& self.setup.indexer() == Indexer::Active
        &&& self.topk > 0
        &&& self.choices(i) > self.topk
    }

    /// Whether `sel` are the rows that query `i` attends to, given its scores:
    /// all it can see, or the best-scored of them, in rising order.
    pub open spec fn selects(self, i: int, scores: Seq<u32>, sel: Seq<usize>) -> bool {
        if self.scores_query(i) {
            is_top(sel, keys_of(scores), self.topk as nat)
        } else {
            sel == below(self.choices(i) as nat)
        }
    }

    /// The counts after the first `n` queries.
    pub open spec fn counted(self, stats: IndexerStats, n: nat) -> IndexerStats
        decreases n,
    {
        if n == 0 || self.setup.indexer() != Indexer::Active {
            stats
        } else {
            self.counted(stats, (n - 1) as nat).after_query(
                self.choices(n - 1) as nat,
                self.topk as nat,
            )
        }
    }
}

/// Which compressed rows each of `s` queries attends to. `scores` holds, for each
/// query that is scored, the score of every row it could attend to.
pub fn dsv4_compress_select(
    call: CompressCall,
    s: usize,
    scores: &Vec<Vec<u32>>,
    stats: &mut IndexerStats,
) -> (out: Vec<Vec<usize>>)
    requires
        call.pos_base + s < usize::MAX,
        scores@.len() == s,
        forall|i: int|
            0 <= i < s && call.scores_query(i) ==> (#[trigger] scores@[i])@.len() == call.choices(
                i,
            ),
    ensures
        out@.len() == s,
        forall|i: int| 0 <= i < s ==> call.selects(i, scores@[i]@, (#[trigger] out@[i])@),
        *final(stats) == call.counted(*old(stats), s as nat),
{
    let active: bool = call.setup.status() == Indexer::Active;
    let ghost start = *stats;
    let mut out: Vec<Vec<usize>> = Vec::new();
    for i in 0..s
        invariant
            start == *old(stats),
            active == (call.setup.indexer() == Indexer::Active),
            call.pos_base + s < usize::MAX,
            scores@.len() == s,
            forall|i: int|
                0 <= i < s && call.scores_query(i) ==> (#[trigger] scores@[i])@.len()
                    == call.choices(i),
            out@.len() == i,
            forall|k: int| 0 <= k < i ==> call.selects(k, scores@[k]@, (#[trigger] out@[k])@),
            *stats == call.counted(start, i as nat),
    {
        let closed: usize = comp_avail(call.pos_base + i, call.setup.ratio, call.n_comp);
        proof {
            closed_rows_are_not_negative(
                call.pos_base + i,
                call.setup.ratio as int,
                call.n_comp as int,
            );
        }
        if !active {
            out.push(numbers_below(closed));
        } else {
            let avail: usize = if closed <= call.setup.rows { closed } else { call.setup.rows };
            stats.count(avail, call.topk);
            if call.topk == 0 || avail <= call.topk {
                out.push(numbers_below(avail));
            } else {
                out.push(select_topk(&scores[i], call.topk));
            }
        }
    }
    out
}

proof fn closed_rows_are_not_negative(p: int, ratio: int, n_comp: int)
    requires
        p >= 0,
        n_comp >= 0,
        ratio >= 0,
    ensures
        closed_rows(p, ratio, n_comp) >= 0,
{
    if ratio > 0 {
        vstd::arithmetic::div_mod::lemma_div_pos_is_pos(p + 1, ratio);
    }
}

/// Where no more rows are closed than the indexer keeps, switching it off changes
/// nothing: a short context is attended to in full either way.
pub proof fn the_indexer_changes_nothing_below_its_limit(
    call: CompressCall,
    i: int,
    scores: Seq<u32>,
    with: Seq<usize>,
    without: Seq<usize>,
)
    requires
        call.setup.rows >= call.n_comp,
        closed_rows(call.pos_base + i, call.setup.ratio as int, call.n_comp as int) <= call.topk,
        call.selects(i, scores, with),
        (CompressCall {
            setup: IndexerSetup { enabled: false, ..call.setup },
            ..call
        }).selects(i, scores, without),
    ensures
        with == without,
{
}

/// The keys that the query at `pos` attends to, as places in the call's keys: the
/// raw rows of its window, and behind all `n_raw` raw rows the compressed rows
/// that were selected. A recent token may be there both ways.
pub open spec fn keys_seen(
    pos: int,
    win: int,
    raw_lo: int,
    n_raw: int,
    sel: Seq<usize>,
) -> Seq<int> {
    Seq::new((pos + 1 - reach(pos, win)) as nat, |j: int| reach(pos, win) - raw_lo + j)
        + sel.map_values(|t: usize| n_raw + t)
}

/// The keys that a query attends to.
pub fn visible_keys(pos: usize, win: usize, raw_lo: usize, n_raw: usize, sel: &Vec<usize>) -> (keys:
    Vec<usize>)
    requires
        pos < usize::MAX,
        raw_lo <= reach(pos as int, win as int),
        forall|k: int| 0 <= k < sel@.len() ==> n_raw + #[trigger] sel@[k] <= usize::MAX,
    ensures
        keys@.map_values(|k: usize| k as int) == keys_seen(
            pos as int,
            win as int,
            raw_lo as int,
            n_raw as int,
            sel@,
        ),
{
    let open: usize = if win <= pos + 1 { win } else { pos + 1 };
    let from: usize = pos + 1 - open;
    let mut keys: Vec<usize> = Vec::new();
    for j in 0..open
        invariant
            from == reach(pos as int, win as int),
            open == pos + 1 - from,
            raw_lo <= from,
            pos < usize::MAX,
            keys@.len() == j,
            forall|k: int| 0 <= k < j ==> keys@[k] == from - raw_lo + k,
    {
        keys.push(from - raw_lo + j);
    }
    for k in 0..sel.len()
        invariant
            keys@.len() == open + k,
            forall|k: int| 0 <= k < sel@.len() ==> n_raw + #[trigger] sel@[k] <= usize::MAX,
            forall|j: int| 0 <= j < open ==> keys@[j] == from - raw_lo + j,
            forall|j: int| 0 <= j < k ==> keys@[open + j] == n_raw + sel@[j],
    {
        keys.push(n_raw + sel[k]);
    }
    assert(keys@.map_values(|k: usize| k as int) =~= keys_seen(
        pos as int,
        win as int,
        raw_lo as int,
        n_raw as int,
        sel@,
    ));
    keys
}

/// A query never attends to a raw row behind its own position, nor to one that
/// its window has left.
pub proof fn raw_keys_are_causal(pos: int, win: int, raw_lo: int, n_raw: int, sel: Seq<usize>, j: int)
    requires
        pos >= 0,
        win >= 1,
        0 <= j < pos + 1 - reach(pos, win),
    ensures
        ({
            let p = raw_lo + keys_seen(pos, win, raw_lo, n_raw, sel)[j];
            p <= pos && pos - p < win
        }),
{
}

/// Which experts a token is routed to: the `topk` best by their biased scores, in
/// rising order. The bias moves the selection only; weights come from the scores
/// without it.
pub fn route_topk(biased: &Vec<u32>, topk: usize) -> (sel: Vec<usize>)
    ensures
        is_top(sel@, keys_of(biased@), topk as nat),
{
    select_topk(biased, topk)
}

/// The rope tables that a layer uses: those of the compressor for a layer that
/// compresses, whether or not compression is switched on.
pub fn uses_compressed_rope(ratios: &Vec<i32>, layer: usize) -> (b: bool)
    ensures
        b == (layer < ratios@.len() && ratios@[layer as int] > 0),
{
    layer < ratios.len() && ratios[layer] > 0
}

/// The smallest positive of `ratios`, or the indexed one where there is none.
pub open spec fn is_smallest_ratio(ratios: Seq<i32>, m: int) -> bool {
    if exists|i: int| 0 <= i < ratios.len() && #[trigger] ratios[i] > 0 {
        &&& exists|i: int| 0 <= i < ratios.len() && #[trigger] ratios[i] == m && m > 0
        &&& forall|i: int| 0 <= i < ratios.len() && #[trigger] ratios[i] > 0 ==> m <= ratios[i]
    } else {
        m == INDEXED_RATIO
    }
}

/// Compressed rows to make room for: one per `m` tokens of context, and two more,
/// where `m` is the smallest ratio of any layer.
pub fn compressed_capacity(ratios: &Vec<i32>, max_ctx: usize) -> (n: usize)
    requires
        max_ctx <= usize::MAX - 2,
    ensures
        exists|m: int| #[trigger] is_smallest_ratio(ratios@, m) && m > 0 && n == max_ctx as int / m
            + 2,
{
    let mut least: i32 = 0;
    for i in 0..ratios.len()
        invariant
            least >= 0,
            least == 0 ==> forall|j: int| 0 <= j < i ==> #[trigger] ratios@[j] <= 0,
            least > 0 ==> exists|j: int| 0 <= j < i && #[trigger] ratios@[j] == least,
            least > 0 ==> forall|j: int|
                0 <= j < i && #[trigger] ratios@[j] > 0 ==> least <= ratios@[j],
    {
        let r: i32 = ratios[i];
        if r > 0 && (least == 0 || r < least) {
            least = r;
            assert(ratios@[i as int] == least);
        }
    }
    let m: usize = if least == 0 { INDEXED_RATIO } else { least as usize };
    proof {
        if least > 0 {
            let j = choose|j: int| 0 <= j < ratios@.len() && #[trigger] ratios@[j] == least;
            assert(ratios@[j] > 0);
            assert(ratios@[j] == m && m > 0);
        }
        assert(is_smallest_ratio(ratios@, m as int));
        vstd::arithmetic::div_mod::lemma_div_is_ordered_by_denominator(max_ctx as int, 1, m as int);
        vstd::arithmetic::div_mod::lemma_div_basics(max_ctx as int);
    }
    max_ctx / m + 2
}

/// Whether context is lost: it reaches past the window and nothing compresses it.
pub fn loses_context(window: i32, total: usize, compress: bool) -> (b: bool)
    ensures
        b == (window > 0 && total > window && !compress),
{
    window > 0 && total > window as usize && !compress
}

/// Compressed rows that the indexer keeps per query: the configured number, else
/// the model's.
pub fn dsv4_index_topk(configured: Option<usize>, model: i32) -> (k: usize)
    ensures
        k == match configured {
            Some(c) => c as int,
            None => if model > 0 {
                model as int
            } else {
                0
            },
        },
{
    match configured {
        Some(c) => c,
        None => if model > 0 {
            model as usize
        } else {
            0
        },
    }
}

/// The keys of an attention call, and which of them each query attends to.
pub struct CallKeys {
    /// The raw rows of the call's span, then the compressed rows.
    pub rows: Vec<Row>,
    /// For each query, the places of its keys.
    pub seen: Vec<Vec<usize>>,
}

impl CallKeys {
    /// The keys that query `i` attends to.
    pub open spec fn keys(self, i: int) -> Seq<Seq<u32>> {
        self.seen@[i]@.map_values(|k: usize| self.rows@[k as int]@)
    }
}

/// What the query at `pos` attends to: the rows of its window, up to its own, and
/// the compressed rows that were selected for it.
pub open spec fn attends_to(
    all: Seq<Seq<u32>>,
    comp: Seq<Row>,
    sel: Seq<usize>,
    pos: int,
    win: int,
) -> Seq<Seq<u32>> {
    all.subrange(reach(pos, win), pos + 1) + sel.map_values(|t: usize| comp[t as int]@)
}

/// One attention call: `rows` go on where the raw rows end, and `sel` holds for
/// each of them the compressed rows that it attends to. Whatever came before, and
/// however wide the ring has become, each query's keys are those that the whole
/// sequence would give.
pub fn dsv4_attention(
    kv: &mut RawKv,
    rows: &Vec<Row>,
    window: i32,
    comp: Vec<Row>,
    sel: &Vec<Vec<usize>>,
) -> (r: CallKeys)
    requires
        old(kv).wf(),
        old(kv).covers(window),
        rows@.len() > 0 || window > 0 || old(kv)@.hi > 0,
        old(kv)@.hi + rows@.len() + comp@.len() < usize::MAX,
        forall|i: int| 0 <= i < rows@.len() ==> (#[trigger] rows@[i])@.len() == old(kv)@.width,
        sel@.len() == rows@.len(),
        forall|i: int, k: int|
            0 <= i < sel@.len() && 0 <= k < sel@[i]@.len() ==> #[trigger] sel@[i]@[k] < comp@.len(),
    ensures
        final(kv).wf(),
        final(kv).covers(window),
        final(kv)@.width == old(kv)@.width,
        final(kv)@.hi == old(kv)@.hi + rows@.len(),
        r.seen@.len() == rows@.len(),
        forall|i: int, k: int|
            0 <= i < r.seen@.len() && 0 <= k < r.seen@[i]@.len() ==> #[trigger] r.seen@[i]@[k]
                < r.rows@.len(),
        forall|h: Seq<Seq<u32>>| #[trigger]
            old(kv).holds(h) ==> {
                let all = h + rows@.map_values(|r: Row| r@);
                &&& final(kv).holds(all)
                &&& forall|i: int|
                    0 <= i < rows@.len() ==> #[trigger] r.keys(i) == attends_to(
                        all,
                        comp@,
                        sel@[i]@,
                        h.len() + i,
                        window_of(window, all.len() as int),
                    )
            },
{
    let ghost before = *kv;
    let ghost compressed = comp@;
    let pos_base: usize = kv.hi();
    let s: usize = rows.len();
    let span: RawSpan = dsv4_raw_span(pos_base, s, window);
    let mut keys: Vec<Row> = kv.attend(rows, window);
    let ghost raw = keys@;
    let n_raw: usize = keys.len();
    assert(n_raw == span.total - span.raw_lo);
    for row in it: comp
        invariant
            it.seq() == compressed,
            keys@ == raw + compressed.take(it.index()),
    {
        keys.push(row);
        assert(keys@ =~= raw + compressed.take(it.index() + 1));
    }
    assert(compressed.take(compressed.len() as int) =~= compressed);
    let mut seen: Vec<Vec<usize>> = Vec::new();
    for i in 0..s
        invariant
            s == rows@.len(),
            s == sel@.len(),
            pos_base + s + compressed.len() < usize::MAX,
            (span.raw_lo as int, span.total as int, span.win as int) == span_of(
                pos_base as int,
                s as int,
                window,
            ),
            n_raw == span.total - span.raw_lo,
            forall|i: int, k: int|
                0 <= i < sel@.len() && 0 <= k < sel@[i]@.len() ==> #[trigger] sel@[i]@[k]
                    < compressed.len(),
            seen@.len() == i,
            forall|j: int|
                0 <= j < i ==> (#[trigger] seen@[j])@.map_values(|k: usize| k as int) == keys_seen(
                    pos_base + j,
                    span.win as int,
                    span.raw_lo as int,
                    n_raw as int,
                    sel@[j]@,
                ),
    {
        proof {
            the_span_holds_every_window(pos_base as int, s as int, window, i as int);
        }
        seen.push(visible_keys(pos_base + i, span.win, span.raw_lo, n_raw, &sel[i]));
    }
    let r = CallKeys { rows: keys, seen };
    proof {
        assert forall|i: int, k: int|
            0 <= i < r.seen@.len() && 0 <= k < r.seen@[i]@.len() implies #[trigger] r.seen@[i]@[k]
            < r.rows@.len() by {
            the_span_holds_every_window(pos_base as int, s as int, window, i);
            let places = r.seen@[i]@.map_values(|k: usize| k as int);
            assert(places[k] == r.seen@[i]@[k]);
        }
        assert forall|h: Seq<Seq<u32>>| #[trigger] before.holds(h) implies {
            let all = h + rows@.map_values(|r: Row| r@);
            &&& kv.holds(all)
            &&& forall|i: int|
                0 <= i < rows@.len() ==> #[trigger] r.keys(i) == attends_to(
                    all,
                    compressed,
                    sel@[i]@,
                    h.len() + i,
                    window_of(window, all.len() as int),
                )
        } by {
            let all = h + rows@.map_values(|r: Row| r@);
            assert forall|i: int| 0 <= i < rows@.len() implies #[trigger] r.keys(i) == attends_to(
                all,
                compressed,
                sel@[i]@,
                h.len() + i,
                window_of(window, all.len() as int),
            ) by {
                the_span_holds_every_window(pos_base as int, s as int, window, i);
                let places = r.seen@[i]@.map_values(|k: usize| k as int);
                let want = attends_to(
                    all,
                    compressed,
                    sel@[i]@,
                    h.len() + i,
                    window_of(window, all.len() as int),
                );
                assert(r.keys(i).len() == places.len());
                assert forall|k: int| 0 <= k < want.len() implies r.keys(i)[k] == want[k] by {
                    assert(places[k] == r.seen@[i]@[k]);
                    let open = pos_base + i + 1 - reach(pos_base + i, span.win as int);
                    if k < open {
                        assert(r.rows@[places[k]] == raw[places[k]]);
                    } else {
                        assert(sel@[i]@[k - open] < compressed.len());
                    }
                }
                assert(r.keys(i) =~= want);
            }
        }
    }
    r
}

/// What a forward pass over several residual streams depends on.
#[derive(Debug, Clone, Copy, PartialEq, Eq, Structural)]
pub struct StreamSetup {
    pub window: i32,
    /// Whether older context is compressed.
    pub compress: bool,
    /// Whether the indexer is switched on.
    pub indexer: bool,
    /// Width of the indexer's keys; zero or less where the model has none.
    pub index_hd: i32,
    pub max_ctx: usize,
    /// Whether room for compressed rows has been made already.
    pub ready: bool,
}

/// Room for compressed rows, per layer that compresses.
#[derive(Debug, Clone, Copy, PartialEq, Eq, Structural)]
pub struct Room {
    pub compressed: usize,
    /// Room for the indexer's own rows, where it has any.
    pub indexed: Option<usize>,
}

/// What a forward pass begins with.
pub struct StreamPlan {
    /// Whether context is lost in this pass.
    pub loses_context: bool,
    /// Room to make first.
    pub room: Option<Room>,
    /// Rows of the rope tables.
    pub rope_rows: usize,
    /// Whether each layer uses the compressor's rope table.
    pub compressed_rope: Vec<bool>,
}

/// Plans a forward pass of `s` tokens from `pos_base` on through `n_layers` layers
/// whose compression ratios are `ratios`.
pub fn dsv4_forward(
    setup: StreamSetup,
    ratios: &Vec<i32>,
    n_layers: usize,
    pos_base: usize,
    s: usize,
) -> (p: StreamPlan)
    requires
        setup.max_ctx <= usize::MAX - 2,
        pos_base + s <= usize::MAX,
    ensures
        p.loses_context == (setup.window > 0 && pos_base + s > setup.window && !setup.compress),
        p.rope_rows == if pos_base + s < 1 { 1 } else { pos_base + s },
        p.compressed_rope@ == Seq::new(
            n_layers as nat,
            |l: int| l < ratios@.len() && ratios@[l] > 0,
        ),
        p.room is Some <==> setup.compress && !setup.ready,
        p.room is Some ==> {
            &&& exists|m: int| #[trigger]
                is_smallest_ratio(ratios@, m) && m > 0 && p.room->0.compressed == setup.max_ctx as int
                    / m + 2
            &&& p.room->0.indexed == if setup.indexer && setup.index_hd > 0 {
                Some((setup.max_ctx / INDEXED_RATIO + 2) as usize)
            } else {
                None
            }
        },
{
    let total: usize = pos_base + s;
    let room: Option<Room> = if setup.compress && !setup.ready {
        Some(
            Room {
                compressed: compressed_capacity(ratios, setup.max_ctx),
                indexed: if setup.indexer && setup.index_hd > 0 {
                    Some(setup.max_ctx / INDEXED_RATIO + 2)
                } else {
                    None
                },
            },
        )
    } else {
        None
    };
    let mut compressed_rope: Vec<bool> = Vec::new();
    for l in 0..n_layers
        invariant
            compressed_rope@ == Seq::new(
                l as nat,
                |l: int| l < ratios@.len() && ratios@[l] > 0,
            ),
    {
        compressed_rope.push(uses_compressed_rope(ratios, l));
        assert(compressed_rope@ =~= Seq::new(
            (l + 1) as nat,
            |l: int| l < ratios@.len() && ratios@[l] > 0,
        ));
    }
    StreamPlan {
        loses_context: loses_context(setup.window, total, setup.compress),
        room,
        rope_rows: if total < 1 {
            1
        } else {
            total
        },
        compressed_rope,
    }
}

/// A query sees a compressed row exactly when all of the row's tokens have come: row `t`
/// pools the tokens from `t * ratio` up to `(t + 1) * ratio`.
pub proof fn a_row_is_visible_once_its_tokens_have_come(p: int, ratio: int, n_comp: int, t: int)
    requires
        p >= 0,
        n_comp >= 0,
        0 <= t < n_comp,
    ensures
        ratio > 0 ==> (t < closed_rows(p, ratio, n_comp) <==> (t + 1) * ratio <= p + 1),
        ratio <= 0 ==> closed_rows(p, ratio, n_comp) == 0,
        0 <= closed_rows(p, ratio, n_comp) <= n_comp,
{
    if ratio > 0 {
        let q = (p + 1) / ratio;
        vstd::arithmetic::div_mod::lemma_fundamental_div_mod(p + 1, ratio);
        vstd::arithmetic::div_mod::lemma_div_pos_is_pos(p + 1, ratio);
        assert(t < q <==> (t + 1) * ratio <= p + 1) by (nonlinear_arith)
            requires
                p + 1 == ratio * q + (p + 1) % ratio,
                0 <= (p + 1) % ratio < ratio,
        ;
    }
}

/// Which compressed rows a query attends to. Each is one whose tokens have all come,
/// and they come in rising order. Without a working indexer it is every such row. With
/// one, it is every such row that the indexer has as well, or, where those are more than
/// it keeps, as many as it keeps, none of which scores lower than one left out.
pub proof fn a_query_attends_to_closed_rows(
    call: CompressCall,
    i: int,
    scores: Seq<u32>,
    sel: Seq<usize>,
    t: usize,
)
    requires
        i >= 0,
        call.pos_base + i < usize::MAX,
        call.scores_query(i) ==> scores.len() == call.choices(i),
        call.selects(i, scores, sel),
    ensures
        ({
            let p = call.pos_base + i;
            let ratio = call.setup.ratio as int;
            let works = call.setup.enabled && call.setup.has_query_weights
                && call.setup.has_compressor && call.setup.ready && call.setup.rows > 0;
            let closed = t < call.n_comp && ratio > 0 && (t + 1) * ratio <= p + 1;
            let known = closed && t < call.setup.rows;
            &&& forall|a: int, b: int| 0 <= a < b < sel.len() ==> sel[a] < sel[b]
            &&& sel.contains(t) ==> closed
            &&& !works ==> (sel.contains(t) <==> closed)
            &&& works && call.topk == 0 ==> (sel.contains(t) <==> known)
            &&& works && known && !sel.contains(t) ==> {
                &&& call.topk > 0
                &&& sel.len() == call.topk
                &&& t < scores.len()
                &&& forall|a: int|
                    0 <= a < sel.len() ==> {
                        ||| is_above(scores[#[trigger] sel[a] as int], scores[t as int])
                        ||| !is_above(scores[t as int], scores[sel[a] as int]) && sel[a] < t
                    }
            }
            &&& works && sel.contains(t) ==> known
            &&& works && call.topk > 0 ==> sel.len() <= call.topk
        }),
{
    let p = call.pos_base + i;
    let ratio = call.setup.ratio as int;
    let n = call.n_comp as int;
    closed_rows_are_not_negative(p, ratio, n);
    if t < n {
        a_row_is_visible_once_its_tokens_have_come(p, ratio, n, t as int);
    }
    if call.scores_query(i) {
        the_best_scored_are_selected(scores, call.topk as nat, sel);
        if sel.contains(t) {
            let a = choose|a: int| 0 <= a < sel.len() && sel[a] == t;
            assert(sel[a] < scores.len());
        }
    } else {
        let all = below(call.choices(i) as nat);
        if t < call.choices(i) {
            assert(all[t as int] == t);
        }
        if all.contains(t) {
            let a = choose|a: int| 0 <= a < all.len() && all[a] == t;
        }
    }
}

/// What a query is counted as: nothing where it had no row to choose from, skipped where
/// all its rows are kept, else scored, with the rows it saw and those it kept.
pub proof fn a_query_is_counted_once(s: IndexerStats, avail: nat, topk: nat)
    requires
        avail <= usize::MAX,
        topk <= usize::MAX,
        s.scored < u64::MAX,
        s.skipped < u64::MAX,
        s.seen + avail <= u64::MAX,
        s.kept + topk <= u64::MAX,
    ensures
        ({
            let r = s.after_query(avail, topk);
            let dropped = r.seen - s.seen - (r.kept - s.kept);
            &&& (r.scored - s.scored) + (r.skipped - s.skipped) == if avail > 0 {
                1int
            } else {
                0
            }
            &&& r.scored > s.scored <==> topk > 0 && avail > topk
            &&& r.scored > s.scored ==> r.seen == s.seen + avail && r.kept == s.kept + topk
            &&& r.scored == s.scored ==> r.seen == s.seen && r.kept == s.kept
            &&& r.skipped > s.skipped ==> r.skip_max >= avail && (r.skip_max == avail || r.skip_max
                == s.skip_max)
            &&& r.skip_max >= s.skip_max
            &&& r.skipped == s.skipped ==> r.skip_max == s.skip_max
            &&& dropped >= 0
        }),
{
}

/// An indexer works where it is switched on, its layer compresses, and it has its
/// weights, its compressor, its place and a row. Otherwise the first thing that is
/// missing is named. That is a fault only in a layer of ratio four.
pub proof fn an_indexer_works_where_nothing_is_missing(x: IndexerSetup, fault: bool)
    requires
        call_ensures(IndexerSetup::is_fault, (x,), fault),
    ensures
        x.indexer() is Active <==> x.enabled && x.ratio > 0 && x.has_query_weights
            && x.has_compressor && x.ready && x.rows > 0,
        x.indexer() is Off <==> !x.enabled || x.ratio == 0,
        x.indexer() is NoWeights ==> !x.has_query_weights,
        x.indexer() is NoCompressor ==> !x.has_compressor && x.has_query_weights,
        x.indexer() is NotReady ==> !x.ready && x.has_compressor && x.has_query_weights,
        x.indexer() is NoRows ==> x.rows == 0 && x.ready && x.has_compressor
            && x.has_query_weights,
        fault <==> x.enabled && x.ratio == 4 && !(x.has_query_weights && x.has_compressor
            && x.ready && x.rows > 0),
{
}

/// The raw keys of a query are the rows of its window, each once and in the order of
/// their positions; behind all raw rows come the selected compressed ones, in theirs.
pub proof fn keys_are_the_window_and_the_selected_rows(
    pos: int,
    window: i32,
    raw_lo: int,
    n_raw: int,
    sel: Seq<usize>,
    q: int,
)
    requires
        0 <= q <= pos,
    ensures
        ({
            let keys = keys_seen(pos, window_of(window, pos + 1), raw_lo, n_raw, sel);
            let open = keys.len() - sel.len();
            &&& 0 <= open <= pos + 1
            &&& window <= 0 || pos - q < window <==> exists|j: int|
                0 <= j < open && raw_lo + #[trigger] keys[j] == q
            &&& forall|j: int| 0 <= j < open - 1 ==> #[trigger] keys[j] + 1 == keys[j + 1]
            &&& open > 0 ==> raw_lo + keys[open - 1] == pos
            &&& forall|k: int|
                0 <= k < sel.len() ==> keys[open + k] - n_raw == #[trigger] sel[k]
        }),
{
    let keys = keys_seen(pos, window_of(window, pos + 1), raw_lo, n_raw, sel);
    let from = reach(pos, window_of(window, pos + 1));
    if window <= 0 || pos - q < window {
        assert(raw_lo + keys[q - from] == q);
    }
}

/// A query attends to the rows of its window up to its own, oldest first, and behind
/// them to the compressed rows that were selected for it.
pub proof fn a_query_attends_to_its_window_and_its_rows(
    all: Seq<Seq<u32>>,
    comp: Seq<Row>,
    sel: Seq<usize>,
    pos: int,
    window: i32,
)
    requires
        0 <= pos < all.len(),
    ensures
        ({
            let seen = attends_to(all, comp, sel, pos, window_of(window, all.len() as int));
            let open = if window > 0 && window <= pos {
                window as int
            } else {
                pos + 1
            };
            &&& seen.len() == open + sel.len()
            &&& forall|j: int| 0 <= j < open ==> #[trigger] seen[j] == all[pos + 1 - open + j]
            &&& forall|k: int|
                0 <= k < sel.len() ==> seen[open + k] == comp[#[trigger] sel[k] as int]@
        }),
{
}

/// Prompts are split as coarsely as the budget for raw rows allows, and never below a
/// window: the next larger call would go over the budget, and a call goes over it only
/// where it is no longer than a window. A prompt is split exactly where it is longer than
/// such a call. A configured number of tokens overrides that, and zero never splits.
pub proof fn calls_are_as_long_as_the_budget_allows(
    row_bytes: int,
    budget_bytes: int,
    window: i32,
    s: int,
    n: usize,
)
    requires
        row_bytes > 0,
        0 <= budget_bytes <= usize::MAX,
        0 <= s < usize::MAX,
    ensures
        ({
            let chunk = prefill_chunk(None, row_bytes, budget_bytes, window, s);
            &&& chunk < s ==> (chunk + 1) * row_bytes > budget_bytes
            &&& chunk < s && chunk * row_bytes > budget_bytes ==> chunk <= 1 || chunk <= window
            &&& chunk >= 1
            &&& chunk < s ==> chunk >= window
            &&& chunk >= s <==> s <= 1 || s <= window || s * row_bytes <= budget_bytes
        }),
        n > 0 ==> prefill_chunk(Some(n), row_bytes, budget_bytes, window, s) == n,
        prefill_chunk(Some(0), row_bytes, budget_bytes, window, s) >= s,
{
    let q = budget_bytes / row_bytes;
    vstd::arithmetic::div_mod::lemma_fundamental_div_mod(budget_bytes, row_bytes);
    let r = budget_bytes % row_bytes;
    let chunk = prefill_chunk(None, row_bytes, budget_bytes, window, s);
    assert(s <= q <==> s * row_bytes <= budget_bytes) by (nonlinear_arith)
        requires
            budget_bytes == row_bytes * q + r,
            0 <= r < row_bytes,
    ;
    assert(chunk >= q ==> (chunk + 1) * row_bytes > budget_bytes) by (nonlinear_arith)
        requires
            budget_bytes == row_bytes * q + r,
            0 <= r < row_bytes,
    ;
    assert(chunk <= q ==> chunk * row_bytes <= budget_bytes) by (nonlinear_arith)
        requires
            budget_bytes == row_bytes * q + r,
            0 <= r < row_bytes,
    ;
    assert(q <= budget_bytes) by (nonlinear_arith)
        requires
            budget_bytes == row_bytes * q + r,
            0 <= r < row_bytes,
            row_bytes > 0,
            budget_bytes >= 0,
    ;
}

/// Every call of a split prompt but the last is as long as it may be.
pub proof fn only_the_last_call_is_short(plan: Seq<Slice>, s: int, chunk: int, k: int)
    requires
        is_split(plan, s, chunk),
        s >= 0,
        chunk >= 1,
        0 <= k < plan.len() - 1,
    ensures
        plan[k].n == chunk,
        plan[k + 1].n > 0,
        plan[k + 1].off == (k + 1) * chunk,
{
    calls_cover_the_prompt(plan, s, chunk, k);
    assert((k + 1) * chunk == k * chunk + chunk) by (nonlinear_arith);
}

/// The rows of one call stand `ratio` positions apart, and the first row of all stands at
/// the first position.
pub proof fn rows_stand_a_block_apart(
    base: usize,
    bi: usize,
    ratio: usize,
    p: usize,
    q: usize,
    first: usize,
)
    requires
        bi < usize::MAX,
        call_ensures(block_position, (base, bi, ratio), p),
        call_ensures(block_position, (base, (bi + 1) as usize, ratio), q),
        call_ensures(block_position, (0, 0, ratio), first),
    ensures
        q == p + ratio,
        first == 0,
        p as int == row_places((base * ratio) as int, (bi + 1) * ratio, ratio as int)[bi as int]
            || ratio == 0,
{
    assert((base + bi + 1) * ratio == (base + bi) * ratio + ratio) by (nonlinear_arith);
    assert((0 + 0) * ratio == 0) by (nonlinear_arith);
    if ratio > 0 {
        let b = base as int;
        let r = ratio as int;
        assert(b * r == r * b) by (nonlinear_arith);
        vstd::arithmetic::div_mod::lemma_fundamental_div_mod_converse(b * r, r, b, 0);
        assert(b * r + (bi + 1) * r == (b + bi + 1) * r) by (nonlinear_arith);
        assert((b + bi + 1) * r == r * (b + bi + 1)) by (nonlinear_arith);
        vstd::arithmetic::div_mod::lemma_fundamental_div_mod_converse(
            (b + bi + 1) * r,
            r,
            b + bi + 1,
            0,
        );
    }
}

/// A position is rotated where each of its values is in the table.
pub proof fn a_position_is_rotated_by_the_table(p: usize, half: usize, table: usize, b: bool)
    requires
        half > 0,
        call_ensures(rope_reaches, (p, half, table), b),
    ensures
        b <==> forall|j: int| 0 <= j < half ==> #[trigger] (p * half + j) < table,
{
    assert((p + 1) * half == p * half + half) by (nonlinear_arith);
    if forall|j: int| 0 <= j < half ==> #[trigger] (p * half + j) < table {
        assert(p * half + (half - 1) < table);
    }
}

/// There is room for the compressed rows of every layer, whatever its ratio, and for two
/// more where it compresses most; without such a layer, for one row in four tokens.
pub proof fn every_layer_has_room(ratios: Vec<i32>, max_ctx: usize, n: usize, i: int)
    requires
        max_ctx <= usize::MAX - 2,
        call_ensures(compressed_capacity, (&ratios, max_ctx), n),
        0 <= i < ratios@.len(),
    ensures
        ratios@[i] > 0 ==> n >= max_ctx as int / ratios@[i] as int + 2,
        ratios@[i] > 0 ==> exists|j: int|
            0 <= j < ratios@.len() && #[trigger] ratios@[j] > 0 && n == max_ctx as int
                / ratios@[j] as int + 2,
        (forall|j: int| 0 <= j < ratios@.len() ==> #[trigger] ratios@[j] <= 0) ==> n == max_ctx
            as int / 4 + 2,
{
    let m = choose|m: int| #[trigger]
        is_smallest_ratio(ratios@, m) && m > 0 && n == max_ctx as int / m + 2;
    if ratios@[i] > 0 {
        vstd::arithmetic::div_mod::lemma_div_is_ordered_by_denominator(
            max_ctx as int,
            m,
            ratios@[i] as int,
        );
        let j = choose|j: int| 0 <= j < ratios@.len() && #[trigger] ratios@[j] == m && m > 0;
        assert(ratios@[j] > 0);
    }
}

/// What a pass over the streams begins with: rotation tables that reach its last token and
/// no further, the compressor's table in exactly the layers that compress, room where it
/// compresses and has none yet, and a warning where tokens leave the window for good.
pub proof fn a_pass_begins_with_what_it_needs(
    setup: StreamSetup,
    ratios: Vec<i32>,
    n_layers: usize,
    pos_base: usize,
    s: usize,
    plan: StreamPlan,
)
    requires
        setup.max_ctx <= usize::MAX - 2,
        pos_base + s <= usize::MAX,
        call_ensures(dsv4_forward, (setup, &ratios, n_layers, pos_base, s), plan),
    ensures
        s > 0 ==> plan.rope_rows - 1 == pos_base + s - 1,
        plan.rope_rows > 0,
        plan.compressed_rope@.len() == n_layers,
        forall|l: int|
            0 <= l < n_layers ==> (#[trigger] plan.compressed_rope@[l] <==> l < ratios@.len()
                && ratios@[l] > 0),
        plan.room is None <==> !setup.compress || setup.ready,
        plan.room matches Some(room) ==> (room.indexed is Some <==> setup.indexer && setup.index_hd
            > 0),
        plan.room matches Some(room) ==> (room.indexed matches Some(k) ==> k == setup.max_ctx as int
            / 4 + 2),
        plan.room matches Some(room) ==> forall|l: int|
            0 <= l < ratios@.len() && #[trigger] ratios@[l] > 0 ==> room.compressed
                >= setup.max_ctx as int / ratios@[l] as int + 2,
        plan.loses_context <==> !setup.compress && setup.window > 0 && pos_base + s - setup.window
            > 0,
{
    if let Some(room) = plan.room {
        let m = choose|m: int| #[trigger]
            is_smallest_ratio(ratios@, m) && m > 0 && room.compressed == setup.max_ctx as int / m
                + 2;
        assert forall|l: int| 0 <= l < ratios@.len() && #[trigger] ratios@[l] > 0 implies
            room.compressed >= setup.max_ctx as int / ratios@[l] as int + 2 by {
            vstd::arithmetic::div_mod::lemma_div_is_ordered_by_denominator(
                setup.max_ctx as int,
                m,
                ratios@[l] as int,
            );
        }
    }
}

/// A layer rotates by the compressor's table exactly if it compresses; context is lost
/// where tokens leave a window and nothing compresses them; the indexer keeps what is
/// configured, else what the model says; and a call is pooled whole only at the beginning.
pub proof fn a_layer_goes_by_its_own_settings(
    ratios: Vec<i32>,
    layer: usize,
    window: i32,
    total: usize,
    compress: bool,
    configured: Option<usize>,
    model: i32,
    pos_base: usize,
    rope: bool,
    loses: bool,
    k: usize,
    whole: bool,
)
    requires
        call_ensures(uses_compressed_rope, (&ratios, layer), rope),
        call_ensures(loses_context, (window, total, compress), loses),
        call_ensures(dsv4_index_topk, (configured, model), k),
        call_ensures(pools_whole_batch, (pos_base,), whole),
    ensures
        rope ==> layer < ratios@.len() && ratios@[layer as int] >= 1,
        !rope && layer < ratios@.len() ==> ratios@[layer as int] <= 0,
        loses ==> window >= 1 && total >= window + 1 && !compress,
        !loses && window >= 1 && !compress ==> total <= window,
        configured matches Some(c) ==> k == c,
        configured is None && model >= 0 ==> k == model,
        configured is None && model < 0 ==> k == 0,
        whole <==> pos_base < 1,
{
}

/// The counters are read as they were counted.
pub proof fn the_indexer_counters_are_read(
    s: IndexerStats,
    a: (u64, u64, u64),
    b: (u64, u64),
    fresh: IndexerStats,
)
    requires
        call_ensures(IndexerStats::dsv4_indexer_stats, (&s,), a),
        call_ensures(IndexerStats::dsv4_indexer_skips, (&s,), b),
        call_ensures(IndexerStats::new, (), fresh),
    ensures
        a.0 == s.scored && a.1 == s.seen && a.2 == s.kept,
        b.0 == s.skipped && b.1 == s.skip_max,
        fresh.scored == 0 && fresh.seen == 0 && fresh.kept == 0 && fresh.skipped == 0
            && fresh.skip_max == 0,
{
}

} // verus!
