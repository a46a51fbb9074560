//! Online next-layer expert prediction for speculative prefetch.
//!
//! As tokens stream past, the predictor learns how often each expert of a layer
//! is used, and how often an expert of a layer follows an expert of the layer
//! before. From a layer's routed experts it predicts the next layer's: by
//! learned transitions first, then by frequency.

use vstd::prelude::*;
use crate::expert::capped;
use crate::tally::{
    count_in, counted, hotter, in_layer, is_ranking, merged, ranking_of, successors_of, ExpertId, Tally, Transition,
};

verus! {

/// Fewest routed experts for which a layer's set is taken as the next layer's:
/// it separates a prefill, which routes to nearly all experts, from a decode
/// step, which routes to a handful.
pub const PREFETCH_AHEAD_MIN: usize = 64;

/// Smallest percentage of the model's experts that a layer must touch before
/// its set is taken as the next layer's.
pub const PREFETCH_AHEAD_MIN_PCT: u64 = 50;

/// Whether a layer's routed set predicts the next layer's. Reusing the ids is
/// sound only where a layer routes to most of the experts; an expert count of
/// zero stands for an unknown one, and then the absolute number decides alone.
pub fn ahead_predicts_next_layer(n_routed: usize, n_experts: u64) -> (b: bool)
    ensures
        b == (n_routed >= PREFETCH_AHEAD_MIN && (n_experts == 0 || n_routed * 100 >= n_experts
            * PREFETCH_AHEAD_MIN_PCT)),
{
    if n_routed < PREFETCH_AHEAD_MIN {
        return false;
    }
    if n_experts == 0 {
        return true;
    }
    let pct: u128 = PREFETCH_AHEAD_MIN_PCT as u128;
    assert(pct == 50);
    n_routed as u128 * 100 >= n_experts as u128 * pct
}

/// What a predictor has learned.
#[verifier::ext_equal]
pub struct Learned {
    /// The most experts it predicts.
    pub topn: nat,
    /// How often each expert was used.
    pub freq: Map<ExpertId, u64>,
    /// How often each expert followed another.
    pub trans: Map<Transition, u64>,
    /// The layer seen last, and its experts.
    pub last: Option<(usize, Seq<usize>)>,
}

/// `freq` after one more use of each of `eids`.
pub open spec fn used(freq: Map<ExpertId, u64>, layer: usize, eids: Seq<usize>) -> Map<
    ExpertId,
    u64,
>
    decreases eids.len(),
{
    if eids.len() == 0 {
        freq
    } else {
        counted(
            used(freq, layer, eids.drop_last()),
            ExpertId { layer, eid: eids.last() },
            1,
        )
    }
}

/// `trans` after each of `eids` followed `from`.
pub open spec fn followed(
    trans: Map<Transition, u64>,
    layer: usize,
    from: usize,
    eids: Seq<usize>,
) -> Map<Transition, u64>
    decreases eids.len(),
{
    if eids.len() == 0 {
        trans
    } else {
        counted(
            followed(trans, layer, from, eids.drop_last()),
            Transition { layer, from, to: eids.last() },
            1,
        )
    }
}

/// `trans` after each of `eids` followed each of `before`.
pub open spec fn all_followed(
    trans: Map<Transition, u64>,
    layer: usize,
    before: Seq<usize>,
    eids: Seq<usize>,
) -> Map<Transition, u64>
    decreases before.len(),
{
    if before.len() == 0 {
        trans
    } else {
        followed(
            all_followed(trans, layer, before.drop_last(), eids),
            layer,
            before.last(),
            eids,
        )
    }
}

/// How strongly `from` speaks for each expert of `target`.
pub open spec fn scores(trans: Map<Transition, u64>, target: usize, from: Seq<usize>) -> Map<
    usize,
    u64,
>
    decreases from.len(),
{
    if from.len() == 0 {
        Map::empty()
    } else {
        merged(scores(trans, target, from.drop_last()), successors_of(trans, target, from.last()))
    }
}

/// `out` filled up from `more`, in order and without repetition, to `topn`.
pub open spec fn backfilled(out: Seq<usize>, more: Seq<usize>, topn: nat) -> Seq<usize>
    decreases more.len(),
{
    if more.len() == 0 || out.len() >= topn {
        out
    } else if out.contains(more[0]) {
        backfilled(out, more.drop_first(), topn)
    } else {
        backfilled(out.push(more[0]), more.drop_first(), topn)
    }
}

/// The first `n` of `s`, or all of it.
pub open spec fn first_of(s: Seq<usize>, n: nat) -> Seq<usize> {
    if s.len() <= n {
        s
    } else {
        s.take(n as int)
    }
}

impl Learned {
    /// What it has learned after layer `layer` used `eids`.
    pub open spec fn after(self, layer: usize, eids: Seq<usize>) -> Learned {
        Learned {
            topn: self.topn,
            freq: used(self.freq, layer, eids),
            trans: match self.last {
                Some((l, before)) if l + 1 == layer => all_followed(
                    self.trans,
                    layer,
                    before,
                    eids,
                ),
                _ => self.trans,
            },
            last: Some((layer, eids)),
        }
    }

    /// The experts it predicts for `target` after `from`: the best transitions,
    /// then the most frequent experts of the layer.
    pub open spec fn prediction(self, target: usize, from: Seq<usize>) -> Seq<usize> {
        backfilled(
            first_of(ranking_of(scores(self.trans, target, from)), self.topn),
            ranking_of(in_layer(self.freq, target)),
            self.topn,
        )
    }

    /// Whether anything learned speaks for expert `e` of `target` after `from`.
    pub open spec fn knows(self, target: usize, from: Seq<usize>, e: usize) -> bool {
        ||| scores(self.trans, target, from).dom().contains(e)
        ||| self.freq.dom().contains(ExpertId { layer: target, eid: e })
    }
}

proof fn backfill_facts(out: Seq<usize>, more: Seq<usize>, topn: nat)
    requires
        out.no_duplicates(),
        out.len() <= topn,
    ensures
        backfilled(out, more, topn).no_duplicates(),
        out.len() <= backfilled(out, more, topn).len() <= topn,
        backfilled(out, more, topn).take(out.len() as int) == out,
        forall|e: usize| #[trigger]
            backfilled(out, more, topn).contains(e) ==> out.contains(e) || more.contains(e),
        backfilled(out, more, topn).len() == topn || forall|e: usize|
            out.contains(e) || more.contains(e) ==> #[trigger] backfilled(out, more, topn).contains(
                e,
            ),
    decreases more.len(),
{
    let b = backfilled(out, more, topn);
    if more.len() == 0 || out.len() >= topn {
        assert(b.take(out.len() as int) =~= out);
    } else {
        let rest = more.drop_first();
        assert forall|e: usize| more.contains(e) <==> e == more[0] || rest.contains(e) by {
            if more.contains(e) {
                let i = choose|i: int| 0 <= i < more.len() && more[i] == e;
                if i > 0 {
                    assert(rest[i - 1] == e);
                }
            }
            if rest.contains(e) {
                let i = choose|i: int| 0 <= i < rest.len() && rest[i] == e;
                assert(more[i + 1] == e);
            }
            assert(more[0] == more.first());
        }
        if out.contains(more[0]) {
            backfill_facts(out, rest, topn);
        } else {
            let longer = out.push(more[0]);
            backfill_facts(longer, rest, topn);
            assert forall|e: usize| longer.contains(e) <==> out.contains(e) || e == more[0] by {
                if longer.contains(e) {
                    let i = choose|i: int| 0 <= i < longer.len() && longer[i] == e;
                    if i < out.len() {
                        assert(out[i] == e);
                    }
                }
                if out.contains(e) {
                    let i = choose|i: int| 0 <= i < out.len() && out[i] == e;
                    assert(longer[i] == e);
                }
                assert(longer[out.len() as int] == more[0]);
            }
            assert(b.take(out.len() as int) =~= out) by {
                assert(b.take(longer.len() as int) == longer);
                assert forall|i: int| 0 <= i < out.len() implies b[i] == out[i] by {
                    assert(b.take(longer.len() as int)[i] == longer[i]);
                }
            }
        }
    }
}

proof fn prediction_is_exactly_bounded(
    learned: Learned,
    target: usize,
    from: Seq<usize>,
    by_score: Seq<usize>,
    by_use: Seq<usize>,
)
    requires
        is_ranking(by_score, scores(learned.trans, target, from)),
        is_ranking(by_use, in_layer(learned.freq, target)),
    ensures
        learned.prediction(target, from).len() <= learned.topn,
        learned.prediction(target, from).no_duplicates(),
        forall|e: usize| #[trigger]
            learned.prediction(target, from).contains(e) ==> learned.knows(target, from, e),
        learned.prediction(target, from).len() == learned.topn || forall|e: usize|
            learned.knows(target, from, e) ==> #[trigger] learned.prediction(
                target,
                from,
            ).contains(e),
{
    let score = scores(learned.trans, target, from);
    let freq = in_layer(learned.freq, target);
    crate::tally::ranking_is_unique(by_score, ranking_of(score), score);
    crate::tally::ranking_is_unique(by_use, ranking_of(freq), freq);
    let first = first_of(by_score, learned.topn);
    assert(first.no_duplicates());
    backfill_facts(first, by_use, learned.topn);
    let p = learned.prediction(target, from);
    assert forall|e: usize| #[trigger] p.contains(e) implies learned.knows(target, from, e) by {
        if first.contains(e) {
            let i = choose|i: int| 0 <= i < first.len() && first[i] == e;
            assert(by_score[i] == e);
            assert(by_score.contains(e));
        } else {
            assert(by_use.contains(e));
        }
    }
    if p.len() != learned.topn {
        if by_score.len() > learned.topn {
            assert(p.len() >= first.len());
        }
        assert forall|e: usize| learned.knows(target, from, e) implies #[trigger] p.contains(e) by {
            if score.dom().contains(e) {
                assert(by_score.contains(e));
                assert(first.contains(e));
            } else {
                assert(freq.dom().contains(e));
                assert(by_use.contains(e));
            }
        }
    }
}

/// Asked for no experts, a predictor predicts none, whatever it has learned.
pub proof fn asked_for_none_predicts_none(learned: Learned, target: usize, from: Seq<usize>)
    requires
        learned.topn == 0,
    ensures
        learned.prediction(target, from) == Seq::<usize>::empty(),
{
    let r = ranking_of(scores(learned.trans, target, from));
    assert(first_of(r, 0) =~= Seq::<usize>::empty());
}

/// How often expert `e` of `target` followed the experts `from`, over all of them.
pub open spec fn times_followed(
    trans: Map<Transition, u64>,
    target: usize,
    from: Seq<usize>,
    e: usize,
) -> nat {
    from.fold_left(
        0nat,
        |sum: nat, f: usize| sum + count_in(trans, Transition { layer: target, from: f, to: e }) as nat,
    )
}

/// An expert is scored by how often it followed each of the routed experts, summed
/// over all of them and held at the largest count; it has a score exactly where one
/// of them was ever followed by it.
pub proof fn every_routed_expert_speaks(
    trans: Map<Transition, u64>,
    target: usize,
    from: Seq<usize>,
    e: usize,
)
    ensures
        count_in(scores(trans, target, from), e) == capped(
            times_followed(trans, target, from, e) as int,
        ),
        scores(trans, target, from).dom().contains(e) <==> exists|k: int|
            0 <= k < from.len() && trans.dom().contains(
                Transition { layer: target, from: #[trigger] from[k], to: e },
            ),
    decreases from.len(),
{
    let step = |sum: nat, f: usize|
        sum + count_in(trans, Transition { layer: target, from: f, to: e }) as nat;
    if from.len() > 0 {
        let front = from.drop_last();
        every_routed_expert_speaks(trans, target, front, e);
        assert(times_followed(trans, target, from, e) == step(
            front.fold_left(0nat, step),
            from.last(),
        ));
        if scores(trans, target, front).dom().contains(e) {
            let k = choose|k: int|
                0 <= k < front.len() && trans.dom().contains(
                    Transition { layer: target, from: #[trigger] front[k], to: e },
                );
            assert(from[k] == front[k]);
        }
        if exists|k: int|
            0 <= k < from.len() && trans.dom().contains(
                Transition { layer: target, from: #[trigger] from[k], to: e },
            ) {
            let k = choose|k: int|
                0 <= k < from.len() && trans.dom().contains(
                    Transition { layer: target, from: #[trigger] from[k], to: e },
                );
            if k < front.len() {
                assert(front[k] == from[k]);
            }
        }
        let last = from[from.len() - 1];
        assert(last == from.last());
    }
}

/// In which order the routed experts come does not matter.
pub proof fn the_order_of_routed_experts_does_not_matter(
    learned: Learned,
    target: usize,
    a: Seq<usize>,
    b: Seq<usize>,
)
    requires
        a.to_multiset() == b.to_multiset(),
    ensures
        scores(learned.trans, target, a) == scores(learned.trans, target, b),
        learned.prediction(target, a) == learned.prediction(target, b),
{
    let trans = learned.trans;
    assert forall|e: usize| #![auto]
        scores(trans, target, a).dom().contains(e) <==> scores(trans, target, b).dom().contains(
            e,
        ) by {
        every_routed_expert_speaks(trans, target, a, e);
        every_routed_expert_speaks(trans, target, b, e);
        same_members(a, b);
        same_members(b, a);
        if scores(trans, target, a).dom().contains(e) {
            let k = choose|k: int|
                0 <= k < a.len() && trans.dom().contains(
                    Transition { layer: target, from: #[trigger] a[k], to: e },
                );
            assert(a.contains(a[k]));
            let j = choose|j: int| 0 <= j < b.len() && b[j] == a[k];
            assert(trans.dom().contains(Transition { layer: target, from: b[j], to: e }));
        }
        if scores(trans, target, b).dom().contains(e) {
            let k = choose|k: int|
                0 <= k < b.len() && trans.dom().contains(
                    Transition { layer: target, from: #[trigger] b[k], to: e },
                );
            assert(b.contains(b[k]));
            let j = choose|j: int| 0 <= j < a.len() && a[j] == b[k];
            assert(trans.dom().contains(Transition { layer: target, from: a[j], to: e }));
        }
    }
    assert forall|e: usize| #![auto] scores(trans, target, a).dom().contains(e) implies scores(
        trans,
        target,
        a,
    )[e] == scores(trans, target, b)[e] by {
        every_routed_expert_speaks(trans, target, a, e);
        every_routed_expert_speaks(trans, target, b, e);
        let step = |sum: nat, f: usize|
            sum + count_in(trans, Transition { layer: target, from: f, to: e }) as nat;
        vstd::seq_lib::lemma_fold_left_permutation(a, b, step, 0nat);
    }
    assert(scores(trans, target, a) =~= scores(trans, target, b));
}

proof fn same_members(a: Seq<usize>, b: Seq<usize>)
    requires
        a.to_multiset() == b.to_multiset(),
    ensures
        forall|x: usize| #[trigger] a.contains(x) ==> b.contains(x),
{
    broadcast use vstd::seq_lib::group_to_multiset_ensures;

    assert forall|x: usize| #[trigger] a.contains(x) implies b.contains(x) by {
        assert(a.to_multiset().count(x) > 0);
        assert(b.to_multiset().count(x) > 0);
    }
}

/// How often `x` stands in `s`.
pub open spec fn times_in(s: Seq<usize>, x: usize) -> nat {
    s.to_multiset().count(x)
}

proof fn times_in_longer(s: Seq<usize>, x: usize)
    requires
        s.len() > 0,
    ensures
        times_in(s, x) == times_in(s.drop_last(), x) + if s.last() == x {
            1nat
        } else {
            0
        },
{
    broadcast use vstd::seq_lib::group_to_multiset_ensures;

    assert(s.drop_last().push(s.last()) =~= s);
}

proof fn times_in_nothing(s: Seq<usize>, x: usize)
    requires
        s.len() == 0,
    ensures
        times_in(s, x) == 0,
{
    broadcast use vstd::seq_lib::group_to_multiset_ensures;

    if s.to_multiset().count(x) > 0 {
        assert(s.contains(x));
    }
}

/// Using experts counts each as often as it was used, and nothing else.
pub proof fn uses_are_counted(
    freq: Map<ExpertId, u64>,
    layer: usize,
    eids: Seq<usize>,
    id: ExpertId,
)
    ensures
        count_in(used(freq, layer, eids), id) == capped(
            count_in(freq, id) + if id.layer == layer {
                times_in(eids, id.eid)
            } else {
                0
            },
        ),
        used(freq, layer, eids).dom().contains(id) <==> freq.dom().contains(id) || id.layer == layer
            && times_in(eids, id.eid) > 0,
    decreases eids.len(),
{
    if eids.len() > 0 {
        let front = used(freq, layer, eids.drop_last());
        let k = ExpertId { layer, eid: eids.last() };
        uses_are_counted(freq, layer, eids.drop_last(), id);
        times_in_longer(eids, id.eid);
        assert(used(freq, layer, eids) == counted(front, k, 1));
        assert(id == k <==> id.layer == layer && eids.last() == id.eid);
        if id == k {
            assert(count_in(counted(front, k, 1), id) == capped(count_in(front, id) + 1));
        } else {
            assert(count_in(counted(front, k, 1), id) == count_in(front, id));
        }
    } else {
        times_in_nothing(eids, id.eid);
    }
}

proof fn followers_are_counted(
    trans: Map<Transition, u64>,
    layer: usize,
    from: usize,
    eids: Seq<usize>,
    x: Transition,
)
    ensures
        count_in(followed(trans, layer, from, eids), x) == capped(
            count_in(trans, x) + if x.layer == layer && x.from == from {
                times_in(eids, x.to)
            } else {
                0
            },
        ),
        followed(trans, layer, from, eids).dom().contains(x) <==> trans.dom().contains(x) || x.layer
            == layer && x.from == from && times_in(eids, x.to) > 0,
    decreases eids.len(),
{
    if eids.len() > 0 {
        let front = followed(trans, layer, from, eids.drop_last());
        let k = Transition { layer, from, to: eids.last() };
        followers_are_counted(trans, layer, from, eids.drop_last(), x);
        times_in_longer(eids, x.to);
        assert(followed(trans, layer, from, eids) == counted(front, k, 1));
        assert(x == k <==> x.layer == layer && x.from == from && eids.last() == x.to);
        if x == k {
            assert(count_in(counted(front, k, 1), x) == capped(count_in(front, x) + 1));
        } else {
            assert(count_in(counted(front, k, 1), x) == count_in(front, x));
        }
    } else {
        times_in_nothing(eids, x.to);
    }
}

/// Where one layer's experts followed another's, each pair is counted as often as it
/// can be formed, and nothing else.
pub proof fn pairs_are_counted(
    trans: Map<Transition, u64>,
    layer: usize,
    before: Seq<usize>,
    eids: Seq<usize>,
    x: Transition,
)
    ensures
        count_in(all_followed(trans, layer, before, eids), x) == capped(
            count_in(trans, x) + if x.layer == layer {
                times_in(before, x.from) * times_in(eids, x.to)
            } else {
                0
            },
        ),
        all_followed(trans, layer, before, eids).dom().contains(x) <==> trans.dom().contains(x)
            || x.layer == layer && times_in(before, x.from) > 0 && times_in(eids, x.to) > 0,
    decreases before.len(),
{
    let n = times_in(eids, x.to);
    if before.len() > 0 {
        let front = before.drop_last();
        pairs_are_counted(trans, layer, front, eids, x);
        times_in_longer(before, x.from);
        followers_are_counted(
            all_followed(trans, layer, front, eids),
            layer,
            before.last(),
            eids,
            x,
        );
        let m = times_in(front, x.from);
        assert((m + 1) * n == m * n + n && 0 <= m * n) by (nonlinear_arith);
    } else {
        times_in_nothing(before, x.from);
        assert(0 * n == 0) by (nonlinear_arith);
    }
}

/// What a predictor learns from a layer's experts: each is counted as used, and where
/// the layer before was the one seen last, as following each of its experts. What was
/// seen is remembered for the layer that comes next; how many it predicts stays.
pub proof fn a_layer_is_learned(
    learned: Learned,
    layer: usize,
    eids: Seq<usize>,
    id: ExpertId,
    x: Transition,
)
    ensures
        ({
            let after = learned.after(layer, eids);
            let pairs = match learned.last {
                Some((l, before)) if l + 1 == layer && x.layer == layer => times_in(before, x.from)
                    * times_in(eids, x.to),
                _ => 0,
            };
            &&& count_in(after.freq, id) == capped(
                count_in(learned.freq, id) + if id.layer == layer {
                    times_in(eids, id.eid)
                } else {
                    0
                },
            )
            &&& count_in(after.trans, x) == capped(count_in(learned.trans, x) + pairs)
            &&& after.last == Some((layer, eids))
            &&& after.topn == learned.topn
        }),
{
    uses_are_counted(learned.freq, layer, eids, id);
    if let Some((l, before)) = learned.last {
        if l + 1 == layer {
            pairs_are_counted(learned.trans, layer, before, eids, x);
        }
    }
}

proof fn backfill_keeps_order(out: Seq<usize>, more: Seq<usize>, topn: nat, i: int, j: int)
    requires
        out.no_duplicates(),
        out.len() <= topn,
        more.no_duplicates(),
        out.len() <= i < j < backfilled(out, more, topn).len(),
    ensures
        exists|a: int, b: int|
            0 <= a < b < more.len() && #[trigger] more[a] == backfilled(out, more, topn)[i]
                && #[trigger] more[b] == backfilled(out, more, topn)[j],
    decreases more.len(),
{
    let b = backfilled(out, more, topn);
    if more.len() == 0 || out.len() >= topn {
    } else {
        let rest = more.drop_first();
        assert(rest.no_duplicates());
        let longer = if out.contains(more[0]) {
            out
        } else {
            out.push(more[0])
        };
        if i >= longer.len() {
            backfill_keeps_order(longer, rest, topn, i, j);
            let (p, q) = choose|p: int, q: int|
                0 <= p < q < rest.len() && #[trigger] rest[p] == b[i] && #[trigger] rest[q] == b[j];
            assert(more[p + 1] == b[i] && more[q + 1] == b[j]);
        } else {
            backfill_facts(longer, rest, topn);
            assert(b.take(longer.len() as int)[i] == longer[i]);
            assert(b[i] == more[0]);
            assert(b.contains(b[j]));
            if longer.contains(b[j]) {
                let p = choose|p: int| 0 <= p < longer.len() && longer[p] == b[j];
                assert(b.take(longer.len() as int)[p] == longer[p]);
                assert(b[p] == b[j]);
            }
            assert(rest.contains(b[j]));
            let q = choose|q: int| 0 <= q < rest.len() && rest[q] == b[j];
            assert(more[q + 1] == b[j]);
            assert(more[0] == b[i]);
        }
    }
}

proof fn backfill_takes_the_first(out: Seq<usize>, more: Seq<usize>, topn: nat, q: int)
    requires
        out.no_duplicates(),
        out.len() <= topn,
        more.no_duplicates(),
        0 <= q < more.len(),
        !backfilled(out, more, topn).contains(more[q]),
    ensures
        backfilled(out, more, topn).len() == topn,
        forall|j: int|
            out.len() <= j < backfilled(out, more, topn).len() ==> exists|p: int|
                0 <= p < q && #[trigger] more[p] == #[trigger] backfilled(out, more, topn)[j],
    decreases more.len(),
{
    let b = backfilled(out, more, topn);
    backfill_facts(out, more, topn);
    assert(more.contains(more[q]));
    if more.len() == 0 || out.len() >= topn {
    } else {
        let rest = more.drop_first();
        assert(rest.no_duplicates());
        let longer = if out.contains(more[0]) {
            out
        } else {
            out.push(more[0])
        };
        backfill_facts(longer, rest, topn);
        if q == 0 {
            if !out.contains(more[0]) {
                assert(b.take(longer.len() as int)[out.len() as int] == more[0]);
                assert(b[out.len() as int] == more[0]);
                assert(b.contains(more[0]));
            } else {
                let p = choose|p: int| 0 <= p < out.len() && out[p] == more[0];
                assert(b.take(out.len() as int)[p] == out[p]);
                assert(b[p] == more[0]);
                assert(b.contains(more[0]));
            }
        } else {
            assert(rest[q - 1] == more[q]);
            backfill_takes_the_first(longer, rest, topn, q - 1);
            assert forall|j: int| out.len() <= j < b.len() implies exists|p: int|
                0 <= p < q && #[trigger] more[p] == #[trigger] b[j] by {
                if j < longer.len() {
                    assert(b.take(longer.len() as int)[j] == longer[j]);
                    assert(more[0] == b[j]);
                } else {
                    let p = choose|p: int| 0 <= p < q - 1 && #[trigger] rest[p] == b[j];
                    assert(more[p + 1] == b[j]);
                }
            }
        }
    }
}

/// Whether expert `a` of `target` is predicted rather than `b` after `from`: one that
/// followed the routed experts before one that only was used; of two that followed the
/// one that did so more often, of two that were used the one that was used more often;
/// and of two that are even the one with the smaller number.
pub open spec fn predicted_before(
    learned: Learned,
    target: usize,
    from: Seq<usize>,
    a: usize,
    b: usize,
) -> bool {
    let follows = |e: usize|
        exists|k: int|
            0 <= k < from.len() && learned.trans.dom().contains(
                Transition { layer: target, from: #[trigger] from[k], to: e },
            );
    let strength = |e: usize|
        if follows(e) {
            capped(times_followed(learned.trans, target, from, e) as int)
        } else {
            learned.freq[ExpertId { layer: target, eid: e }]
        };
    if follows(a) != follows(b) {
        follows(a)
    } else {
        strength(a) > strength(b) || strength(a) == strength(b) && a < b
    }
}

proof fn the_strongest_are_predicted(
    learned: Learned,
    target: usize,
    from: Seq<usize>,
    by_score: Seq<usize>,
    by_use: Seq<usize>,
    j: int,
    e: usize,
)
    requires
        is_ranking(by_score, scores(learned.trans, target, from)),
        is_ranking(by_use, in_layer(learned.freq, target)),
        0 <= j < learned.prediction(target, from).len(),
        learned.knows(target, from, e),
        forall|i: int|
            0 <= i <= j ==> #[trigger] learned.prediction(target, from)[i] != e,
    ensures
        predicted_before(learned, target, from, learned.prediction(target, from)[j], e),
{
    let score = scores(learned.trans, target, from);
    let freq = in_layer(learned.freq, target);
    crate::tally::ranking_is_unique(by_score, ranking_of(score), score);
    crate::tally::ranking_is_unique(by_use, ranking_of(freq), freq);
    let first = first_of(by_score, learned.topn);
    assert(first.no_duplicates());
    backfill_facts(first, by_use, learned.topn);
    let p = learned.prediction(target, from);
    let d = p[j];
    every_routed_expert_speaks(learned.trans, target, from, d);
    every_routed_expert_speaks(learned.trans, target, from, e);
    assert(forall|i: int| 0 <= i < first.len() ==> #[trigger] first[i] == by_score[i]);
    if j < first.len() {
        assert(p.take(first.len() as int)[j] == first[j]);
        assert(d == by_score[j]);
        assert(by_score.contains(d));
        if score.dom().contains(e) {
            assert(by_score.contains(e));
            let q = choose|q: int| 0 <= q < by_score.len() && by_score[q] == e;
            if q <= j {
                assert(p.take(first.len() as int)[q] == first[q]);
            }
            assert(hotter(score, by_score[j], by_score[q]));
        }
    } else {
        assert(p.contains(d));
        assert(by_score.len() <= learned.topn);
        assert(first == by_score);
        assert(!by_score.contains(d)) by {
            if by_score.contains(d) {
                let q = choose|q: int| 0 <= q < by_score.len() && by_score[q] == d;
                assert(p.take(first.len() as int)[q] == first[q]);
                assert(p[q] == p[j]);
            }
        }
        assert(by_use.contains(d));
        if score.dom().contains(e) {
            assert(by_score.contains(e));
            let q = choose|q: int| 0 <= q < by_score.len() && by_score[q] == e;
            assert(p.take(first.len() as int)[q] == first[q]);
            assert(p[q] == e);
        } else {
            assert(freq.dom().contains(e));
            assert(by_use.contains(e));
            let y = choose|y: int| 0 <= y < by_use.len() && by_use[y] == e;
            if p.contains(e) {
                let i = choose|i: int| 0 <= i < p.len() && p[i] == e;
                backfill_keeps_order(first, by_use, learned.topn, j, i);
                let (a, b) = choose|a: int, b: int|
                    0 <= a < b < by_use.len() && #[trigger] by_use[a] == p[j]
                        && #[trigger] by_use[b] == p[i];
                assert(hotter(freq, by_use[a], by_use[b]));
            } else {
                backfill_takes_the_first(first, by_use, learned.topn, y);
                let a = choose|a: int| 0 <= a < y && #[trigger] by_use[a] == p[j];
                assert(hotter(freq, by_use[a], by_use[y]));
            }
        }
    }
}

/// A layer's experts are taken for the next layer's exactly where there are at least
/// sixty-four of them and, if it is known how many the model has, at least half of those.
pub proof fn only_wide_layers_predict_the_next(n_routed: usize, n_experts: u64, b: bool)
    requires
        call_ensures(ahead_predicts_next_layer, (n_routed, n_experts), b),
    ensures
        b <==> n_routed > 63 && (n_experts == 0 || 2 * n_routed >= n_experts),
{
}

/// An online next-layer predictor.
pub struct Predictor {
    topn: usize,
    freq: Tally<ExpertId>,
    trans: Tally<Transition>,
    last: Option<(usize, Vec<usize>)>,
}

impl View for Predictor {
    type V = Learned;

    closed spec fn view(&self) -> Learned {
        Learned {
            topn: self.topn as nat,
            freq: self.freq@,
            trans: self.trans@,
            last: match self.last {
                Some((l, v)) => Some((l, v@)),
                None => None,
            },
        }
    }
}

/// A copy of `v`.
fn copied(v: &Vec<usize>) -> (c: Vec<usize>)
    ensures
        c@ == v@,
{
    let mut c: Vec<usize> = Vec::new();
    for i in 0..v.len()
        invariant
            c@ == v@.take(i as int),
    {
        c.push(v[i]);
        assert(c@ =~= v@.take(i + 1));
    }
    assert(v@.take(v@.len() as int) =~= v@);
    c
}

/// Whether `v` holds `e`.
fn holds(v: &Vec<usize>, e: usize) -> (b: bool)
    ensures
        b == v@.contains(e),
{
    for i in 0..v.len()
        invariant
            forall|j: int| 0 <= j < i ==> v@[j] != e,
    {
        if v[i] == e {
            assert(v@[i as int] == e);
            return true;
        }
    }
    false
}

impl Predictor {
    /// The counters are in order.
    pub closed spec fn wf(&self) -> bool {
        self.freq.wf() && self.trans.wf()
    }

    /// A predictor that has seen nothing and predicts at most `topn` experts.
    pub fn new(topn: usize) -> (p: Predictor)
        ensures
            p.wf(),
            p@ == (Learned {
                topn: topn as nat,
                freq: Map::empty(),
                trans: Map::empty(),
                last: None,
            }),
    {
        Predictor { topn, freq: Tally::new(), trans: Tally::new(), last: None }
    }

    /// Records that `layer` used `eids`, and predicts the next layer's experts.
    pub fn observe_and_predict(&mut self, layer: usize, eids: &Vec<usize>) -> (predicted: Vec<
        usize,
    >)
        requires
            old(self).wf(),
            layer < usize::MAX,
        ensures
            final(self).wf(),
            final(self)@ == old(self)@.after(layer, eids@),
            predicted@ == final(self)@.prediction((layer + 1) as usize, eids@),
    {
        let ghost before = self@;
        assert(eids@.take(0) =~= Seq::<usize>::empty());
        for i in 0..eids.len()
            invariant
                self.wf(),
                self.freq@ == used(before.freq, layer, eids@.take(i as int)),
                self@.topn == before.topn,
                self@.trans == before.trans,
                self@.last == before.last,
        {
            self.freq.count(ExpertId { layer, eid: eids[i] }, 1);
            assert(eids@.take(i + 1).drop_last() =~= eids@.take(i as int));
        }
        assert(eids@.take(eids@.len() as int) =~= eids@);
        let last: Option<(usize, Vec<usize>)> = self.last.take();
        if let Some((ll, le)) = last {
            if ll < layer && ll + 1 == layer {
                self.learn_transitions(layer, &le, eids);
            }
        }
        self.last = Some((layer, copied(eids)));
        let predicted: Vec<usize> = self.predict(layer + 1, eids);
        assert(self@ =~= before.after(layer, eids@));
        predicted
    }

    /// Counts that each of `eids` followed each of `before`.
    fn learn_transitions(&mut self, layer: usize, before: &Vec<usize>, eids: &Vec<usize>)
        requires
            old(self).wf(),
        ensures
            final(self).wf(),
            final(self)@ == (Learned {
                trans: all_followed(old(self)@.trans, layer, before@, eids@),
                ..old(self)@
            }),
    {
        let ghost start = self@;
        assert(before@.take(0) =~= Seq::<usize>::empty());
        for i in 0..before.len()
            invariant
                self.wf(),
                self@ == (Learned {
                    trans: all_followed(start.trans, layer, before@.take(i as int), eids@),
                    ..start
                }),
        {
            let ghost so_far = self.trans@;
            assert(eids@.take(0) =~= Seq::<usize>::empty());
            for j in 0..eids.len()
                invariant
                    i < before@.len(),
                    self.wf(),
                    self@ == (Learned {
                        trans: followed(so_far, layer, before@[i as int], eids@.take(j as int)),
                        ..start
                    }),
            {
                self.trans.count(Transition { layer, from: before[i], to: eids[j] }, 1);
                assert(eids@.take(j + 1).drop_last() =~= eids@.take(j as int));
            }
            assert(eids@.take(eids@.len() as int) =~= eids@);
            assert(before@.take(i + 1).drop_last() =~= before@.take(i as int));
        }
        assert(before@.take(before@.len() as int) =~= before@);
    }

    /// The predicted experts for `target` after `from`. There are never more of
    /// them than asked for and none comes twice; something learned speaks for
    /// each, and fewer come only where all that is known of comes. The strongest
    /// come first, and none is left out for the sake of a weaker one.
    pub fn predict(&self, target: usize, from: &Vec<usize>) -> (out: Vec<usize>)
        requires
            self.wf(),
        ensures
            out@ == self@.prediction(target, from@),
            out@.len() <= self@.topn,
            out@.no_duplicates(),
            forall|e: usize| #[trigger] out@.contains(e) ==> self@.knows(target, from@, e),
            out@.len() == self@.topn || forall|e: usize|
                self@.knows(target, from@, e) ==> #[trigger] out@.contains(e),
            forall|j: int, e: usize|
                0 <= j < out@.len() && self@.knows(target, from@, e) && !out@.take(j + 1).contains(e)
                    ==> #[trigger] predicted_before(self@, target, from@, out@[j], e),
    {
        let mut score: Tally<usize> = Tally::new();
        assert(from@.take(0) =~= Seq::<usize>::empty());
        for i in 0..from.len()
            invariant
                self.wf(),
                score.wf(),
                score@ == scores(self.trans@, target, from@.take(i as int)),
        {
            let next: Tally<usize> = self.trans.successors(target, from[i]);
            score.absorb(&next);
            assert(from@.take(i + 1).drop_last() =~= from@.take(i as int));
        }
        assert(from@.take(from@.len() as int) =~= from@);
        let ranked: Vec<usize> = score.ranked();
        let mut out: Vec<usize> = Vec::new();
        let mut i: usize = 0;
        assert(ranked@.take(0) =~= Seq::<usize>::empty());
        while i < ranked.len() && out.len() < self.topn
            invariant
                i <= ranked@.len(),
                i <= self.topn,
                out@ == ranked@.take(i as int),
            decreases ranked@.len() - i,
        {
            out.push(ranked[i]);
            i = i + 1;
            assert(out@ =~= ranked@.take(i as int));
        }
        assert(out@ =~= first_of(ranked@, self.topn as nat));
        let frequent: Vec<usize> = self.freq.of_layer(target).ranked();
        let mut j: usize = 0;
        assert(frequent@.skip(0) =~= frequent@);
        while j < frequent.len() && out.len() < self.topn
            invariant
                j <= frequent@.len(),
                backfilled(out@, frequent@.skip(j as int), self.topn as nat) == self@.prediction(
                    target,
                    from@,
                ),
            decreases frequent@.len() - j,
        {
            assert(frequent@.skip(j as int).drop_first() =~= frequent@.skip(j + 1));
            let e: usize = frequent[j];
            if !holds(&out, e) {
                out.push(e);
            }
            j = j + 1;
        }
        proof {
            prediction_is_exactly_bounded(self@, target, from@, ranked@, frequent@);
            assert forall|j: int, e: usize|
                0 <= j < out@.len() && self@.knows(target, from@, e) && !out@.take(
                    j + 1,
                ).contains(e) implies #[trigger] predicted_before(
                self@,
                target,
                from@,
                out@[j],
                e,
            ) by {
                let head = out@.take(j + 1);
                assert forall|i: int| 0 <= i <= j implies #[trigger] out@[i] != e by {
                    assert(head[i] == out@[i]);
                }
                the_strongest_are_predicted(self@, target, from@, ranked@, frequent@, j, e);
            }
        }
        out
    }
}

} // verus!
