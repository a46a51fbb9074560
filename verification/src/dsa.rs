//! Sparse attention: which cached positions a query attends to.
//!
//! A light indexer scores every cached key against a query, and attention goes
//! over the best-scored positions alone. Where the context is no longer than
//! what would be kept, nothing is left out and attention is dense.
//!
//! Scores are f32 values given by their bits. Of two values that are not NaN the
//! larger one is the larger in the order of their sign and magnitude, and the two
//! zeros are equal there.

use vstd::prelude::*;
use crate::order::{better, is_top, top};

verus! {

/// The signed magnitude of an f32 value given by its bits.
pub open spec fn signed_magnitude(bits: u32) -> int {
    if bits >= 0x8000_0000 {
        -(bits as int - 0x8000_0000)
    } else {
        bits as int
    }
}

/// A number that grows with the value: the signed magnitude, moved up.
pub open spec fn rank_of(bits: u32) -> int {
    signed_magnitude(bits) + 0x8000_0000
}

/// A number that grows with the value that `bits` stand for.
pub fn order_key(bits: u32) -> (k: u64)
    ensures
        k == rank_of(bits),
{
    if bits >= 0x8000_0000u32 {
        0x8000_0000u64 - (bits - 0x8000_0000u32) as u64
    } else {
        bits as u64 + 0x8000_0000u64
    }
}

/// The order keys of `scores`.
pub open spec fn keys_of(scores: Seq<u32>) -> Seq<u64> {
    scores.map_values(|b: u32| rank_of(b) as u64)
}

fn order_keys(scores: &Vec<u32>) -> (keys: Vec<u64>)
    ensures
        keys@ == keys_of(scores@),
{
    let mut keys: Vec<u64> = Vec::new();
    for i in 0..scores.len()
        invariant
            keys@.len() == i,
            forall|j: int| 0 <= j < i ==> keys@[j] == rank_of(scores@[j]) as u64,
    {
        keys.push(order_key(scores[i]));
    }
    assert(keys@ =~= keys_of(scores@));
    keys
}

/// Whether every key is selected, so that attention is dense.
pub fn is_dense(nk: usize, index_topk: usize) -> (b: bool)
    ensures
        b == (nk <= index_topk),
{
    nk <= index_topk
}

/// The positions that attention goes over for one query: the `index_topk` best
/// scores, at equal scores the earlier position, in rising order.
pub fn select_topk(scores: &Vec<u32>, index_topk: usize) -> (sel: Vec<usize>)
    ensures
        is_top(sel@, keys_of(scores@), index_topk as nat),
        scores@.len() <= index_topk ==> sel@ == Seq::new(scores@.len(), |i: int| i as usize),
{
    let n: usize = scores.len();
    if is_dense(n, index_topk) {
        let mut all: Vec<usize> = Vec::new();
        for i in 0..n
            invariant
                all@ == Seq::new(i as nat, |j: int| j as usize),
        {
            all.push(i);
            assert(all@ =~= Seq::new((i + 1) as nat, |j: int| j as usize));
        }
        proof {
            let s = keys_of(scores@);
            assert forall|b: usize| b < s.len() implies #[trigger] all@.contains(b) by {
                assert(all@[b as int] == b);
            }
        }
        return all;
    }
    let keys: Vec<u64> = order_keys(scores);
    top(&keys, index_topk)
}

/// A kept position scores higher than every position left out, or as high and
/// comes earlier.
pub proof fn selection_follows_the_scores(scores: Seq<u32>, sel: Seq<usize>, k: nat, a: usize, b: usize)
    requires
        is_top(sel, keys_of(scores), k),
        sel.contains(a),
        b < scores.len(),
        !sel.contains(b),
    ensures
        signed_magnitude(scores[a as int]) > signed_magnitude(scores[b as int]) || (
        signed_magnitude(scores[a as int]) == signed_magnitude(scores[b as int]) && a < b),
{
    let s = keys_of(scores);
    let i = choose|i: int| 0 <= i < sel.len() && sel[i] == a;
    assert(sel[i] < s.len());
    assert(better(s, a, b));
}

/// Whether the indexer selects for query `s` of a prefill that begins at
/// `pos_base`: only once more positions are visible than are kept.
pub open spec fn query_is_sparse(pos_base: int, s: int, index_topk: int) -> bool {
    pos_base + s + 1 > index_topk
}

/// Whether `sel` are the selections of a prefill: the best-scored positions for
/// each query that can see more than is kept, and nothing for the others.
pub open spec fn selects(
    sel: Seq<Vec<usize>>,
    scores: Seq<Vec<u32>>,
    pos_base: int,
    index_topk: nat,
) -> bool {
    &&& sel.len() == scores.len()
    &&& forall|s: int|
        0 <= s < sel.len() ==> if query_is_sparse(pos_base, s, index_topk as int) {
            is_top((#[trigger] sel[s])@, keys_of(scores[s]@), index_topk)
        } else {
            sel[s]@.len() == 0
        }
}

/// Whether every query that can see more than is kept comes with a score for each
/// position it sees.
pub open spec fn scores_cover(scores: Seq<Vec<u32>>, pos_base: int, index_topk: int) -> bool {
    forall|s: int|
        0 <= s < scores.len() && query_is_sparse(pos_base, s, index_topk) ==> (
        #[trigger] scores[s])@.len() == pos_base + s + 1
}

/// The selections of a prefill, one per query, from the scores of each: empty
/// for a query that attends to everything it can see.
pub fn select_queries(scores: &Vec<Vec<u32>>, pos_base: usize, index_topk: usize) -> (sel: Vec<
    Vec<usize>,
>)
    requires
        pos_base + scores@.len() < usize::MAX,
        scores_cover(scores@, pos_base as int, index_topk as int),
    ensures
        selects(sel@, scores@, pos_base as int, index_topk as nat),
{
    let mut sel: Vec<Vec<usize>> = Vec::new();
    let n: usize = scores.len();
    for s in 0..n
        invariant
            n == scores@.len(),
            pos_base + n < usize::MAX,
            sel@.len() == s,
            forall|q: int|
                0 <= q < s ==> if query_is_sparse(pos_base as int, q, index_topk as int) {
                    is_top((#[trigger] sel@[q])@, keys_of(scores@[q]@), index_topk as nat)
                } else {
                    sel@[q]@.len() == 0
                },
    {
        let nk: usize = pos_base + s + 1;
        if is_dense(nk, index_topk) {
            sel.push(Vec::new());
        } else {
            sel.push(select_topk(&scores[s], index_topk));
        }
    }
    sel
}

/// Whether the f32 of bits `a` is greater than that of bits `b`, where neither is NaN:
/// a sign bit, and behind it a magnitude that grows with the bits. The two zeros are
/// equal.
pub open spec fn is_above(a: u32, b: u32) -> bool {
    if a < 0x8000_0000 {
        if b < 0x8000_0000 {
            a > b
        } else {
            a > 0 || b > 0x8000_0000
        }
    } else {
        b >= 0x8000_0000 && a < b
    }
}

/// Order keys stand as the values do.
pub proof fn order_keys_follow_the_values(a: u32, b: u32, ka: u64, kb: u64)
    requires
        call_ensures(order_key, (a,), ka),
        call_ensures(order_key, (b,), kb),
    ensures
        ka > kb <==> is_above(a, b),
{
}

/// Of `n` scores the `k` best are selected, or all where there are no more: each place
/// once and in rising order, and none is left out that scores higher than a selected
/// one, or as high and comes earlier.
pub proof fn the_best_scored_are_selected(scores: Seq<u32>, k: nat, sel: Seq<usize>)
    requires
        is_top(sel, keys_of(scores), k),
    ensures
        sel.len() <= k,
        sel.len() <= scores.len(),
        sel.len() == k || sel.len() == scores.len(),
        forall|i: int| 0 <= i < sel.len() ==> #[trigger] sel[i] < scores.len(),
        forall|i: int, j: int| 0 <= i < j < sel.len() ==> sel[i] < sel[j],
        forall|i: int, b: usize|
            #![trigger sel[i], scores[b as int]]
            0 <= i < sel.len() && b < scores.len() && !sel.contains(b) ==> {
                ||| is_above(scores[sel[i] as int], scores[b as int])
                ||| !is_above(scores[b as int], scores[sel[i] as int]) && sel[i] < b
            },
{
    let s = keys_of(scores);
    assert forall|i: int, b: usize|
        #![trigger sel[i], scores[b as int]]
        0 <= i < sel.len() && b < scores.len() && !sel.contains(b) implies {
        ||| is_above(scores[sel[i] as int], scores[b as int])
        ||| !is_above(scores[b as int], scores[sel[i] as int]) && sel[i] < b
    } by {
        assert(sel.contains(sel[i]));
        assert(better(s, sel[i], b));
    }
}

/// In a prefill the indexer selects for a query exactly where more positions come up to
/// it than are kept, and it selects that many of them.
pub proof fn long_queries_are_cut_to_the_best(
    scores: Seq<Vec<u32>>,
    pos_base: int,
    k: nat,
    sel: Seq<Vec<usize>>,
    s: int,
)
    requires
        selects(sel, scores, pos_base, k),
        scores_cover(scores, pos_base, k as int),
        pos_base >= 0,
        0 <= s < scores.len(),
    ensures
        sel.len() == scores.len(),
        pos_base + s < k ==> sel[s]@.len() == 0,
        pos_base + s >= k ==> sel[s]@.len() == k && forall|i: int|
            0 <= i < k ==> #[trigger] sel[s]@[i] <= pos_base + s,
{
    let q = sel[s]@;
}

} // verus!
