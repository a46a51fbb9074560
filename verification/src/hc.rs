//! Several residual streams per token, and where their mixing weights lie.

use vstd::prelude::*;

verus! {

/// The most streams that are supported.
pub const MAX_HC: usize = 8;

/// What a mixing weight is for.
#[derive(Debug, Clone, Copy, PartialEq, Eq, Structural)]
pub enum Weight {
    /// Collapsing the streams: of stream `j`.
    Pre(usize),
    /// Expanding the result: into stream `j`.
    Post(usize),
    /// Carrying stream `j` over into stream `k`.
    Comb(usize, usize),
}

/// Width of the mixing vector for `hc` streams: a weight before and a weight
/// behind the sublayer for each, and one for each pair.
pub fn mix_width(hc: usize) -> (w: usize)
    requires
        (2 + hc) * hc <= usize::MAX,
        hc <= usize::MAX - 2,
    ensures
        w == (2 + hc) * hc,
{
    (2 + hc) * hc
}

/// Where a weight stands in the mixing vector.
pub open spec fn weight_at(hc: int, w: Weight) -> int {
    match w {
        Weight::Pre(j) => j as int,
        Weight::Post(j) => hc + j,
        Weight::Comb(j, k) => 2 * hc + j * hc + k,
    }
}

/// Whether a weight is one of `hc` streams.
pub open spec fn is_weight_of(hc: int, w: Weight) -> bool {
    match w {
        Weight::Pre(j) => j < hc,
        Weight::Post(j) => j < hc,
        Weight::Comb(j, k) => j < hc && k < hc,
    }
}

/// Where a weight stands in the mixing vector.
pub fn mix_index(hc: usize, w: Weight) -> (i: usize)
    requires
        hc <= MAX_HC,
        is_weight_of(hc as int, w),
    ensures
        i == weight_at(hc as int, w),
        i < (2 + hc) * hc,
{
    proof {
        weights_fill_the_vector(hc as int, w, w);
    }
    match w {
        Weight::Pre(j) => j,
        Weight::Post(j) => hc + j,
        Weight::Comb(j, k) => {
            proof {
                assert(j * hc <= 64) by (nonlinear_arith)
                    requires
                        j < hc,
                        hc <= 8,
                ;
            }
            2 * hc + j * hc + k
        },
    }
}

/// Every weight has a place of its own within the mixing vector.
pub proof fn weights_fill_the_vector(hc: int, a: Weight, b: Weight)
    requires
        is_weight_of(hc, a),
        is_weight_of(hc, b),
    ensures
        0 <= weight_at(hc, a) < (2 + hc) * hc,
        a != b ==> weight_at(hc, a) != weight_at(hc, b),
{
    assert((2 + hc) * hc == 2 * hc + hc * hc) by (nonlinear_arith);
    assert(hc > 0);
    assert(hc * hc >= 0) by (nonlinear_arith);
    if let Weight::Comb(j, k) = a {
        assert(j * hc + k < hc * hc && j * hc >= 0) by (nonlinear_arith)
            requires
                0 <= j,
                j + 1 <= hc,
                0 <= k < hc,
        ;
        if let Weight::Comb(p, q) = b {
            vstd::arithmetic::div_mod::lemma_fundamental_div_mod_converse(
                j * hc + k,
                hc,
                j as int,
                k as int,
            );
            vstd::arithmetic::div_mod::lemma_fundamental_div_mod_converse(
                p * hc + q,
                hc,
                p as int,
                q as int,
            );
        }
    }
    if let Weight::Comb(p, q) = b {
        assert(p * hc >= 0) by (nonlinear_arith)
            requires
                0 <= p,
                hc > 0,
        ;
    }
}

/// The mixing vector is the weights before the sublayer by stream, then those behind it
/// by stream, then a row for every stream that is carried over; nothing is left over.
pub proof fn weights_stand_in_three_parts(
    hc: usize,
    width: usize,
    pre: usize,
    post: usize,
    comb: usize,
    j: usize,
    k: usize,
)
    requires
        hc <= MAX_HC,
        j < hc,
        k < hc,
        call_ensures(mix_width, (hc,), width),
        call_ensures(mix_index, (hc, Weight::Pre(j)), pre),
        call_ensures(mix_index, (hc, Weight::Post(j)), post),
        call_ensures(mix_index, (hc, Weight::Comb(j, k)), comb),
    ensures
        pre == j,
        post == pre + hc,
        comb == 2 * hc + hc * j + k,
        j + 1 == hc && k + 1 == hc ==> comb + 1 == width,
{
    assert(j * hc == hc * j) by (nonlinear_arith);
    if j + 1 == hc {
        assert((2 + hc) * hc == 2 * hc + (j + 1) * hc) by (nonlinear_arith)
            requires
                j + 1 == hc,
        ;
        assert((j + 1) * hc == j * hc + hc) by (nonlinear_arith);
    }
}

/// Up to eight streams can be mixed.
pub proof fn eight_streams_can_be_mixed(hc: usize, j: usize, k: usize)
    requires
        j < hc,
        k < hc,
        hc <= 8,
    ensures
        call_requires(mix_index, (hc, Weight::Pre(j))),
        call_requires(mix_index, (hc, Weight::Post(j))),
        call_requires(mix_index, (hc, Weight::Comb(j, k))),
{
}

} // verus!
