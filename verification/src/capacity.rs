//! Capacity planning: how many experts and how much context fit.

use vstd::prelude::*;

verus! {

/// `a / b`, rounded up.
pub open spec fn div_up(a: int, b: int) -> int {
    (a + b - 1) / b
}

/// Bytes of one `[o, i]` tensor stored at `bits` per weight: f32 from 16 bits
/// up, else int8, int4 or int2 rows with one f32 scale per row.
pub open spec fn tensor_bytes(o: int, i: int, bits: u32) -> int {
    if bits >= 16 {
        o * i * 4
    } else if bits >= 5 {
        o * i + o * 4
    } else if bits >= 3 {
        o * div_up(i, 2) + o * 4
    } else {
        o * div_up(i, 4) + o * 4
    }
}

/// `i / d`, rounded up.
pub fn ceil_div(i: u64, d: u64) -> (q: u64)
    requires
        d > 0,
    ensures
        q == div_up(i as int, d as int),
{
    let q: u64 = i / d;
    let r: u64 = i % d;
    proof {
        vstd::arithmetic::div_mod::lemma_fundamental_div_mod(i as int, d as int);
        let n = i as int + d as int - 1;
        if r == 0 {
            assert(n == q * d + (d - 1)) by (nonlinear_arith)
                requires
                    i == d * q + r,
                    r == 0,
                    n == i + d - 1,
            ;
            vstd::arithmetic::div_mod::lemma_fundamental_div_mod_converse(
                n,
                d as int,
                q as int,
                d - 1,
            );
        } else {
            assert(n == (q + 1) * d + (r - 1)) by (nonlinear_arith)
                requires
                    i == d * q + r,
                    n == i + d - 1,
            ;
            vstd::arithmetic::div_mod::lemma_fundamental_div_mod_converse(
                n,
                d as int,
                q + 1,
                r - 1,
            );
            assert(q + 1 <= i) by (nonlinear_arith)
                requires
                    i == d * q + r,
                    0 < r < d,
                    q >= 0,
            ;
        }
    }
    if r == 0 {
        q
    } else {
        q + 1
    }
}

/// Byte size of one `[o, i]` tensor stored at `bits`.
pub fn qt_bytes(o: u64, i: u64, bits: u32) -> (n: u64)
    requires
        o * i <= u64::MAX,
        tensor_bytes(o as int, i as int, bits) <= u64::MAX,
    ensures
        n == tensor_bytes(o as int, i as int, bits),
{
    let n: u64 = o * i;
    if bits >= 16 {
        n * 4
    } else if bits >= 5 {
        proof {
            assert(o * i >= 0) by (nonlinear_arith);
        }
        n + o * 4
    } else if bits >= 3 {
        let rows: u64 = ceil_div(i, 2);
        assert(o * rows >= 0) by (nonlinear_arith);
        o * rows + o * 4
    } else {
        let rows: u64 = ceil_div(i, 4);
        assert(o * rows >= 0) by (nonlinear_arith);
        o * rows + o * 4
    }
}

/// Bytes of one routed expert: a gate and an up projection of
/// `[moe_inter, hidden]` and a down projection of `[hidden, moe_inter]`.
pub open spec fn expert_bytes(hidden: int, moe_inter: int, bits: u32) -> int {
    2 * tensor_bytes(moe_inter, hidden, bits) + tensor_bytes(hidden, moe_inter, bits)
}

/// Resident bytes of one routed expert.
pub fn bytes_per_expert(hidden: u64, moe_inter: u64, bits: u32) -> (n: u64)
    requires
        hidden * moe_inter <= u64::MAX,
        expert_bytes(hidden as int, moe_inter as int, bits) <= u64::MAX,
    ensures
        n == expert_bytes(hidden as int, moe_inter as int, bits),
{
    proof {
        assert(moe_inter * hidden == hidden * moe_inter) by (nonlinear_arith);
        tensor_bytes_are_not_negative(moe_inter as int, hidden as int, bits);
        tensor_bytes_are_not_negative(hidden as int, moe_inter as int, bits);
    }
    2 * qt_bytes(moe_inter, hidden, bits) + qt_bytes(hidden, moe_inter, bits)
}

proof fn tensor_bytes_are_not_negative(o: int, i: int, bits: u32)
    requires
        o >= 0,
        i >= 0,
    ensures
        tensor_bytes(o, i, bits) >= 0,
{
    assert(o * i >= 0) by (nonlinear_arith)
        requires
            o >= 0,
            i >= 0,
    ;
    let a = div_up(i, 2);
    let b = div_up(i, 4);
    assert(o * a >= 0) by (nonlinear_arith)
        requires
            o >= 0,
            a >= 0,
    ;
    assert(o * b >= 0) by (nonlinear_arith)
        requires
            o >= 0,
            b >= 0,
    ;
}

/// How many experts of `bytes_per_expert` fit in `budget_bytes`.
pub fn experts_in_budget(budget_bytes: u64, bytes_per_expert: u64) -> (n: u64)
    ensures
        n == if bytes_per_expert == 0 { 0 } else { budget_bytes / bytes_per_expert },
{
    if bytes_per_expert == 0 {
        0
    } else {
        budget_bytes / bytes_per_expert
    }
}

/// The longest context, in tokens, whose cache fits in `budget_bytes`.
pub fn context_in_kv_budget(budget_bytes: u64, kv_bytes_per_token: u64) -> (n: u64)
    ensures
        n == if kv_bytes_per_token == 0 { 0 } else { budget_bytes / kv_bytes_per_token },
{
    if kv_bytes_per_token == 0 {
        0
    } else {
        budget_bytes / kv_bytes_per_token
    }
}

/// What is said to fit fits, and one more would not.
pub proof fn what_fits_is_the_most_that_fits(budget: u64, each: u64, n: u64)
    requires
        each > 0,
        n == budget / each,
    ensures
        n * each <= budget,
        (n + 1) * each > budget,
{
    vstd::arithmetic::div_mod::lemma_fundamental_div_mod(budget as int, each as int);
    assert(n * each == each * n) by (nonlinear_arith);
    assert((n + 1) * each == each * n + each) by (nonlinear_arith);
}

/// Rounding up: the smallest number whose product is not less.
pub proof fn rounding_up_is_enough_and_no_more(a: int, b: int)
    requires
        b > 0,
    ensures
        b * div_up(a, b) >= a,
        b * (div_up(a, b) - 1) < a,
{
    vstd::arithmetic::div_mod::lemma_fundamental_div_mod(a + b - 1, b);
    let q = div_up(a, b);
    assert(b * (q - 1) == b * q - b) by (nonlinear_arith);
}

/// What a tensor takes: four bytes to a weight in f32; else a scale of four bytes for each
/// row, and in each row a byte to a weight, or to two, or to four, none shared between rows.
pub proof fn a_tensor_takes_its_weights_and_scales(o: int, i: int, bits: u32, row: int)
    requires
        o >= 0,
        i >= 0,
        bits < 16 ==> tensor_bytes(o, i, bits) == o * (row + 4),
        o > 0,
    ensures
        bits >= 16 ==> tensor_bytes(o, i, bits) == 4 * (o * i),
        5 <= bits < 16 ==> row == i,
        3 <= bits < 5 ==> 2 * (row - 1) < i <= 2 * row,
        bits < 3 ==> 4 * (row - 1) < i <= 4 * row,
{
    assert(o * i * 4 == 4 * (o * i)) by (nonlinear_arith);
    let a = div_up(i, 2);
    let b = div_up(i, 4);
    assert(o * i + o * 4 == o * (i + 4)) by (nonlinear_arith);
    assert(o * a + o * 4 == o * (a + 4)) by (nonlinear_arith);
    assert(o * b + o * 4 == o * (b + 4)) by (nonlinear_arith);
    let mine = if bits >= 5 {
        i
    } else if bits >= 3 {
        a
    } else {
        b
    };
    if bits < 16 {
        assert(row == mine) by (nonlinear_arith)
            requires
                o * (row + 4) == o * (mine + 4),
                o > 0,
        ;
    }
}

/// What an expert takes is what its three projections take, two one way and one the other.
pub proof fn an_expert_is_three_matrices(hidden: int, inter: int, bits: u32)
    requires
        hidden >= 0,
        inter >= 0,
    ensures
        bits >= 16 ==> expert_bytes(hidden, inter, bits) == 12 * (hidden * inter),
        5 <= bits < 16 ==> expert_bytes(hidden, inter, bits) == 3 * (hidden * inter) + 4 * (2
            * inter + hidden),
        expert_bytes(hidden, inter, bits) - tensor_bytes(hidden, inter, bits) == 2 * tensor_bytes(
            inter,
            hidden,
            bits,
        ),
{
    assert(inter * hidden == hidden * inter) by (nonlinear_arith);
}

/// As many experts, and as long a context, as fit are said to fit.
pub proof fn the_budget_is_used_up(budget: u64, each: u64, n: u64, m: u64)
    requires
        call_ensures(experts_in_budget, (budget, each), n),
        call_ensures(context_in_kv_budget, (budget, each), m),
    ensures
        n == m,
        n * each <= budget,
        each > 0 ==> (n + 1) * each > budget,
        each == 0 ==> n == 0,
{
    if each > 0 {
        what_fits_is_the_most_that_fits(budget, each, n);
    } else {
        assert(n * each == 0) by (nonlinear_arith)
            requires
                each == 0,
        ;
    }
}

} // verus!
