//! Quantizing a weight in blocks. Values come and go by the bits of their f32;
//! dividing by a scale is left to the caller.

use vstd::arithmetic::power2::pow2;
use vstd::prelude::*;
use crate::capacity::{ceil_div, div_up};
use crate::convert::MXFP4_GS;
use crate::encode::{
    block_columns, block_span, code_tensor, float_tensor, pack_nibbles, packed_code,
    packing_loses_nothing, quantize, row_bytes4,
};
use crate::minifloat::{
    e2m1_code, e2m1_value, e4m3_value, e8m0_reach, e8m0_scale, finite_magnitudes_are_within_reach,
    float_to_e4m3, is_finite, is_number, is_peak, magnitude, nearest_even_e4m3, nearest_low_e2m1,
    peak, smallest_e8m0, units, units_keep_the_order, INFINITE, SIGN,
};
use crate::shard::OutTensor;

verus! {

/// The columns of block `b` of row `r` of an `[o, i]` weight.
pub open spec fn block_of(w: Seq<u32>, i: int, gs: int, r: int, b: int) -> Seq<u32> {
    let (c0, c1) = block_columns(b, gs, i);
    w.subrange(r * i + c0, r * i + c1)
}

/// Whether `code` is what `bits` round to in e4m3.
pub open spec fn is_e4m3_of(code: u8, bits: u32) -> bool {
    &&& code / 0x80 == if bits >= SIGN {
        1int
    } else {
        0
    }
    &&& is_number(bits) ==> nearest_even_e4m3(magnitude(bits), code as int % 0x80)
    &&& !is_number(bits) ==> code % 0x80 == 0
}

/// Whether `code` is what `bits` round to in e2m1.
pub open spec fn is_e2m1_of(code: int, bits: u32) -> bool {
    &&& code / 8 == if bits >= SIGN {
        1int
    } else {
        0
    }
    &&& is_finite(bits) ==> nearest_low_e2m1(magnitude(bits), code % 8)
    &&& !is_finite(bits) ==> code % 8 == 0
}

/// Whether `codes` are what `bits` round to in e4m3, one for one.
pub open spec fn are_e4m3_of(codes: Seq<u8>, bits: Seq<u32>) -> bool {
    &&& codes.len() == bits.len()
    &&& forall|k: int| 0 <= k < codes.len() ==> is_e4m3_of(#[trigger] codes[k], bits[k])
}

/// The largest magnitude of each block, rows one after another. What scales are
/// made from: a block of a whole row gives one per row.
pub fn block_peaks(w: &Vec<u32>, o: usize, i: usize, gs: usize) -> (peaks: Vec<u32>)
    requires
        w@.len() == o * i,
        gs > 0,
    ensures
        peaks@.len() == o * div_up(i as int, gs as int),
        forall|r: int, b: int|
            0 <= r < o && 0 <= b < div_up(i as int, gs as int) ==> is_peak(
                block_of(w@, i as int, gs as int, r, b),
                #[trigger] peaks@[r * div_up(i as int, gs as int) + b],
            ),
        forall|k: int| 0 <= k < peaks@.len() ==> #[trigger] peaks@[k] <= INFINITE,
{
    let q: u64 = ceil_div(i as u64, gs as u64);
    proof {
        vstd::arithmetic::div_mod::lemma_fundamental_div_mod(i + gs - 1, gs as int);
        assert(q <= i) by (nonlinear_arith)
            requires
                i + gs - 1 == gs * q + (i + gs - 1) % (gs as int),
                0 <= (i + gs - 1) % (gs as int),
                gs >= 1,
                i >= 0,
        ;
    }
    let nb: usize = q as usize;
    let total: usize = w.len();
    let mut peaks: Vec<u32> = Vec::new();
    let ghost nbi = nb as int;
    assert(0 * nbi == 0) by (nonlinear_arith);
    for r in 0..o
        invariant
            w@.len() == o * i,
            total == w@.len(),
            gs > 0,
            nb == nbi,
            nbi == div_up(i as int, gs as int),
            peaks@.len() == r * nbi,
            forall|q: int, b: int|
                0 <= q < r && 0 <= b < nbi ==> is_peak(
                    block_of(w@, i as int, gs as int, q, b),
                    #[trigger] peaks@[q * nbi + b],
                ),
            forall|k: int| 0 <= k < peaks@.len() ==> #[trigger] peaks@[k] <= INFINITE,
    {
        proof {
            assert(r * i + i <= o * i) by (nonlinear_arith)
                requires
                    r + 1 <= o,
                    i >= 0,
            ;
            assert((r + 1) * nbi == r * nbi + nbi) by (nonlinear_arith);
            assert(r * i >= 0) by (nonlinear_arith)
                requires
                    r >= 0,
                    i >= 0,
            ;
        }
        let base: usize = r * i;
        for b in 0..nb
            invariant
                w@.len() == o * i,
                total == w@.len(),
                gs > 0,
                nb == nbi,
                nbi == div_up(i as int, gs as int),
                r < o,
                base == r * i,
                base + i <= w@.len(),
                peaks@.len() == r * nbi + b,
                forall|q: int, k: int|
                    0 <= q <= r && 0 <= k < nbi && q * nbi + k < peaks@.len() ==> is_peak(
                        block_of(w@, i as int, gs as int, q, k),
                        #[trigger] peaks@[q * nbi + k],
                    ),
                forall|k: int| 0 <= k < peaks@.len() ==> #[trigger] peaks@[k] <= INFINITE,
        {
            proof {
                vstd::arithmetic::div_mod::lemma_fundamental_div_mod(i + gs - 1, gs as int);
                assert(b * gs < i) by (nonlinear_arith)
                    requires
                        b + 1 <= nbi,
                        i + gs - 1 == gs * nbi + (i + gs - 1) % (gs as int),
                        (i + gs - 1) % (gs as int) >= 0,
                        gs > 0,
                ;
            }
            let (c0, c1): (usize, usize) = block_span(b, gs, i);
            let m: u32 = peak(w, base + c0, base + c1);
            let ghost before = peaks@;
            peaks.push(m);
            assert forall|q: int, k: int|
                0 <= q <= r && 0 <= k < nbi && q * nbi + k < peaks@.len() implies is_peak(
                block_of(w@, i as int, gs as int, q, k),
                #[trigger] peaks@[q * nbi + k],
            ) by {
                if q * nbi + k < before.len() {
                    assert(peaks@[q * nbi + k] == before[q * nbi + k]);
                } else {
                    assert(q == r && k == b) by (nonlinear_arith)
                        requires
                            q * nbi + k == r * nbi + b,
                            0 <= q <= r,
                            0 <= k < nbi,
                            0 <= b < nbi,
                    ;
                }
            }
        }
        assert forall|q: int, b: int| 0 <= q < r + 1 && 0 <= b < nbi implies is_peak(
            block_of(w@, i as int, gs as int, q, b),
            #[trigger] peaks@[q * nbi + b],
        ) by {
            assert(q * nbi + b < (r + 1) * nbi) by (nonlinear_arith)
                requires
                    q <= r,
                    0 <= b < nbi,
            ;
        }
    }
    peaks
}

/// The e4m3 codes of values, one for one.
pub fn e4m3_codes(bits: &Vec<u32>) -> (codes: Vec<u8>)
    ensures
        are_e4m3_of(codes@, bits@),
{
    let mut codes: Vec<u8> = Vec::new();
    for k in 0..bits.len()
        invariant
            codes@.len() == k,
            forall|j: int| 0 <= j < k ==> is_e4m3_of(#[trigger] codes@[j], bits@[j]),
    {
        codes.push(float_to_e4m3(bits[k]));
    }
    codes
}

/// A weight in eight-bit floating point: the codes of its values, each divided by
/// the scale of its row, and the scales beside them.
pub fn quantize_e4m3(name: &str, scaled: &Vec<u32>, scales: &Vec<u32>) -> (r: (OutTensor, OutTensor))
    ensures
        exists|codes: Seq<u8>| #[trigger]
            are_e4m3_of(codes, scaled@) && r.0@ == code_tensor(name@, codes),
        r.1@ == float_tensor(name@ + ".qs"@, scales@),
{
    let codes: Vec<u8> = e4m3_codes(scaled);
    assert(are_e4m3_of(codes@, scaled@));
    quantize(name, codes, scales)
}

/// The packed four-bit codes of an `[o, i]` weight whose values are divided by the
/// scales of their blocks.
pub fn quantize_nvfp4(scaled: &Vec<u32>, o: usize, i: usize) -> (packed: Vec<u8>)
    requires
        scaled@.len() == o * i,
    ensures
        packed@.len() == o * row_bytes4(i as int),
        forall|r: int, c: int|
            0 <= r < o && 0 <= c < i ==> is_e2m1_of(
                #[trigger] packed_code(packed@, i as int, r, c),
                scaled@[r * i + c],
            ),
{
    let mut codes: Vec<u8> = Vec::new();
    for k in 0..scaled.len()
        invariant
            codes@.len() == k,
            forall|j: int| 0 <= j < k ==> (#[trigger] codes@[j]) < 16 && is_e2m1_of(codes@[j] as int, scaled@[j]),
    {
        let c: u8 = e2m1_code(scaled[k]);
        codes.push(c);
    }
    let packed: Vec<u8> = pack_nibbles(&codes, o, i);
    assert forall|r: int, c: int| 0 <= r < o && 0 <= c < i implies is_e2m1_of(
        #[trigger] packed_code(packed@, i as int, r, c),
        scaled@[r * i + c],
    ) by {
        packing_loses_nothing(codes@, packed@, o as int, i as int, r, c);
        assert(0 <= r * i + c < o * i) by (nonlinear_arith)
            requires
                0 <= r < o,
                0 <= c < i,
        ;
    }
    packed
}

/// Whether `scale` is the power-of-two scale of a block: the smallest one under
/// which four bits reach the block's largest magnitude.
pub open spec fn is_e8m0_of(scale: u8, block: Seq<u32>) -> bool {
    exists|m: u32| #[trigger] is_peak(block, m) && smallest_e8m0(m, scale as int)
}

/// The power-of-two scales of an `[o, i]` weight, one per block of 32 columns, rows
/// one after another. Dividing by them exactly and packing the results with
/// [`quantize_nvfp4`] gives the weight in four bits.
pub fn mxfp4_scales(w: &Vec<u32>, o: usize, i: usize) -> (scales: Vec<u8>)
    requires
        w@.len() == o * i,
    ensures
        scales@.len() == o * div_up(i as int, MXFP4_GS as int),
        forall|r: int, b: int|
            0 <= r < o && 0 <= b < div_up(i as int, MXFP4_GS as int) ==> is_e8m0_of(
                #[trigger] scales@[r * div_up(i as int, MXFP4_GS as int) + b],
                block_of(w@, i as int, MXFP4_GS as int, r, b),
            ),
{
    let peaks: Vec<u32> = block_peaks(w, o, i, MXFP4_GS);
    let mut scales: Vec<u8> = Vec::new();
    for k in 0..peaks.len()
        invariant
            scales@.len() == k,
            forall|j: int| 0 <= j < peaks@.len() ==> #[trigger] peaks@[j] <= INFINITE,
            forall|j: int| 0 <= j < k ==> smallest_e8m0(peaks@[j], #[trigger] scales@[j] as int),
    {
        scales.push(e8m0_scale(peaks[k]));
    }
    proof {
        let nb = div_up(i as int, MXFP4_GS as int);
        assert forall|r: int, b: int| 0 <= r < o && 0 <= b < nb implies is_e8m0_of(
            #[trigger] scales@[r * nb + b],
            block_of(w@, i as int, MXFP4_GS as int, r, b),
        ) by {
            assert(0 <= r * nb + b < o * nb) by (nonlinear_arith)
                requires
                    0 <= r < o,
                    0 <= b < nb,
            ;
            assert(is_peak(block_of(w@, i as int, MXFP4_GS as int, r, b), peaks@[r * nb + b]));
        }
    }
    scales
}

/// Every number of a block is within the block's peak, and the peak is one of them.
pub proof fn a_block_is_within_its_peak(
    w: Vec<u32>,
    o: usize,
    i: usize,
    gs: usize,
    peaks: Vec<u32>,
    r: int,
    c: int,
)
    requires
        w@.len() == o * i,
        gs > 0,
        0 <= r < o,
        0 <= c < i,
        call_ensures(block_peaks, (&w, o, i, gs), peaks),
        w@[r * i + c] % 0x8000_0000 <= 0x7f80_0000,
    ensures
        ({
            let per_row = (i + gs - 1) / (gs as int);
            let p = peaks@[r * per_row + c / (gs as int)];
            &&& peaks@.len() == o * per_row
            &&& w@[r * i + c] % 0x8000_0000 <= p
            &&& p > 0 ==> exists|d: int|
                0 <= d < i && d / (gs as int) == c / (gs as int) && (#[trigger] w@[r * i + d])
                    % 0x8000_0000 == p
        }),
{
    let g = gs as int;
    let nb = div_up(i as int, g);
    let b = c / g;
    a_column_is_in_its_block(i as int, g, c);
    assert(0 <= r * i && r * i + i <= o * i) by (nonlinear_arith)
        requires
            0 <= r < o,
            0 <= i,
    ;
    let block = block_of(w@, i as int, g, r, b);
    let p = peaks@[r * nb + b];
    assert(is_peak(block, p));
    let (c0, c1) = block_columns(b, g, i as int);
    assert(block[c - c0] == w@[r * i + c]);
    assert(magnitude(w@[r * i + c]) == w@[r * i + c] % 0x8000_0000);
    if p > 0 {
        let j = choose|j: int|
            0 <= j < block.len() && is_number(#[trigger] block[j]) && magnitude(block[j]) == p;
        let d = c0 + j;
        assert(w@[r * i + d] == block[j]);
        assert(d / g == b) by (nonlinear_arith)
            requires
                b * g <= d < (b + 1) * g,
                g > 0,
        ;
    }
}

proof fn a_column_is_in_its_block(i: int, g: int, c: int)
    requires
        g > 0,
        0 <= c < i,
    ensures
        div_up(i, g) == (i + g - 1) / g,
        0 <= c / g < div_up(i, g),
        ({
            let (c0, c1) = block_columns(c / g, g, i);
            &&& c0 == (c / g) * g
            &&& c0 <= c < c1 <= i
            &&& c1 <= (c / g + 1) * g
        }),
{
    let b = c / g;
    vstd::arithmetic::div_mod::lemma_fundamental_div_mod(c, g);
    vstd::arithmetic::div_mod::lemma_mod_bound(c, g);
    vstd::arithmetic::div_mod::lemma_fundamental_div_mod(i + g - 1, g);
    vstd::arithmetic::div_mod::lemma_mod_bound(i + g - 1, g);
    vstd::arithmetic::div_mod::lemma_div_pos_is_pos(c, g);
    let n = (i + g - 1) / g;
    assert(b * g <= c < (b + 1) * g) by (nonlinear_arith)
        requires
            c == g * b + c % g,
            0 <= c % g < g,
    ;
    assert(b < n) by (nonlinear_arith)
        requires
            i + g - 1 == g * n + (i + g - 1) % g,
            (i + g - 1) % g < g,
            b * g <= c < i,
            g > 0,
    ;
}

/// Under the scale of its block no finite weight is larger than six, the largest value
/// that four bits hold, and with half the scale some weight of the block would be.
/// There is one scale for 32 columns of a row.
pub proof fn no_weight_is_cut_off(w: Vec<u32>, o: usize, i: usize, scales: Vec<u8>, r: int, c: int)
    requires
        w@.len() == o * i,
        0 <= r < o,
        0 <= c < i,
        call_ensures(mxfp4_scales, (&w, o, i), scales),
        w@[r * i + c] % 0x8000_0000 < 0x7f80_0000,
    ensures
        ({
            let per_row = (i + 31) / 32;
            let code = scales@[r * per_row + c / 32];
            &&& scales@.len() == o * per_row
            &&& units(w@[r * i + c] % 0x8000_0000) <= 6 * pow2((code + 22) as nat)
            &&& 0 < code < 254 && w@[r * i + c] % 0x8000_0000 > 0 ==> exists|d: int|
                0 <= d < i && d / 32 == c / 32 && (#[trigger] w@[r * i + d]) % 0x8000_0000
                    < 0x7f80_0000 && units(w@[r * i + d] % 0x8000_0000) > 6 * pow2(
                    (code + 21) as nat,
                )
        }),
{
    let ii = i as int;
    let nb = div_up(ii, MXFP4_GS as int);
    let b = c / 32;
    a_column_is_in_its_block(ii, 32, c);
    assert(0 <= r * i && r * i + i <= o * i) by (nonlinear_arith)
        requires
            0 <= r < o,
            0 <= i,
    ;
    let block = block_of(w@, ii, MXFP4_GS as int, r, b);
    let code = scales@[r * nb + b];
    assert(is_e8m0_of(code, block));
    let m = choose|m: u32| #[trigger] is_peak(block, m) && smallest_e8m0(m, code as int);
    let (c0, c1) = block_columns(b, 32, ii);
    let x = w@[r * i + c];
    assert(block[c - c0] == x);
    assert(magnitude(x) == x % 0x8000_0000);
    units_keep_the_order(magnitude(x), m);
    finite_magnitudes_are_within_reach(magnitude(x));
    if 0 < code < 254 && magnitude(x) > 0 {
        let j = choose|j: int|
            0 <= j < block.len() && is_number(#[trigger] block[j]) && magnitude(block[j]) == m;
        let d = c0 + j;
        assert(w@[r * i + d] == block[j]);
        assert(magnitude(block[j]) == block[j] % 0x8000_0000);
        assert(e8m0_reach(code - 1) < units(m));
    }
}

/// Of a weight in four bits, the value at a row and a column is in the low half of its
/// byte where the column is even and in the high half where it is odd, and no value of
/// four bits is nearer to the one that was given.
pub proof fn four_bits_are_as_near_as_can_be(
    scaled: Vec<u32>,
    o: usize,
    i: usize,
    packed: Vec<u8>,
    r: int,
    c: int,
    other: int,
)
    requires
        scaled@.len() == o * i,
        call_ensures(quantize_nvfp4, (&scaled, o, i), packed),
        0 <= r < o,
        0 <= c < i,
        0 <= other < 8,
    ensures
        ({
            let byte = packed@[r * ((i + 1) / 2) + c / 2] as int;
            let half = if c % 2 == 0 {
                byte % 16
            } else {
                byte / 16
            };
            let bits = scaled@[r * i + c];
            &&& packed@.len() == o * ((i + 1) / 2)
            &&& half >= 8 <==> bits >= 0x8000_0000
            &&& bits % 0x8000_0000 >= 0x7f80_0000 ==> half % 8 == 0
            &&& bits % 0x8000_0000 < 0x7f80_0000 ==> ({
                let x = units(bits % 0x8000_0000) as int;
                let kept = e2m1_value(half % 8) - x;
                let next = e2m1_value(other) - x;
                let near = if kept < 0 { -kept } else { kept };
                let far = if next < 0 { -next } else { next };
                other == half % 8 || near < far || near == far && half % 8 < other
            })
        }),
{
    let code = packed_code(packed@, i as int, r, c);
    let bits = scaled@[r * i + c];
    assert(is_e2m1_of(code, bits));
    assert(magnitude(bits) == bits % 0x8000_0000);
    assert(e2m1_value(other) == e2m1_value(other));
}

/// Of a weight in eight bits, every code has the sign of its value, and no code is
/// nearer to it.
pub proof fn eight_bits_are_as_near_as_can_be(
    name: &str,
    scaled: Vec<u32>,
    scales: Vec<u32>,
    out: (OutTensor, OutTensor),
    k: int,
    other: int,
)
    requires
        call_ensures(quantize_e4m3, (name, &scaled, &scales), out),
        0 <= k < scaled@.len(),
        0 <= other <= 0x7e,
    ensures
        out.0@.name == name@,
        out.0@.bytes.len() == scaled@.len(),
        out.1@.name == name@ + ".qs"@,
        ({
            let code = out.0@.bytes[k] as int;
            let bits = scaled@[k];
            &&& code >= 0x80 <==> bits >= 0x8000_0000
            &&& bits % 0x8000_0000 > 0x7f80_0000 ==> code % 0x80 == 0
            &&& bits % 0x8000_0000 <= 0x7f80_0000 ==> ({
                let x = units(bits % 0x8000_0000) as int;
                let kept = e4m3_value(code % 0x80) - x;
                let next = e4m3_value(other) - x;
                let near = if kept < 0 { -kept } else { kept };
                let far = if next < 0 { -next } else { next };
                other == code % 0x80 || near < far || near == far && code % 2 == 0
            })
        }),
{
    let codes = choose|codes: Seq<u8>| #[trigger]
        are_e4m3_of(codes, scaled@) && out.0@ == code_tensor(name@, codes);
    let bits = scaled@[k];
    assert(is_e4m3_of(codes[k], bits));
    assert(magnitude(bits) == bits % 0x8000_0000);
    assert(e4m3_value(other) == e4m3_value(other));
}

} // verus!
