//! The layout of encoded tensors, and the shards they are put in.

use vstd::prelude::*;
use vstd::string::StringExecFns;
use crate::shard::{le_bytes, push_all, push_le, OutTensor, Tensor};
use crate::text::{
    decimal, decimal_writes_the_number, is_number, joined, number, same, to_decimal,
};

verus! {

/// Bytes of a row of `i` four-bit codes, two to a byte.
pub open spec fn row_bytes4(i: int) -> int {
    (i + 1) / 2
}

/// The `k`-th byte of packed rows: an even column in the low half, the odd one
/// behind it in the high half.
pub open spec fn packed_byte(codes: Seq<u8>, i: int, k: int) -> int {
    let r = k / row_bytes4(i);
    let c = k % row_bytes4(i) * 2;
    codes[r * i + c] + 16 * if c + 1 < i {
        codes[r * i + c + 1] as int
    } else {
        0
    }
}

/// The code in column `c` of row `r` of packed rows.
pub open spec fn packed_code(packed: Seq<u8>, i: int, r: int, c: int) -> int {
    let b = packed[r * row_bytes4(i) + c / 2];
    if c % 2 == 0 {
        b as int % 16
    } else {
        b as int / 16
    }
}

/// Whether `codes` are the four-bit codes of an `[o, i]` weight.
pub open spec fn are_codes(codes: Seq<u8>, o: int, i: int) -> bool {
    codes.len() == o * i && forall|k: int| 0 <= k < codes.len() ==> #[trigger] codes[k] < 16
}

proof fn row_position(r: int, rb: int, b: int, o: int)
    requires
        0 <= r < o,
        0 <= b < rb,
    ensures
        (r * rb + b) / rb == r,
        (r * rb + b) % rb == b,
        0 <= r * rb + b < o * rb,
{
    vstd::arithmetic::div_mod::lemma_fundamental_div_mod_converse(r * rb + b, rb, r, b);
    assert(r * rb + b < o * rb) by (nonlinear_arith)
        requires
            0 <= r < o,
            0 <= b < rb,
    ;
    assert(r * rb >= 0) by (nonlinear_arith)
        requires
            0 <= r,
            0 <= rb,
    ;
}

/// Packs the four-bit codes of an `[o, i]` weight, two to a byte, each row on
/// bytes of its own.
pub fn pack_nibbles(codes: &Vec<u8>, o: usize, i: usize) -> (packed: Vec<u8>)
    requires
        are_codes(codes@, o as int, i as int),
    ensures
        packed@.len() == o * row_bytes4(i as int),
        forall|k: int|
            0 <= k < packed@.len() ==> #[trigger] packed@[k] == packed_byte(codes@, i as int, k),
{
    let rb: usize = i / 2 + i % 2;
    assert(rb == row_bytes4(i as int));
    let mut packed: Vec<u8> = Vec::new();
    let total: usize = codes.len();
    assert(0 * rb == 0) by (nonlinear_arith);
    for r in 0..o
        invariant
            total == codes@.len(),
            are_codes(codes@, o as int, i as int),
            rb == row_bytes4(i as int),
            packed@.len() == r * rb,
            forall|k: int|
                0 <= k < packed@.len() ==> #[trigger] packed@[k] == packed_byte(
                    codes@,
                    i as int,
                    k,
                ),
    {
        for b in 0..rb
            invariant
                r < o,
                total == codes@.len(),
                are_codes(codes@, o as int, i as int),
                rb == row_bytes4(i as int),
                packed@.len() == r * rb + b,
                forall|k: int|
                    0 <= k < packed@.len() ==> #[trigger] packed@[k] == packed_byte(
                        codes@,
                        i as int,
                        k,
                    ),
        {
            let ghost c = b as int * 2;
            proof {
                row_position(r as int, rb as int, b as int, o as int);
                row_position(r as int, i as int, c, o as int);
                if c + 1 < i {
                    row_position(r as int, i as int, c + 1, o as int);
                }
                assert(r * i >= 0) by (nonlinear_arith)
                    requires
                        r >= 0,
                        i >= 0,
                ;
            }
            assert(r * i + c < total);
            let at: usize = r * i + b * 2;
            let lo: u8 = codes[at];
            let hi: u8 = if b * 2 + 1 < i { codes[at + 1] } else { 0 };
            packed.push(lo + hi * 16);
        }
        proof {
            assert((r + 1) * rb == r * rb + rb) by (nonlinear_arith);
        }
    }
    packed
}

/// The four-bit codes of `o` rows of `half` bytes each.
pub fn unpack_nibbles(packed: &Vec<u8>, o: usize, half: usize) -> (codes: Vec<u8>)
    requires
        packed@.len() == o * half,
        2 * half <= usize::MAX,
    ensures
        codes@.len() == o * (2 * half),
        forall|r: int, c: int|
            0 <= r < o && 0 <= c < 2 * half ==> #[trigger] codes@[r * (2 * half) + c]
                == packed_code(packed@, 2 * half, r, c),
{
    let mut codes: Vec<u8> = Vec::new();
    let n: usize = packed.len();
    for k in 0..n
        invariant
            n == packed@.len(),
            codes@.len() == 2 * k,
            forall|j: int|
                0 <= j < 2 * k ==> #[trigger] codes@[j] == if j % 2 == 0 {
                    packed@[j / 2] as int % 16
                } else {
                    packed@[j / 2] as int / 16
                },
    {
        let b: u8 = packed[k];
        codes.push(b % 16);
        codes.push(b / 16);
    }
    proof {
        assert(2 * (o * half) == o * (2 * half)) by (nonlinear_arith);
        assert forall|r: int, c: int| 0 <= r < o && 0 <= c < 2 * half implies #[trigger] codes@[r
            * (2 * half) + c] == packed_code(packed@, 2 * half, r, c) by {
            row_position(r, 2 * half as int, c, o as int);
            let j = r * (2 * half) + c;
            assert(j == 2 * (r * half) + c) by (nonlinear_arith)
                requires
                    j == r * (2 * half) + c,
            ;
            assert(row_bytes4(2 * half as int) == half);
            assert(j / 2 == r * half + c / 2);
            assert(j % 2 == c % 2);
        }
    }
    codes
}

/// Packing loses nothing: every code is found again where it was put.
pub proof fn packing_loses_nothing(codes: Seq<u8>, packed: Seq<u8>, o: int, i: int, r: int, c: int)
    requires
        are_codes(codes, o, i),
        packed.len() == o * row_bytes4(i),
        forall|k: int|
            0 <= k < packed.len() ==> #[trigger] packed[k] == packed_byte(codes, i, k),
        0 <= r < o,
        0 <= c < i,
    ensures
        packed_code(packed, i, r, c) == codes[r * i + c],
{
    let rb = row_bytes4(i);
    let b = c / 2;
    row_position(r, rb, b, o);
    row_position(r, i, c, o);
    row_position(r, i, b * 2, o);
    if b * 2 + 1 < i {
        row_position(r, i, b * 2 + 1, o);
        assert(codes[r * i + b * 2 + 1] < 16);
    }
    assert(codes[r * i + b * 2] < 16);
    let k = r * rb + b;
    assert(packed[k] == packed_byte(codes, i, k));
}

/// The columns that block `b` of `gs` covers in a row of `i`.
pub open spec fn block_columns(b: int, gs: int, i: int) -> (int, int) {
    (b * gs, if (b + 1) * gs < i { (b + 1) * gs } else { i })
}

/// The columns that a block covers.
pub fn block_span(b: usize, gs: usize, i: usize) -> (s: (usize, usize))
    requires
        gs > 0,
        b * gs < i,
    ensures
        (s.0 as int, s.1 as int) == block_columns(b as int, gs as int, i as int),
        s.0 < s.1 <= i,
        s.1 - s.0 <= gs,
{
    assert((b + 1) * gs == b * gs + gs) by (nonlinear_arith);
    let from: usize = b * gs;
    let to: usize = if gs < i - from { from + gs } else { i };
    (from, to)
}

/// Every column lies in exactly one block: the one its number divided by the
/// block size gives.
pub proof fn blocks_tile_the_row(gs: int, i: int, c: int, b: int)
    requires
        gs > 0,
        0 <= c < i,
        b >= 0,
    ensures
        block_columns(b, gs, i).0 <= c < block_columns(b, gs, i).1 <==> b == c / gs,
{
    vstd::arithmetic::div_mod::lemma_fundamental_div_mod(c, gs);
    let q = c / gs;
    assert((b + 1) * gs == b * gs + gs) by (nonlinear_arith);
    if b * gs <= c && c < (b + 1) * gs {
        vstd::arithmetic::div_mod::lemma_fundamental_div_mod_converse(c, gs, b, c - b * gs);
    }
    if b == q {
        assert(q * gs == gs * q) by (nonlinear_arith);
    }
}

/// The little-endian bytes of f32 values given by their bits.
pub open spec fn f32_le(bits: Seq<u32>) -> Seq<u8>
    decreases bits.len(),
{
    if bits.len() == 0 {
        Seq::empty()
    } else {
        f32_le(bits.drop_last()) + le_bytes(bits.last() as nat, 4)
    }
}

/// The little-endian bytes of f32 values given by their bits.
pub fn f32_bytes(bits: &Vec<u32>) -> (out: Vec<u8>)
    ensures
        out@ == f32_le(bits@),
        out@.len() == 4 * bits@.len(),
{
    let mut out: Vec<u8> = Vec::new();
    assert(out@ =~= f32_le(bits@.take(0)));
    for i in 0..bits.len()
        invariant
            out@ == f32_le(bits@.take(i as int)),
            out@.len() == 4 * i,
    {
        proof {
            let longer = bits@.take(i + 1);
            assert(longer.drop_last() =~= bits@.take(i as int));
            assert(longer.last() == bits@[i as int]);
            reveal_with_fuel(le_bytes, 5);
        }
        push_le(&mut out, bits[i] as u64, 4);
    }
    assert(bits@.take(bits@.len() as int) =~= bits@);
    out
}

/// A flat tensor of code bytes.
pub open spec fn code_tensor(name: Seq<char>, bytes: Seq<u8>) -> Tensor {
    Tensor { name, dtype: "U8"@, shape: seq![bytes.len() as i64], bytes }
}

/// A flat tensor of f32 values.
pub open spec fn float_tensor(name: Seq<char>, bits: Seq<u32>) -> Tensor {
    Tensor { name, dtype: "F32"@, shape: seq![bits.len() as i64], bytes: f32_le(bits) }
}

fn codes_out(name: &str, bytes: Vec<u8>) -> (t: OutTensor)
    ensures
        t@ == code_tensor(name@, bytes@),
{
    let mut shape: Vec<i64> = Vec::new();
    shape.push(bytes.len() as i64);
    let t = OutTensor { name: name.to_owned(), dtype: "U8".to_owned(), shape, bytes };
    assert(t@ =~= code_tensor(name@, bytes@));
    t
}

fn floats_out(name: String, bits: &Vec<u32>) -> (t: OutTensor)
    ensures
        t@ == float_tensor(name@, bits@),
{
    let mut shape: Vec<i64> = Vec::new();
    shape.push(bits.len() as i64);
    let t = OutTensor { name, dtype: "F32".to_owned(), shape, bytes: f32_bytes(bits) };
    assert(t@ =~= float_tensor(name@, bits@));
    t
}

/// A weight in rows of codes, one byte each, with a scale per row beside it.
pub fn quantize(name: &str, codes: Vec<u8>, scales: &Vec<u32>) -> (r: (OutTensor, OutTensor))
    ensures
        r.0@ == code_tensor(name@, codes@),
        r.1@ == float_tensor(name@ + ".qs"@, scales@),
{
    (codes_out(name, codes), floats_out(joined(name, ".qs"), scales))
}

/// A weight in the four-bit block format: the packed codes and the block scales
/// behind them in one tensor, so that one read brings both, and the global scale
/// beside it.
pub fn quantize_nvfp4_out(name: &str, packed: Vec<u8>, block_scales: &Vec<u8>, global: u32) -> (r: (
    OutTensor,
    OutTensor,
))
    ensures
        r.0@ == code_tensor(name@, packed@ + block_scales@),
        r.1@ == float_tensor(name@ + ".g"@, seq![global]),
{
    let mut blob: Vec<u8> = packed;
    push_all(&mut blob, block_scales.as_slice());
    let mut g: Vec<u32> = Vec::new();
    g.push(global);
    assert(g@ =~= seq![global]);
    (codes_out(name, blob), floats_out(joined(name, ".g"), &g))
}

/// The bits of the f32 value one.
pub const ONE_F32: u32 = 0x3f80_0000;

/// A weight in the MX four-bit format, copied bit for bit: its packed codes and
/// its exponents behind them in one tensor. The name of the second tensor marks
/// the format; it holds one, since the exponents carry the whole scale.
pub fn mxfp4_passthrough_out(name: &str, packed: Vec<u8>, exponents: &Vec<u8>) -> (r: (
    OutTensor,
    OutTensor,
))
    ensures
        r.0@ == code_tensor(name@, packed@ + exponents@),
        r.1@ == float_tensor(name@ + ".mx"@, seq![ONE_F32]),
{
    let mut blob: Vec<u8> = packed;
    push_all(&mut blob, exponents.as_slice());
    let mut one: Vec<u32> = Vec::new();
    one.push(ONE_F32);
    assert(one@ =~= seq![ONE_F32]);
    (codes_out(name, blob), floats_out(joined(name, ".mx"), &one))
}

/// A tensor kept as f32 under its own shape.
pub fn f32_out(name: &str, shape: Vec<i64>, bits: &Vec<u32>) -> (t: OutTensor)
    ensures
        t@ == (Tensor { name: name@, dtype: "F32"@, shape: shape@, bytes: f32_le(bits@) }),
{
    let t = OutTensor { name: name.to_owned(), dtype: "F32".to_owned(), shape, bytes: f32_bytes(bits) };
    assert(t@ =~= (Tensor { name: name@, dtype: "F32"@, shape: shape@, bytes: f32_le(bits@) }));
    t
}

/// What a conversion did.
#[derive(Debug, Clone, Copy, PartialEq, Eq, Structural)]
pub struct ConvertStats {
    pub shards_written: usize,
    pub tensors_quantized: usize,
    pub tensors_f32: usize,
    pub tensors_skipped: usize,
    pub bytes_out: u64,
}

impl Default for ConvertStats {
    fn default() -> (s: ConvertStats)
        ensures
            s == (ConvertStats {
                shards_written: 0,
                tensors_quantized: 0,
                tensors_f32: 0,
                tensors_skipped: 0,
                bytes_out: 0,
            }),
    {
        ConvertStats {
            shards_written: 0,
            tensors_quantized: 0,
            tensors_f32: 0,
            tensors_skipped: 0,
            bytes_out: 0,
        }
    }
}

/// One processed tensor: dropped, kept as a single tensor, or encoded as codes
/// with scales beside them.
pub enum TensorOut {
    Skip,
    Whole(OutTensor),
    Quant(OutTensor, OutTensor),
}

/// The tensors whose bytes come first in a shard: all codes, in order.
pub open spec fn codes_of(outs: Seq<TensorOut>) -> Seq<OutTensor>
    decreases outs.len(),
{
    if outs.len() == 0 {
        Seq::empty()
    } else {
        let front = codes_of(outs.drop_last());
        match outs.last() {
            TensorOut::Skip => front,
            TensorOut::Whole(t) => if t@.dtype == "U8"@ {
                front.push(t)
            } else {
                front
            },
            TensorOut::Quant(codes, _) => front.push(codes),
        }
    }
}

/// The tensors whose bytes come last: scales and everything kept whole.
pub open spec fn floats_of(outs: Seq<TensorOut>) -> Seq<OutTensor>
    decreases outs.len(),
{
    if outs.len() == 0 {
        Seq::empty()
    } else {
        let front = floats_of(outs.drop_last());
        match outs.last() {
            TensorOut::Skip => front,
            TensorOut::Whole(t) => if t@.dtype == "U8"@ {
                front
            } else {
                front.push(t)
            },
            TensorOut::Quant(_, scales) => front.push(scales),
        }
    }
}

/// How many of `outs` were dropped, kept whole and encoded.
pub open spec fn counts_of(outs: Seq<TensorOut>) -> (nat, nat, nat)
    decreases outs.len(),
{
    if outs.len() == 0 {
        (0, 0, 0)
    } else {
        let (s, w, q) = counts_of(outs.drop_last());
        match outs.last() {
            TensorOut::Skip => (s + 1, w, q),
            TensorOut::Whole(_) => (s, w + 1, q),
            TensorOut::Quant(_, _) => (s, w, q + 1),
        }
    }
}

/// Puts a shard's tensors in order, all codes first and everything else behind
/// them, and counts them. An expert's projections are processed one after the
/// other, so their codes end up side by side and one read brings all three.
pub fn arrange(outs: Vec<TensorOut>, stats: &mut ConvertStats) -> (tensors: Vec<OutTensor>)
    requires
        old(stats).tensors_skipped + outs@.len() <= usize::MAX,
        old(stats).tensors_f32 + outs@.len() <= usize::MAX,
        old(stats).tensors_quantized + outs@.len() <= usize::MAX,
    ensures
        tensors@ == codes_of(outs@) + floats_of(outs@),
        ({
            let (s, w, q) = counts_of(outs@);
            &&& final(stats).tensors_skipped == old(stats).tensors_skipped + s
            &&& final(stats).tensors_f32 == old(stats).tensors_f32 + w
            &&& final(stats).tensors_quantized == old(stats).tensors_quantized + q
            &&& final(stats).shards_written == old(stats).shards_written
            &&& final(stats).bytes_out == old(stats).bytes_out
        }),
{
    let ghost all = outs@;
    let mut codes: Vec<OutTensor> = Vec::new();
    let mut floats: Vec<OutTensor> = Vec::new();
    let mut s: usize = 0;
    let mut w: usize = 0;
    let mut q: usize = 0;
    let n: usize = outs.len();
    assert(codes@ =~= codes_of(all.take(0)));
    assert(floats@ =~= floats_of(all.take(0)));
    for out in it: outs
        invariant
            n == all.len(),
            it.seq() == all,
            codes@ == codes_of(all.take(it.index())),
            floats@ == floats_of(all.take(it.index())),
            (s as nat, w as nat, q as nat) == counts_of(all.take(it.index())),
            s <= it.index(),
            w <= it.index(),
            q <= it.index(),
    {
        proof {
            assert(all.take(it.index() + 1).drop_last() =~= all.take(it.index()));
            assert(all.take(it.index() + 1).last() == out);
        }
        match out {
            TensorOut::Skip => {
                s = s + 1;
            },
            TensorOut::Whole(t) => {
                w = w + 1;
                if same(t.dtype.as_str(), "U8") {
                    codes.push(t);
                } else {
                    floats.push(t);
                }
            },
            TensorOut::Quant(c, f) => {
                q = q + 1;
                codes.push(c);
                floats.push(f);
            },
        }
    }
    assert(all.take(all.len() as int) =~= all);
    codes.append(&mut floats);
    stats.tensors_skipped = stats.tensors_skipped + s;
    stats.tensors_f32 = stats.tensors_f32 + w;
    stats.tensors_quantized = stats.tensors_quantized + q;
    codes
}

/// The codes of two tensors that are encoded one right after the other lie side
/// by side.
pub proof fn neighbours_stay_side_by_side(outs: Seq<TensorOut>, k: int)
    requires
        0 <= k,
        k + 1 < outs.len(),
        outs[k] is Quant,
        outs[k + 1] is Quant,
    ensures
        ({
            let at = codes_of(outs.take(k)).len() as int;
            let all = codes_of(outs) + floats_of(outs);
            &&& at + 1 < codes_of(outs).len()
            &&& all[at] == outs[k]->Quant_0
            &&& all[at + 1] == outs[k + 1]->Quant_0
        }),
{
    codes_are_a_prefix(outs, k + 2);
    assert(outs.take(k + 2).drop_last() =~= outs.take(k + 1));
    assert(outs.take(k + 1).drop_last() =~= outs.take(k));
    let at = codes_of(outs.take(k)).len() as int;
    let b = codes_of(outs.take(k + 2));
    let c = codes_of(outs);
    assert(outs.take(k + 2).last() == outs[k + 1]);
    assert(outs.take(k + 1).last() == outs[k]);
    assert(codes_of(outs.take(k + 1)) == codes_of(outs.take(k)).push(outs[k]->Quant_0));
    assert(b == codes_of(outs.take(k + 1)).push(outs[k + 1]->Quant_0));
    assert(b =~= c.subrange(0, at + 2));
    assert(c[at] == b[at] && c[at + 1] == b[at + 1]);
}

proof fn codes_are_a_prefix(outs: Seq<TensorOut>, n: int)
    requires
        0 <= n <= outs.len(),
    ensures
        codes_of(outs.take(n)).is_prefix_of(codes_of(outs)),
    decreases outs.len() - n,
{
    if n == outs.len() {
        assert(outs.take(n) =~= outs);
    } else {
        codes_are_a_prefix(outs, n + 1);
        assert(outs.take(n + 1).drop_last() =~= outs.take(n));
        let a = codes_of(outs.take(n));
        let b = codes_of(outs.take(n + 1));
        let c = codes_of(outs);
        assert(a =~= c.subrange(0, a.len() as int)) by {
            assert(b =~= c.subrange(0, b.len() as int));
            assert forall|i: int| 0 <= i < a.len() implies a[i] == c[i] by {
                assert(b[i] == c.subrange(0, b.len() as int)[i]);
            }
        }
    }
}

/// Counts a shard that is written: one more, and its bytes.
pub fn count_shard(tensors: &Vec<OutTensor>, stats: &mut ConvertStats)
    requires
        old(stats).shards_written < usize::MAX,
        old(stats).bytes_out + crate::shard::data_len(tensors@) <= u64::MAX,
    ensures
        *final(stats) == (ConvertStats {
            shards_written: (old(stats).shards_written + 1) as usize,
            bytes_out: (old(stats).bytes_out + crate::shard::data_len(tensors@)) as u64,
            ..*old(stats)
        }),
{
    let ghost all = tensors@;
    let mut bytes: u64 = 0;
    for i in 0..tensors.len()
        invariant
            all == tensors@,
            bytes == crate::shard::data_len(all.take(i as int)),
            crate::shard::data_len(all) <= u64::MAX,
    {
        proof {
            assert(all.take(i + 1).drop_last() =~= all.take(i as int));
            data_len_grows(all, i + 1);
        }
        bytes = bytes + tensors[i].bytes.len() as u64;
    }
    assert(all.take(all.len() as int) =~= all);
    stats.shards_written = stats.shards_written + 1;
    stats.bytes_out = stats.bytes_out + bytes;
}

proof fn data_len_grows(tensors: Seq<OutTensor>, n: int)
    requires
        0 <= n <= tensors.len(),
    ensures
        crate::shard::data_len(tensors.take(n)) <= crate::shard::data_len(tensors),
    decreases tensors.len() - n,
{
    if n == tensors.len() {
        assert(tensors.take(n) =~= tensors);
    } else {
        data_len_grows(tensors, n + 1);
        assert(tensors.take(n + 1).drop_last() =~= tensors.take(n));
    }
}

/// A number in decimal, filled up with zeros to five digits.
pub open spec fn five_digits(n: nat) -> Seq<char> {
    let d = decimal(n);
    if d.len() >= 5 {
        d
    } else {
        Seq::new((5 - d.len()) as nat, |i: int| '0') + d
    }
}

/// The file name of an output shard. A conversion of the head alone has names of
/// its own, so that its shards can be put into an existing container.
pub fn shard_name(index: usize, mtp_only: bool) -> (s: String)
    ensures
        s@ == (if mtp_only { "mtp-"@ } else { "out-"@ }) + five_digits(index as nat)
            + ".safetensors"@,
{
    let d: String = to_decimal(index as u128);
    let n: usize = crate::text::chars_of(d.as_str()).len();
    let mut s: String = String::from_str(if mtp_only { "mtp-" } else { "out-" });
    let ghost stem = s@;
    let mut zeros: usize = if n >= 5 { 0 } else { 5 - n };
    let ghost wanted = zeros as nat;
    proof {
        reveal_strlit("0");
        assert(s@ =~= stem + Seq::new(0, |i: int| '0'));
    }
    while zeros > 0
        invariant
            zeros <= wanted,
            "0"@ == seq!['0'],
            s@ == stem + Seq::new((wanted - zeros) as nat, |i: int| '0'),
        decreases zeros,
    {
        s.append("0");
        zeros = zeros - 1;
        assert(s@ =~= stem + Seq::new((wanted - zeros) as nat, |i: int| '0'));
    }
    s.append(d.as_str());
    s.append(".safetensors");
    assert(s@ =~= stem + five_digits(index as nat) + ".safetensors"@);
    s
}

/// The distance between samples when `limit` of `n` are wanted.
pub open spec fn stride_of(n: nat, limit: nat) -> nat {
    let l = if limit == 0 { 1 } else { limit };
    if n / l == 0 {
        1
    } else {
        n / l
    }
}

/// Which of `n` tensors are looked at when `limit` are wanted: evenly spread over
/// all of them, so that no layer is passed over.
pub fn sample(n: usize, limit: usize) -> (picks: Vec<usize>)
    ensures
        forall|k: int|
            0 <= k < picks@.len() ==> #[trigger] picks@[k] == k * stride_of(
                n as nat,
                limit as nat,
            ) && picks@[k] < n,
        picks@.len() <= limit,
        picks@.len() == limit || picks@.len() * stride_of(n as nat, limit as nat) >= n,
{
    let l: usize = if limit == 0 { 1 } else { limit };
    let q: usize = n / l;
    let stride: usize = if q == 0 { 1 } else { q };
    let mut picks: Vec<usize> = Vec::new();
    let mut at: usize = 0;
    let mut more: bool = n > 0;
    while more && picks.len() < limit
        invariant
            stride == stride_of(n as nat, limit as nat),
            stride > 0,
            picks@.len() <= limit,
            more ==> at == picks@.len() * stride && at < n,
            !more ==> picks@.len() * stride >= n,
            forall|k: int|
                0 <= k < picks@.len() ==> #[trigger] picks@[k] == k * stride && picks@[k] < n,
        decreases limit - picks@.len(),
    {
        let ghost k = picks@.len() as int;
        picks.push(at);
        assert((k + 1) * stride == k * stride + stride) by (nonlinear_arith);
        if stride < n - at {
            at = at + stride;
        } else {
            more = false;
        }
    }
    picks
}

/// How many tensors each of at most `cap` workers takes, so that all `n` are
/// taken.
pub fn worker_share(n: usize, cap: usize) -> (share: usize)
    requires
        n > 0,
        cap > 0,
    ensures
        share == crate::capacity::div_up(n as int, if cap < n { cap as int } else { n as int }),
        share > 0,
        share * (if cap < n { cap as int } else { n as int }) >= n,
{
    let workers: usize = if cap < n { cap } else { n };
    let q: usize = n / workers;
    proof {
        let w = workers as int;
        vstd::arithmetic::div_mod::lemma_fundamental_div_mod(n as int, w);
        let r = n as int % w;
        assert(q + 1 <= n || r == 0) by (nonlinear_arith)
            requires
                n == w * q + r,
                w >= 1,
                0 <= r,
                q >= 0,
                n > 0,
        ;
    }
    let share: usize = if n % workers == 0 { q } else { q + 1 };
    proof {
        let w = workers as int;
        let m = n as int + w - 1;
        let r = n as int % w;
        assert(n == w * q + r);
        if r == 0 {
            assert(m == q * w + (w - 1)) by (nonlinear_arith)
                requires
                    n == w * q + r,
                    r == 0,
                    m == n + w - 1,
            ;
            vstd::arithmetic::div_mod::lemma_fundamental_div_mod_converse(m, w, q as int, w - 1);
            assert(q * w == n) by (nonlinear_arith)
                requires
                    n == w * q + r,
                    r == 0,
            ;
            assert(q > 0) by (nonlinear_arith)
                requires
                    q * w == n,
                    n > 0,
                    q >= 0,
            ;
        } else {
            assert(m == (q + 1) * w + (r - 1)) by (nonlinear_arith)
                requires
                    n == w * q + r,
                    m == n + w - 1,
            ;
            vstd::arithmetic::div_mod::lemma_fundamental_div_mod_converse(m, w, q + 1, r - 1);
            assert((q + 1) * w >= n) by (nonlinear_arith)
                requires
                    n == w * q + r,
                    r < w,
            ;
        }
    }
    share
}

/// Two codes share a byte, the one in the even column in its low half and the one behind
/// it in the high half, and no byte holds codes of two rows. Reading the halves in that
/// order gives the codes.
pub proof fn even_columns_go_low(codes: Vec<u8>, o: usize, i: usize, packed: Vec<u8>, r: int, c: int)
    requires
        are_codes(codes@, o as int, i as int),
        call_ensures(pack_nibbles, (&codes, o, i), packed),
        0 <= r < o,
        0 <= c < i,
        c % 2 == 0,
    ensures
        ({
            let width = if i % 2 == 0 {
                i as int / 2
            } else {
                (i + 1) / 2
            };
            let b = packed@[r * width + c / 2] as int;
            &&& packed@.len() == o * width
            &&& b % 16 == codes@[r * i + c]
            &&& c + 1 < i ==> b / 16 == codes@[r * i + c + 1]
            &&& c + 1 == i ==> b / 16 == 0
        }),
{
    let w = row_bytes4(i as int);
    row_position(r, w, c / 2, o as int);
    row_position(r, i as int, c, o as int);
    if c + 1 < i {
        row_position(r, i as int, c + 1, o as int);
        assert(codes@[r * i + c + 1] < 16);
    }
    assert(codes@[r * i + c] < 16);
    let k = r * w + c / 2;
    assert(packed@[k] == packed_byte(codes@, i as int, k));
}

/// A byte's low half is read first.
pub proof fn low_halves_are_read_first(packed: Vec<u8>, o: usize, half: usize, codes: Vec<u8>, k: int)
    requires
        packed@.len() == o * half,
        2 * half <= usize::MAX,
        call_ensures(unpack_nibbles, (&packed, o, half), codes),
        0 <= k < packed@.len(),
    ensures
        codes@.len() == 2 * packed@.len(),
        codes@[2 * k] == packed@[k] as int % 16,
        codes@[2 * k + 1] == packed@[k] as int / 16,
{
    assert(half > 0) by {
        if half == 0 {
            assert(o * half == 0) by (nonlinear_arith)
                requires
                    half == 0,
            ;
        }
    }
    let h = half as int;
    let r = k / h;
    let b = k % h;
    vstd::arithmetic::div_mod::lemma_fundamental_div_mod(k, h);
    assert(0 <= r < o && r * h + b == k) by (nonlinear_arith)
        requires
            k == h * r + b,
            0 <= b < h,
            0 <= k < o * h,
            h > 0,
    ;
    assert(r * (2 * h) + 2 * b == 2 * k) by (nonlinear_arith)
        requires
            r * h + b == k,
    ;
    assert(o * (2 * h) == 2 * (o * h)) by (nonlinear_arith);
    assert(codes@[r * (2 * h) + 2 * b] == packed_code(packed@, 2 * h, r, 2 * b));
    assert(codes@[r * (2 * h) + (2 * b + 1)] == packed_code(packed@, 2 * h, r, 2 * b + 1));
    assert(row_bytes4(2 * h) == h);
    assert((2 * b) / 2 == b && (2 * b + 1) / 2 == b && (2 * b) % 2 == 0 && (2 * b + 1) % 2 == 1);
}

/// Every value takes four bytes, the lowest first.
pub proof fn a_value_is_its_four_bytes(bits: Seq<u32>, k: int)
    requires
        0 <= k < bits.len(),
    ensures
        f32_le(bits).len() == 4 * bits.len(),
        f32_le(bits)[4 * k] + 0x100 * f32_le(bits)[4 * k + 1] + 0x1_0000 * f32_le(bits)[4 * k + 2]
            + 0x100_0000 * f32_le(bits)[4 * k + 3] == bits[k],
    decreases bits.len(),
{
    let front = bits.drop_last();
    let four = le_bytes(bits.last() as nat, 4);
    four_bytes_of(bits.last());
    let before = f32_le(front);
    let all = f32_le(bits);
    assert(all == before + four);
    if front.len() > 0 {
        a_value_is_its_four_bytes(front, 0);
    } else {
        assert(before.len() == 0);
    }
    assert(before.len() == 4 * front.len());
    if k < front.len() {
        a_value_is_its_four_bytes(front, k);
        assert(front[k] == bits[k]);
        assert(all[4 * k] == before[4 * k] && all[4 * k + 1] == before[4 * k + 1] && all[4 * k + 2]
            == before[4 * k + 2] && all[4 * k + 3] == before[4 * k + 3]);
    } else {
        assert(all[4 * k] == four[0] && all[4 * k + 1] == four[1] && all[4 * k + 2] == four[2] && all[4
            * k + 3] == four[3]);
    }
}

proof fn four_bytes_of(x: u32)
    ensures
        ({
            let four = le_bytes(x as nat, 4);
            &&& four.len() == 4
            &&& four[0] + 0x100 * four[1] + 0x1_0000 * four[2] + 0x100_0000 * four[3] == x
        }),
{
    reveal_with_fuel(le_bytes, 5);
}

/// What an encoded weight is stored as: its codes under its own name as bytes, and beside
/// them its scales as f32 values under a name that tells the encoding. In the four-bit
/// formats the block scales stand behind the codes.
pub proof fn a_weight_and_its_scales(
    name: &str,
    codes: Vec<u8>,
    scales: Vec<u32>,
    blocks: Vec<u8>,
    global: u32,
    rows: (OutTensor, OutTensor),
    four: (OutTensor, OutTensor),
    mx: (OutTensor, OutTensor),
)
    requires
        call_ensures(quantize, (name, codes, &scales), rows),
        call_ensures(quantize_nvfp4_out, (name, codes, &blocks, global), four),
        call_ensures(mxfp4_passthrough_out, (name, codes, &blocks), mx),
    ensures
        rows.0@.name == name@ && four.0@.name == name@ && mx.0@.name == name@,
        rows.0@.dtype == "U8"@ && four.0@.dtype == "U8"@ && mx.0@.dtype == "U8"@,
        rows.1@.dtype == "F32"@ && four.1@.dtype == "F32"@ && mx.1@.dtype == "F32"@,
        rows.1@.name == name@ + ".qs"@,
        four.1@.name == name@ + ".g"@,
        mx.1@.name == name@ + ".mx"@,
        rows.0@.bytes == codes@,
        four.0@.bytes == codes@ + blocks@,
        mx.0@.bytes == codes@ + blocks@,
        rows.1@.bytes.len() == 4 * scales@.len(),
        four.1@.bytes == f32_le(seq![global]),
        mx.1@.bytes == seq![0u8, 0, 0x80, 0x3f],
        rows.0@.shape.len() == 1 && rows.0@.shape[0] == codes@.len() as i64,
        rows.1@.shape.len() == 1 && rows.1@.shape[0] == scales@.len() as i64,
        four.0@.shape.len() == 1 && four.0@.shape[0] == (codes@.len() + blocks@.len()) as i64,
        four.1@.shape == seq![1i64],
        mx.1@.shape == seq![1i64],
{
    if scales@.len() > 0 {
        a_value_is_its_four_bytes(scales@, 0);
    }
    one_is_its_bytes();
    assert(ONE_F32 == 0x3f80_0000);
}

proof fn one_is_its_bytes()
    ensures
        f32_le(seq![0x3f80_0000u32]) == seq![0u8, 0, 0x80, 0x3f],
{
    let one = seq![0x3f80_0000u32];
    let none = one.drop_last();
    assert(none.len() == 0);
    assert(f32_le(none) =~= Seq::<u8>::empty());
    assert(f32_le(one) == f32_le(none) + le_bytes(one.last() as nat, 4));
    assert(one.last() == 0x3f80_0000);
    reveal_with_fuel(le_bytes, 5);
    assert(le_bytes(0x3f80_0000, 4) =~= seq![0u8, 0, 0x80, 0x3f]);
    assert(f32_le(one) =~= seq![0u8, 0, 0x80, 0x3f]);
}

/// A tensor that is kept as f32 keeps its name, its shape and its values.
pub proof fn a_kept_tensor_keeps_its_shape(name: &str, shape: Vec<i64>, bits: Vec<u32>, t: OutTensor)
    requires
        call_ensures(f32_out, (name, shape, &bits), t),
    ensures
        t@.name == name@,
        t@.dtype == "F32"@,
        t@.shape == shape@,
        t@.bytes.len() == 4 * bits@.len(),
{
    if bits@.len() > 0 {
        a_value_is_its_four_bytes(bits@, 0);
    }
}

proof fn floats_are_a_prefix(outs: Seq<TensorOut>, n: int)
    requires
        0 <= n <= outs.len(),
    ensures
        floats_of(outs.take(n)).len() <= floats_of(outs).len(),
        forall|i: int|
            0 <= i < floats_of(outs.take(n)).len() ==> #[trigger] floats_of(outs)[i] == floats_of(
                outs.take(n),
            )[i],
    decreases outs.len() - n,
{
    if n == outs.len() {
        assert(outs.take(n) =~= outs);
    } else {
        floats_are_a_prefix(outs, n + 1);
        assert(outs.take(n + 1).drop_last() =~= outs.take(n));
        let b = floats_of(outs.take(n + 1));
        assert(forall|i: int| 0 <= i < b.len() ==> #[trigger] floats_of(outs)[i] == b[i]);
    }
}

/// Everything that was processed is in the shard once, in the order it was processed within
/// the codes and within the rest; nothing that was dropped is. What is counted is what was
/// processed.
pub proof fn a_shard_holds_everything_once(outs: Seq<TensorOut>, k: int)
    requires
        0 <= k < outs.len(),
    ensures
        ({
            let (dropped, whole, encoded) = counts_of(outs);
            let codes = codes_of(outs);
            let rest = floats_of(outs);
            let c = codes_of(outs.take(k)).len() as int;
            let f = floats_of(outs.take(k)).len() as int;
            &&& dropped + whole + encoded == outs.len()
            &&& codes.len() + rest.len() == whole + 2 * encoded
            &&& outs[k] matches TensorOut::Quant(a, b) ==> {
                &&& c < codes.len() && codes[c] == a
                &&& f < rest.len() && rest[f] == b
            }
            &&& outs[k] matches TensorOut::Whole(a) ==> if a@.dtype == "U8"@ {
                c < codes.len() && codes[c] == a
            } else {
                f < rest.len() && rest[f] == a
            }
        }),
{
    assert(outs.take(k + 1).drop_last() =~= outs.take(k));
    assert(outs.take(k + 1).last() == outs[k]);
    floats_are_a_prefix(outs, k + 1);
    codes_are_a_prefix(outs, k + 1);
    let a = codes_of(outs.take(k + 1));
    let all = codes_of(outs);
    let c = codes_of(outs.take(k)).len() as int;
    if a.len() > c {
        assert(a =~= all.subrange(0, a.len() as int));
        assert(all[c] == a[c]);
    }
    let g = floats_of(outs.take(k + 1));
    let f = floats_of(outs.take(k)).len() as int;
    if g.len() > f {
        assert(floats_of(outs)[f] == g[f]);
    }
    shard_counts(outs);
}

proof fn shard_counts(outs: Seq<TensorOut>)
    ensures
        counts_of(outs).0 + counts_of(outs).1 + counts_of(outs).2 == outs.len(),
        codes_of(outs).len() + floats_of(outs).len() == counts_of(outs).1 + 2 * counts_of(outs).2,
    decreases outs.len(),
{
    if outs.len() > 0 {
        shard_counts(outs.drop_last());
    }
}

proof fn leading_zeros_do_not_count(n: nat, d: Seq<char>)
    ensures
        number(Seq::new(n, |i: int| '0') + d) == number(d),
        is_number(d) ==> is_number(Seq::new(n, |i: int| '0') + d),
    decreases d.len(), n,
{
    let z = Seq::new(n, |i: int| '0');
    let s = z + d;
    if d.len() > 0 {
        leading_zeros_do_not_count(n, d.drop_last());
        assert(s.drop_last() =~= z + d.drop_last());
    } else if n > 0 {
        leading_zeros_do_not_count((n - 1) as nat, d);
        assert(s.drop_last() =~= Seq::new((n - 1) as nat, |i: int| '0') + d);
    }
}

/// Shards are numbered in five digits, or more where they are needed, and no two numbers
/// look alike.
pub proof fn shard_numbers_tell_shards_apart(a: usize, b: usize, mtp: bool, x: String, y: String)
    requires
        call_ensures(shard_name, (a, mtp), x),
        call_ensures(shard_name, (b, mtp), y),
    ensures
        five_digits(a as nat).len() >= 5,
        number(five_digits(a as nat)) == a,
        is_number(five_digits(a as nat)),
        decimal(a as nat).len() <= 5 ==> five_digits(a as nat).len() == 5,
        x@ == (if mtp {
            "mtp-"@
        } else {
            "out-"@
        }) + five_digits(a as nat) + ".safetensors"@,
        a != b ==> x@ != y@,
{
    decimal_writes_the_number(a as nat);
    decimal_writes_the_number(b as nat);
    let da = decimal(a as nat);
    let db = decimal(b as nat);
    if da.len() < 5 {
        leading_zeros_do_not_count((5 - da.len()) as nat, da);
    }
    if db.len() < 5 {
        leading_zeros_do_not_count((5 - db.len()) as nat, db);
    }
    let stem = if mtp {
        "mtp-"@
    } else {
        "out-"@
    };
    let fa = five_digits(a as nat);
    let fb = five_digits(b as nat);
    if x@ == y@ {
        let n = stem.len() as int;
        assert(x@.len() == stem.len() + fa.len() + ".safetensors"@.len());
        assert(y@.len() == stem.len() + fb.len() + ".safetensors"@.len());
        assert(x@.subrange(n, n + fa.len()) =~= fa);
        assert(y@.subrange(n, n + fb.len()) =~= fb);
    }
}

/// As many tensors are looked at as are wanted, or all where there are fewer; they are evenly
/// spread, as far apart as their number allows.
pub proof fn samples_are_spread(n: usize, limit: usize, picks: Vec<usize>)
    requires
        limit > 0,
        call_ensures(sample, (n, limit), picks),
    ensures
        picks@.len() == if n < limit {
            n
        } else {
            limit
        },
        n > 0 ==> picks@[0] == 0,
        forall|k: int|
            0 <= k < picks@.len() - 1 ==> {
                let step = #[trigger] picks@[k + 1] - picks@[k];
                &&& step >= 1
                &&& n >= limit ==> step * limit <= n < (step + 1) * limit
                &&& n < limit ==> step == 1
            },
{
    let st = stride_of(n as nat, limit as nat) as int;
    let a = n as int;
    let l = limit as int;
    let q = a / l;
    vstd::arithmetic::div_mod::lemma_fundamental_div_mod(a, l);
    if a < l {
        vstd::arithmetic::div_mod::lemma_basic_div(a, l);
    }
    assert(a >= l ==> q >= 1 && q * l <= a && a < (q + 1) * l) by (nonlinear_arith)
        requires
            a == l * q + a % l,
            0 <= a % l < l,
            0 < l,
    ;
    let m = picks@.len() as int;
    if m != limit {
        assert(m * st >= n);
        if a >= l {
            assert(m * st >= a && m < l ==> false || m * q >= a) by (nonlinear_arith)
                requires
                    st == q,
            ;
            assert(false) by (nonlinear_arith)
                requires
                    m < l,
                    q * l <= a,
                    m * q >= a,
                    q >= 1,
            ;
        } else {
            assert(st == 1);
            if m > n {
                assert(picks@[m - 1] == (m - 1) * st && picks@[m - 1] < n);
            }
        }
    } else if a < l {
        assert(picks@[m - 1] == (m - 1) * st && picks@[m - 1] < n);
        assert(st == 1);
    }
    assert forall|k: int| 0 <= k < picks@.len() - 1 implies {
        let step = #[trigger] picks@[k + 1] - picks@[k];
        &&& step >= 1
        &&& n >= limit ==> step * limit <= n < (step + 1) * limit
        &&& n < limit ==> step == 1
    } by {
        assert(picks@[k] == k * st);
        assert((k + 1) * st == k * st + st) by (nonlinear_arith);
    }
    if n > 0 && picks@.len() > 0 {
        assert(picks@[0] == 0 * st);
        assert(0 * st == 0) by (nonlinear_arith);
    }
}

/// Workers take no more than they need to: with one tensor less each, some would be left.
pub proof fn shares_are_as_small_as_can_be(n: usize, cap: usize, share: usize)
    requires
        n > 0,
        cap > 0,
        call_ensures(worker_share, (n, cap), share),
    ensures
        share * cap >= n || cap > n,
        cap <= n ==> (share - 1) * cap < n,
        cap > n ==> share == 1,
{
    let w = if cap < n {
        cap as int
    } else {
        n as int
    };
    vstd::arithmetic::div_mod::lemma_fundamental_div_mod(n + w - 1, w);
    let r = (n + w - 1) % w;
    assert((share - 1) * w < n) by (nonlinear_arith)
        requires
            n + w - 1 == w * share + r,
            0 <= r < w,
    ;
    if cap > n {
        assert(share == 1) by (nonlinear_arith)
            requires
                (share - 1) * n < n,
                share > 0,
                n > 0,
        ;
    }
}

/// What was processed is counted once, under what became of it, and a shard by its bytes.
pub proof fn what_is_written_is_counted(
    outs: Vec<TensorOut>,
    stats: &mut ConvertStats,
    tensors: Vec<OutTensor>,
    later: &mut ConvertStats,
)
    requires
        old(stats).tensors_skipped + outs@.len() <= usize::MAX,
        old(stats).tensors_f32 + outs@.len() <= usize::MAX,
        old(stats).tensors_quantized + outs@.len() <= usize::MAX,
        call_ensures(arrange, (outs, stats), tensors),
        old(later).shards_written < usize::MAX,
        old(later).bytes_out + crate::shard::data_of(tensors@).len() <= u64::MAX,
        call_ensures(count_shard, (&tensors, later), ()),
    ensures
        ({
            let skipped = final(stats).tensors_skipped - old(stats).tensors_skipped;
            let whole = final(stats).tensors_f32 - old(stats).tensors_f32;
            let encoded = final(stats).tensors_quantized - old(stats).tensors_quantized;
            &&& skipped >= 0 && whole >= 0 && encoded >= 0
            &&& skipped + whole + encoded == outs@.len()
            &&& tensors@.len() == whole + 2 * encoded
        }),
        final(later).shards_written == old(later).shards_written + 1,
        final(later).bytes_out == old(later).bytes_out + crate::shard::data_of(tensors@).len(),
        final(later).tensors_skipped == old(later).tensors_skipped,
        final(later).tensors_f32 == old(later).tensors_f32,
        final(later).tensors_quantized == old(later).tensors_quantized,
{
    shard_counts(outs@);
    crate::shard::data_len_is_the_length(tensors@);
}

} // verus!
