//! Fetching an expert in parts.
//!
//! A weight matrix is split into bands: contiguous output rows over all columns,
//! each about a target size. A band is contiguous in the packed buffer, so one
//! band is one fetch.

use vstd::prelude::*;
use crate::capacity::div_up;
use crate::expert::{Expert, QTensor};

verus! {

/// Default size of a band: 2 MiB.
pub const DEFAULT_CHUNK_BYTES: usize = 0x20_0000;

/// Smallest size that a band may be configured to: 64 KiB.
pub const MIN_CHUNK_BYTES: usize = 0x1_0000;

/// Which of an expert's projections a band belongs to.
#[derive(Clone, Copy, PartialEq, Eq, Debug, Structural)]
pub enum ExpertMatrix {
    Gate,
    Up,
    Down,
}

/// One band: rows `o_start .. o_start + o_count` of a matrix, and where they lie
/// in its packed buffer.
#[derive(Clone, Copy, PartialEq, Eq, Debug, Structural)]
pub struct ChunkDesc {
    pub layer: usize,
    pub eid: usize,
    pub matrix: ExpertMatrix,
    pub o_start: usize,
    pub o_count: usize,
    pub byte_off: usize,
    pub byte_len: usize,
}

/// Why a band could not be fetched.
#[derive(Clone, Copy, PartialEq, Eq, Debug, Structural)]
pub enum ChunkError {
    /// Experts of this format are not streamed.
    Unsupported(i32),
    /// The band does not lie in the matrix, or the buffer has another length.
    OutOfRange,
    /// The peer that holds the expert did not deliver.
    Transport,
}

/// Bytes of one row of `i` columns at format `fmt`.
pub open spec fn bytes_per_row(fmt: i32, i: int) -> int {
    if fmt == 0 {
        i * 4
    } else if fmt == 1 || fmt == 4 {
        i
    } else if fmt == 3 {
        div_up(i, 4)
    } else {
        0
    }
}

/// Bytes of one packed row of `i` columns: f32, int8, int2 or e4m3. Other formats
/// are not split by rows.
pub fn row_bytes(fmt: i32, i: usize) -> (n: usize)
    requires
        bytes_per_row(fmt, i as int) <= usize::MAX,
    ensures
        n == bytes_per_row(fmt, i as int),
{
    match fmt {
        0 => i * 4,
        1 => i,
        4 => i,
        3 => i / 4 + if i % 4 == 0 {
            0
        } else {
            1
        },
        _ => 0,
    }
}

/// Rows of a full band: as many as fit the target, but at least one.
pub open spec fn rows_per_band(target_bytes: int, rb: int) -> int {
    if target_bytes / rb < 1 {
        1
    } else {
        target_bytes / rb
    }
}

/// Rows of the band that begins at row `start` of `o`.
pub open spec fn rows_from(start: int, band: int, o: int) -> int {
    if band < o - start {
        band
    } else {
        o - start
    }
}

/// Whether `plan` is the bands of an `[o, _]` matrix of `rb` bytes a row, `band`
/// rows each: the last one is what is left.
pub open spec fn is_band_plan(
    plan: Seq<ChunkDesc>,
    layer: usize,
    eid: usize,
    matrix: ExpertMatrix,
    o: int,
    rb: int,
    band: int,
) -> bool {
    &&& plan.len() == div_up(o, band)
    &&& forall|k: int|
        0 <= k < plan.len() ==> {
            let d = #[trigger] plan[k];
            &&& d.layer == layer
            &&& d.eid == eid
            &&& d.matrix == matrix
            &&& d.o_start == k * band
            &&& d.o_count == rows_from(k * band, band, o)
            &&& d.byte_off == d.o_start * rb
            &&& d.byte_len == d.o_count * rb
            &&& d.o_count > 0
        }
}

/// Whether `plan` is the bands of a matrix at format `fmt`. A matrix without
/// rows, or of a format that is not split, has none.
pub open spec fn is_matrix_plan(
    plan: Seq<ChunkDesc>,
    layer: usize,
    eid: usize,
    matrix: ExpertMatrix,
    o: int,
    i: int,
    fmt: i32,
    target_bytes: int,
) -> bool {
    let rb = bytes_per_row(fmt, i);
    if rb == 0 || o == 0 {
        plan.len() == 0
    } else {
        is_band_plan(plan, layer, eid, matrix, o, rb, rows_per_band(target_bytes, rb))
    }
}

/// Plans the bands of one matrix.
pub fn plan_matrix_chunks(
    layer: usize,
    eid: usize,
    matrix: ExpertMatrix,
    o: usize,
    i: usize,
    fmt: i32,
    target_bytes: usize,
) -> (out: Vec<ChunkDesc>)
    requires
        bytes_per_row(fmt, i as int) <= usize::MAX,
        o * bytes_per_row(fmt, i as int) <= usize::MAX,
    ensures
        is_matrix_plan(
            out@,
            layer,
            eid,
            matrix,
            o as int,
            i as int,
            fmt,
            target_bytes as int,
        ),
{
    let rb: usize = row_bytes(fmt, i);
    let mut out: Vec<ChunkDesc> = Vec::new();
    if rb == 0 || o == 0 {
        return out;
    }
    let fit: usize = target_bytes / rb;
    let band: usize = if fit < 1 { 1 } else { fit };
    let mut o0: usize = 0;
    assert(0 * band == 0) by (nonlinear_arith);
    while o0 < o
        invariant
            0 < rb,
            0 < band,
            0 < o,
            o * rb <= usize::MAX,
            o0 <= o,
            o0 < o ==> o0 == out@.len() * band,
            o0 == o ==> out@.len() == div_up(o as int, band as int),
            forall|k: int|
                0 <= k < out@.len() ==> {
                    let d = #[trigger] out@[k];
                    &&& d.layer == layer
                    &&& d.eid == eid
                    &&& d.matrix == matrix
                    &&& d.o_start == k * band
                    &&& d.o_count == rows_from(k * band, band as int, o as int)
                    &&& d.byte_off == d.o_start * rb
                    &&& d.byte_len == d.o_count * rb
                    &&& d.o_count > 0
                },
        decreases o - o0,
    {
        let left: usize = o - o0;
        let cnt: usize = if band < left { band } else { left };
        proof {
            assert(o0 * rb <= o * rb) by (nonlinear_arith)
                requires
                    o0 <= o,
                    rb >= 0,
            ;
            assert(cnt * rb <= o * rb) by (nonlinear_arith)
                requires
                    cnt <= o,
                    rb >= 0,
            ;
            assert(o0 * rb >= 0 && cnt * rb >= 0) by (nonlinear_arith)
                requires
                    o0 >= 0,
                    cnt >= 0,
                    rb >= 0,
            ;
        }
        let ghost k = out@.len() as int;
        out.push(
            ChunkDesc {
                layer,
                eid,
                matrix,
                o_start: o0,
                o_count: cnt,
                byte_off: o0 * rb,
                byte_len: cnt * rb,
            },
        );
        o0 = o0 + cnt;
        proof {
            assert((k + 1) * band == k * band + band) by (nonlinear_arith);
            if o0 == o {
                // k full bands and a last one of 1 to `band` rows
                assert(o + band - 1 == (k + 1) * band + (cnt - 1));
                vstd::arithmetic::div_mod::lemma_fundamental_div_mod_converse(
                    o + band - 1,
                    band as int,
                    k + 1,
                    cnt - 1,
                );
            }
        }
    }
    out
}

/// The bands of an expert: gate, then up, then down.
pub fn plan_expert_chunks(layer: usize, eid: usize, ex: &Expert, target_bytes: usize) -> (out: Vec<
    ChunkDesc,
>)
    requires
        matrix_fits(ex.gate),
        matrix_fits(ex.up),
        matrix_fits(ex.down),
    ensures
        exists|g: Seq<ChunkDesc>, u: Seq<ChunkDesc>, d: Seq<ChunkDesc>|
            {
                &&& #[trigger] plan_for(g, layer, eid, ExpertMatrix::Gate, ex.gate, target_bytes)
                &&& #[trigger] plan_for(u, layer, eid, ExpertMatrix::Up, ex.up, target_bytes)
                &&& #[trigger] plan_for(d, layer, eid, ExpertMatrix::Down, ex.down, target_bytes)
                &&& out@ == g + u + d
            },
{
    let mut out: Vec<ChunkDesc> = plan_matrix_chunks(
        layer,
        eid,
        ExpertMatrix::Gate,
        ex.gate.o,
        ex.gate.i,
        ex.gate.fmt_code,
        target_bytes,
    );
    let mut up: Vec<ChunkDesc> = plan_matrix_chunks(
        layer,
        eid,
        ExpertMatrix::Up,
        ex.up.o,
        ex.up.i,
        ex.up.fmt_code,
        target_bytes,
    );
    let mut down: Vec<ChunkDesc> = plan_matrix_chunks(
        layer,
        eid,
        ExpertMatrix::Down,
        ex.down.o,
        ex.down.i,
        ex.down.fmt_code,
        target_bytes,
    );
    let ghost g = out@;
    let ghost u = up@;
    let ghost d = down@;
    out.append(&mut up);
    out.append(&mut down);
    proof {
        assert(plan_for(g, layer, eid, ExpertMatrix::Gate, ex.gate, target_bytes));
        assert(plan_for(u, layer, eid, ExpertMatrix::Up, ex.up, target_bytes));
        assert(plan_for(d, layer, eid, ExpertMatrix::Down, ex.down, target_bytes));
        assert(out@ =~= g + u + d);
    }
    out
}

/// Whether a matrix's packed rows have a length in bytes.
pub open spec fn matrix_fits(t: QTensor) -> bool {
    &&& bytes_per_row(t.fmt_code, t.i as int) <= usize::MAX
    &&& t.o * bytes_per_row(t.fmt_code, t.i as int) <= usize::MAX
}

/// Whether `plan` is the bands of one of an expert's matrices.
pub open spec fn plan_for(
    plan: Seq<ChunkDesc>,
    layer: usize,
    eid: usize,
    matrix: ExpertMatrix,
    t: QTensor,
    target_bytes: usize,
) -> bool {
    is_matrix_plan(
        plan,
        layer,
        eid,
        matrix,
        t.o as int,
        t.i as int,
        t.fmt_code,
        target_bytes as int,
    )
}

/// One of an expert's matrices.
pub open spec fn matrix_of(ex: Expert, m: ExpertMatrix) -> QTensor {
    match m {
        ExpertMatrix::Gate => ex.gate,
        ExpertMatrix::Up => ex.up,
        ExpertMatrix::Down => ex.down,
    }
}

/// The packed buffer of one of an expert's matrices. Streamed experts are packed;
/// others are refused.
pub fn matrix_weight_bytes(ex: &Expert, m: ExpertMatrix) -> (r: Result<&Vec<u8>, ChunkError>)
    ensures
        match r {
            Ok(b) => {
                let t = matrix_of(*ex, m);
                (t.fmt_code == 3 || t.fmt_code == 4) && *b == t.q4
            },
            Err(e) => {
                let t = matrix_of(*ex, m);
                t.fmt_code != 3 && t.fmt_code != 4 && e == ChunkError::Unsupported(t.fmt_code)
            },
        },
{
    let t: &QTensor = match m {
        ExpertMatrix::Gate => &ex.gate,
        ExpertMatrix::Up => &ex.up,
        ExpertMatrix::Down => &ex.down,
    };
    if t.fmt_code == 3 || t.fmt_code == 4 {
        Ok(&t.q4)
    } else {
        Err(ChunkError::Unsupported(t.fmt_code))
    }
}

/// A source of bands: an expert at hand, or a peer that holds it.
pub trait ChunkSource {
    /// Fills `dst`, which is as long as the band, with the band.
    fn fetch_into(&self, d: &ChunkDesc, dst: &mut Vec<u8>) -> Result<(), ChunkError>;
}

/// Bands straight out of a resident expert.
pub struct LocalChunkSource<'a> {
    pub expert: &'a Expert,
}

impl<'a> LocalChunkSource<'a> {
    /// What a fetch of band `d` into a buffer of `len` bytes gives.
    pub open spec fn band(&self, d: ChunkDesc, len: nat) -> Result<Seq<u8>, ChunkError> {
        let t = matrix_of(*self.expert, d.matrix);
        if t.fmt_code != 3 && t.fmt_code != 4 {
            Err(ChunkError::Unsupported(t.fmt_code))
        } else if d.byte_off + d.byte_len > t.q4@.len() || len != d.byte_len {
            Err(ChunkError::OutOfRange)
        } else {
            Ok(t.q4@.subrange(d.byte_off as int, d.byte_off + d.byte_len))
        }
    }
}

impl<'a> ChunkSource for LocalChunkSource<'a> {
    /// Copies a band. A failed fetch leaves `dst` as it was.
    fn fetch_into(&self, d: &ChunkDesc, dst: &mut Vec<u8>) -> (r: Result<(), ChunkError>)
        ensures
            match self.band(*d, old(dst)@.len()) {
                Ok(bytes) => r is Ok && final(dst)@ == bytes,
                Err(e) => r == Err::<(), ChunkError>(e) && final(dst)@ == old(dst)@,
            },
    {
        let src: &Vec<u8> = match matrix_weight_bytes(self.expert, d.matrix) {
            Ok(b) => b,
            Err(e) => {
                return Err(e);
            },
        };
        if d.byte_off > src.len() || d.byte_len > src.len() - d.byte_off || dst.len() != d.byte_len {
            return Err(ChunkError::OutOfRange);
        }
        for k in 0..d.byte_len
            invariant
                d.byte_off + d.byte_len <= src@.len(),
                dst@.len() == d.byte_len,
                src@.len() <= usize::MAX,
                forall|j: int| 0 <= j < k ==> dst@[j] == src@[d.byte_off + j],
        {
            dst.set(k, src[d.byte_off + k]);
        }
        assert(dst@ =~= src@.subrange(d.byte_off as int, d.byte_off + d.byte_len));
        Ok(())
    }
}

/// The size of a band: the configured one if there is one, but never so small
/// that the cost of a fetch outweighs it.
pub fn chunk_bytes(configured: Option<usize>) -> (n: usize)
    ensures
        n == match configured {
            Some(c) => if c < MIN_CHUNK_BYTES { MIN_CHUNK_BYTES } else { c },
            None => DEFAULT_CHUNK_BYTES,
        },
{
    match configured {
        Some(c) => if c < MIN_CHUNK_BYTES { MIN_CHUNK_BYTES } else { c },
        None => DEFAULT_CHUNK_BYTES,
    }
}

/// What the bands of `plan` hold of `buffer`, one after the other.
pub open spec fn reassembled(buffer: Seq<u8>, plan: Seq<ChunkDesc>) -> Seq<u8>
    decreases plan.len(),
{
    if plan.len() == 0 {
        Seq::empty()
    } else {
        let d = plan.last();
        reassembled(buffer, plan.drop_last()) + buffer.subrange(
            d.byte_off as int,
            d.byte_off + d.byte_len,
        )
    }
}

/// The bands tile the rows exactly: the first begins at row zero, each begins
/// where the one before ends, and the last ends at the last row. So do their
/// bytes.
pub proof fn bands_tile_the_matrix(
    plan: Seq<ChunkDesc>,
    layer: usize,
    eid: usize,
    matrix: ExpertMatrix,
    o: int,
    rb: int,
    band: int,
    k: int,
)
    requires
        is_band_plan(plan, layer, eid, matrix, o, rb, band),
        o > 0,
        band > 0,
        rb > 0,
        0 <= k < plan.len(),
    ensures
        plan.len() > 0,
        plan[0].o_start == 0,
        plan[0].byte_off == 0,
        k + 1 < plan.len() ==> {
            &&& plan[k + 1].o_start == plan[k].o_start + plan[k].o_count
            &&& plan[k + 1].byte_off == plan[k].byte_off + plan[k].byte_len
        },
        k + 1 == plan.len() ==> {
            &&& plan[k].o_start + plan[k].o_count == o
            &&& plan[k].byte_off + plan[k].byte_len == o * rb
        },
        plan[k].o_count <= band,
{
    let n = plan.len() as int;
    vstd::arithmetic::div_mod::lemma_fundamental_div_mod(o + band - 1, band);
    assert(n * band <= o + band - 1 && o + band - 1 < n * band + band) by (nonlinear_arith)
        requires
            o + band - 1 == band * n + (o + band - 1) % band,
            0 <= (o + band - 1) % band < band,
    ;
    assert((k + 1) * band == k * band + band) by (nonlinear_arith);
    let d = plan[k];
    assert((d.o_start + d.o_count) * rb == d.o_start * rb + d.o_count * rb) by (nonlinear_arith);
    assert(0 * band == 0 && 0 * rb == 0) by (nonlinear_arith);
    assert(plan[0].o_start == 0 * band);
    assert(plan[0].byte_off == plan[0].o_start * rb);
    if k + 1 < n {
        assert((k + 2) * band <= n * band) by (nonlinear_arith)
            requires
                k + 2 <= n,
                band > 0,
        ;
        assert((k + 2) * band == (k + 1) * band + band) by (nonlinear_arith);
        let e = plan[k + 1];
        assert(e.o_start == (k + 1) * band);
    }
}

proof fn reassembled_prefix(
    buffer: Seq<u8>,
    plan: Seq<ChunkDesc>,
    layer: usize,
    eid: usize,
    matrix: ExpertMatrix,
    o: int,
    rb: int,
    band: int,
    n: int,
)
    requires
        is_band_plan(plan, layer, eid, matrix, o, rb, band),
        o > 0,
        band > 0,
        rb > 0,
        buffer.len() == o * rb,
        0 < n <= plan.len(),
    ensures
        plan[n - 1].byte_off + plan[n - 1].byte_len <= buffer.len(),
        reassembled(buffer, plan.take(n)) == buffer.take(
            plan[n - 1].byte_off + plan[n - 1].byte_len,
        ),
    decreases n,
{
    let k = n - 1;
    bands_tile_the_matrix(plan, layer, eid, matrix, o, rb, band, k);
    assert(plan.take(n).drop_last() =~= plan.take(k));
    assert(plan.take(n).last() == plan[k]);
    let d = plan[k];
    assert(d.o_start + d.o_count <= o);
    assert((d.o_start + d.o_count) * rb <= o * rb) by (nonlinear_arith)
        requires
            d.o_start + d.o_count <= o,
            rb > 0,
    ;
    assert((d.o_start + d.o_count) * rb == d.o_start * rb + d.o_count * rb) by (nonlinear_arith);
    if k > 0 {
        reassembled_prefix(buffer, plan, layer, eid, matrix, o, rb, band, k);
        bands_tile_the_matrix(plan, layer, eid, matrix, o, rb, band, k - 1);
    } else {
        assert(reassembled(buffer, plan.take(0)) =~= Seq::<u8>::empty());
    }
    assert(reassembled(buffer, plan.take(n)) =~= buffer.take(d.byte_off + d.byte_len));
}

/// The bands put together again are the matrix, byte for byte.
pub proof fn bands_reassemble_the_matrix(
    buffer: Seq<u8>,
    plan: Seq<ChunkDesc>,
    layer: usize,
    eid: usize,
    matrix: ExpertMatrix,
    o: int,
    i: int,
    fmt: i32,
    target_bytes: int,
)
    requires
        is_matrix_plan(plan, layer, eid, matrix, o, i, fmt, target_bytes),
        o >= 0,
        i >= 0,
        target_bytes >= 0,
        buffer.len() == o * bytes_per_row(fmt, i),
    ensures
        reassembled(buffer, plan) == buffer,
{
    let rb = bytes_per_row(fmt, i);
    if rb == 0 || o == 0 {
        assert(o * rb == 0) by (nonlinear_arith)
            requires
                rb == 0 || o == 0,
        ;
        assert(reassembled(buffer, plan) =~= buffer);
    } else {
        let band = rows_per_band(target_bytes, rb);
        let n = plan.len() as int;
        assert(n > 0) by {
            vstd::arithmetic::div_mod::lemma_div_non_zero(o + band - 1, band);
        }
        reassembled_prefix(buffer, plan, layer, eid, matrix, o, rb, band, n);
        bands_tile_the_matrix(plan, layer, eid, matrix, o, rb, band, n - 1);
        assert(plan.take(n) =~= plan);
        assert(buffer.take(o * rb) =~= buffer);
    }
}

/// A row takes four bytes a column as f32, one in the eight-bit formats, and in two bits
/// as many bytes as hold its columns; other formats have no rows.
pub proof fn a_row_takes_what_its_columns_take(fmt: i32, i: usize, n: usize)
    requires
        bytes_per_row(fmt, i as int) <= usize::MAX,
        call_ensures(row_bytes, (fmt, i), n),
    ensures
        fmt == 0 ==> n == 4 * i,
        fmt == 1 || fmt == 4 ==> n == i,
        fmt == 3 ==> 4 * n >= i && 4 * n < i + 4,
        fmt != 0 && fmt != 1 && fmt != 3 && fmt != 4 ==> n == 0,
{
}

/// Bands are as long as the target allows and no longer, but for a row that is longer by
/// itself; one begins where the one before it ends, in rows and in bytes, from the first
/// row to the last.
pub proof fn bands_are_as_long_as_allowed(
    layer: usize,
    eid: usize,
    matrix: ExpertMatrix,
    o: usize,
    i: usize,
    fmt: i32,
    target: usize,
    row: usize,
    out: Vec<ChunkDesc>,
    k: int,
)
    requires
        bytes_per_row(fmt, i as int) <= usize::MAX,
        o * bytes_per_row(fmt, i as int) <= usize::MAX,
        call_ensures(row_bytes, (fmt, i), row),
        call_ensures(plan_matrix_chunks, (layer, eid, matrix, o, i, fmt, target), out),
    ensures
        out@.len() == 0 <==> row == 0 || o == 0,
        0 <= k < out@.len() ==> {
            let d = out@[k];
            &&& d.layer == layer && d.eid == eid && d.matrix == matrix
            &&& d.byte_off == d.o_start * row && d.byte_len == d.o_count * row
            &&& d.o_count >= 1
            &&& d.o_count > 1 ==> d.byte_len <= target
            &&& k == 0 ==> d.o_start == 0
            &&& k + 1 < out@.len() ==> d.byte_len + row > target && out@[k + 1].o_start == d.o_start
                + d.o_count
            &&& k + 1 == out@.len() ==> d.o_start + d.o_count == o
        },
{
    let rb = row as int;
    let t = target as int;
    if rb > 0 && o > 0 {
        let band = rows_per_band(t, rb);
        vstd::arithmetic::div_mod::lemma_div_pos_is_pos(t, rb);
        vstd::arithmetic::div_mod::lemma_div_non_zero(o + band - 1, band);
        vstd::arithmetic::div_mod::lemma_fundamental_div_mod(t, rb);
        vstd::arithmetic::div_mod::lemma_mod_bound(t, rb);
        if 0 <= k < out@.len() {
            bands_tile_the_matrix(out@, layer, eid, matrix, o as int, rb, band, k);
            let d = out@[k];
            let q = t / rb;
            if d.o_count > 1 {
                assert(d.o_count * rb <= t) by (nonlinear_arith)
                    requires
                        d.o_count <= q,
                        t == rb * q + t % rb,
                        t % rb >= 0,
                        rb > 0,
                ;
            }
            if k + 1 < out@.len() {
                let e = out@[k + 1];
                assert((k + 1) * band == k * band + band) by (nonlinear_arith);
                assert(d.o_count == band);
                assert(band * rb + rb > t) by (nonlinear_arith)
                    requires
                        band >= q,
                        t == rb * q + t % rb,
                        t % rb < rb,
                        rb > 0,
                ;
            }
        }
    }
}

/// An expert's bands are those of its gate, then those of its up and last those of its
/// down projection, each as planned for that matrix alone.
pub proof fn an_expert_is_fetched_matrix_by_matrix(
    layer: usize,
    eid: usize,
    ex: Expert,
    target: usize,
    out: Vec<ChunkDesc>,
    a: int,
    b: int,
)
    requires
        matrix_fits(ex.gate),
        matrix_fits(ex.up),
        matrix_fits(ex.down),
        call_ensures(plan_expert_chunks, (layer, eid, &ex, target), out),
        0 <= a < b < out@.len(),
    ensures
        out@[a].layer == layer && out@[a].eid == eid,
        out@[b].matrix == ExpertMatrix::Gate ==> out@[a].matrix == ExpertMatrix::Gate,
        out@[a].matrix == ExpertMatrix::Down ==> out@[b].matrix == ExpertMatrix::Down,
        out@[a].matrix == out@[b].matrix ==> out@[a].o_start + out@[a].o_count <= out@[b].o_start,
        b == a + 1 && out@[a].matrix == out@[b].matrix ==> out@[a].o_start + out@[a].o_count
            == out@[b].o_start,
        b == a + 1 && out@[a].matrix != out@[b].matrix ==> out@[b].o_start == 0
            && out@[a].o_start + out@[a].o_count == matrix_of(ex, out@[a].matrix).o,
{
    let (g, u, d) = choose|g: Seq<ChunkDesc>, u: Seq<ChunkDesc>, d: Seq<ChunkDesc>|
        {
            &&& #[trigger] plan_for(g, layer, eid, ExpertMatrix::Gate, ex.gate, target)
            &&& #[trigger] plan_for(u, layer, eid, ExpertMatrix::Up, ex.up, target)
            &&& #[trigger] plan_for(d, layer, eid, ExpertMatrix::Down, ex.down, target)
            &&& out@ == g + u + d
        };
    let m = g.len() as int;
    let n = m + u.len();
    if b < m {
        bands_follow(g, layer, eid, ExpertMatrix::Gate, ex.gate, target, a, b);
    } else if a < m {
        bands_follow(g, layer, eid, ExpertMatrix::Gate, ex.gate, target, a, a);
        if b < n {
            bands_follow(u, layer, eid, ExpertMatrix::Up, ex.up, target, b - m, b - m);
        } else {
            bands_follow(d, layer, eid, ExpertMatrix::Down, ex.down, target, b - n, b - n);
        }
    } else if b < n {
        bands_follow(u, layer, eid, ExpertMatrix::Up, ex.up, target, a - m, b - m);
    } else if a < n {
        bands_follow(u, layer, eid, ExpertMatrix::Up, ex.up, target, a - m, a - m);
        bands_follow(d, layer, eid, ExpertMatrix::Down, ex.down, target, b - n, b - n);
    } else {
        bands_follow(d, layer, eid, ExpertMatrix::Down, ex.down, target, a - n, b - n);
    }
}

proof fn bands_follow(
    plan: Seq<ChunkDesc>,
    layer: usize,
    eid: usize,
    matrix: ExpertMatrix,
    t: QTensor,
    target: usize,
    a: int,
    b: int,
)
    requires
        plan_for(plan, layer, eid, matrix, t, target),
        0 <= a <= b < plan.len(),
    ensures
        plan[a].layer == layer && plan[a].eid == eid && plan[a].matrix == matrix,
        plan[b].matrix == matrix,
        a < b ==> plan[a].o_start + plan[a].o_count <= plan[b].o_start,
        a + 1 == b ==> plan[a].o_start + plan[a].o_count == plan[b].o_start,
        a + 1 == plan.len() ==> plan[a].o_start + plan[a].o_count == t.o,
        b == 0 ==> plan[b].o_start == 0,
    decreases b - a,
{
    let rb = bytes_per_row(t.fmt_code, t.i as int);
    let band = rows_per_band(target as int, rb);
    assert(rb > 0);
    vstd::arithmetic::div_mod::lemma_div_pos_is_pos(target as int, rb);
    bands_tile_the_matrix(plan, layer, eid, matrix, t.o as int, rb, band, a);
    if a < b {
        bands_follow(plan, layer, eid, matrix, t, target, a, b - 1);
        bands_tile_the_matrix(plan, layer, eid, matrix, t.o as int, rb, band, b - 1);
    }
}

/// Bands are of 2 MiB unless configured, and never under 64 KiB.
pub proof fn bands_are_never_tiny(configured: Option<usize>, n: usize)
    requires
        call_ensures(chunk_bytes, (configured,), n),
    ensures
        n >= 65536,
        configured is None ==> n == 2097152,
        configured matches Some(c) ==> n == c || c < 65536 && n == 65536,
{
}

/// A fetch gives the bytes of the band out of the matrix that it names, and fails exactly
/// where the format is not a packed one or the band does not lie within the buffers.
pub proof fn a_fetch_gives_the_bytes_of_its_band(
    source: LocalChunkSource,
    d: ChunkDesc,
    len: nat,
    j: int,
)
    ensures
        ({
            let t = match d.matrix {
                ExpertMatrix::Gate => source.expert.gate,
                ExpertMatrix::Up => source.expert.up,
                ExpertMatrix::Down => source.expert.down,
            };
            let packed = t.fmt_code == 3 || t.fmt_code == 4;
            &&& source.band(d, len) is Ok <==> packed && d.byte_off + d.byte_len <= t.q4@.len() && len
                == d.byte_len
            &&& source.band(d, len) == Err::<Seq<u8>, ChunkError>(
                ChunkError::Unsupported(t.fmt_code),
            ) <==> !packed
            &&& source.band(d, len) matches Ok(bytes) ==> bytes.len() == len && (0 <= j < len
                ==> bytes[j] == t.q4@[d.byte_off + j])
            &&& source.band(d, len) matches Err(e) ==> packed ==> e == ChunkError::OutOfRange
        }),
{
}

/// The packed bytes of a matrix are its own, and are given for the packed formats alone.
pub proof fn packed_bytes_are_the_matrix_own(
    ex: Expert,
    m: ExpertMatrix,
    r: Result<&Vec<u8>, ChunkError>,
)
    requires
        call_ensures(matrix_weight_bytes, (&ex, m), r),
    ensures
        r is Ok ==> m == ExpertMatrix::Gate ==> *r->Ok_0 == ex.gate.q4,
        r is Ok ==> m == ExpertMatrix::Up ==> *r->Ok_0 == ex.up.q4,
        r is Ok ==> m == ExpertMatrix::Down ==> *r->Ok_0 == ex.down.q4,
        r is Ok <==> matrix_of(ex, m).fmt_code == 3 || matrix_of(ex, m).fmt_code == 4,
        r is Err ==> r->Err_0 == ChunkError::Unsupported(matrix_of(ex, m).fmt_code),
{
}

} // verus!
