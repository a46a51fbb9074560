//! How a stored tensor is read back as numbers, and which tensors of a container
//! are encoded anew.

use vstd::prelude::*;
use vstd::string::StringExecFns;
use crate::capacity::{ceil_div, div_up};
use crate::catalog::{
    dims_fit, find, has_name, is_listed, matrix_dims, named, two_dims, DType, SourceTensor,
};
use crate::convert::{BLOCK, NVFP4_GS};
use crate::encode::ONE_F32;
use crate::minifloat::{is_number, INFINITE, SIGN};
use crate::names::{classify, kind_of, Kind};
use crate::text::{contains, ends_with, joined, occurs, strip_suffix};

verus! {

/// How a tensor's numbers are had from its bytes.
#[derive(Debug, Clone, Copy, PartialEq, Eq, Structural)]
pub enum Dequant {
    /// There is no such tensor.
    Missing,
    /// 8-bit floats times one scale for the whole tensor.
    PerTensor,
    /// 8-bit floats times the scale of their block: `bo` by `bi` elements share
    /// one, `nbi` scales stand in a row, and they are bare exponents or f32.
    Blocks { o: usize, i: usize, nbo: usize, nbi: usize, bo: usize, bi: usize, exponents: bool },
    /// 8-bit floats that are not a matrix.
    NotAMatrix,
    /// 8-bit floats without scales.
    NoScales,
    /// 8-bit floats whose scales are not a matrix.
    ScalesNotAMatrix,
    /// Four-bit codes of an `[o, i]` weight, two per byte.
    Nvfp4 { o: usize, i: usize },
    /// Four-bit codes that are not a matrix.
    CodesNotAMatrix,
    /// Four-bit codes without a global scale.
    NoGlobal,
    /// Each element on its own.
    Straight,
}

/// The larger of a length and one.
pub open spec fn at_least_one(n: int) -> int {
    if n < 1 {
        1
    } else {
        n
    }
}

/// How many of `n` elements share one of `blocks` scales.
pub open spec fn extent(n: usize, blocks: usize) -> usize {
    at_least_one(n as int / at_least_one(blocks as int)) as usize
}

/// How 8-bit floats with a grid of block scales are had. Exponent scales divide
/// the weight evenly; f32 scales stand for blocks of fixed size.
pub open spec fn blocks_of(tensors: Seq<SourceTensor>, name: Seq<char>) -> Dequant {
    let sname = name + "_scale_inv"@;
    match matrix_dims(named(tensors, name).shape@) {
        None => Dequant::NotAMatrix,
        Some((o, i)) => if !has_name(tensors, sname) {
            Dequant::NoScales
        } else {
            match matrix_dims(named(tensors, sname).shape@) {
                None => Dequant::ScalesNotAMatrix,
                Some((nbo, nbi)) => if named(tensors, sname).dtype == DType::U8 {
                    Dequant::Blocks {
                        o,
                        i,
                        nbo,
                        nbi,
                        bo: extent(o, nbo),
                        bi: extent(i, nbi),
                        exponents: true,
                    }
                } else {
                    Dequant::Blocks { o, i, nbo, nbi, bo: BLOCK, bi: BLOCK, exponents: false }
                },
            }
        },
    }
}

/// How the numbers of tensor `name` are had.
pub open spec fn dequant_of(tensors: Seq<SourceTensor>, name: Seq<char>) -> Dequant {
    let t = named(tensors, name);
    if !has_name(tensors, name) {
        Dequant::Missing
    } else if t.dtype.is_fp8() {
        if !has_name(tensors, name + "_scale_inv"@) && has_name(tensors, name + "_scale"@) {
            Dequant::PerTensor
        } else {
            blocks_of(tensors, name)
        }
    } else if t.dtype == DType::U8 && has_name(tensors, name + "_scale"@) {
        match matrix_dims(t.shape@) {
            None => Dequant::CodesNotAMatrix,
            Some((o, half)) => if !has_name(tensors, name + "_scale_2"@) {
                Dequant::NoGlobal
            } else {
                Dequant::Nvfp4 { o, i: (half * 2) as usize }
            },
        }
    } else {
        Dequant::Straight
    }
}

fn extent_of(n: usize, blocks: usize) -> (e: usize)
    ensures
        e == extent(n, blocks),
{
    let b: usize = if blocks < 1 { 1 } else { blocks };
    let q: usize = n / b;
    if q < 1 {
        1
    } else {
        q
    }
}

/// Decides how 8-bit floats with a grid of block scales are had.
fn plan_blocks(tensors: &Vec<SourceTensor>, name: &str) -> (d: Dequant)
    requires
        has_name(tensors@, name@),
    ensures
        d == blocks_of(tensors@, name@),
{
    let t: &SourceTensor = match find(tensors, name) {
        Some(t) => t,
        None => {
            return Dequant::Missing;
        },
    };
    let (o, i): (usize, usize) = match two_dims(&t.shape, name) {
        Ok(d) => d,
        Err(_) => {
            return Dequant::NotAMatrix;
        },
    };
    let sname: String = joined(name, "_scale_inv");
    let s: &SourceTensor = match find(tensors, sname.as_str()) {
        Some(s) => s,
        None => {
            return Dequant::NoScales;
        },
    };
    let (nbo, nbi): (usize, usize) = match two_dims(&s.shape, sname.as_str()) {
        Ok(d) => d,
        Err(_) => {
            return Dequant::ScalesNotAMatrix;
        },
    };
    if s.dtype == DType::U8 {
        Dequant::Blocks {
            o,
            i,
            nbo,
            nbi,
            bo: extent_of(o, nbo),
            bi: extent_of(i, nbi),
            exponents: true,
        }
    } else {
        Dequant::Blocks { o, i, nbo, nbi, bo: BLOCK, bi: BLOCK, exponents: false }
    }
}

/// Decides how the numbers of a tensor are had.
pub fn dequant(tensors: &Vec<SourceTensor>, name: &str) -> (d: Dequant)
    requires
        dims_fit(tensors@, name@),
    ensures
        d == dequant_of(tensors@, name@),
{
    let t: &SourceTensor = match find(tensors, name) {
        Some(t) => t,
        None => {
            return Dequant::Missing;
        },
    };
    let is_fp8: bool = match t.dtype {
        DType::F8E4M3 => true,
        DType::F8E5M2 => true,
        _ => false,
    };
    let scale: String = joined(name, "_scale");
    if is_fp8 {
        let inv: String = joined(name, "_scale_inv");
        if !is_listed(tensors, inv.as_str()) && is_listed(tensors, scale.as_str()) {
            return Dequant::PerTensor;
        }
        return plan_blocks(tensors, name);
    }
    if t.dtype == DType::U8 && is_listed(tensors, scale.as_str()) {
        let global: String = joined(name, "_scale_2");
        return match two_dims(&t.shape, name) {
            Err(_) => Dequant::CodesNotAMatrix,
            Ok((o, half)) => {
                if !is_listed(tensors, global.as_str()) {
                    Dequant::NoGlobal
                } else {
                    assert(0 <= t.shape@[1] && 2 * t.shape@[1] <= usize::MAX);
                    Dequant::Nvfp4 { o, i: half * 2 }
                }
            },
        };
    }
    Dequant::Straight
}

/// Where the scale of element (`row`, `col`) stands in a grid of `nbi` columns
/// whose cells cover `bo` by `bi` elements.
pub open spec fn scale_cell(row: int, col: int, bo: int, bi: int, nbi: int) -> int {
    row / bo * nbi + col / bi
}

/// Where the scale of an element stands.
pub fn scale_index(row: usize, col: usize, bo: usize, bi: usize, nbi: usize) -> (k: usize)
    requires
        bo > 0,
        bi > 0,
        scale_cell(row as int, col as int, bo as int, bi as int, nbi as int) <= usize::MAX,
    ensures
        k == scale_cell(row as int, col as int, bo as int, bi as int, nbi as int),
{
    proof {
        assert(row / bo * nbi >= 0) by (nonlinear_arith)
            requires
                row / bo >= 0,
                nbi >= 0,
        ;
    }
    row / bo * nbi + col / bi
}

/// In a grid that covers the weight, every element has a scale.
pub proof fn every_element_has_a_scale(
    o: int,
    i: int,
    bo: int,
    bi: int,
    nbo: int,
    nbi: int,
    row: int,
    col: int,
)
    requires
        bo > 0,
        bi > 0,
        0 <= row < o,
        0 <= col < i,
        nbo >= div_up(o, bo),
        nbi >= div_up(i, bi),
    ensures
        0 <= scale_cell(row, col, bo, bi, nbi) < nbo * nbi,
{
    let r = row / bo;
    let c = col / bi;
    assert(r < nbo) by {
        block_index_in_range(row, o, bo);
    }
    assert(c < nbi) by {
        block_index_in_range(col, i, bi);
    }
    assert(0 <= r && 0 <= c) by {
        vstd::arithmetic::div_mod::lemma_div_pos_is_pos(row, bo);
        vstd::arithmetic::div_mod::lemma_div_pos_is_pos(col, bi);
    }
    assert(r * nbi + c < nbo * nbi) by (nonlinear_arith)
        requires
            0 <= r < nbo,
            0 <= c < nbi,
    ;
    assert(r * nbi + c >= 0) by (nonlinear_arith)
        requires
            0 <= r,
            0 <= c < nbi,
    ;
}

proof fn block_index_in_range(x: int, n: int, b: int)
    requires
        b > 0,
        0 <= x < n,
    ensures
        x / b < div_up(n, b),
{
    vstd::arithmetic::div_mod::lemma_div_is_ordered(x, n - 1, b);
    vstd::arithmetic::div_mod::lemma_div_plus_one(n - 1, b);
    assert(n - 1 + b == n + b - 1);
}

/// Whether four-bit codes can be read with the scales beside them.
#[derive(Debug, Clone, Copy, PartialEq, Eq, Structural)]
pub enum Nvfp4Grid {
    /// The global scale looks like a reciprocal, which would have to divide.
    Reciprocal,
    /// The block scales are not a matrix.
    ScalesNotAMatrix,
    /// The block scales are not one per 16 inputs of each row.
    Unexpected { nbo: usize, nbi: usize },
    /// One scale per 16 inputs: `nb` per row.
    Flat { nb: usize },
}

/// Whether an f32 given by its bits is below one.
pub open spec fn is_below_one(bits: u32) -> bool {
    is_number(bits) && (bits >= SIGN || bits < ONE_F32)
}

/// Whether the codes of `[o, i]` can be read. The grid has to be flat, one scale
/// per 16 inputs of each row, and the global scale below one.
pub open spec fn nvfp4_grid_of(
    tensors: Seq<SourceTensor>,
    name: Seq<char>,
    o: usize,
    i: usize,
    global: u32,
) -> Nvfp4Grid {
    if !is_below_one(global) {
        Nvfp4Grid::Reciprocal
    } else {
        match matrix_dims(named(tensors, name + "_scale"@).shape@) {
            None => Nvfp4Grid::ScalesNotAMatrix,
            Some((nbo, nbi)) => if nbo == o && nbi == div_up(i as int, NVFP4_GS as int) {
                Nvfp4Grid::Flat { nb: nbi }
            } else {
                Nvfp4Grid::Unexpected { nbo, nbi }
            },
        }
    }
}

/// Checks the scales beside four-bit codes. The global scale is given by the bits
/// of its f32.
pub fn dequant_nvfp4(
    tensors: &Vec<SourceTensor>,
    name: &str,
    o: usize,
    i: usize,
    global: u32,
) -> (g: Nvfp4Grid)
    requires
        has_name(tensors@, name@ + "_scale"@),
    ensures
        g == nvfp4_grid_of(tensors@, name@, o, i, global),
{
    let below: bool = if global >= SIGN {
        global - SIGN <= INFINITE
    } else {
        global < ONE_F32
    };
    if !below {
        return Nvfp4Grid::Reciprocal;
    }
    let sname: String = joined(name, "_scale");
    match find(tensors, sname.as_str()) {
        None => Nvfp4Grid::ScalesNotAMatrix,
        Some(s) => {
            match two_dims(&s.shape, sname.as_str()) {
                Err(_) => Nvfp4Grid::ScalesNotAMatrix,
                Ok((nbo, nbi)) => {
                    let nb: u64 = ceil_div(i as u64, 16);
                    if nbo == o && nbi as u64 == nb {
                        Nvfp4Grid::Flat { nb: nbi }
                    } else {
                        Nvfp4Grid::Unexpected { nbo, nbi }
                    }
                },
            }
        },
    }
}

/// Rows and columns of an expert's weight: the projection down goes from the
/// intermediate width to the hidden one, the others the other way.
pub open spec fn expert_dims(name: Seq<char>, hidden: usize, moe_inter: usize) -> (usize, usize) {
    if occurs(name, "down_proj"@) {
        (hidden, moe_inter)
    } else {
        (moe_inter, hidden)
    }
}

/// Rows and columns of an expert's weight.
pub fn expert_oi(name: &str, hidden: usize, moe_inter: usize) -> (d: (usize, usize))
    ensures
        d == expert_dims(name@, hidden, moe_inter),
{
    if contains(name, "down_proj") {
        (hidden, moe_inter)
    } else {
        (moe_inter, hidden)
    }
}

/// What becomes of a container's tensor.
#[derive(Debug, Clone, Copy, PartialEq, Eq, Structural)]
pub enum Requant {
    /// Dropped: a scale that its weight's new encoding has used up.
    Skip,
    /// Copied as it is.
    Raw,
    /// A resident weight of int8 rows, encoded in four bits.
    Resident { o: usize, i: usize },
    /// An expert's weight of 8-bit floats, encoded in four bits.
    Expert { o: usize, i: usize },
    /// There is no such tensor.
    Missing,
    /// An expert's weight that does not have one code per element.
    WrongCount { o: usize, i: usize, numel: usize },
}

/// The dimensions of a resident weight that can be encoded in four bits: one byte
/// per element, as many rows as scales beside it, and not in four bits already.
/// The weight itself is stored flat, so its own shape tells nothing.
pub open spec fn resident_dims(tensors: Seq<SourceTensor>, name: Seq<char>) -> Option<
    (usize, usize),
> {
    let t = named(tensors, name);
    let qs = named(tensors, name + ".qs"@);
    let o = qs.numel;
    let n = t.numel;
    if has_name(tensors, name) && !has_name(tensors, name + ".g"@) && has_name(
        tensors,
        name + ".qs"@,
    ) && o > 0 && n > 0 && n as int % o as int == 0 && t.nbytes == n {
        Some((o, (n as int / o as int) as usize))
    } else {
        None
    }
}

/// The dimensions of a resident weight that can be encoded in four bits. Both
/// the weight and its scales ask this one question, so they cannot disagree.
pub fn resident_nvfp4_dims(name: &str, tensors: &Vec<SourceTensor>) -> (r: Option<(usize, usize)>)
    ensures
        r == resident_dims(tensors@, name@),
{
    let t: &SourceTensor = match find(tensors, name) {
        Some(t) => t,
        None => {
            return None;
        },
    };
    let g: String = joined(name, ".g");
    if is_listed(tensors, g.as_str()) {
        return None;
    }
    let q: String = joined(name, ".qs");
    let qs: &SourceTensor = match find(tensors, q.as_str()) {
        Some(t) => t,
        None => {
            return None;
        },
    };
    let o: usize = qs.numel;
    let n: usize = t.numel;
    if o == 0 || n == 0 || n % o != 0 || t.nbytes != n {
        return None;
    }
    Some((o, n / o))
}

/// The copy of a tensor, if it is there.
pub open spec fn copied(tensors: Seq<SourceTensor>, name: Seq<char>) -> Requant {
    if has_name(tensors, name) {
        Requant::Raw
    } else {
        Requant::Missing
    }
}

/// What becomes of the scales of weight `base`.
pub open spec fn scales_requant(
    tensors: Seq<SourceTensor>,
    base: Seq<char>,
    n_layers: nat,
    resident: bool,
) -> Requant {
    let k = kind_of(base, n_layers, true, false, 1);
    if k == Kind::X || (resident && k == Kind::Q && resident_dims(tensors, base) is Some) {
        Requant::Skip
    } else {
        copied(tensors, base + ".qs"@)
    }
}

/// What becomes of an expert's weight.
pub open spec fn expert_requant(
    tensors: Seq<SourceTensor>,
    name: Seq<char>,
    hidden: usize,
    moe_inter: usize,
) -> Requant {
    let (o, i) = expert_dims(name, hidden, moe_inter);
    if has_name(tensors, name + ".g"@) {
        copied(tensors, name)
    } else if !has_name(tensors, name) {
        Requant::Missing
    } else if named(tensors, name).numel != o * i {
        Requant::WrongCount { o, i, numel: named(tensors, name).numel }
    } else {
        Requant::Expert { o, i }
    }
}

/// What becomes of a weight.
pub open spec fn weight_requant(
    tensors: Seq<SourceTensor>,
    name: Seq<char>,
    n_layers: nat,
    hidden: usize,
    moe_inter: usize,
    resident: bool,
) -> Requant {
    let k = kind_of(name, n_layers, true, false, 1);
    if resident && k == Kind::Q && resident_dims(tensors, name) is Some {
        let d = resident_dims(tensors, name)->0;
        Requant::Resident { o: d.0, i: d.1 }
    } else if k == Kind::X {
        expert_requant(tensors, name, hidden, moe_inter)
    } else {
        copied(tensors, name)
    }
}

/// What becomes of a container's tensor: scales go with their weights, weights
/// are encoded anew where that applies, everything else is copied.
pub open spec fn requant_of(
    tensors: Seq<SourceTensor>,
    name: Seq<char>,
    n_layers: nat,
    hidden: usize,
    moe_inter: usize,
    resident: bool,
) -> Requant {
    if ".qs"@.is_suffix_of(name) {
        scales_requant(tensors, name.take(name.len() - ".qs"@.len()), n_layers, resident)
    } else if ".weight"@.is_suffix_of(name) {
        weight_requant(tensors, name, n_layers, hidden, moe_inter, resident)
    } else {
        copied(tensors, name)
    }
}

fn copy_raw(name: &str, tensors: &Vec<SourceTensor>) -> (r: Requant)
    ensures
        r == copied(tensors@, name@),
{
    if is_listed(tensors, name) {
        Requant::Raw
    } else {
        Requant::Missing
    }
}

/// Decides what becomes of an expert's weight.
fn requant_expert(
    name: &str,
    tensors: &Vec<SourceTensor>,
    hidden: usize,
    moe_inter: usize,
) -> (r: Requant)
    ensures
        r == expert_requant(tensors@, name@, hidden, moe_inter),
{
    let g: String = joined(name, ".g");
    if is_listed(tensors, g.as_str()) {
        return copy_raw(name, tensors);
    }
    let (o, i): (usize, usize) = expert_oi(name, hidden, moe_inter);
    match find(tensors, name) {
        None => Requant::Missing,
        Some(t) => {
            proof {
                assert(o * i <= u128::MAX) by (nonlinear_arith)
                    requires
                        0 <= o <= 0xffff_ffff_ffff_ffff,
                        0 <= i <= 0xffff_ffff_ffff_ffff,
                ;
            }
            if t.numel as u128 != o as u128 * i as u128 {
                Requant::WrongCount { o, i, numel: t.numel }
            } else {
                Requant::Expert { o, i }
            }
        },
    }
}

/// Decides what becomes of one tensor of a container.
pub fn requant_one(
    name: &str,
    tensors: &Vec<SourceTensor>,
    n_layers: usize,
    hidden: usize,
    moe_inter: usize,
    resident_nvfp4: bool,
) -> (r: Requant)
    ensures
        r == requant_of(tensors@, name@, n_layers as nat, hidden, moe_inter, resident_nvfp4),
{
    if let Some(base) = strip_suffix(name, ".qs") {
        assert(base@ + ".qs"@ =~= name@);
        let k: Kind = classify(base, n_layers, true, false);
        if k == Kind::X {
            return Requant::Skip;
        }
        if resident_nvfp4 && k == Kind::Q && resident_nvfp4_dims(base, tensors).is_some() {
            return Requant::Skip;
        }
        return copy_raw(name, tensors);
    }
    if ends_with(name, ".weight") {
        let k: Kind = classify(name, n_layers, true, false);
        if resident_nvfp4 && k == Kind::Q {
            if let Some((o, i)) = resident_nvfp4_dims(name, tensors) {
                return Requant::Resident { o, i };
            }
        }
        if k == Kind::X {
            return requant_expert(name, tensors, hidden, moe_inter);
        }
    }
    copy_raw(name, tensors)
}

proof fn a_weight_is_no_scale(name: Seq<char>)
    requires
        ".weight"@.is_suffix_of(name),
    ensures
        !".qs"@.is_suffix_of(name),
{
    reveal_strlit(".weight");
    reveal_strlit(".qs");
    if ".qs"@.is_suffix_of(name) {
        let n = name.len() as int;
        assert(name.subrange(n - 7, n)[6] == 't');
        assert(name.subrange(n - 3, n)[2] == 's');
    }
}

/// The scales of a resident weight are dropped exactly where the weight itself is
/// encoded anew.
pub proof fn scales_go_exactly_with_their_weight(
    tensors: Seq<SourceTensor>,
    weight: Seq<char>,
    n_layers: nat,
    hidden: usize,
    moe_inter: usize,
    resident: bool,
)
    requires
        ".weight"@.is_suffix_of(weight),
        kind_of(weight, n_layers, true, false, 1) != Kind::X,
    ensures
        requant_of(tensors, weight + ".qs"@, n_layers, hidden, moe_inter, resident) == Requant::Skip
            <==> requant_of(
            tensors,
            weight,
            n_layers,
            hidden,
            moe_inter,
            resident,
        ) is Resident,
{
    a_weight_is_no_scale(weight);
    let scales = weight + ".qs"@;
    assert(scales.subrange(scales.len() - ".qs"@.len(), scales.len() as int) =~= ".qs"@);
    assert(scales.take(scales.len() - ".qs"@.len()) =~= weight);
}

/// A weight that is in four bits already, marked by its global scale, is copied:
/// running the pass again changes nothing.
pub proof fn encoding_again_changes_nothing(
    tensors: Seq<SourceTensor>,
    weight: Seq<char>,
    n_layers: nat,
    hidden: usize,
    moe_inter: usize,
    resident: bool,
)
    requires
        has_name(tensors, weight),
        has_name(tensors, weight + ".g"@),
        ".weight"@.is_suffix_of(weight),
    ensures
        requant_of(tensors, weight, n_layers, hidden, moe_inter, resident) == Requant::Raw,
{
    a_weight_is_no_scale(weight);
}

/// Rows and columns of a resident weight account for every byte of it.
pub proof fn resident_dims_cover_the_weight(tensors: Seq<SourceTensor>, name: Seq<char>)
    requires
        resident_dims(tensors, name) is Some,
    ensures
        ({
            let d = resident_dims(tensors, name)->0;
            d.0 * d.1 == named(tensors, name).nbytes && d.0 == named(
                tensors,
                name + ".qs"@,
            ).numel && d.1 > 0
        }),
{
    let o = named(tensors, name + ".qs"@).numel as int;
    let n = named(tensors, name).numel as int;
    vstd::arithmetic::div_mod::lemma_fundamental_div_mod(n, o);
    assert(n / o <= n) by {
        vstd::arithmetic::div_mod::lemma_div_is_ordered_by_denominator(n, 1, o);
    }
    if n / o == 0 {
        assert(o * (n / o) == 0) by (nonlinear_arith)
            requires
                n / o == 0,
        ;
    }
    vstd::arithmetic::div_mod::lemma_div_pos_is_pos(n, o);
}

/// Which tensors are four-bit codes, and of what weight: packed bytes with block scales and
/// a global scale beside them, two codes to a byte, so that the weight has the rows of the
/// bytes and twice their columns.
pub proof fn codes_are_two_to_a_byte(tensors: Seq<SourceTensor>, name: Seq<char>)
    requires
        has_name(tensors, name),
        dims_fit(tensors, name),
    ensures
        ({
            let t = named(tensors, name);
            let d = dequant_of(tensors, name);
            &&& d matches Dequant::Nvfp4 { o, i } ==> {
                &&& t.shape@.len() == 2
                &&& o == t.shape@[0]
                &&& i % 2 == 0 && i / 2 == t.shape@[1]
                &&& o * i == 2 * (t.shape@[0] * t.shape@[1])
            }
            &&& d is Nvfp4 <==> t.dtype == DType::U8 && has_name(tensors, name + "_scale"@)
                && has_name(tensors, name + "_scale_2"@) && t.shape@.len() == 2
            &&& d is NoGlobal <==> t.dtype == DType::U8 && has_name(tensors, name + "_scale"@)
                && !has_name(tensors, name + "_scale_2"@) && t.shape@.len() == 2
            &&& d is CodesNotAMatrix <==> t.dtype == DType::U8 && has_name(
                tensors,
                name + "_scale"@,
            ) && t.shape@.len() != 2
        }),
{
    let t = named(tensors, name);
    if t.shape@.len() == 2 {
        assert(0 <= t.shape@[0] && 2 * t.shape@[0] <= usize::MAX);
        assert(0 <= t.shape@[1] && 2 * t.shape@[1] <= usize::MAX);
        let o = t.shape@[0] as int;
        let h = t.shape@[1] as int;
        assert(o * (2 * h) == 2 * (o * h)) by (nonlinear_arith);
    }
}

/// How 8-bit floats are scaled: by one scale where there is no grid of them but a single
/// one, else by a grid, each of whose cells covers a block. F32 scales cover squares of 128;
/// bare exponents cover as large a block as their number divides the weight into.
pub proof fn blocks_share_a_scale(tensors: Seq<SourceTensor>, name: Seq<char>)
    requires
        has_name(tensors, name),
        dims_fit(tensors, name),
        dims_fit(tensors, name + "_scale_inv"@),
    ensures
        ({
            let t = named(tensors, name);
            let s = named(tensors, name + "_scale_inv"@);
            let grid = has_name(tensors, name + "_scale_inv"@);
            let bytes = t.dtype == DType::F8E4M3 || t.dtype == DType::F8E5M2;
            let d = dequant_of(tensors, name);
            &&& d is PerTensor <==> bytes && !grid && has_name(tensors, name + "_scale"@)
            &&& d is Blocks <==> bytes && grid && t.shape@.len() == 2 && s.shape@.len() == 2
            &&& d is NoScales ==> bytes && !grid
            &&& d is Straight <==> !bytes && !(t.dtype == DType::U8 && has_name(
                tensors,
                name + "_scale"@,
            ))
            &&& !(d is Missing)
            &&& d matches Dequant::Blocks { o, i, nbo, nbi, bo, bi, exponents } ==> {
                &&& o == t.shape@[0] && i == t.shape@[1]
                &&& nbo == s.shape@[0] && nbi == s.shape@[1]
                &&& exponents <==> s.dtype == DType::U8
                &&& !exponents ==> bo == 128 && bi == 128
                &&& exponents && 0 < nbo <= o ==> bo * nbo <= o < (bo + 1) * nbo
                &&& exponents && 0 < nbi <= i ==> bi * nbi <= i < (bi + 1) * nbi
                &&& bo >= 1 && bi >= 1
            }
        }),
{
    let t = named(tensors, name);
    let s = named(tensors, name + "_scale_inv"@);
    if let Dequant::Blocks { o, i, nbo, nbi, bo, bi, exponents } = dequant_of(tensors, name) {
        assert(0 <= t.shape@[0] && 2 * t.shape@[0] <= usize::MAX);
        assert(0 <= t.shape@[1] && 2 * t.shape@[1] <= usize::MAX);
        assert(0 <= s.shape@[0] && 2 * s.shape@[0] <= usize::MAX);
        assert(0 <= s.shape@[1] && 2 * s.shape@[1] <= usize::MAX);
        if exponents && 0 < nbo <= o {
            extent_divides(o, nbo);
        }
        if exponents && 0 < nbi <= i {
            extent_divides(i, nbi);
        }
    }
}

proof fn extent_divides(n: usize, blocks: usize)
    requires
        0 < blocks <= n,
    ensures
        extent(n, blocks) * blocks <= n < (extent(n, blocks) + 1) * blocks,
{
    let a = n as int;
    let b = blocks as int;
    let q = a / b;
    vstd::arithmetic::div_mod::lemma_fundamental_div_mod(a, b);
    assert(q >= 1 && q <= a && q * b <= a && a < (q + 1) * b) by (nonlinear_arith)
        requires
            a == b * q + a % b,
            0 <= a % b < b,
            0 < b <= a,
    ;
}

/// The cells of a grid of scales follow one another: the first block has the first, the
/// block to the right the next one, and the block below the one a row of cells further.
/// All elements of a block share one.
pub proof fn cells_follow_the_blocks(row: int, col: int, bo: int, bi: int, nbi: int)
    requires
        row >= 0,
        col >= 0,
        bo > 0,
        bi > 0,
    ensures
        row < bo && col < bi ==> scale_cell(row, col, bo, bi, nbi) == 0,
        scale_cell(row, col + bi, bo, bi, nbi) == scale_cell(row, col, bo, bi, nbi) + 1,
        scale_cell(row + bo, col, bo, bi, nbi) == scale_cell(row, col, bo, bi, nbi) + nbi,
        (row + 1) % bo != 0 ==> scale_cell(row + 1, col, bo, bi, nbi) == scale_cell(
            row,
            col,
            bo,
            bi,
            nbi,
        ),
        (col + 1) % bi != 0 ==> scale_cell(row, col + 1, bo, bi, nbi) == scale_cell(
            row,
            col,
            bo,
            bi,
            nbi,
        ),
{
    vstd::arithmetic::div_mod::lemma_div_plus_one(row, bo);
    vstd::arithmetic::div_mod::lemma_div_plus_one(col, bi);
    if row < bo && col < bi {
        vstd::arithmetic::div_mod::lemma_basic_div(row, bo);
        vstd::arithmetic::div_mod::lemma_basic_div(col, bi);
        assert(0 * nbi == 0) by (nonlinear_arith);
    }
    let r = row / bo;
    assert((r + 1) * nbi == r * nbi + nbi) by (nonlinear_arith);
    same_block(row, bo);
    same_block(col, bi);
}

proof fn same_block(x: int, b: int)
    requires
        x >= 0,
        b > 0,
    ensures
        (x + 1) % b != 0 ==> (x + 1) / b == x / b,
{
    vstd::arithmetic::div_mod::lemma_fundamental_div_mod(x, b);
    vstd::arithmetic::div_mod::lemma_fundamental_div_mod(x + 1, b);
    let p = x / b;
    let q = (x + 1) / b;
    let m = x % b;
    let n = (x + 1) % b;
    if n != 0 {
        assert(p == q) by (nonlinear_arith)
            requires
                x == b * p + m,
                x + 1 == b * q + n,
                0 <= m < b,
                0 < n < b,
        ;
    }
}

/// Codes are read only where their block scales lie flat, one for every sixteen inputs of
/// each row, and where the global scale is a factor below one.
pub proof fn codes_are_read_with_flat_scales(
    tensors: Seq<SourceTensor>,
    name: Seq<char>,
    o: usize,
    i: usize,
    global: u32,
)
    requires
        dims_fit(tensors, name + "_scale"@),
        has_name(tensors, name + "_scale"@),
    ensures
        ({
            let s = named(tensors, name + "_scale"@);
            let g = nvfp4_grid_of(tensors, name, o, i, global);
            let below = global < 0x3f80_0000 || 0x8000_0000 <= global <= 0xff80_0000;
            &&& g is Reciprocal <==> !below
            &&& g matches Nvfp4Grid::Flat { nb } ==> {
                &&& s.shape@.len() == 2 && s.shape@[0] == o && s.shape@[1] == nb
                &&& 16 * (nb - 1) < i <= 16 * nb
            }
            &&& below && s.shape@.len() == 2 && s.shape@[0] == o && 16 * (s.shape@[1] - 1) < i <= 16
                * s.shape@[1] ==> g is Flat
            &&& g is ScalesNotAMatrix <==> below && s.shape@.len() != 2
        }),
{
    let s = named(tensors, name + "_scale"@);
    if s.shape@.len() == 2 {
        assert(0 <= s.shape@[0] && 2 * s.shape@[0] <= usize::MAX);
        assert(0 <= s.shape@[1] && 2 * s.shape@[1] <= usize::MAX);
    }
}

/// The projection down takes what the others give: its rows are their columns, and the
/// other way round.
pub proof fn down_goes_the_other_way(a: Seq<char>, b: Seq<char>, hidden: usize, inter: usize)
    requires
        occurs(a, "down_proj"@),
        !occurs(b, "down_proj"@),
    ensures
        expert_dims(a, hidden, inter).0 == expert_dims(b, hidden, inter).1,
        expert_dims(a, hidden, inter).1 == expert_dims(b, hidden, inter).0,
        expert_dims(a, hidden, inter).0 == hidden,
        expert_dims(b, hidden, inter).0 == inter,
{
}

/// What becomes of an expert's weight and of its scales: the weight is encoded anew where it
/// has a code for each element and is not in four bits already; the scales go.
pub proof fn experts_are_encoded_once(
    tensors: Seq<SourceTensor>,
    weight: Seq<char>,
    n_layers: nat,
    hidden: usize,
    inter: usize,
    resident: bool,
)
    requires
        ".weight"@.is_suffix_of(weight),
        kind_of(weight, n_layers, true, false, 1) == Kind::X,
    ensures
        ({
            let r = requant_of(tensors, weight, n_layers, hidden, inter, resident);
            let four = has_name(tensors, weight + ".g"@);
            let there = has_name(tensors, weight);
            let n = named(tensors, weight).numel;
            &&& r is Expert <==> there && !four && n == hidden * inter
            &&& r matches Requant::Expert { o, i } ==> o * i == n && (o, i) == expert_dims(
                weight,
                hidden,
                inter,
            )
            &&& r is WrongCount <==> there && !four && n != hidden * inter
            &&& r is Raw <==> there && four
            &&& r is Missing <==> !there
            &&& requant_of(tensors, weight + ".qs"@, n_layers, hidden, inter, resident) is Skip
        }),
{
    a_weight_is_no_scale(weight);
    let scales = weight + ".qs"@;
    assert(scales.subrange(scales.len() - ".qs"@.len(), scales.len() as int) =~= ".qs"@);
    assert(scales.take(scales.len() - ".qs"@.len()) =~= weight);
    assert(hidden * inter == inter * hidden) by (nonlinear_arith);
}

/// Everything else of a container is copied: what is neither a weight nor its scales, and
/// weights that are no experts, unless resident ones are to be encoded and this one can be.
pub proof fn everything_else_is_copied(
    tensors: Seq<SourceTensor>,
    name: Seq<char>,
    n_layers: nat,
    hidden: usize,
    inter: usize,
    resident: bool,
)
    requires
        has_name(tensors, name),
        !".qs"@.is_suffix_of(name),
        kind_of(name, n_layers, true, false, 1) != Kind::X,
    ensures
        ({
            let r = requant_of(tensors, name, n_layers, hidden, inter, resident);
            let n = named(tensors, name).numel;
            let rows = named(tensors, name + ".qs"@).numel;
            let can = ".weight"@.is_suffix_of(name) && kind_of(name, n_layers, true, false, 1)
                == Kind::Q && !has_name(tensors, name + ".g"@) && has_name(tensors, name + ".qs"@)
                && rows > 0 && n > 0 && n as int % rows as int == 0 && named(tensors, name).nbytes
                == n;
            &&& r is Raw <==> !resident || !can
            &&& resident && can ==> r is Resident
            &&& r matches Requant::Resident { o, i } ==> o == rows && o * i == n
        }),
{
    if resident_dims(tensors, name) is Some {
        resident_dims_cover_the_weight(tensors, name);
    }
}

} // verus!
