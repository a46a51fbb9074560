//! What conversion does with each tensor of a snapshot.
//!
//! A snapshot's weights are rewritten as the engine's own container: resident
//! weights as int8 rows with one scale each, routed experts in a four-bit block
//! format (or as 8-bit floats), everything small as f32. This module decides,
//! from names and headers alone, what becomes of each tensor; the numbers
//! themselves are computed elsewhere.

use vstd::prelude::*;
use vstd::string::StringExecFns;
use crate::capacity::{ceil_div, div_up};
use crate::catalog::{check_dims, dims_fit, find, has_name, named, DType, SourceTensor};
use crate::names::{
    classify, classify_head, kimi_container_name, kimi_name, kind_of, layer_idx, layer_of,
    m3_container_name, m3_name, nemotron_container_name, nemotron_name, Kind,
};
use crate::text::{contains, ends_with, joined, strip_suffix};

verus! {

/// Side of a block that shares one f32 scale.
pub const BLOCK: usize = 128;

/// Inputs that share one block scale in the four-bit format.
pub const NVFP4_GS: usize = 16;

/// Inputs that share one exponent in the MX four-bit format.
pub const MXFP4_GS: usize = 32;

/// Widths and source of a conversion. Resident weights are 8 bits wide by
/// default, and routed experts are in the four-bit block format whatever the
/// resident width is.
#[derive(Debug, Clone, Copy, PartialEq, Eq, Structural)]
pub struct ConvertOpts {
    /// Bits of resident weights.
    pub ebits: u32,
    /// Bits of embeddings and output head.
    pub io_bits: u32,
    /// Transformer layers; the layers from there on are the speculative head.
    pub n_layers: usize,
    /// Keep the sparse-attention indexer.
    pub keep_indexer: bool,
    /// Convert the speculative head alone.
    pub mtp_only: bool,
    /// Routed experts as 8-bit floats.
    pub xfp8: bool,
    /// The source is a multimodal checkpoint.
    pub minimax: bool,
    /// Norm weights are stored less one.
    pub gemma_norm: bool,
    /// The source is a hybrid of state-space and attention layers.
    pub nemotron: bool,
    /// The source is a latent-MoE checkpoint with four-bit experts.
    pub kimi: bool,
    /// Layers that the speculative head takes.
    pub mtp_layers: usize,
}

impl Default for ConvertOpts {
    fn default() -> (o: ConvertOpts)
        ensures
            o == (ConvertOpts {
                ebits: 8,
                io_bits: 8,
                n_layers: 78,
                keep_indexer: false,
                mtp_only: false,
                xfp8: false,
                minimax: false,
                gemma_norm: false,
                nemotron: false,
                kimi: false,
                mtp_layers: 1,
            }),
    {
        ConvertOpts {
            ebits: 8,
            io_bits: 8,
            n_layers: 78,
            keep_indexer: false,
            mtp_only: false,
            xfp8: false,
            minimax: false,
            gemma_norm: false,
            nemotron: false,
            kimi: false,
            mtp_layers: 1,
        }
    }
}

/// An encoding whose loss is scored.
#[derive(Debug, Clone, Copy, PartialEq, Eq, Structural)]
pub enum Scheme {
    /// Integer rows of this width with one scale each.
    Int(u32),
    /// The four-bit block format.
    Nvfp4,
}

/// What kind of snapshot a directory holds.
#[derive(Debug, Clone, Copy, PartialEq, Eq, Structural)]
pub enum SourceFormat {
    /// Already a container.
    Container,
    /// Block-scaled 8-bit floats.
    Fp8,
    /// The four-bit block format.
    Nvfp4,
    /// No quantization that is recognized.
    Unknown,
}

impl SourceFormat {
    /// The format's name.
    pub fn as_str(self) -> (s: &'static str)
        ensures
            s@ == match self {
                SourceFormat::Container => "container"@,
                SourceFormat::Fp8 => "fp8"@,
                SourceFormat::Nvfp4 => "nvfp4"@,
                SourceFormat::Unknown => "unknown"@,
            },
    {
        match self {
            SourceFormat::Container => "container",
            SourceFormat::Fp8 => "fp8",
            SourceFormat::Nvfp4 => "nvfp4",
            SourceFormat::Unknown => "unknown",
        }
    }

    /// Whether the snapshot must be converted before the engine can load it.
    pub fn needs_convert(self) -> (b: bool)
        ensures
            b == (self == SourceFormat::Fp8 || self == SourceFormat::Nvfp4),
    {
        match self {
            SourceFormat::Fp8 => true,
            SourceFormat::Nvfp4 => true,
            _ => false,
        }
    }
}

/// Whether some tensor's name ends with `suffix`.
pub open spec fn some_ends_with(tensors: Seq<SourceTensor>, suffix: Seq<char>) -> bool {
    exists|i: int| 0 <= i < tensors.len() && suffix.is_suffix_of(#[trigger] tensors[i].name@)
}

/// Whether a tensor shows 8-bit floats: a block-scale grid, or a weight that is
/// stored so.
pub open spec fn shows_fp8(t: SourceTensor) -> bool {
    "_scale_inv"@.is_suffix_of(t.name@) || (t.dtype.is_fp8() && ".weight"@.is_suffix_of(t.name@))
}

/// The format that a snapshot's tensors show. A container's own row scales tell
/// first, then a global scale, then 8-bit floats.
pub open spec fn format_of(tensors: Seq<SourceTensor>) -> SourceFormat {
    if some_ends_with(tensors, ".qs"@) {
        SourceFormat::Container
    } else if some_ends_with(tensors, "_scale_2"@) {
        SourceFormat::Nvfp4
    } else if exists|i: int| 0 <= i < tensors.len() && shows_fp8(#[trigger] tensors[i]) {
        SourceFormat::Fp8
    } else {
        SourceFormat::Unknown
    }
}

/// Detects the format of a snapshot from its tensors.
pub fn detect_format(tensors: &Vec<SourceTensor>) -> (f: SourceFormat)
    ensures
        f == format_of(tensors@),
{
    let mut global: bool = false;
    let mut fp8: bool = false;
    for i in 0..tensors.len()
        invariant
            forall|j: int|
                0 <= j < i ==> !".qs"@.is_suffix_of(#[trigger] tensors@[j].name@),
            global == exists|j: int|
                0 <= j < i && "_scale_2"@.is_suffix_of(#[trigger] tensors@[j].name@),
            fp8 == exists|j: int| 0 <= j < i && shows_fp8(#[trigger] tensors@[j]),
    {
        let t: &SourceTensor = &tensors[i];
        let name: &str = t.name.as_str();
        if ends_with(name, ".qs") {
            assert(".qs"@.is_suffix_of(tensors@[i as int].name@));
            return SourceFormat::Container;
        }
        if ends_with(name, "_scale_2") {
            assert("_scale_2"@.is_suffix_of(tensors@[i as int].name@));
            global = true;
        }
        let is_fp8: bool = match t.dtype {
            DType::F8E4M3 => true,
            DType::F8E5M2 => true,
            _ => false,
        };
        if ends_with(name, "_scale_inv") || (is_fp8 && ends_with(name, ".weight")) {
            assert(shows_fp8(tensors@[i as int]));
            fp8 = true;
        }
    }
    if global {
        SourceFormat::Nvfp4
    } else if fp8 {
        SourceFormat::Fp8
    } else {
        SourceFormat::Unknown
    }
}

/// What was converted is not converted again: a snapshot that holds the row scales
/// of an encoded weight is a container, whatever else it holds.
pub proof fn row_scales_make_a_container(tensors: Seq<SourceTensor>, name: Seq<char>, k: int)
    requires
        0 <= k < tensors.len(),
        tensors[k].name@ == name + ".qs"@,
    ensures
        format_of(tensors) == SourceFormat::Container,
{
    assert((name + ".qs"@).skip(name.len() as int) =~= ".qs"@);
    assert(".qs"@.is_suffix_of(tensors[k].name@));
}

/// Whether a container name lies below layer `ceiling`, or in no layer.
pub open spec fn below(n: Seq<char>, ceiling: int) -> bool {
    layer_of(n) < 0 || layer_of(n) < ceiling
}

/// `n` if it is a name below layer `ceiling`.
pub open spec fn kept_below(n: Option<Seq<char>>, ceiling: int) -> Option<Seq<char>> {
    match n {
        Some(s) if below(s, ceiling) => Some(s),
        _ => None,
    }
}

/// The container name of a source tensor, if it is kept. Only a hybrid
/// checkpoint's speculative head is kept by name.
pub open spec fn container_of(name: Seq<char>, opts: ConvertOpts) -> Option<Seq<char>> {
    if opts.minimax {
        kept_below(m3_name(name), opts.n_layers as int)
    } else if opts.kimi {
        kept_below(kimi_name(name), opts.n_layers as int)
    } else if opts.nemotron {
        kept_below(
            nemotron_name(name, opts.n_layers as nat),
            opts.n_layers + opts.mtp_layers,
        )
    } else {
        Some(name)
    }
}

/// How a weight is encoded.
#[derive(Debug, Clone, Copy, PartialEq, Eq, Structural)]
pub enum Encoding {
    /// 8-bit floats with one scale per row.
    E4m3,
    /// The four-bit block format.
    Nvfp4,
    /// Integer rows of this width with one scale each.
    Rows(u32),
}

/// What becomes of a kept tensor.
#[derive(Debug, Clone, Copy, PartialEq, Eq, Structural)]
pub enum Step {
    /// Stored as f32; `add_one` for a norm that is stored less one.
    F32 { add_one: bool },
    /// Its bytes and its exponents are copied as they are.
    Passthrough,
    /// Encoded, if it is a matrix; stored as f32 if not.
    Encode(Encoding),
}

/// A kept tensor: its container name and what becomes of it.
pub struct Planned {
    pub out_name: String,
    pub step: Step,
}

/// The stem of a packed four-bit weight's name.
pub open spec fn packed_stem(name: Seq<char>) -> Seq<char> {
    name.take(name.len() - ".weight_packed"@.len())
}

/// The name of the exponents that belong to a packed weight.
pub open spec fn exponents_of(name: Seq<char>) -> Seq<char> {
    (if ".weight_packed"@.is_suffix_of(name) {
        packed_stem(name)
    } else {
        name
    }) + ".weight_scale"@
}

/// The name of the exponents that belong to a packed weight. A weight that does
/// not say that it is packed has its own name for a stem.
pub fn exponents_name(name: &str) -> (s: String)
    ensures
        s@ == exponents_of(name@),
{
    match strip_suffix(name, ".weight_packed") {
        Some(stem) => joined(stem, ".weight_scale"),
        None => joined(name, ".weight_scale"),
    }
}

/// Whether a weight has packed bytes, with exponent bytes beside them, so that its
/// dimensions are looked at.
pub open spec fn looks_packed(tensors: Seq<SourceTensor>, name: Seq<char>) -> bool {
    let sname = exponents_of(name);
    let w = named(tensors, name);
    let s = named(tensors, sname);
    &&& ".weight_packed"@.is_suffix_of(name)
    &&& has_name(tensors, name)
    &&& has_name(tensors, sname)
    &&& w.dtype == DType::U8
    &&& s.dtype == DType::U8
    &&& w.shape@.len() >= 2
    &&& s.shape@.len() >= 2
}

/// The dimensions of an MX four-bit weight that can be copied: packed bytes with
/// one exponent byte per 32 inputs beside them. The number of exponents is what
/// tells it from the other four-bit format.
pub open spec fn mxfp4_dims(tensors: Seq<SourceTensor>, name: Seq<char>) -> Option<(int, int)> {
    let w = named(tensors, name);
    let s = named(tensors, exponents_of(name));
    if looks_packed(tensors, name) && s.shape@[0] == w.shape@[0] && s.shape@[1] == div_up(
        w.shape@[1] * 2,
        MXFP4_GS as int,
    ) {
        Some((w.shape@[0] as int, w.shape@[1] * 2))
    } else {
        None
    }
}

/// Whether a weight has packed bytes, with exponent bytes beside them.
fn is_packed(tensors: &Vec<SourceTensor>, name: &str) -> (b: bool)
    ensures
        b == looks_packed(tensors@, name@),
{
    if !ends_with(name, ".weight_packed") {
        return false;
    }
    let sname: String = exponents_name(name);
    match (find(tensors, name), find(tensors, sname.as_str())) {
        (Some(w), Some(s)) => w.dtype == DType::U8 && s.dtype == DType::U8 && w.shape.len() >= 2
            && s.shape.len() >= 2,
        _ => false,
    }
}

/// The dimensions of an MX four-bit weight that can be copied.
pub fn mxfp4_source(tensors: &Vec<SourceTensor>, name: &str) -> (r: Option<(usize, usize)>)
    requires
        looks_packed(tensors@, name@) ==> dims_fit(tensors@, name@),
    ensures
        match r {
            Some((o, i)) => mxfp4_dims(tensors@, name@) == Some((o as int, i as int)),
            None => mxfp4_dims(tensors@, name@) is None,
        },
{
    if !is_packed(tensors, name) {
        return None;
    }
    let sname: String = exponents_name(name);
    let (w, s): (&SourceTensor, &SourceTensor) = match (
        find(tensors, name),
        find(tensors, sname.as_str()),
    ) {
        (Some(w), Some(s)) => (w, s),
        _ => {
            return None;
        },
    };
    assert(0 <= w.shape@[0] && 2 * w.shape@[0] <= usize::MAX);
    assert(0 <= w.shape@[1] && 2 * w.shape@[1] <= usize::MAX);
    let o: usize = w.shape[0] as usize;
    let i: usize = w.shape[1] as usize * 2;
    let want: u64 = ceil_div(i as u64, 32);
    if s.shape[0] == w.shape[0] && s.shape[1] as i128 == want as i128 {
        Some((o, i))
    } else {
        None
    }
}

/// The width of a weight that is stored in integer rows.
pub open spec fn width_of(kind: Kind, opts: ConvertOpts) -> u32 {
    if kind == Kind::Io {
        opts.io_bits
    } else {
        opts.ebits
    }
}

/// What becomes of a tensor that is kept as `kind` under `out_name`.
pub open spec fn step_for(
    name: Seq<char>,
    out_name: Seq<char>,
    tensors: Seq<SourceTensor>,
    kind: Kind,
    opts: ConvertOpts,
) -> Step {
    match kind {
        Kind::F32 | Kind::Skip => Step::F32 {
            add_one: opts.gemma_norm && "norm.weight"@.is_suffix_of(out_name),
        },
        Kind::X => if opts.xfp8 {
            Step::Encode(Encoding::E4m3)
        } else if mxfp4_dims(tensors, name) is Some {
            Step::Passthrough
        } else {
            Step::Encode(Encoding::Nvfp4)
        },
        Kind::Io | Kind::Q => Step::Encode(Encoding::Rows(width_of(kind, opts))),
    }
}

/// What a source tensor is kept as, if it has a container name.
pub open spec fn source_kind(name: Seq<char>, opts: ConvertOpts) -> Option<Kind> {
    match container_of(name, opts) {
        None => None,
        Some(out_name) => Some(
            kind_of(
                out_name,
                opts.n_layers as nat,
                opts.keep_indexer,
                opts.mtp_only,
                opts.mtp_layers as nat,
            ),
        ),
    }
}

/// Whether a source tensor is an expert that may be copied as it is.
pub open spec fn may_be_copied(name: Seq<char>, opts: ConvertOpts) -> bool {
    source_kind(name, opts) == Some(Kind::X) && !opts.xfp8
}

/// What becomes of a source tensor: nothing, or a step under a container name.
pub open spec fn plan_of(name: Seq<char>, tensors: Seq<SourceTensor>, opts: ConvertOpts) -> Option<
    (Seq<char>, Step),
> {
    match container_of(name, opts) {
        None => None,
        Some(out_name) => {
            let kind = kind_of(
                out_name,
                opts.n_layers as nat,
                opts.keep_indexer,
                opts.mtp_only,
                opts.mtp_layers as nat,
            );
            if kind == Kind::Skip {
                None
            } else {
                Some((out_name, step_for(name, out_name, tensors, kind, opts)))
            }
        },
    }
}

/// `n` if it lies below layer `ceiling`.
fn keep_below(n: Option<String>, ceiling: u128) -> (r: Option<String>)
    ensures
        match n {
            Some(s) if below(s@, ceiling as int) => r is Some && r->0@ == s@,
            _ => r is None,
        },
{
    match n {
        None => None,
        Some(s) => {
            let li: i64 = layer_idx(s.as_str());
            if li < 0 || (li as u128) < ceiling {
                Some(s)
            } else {
                None
            }
        },
    }
}

/// The container name of a source tensor, if it is kept.
pub fn container_name(name: &str, opts: &ConvertOpts) -> (r: Option<String>)
    ensures
        match r {
            Some(s) => container_of(name@, *opts) == Some(s@),
            None => container_of(name@, *opts) is None,
        },
{
    if opts.minimax {
        keep_below(m3_container_name(name), opts.n_layers as u128)
    } else if opts.kimi {
        keep_below(kimi_container_name(name), opts.n_layers as u128)
    } else if opts.nemotron {
        keep_below(
            nemotron_container_name(name, opts.n_layers),
            opts.n_layers as u128 + opts.mtp_layers as u128,
        )
    } else {
        Some(name.to_owned())
    }
}

/// Whether the dimensions of a source tensor can be worked with, or need not be
/// looked at to decide what becomes of it.
pub fn can_process(name: &str, tensors: &Vec<SourceTensor>, opts: &ConvertOpts) -> (b: bool)
    ensures
        b == (may_be_copied(name@, *opts) && looks_packed(tensors@, name@) ==> dims_fit(
            tensors@,
            name@,
        )),
{
    if opts.xfp8 || !is_packed(tensors, name) {
        return true;
    }
    match container_name(name, opts) {
        None => true,
        Some(out_name) => {
            let kind: Kind = classify_head(
                out_name.as_str(),
                opts.n_layers,
                opts.keep_indexer,
                opts.mtp_only,
                opts.mtp_layers,
            );
            kind != Kind::X || check_dims(tensors, name)
        },
    }
}

/// Decides what becomes of one source tensor.
pub fn process_one(name: &str, tensors: &Vec<SourceTensor>, opts: &ConvertOpts) -> (r: Option<
    Planned,
>)
    requires
        may_be_copied(name@, *opts) && looks_packed(tensors@, name@) ==> dims_fit(
            tensors@,
            name@,
        ),
    ensures
        match r {
            Some(p) => plan_of(name@, tensors@, *opts) == Some((p.out_name@, p.step)),
            None => plan_of(name@, tensors@, *opts) is None,
        },
{
    let out_name: String = match container_name(name, opts) {
        Some(n) => n,
        None => {
            return None;
        },
    };
    let kind: Kind = classify_head(
        out_name.as_str(),
        opts.n_layers,
        opts.keep_indexer,
        opts.mtp_only,
        opts.mtp_layers,
    );
    let step: Step = match kind {
        Kind::Skip => {
            return None;
        },
        Kind::F32 => Step::F32 {
            add_one: opts.gemma_norm && ends_with(out_name.as_str(), "norm.weight"),
        },
        Kind::X => {
            if opts.xfp8 {
                Step::Encode(Encoding::E4m3)
            } else if mxfp4_source(tensors, name).is_some() {
                Step::Passthrough
            } else {
                Step::Encode(Encoding::Nvfp4)
            }
        },
        Kind::Io => Step::Encode(Encoding::Rows(opts.io_bits)),
        Kind::Q => Step::Encode(Encoding::Rows(opts.ebits)),
    };
    Some(Planned { out_name, step })
}

/// Experts are never encoded in integer rows, and the widths of those change nothing
/// about them; nothing else is encoded in an expert format, and only experts are
/// copied through.
pub proof fn widths_do_not_touch_experts(
    name: Seq<char>,
    tensors: Seq<SourceTensor>,
    opts: ConvertOpts,
    ebits: u32,
    io_bits: u32,
)
    ensures
        ({
            let other = ConvertOpts { ebits, io_bits, ..opts };
            let a = plan_of(name, tensors, opts);
            let b = plan_of(name, tensors, other);
            &&& a is Some <==> b is Some
            &&& a matches Some((_, step)) ==> {
                ||| a == b
                ||| step matches Step::Encode(Encoding::Rows(_))
            }
            &&& a matches Some((_, step)) ==> {
                let expert = source_kind(name, opts) == Some(Kind::X);
                &&& step is Passthrough ==> expert
                &&& step matches Step::Encode(e) ==> (e is E4m3 || e is Nvfp4 <==> expert)
                &&& expert ==> a == b && (step is Passthrough || step is Encode)
            }
        }),
{
}

/// Whether `r` lists, in order, exactly the numbers below `n` that `wanted`
/// accepts.
pub open spec fn is_listing(r: Seq<usize>, n: int, wanted: spec_fn(int) -> bool) -> bool {
    &&& forall|k: int| 0 <= k < r.len() ==> 0 <= #[trigger] r[k] < n && wanted(r[k] as int)
    &&& forall|a: int, b: int| 0 <= a < b < r.len() ==> r[a] < r[b]
    &&& forall|i: int| 0 <= i < n && #[trigger] wanted(i) ==> r.contains(i as usize)
}

proof fn listing_grows(r: Seq<usize>, i: usize, wanted: spec_fn(int) -> bool)
    requires
        is_listing(r, i as int, wanted),
    ensures
        wanted(i as int) ==> is_listing(r.push(i), i + 1, wanted),
        !wanted(i as int) ==> is_listing(r, i + 1, wanted),
{
    let l = r.push(i);
    if wanted(i as int) {
        assert forall|j: int| 0 <= j < i + 1 && #[trigger] wanted(j) implies l.contains(
            j as usize,
        ) by {
            if j < i {
                assert(r.contains(j as usize));
                let k = choose|k: int| 0 <= k < r.len() && r[k] == j as usize;
                assert(l[k] == j as usize);
            } else {
                assert(l[r.len() as int] == i);
            }
        }
    }
}

/// The tensors of shard `file`, in order.
pub fn tensors_of_file(tensors: &Vec<SourceTensor>, file: usize) -> (r: Vec<usize>)
    ensures
        is_listing(r@, tensors@.len() as int, |i: int| tensors@[i].file_idx == file),
{
    let ghost wanted = |i: int| tensors@[i].file_idx == file;
    let mut r: Vec<usize> = Vec::new();
    for i in 0..tensors.len()
        invariant
            wanted == (|i: int| tensors@[i].file_idx == file),
            is_listing(r@, i as int, wanted),
    {
        proof {
            listing_grows(r@, i, wanted);
        }
        if tensors[i].file_idx == file {
            r.push(i);
        }
    }
    r
}

/// The weights whose encoding is scored: the routed experts, or the resident
/// weights.
pub fn scored_tensors(tensors: &Vec<SourceTensor>, n_layers: usize, experts: bool) -> (r: Vec<usize>)
    ensures
        is_listing(
            r@,
            tensors@.len() as int,
            |i: int|
                kind_of(tensors@[i].name@, n_layers as nat, false, false, 1) == if experts {
                    Kind::X
                } else {
                    Kind::Q
                },
        ),
{
    let want: Kind = if experts { Kind::X } else { Kind::Q };
    let ghost wanted = |i: int|
        kind_of(tensors@[i].name@, n_layers as nat, false, false, 1) == if experts {
            Kind::X
        } else {
            Kind::Q
        };
    let mut r: Vec<usize> = Vec::new();
    for i in 0..tensors.len()
        invariant
            want == if experts {
                Kind::X
            } else {
                Kind::Q
            },
            wanted == (|i: int|
                kind_of(tensors@[i].name@, n_layers as nat, false, false, 1) == if experts {
                    Kind::X
                } else {
                    Kind::Q
                }),
            is_listing(r@, i as int, wanted),
    {
        proof {
            listing_grows(r@, i, wanted);
        }
        if classify(tensors[i].name.as_str(), n_layers, false, false) == want {
            r.push(i);
        }
    }
    r
}

/// Norms that are stored less one get it back: of the tensors that are kept as f32,
/// exactly those whose container name ends in `norm.weight`, and only where the source
/// stores them so.
pub proof fn exactly_the_norms_get_their_one_back(
    name: Seq<char>,
    tensors: Seq<SourceTensor>,
    opts: ConvertOpts,
)
    ensures
        plan_of(name, tensors, opts) matches Some((out_name, Step::F32 { add_one })) ==> (add_one
            <==> opts.gemma_norm && exists|stem: Seq<char>| out_name == #[trigger] (stem
            + "norm.weight"@)),
{
    if let Some((out_name, Step::F32 { add_one })) = plan_of(name, tensors, opts) {
        let norm = "norm.weight"@;
        if norm.is_suffix_of(out_name) {
            let stem = out_name.take(out_name.len() - norm.len());
            assert(stem + norm =~= out_name);
        }
        if exists|stem: Seq<char>| out_name == #[trigger] (stem + norm) {
            let stem = choose|stem: Seq<char>| out_name == #[trigger] (stem + norm);
            assert(out_name.skip(stem.len() as int) =~= norm);
        }
    }
}

/// What is kept, and how: by the class of a tensor's container name.
pub proof fn each_class_has_its_encoding(
    name: Seq<char>,
    tensors: Seq<SourceTensor>,
    opts: ConvertOpts,
    out_name: Seq<char>,
)
    requires
        container_of(name, opts) == Some(out_name),
    ensures
        ({
            let kind = kind_of(
                out_name,
                opts.n_layers as nat,
                opts.keep_indexer,
                opts.mtp_only,
                opts.mtp_layers as nat,
            );
            let plan = plan_of(name, tensors, opts);
            &&& plan is None <==> kind is Skip
            &&& plan matches Some((n, _)) ==> n == out_name
            &&& plan matches Some((_, step)) ==> {
                &&& step is F32 <==> kind is F32
                &&& kind is Io ==> step == Step::Encode(Encoding::Rows(opts.io_bits))
                &&& kind is Q ==> step == Step::Encode(Encoding::Rows(opts.ebits))
                &&& kind is X && opts.xfp8 ==> step == Step::Encode(Encoding::E4m3)
                &&& kind is X && !opts.xfp8 && mxfp4_dims(tensors, name) is Some ==> step
                    is Passthrough
                &&& kind is X && !opts.xfp8 && mxfp4_dims(tensors, name) is None ==> step
                    == Step::Encode(Encoding::Nvfp4)
            }
        }),
{
}

/// A tensor without a container name is dropped.
pub proof fn what_has_no_name_is_dropped(
    name: Seq<char>,
    tensors: Seq<SourceTensor>,
    opts: ConvertOpts,
)
    requires
        container_of(name, opts) is None,
    ensures
        plan_of(name, tensors, opts) is None,
{
}

/// Sources that are not renamed keep every name; renamed ones keep what their naming
/// keeps, as long as it does not lie above the layers that are wanted. Only a hybrid
/// source has wanted layers above the stack.
pub proof fn names_above_the_wanted_layers_are_dropped(name: Seq<char>, opts: ConvertOpts)
    ensures
        !opts.minimax && !opts.kimi && !opts.nemotron ==> container_of(name, opts) == Some(name),
        opts.minimax && m3_name(name) is None ==> container_of(name, opts) is None,
        opts.minimax ==> (m3_name(name) matches Some(n) ==> container_of(name, opts) == if layer_of(
            n,
        ) < opts.n_layers {
            Some(n)
        } else {
            None
        }),
        !opts.minimax && opts.kimi && kimi_name(name) is None ==> container_of(name, opts) is None,
        !opts.minimax && opts.kimi ==> (kimi_name(name) matches Some(n) ==> container_of(name, opts)
            == if layer_of(n) < opts.n_layers {
            Some(n)
        } else {
            None
        }),
        !opts.minimax && !opts.kimi && opts.nemotron && nemotron_name(name, opts.n_layers as nat)
            is None ==> container_of(name, opts) is None,
        !opts.minimax && !opts.kimi && opts.nemotron ==> (nemotron_name(
            name,
            opts.n_layers as nat,
        ) matches Some(n) ==> container_of(name, opts) == if layer_of(n) < opts.n_layers
            + opts.mtp_layers {
            Some(n)
        } else {
            None
        }),
{
}

/// The exponents of the packed weight of a projection are its scale.
pub proof fn packed_weights_and_their_exponents_share_a_stem(stem: Seq<char>)
    ensures
        exponents_of(stem + ".weight_packed"@) == stem + ".weight_scale"@,
{
    let name = stem + ".weight_packed"@;
    assert(name.skip(stem.len() as int) =~= ".weight_packed"@);
    assert(packed_stem(name) =~= stem);
}

/// An MX four-bit weight is one of packed bytes, two inputs to a byte, with one exponent
/// byte for every thirty-two inputs of each of its rows.
pub proof fn mx_weights_have_an_exponent_per_block(tensors: Seq<SourceTensor>, stem: Seq<char>)
    ensures
        ({
            let name = stem + ".weight_packed"@;
            let sname = stem + ".weight_scale"@;
            let w = named(tensors, name);
            let s = named(tensors, sname);
            let dims = mxfp4_dims(tensors, name);
            &&& dims matches Some((o, i)) ==> {
                &&& has_name(tensors, name) && has_name(tensors, sname)
                &&& w.dtype == DType::U8 && s.dtype == DType::U8
                &&& w.shape@.len() >= 2 && s.shape@.len() >= 2
                &&& o == w.shape@[0] && o == s.shape@[0]
                &&& i == w.shape@[1] + w.shape@[1]
                &&& 32 * (s.shape@[1] - 1) < i <= 32 * s.shape@[1]
            }
            &&& has_name(tensors, name) && has_name(tensors, sname) && w.dtype == DType::U8
                && s.dtype == DType::U8 && w.shape@.len() >= 2 && s.shape@.len() >= 2
                && w.shape@[0] == s.shape@[0] && 32 * (s.shape@[1] - 1) < 2 * w.shape@[1] <= 32
                * s.shape@[1] ==> dims is Some
        }),
{
    packed_weights_and_their_exponents_share_a_stem(stem);
    let name = stem + ".weight_packed"@;
    assert(name.skip(stem.len() as int) =~= ".weight_packed"@);
}

/// A snapshot is a container if anything in it ends in `.qs`; else it is in the four-bit
/// format if anything ends in `_scale_2`; else in 8-bit floats if a weight is stored so or
/// anything ends in `_scale_inv`. Nothing else is recognized, and only the two latter
/// are converted.
pub proof fn a_format_shows_in_its_tensors(tensors: Seq<SourceTensor>, convert: bool)
    requires
        call_ensures(SourceFormat::needs_convert, (format_of(tensors),), convert),
    ensures
        ({
            let rows = exists|k: int|
                0 <= k < tensors.len() && ".qs"@.is_suffix_of(#[trigger] tensors[k].name@);
            let global = exists|k: int|
                0 <= k < tensors.len() && "_scale_2"@.is_suffix_of(#[trigger] tensors[k].name@);
            let blocks = exists|k: int|
                0 <= k < tensors.len() && "_scale_inv"@.is_suffix_of(#[trigger] tensors[k].name@);
            let bytes = exists|k: int|
                0 <= k < tensors.len() && ".weight"@.is_suffix_of(#[trigger] tensors[k].name@) && (
                tensors[k].dtype == DType::F8E4M3 || tensors[k].dtype == DType::F8E5M2);
            &&& format_of(tensors) is Container <==> rows
            &&& format_of(tensors) is Nvfp4 <==> !rows && global
            &&& format_of(tensors) is Fp8 <==> !rows && !global && (blocks || bytes)
            &&& convert <==> !rows && (global || blocks || bytes)
        }),
{
    if exists|k: int|
        0 <= k < tensors.len() && "_scale_inv"@.is_suffix_of(#[trigger] tensors[k].name@) {
        let k = choose|k: int|
            0 <= k < tensors.len() && "_scale_inv"@.is_suffix_of(#[trigger] tensors[k].name@);
        assert(shows_fp8(tensors[k]));
    }
    if exists|k: int|
        0 <= k < tensors.len() && ".weight"@.is_suffix_of(#[trigger] tensors[k].name@) && (
        tensors[k].dtype == DType::F8E4M3 || tensors[k].dtype == DType::F8E5M2) {
        let k = choose|k: int|
            0 <= k < tensors.len() && ".weight"@.is_suffix_of(#[trigger] tensors[k].name@) && (
            tensors[k].dtype == DType::F8E4M3 || tensors[k].dtype == DType::F8E5M2);
        assert(shows_fp8(tensors[k]));
    }
    if exists|k: int| 0 <= k < tensors.len() && shows_fp8(#[trigger] tensors[k]) {
        let k = choose|k: int| 0 <= k < tensors.len() && shows_fp8(#[trigger] tensors[k]);
        assert("_scale_inv"@.is_suffix_of(tensors[k].name@) || ".weight"@.is_suffix_of(
            tensors[k].name@,
        ));
    }
}

/// The order in which a snapshot lists its tensors does not change its format.
pub proof fn the_order_of_tensors_does_not_matter(a: Seq<SourceTensor>, b: Seq<SourceTensor>)
    requires
        forall|k: int| 0 <= k < a.len() ==> b.contains(#[trigger] a[k]),
        forall|k: int| 0 <= k < b.len() ==> a.contains(#[trigger] b[k]),
    ensures
        format_of(a) == format_of(b),
{
    shown_in_one_is_shown_in_the_other(a, b);
    shown_in_one_is_shown_in_the_other(b, a);
}

proof fn shown_in_one_is_shown_in_the_other(a: Seq<SourceTensor>, b: Seq<SourceTensor>)
    requires
        forall|k: int| 0 <= k < a.len() ==> b.contains(#[trigger] a[k]),
    ensures
        some_ends_with(a, ".qs"@) ==> some_ends_with(b, ".qs"@),
        some_ends_with(a, "_scale_2"@) ==> some_ends_with(b, "_scale_2"@),
        (exists|i: int| 0 <= i < a.len() && shows_fp8(#[trigger] a[i])) ==> exists|i: int|
            0 <= i < b.len() && shows_fp8(#[trigger] b[i]),
{
    if some_ends_with(a, ".qs"@) {
        let i = choose|i: int| 0 <= i < a.len() && ".qs"@.is_suffix_of(#[trigger] a[i].name@);
        assert(b.contains(a[i]));
        let j = choose|j: int| 0 <= j < b.len() && b[j] == a[i];
        assert(".qs"@.is_suffix_of(b[j].name@));
    }
    if some_ends_with(a, "_scale_2"@) {
        let i = choose|i: int| 0 <= i < a.len() && "_scale_2"@.is_suffix_of(#[trigger] a[i].name@);
        assert(b.contains(a[i]));
        let j = choose|j: int| 0 <= j < b.len() && b[j] == a[i];
        assert("_scale_2"@.is_suffix_of(b[j].name@));
    }
    if exists|i: int| 0 <= i < a.len() && shows_fp8(#[trigger] a[i]) {
        let i = choose|i: int| 0 <= i < a.len() && shows_fp8(#[trigger] a[i]);
        assert(b.contains(a[i]));
        let j = choose|j: int| 0 <= j < b.len() && b[j] == a[i];
        assert(shows_fp8(b[j]));
    }
}

/// Every tensor is handled with its own shard, once.
pub proof fn every_tensor_is_listed_with_its_shard(
    tensors: Vec<SourceTensor>,
    file: usize,
    r: Vec<usize>,
    i: usize,
)
    requires
        call_ensures(tensors_of_file, (&tensors, file), r),
        i < tensors@.len(),
    ensures
        r@.contains(i) <==> tensors@[i as int].file_idx == file,
        r@.no_duplicates(),
        forall|a: int, b: int| 0 <= a < b < r@.len() ==> r@[a] < r@[b],
{
    let wanted = |i: int| tensors@[i].file_idx == file;
    assert(is_listing(r@, tensors@.len() as int, wanted));
    if wanted(i as int) {
        assert(r@.contains(i));
    }
}

/// Scoring looks at the routed experts, or else at the resident weights, and at no other
/// tensor.
pub proof fn scoring_looks_at_one_class(
    tensors: Vec<SourceTensor>,
    n_layers: usize,
    experts: bool,
    r: Vec<usize>,
    i: usize,
)
    requires
        call_ensures(scored_tensors, (&tensors, n_layers, experts), r),
        i < tensors@.len(),
    ensures
        ({
            let kind = kind_of(tensors@[i as int].name@, n_layers as nat, false, false, 1);
            &&& experts ==> (r@.contains(i) <==> kind is X)
            &&& !experts ==> (r@.contains(i) <==> kind is Q)
        }),
{
    let wanted = |i: int|
        kind_of(tensors@[i].name@, n_layers as nat, false, false, 1) == if experts {
            Kind::X
        } else {
            Kind::Q
        };
    assert(is_listing(r@, tensors@.len() as int, wanted));
    if wanted(i as int) {
        assert(r@.contains(i));
    }
}

/// No two formats have the same name.
pub proof fn formats_have_names_of_their_own(
    a: SourceFormat,
    b: SourceFormat,
    s: &'static str,
    t: &'static str,
)
    requires
        call_ensures(SourceFormat::as_str, (a,), s),
        call_ensures(SourceFormat::as_str, (b,), t),
    ensures
        s@ == t@ <==> a == b,
        s@.first() == 'c' <==> a == SourceFormat::Container,
        s@.first() == 'f' <==> a == SourceFormat::Fp8,
        s@.first() == 'n' <==> a == SourceFormat::Nvfp4,
        s@.first() == 'u' <==> a == SourceFormat::Unknown,
{
    reveal_strlit("container");
    reveal_strlit("fp8");
    reveal_strlit("nvfp4");
    reveal_strlit("unknown");
    if s@ == t@ {
        assert(s@.first() == t@.first());
    }
}

} // verus!
