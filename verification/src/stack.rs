//! Which driver runs a forward pass, and what each layer of a stack does.

use vstd::prelude::*;
use crate::attention::{AttnCall, AttnCore};
use crate::mamba::exact_experts_wanted;

verus! {

/// The kinds of stack that the engine runs.
#[derive(Debug, Clone, Copy, PartialEq, Eq, Structural)]
pub enum Arch {
    /// Latent attention.
    Mla,
    /// Grouped-query attention.
    Gqa,
    /// A hybrid of state-space, attention and expert layers.
    NemotronH,
    /// Linear and latent attention with attention residuals.
    KimiK3,
    /// Window attention with compressed context and several residual streams.
    DeepseekV4,
}

/// What a hybrid stack's layer is.
#[derive(Debug, Clone, Copy, PartialEq, Eq, Structural)]
pub enum LayerKind {
    Mamba,
    Attn,
    Moe,
    Kda,
}

/// Who runs a forward pass.
#[derive(Debug, Clone, Copy, PartialEq, Eq, Structural)]
pub enum Driver {
    /// The driver for attention residuals.
    Residuals,
    /// The driver for several residual streams, which splits a long prompt.
    Streams,
    /// The layer loop; `exact_experts` for a batch of drafts.
    Layers { exact_experts: bool },
}

/// Who runs a forward pass of `s` tokens. Stacks whose state is not one hidden
/// vector have drivers of their own; one that could have several streams but has
/// none takes the ordinary loop.
pub fn forward(arch: Arch, hc_mult: usize, s: usize, exact_max: usize) -> (d: Driver)
    ensures
        d == if arch == Arch::KimiK3 {
            Driver::Residuals
        } else if arch == Arch::DeepseekV4 && hc_mult > 0 {
            Driver::Streams
        } else {
            Driver::Layers { exact_experts: 1 < s <= exact_max }
        },
{
    if arch == Arch::KimiK3 {
        Driver::Residuals
    } else if arch == Arch::DeepseekV4 && hc_mult > 0 {
        Driver::Streams
    } else {
        Driver::Layers { exact_experts: exact_experts_wanted(s, exact_max) }
    }
}

/// Why a layer cannot be run.
#[derive(Debug, Clone, Copy, PartialEq, Eq, Structural)]
pub enum Unsupported {
    /// The stack threads state between its layers that a single layer has nowhere
    /// to put.
    NoSingleLayer,
    /// A linear-attention layer in a stack that has no such mixer.
    WrongMixer,
    /// A hybrid stack in a batched step.
    HybridBatch(Arch),
}

/// The attention of an ordinary layer.
#[derive(Debug, Clone, Copy, PartialEq, Eq, Structural)]
pub enum LayerAttn {
    /// Grouped-query attention.
    Gqa,
    /// Latent attention. `reuse`: over the selection that is carried along;
    /// `keep`: what it computes is carried along; `sharded`: its heads are split
    /// over several machines.
    Mla { reuse: bool, keep: bool, sharded: bool },
}

/// The feed-forward block of a layer.
#[derive(Debug, Clone, Copy, PartialEq, Eq, Structural)]
pub enum LayerFfn {
    Dense,
    /// Routed experts, with a shared one if the model has it.
    Moe { shared: bool },
}

/// What a layer does.
#[derive(Debug, Clone, Copy, PartialEq, Eq, Structural)]
pub enum LayerPlan {
    /// One norm, one mixer, added to the stream.
    Single(LayerKind),
    /// Norm, attention, added; norm, feed-forward block, added.
    Block { attn: LayerAttn, ffn: LayerFfn },
}

/// What a layer is and how it is called.
#[derive(Debug, Clone, Copy, PartialEq, Eq, Structural)]
pub struct LayerCall {
    pub arch: Arch,
    /// The mixer, where the layer is not part of the main stack.
    pub kind: Option<LayerKind>,
    /// The mixer that the stack lists for it.
    pub listed: LayerKind,
    /// Whether it computes its own attention selection.
    pub full_indexer: bool,
    /// Whether it has routed experts.
    pub sparse: bool,
    /// Shared experts of the model.
    pub n_shared: usize,
    pub s: usize,
    pub pos_base: usize,
    /// Whether attention may be split over machines.
    pub tp_enabled: bool,
    /// Machines.
    pub nodes: usize,
}

impl LayerCall {
    /// The mixer of a hybrid layer: the one given, or the one listed.
    pub open spec fn mixer(self) -> LayerKind {
        match self.kind {
            Some(k) => k,
            None => self.listed,
        }
    }

    /// Whether the heads are split over several machines: only while a prompt
    /// begins a sequence.
    pub open spec fn sharded(self) -> bool {
        self.pos_base == 0 && self.s > 1 && self.tp_enabled && self.nodes > 1
    }

    /// What the layer does.
    pub open spec fn plan(self) -> Result<LayerPlan, Unsupported> {
        if self.arch == Arch::NemotronH {
            if self.mixer() == LayerKind::Kda {
                Err(Unsupported::WrongMixer)
            } else {
                Ok(LayerPlan::Single(self.mixer()))
            }
        } else if self.arch == Arch::KimiK3 {
            Err(Unsupported::NoSingleLayer)
        } else {
            Ok(
                LayerPlan::Block {
                    attn: if self.arch == Arch::Gqa {
                        LayerAttn::Gqa
                    } else {
                        LayerAttn::Mla {
                            reuse: !self.full_indexer,
                            keep: self.full_indexer,
                            sharded: self.sharded(),
                        }
                    },
                    ffn: if self.sparse {
                        LayerFfn::Moe { shared: self.n_shared > 0 }
                    } else {
                        LayerFfn::Dense
                    },
                },
            )
        }
    }
}

/// Plans one layer.
pub fn layer_forward_kind(call: LayerCall) -> (r: Result<LayerPlan, Unsupported>)
    ensures
        r == call.plan(),
{
    if call.arch == Arch::NemotronH {
        let kind: LayerKind = match call.kind {
            Some(k) => k,
            None => call.listed,
        };
        return nemotron_layer_forward(kind);
    }
    if call.arch == Arch::KimiK3 {
        return Err(Unsupported::NoSingleLayer);
    }
    let attn: LayerAttn = if call.arch == Arch::Gqa {
        LayerAttn::Gqa
    } else {
        LayerAttn::Mla {
            reuse: !call.full_indexer,
            keep: call.full_indexer,
            sharded: call.pos_base == 0 && call.s > 1 && call.tp_enabled && call.nodes > 1,
        }
    };
    let ffn: LayerFfn = if call.sparse {
        LayerFfn::Moe { shared: call.n_shared > 0 }
    } else {
        LayerFfn::Dense
    };
    Ok(LayerPlan::Block { attn, ffn })
}

/// What a layer of the main stack does: its mixer is the one listed for it.
pub fn layer_forward(call: LayerCall) -> (r: Result<LayerPlan, Unsupported>)
    ensures
        r == (LayerCall { kind: None, ..call }).plan(),
{
    layer_forward_kind(LayerCall { kind: None, ..call })
}

/// Plans one layer of a hybrid stack.
fn nemotron_layer_forward(kind: LayerKind) -> (r: Result<LayerPlan, Unsupported>)
    ensures
        r == if kind == LayerKind::Kda {
            Err::<LayerPlan, Unsupported>(Unsupported::WrongMixer)
        } else {
            Ok(LayerPlan::Single(kind))
        },
{
    match kind {
        LayerKind::Kda => Err(Unsupported::WrongMixer),
        k => Ok(LayerPlan::Single(k)),
    }
}

/// Whether several sequences can take a step together: every layer has to be of
/// the ordinary shape.
pub fn forward_batched(arch: Arch, listed_kinds: usize) -> (r: Result<Driver, Unsupported>)
    ensures
        r == if listed_kinds > 0 {
            Err::<Driver, Unsupported>(Unsupported::HybridBatch(arch))
        } else {
            Ok(Driver::Layers { exact_experts: false })
        },
{
    if listed_kinds > 0 {
        return Err(Unsupported::HybridBatch(arch));
    }
    Ok(Driver::Layers { exact_experts: false })
}

/// What a layer does in a step of several sequences: attention for each of them
/// alone, and one feed-forward block over a row of each, so that an expert is
/// fetched once for all.
pub struct BatchPlan {
    pub gqa: bool,
    /// The attention of each sequence.
    pub attn: Vec<AttnCall>,
    pub ffn: LayerFfn,
    /// Rows of the feed-forward block.
    pub rows: usize,
}

/// The attention of one token at `pos` over a cache that begins at `st0`, as in a
/// step of that sequence alone.
pub open spec fn lone_step(pos: usize, st0: usize) -> AttnCall {
    AttnCall { core: AttnCore::Reconstruct, s_len: 1, pos_base: pos, st0, selection_given: false }
}

/// The attention of each sequence, given where each stands and where its cache
/// begins.
pub open spec fn lone_steps(positions: Seq<usize>, starts: Seq<usize>) -> Seq<AttnCall> {
    Seq::new(positions.len(), |i: int| lone_step(positions[i], starts[i]))
}

/// Plans one layer of a step of several sequences, each at its own position of its
/// own cache.
pub fn layer_forward_batched(
    arch: Arch,
    sparse: bool,
    n_shared: usize,
    positions: &Vec<usize>,
    starts: &Vec<usize>,
) -> (p: BatchPlan)
    requires
        starts@.len() == positions@.len(),
    ensures
        p.gqa == (arch == Arch::Gqa),
        p.attn@ == lone_steps(positions@, starts@),
        p.ffn == if sparse {
            LayerFfn::Moe { shared: n_shared > 0 }
        } else {
            LayerFfn::Dense
        },
        p.rows == positions@.len(),
{
    let mut attn: Vec<AttnCall> = Vec::new();
    for i in 0..positions.len()
        invariant
            starts@.len() == positions@.len(),
            attn@.len() == i,
            forall|k: int| 0 <= k < i ==> #[trigger] attn@[k] == lone_step(positions@[k], starts@[k]),
    {
        attn.push(
            AttnCall {
                core: AttnCore::Reconstruct,
                s_len: 1,
                pos_base: positions[i],
                st0: starts[i],
                selection_given: false,
            },
        );
    }
    assert(attn@ =~= lone_steps(positions@, starts@));
    let ffn: LayerFfn = if sparse {
        LayerFfn::Moe { shared: n_shared > 0 }
    } else {
        LayerFfn::Dense
    };
    BatchPlan { gqa: arch == Arch::Gqa, attn, ffn, rows: positions.len() }
}

/// A sequence's attention does not depend on what else is in the batch: it is that
/// of a step of its own.
pub proof fn a_batch_keeps_its_sequences_apart(
    positions: Seq<usize>,
    starts: Seq<usize>,
    i: int,
)
    requires
        starts.len() == positions.len(),
        0 <= i < positions.len(),
    ensures
        lone_steps(positions, starts)[i] == lone_steps(seq![positions[i]], seq![starts[i]])[0],
{
}

/// The attention selection that is carried from layers that compute their own to
/// those that share it.
pub struct Carried {
    sel: Option<Vec<Vec<usize>>>,
}

impl View for Carried {
    type V = Option<Seq<Vec<usize>>>;

    closed spec fn view(&self) -> Option<Seq<Vec<usize>>> {
        match self.sel {
            Some(v) => Some(v@),
            None => None,
        }
    }
}

impl Carried {
    /// Nothing yet: a forward pass begins dense.
    pub fn new() -> (c: Carried)
        ensures
            c@ is None,
    {
        Carried { sel: None }
    }

    /// The selection that a layer attends over: none of its own making if it
    /// computes one, else the one carried along.
    pub fn reused(&self, full_indexer: bool) -> (r: Option<&Vec<Vec<usize>>>)
        ensures
            match r {
                Some(v) => !full_indexer && self@ == Some(v@),
                None => full_indexer || self@ is None,
            },
    {
        if full_indexer {
            return None;
        }
        match &self.sel {
            Some(v) => Some(v),
            None => None,
        }
    }

    /// Goes on after a layer: what a layer with an indexer of its own computed is
    /// carried from there on, be it nothing.
    pub fn after_layer(&mut self, full_indexer: bool, computed: Option<Vec<Vec<usize>>>)
        ensures
            final(self)@ == if full_indexer {
                match computed {
                    Some(v) => Some(v@),
                    None => None,
                }
            } else {
                old(self)@
            },
    {
        if full_indexer {
            self.sel = computed;
        }
    }
}

/// What is carried into layer `n` of a pass whose layers computed `made`.
pub open spec fn carried_into<S>(full: Seq<bool>, made: Seq<Option<S>>, n: nat) -> Option<S>
    decreases n,
{
    if n == 0 {
        None
    } else if full[n - 1] {
        made[n - 1]
    } else {
        carried_into(full, made, (n - 1) as nat)
    }
}

/// A layer that shares a selection attends over that of the nearest layer before
/// it that computes its own; before the first of those, it is dense.
pub proof fn shared_layers_follow_the_nearest_full_one<S>(
    full: Seq<bool>,
    made: Seq<Option<S>>,
    n: nat,
    m: nat,
)
    requires
        n <= full.len(),
        n <= made.len(),
    ensures
        m < n && full[m as int] && (forall|k: int| m < k < n ==> !#[trigger] full[k])
            ==> carried_into(full, made, n) == made[m as int],
        (forall|k: int| 0 <= k < n ==> !#[trigger] full[k]) ==> carried_into(full, made, n) is None,
    decreases n,
{
    if n > 0 {
        shared_layers_follow_the_nearest_full_one(full, made, (n - 1) as nat, m);
        if full[n - 1] && m < n - 1 {
            assert(full[n - 1]);
        }
    }
}

/// Forward passes run so far.
pub struct ForwardSteps {
    count: u64,
}

impl View for ForwardSteps {
    type V = u64;

    closed spec fn view(&self) -> u64 {
        self.count
    }
}

impl ForwardSteps {
    /// None yet.
    pub fn new() -> (f: ForwardSteps)
        ensures
            f@ == 0,
    {
        ForwardSteps { count: 0 }
    }

    /// Counts one more pass; the count goes on from zero after its largest value.
    pub fn advance(&mut self)
        ensures
            final(self)@ == if old(self)@ == u64::MAX { 0 } else { (old(self)@ + 1) as u64 },
    {
        self.count = self.count.wrapping_add(1);
    }

    /// The number of the current pass.
    pub fn current_step(&self) -> (n: u64)
        ensures
            n == self@,
    {
        self.count
    }
}

/// The hash of a state so far `h` after one more byte.
pub open spec fn hash_byte(h: u64, b: u8) -> u64 {
    ((h ^ (b as u64)) * 0x100000001b3 % 0x1_0000_0000_0000_0000) as u64
}

/// The hash after a sequence of bytes.
pub open spec fn hash_bytes(h: u64, bytes: Seq<u8>) -> u64
    decreases bytes.len(),
{
    if bytes.len() == 0 {
        h
    } else {
        hash_byte(hash_bytes(h, bytes.drop_last()), bytes.last())
    }
}

/// The bytes of f32 values given by their bits, lowest first.
pub open spec fn state_bytes(bits: Seq<u32>) -> Seq<u8> {
    crate::encode::f32_le(bits)
}

/// A hash of a whole state, bit for bit: two runs of the same input that differ
/// anywhere are told apart at the first layer at which they do.
pub fn trace_state(bits: &Vec<u32>) -> (h: u64)
    ensures
        h == hash_bytes(0xcbf29ce484222325, state_bytes(bits@)),
{
    let bytes: Vec<u8> = crate::encode::f32_bytes(bits);
    let mut h: u64 = 0xcbf29ce484222325;
    assert(bytes@.take(0) =~= Seq::<u8>::empty());
    for i in 0..bytes.len()
        invariant
            h == hash_bytes(0xcbf29ce484222325, bytes@.take(i as int)),
    {
        let ghost before = h;
        let mixed: u64 = h ^ bytes[i] as u64;
        h = mixed.wrapping_mul(0x100000001b3);
        proof {
            let longer = bytes@.take(i + 1);
            assert(longer.drop_last() =~= bytes@.take(i as int));
            assert(longer.last() == bytes@[i as int]);
            assert(h == hash_byte(before, bytes@[i as int]));
        }
    }
    assert(bytes@.take(bytes@.len() as int) =~= bytes@);
    h
}

/// Attention residuals have a driver of their own, and so have several streams; every
/// other stack runs layer by layer, and takes exact experts for a few tokens at once.
pub proof fn every_stack_has_its_driver(
    arch: Arch,
    hc_mult: usize,
    s: usize,
    exact_max: usize,
    d: Driver,
)
    requires
        call_ensures(forward, (arch, hc_mult, s, exact_max), d),
    ensures
        d == Driver::Residuals <==> arch == Arch::KimiK3,
        d == Driver::Streams <==> arch == Arch::DeepseekV4 && hc_mult >= 1,
        d matches Driver::Layers { exact_experts } ==> (exact_experts <==> s >= 2 && s <= exact_max),
{
}

/// Only a stack of ordinary layers can take a step for several sequences.
pub proof fn hybrids_do_not_batch(arch: Arch, listed: usize, r: Result<Driver, Unsupported>)
    requires
        call_ensures(forward_batched, (arch, listed), r),
    ensures
        r is Err <==> listed >= 1,
        r is Err ==> r == Err::<Driver, Unsupported>(Unsupported::HybridBatch(arch)),
        r is Ok ==> r == Ok::<Driver, Unsupported>(Driver::Layers { exact_experts: false }),
{
}

/// What a layer is refused for, and what it does otherwise: a hybrid layer has one
/// mixer, every other layer attention and a feed-forward block. Grouped-query attention
/// belongs to its own stack. A layer that computes its selection keeps it, any other
/// reuses the one before it. The heads are split for a prompt at the beginning alone.
pub proof fn a_layer_does_what_its_stack_says(call: LayerCall, r: Result<LayerPlan, Unsupported>)
    requires
        call_ensures(layer_forward_kind, (call,), r),
    ensures
        r == Err::<LayerPlan, Unsupported>(Unsupported::NoSingleLayer) <==> call.arch
            == Arch::KimiK3,
        r == Err::<LayerPlan, Unsupported>(Unsupported::WrongMixer) <==> call.arch == Arch::NemotronH
            && (call.kind == Some(LayerKind::Kda) || call.kind is None && call.listed
            == LayerKind::Kda),
        r is Err ==> call.arch == Arch::KimiK3 || call.arch == Arch::NemotronH,
        r matches Ok(LayerPlan::Single(kind)) ==> call.arch == Arch::NemotronH && (call.kind is Some
            ==> call.kind == Some(kind)) && (call.kind is None ==> call.listed == kind),
        r matches Ok(LayerPlan::Block { attn, ffn }) ==> {
            &&& call.arch != Arch::NemotronH
            &&& attn == LayerAttn::Gqa <==> call.arch == Arch::Gqa
            &&& attn matches LayerAttn::Mla { reuse, keep, sharded } ==> {
                &&& keep == call.full_indexer
                &&& reuse != keep
                &&& sharded ==> call.tp_enabled && call.nodes >= 2 && call.s >= 2 && call.pos_base
                    == 0
                &&& call.tp_enabled && call.nodes >= 2 && call.s >= 2 && call.pos_base == 0 ==> sharded
            }
            &&& ffn == LayerFfn::Dense <==> !call.sparse
            &&& ffn matches LayerFfn::Moe { shared } ==> (shared <==> call.n_shared >= 1)
        },
{
}

/// A layer of the main stack has the mixer that is listed for it, whatever else the
/// call names.
pub proof fn the_main_stack_goes_by_its_list(
    call: LayerCall,
    r: Result<LayerPlan, Unsupported>,
    listed: Result<LayerPlan, Unsupported>,
)
    requires
        call_ensures(layer_forward, (call,), r),
        call_ensures(layer_forward_kind, (LayerCall { kind: Some(call.listed), ..call },), listed),
    ensures
        r == listed,
{
}

/// In a batch every sequence takes a step of one token at its own position over its own
/// cache, and the feed-forward block has one row for each, as the layer alone would.
pub proof fn a_batch_is_one_token_of_each(
    arch: Arch,
    sparse: bool,
    n_shared: usize,
    positions: Vec<usize>,
    starts: Vec<usize>,
    p: BatchPlan,
    i: int,
)
    requires
        starts@.len() == positions@.len(),
        0 <= i < positions@.len(),
        call_ensures(layer_forward_batched, (arch, sparse, n_shared, &positions, &starts), p),
    ensures
        p.attn@.len() == positions@.len(),
        p.rows == positions@.len(),
        p.attn@[i].pos_base == positions@[i],
        p.attn@[i].st0 == starts@[i],
        p.attn@[i].s_len == 1,
        p.attn@[i].core == AttnCore::Reconstruct,
        !p.attn@[i].selection_given,
        p.gqa <==> arch == Arch::Gqa,
        p.ffn == LayerFfn::Dense <==> !sparse,
        p.ffn matches LayerFfn::Moe { shared } ==> (shared <==> n_shared >= 1),
{
}

/// A state is hashed byte by byte: each byte is mixed in, and the result multiplied.
pub proof fn a_state_is_hashed_byte_by_byte(bits: Vec<u32>, h: u64)
    requires
        call_ensures(trace_state, (&bits,), h),
    ensures
        h == crate::encode::f32_le(bits@).fold_left(
            0xcbf29ce484222325u64,
            |s: u64, b: u8| ((s ^ (b as u64)) * 0x100000001b3 % 0x1_0000_0000_0000_0000) as u64,
        ),
{
    hash_is_a_fold(0xcbf29ce484222325, crate::encode::f32_le(bits@));
}

proof fn hash_is_a_fold(h: u64, bytes: Seq<u8>)
    ensures
        hash_bytes(h, bytes) == bytes.fold_left(
            h,
            |s: u64, b: u8| ((s ^ (b as u64)) * 0x100000001b3 % 0x1_0000_0000_0000_0000) as u64,
        ),
    decreases bytes.len(),
{
    reveal(Seq::fold_left);
    if bytes.len() > 0 {
        hash_is_a_fold(h, bytes.drop_last());
    }
}

proof fn multiplying_can_be_undone(x: u64, y: u64)
    requires
        x * 0x100000001b3 % 0x1_0000_0000_0000_0000 == y * 0x100000001b3 % 0x1_0000_0000_0000_0000,
    ensures
        x == y,
{
    undone(x);
    undone(y);
}

proof fn undone(x: u64)
    ensures
        ((x * 0x100000001b3) % 0x1_0000_0000_0000_0000) * 0xce965057aff6957b
            % 0x1_0000_0000_0000_0000 == x,
{
    let m: int = 0x1_0000_0000_0000_0000;
    let p: int = 0x100000001b3;
    let v: int = 0xce965057aff6957b;
    vstd::arithmetic::div_mod::lemma_mul_mod_noop_left(x * p, v, m);
    let k: int = (p * v - 1) / m;
    assert(p * v == k * m + 1);
    assert((x * p) * v == x * (k * m + 1)) by (nonlinear_arith)
        requires
            p * v == k * m + 1,
    ;
    assert(x * (k * m + 1) == m * (x * k) + x) by (nonlinear_arith);
    vstd::arithmetic::div_mod::lemma_mod_multiples_vanish(x * k, x as int, m);
    vstd::arithmetic::div_mod::lemma_small_mod(x as nat, m as nat);
}

/// Two states that agree up to some byte and differ there have different hashes as soon
/// as that byte is taken in, and keep them while nothing else differs.
pub proof fn a_changed_byte_changes_the_hash(h: u64, a: u8, b: u8, rest: Seq<u8>)
    requires
        a != b,
    ensures
        hash_bytes(h, seq![a] + rest) != hash_bytes(h, seq![b] + rest),
    decreases rest.len(),
{
    if rest.len() == 0 {
        assert(seq![a] + rest =~= seq![a]);
        assert(seq![b] + rest =~= seq![b]);
        assert(seq![a].drop_last() =~= Seq::<u8>::empty());
        assert(seq![b].drop_last() =~= Seq::<u8>::empty());
        reveal_with_fuel(hash_bytes, 2);
        let x = h ^ (a as u64);
        let y = h ^ (b as u64);
        if hash_byte(h, a) == hash_byte(h, b) {
            multiplying_can_be_undone(x, y);
            assert(a == b) by (bit_vector)
                requires
                    h ^ (a as u64) == h ^ (b as u64),
            ;
        }
    } else {
        let front = rest.drop_last();
        let last = rest.last();
        a_changed_byte_changes_the_hash(h, a, b, front);
        assert((seq![a] + rest).drop_last() =~= seq![a] + front);
        assert((seq![b] + rest).drop_last() =~= seq![b] + front);
        let p = hash_bytes(h, seq![a] + front);
        let q = hash_bytes(h, seq![b] + front);
        if hash_byte(p, last) == hash_byte(q, last) {
            multiplying_can_be_undone(p ^ (last as u64), q ^ (last as u64));
            assert(p == q) by (bit_vector)
                requires
                    p ^ (last as u64) == q ^ (last as u64),
            ;
        }
    }
}

/// A selection is carried from the layer that computed it to those that share it, up to
/// the next layer that computes one; what that one computed replaces it, be it nothing.
pub proof fn a_selection_is_carried_to_those_that_share_it(
    c: &mut Carried,
    computed: Option<Vec<Vec<usize>>>,
    sharing: &mut Carried,
    ignored: Option<Vec<Vec<usize>>>,
    r: Option<&Vec<Vec<usize>>>,
    own: Option<&Vec<Vec<usize>>>,
    fresh: Carried,
)
    requires
        call_ensures(Carried::after_layer, (c, true, computed), ()),
        *old(sharing) == *final(c),
        call_ensures(Carried::after_layer, (sharing, false, ignored), ()),
        call_ensures(Carried::reused, (&*final(sharing), false), r),
        call_ensures(Carried::reused, (&*final(sharing), true), own),
        call_ensures(Carried::new, (), fresh),
    ensures
        r is Some <==> computed is Some,
        r is Some ==> r->0@ == computed->0@,
        own is None,
        fresh@ is None,
{
}

/// Passes are numbered one after another.
pub proof fn passes_are_numbered(f: &mut ForwardSteps, before: u64, after: u64, first: ForwardSteps)
    requires
        call_ensures(ForwardSteps::current_step, (&*old(f),), before),
        call_ensures(ForwardSteps::advance, (f,), ()),
        call_ensures(ForwardSteps::current_step, (&*final(f),), after),
        call_ensures(ForwardSteps::new, (), first),
    ensures
        after == (before + 1) % 0x1_0000_0000_0000_0000,
        first@ == 0,
{
}

} // verus!
