//! Tensor names: how a checkpoint's names map to the container's, and what a
//! name says about how its tensor is stored.

use vstd::prelude::*;
use vstd::string::{StrSliceExecFns, StringExecFns};
use crate::text::{
    are_plain, contains, decimal, dotted, ends_with, first_at, first_at_facts, inner_renamed,
    is_plain, joined, later_renamed, nothing_is_replaced, occurs, occurs_at, parse_signed, parse_unsigned, replace,
    replaced, replacing_renames_inner_parts, replacing_renames_later_parts, same, signed_in,
    split_on, split_once, stands_alone, starts_with, strip_prefix, the_end_is_replaced, to_decimal,
    unsigned_in,
};

verus! {

/// The `layer`-th block's name prefix followed by `tail`.
pub open spec fn layer_name(layer: nat, tail: Seq<char>) -> Seq<char> {
    "model.layers."@ + decimal(layer) + "."@ + tail
}

/// What follows the common prefix in the name of a speculative-head tensor.
pub open spec fn head_rest(name: Seq<char>) -> Seq<char> {
    name.skip("mtp.layers."@.len() as int)
}

/// The sublayer of the head that such a name names.
pub open spec fn head_sublayer(name: Seq<char>) -> Option<int> {
    let dot = first_at(head_rest(name), '.') as int;
    if !"mtp.layers."@.is_prefix_of(name) || dot >= head_rest(name).len() {
        None
    } else {
        unsigned_in(head_rest(name).take(dot), usize::MAX as int)
    }
}

/// What such a name names within its sublayer.
pub open spec fn head_tail(name: Seq<char>) -> Seq<char> {
    head_rest(name).skip(first_at(head_rest(name), '.') as int + 1)
}

/// Where a hybrid checkpoint's speculative-head tensor goes: sublayer `j` of the
/// head becomes layer `n_layers + j`, its own norm takes the block norm's name,
/// and the head's final norm goes to the head's first layer. Anything else of
/// the head is dropped.
pub open spec fn head_name(name: Seq<char>, n_layers: nat) -> Option<Seq<char>> {
    match head_sublayer(name) {
        None => None,
        Some(j) => if head_tail(name) == "final_layernorm.weight"@ {
            Some(layer_name(n_layers, "shared_head.norm.weight"@))
        } else if head_tail(name) == "norm.weight"@ {
            Some(layer_name((n_layers + j) as nat, "input_layernorm.weight"@))
        } else {
            Some(layer_name((n_layers + j) as nat, head_tail(name)))
        },
    }
}

/// Whether a hybrid checkpoint's tensor belongs to its speculative head.
pub open spec fn is_head_source(name: Seq<char>) -> bool {
    "mtp."@.is_prefix_of(name) || occurs(name, ".mtp."@) || occurs(name, "nextn"@)
}

/// A hybrid checkpoint's name with its stem and its embedding renamed.
pub open spec fn backbone_name(name: Seq<char>) -> Seq<char> {
    replaced(
        if "backbone."@.is_prefix_of(name) {
            "model."@ + name.skip("backbone."@.len() as int)
        } else {
            name
        },
        "model.embeddings.weight"@,
        "model.embed_tokens.weight"@,
    )
}

/// The container name of a hybrid checkpoint's tensor, if it is kept.
pub open spec fn nemotron_name(name: Seq<char>, n_layers: nat) -> Option<Seq<char>> {
    if is_head_source(name) {
        head_name(name, n_layers)
    } else {
        let n = backbone_name(name);
        if n == "model.norm_f.weight"@ {
            Some("model.norm.weight"@)
        } else if !occurs(n, ".mixer."@) && occurs(n, ".layers."@)
            && ".norm.weight"@.is_suffix_of(n) {
            Some(replaced(n, ".norm.weight"@, ".input_layernorm.weight"@))
        } else {
            Some(n)
        }
    }
}

/// `name` without the prefix `p`, if it has it.
pub open spec fn without_prefix(name: Seq<char>, p: Seq<char>) -> Seq<char> {
    if p.is_prefix_of(name) {
        name.skip(p.len() as int)
    } else {
        name
    }
}

/// The expert projections `w1`, `w3`, `w2` under their container names: gate,
/// up and down.
pub open spec fn projections_named(n: Seq<char>) -> Seq<char> {
    replaced(
        replaced(replaced(n, ".w1."@, ".gate_proj."@), ".w3."@, ".up_proj."@),
        ".w2."@,
        ".down_proj."@,
    )
}

/// Whether a tensor of a multimodal checkpoint is not part of the text model, or
/// belongs to its next-token head.
pub open spec fn m3_drops(name: Seq<char>) -> bool {
    ||| occurs(name, "vision_tower"@)
    ||| occurs(name, "multi_modal_projector"@)
    ||| occurs(name, "patch_merge_mlp"@)
    ||| occurs(name, "image_"@)
    ||| occurs(name, "visual"@)
    ||| occurs(name, ".mtp"@)
    ||| occurs(name, "nextn"@)
    ||| occurs(name, "num_nextn"@)
}

/// The container name of such a tensor, if it is kept.
pub open spec fn m3_name(name: Seq<char>) -> Option<Seq<char>> {
    if m3_drops(name) {
        None
    } else {
        Some(
            projections_named(
                replaced(
                    without_prefix(name, "language_model."@),
                    ".block_sparse_moe."@,
                    ".mlp."@,
                ),
            ),
        )
    }
}

/// Whether a tensor of a latent-MoE checkpoint is not part of the text model.
pub open spec fn kimi_drops(name: Seq<char>) -> bool {
    ||| occurs(name, "vision_tower"@)
    ||| occurs(name, "mm_projector"@)
    ||| occurs(name, "multi_modal_projector"@)
    ||| occurs(name, "visual"@)
    ||| occurs(name, "image_"@)
}

/// The two latent projections under their container names: the one down to the
/// latent space comes first, the one back up second.
pub open spec fn latents_named(n: Seq<char>) -> Seq<char> {
    replaced(
        replaced(n, ".routed_expert_down_proj."@, ".fc1_latent_proj."@),
        ".routed_expert_up_proj."@,
        ".fc2_latent_proj."@,
    )
}

/// The container name of such a tensor, if it is kept.
pub open spec fn kimi_name(name: Seq<char>) -> Option<Seq<char>> {
    if kimi_drops(name) {
        None
    } else {
        Some(
            replaced(
                projections_named(
                    replaced(
                        latents_named(without_prefix(name, "language_model."@)),
                        ".block_sparse_moe."@,
                        ".mlp."@,
                    ),
                ),
                ".weight_packed"@,
                ".weight"@,
            ),
        )
    }
}

/// Whether an optional text is the one stated.
pub open spec fn is_name(r: Option<String>, n: Option<Seq<char>>) -> bool {
    match r {
        Some(s) => n == Some(s@),
        None => n is None,
    }
}

/// `model.layers.<layer>.<tail>`.
fn name_in_layer(layer: u128, tail: &str) -> (s: String)
    ensures
        s@ == layer_name(layer as nat, tail@),
{
    let number: String = to_decimal(layer);
    let mut s: String = String::from_str("model.layers.");
    s.append(number.as_str());
    s.append(".");
    s.append(tail);
    s
}

/// Maps a tensor of a speculative head.
fn head_container_name(name: &str, n_layers: usize) -> (r: Option<String>)
    ensures
        is_name(r, head_name(name@, n_layers as nat)),
{
    let rest: &str = match strip_prefix(name, "mtp.layers.") {
        Some(rest) => rest,
        None => {
            return None;
        },
    };
    match split_once(rest, '.') {
        None => None,
        Some((j, tail)) => {
            match parse_unsigned(j, usize::MAX as u64) {
                None => None,
                Some(j) => {
                    if same(tail, "final_layernorm.weight") {
                        Some(name_in_layer(n_layers as u128, "shared_head.norm.weight"))
                    } else if same(tail, "norm.weight") {
                        Some(name_in_layer(n_layers as u128 + j as u128, "input_layernorm.weight"))
                    } else {
                        Some(name_in_layer(n_layers as u128 + j as u128, tail))
                    }
                },
            }
        },
    }
}

/// The container name of a hybrid (state-space and attention) checkpoint's
/// tensor, or `None` to drop it.
pub fn nemotron_container_name(name: &str, n_layers: usize) -> (r: Option<String>)
    ensures
        is_name(r, nemotron_name(name@, n_layers as nat)),
{
    if starts_with(name, "mtp.") || contains(name, ".mtp.") || contains(name, "nextn") {
        return head_container_name(name, n_layers);
    }
    let stem: String = match strip_prefix(name, "backbone.") {
        Some(rest) => joined("model.", rest),
        None => String::from_str(name),
    };
    proof {
        reveal_strlit("model.embeddings.weight");
        reveal_strlit(".norm.weight");
    }
    let n: String = replace(stem.as_str(), "model.embeddings.weight", "model.embed_tokens.weight");
    if same(n.as_str(), "model.norm_f.weight") {
        return Some(String::from_str("model.norm.weight"));
    }
    if !contains(n.as_str(), ".mixer.") && contains(n.as_str(), ".layers.") && ends_with(
        n.as_str(),
        ".norm.weight",
    ) {
        return Some(replace(n.as_str(), ".norm.weight", ".input_layernorm.weight"));
    }
    Some(n)
}

/// Names the expert projections.
fn name_projections(n: &str) -> (r: String)
    ensures
        r@ == projections_named(n@),
{
    proof {
        reveal_strlit(".w1.");
        reveal_strlit(".w2.");
        reveal_strlit(".w3.");
    }
    let a: String = replace(n, ".w1.", ".gate_proj.");
    let b: String = replace(a.as_str(), ".w3.", ".up_proj.");
    replace(b.as_str(), ".w2.", ".down_proj.")
}

/// The container name of a multimodal checkpoint's tensor, or `None` to drop it.
pub fn m3_container_name(name: &str) -> (r: Option<String>)
    ensures
        is_name(r, m3_name(name@)),
{
    if contains(name, "vision_tower") || contains(name, "multi_modal_projector") || contains(
        name,
        "patch_merge_mlp",
    ) || contains(name, "image_") || contains(name, "visual") || contains(name, ".mtp") || contains(
        name,
        "nextn",
    ) || contains(name, "num_nextn") {
        return None;
    }
    let stem: &str = match strip_prefix(name, "language_model.") {
        Some(rest) => rest,
        None => name,
    };
    proof {
        reveal_strlit(".block_sparse_moe.");
    }
    let n: String = replace(stem, ".block_sparse_moe.", ".mlp.");
    Some(name_projections(n.as_str()))
}

/// The container name of a latent-MoE checkpoint's tensor, or `None` to drop it.
pub fn kimi_container_name(name: &str) -> (r: Option<String>)
    ensures
        is_name(r, kimi_name(name@)),
{
    if contains(name, "vision_tower") || contains(name, "mm_projector") || contains(
        name,
        "multi_modal_projector",
    ) || contains(name, "visual") || contains(name, "image_") {
        return None;
    }
    let stem: &str = match strip_prefix(name, "language_model.") {
        Some(rest) => rest,
        None => name,
    };
    proof {
        reveal_strlit(".routed_expert_down_proj.");
        reveal_strlit(".routed_expert_up_proj.");
        reveal_strlit(".block_sparse_moe.");
        reveal_strlit(".weight_packed");
    }
    let a: String = replace(stem, ".routed_expert_down_proj.", ".fc1_latent_proj.");
    let b: String = replace(a.as_str(), ".routed_expert_up_proj.", ".fc2_latent_proj.");
    let c: String = replace(b.as_str(), ".block_sparse_moe.", ".mlp.");
    let d: String = name_projections(c.as_str());
    Some(replace(d.as_str(), ".weight_packed", ".weight"))
}

/// The layer that `model.layers.<i>.` names, or minus one.
pub open spec fn layer_of(name: Seq<char>) -> int {
    let parts = split_on(name, '.');
    if parts.len() >= 3 && parts[0] == "model"@ && parts[1] == "layers"@ && signed_in(
        parts[2],
    ) is Some {
        signed_in(parts[2])->0
    } else {
        -1
    }
}

/// The layer that a name names, or minus one.
pub fn layer_idx(name: &str) -> (i: i64)
    ensures
        i == layer_of(name@),
{
    proof {
        reveal_with_fuel(split_on, 4);
        first_at_facts(name@, '.');
    }
    let (first, rest): (&str, &str) = match split_once(name, '.') {
        Some(p) => p,
        None => {
            return -1;
        },
    };
    proof {
        first_at_facts(rest@, '.');
    }
    let (second, rest2): (&str, &str) = match split_once(rest, '.') {
        Some(p) => p,
        None => {
            return -1;
        },
    };
    proof {
        first_at_facts(rest2@, '.');
    }
    let third: &str = match split_once(rest2, '.') {
        Some((third, _)) => third,
        None => rest2,
    };
    proof {
        let parts = split_on(name@, '.');
        assert(parts[0] == first@);
        assert(parts[1] == second@);
        assert(parts[2] == third@);
    }
    if same(first, "model") && same(second, "layers") {
        match parse_signed(third) {
            Some(i) => i,
            None => -1,
        }
    } else {
        -1
    }
}

/// What conversion does with a tensor.
#[derive(Debug, Clone, Copy, PartialEq, Eq, Structural)]
pub enum Kind {
    /// Dropped, or handled together with its weight.
    Skip,
    /// Kept as f32: norms, the router, biases.
    F32,
    /// Embeddings and output head, at the input/output width.
    Io,
    /// A routed expert's weight, which is streamed.
    X,
    /// A resident weight: attention, dense and shared blocks.
    Q,
}

/// Whether a name is that of a scale beside a weight.
pub open spec fn is_sidecar(name: Seq<char>) -> bool {
    ||| "_scale_inv"@.is_suffix_of(name)
    ||| ".weight_scale"@.is_suffix_of(name)
    ||| ".weight_scale_2"@.is_suffix_of(name)
    ||| ".input_scale"@.is_suffix_of(name)
}

/// Whether layer `li` belongs to the speculative head.
pub open spec fn in_head(li: int, n_layers: nat, mtp_layers: nat) -> bool {
    n_layers <= li < n_layers + mtp_layers && li >= 0
}

/// Whether a tensor is left out whatever it is: a scale, a layer above the head,
/// or, where only the head is wanted, anything that is not of the head.
pub open spec fn left_out(name: Seq<char>, n_layers: nat, mtp_only: bool, mtp_layers: nat) -> bool {
    ||| is_sidecar(name)
    ||| layer_of(name) >= 0 && layer_of(name) >= n_layers + mtp_layers
    ||| mtp_only && !in_head(layer_of(name), n_layers, mtp_layers)
}

/// What becomes of a hybrid block's tensor.
pub open spec fn mixer_kind(name: Seq<char>) -> Kind {
    if "mixer.gate.weight"@.is_suffix_of(name) || "e_score_correction_bias"@.is_suffix_of(name)
        || occurs(name, ".conv1d."@) || "norm.weight"@.is_suffix_of(name) {
        Kind::F32
    } else if !".weight"@.is_suffix_of(name) {
        Kind::F32
    } else if occurs(name, ".mixer.experts."@) {
        Kind::X
    } else {
        Kind::Q
    }
}

/// Whether a name is one of those that only a speculative head has.
pub open spec fn is_head_only(name: Seq<char>) -> bool {
    ||| occurs(name, "indexers_proj"@)
    ||| occurs(name, "eh_proj"@)
    ||| occurs(name, "enorm"@)
    ||| occurs(name, "hnorm"@)
    ||| occurs(name, "shared_head"@)
}

/// What becomes of a tensor that only a speculative head has.
pub open spec fn head_only_kind(name: Seq<char>, is_mtp: bool) -> Kind {
    if is_mtp && occurs(name, "eh_proj"@) {
        Kind::Q
    } else if is_mtp && (occurs(name, "enorm"@) || occurs(name, "hnorm"@) || occurs(
        name,
        "shared_head.norm"@,
    )) {
        Kind::F32
    } else {
        Kind::Skip
    }
}

/// What becomes of a tensor of an ordinary block.
pub open spec fn block_kind(name: Seq<char>) -> Kind {
    if "e_score_correction_bias"@.is_suffix_of(name) || "mlp.gate.weight"@.is_suffix_of(name)
        || "norm.weight"@.is_suffix_of(name) || name == "model.norm.weight"@ {
        Kind::F32
    } else if name == "model.embed_tokens.weight"@ || name == "lm_head.weight"@ {
        Kind::Io
    } else if occurs(name, ".mlp.experts."@) && ".weight_packed"@.is_suffix_of(name) {
        Kind::X
    } else if occurs(name, "_conv1d.weight"@) || "_res_proj.weight"@.is_suffix_of(name) {
        Kind::F32
    } else if occurs(name, ".mlp.experts."@) && ".weight"@.is_suffix_of(name) {
        Kind::X
    } else if ".weight"@.is_suffix_of(name) {
        Kind::Q
    } else {
        Kind::F32
    }
}

/// What becomes of the tensor `name`. The head takes the `mtp_layers` layers
/// from `n_layers` on.
pub open spec fn kind_of(
    name: Seq<char>,
    n_layers: nat,
    keep_idx: bool,
    mtp_only: bool,
    mtp_layers: nat,
) -> Kind {
    if left_out(name, n_layers, mtp_only, mtp_layers) {
        Kind::Skip
    } else if occurs(name, ".mixer."@) {
        mixer_kind(name)
    } else if occurs(name, ".indexer."@) {
        if !keep_idx {
            Kind::Skip
        } else if occurs(name, "k_norm"@) {
            Kind::F32
        } else {
            Kind::Q
        }
    } else if is_head_only(name) {
        head_only_kind(name, in_head(layer_of(name), n_layers, mtp_layers))
    } else {
        block_kind(name)
    }
}

/// Classifies a tensor of a model whose head is a single block.
pub fn classify(name: &str, n_layers: usize, keep_idx: bool, mtp_only: bool) -> (k: Kind)
    ensures
        k == kind_of(name@, n_layers as nat, keep_idx, mtp_only, 1),
{
    classify_head(name, n_layers, keep_idx, mtp_only, 1)
}

/// Classifies a tensor of a model whose head takes `mtp_layers` layers.
pub fn classify_head(
    name: &str,
    n_layers: usize,
    keep_idx: bool,
    mtp_only: bool,
    mtp_layers: usize,
) -> (k: Kind)
    ensures
        k == kind_of(name@, n_layers as nat, keep_idx, mtp_only, mtp_layers as nat),
{
    if ends_with(name, "_scale_inv") || ends_with(name, ".weight_scale") || ends_with(
        name,
        ".weight_scale_2",
    ) || ends_with(name, ".input_scale") {
        return Kind::Skip;
    }
    let li: i64 = layer_idx(name);
    let head_end: u128 = n_layers as u128 + mtp_layers as u128;
    let is_mtp: bool = li >= 0 && li as u128 >= n_layers as u128 && (li as u128) < head_end;
    if li >= 0 && li as u128 >= head_end {
        return Kind::Skip;
    }
    if mtp_only && !is_mtp {
        return Kind::Skip;
    }
    if contains(name, ".mixer.") {
        return classify_nemotron(name);
    }
    if contains(name, ".indexer.") {
        if !keep_idx {
            return Kind::Skip;
        }
        return if contains(name, "k_norm") { Kind::F32 } else { Kind::Q };
    }
    if contains(name, "indexers_proj") || contains(name, "eh_proj") || contains(name, "enorm")
        || contains(name, "hnorm") || contains(name, "shared_head") {
        if is_mtp {
            if contains(name, "eh_proj") {
                return Kind::Q;
            }
            if contains(name, "enorm") || contains(name, "hnorm") || contains(
                name,
                "shared_head.norm",
            ) {
                return Kind::F32;
            }
        }
        return Kind::Skip;
    }
    classify_block(name)
}

/// Classifies a tensor of an ordinary block.
fn classify_block(name: &str) -> (k: Kind)
    ensures
        k == block_kind(name@),
{
    if ends_with(name, "e_score_correction_bias") || ends_with(name, "mlp.gate.weight")
        || ends_with(name, "norm.weight") || same(name, "model.norm.weight") {
        return Kind::F32;
    }
    if same(name, "model.embed_tokens.weight") || same(name, "lm_head.weight") {
        return Kind::Io;
    }
    if contains(name, ".mlp.experts.") && ends_with(name, ".weight_packed") {
        return Kind::X;
    }
    if contains(name, "_conv1d.weight") || ends_with(name, "_res_proj.weight") {
        return Kind::F32;
    }
    if contains(name, ".mlp.experts.") && ends_with(name, ".weight") {
        return Kind::X;
    }
    if ends_with(name, ".weight") {
        return Kind::Q;
    }
    Kind::F32
}

/// Classifies a hybrid block's tensor.
pub fn classify_nemotron(name: &str) -> (k: Kind)
    ensures
        k == mixer_kind(name@),
{
    if ends_with(name, "mixer.gate.weight") || ends_with(name, "e_score_correction_bias") {
        return Kind::F32;
    }
    if contains(name, ".conv1d.") {
        return Kind::F32;
    }
    if ends_with(name, "norm.weight") {
        return Kind::F32;
    }
    if contains(name, ".mixer.experts.") && ends_with(name, ".weight") {
        return Kind::X;
    }
    if ends_with(name, ".weight") {
        return Kind::Q;
    }
    Kind::F32
}

proof fn first_dot_after(front: Seq<char>, rest: Seq<char>)
    requires
        forall|i: int| 0 <= i < front.len() ==> front[i] != '.',
    ensures
        first_at(front + seq!['.'] + rest, '.') == front.len(),
        (front + seq!['.'] + rest).take(front.len() as int) == front,
        (front + seq!['.'] + rest).skip(front.len() as int + 1) == rest,
{
    let s = front + seq!['.'] + rest;
    first_at_facts(s, '.');
    let i = first_at(s, '.') as int;
    assert(s[front.len() as int] == '.');
    if i < front.len() {
        assert(s[i] == front[i]);
    }
    assert(s.take(front.len() as int) =~= front);
    assert(s.skip(front.len() as int + 1) =~= rest);
}

/// A tensor named into a layer is found in that layer.
pub proof fn a_layer_name_names_its_layer(layer: nat, tail: Seq<char>)
    requires
        layer <= i64::MAX,
    ensures
        layer_of(layer_name(layer, tail)) == layer,
{
    reveal_strlit("model.layers.");
    reveal_strlit("model");
    reveal_strlit("layers");
    reveal_strlit(".");
    let name = layer_name(layer, tail);
    let d = decimal(layer);
    crate::text::decimal_writes_the_number(layer);
    assert forall|i: int| 0 <= i < d.len() implies d[i] != '.' by {
        assert(crate::text::is_digit(d[i]));
    }
    let r2 = d + seq!['.'] + tail;
    let r1 = "layers"@ + seq!['.'] + r2;
    assert(name =~= "model"@ + seq!['.'] + r1);
    first_dot_after("model"@, r1);
    first_dot_after("layers"@, r2);
    first_dot_after(d, tail);
    reveal_with_fuel(split_on, 4);
    let parts = split_on(name, '.');
    assert(parts[0] == "model"@);
    assert(parts[1] == "layers"@);
    assert(parts[2] == d);
    assert(crate::text::is_digit(d[0]));
}

/// Every kept tensor of a hybrid checkpoint's speculative head lands in the
/// layers right above the main stack: sublayer `j` in layer `n_layers + j`, the
/// head's final norm in the first of them.
pub proof fn head_tensors_land_above_the_stack(name: Seq<char>, n_layers: nat, j: nat)
    requires
        head_sublayer(name) == Some(j as int),
        n_layers + j <= i64::MAX,
    ensures
        head_name(name, n_layers) is Some,
        layer_of(head_name(name, n_layers)->0) == if head_tail(name) == "final_layernorm.weight"@ {
            n_layers
        } else {
            n_layers + j
        },
{
    a_layer_name_names_its_layer(n_layers, "shared_head.norm.weight"@);
    a_layer_name_names_its_layer(n_layers + j, "input_layernorm.weight"@);
    a_layer_name_names_its_layer(n_layers + j, head_tail(name));
}

/// Where only the head is wanted, everything else is dropped; and whatever of
/// the head is kept then is treated as in a full conversion.
pub proof fn mtp_only_keeps_the_head_alone(
    name: Seq<char>,
    n_layers: nat,
    keep_idx: bool,
    mtp_layers: nat,
)
    ensures
        kind_of(name, n_layers, keep_idx, true, mtp_layers) == if in_head(
            layer_of(name),
            n_layers,
            mtp_layers,
        ) {
            kind_of(name, n_layers, keep_idx, false, mtp_layers)
        } else {
            Kind::Skip
        },
{
}

/// Layers above the head are dropped, and so is every scale: it goes with its
/// weight.
pub proof fn nothing_above_the_head_is_kept(
    name: Seq<char>,
    n_layers: nat,
    keep_idx: bool,
    mtp_only: bool,
    mtp_layers: nat,
)
    requires
        is_sidecar(name) || layer_of(name) >= n_layers + mtp_layers,
    ensures
        kind_of(name, n_layers, keep_idx, mtp_only, mtp_layers) == Kind::Skip,
{
}

/// Keeping the sparse-attention indexer changes nothing but its own tensors,
/// and without it none of them is kept.
pub proof fn keeping_the_indexer_changes_only_the_indexer(
    name: Seq<char>,
    n_layers: nat,
    mtp_only: bool,
    mtp_layers: nat,
)
    ensures
        kind_of(name, n_layers, true, mtp_only, mtp_layers) != kind_of(
            name,
            n_layers,
            false,
            mtp_only,
            mtp_layers,
        ) ==> {
            &&& occurs(name, ".indexer."@)
            &&& kind_of(name, n_layers, false, mtp_only, mtp_layers) == Kind::Skip
        },
{
}

/// Whether a tensor of that name is looked at: it is no scale, and it lies in a wanted
/// layer, or in none.
pub open spec fn is_wanted(name: Seq<char>, n_layers: nat, mtp_only: bool, mtp_layers: nat) -> bool {
    &&& !"_scale_inv"@.is_suffix_of(name)
    &&& !".weight_scale"@.is_suffix_of(name)
    &&& !".weight_scale_2"@.is_suffix_of(name)
    &&& !".input_scale"@.is_suffix_of(name)
    &&& layer_of(name) < n_layers + mtp_layers
    &&& mtp_only ==> layer_of(name) >= n_layers && layer_of(name) >= 0
}

/// Whether a name is one of an indexer's, a hybrid block's, or a speculative head's own,
/// which have rules of their own.
pub open spec fn is_special(name: Seq<char>) -> bool {
    ||| occurs(name, ".mixer."@)
    ||| occurs(name, ".indexer."@)
    ||| occurs(name, "indexers_proj"@)
    ||| occurs(name, "eh_proj"@)
    ||| occurs(name, "enorm"@)
    ||| occurs(name, "hnorm"@)
    ||| occurs(name, "shared_head"@)
}

/// What is not looked at is dropped. Of the rest only an indexer that is not wanted, and
/// what a speculative head has to itself, may be dropped too.
pub proof fn nothing_else_is_dropped(
    name: Seq<char>,
    n_layers: nat,
    keep_idx: bool,
    mtp_only: bool,
    mtp_layers: nat,
)
    ensures
        ({
            let kind = kind_of(name, n_layers, keep_idx, mtp_only, mtp_layers);
            let wanted = is_wanted(name, n_layers, mtp_only, mtp_layers);
            let own = occurs(name, "eh_proj"@) || occurs(name, "enorm"@) || occurs(name, "hnorm"@)
                || occurs(name, "shared_head.norm"@);
            let head = layer_of(name) >= n_layers && layer_of(name) >= 0;
            &&& !wanted ==> kind is Skip
            &&& wanted && !is_special(name) ==> !(kind is Skip)
            &&& wanted && occurs(name, ".mixer."@) ==> !(kind is Skip)
            &&& wanted && !occurs(name, ".mixer."@) && occurs(name, ".indexer."@) ==> (kind is Skip
                <==> !keep_idx)
            &&& wanted && is_special(name) && !occurs(name, ".mixer."@) && !occurs(
                name,
                ".indexer."@,
            ) ==> (kind is Skip <==> !head || !own)
        }),
{
}

/// Routers, biases, norms, convolutions and residual projections stay f32, and so does
/// whatever is no weight. A norm is never encoded, but for the indexer's that is none of
/// its keys'.
pub proof fn what_is_small_stays_f32(
    name: Seq<char>,
    n_layers: nat,
    keep_idx: bool,
    mtp_only: bool,
    mtp_layers: nat,
)
    requires
        is_wanted(name, n_layers, mtp_only, mtp_layers),
        !is_special(name),
    ensures
        ({
            let kind = kind_of(name, n_layers, keep_idx, mtp_only, mtp_layers);
            let routed = occurs(name, ".mlp.experts."@);
            let io = name == "model.embed_tokens.weight"@ || name == "lm_head.weight"@;
            &&& "norm.weight"@.is_suffix_of(name) ==> kind is F32
            &&& "mlp.gate.weight"@.is_suffix_of(name) ==> kind is F32
            &&& "e_score_correction_bias"@.is_suffix_of(name) ==> kind is F32
            &&& !io && (occurs(name, "_conv1d.weight"@) || "_res_proj.weight"@.is_suffix_of(name))
                && !(routed && ".weight_packed"@.is_suffix_of(name)) ==> kind is F32
            &&& !".weight"@.is_suffix_of(name) && !io && !(routed && ".weight_packed"@.is_suffix_of(
                name,
            )) ==> kind is F32
        }),
{
}

/// The weights of an ordinary block that are encoded: embeddings and the output head at
/// their own width, what lies among a layer's experts as experts, and every other weight as
/// a resident one.
pub proof fn what_is_large_is_encoded(
    name: Seq<char>,
    n_layers: nat,
    keep_idx: bool,
    mtp_only: bool,
    mtp_layers: nat,
)
    requires
        is_wanted(name, n_layers, mtp_only, mtp_layers),
        !is_special(name),
        !"norm.weight"@.is_suffix_of(name),
        !"mlp.gate.weight"@.is_suffix_of(name),
        !"e_score_correction_bias"@.is_suffix_of(name),
    ensures
        ({
            let kind = kind_of(name, n_layers, keep_idx, mtp_only, mtp_layers);
            let routed = occurs(name, ".mlp.experts."@);
            let small = occurs(name, "_conv1d.weight"@) || "_res_proj.weight"@.is_suffix_of(name);
            let io = name == "model.embed_tokens.weight"@ || name == "lm_head.weight"@;
            &&& io ==> kind is Io || name == "model.norm.weight"@
            &&& kind is Io ==> io
            &&& !io && routed && ".weight_packed"@.is_suffix_of(name) && name
                != "model.norm.weight"@ ==> kind is X
            &&& !io && routed && !small && ".weight"@.is_suffix_of(name) && name
                != "model.norm.weight"@ ==> kind is X
            &&& kind is X ==> routed
            &&& !io && !routed && !small && ".weight"@.is_suffix_of(name) && name
                != "model.norm.weight"@ ==> kind is Q
            &&& kind is Q ==> !routed && ".weight"@.is_suffix_of(name)
        }),
{
}

/// A hybrid block's weights: its experts are streamed and its other matrices resident; its
/// router, biases, norms and convolutions stay f32.
pub proof fn hybrid_blocks_are_encoded_alike(
    name: Seq<char>,
    n_layers: nat,
    keep_idx: bool,
    mtp_only: bool,
    mtp_layers: nat,
)
    requires
        is_wanted(name, n_layers, mtp_only, mtp_layers),
        occurs(name, ".mixer."@),
    ensures
        ({
            let kind = kind_of(name, n_layers, keep_idx, mtp_only, mtp_layers);
            let small = "mixer.gate.weight"@.is_suffix_of(name)
                || "e_score_correction_bias"@.is_suffix_of(name) || "norm.weight"@.is_suffix_of(name)
                || occurs(name, ".conv1d."@);
            let weight = ".weight"@.is_suffix_of(name);
            &&& kind is F32 <==> small || !weight
            &&& kind is X <==> !small && weight && occurs(name, ".mixer.experts."@)
            &&& kind is Q <==> !small && weight && !occurs(name, ".mixer.experts."@)
        }),
{
}

/// The indexer's tensors, where they are kept, and those that only a speculative head has.
pub proof fn an_indexer_and_a_head_keep_their_norms(
    name: Seq<char>,
    n_layers: nat,
    mtp_only: bool,
    mtp_layers: nat,
)
    requires
        is_wanted(name, n_layers, mtp_only, mtp_layers),
        !occurs(name, ".mixer."@),
    ensures
        ({
            let kind = kind_of(name, n_layers, true, mtp_only, mtp_layers);
            let head = layer_of(name) >= n_layers && layer_of(name) >= 0;
            &&& occurs(name, ".indexer."@) ==> kind == if occurs(name, "k_norm"@) {
                Kind::F32
            } else {
                Kind::Q
            }
            &&& !occurs(name, ".indexer."@) && head && occurs(name, "eh_proj"@) ==> kind is Q
            &&& !occurs(name, ".indexer."@) && head && !occurs(name, "eh_proj"@) && (occurs(
                name,
                "enorm"@,
            ) || occurs(name, "hnorm"@) || occurs(name, "shared_head.norm"@)) && occurs(
                name,
                "shared_head"@,
            ) ==> kind is F32
            &&& !occurs(name, ".indexer."@) && head && !occurs(name, "eh_proj"@) && (occurs(
                name,
                "enorm"@,
            ) || occurs(name, "hnorm"@)) ==> kind is F32
        }),
{
}

/// What a part of an expert's name becomes: the block of experts and its three projections
/// have names of their own in a container.
pub open spec fn container_part(p: Seq<char>) -> Seq<char> {
    if p == "block_sparse_moe"@ {
        "mlp"@
    } else if p == "w1"@ {
        "gate_proj"@
    } else if p == "w2"@ {
        "down_proj"@
    } else if p == "w3"@ {
        "up_proj"@
    } else {
        p
    }
}

/// As `container_part`; the latent projections have names of their own as well.
pub open spec fn latent_part(p: Seq<char>) -> Seq<char> {
    if p == "routed_expert_down_proj"@ {
        "fc1_latent_proj"@
    } else if p == "routed_expert_up_proj"@ {
        "fc2_latent_proj"@
    } else {
        container_part(p)
    }
}

/// `parts` with `name` applied to all but the first and the last.
pub open spec fn inner_parts_named(
    parts: Seq<Seq<char>>,
    name: spec_fn(Seq<char>) -> Seq<char>,
) -> Seq<Seq<char>> {
    Seq::new(
        parts.len(),
        |i: int|
            if 0 < i < parts.len() - 1 {
                name(parts[i])
            } else {
                parts[i]
            },
    )
}

/// Whether no part stands twice in a row.
pub open spec fn neighbours_differ(parts: Seq<Seq<char>>) -> bool {
    forall|i: int| 0 < i < parts.len() ==> #[trigger] parts[i] != parts[i - 1]
}

proof fn parts_are_known()
    ensures
        "language_model."@ == "language_model"@ + seq!['.'],
        ".block_sparse_moe."@ == seq!['.'] + "block_sparse_moe"@ + seq!['.'],
        ".mlp."@ == seq!['.'] + "mlp"@ + seq!['.'],
        ".w1."@ == seq!['.'] + "w1"@ + seq!['.'],
        ".w2."@ == seq!['.'] + "w2"@ + seq!['.'],
        ".w3."@ == seq!['.'] + "w3"@ + seq!['.'],
        ".gate_proj."@ == seq!['.'] + "gate_proj"@ + seq!['.'],
        ".up_proj."@ == seq!['.'] + "up_proj"@ + seq!['.'],
        ".down_proj."@ == seq!['.'] + "down_proj"@ + seq!['.'],
        is_plain("language_model"@),
        is_plain("block_sparse_moe"@),
        is_plain("mlp"@),
        is_plain("w1"@),
        is_plain("w2"@),
        is_plain("w3"@),
        is_plain("gate_proj"@),
        is_plain("up_proj"@),
        is_plain("down_proj"@),
        "block_sparse_moe"@.len() == 16,
        "mlp"@.len() == 3,
        "w1"@.len() == 2,
        "w2"@.len() == 2,
        "w3"@.len() == 2,
        "gate_proj"@.len() == 9,
        "up_proj"@.len() == 7,
        "down_proj"@.len() == 9,
        "w1"@[1] == '1',
        "w2"@[1] == '2',
        "w3"@[1] == '3',
        "mlp"@[0] == 'm',
        "gate_proj"@[0] == 'g',
        "up_proj"@[0] == 'u',
        "down_proj"@[0] == 'd',
{
    reveal_strlit("language_model.");
    reveal_strlit("language_model");
    reveal_strlit(".block_sparse_moe.");
    reveal_strlit("block_sparse_moe");
    reveal_strlit(".mlp.");
    reveal_strlit("mlp");
    reveal_strlit(".w1.");
    reveal_strlit("w1");
    reveal_strlit(".w2.");
    reveal_strlit("w2");
    reveal_strlit(".w3.");
    reveal_strlit("w3");
    reveal_strlit(".gate_proj.");
    reveal_strlit("gate_proj");
    reveal_strlit(".up_proj.");
    reveal_strlit("up_proj");
    reveal_strlit(".down_proj.");
    reveal_strlit("down_proj");
    assert("language_model."@ =~= "language_model"@ + seq!['.']);
    assert(".block_sparse_moe."@ =~= seq!['.'] + "block_sparse_moe"@ + seq!['.']);
    assert(".mlp."@ =~= seq!['.'] + "mlp"@ + seq!['.']);
    assert(".w1."@ =~= seq!['.'] + "w1"@ + seq!['.']);
    assert(".w2."@ =~= seq!['.'] + "w2"@ + seq!['.']);
    assert(".w3."@ =~= seq!['.'] + "w3"@ + seq!['.']);
    assert(".gate_proj."@ =~= seq!['.'] + "gate_proj"@ + seq!['.']);
    assert(".up_proj."@ =~= seq!['.'] + "up_proj"@ + seq!['.']);
    assert(".down_proj."@ =~= seq!['.'] + "down_proj"@ + seq!['.']);
}

proof fn one_part_is_named(
    parts: Seq<Seq<char>>,
    before: spec_fn(Seq<char>) -> Seq<char>,
    after: spec_fn(Seq<char>) -> Seq<char>,
    x: Seq<char>,
    y: Seq<char>,
)
    requires
        are_plain(parts),
        neighbours_differ(parts),
        is_plain(x),
        forall|p: Seq<char>| #![trigger before(p)] is_plain(p) ==> is_plain(before(p)),
        forall|p: Seq<char>| #![trigger before(p)] before(p) == x ==> p == x,
        forall|p: Seq<char>| #![trigger after(p)]
            after(p) == if before(p) == x {
                y
            } else {
                before(p)
            },
    ensures
        replaced(
            dotted(inner_parts_named(parts, before)),
            seq!['.'] + x + seq!['.'],
            seq!['.'] + y + seq!['.'],
        ) == dotted(inner_parts_named(parts, after)),
{
    let now = inner_parts_named(parts, before);
    assert(are_plain(now)) by {
        assert forall|i: int| 0 <= i < now.len() implies is_plain(#[trigger] now[i]) by {
            assert(is_plain(parts[i]));
        }
    }
    assert(stands_alone(now, x)) by {
        assert forall|i: int| 0 < i < now.len() && #[trigger] now[i] == x implies now[i - 1] != x by {
            assert(parts[i] != parts[i - 1]);
            assert(before(parts[i]) == x ==> parts[i] == x);
            assert(before(parts[i - 1]) == x ==> parts[i - 1] == x);
        }
    }
    replacing_renames_inner_parts(now, x, y);
    assert(inner_renamed(now, x, y) =~= inner_parts_named(parts, after)) by {
        assert forall|i: int| 0 <= i < parts.len() implies inner_renamed(now, x, y)[i]
            == inner_parts_named(parts, after)[i] by {
            assert(before(parts[i]) == before(parts[i]));
            assert(after(parts[i]) == after(parts[i]));
        }
    }
}

proof fn projections_are_named(
    parts: Seq<Seq<char>>,
    before: spec_fn(Seq<char>) -> Seq<char>,
    after: spec_fn(Seq<char>) -> Seq<char>,
)
    requires
        are_plain(parts),
        neighbours_differ(parts),
        forall|p: Seq<char>| #![trigger before(p)] is_plain(p) ==> is_plain(before(p)),
        forall|p: Seq<char>| #![trigger before(p)]
            before(p) == p || before(p).len() > 3 && before(p).len() != 16,
        forall|p: Seq<char>| #![trigger after(p)] after(p) == container_part(before(p)),
    ensures
        projections_named(
            replaced(
                dotted(inner_parts_named(parts, before)),
                ".block_sparse_moe."@,
                ".mlp."@,
            ),
        ) == dotted(inner_parts_named(parts, after)),
{
    parts_are_known();
    let f1 = |p: Seq<char>|
        if before(p) == "block_sparse_moe"@ {
            "mlp"@
        } else {
            before(p)
        };
    let f2 = |p: Seq<char>|
        if f1(p) == "w1"@ {
            "gate_proj"@
        } else {
            f1(p)
        };
    let f3 = |p: Seq<char>|
        if f2(p) == "w3"@ {
            "up_proj"@
        } else {
            f2(p)
        };
    assert("w1"@ != "w2"@ && "w1"@ != "w3"@ && "w2"@ != "w3"@) by {
        assert("w1"@[1] != "w2"@[1] && "w1"@[1] != "w3"@[1] && "w2"@[1] != "w3"@[1]);
    }
    one_part_is_named(parts, before, f1, "block_sparse_moe"@, "mlp"@);
    one_part_is_named(parts, f1, f2, "w1"@, "gate_proj"@);
    one_part_is_named(parts, f2, f3, "w3"@, "up_proj"@);
    one_part_is_named(parts, f3, after, "w2"@, "down_proj"@);
}

/// A kept tensor of a multimodal source keeps its name, but for what its text model's name
/// begins with and for the parts that have a name of their own in a container.
pub proof fn experts_get_their_container_names(parts: Seq<Seq<char>>, name: Seq<char>)
    requires
        parts.len() > 0,
        are_plain(parts),
        neighbours_differ(parts),
        name == "language_model"@ + seq!['.'] + dotted(parts),
        m3_name(name) is Some,
    ensures
        m3_name(name) == Some(
            dotted(inner_parts_named(parts, |p: Seq<char>| container_part(p))),
        ),
{
    parts_are_known();
    let same = |p: Seq<char>| p;
    let all = |p: Seq<char>| container_part(p);
    assert(inner_parts_named(parts, same) =~= parts);
    let prefix = "language_model."@;
    assert(name.take(prefix.len() as int) =~= prefix);
    assert(prefix.is_prefix_of(name));
    assert(name.skip(prefix.len() as int) =~= dotted(parts));
    projections_are_named(parts, same, all);
}

proof fn latents_are_known()
    ensures
        ".routed_expert_down_proj."@ == seq!['.'] + "routed_expert_down_proj"@ + seq!['.'],
        ".routed_expert_up_proj."@ == seq!['.'] + "routed_expert_up_proj"@ + seq!['.'],
        ".fc1_latent_proj."@ == seq!['.'] + "fc1_latent_proj"@ + seq!['.'],
        ".fc2_latent_proj."@ == seq!['.'] + "fc2_latent_proj"@ + seq!['.'],
        ".weight_packed"@ == seq!['.'] + "weight_packed"@,
        ".weight"@ == seq!['.'] + "weight"@,
        is_plain("routed_expert_down_proj"@),
        is_plain("routed_expert_up_proj"@),
        is_plain("fc1_latent_proj"@),
        is_plain("fc2_latent_proj"@),
        is_plain("weight_packed"@),
        is_plain("weight"@),
        "routed_expert_down_proj"@.len() == 23,
        "routed_expert_up_proj"@.len() == 21,
        "fc1_latent_proj"@.len() == 15,
        "fc2_latent_proj"@.len() == 15,
        "weight_packed"@.len() == 13,
        "fc1_latent_proj"@[0] == 'f',
        "fc2_latent_proj"@[0] == 'f',
        "weight_packed"@[0] == 'w',
{
    reveal_strlit(".routed_expert_down_proj.");
    reveal_strlit("routed_expert_down_proj");
    reveal_strlit(".routed_expert_up_proj.");
    reveal_strlit("routed_expert_up_proj");
    reveal_strlit(".fc1_latent_proj.");
    reveal_strlit("fc1_latent_proj");
    reveal_strlit(".fc2_latent_proj.");
    reveal_strlit("fc2_latent_proj");
    reveal_strlit(".weight_packed");
    reveal_strlit("weight_packed");
    reveal_strlit(".weight");
    reveal_strlit("weight");
    assert(".routed_expert_down_proj."@ =~= seq!['.'] + "routed_expert_down_proj"@ + seq!['.']);
    assert(".routed_expert_up_proj."@ =~= seq!['.'] + "routed_expert_up_proj"@ + seq!['.']);
    assert(".fc1_latent_proj."@ =~= seq!['.'] + "fc1_latent_proj"@ + seq!['.']);
    assert(".fc2_latent_proj."@ =~= seq!['.'] + "fc2_latent_proj"@ + seq!['.']);
    assert(".weight_packed"@ =~= seq!['.'] + "weight_packed"@);
    assert(".weight"@ =~= seq!['.'] + "weight"@);
}

/// A kept tensor of a latent-MoE source keeps its name, but for what its text model's name
/// begins with, for the parts that have a name of their own in a container, and for packed
/// weights, which are called weights there.
pub proof fn latent_experts_get_their_container_names(parts: Seq<Seq<char>>, name: Seq<char>)
    requires
        parts.len() > 0,
        are_plain(parts),
        neighbours_differ(parts),
        forall|i: int|
            0 < i < parts.len() && "weight_packed"@.is_prefix_of(#[trigger] parts[i]) ==> parts[i]
                == "weight_packed"@,
        name == "language_model"@ + seq!['.'] + dotted(parts),
        kimi_name(name) is Some,
    ensures
        kimi_name(name) == Some(
            dotted(
                later_renamed(
                    inner_parts_named(parts, |p: Seq<char>| latent_part(p)),
                    "weight_packed"@,
                    "weight"@,
                ),
            ),
        ),
{
    parts_are_known();
    latents_are_known();
    let same = |p: Seq<char>| p;
    let f1 = |p: Seq<char>|
        if p == "routed_expert_down_proj"@ {
            "fc1_latent_proj"@
        } else {
            p
        };
    let f2 = |p: Seq<char>|
        if f1(p) == "routed_expert_up_proj"@ {
            "fc2_latent_proj"@
        } else {
            f1(p)
        };
    let all = |p: Seq<char>| latent_part(p);
    assert(inner_parts_named(parts, same) =~= parts);
    let prefix = "language_model."@;
    assert(name.take(prefix.len() as int) =~= prefix);
    assert(prefix.is_prefix_of(name));
    assert(name.skip(prefix.len() as int) =~= dotted(parts));
    one_part_is_named(parts, same, f1, "routed_expert_down_proj"@, "fc1_latent_proj"@);
    one_part_is_named(parts, f1, f2, "routed_expert_up_proj"@, "fc2_latent_proj"@);
    projections_are_named(parts, f2, all);
    let now = inner_parts_named(parts, all);
    let packed = "weight_packed"@;
    assert(are_plain(now)) by {
        assert forall|i: int| 0 <= i < now.len() implies is_plain(#[trigger] now[i]) by {
            assert(is_plain(parts[i]));
        }
    }
    assert forall|i: int| 0 < i < now.len() && packed.is_prefix_of(#[trigger] now[i]) implies now[i]
        == packed by {
        assert(packed[0] == now[i][0]);
        if now[i] != parts[i] {
            assert(now[i] == latent_part(parts[i]));
        }
        assert(now[i] == parts[i]);
    }
    replacing_renames_later_parts(now, packed, "weight"@);
}

/// What a multimodal source keeps: everything of its text model, and nothing of what sees
/// images or of its next-token head.
pub proof fn only_the_text_model_is_kept(name: Seq<char>)
    ensures
        m3_name(name) is Some <==> !occurs(name, "vision_tower"@) && !occurs(
            name,
            "multi_modal_projector"@,
        ) && !occurs(name, "patch_merge_mlp"@) && !occurs(name, "image_"@) && !occurs(
            name,
            "visual"@,
        ) && !occurs(name, ".mtp"@) && !occurs(name, "nextn"@),
        kimi_name(name) is Some <==> !occurs(name, "vision_tower"@) && !occurs(
            name,
            "mm_projector"@,
        ) && !occurs(name, "multi_modal_projector"@) && !occurs(name, "visual"@) && !occurs(
            name,
            "image_"@,
        ),
{
    reveal_strlit("nextn");
    reveal_strlit("num_nextn");
    if occurs(name, "num_nextn"@) {
        let i = choose|i: int| occurs_at(name, "num_nextn"@, i);
        let long = name.subrange(i, i + 9);
        assert(name.subrange(i + 4, i + 9) =~= "nextn"@) by {
            assert(long == "num_nextn"@);
            assert forall|k: int| 0 <= k < 5 implies name.subrange(i + 4, i + 9)[k] == "nextn"@[k] by {
                assert(name[i + 4 + k] == long[4 + k]);
            }
        }
        assert(occurs_at(name, "nextn"@, i + 4));
    }
}

/// A hybrid source's speculative head: sublayer `j` goes to the `j`-th layer above the
/// stack under the name it has within the sublayer, but for its norms.
pub proof fn head_tensors_keep_their_names(j: nat, tail: Seq<char>, n_layers: nat, name: Seq<char>)
    requires
        j <= usize::MAX,
        name == "mtp.layers."@ + decimal(j) + seq!['.'] + tail,
    ensures
        nemotron_name(name, n_layers) == Some(
            if tail == "final_layernorm.weight"@ {
                "model.layers."@ + decimal(n_layers) + "."@ + "shared_head.norm.weight"@
            } else if tail == "norm.weight"@ {
                "model.layers."@ + decimal(n_layers + j) + "."@ + "input_layernorm.weight"@
            } else {
                "model.layers."@ + decimal(n_layers + j) + "."@ + tail
            },
        ),
{
    reveal_strlit("mtp.layers.");
    reveal_strlit("mtp.");
    let p = "mtp.layers."@;
    let d = decimal(j);
    crate::text::decimal_writes_the_number(j);
    assert forall|i: int| 0 <= i < d.len() implies d[i] != '.' by {
        assert(crate::text::is_digit(d[i]));
    }
    assert(name.take(p.len() as int) =~= p);
    assert(p.is_prefix_of(name));
    assert(name.take(4) =~= "mtp."@);
    assert("mtp."@.is_prefix_of(name));
    assert(head_rest(name) =~= d + seq!['.'] + tail);
    first_dot_after(d, tail);
    assert(crate::text::is_digit(d[0]));
    assert(crate::text::unsigned_digits(d) == d);
}

/// What a hybrid source calls its backbone is the model of the container. Its embedding and
/// its final norm have names of their own there, and a block's norm outside of its mixer is
/// the norm in front of the block. Every other name stays.
pub proof fn a_backbone_is_the_model(name: Seq<char>, n: Seq<char>, n_layers: nat, a: Seq<char>)
    requires
        !"mtp."@.is_prefix_of(name),
        !occurs(name, ".mtp."@),
        !occurs(name, "nextn"@),
        "backbone."@.is_prefix_of(name) ==> n == "model."@ + name.skip(9),
        !"backbone."@.is_prefix_of(name) ==> n == name,
    ensures
        n == "model.embeddings.weight"@ ==> nemotron_name(name, n_layers) == Some(
            "model.embed_tokens.weight"@,
        ),
        n == "model.norm_f.weight"@ ==> nemotron_name(name, n_layers) == Some("model.norm.weight"@),
        !occurs(n, "model.embeddings.weight"@) && n != "model.norm_f.weight"@ && (
        !".norm.weight"@.is_suffix_of(n) || occurs(n, ".mixer."@) || !occurs(n, ".layers."@))
            ==> nemotron_name(name, n_layers) == Some(n),
        !occurs(n, "model.embeddings.weight"@) && n == a + ".norm.weight"@ && !occurs(n, ".mixer."@)
            && occurs(n, ".layers."@) && n != "model.norm_f.weight"@ && (forall|i: int|
            0 <= i < a.len() ==> !occurs_at(n, ".norm.weight"@, i)) ==> nemotron_name(
            name,
            n_layers,
        ) == Some(a + ".input_layernorm.weight"@),
{
    backbone_literals();
    assert(backbone_name(name) == replaced(
        n,
        "model.embeddings.weight"@,
        "model.embed_tokens.weight"@,
    ));
    backbone_embedding(name, n, n_layers);
    backbone_final_norm(name, n, n_layers);
    if !occurs(n, "model.embeddings.weight"@) {
        nothing_is_replaced(n, "model.embeddings.weight"@, "model.embed_tokens.weight"@);
        if n == a + ".norm.weight"@ && (forall|i: int|
            0 <= i < a.len() ==> !occurs_at(n, ".norm.weight"@, i)) {
            backbone_block_norm(n, a);
        }
    }
}

proof fn backbone_embedding(name: Seq<char>, n: Seq<char>, n_layers: nat)
    requires
        !"mtp."@.is_prefix_of(name),
        !occurs(name, ".mtp."@),
        !occurs(name, "nextn"@),
        backbone_name(name) == replaced(
            n,
            "model.embeddings.weight"@,
            "model.embed_tokens.weight"@,
        ),
    ensures
        n == "model.embeddings.weight"@ ==> nemotron_name(name, n_layers) == Some(
            "model.embed_tokens.weight"@,
        ),
{
    let long = "model.embeddings.weight"@;
    let short = "model.embed_tokens.weight"@;
    backbone_literals();
    if n == long {
        assert(Seq::<char>::empty() + long =~= long);
        assert(Seq::<char>::empty() + short =~= short);
        the_end_is_replaced(Seq::empty(), long, short);
        assert(short != "model.norm_f.weight"@);
    }
}

proof fn backbone_final_norm(name: Seq<char>, n: Seq<char>, n_layers: nat)
    requires
        !"mtp."@.is_prefix_of(name),
        !occurs(name, ".mtp."@),
        !occurs(name, "nextn"@),
        backbone_name(name) == replaced(
            n,
            "model.embeddings.weight"@,
            "model.embed_tokens.weight"@,
        ),
    ensures
        n == "model.norm_f.weight"@ ==> nemotron_name(name, n_layers) == Some("model.norm.weight"@),
{
    let long = "model.embeddings.weight"@;
    backbone_literals();
    if n == "model.norm_f.weight"@ {
        if occurs(n, long) {
            let i = choose|i: int| occurs_at(n, long, i);
            assert(false);
        }
        nothing_is_replaced(n, long, "model.embed_tokens.weight"@);
    }
}

proof fn backbone_block_norm(n: Seq<char>, a: Seq<char>)
    requires
        n == a + ".norm.weight"@,
        forall|i: int| 0 <= i < a.len() ==> !occurs_at(n, ".norm.weight"@, i),
    ensures
        ".norm.weight"@.is_suffix_of(n),
        replaced(n, ".norm.weight"@, ".input_layernorm.weight"@) == a + ".input_layernorm.weight"@,
{
    backbone_literals();
    assert(n.skip(a.len() as int) =~= ".norm.weight"@);
    the_end_is_replaced(a, ".norm.weight"@, ".input_layernorm.weight"@);
}

proof fn backbone_literals()
    ensures
        "backbone."@.len() == 9,
        "model.embeddings.weight"@.len() == 23,
        "model.embed_tokens.weight"@.len() == 25,
        "model.norm_f.weight"@.len() == 19,
        ".norm.weight"@.len() == 12,
        !".norm.weight"@.is_suffix_of("model.embed_tokens.weight"@),
{
    reveal_strlit("backbone.");
    reveal_strlit("model.embeddings.weight");
    reveal_strlit("model.embed_tokens.weight");
    reveal_strlit("model.norm_f.weight");
    reveal_strlit(".norm.weight");
    let short = "model.embed_tokens.weight"@;
    if ".norm.weight"@.is_suffix_of(short) {
        assert(short.skip(13)[1] == ".norm.weight"@[1]);
    }
}

/// A name is one of a layer only where it begins with the layers of the model; the number
/// that follows is the layer's, also where the name ends there.
pub proof fn only_names_of_layers_have_one(name: &str, n: nat, i: i64)
    requires
        call_ensures(layer_idx, (name,), i),
        n <= i64::MAX,
    ensures
        !"model.layers."@.is_prefix_of(name@) ==> i == -1,
        name@ == "model.layers."@ + decimal(n) ==> i == n,
        i >= 0 ==> "model.layers."@.is_prefix_of(name@),
{
    let s = name@;
    if layer_of(s) != -1 {
        a_layer_stands_behind_its_prefix(s);
    }
    if s == "model.layers."@ + decimal(n) {
        a_bare_layer_name_names_its_layer(n);
    }
}

proof fn a_layer_stands_behind_its_prefix(s: Seq<char>)
    requires
        layer_of(s) != -1,
    ensures
        "model.layers."@.is_prefix_of(s),
{
    reveal_strlit("model.layers.");
    reveal_strlit("model");
    reveal_strlit("layers");
    reveal_with_fuel(split_on, 3);
    let i = first_at(s, '.') as int;
    first_at_facts(s, '.');
    assert(i < s.len());
    let rest = s.skip(i + 1);
    let j = first_at(rest, '.') as int;
    first_at_facts(rest, '.');
    assert(split_on(s, '.')[0] == s.take(i));
    assert(split_on(s, '.')[1] == split_on(rest, '.')[0]);
    assert(j < rest.len());
    assert(split_on(rest, '.')[0] == rest.take(j));
    assert(s.take(i).len() == 5 && rest.take(j).len() == 6);
    let p = "model.layers."@;
    assert forall|k: int| 0 <= k < 13 implies #[trigger] s[k] == p[k] by {
        if k < 5 {
            assert(s.take(i)[k] == "model"@[k]);
        } else if 6 <= k < 12 {
            assert(rest.take(j)[k - 6] == "layers"@[k - 6]);
        } else if k == 12 {
            assert(rest[6] == '.');
        }
    }
    assert(s.take(13) =~= p);
}

proof fn a_bare_layer_name_names_its_layer(n: nat)
    requires
        n <= i64::MAX,
    ensures
        layer_of("model.layers."@ + decimal(n)) == n,
{
    reveal_strlit("model.layers.");
    reveal_strlit("model");
    reveal_strlit("layers");
    let d = decimal(n);
    let name = "model.layers."@ + d;
    crate::text::decimal_writes_the_number(n);
    crate::text::written_numbers_are_read_back(n, i64::MAX as int);
    first_at_facts(d, '.');
    if first_at(d, '.') < d.len() {
        assert(crate::text::is_digit(d[first_at(d, '.') as int]));
    }
    let r1 = "layers"@ + seq!['.'] + d;
    assert(name =~= "model"@ + seq!['.'] + r1);
    first_dot_after("model"@, r1);
    first_dot_after("layers"@, d);
    reveal_with_fuel(split_on, 4);
    let parts = split_on(name, '.');
    assert(parts[0] == "model"@);
    assert(parts[1] == "layers"@);
    assert(parts[2] == d);
}

} // verus!
