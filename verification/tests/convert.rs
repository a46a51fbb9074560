//! Names, classes and plans of conversion.

use colibri_engine::catalog::{check_dims, is_matrix, two_dims, DType, SourceTensor};
use colibri_engine::convert::{
    can_process, container_name, detect_format, exponents_name, mxfp4_source, process_one, scored_tensors,
    tensors_of_file, ConvertOpts, Encoding, SourceFormat, Step,
};
use colibri_engine::names::{
    classify, classify_head, kimi_container_name, layer_idx, m3_container_name,
    nemotron_container_name, Kind,
};
use colibri_engine::requant::{requant_one, resident_nvfp4_dims, Requant};

#[test]
fn m3_container_name_maps_and_drops() {
    let m = |s: &str| m3_container_name(s);
    assert_eq!(
        m("language_model.model.layers.5.block_sparse_moe.experts.7.w1.weight").as_deref(),
        Some("model.layers.5.mlp.experts.7.gate_proj.weight")
    );
    assert_eq!(
        m("language_model.model.layers.5.block_sparse_moe.experts.7.w2.weight_scale")
            .as_deref(),
        Some("model.layers.5.mlp.experts.7.down_proj.weight_scale")
    );
    assert_eq!(
        m("language_model.model.layers.5.block_sparse_moe.experts.7.w3.weight").as_deref(),
        Some("model.layers.5.mlp.experts.7.up_proj.weight")
    );
    assert_eq!(
        m("language_model.model.layers.3.block_sparse_moe.gate.weight").as_deref(),
        Some("model.layers.3.mlp.gate.weight")
    );
    assert_eq!(
        m("language_model.model.layers.3.block_sparse_moe.e_score_correction_bias").as_deref(),
        Some("model.layers.3.mlp.e_score_correction_bias")
    );
    assert_eq!(
        m("language_model.model.layers.3.block_sparse_moe.shared_experts.up_proj.weight")
            .as_deref(),
        Some("model.layers.3.mlp.shared_experts.up_proj.weight")
    );
    assert_eq!(
        m("language_model.model.layers.0.self_attn.q_norm.weight").as_deref(),
        Some("model.layers.0.self_attn.q_norm.weight")
    );
    assert_eq!(
        m("language_model.lm_head.weight").as_deref(),
        Some("lm_head.weight")
    );
    assert!(m("vision_tower.vision_model.embeddings.patch_embedding.weight").is_none());
    assert!(m("multi_modal_projector.linear_1.weight").is_none());
    assert!(m("language_model.model.mtp.layers.0.weight").is_none());
}

#[test]
fn default_is_8bit_resident_nvfp4_experts() {
    let d = ConvertOpts::default();
    assert_eq!(
        d.ebits, 8,
        "resident weights (attention/dense/shared) must default to 8-bit"
    );
    assert_eq!(d.io_bits, 8);
    assert!(!d.xfp8, "routed experts must default to NVFP4, not e4m3");
    let hi = ConvertOpts {
        ebits: 16,
        ..Default::default()
    };
    assert!(
        !hi.xfp8,
        "raising ebits must not drag the experts up with it"
    );
}

#[test]
fn resident_scale_is_dropped_only_when_its_weight_is_converted() {
    let flat_numel = 4096usize * 8192;
    assert!(
        two_dims(&vec![flat_numel as i64], "w").is_err(),
        "premise: the real container shape is 1-D and two_dims rejects it"
    );
    let (o, i) = (4096usize, flat_numel / 4096);
    assert_eq!(
        i, 8192,
        "cols must derive from numel/rows, not from the shape"
    );
    let w = "model.layers.0.self_attn.o_proj.weight";
    let flat = vec![
        SourceTensor {
            name: w.to_string(),
            dtype: DType::U8,
            shape: vec![flat_numel as i64],
            numel: flat_numel,
            nbytes: flat_numel,
            file_idx: 0,
        },
        SourceTensor {
            name: format!("{w}.qs"),
            dtype: DType::F32,
            shape: vec![o as i64],
            numel: o,
            nbytes: o * 4,
            file_idx: 0,
        },
    ];
    assert_eq!(resident_nvfp4_dims(w, &flat), Some((o, i)));
    assert_eq!(requant_one(w, &flat, 78, 8192, 2048, true), Requant::Resident { o, i });
    assert_eq!(requant_one(&format!("{w}.qs"), &flat, 78, 8192, 2048, true), Requant::Skip);
    assert_eq!(requant_one(w, &flat, 78, 8192, 2048, false), Requant::Raw);
    assert_eq!(requant_one(&format!("{w}.qs"), &flat, 78, 8192, 2048, false), Requant::Raw);
}

#[test]
fn classify_rules() {
    assert_eq!(
        classify("model.embed_tokens.weight", 78, false, false),
        Kind::Io
    );
    assert_eq!(classify("lm_head.weight", 78, false, false), Kind::Io);
    assert_eq!(classify("model.norm.weight", 78, false, false), Kind::F32);
    assert_eq!(
        classify("model.layers.3.input_layernorm.weight", 78, false, false),
        Kind::F32
    );
    assert_eq!(
        classify("model.layers.3.mlp.gate.weight", 78, false, false),
        Kind::F32
    );
    assert_eq!(
        classify(
            "model.layers.3.mlp.gate.e_score_correction_bias",
            78,
            false,
            false
        ),
        Kind::F32
    );
    assert_eq!(
        classify(
            "model.layers.3.mlp.experts.7.gate_proj.weight",
            78,
            false,
            false
        ),
        Kind::X
    );
    assert_eq!(
        classify("model.layers.0.mlp.gate_proj.weight", 78, false, false),
        Kind::Q
    );
    assert_eq!(
        classify(
            "model.layers.5.self_attn.kv_b_proj.weight",
            78,
            false,
            false
        ),
        Kind::Q
    );
    assert_eq!(
        classify(
            "model.layers.3.mlp.experts.7.gate_proj.weight_scale_inv",
            78,
            false,
            false
        ),
        Kind::Skip
    );
    assert_eq!(
        classify(
            "model.layers.0.self_attn.indexer.wk.weight",
            78,
            false,
            false
        ),
        Kind::Skip
    );

    assert_eq!(
        classify("model.layers.78.eh_proj.weight", 78, false, false),
        Kind::Q
    );
    assert_eq!(
        classify("model.layers.78.enorm.weight", 78, false, false),
        Kind::F32
    );
    assert_eq!(
        classify("model.layers.78.hnorm.weight", 78, false, false),
        Kind::F32
    );
    assert_eq!(
        classify("model.layers.78.shared_head.norm.weight", 78, false, false),
        Kind::F32
    );
    assert_eq!(
        classify("model.layers.78.input_layernorm.weight", 78, false, false),
        Kind::F32
    );
    assert_eq!(
        classify("model.layers.78.mlp.gate.weight", 78, false, false),
        Kind::F32
    );
    assert_eq!(
        classify(
            "model.layers.78.self_attn.kv_b_proj.weight",
            78,
            false,
            false
        ),
        Kind::Q
    );
    assert_eq!(
        classify(
            "model.layers.78.mlp.shared_experts.gate_proj.weight",
            78,
            false,
            false
        ),
        Kind::Q
    );
    assert_eq!(
        classify(
            "model.layers.78.mlp.experts.0.gate_proj.weight",
            78,
            false,
            false
        ),
        Kind::X
    );
    assert_eq!(
        classify("model.layers.78.shared_head.head.weight", 78, false, false),
        Kind::Skip
    );
    assert_eq!(
        classify("model.layers.79.eh_proj.weight", 78, false, false),
        Kind::Skip
    );
}

#[test]
fn kimi_k3_covers_the_real_checkpoint_inventory() {
    let cases: &[(&str, &str, Kind)] = &[
        (
            "language_model.model.layers.1.block_sparse_moe.experts.5.w1.weight_packed",
            "model.layers.1.mlp.experts.5.gate_proj.weight",
            Kind::X,
        ),
        (
            "language_model.model.layers.1.block_sparse_moe.experts.5.w2.weight_packed",
            "model.layers.1.mlp.experts.5.down_proj.weight",
            Kind::X,
        ),
        (
            "language_model.model.layers.1.block_sparse_moe.experts.5.w3.weight_packed",
            "model.layers.1.mlp.experts.5.up_proj.weight",
            Kind::X,
        ),
        (
            "language_model.model.layers.1.block_sparse_moe.experts.5.w1.weight_scale",
            "model.layers.1.mlp.experts.5.gate_proj.weight_scale",
            Kind::Skip,
        ),
        (
            "language_model.model.layers.1.block_sparse_moe.experts.5.w2.weight_scale",
            "model.layers.1.mlp.experts.5.down_proj.weight_scale",
            Kind::Skip,
        ),
        (
            "language_model.model.layers.1.block_sparse_moe.experts.5.w3.weight_scale",
            "model.layers.1.mlp.experts.5.up_proj.weight_scale",
            Kind::Skip,
        ),
        (
            "language_model.model.layers.1.block_sparse_moe.routed_expert_down_proj.weight",
            "model.layers.1.mlp.fc1_latent_proj.weight",
            Kind::Q,
        ),
        (
            "language_model.model.layers.1.block_sparse_moe.routed_expert_up_proj.weight",
            "model.layers.1.mlp.fc2_latent_proj.weight",
            Kind::Q,
        ),
        (
            "language_model.model.layers.1.block_sparse_moe.routed_expert_norm.weight",
            "model.layers.1.mlp.routed_expert_norm.weight",
            Kind::F32,
        ),
        (
            "language_model.model.layers.1.block_sparse_moe.gate.weight",
            "model.layers.1.mlp.gate.weight",
            Kind::F32,
        ),
        (
            "language_model.model.layers.1.block_sparse_moe.gate.e_score_correction_bias",
            "model.layers.1.mlp.gate.e_score_correction_bias",
            Kind::F32,
        ),
        (
            "language_model.model.layers.1.block_sparse_moe.shared_experts.gate_proj.weight",
            "model.layers.1.mlp.shared_experts.gate_proj.weight",
            Kind::Q,
        ),
        (
            "language_model.model.layers.1.block_sparse_moe.shared_experts.up_proj.weight",
            "model.layers.1.mlp.shared_experts.up_proj.weight",
            Kind::Q,
        ),
        (
            "language_model.model.layers.1.block_sparse_moe.shared_experts.down_proj.weight",
            "model.layers.1.mlp.shared_experts.down_proj.weight",
            Kind::Q,
        ),
        (
            "language_model.model.layers.0.self_attn.q_proj.weight",
            "model.layers.0.self_attn.q_proj.weight",
            Kind::Q,
        ),
        (
            "language_model.model.layers.0.self_attn.k_proj.weight",
            "model.layers.0.self_attn.k_proj.weight",
            Kind::Q,
        ),
        (
            "language_model.model.layers.0.self_attn.v_proj.weight",
            "model.layers.0.self_attn.v_proj.weight",
            Kind::Q,
        ),
        (
            "language_model.model.layers.0.self_attn.b_proj.weight",
            "model.layers.0.self_attn.b_proj.weight",
            Kind::Q,
        ),
        (
            "language_model.model.layers.0.self_attn.f_a_proj.weight",
            "model.layers.0.self_attn.f_a_proj.weight",
            Kind::Q,
        ),
        (
            "language_model.model.layers.0.self_attn.f_b_proj.weight",
            "model.layers.0.self_attn.f_b_proj.weight",
            Kind::Q,
        ),
        (
            "language_model.model.layers.0.self_attn.q_conv1d.weight",
            "model.layers.0.self_attn.q_conv1d.weight",
            Kind::F32,
        ),
        (
            "language_model.model.layers.0.self_attn.k_conv1d.weight",
            "model.layers.0.self_attn.k_conv1d.weight",
            Kind::F32,
        ),
        (
            "language_model.model.layers.0.self_attn.v_conv1d.weight",
            "model.layers.0.self_attn.v_conv1d.weight",
            Kind::F32,
        ),
        (
            "language_model.model.layers.0.self_attn.A_log",
            "model.layers.0.self_attn.A_log",
            Kind::F32,
        ),
        (
            "language_model.model.layers.0.self_attn.dt_bias",
            "model.layers.0.self_attn.dt_bias",
            Kind::F32,
        ),
        (
            "language_model.model.layers.0.self_attn.o_norm.weight",
            "model.layers.0.self_attn.o_norm.weight",
            Kind::F32,
        ),
        (
            "language_model.model.layers.3.self_attn.q_a_proj.weight",
            "model.layers.3.self_attn.q_a_proj.weight",
            Kind::Q,
        ),
        (
            "language_model.model.layers.3.self_attn.q_b_proj.weight",
            "model.layers.3.self_attn.q_b_proj.weight",
            Kind::Q,
        ),
        (
            "language_model.model.layers.3.self_attn.kv_a_proj_with_mqa.weight",
            "model.layers.3.self_attn.kv_a_proj_with_mqa.weight",
            Kind::Q,
        ),
        (
            "language_model.model.layers.3.self_attn.kv_b_proj.weight",
            "model.layers.3.self_attn.kv_b_proj.weight",
            Kind::Q,
        ),
        (
            "language_model.model.layers.3.self_attn.q_a_layernorm.weight",
            "model.layers.3.self_attn.q_a_layernorm.weight",
            Kind::F32,
        ),
        (
            "language_model.model.layers.3.self_attn.kv_a_layernorm.weight",
            "model.layers.3.self_attn.kv_a_layernorm.weight",
            Kind::F32,
        ),
        (
            "language_model.model.layers.3.self_attn.g_proj.weight",
            "model.layers.3.self_attn.g_proj.weight",
            Kind::Q,
        ),
        (
            "language_model.model.layers.3.self_attn.o_proj.weight",
            "model.layers.3.self_attn.o_proj.weight",
            Kind::Q,
        ),
        (
            "language_model.model.layers.0.mlp.gate_proj.weight",
            "model.layers.0.mlp.gate_proj.weight",
            Kind::Q,
        ),
        (
            "language_model.model.layers.0.mlp.up_proj.weight",
            "model.layers.0.mlp.up_proj.weight",
            Kind::Q,
        ),
        (
            "language_model.model.layers.0.mlp.down_proj.weight",
            "model.layers.0.mlp.down_proj.weight",
            Kind::Q,
        ),
        (
            "language_model.model.layers.0.input_layernorm.weight",
            "model.layers.0.input_layernorm.weight",
            Kind::F32,
        ),
        (
            "language_model.model.layers.0.post_attention_layernorm.weight",
            "model.layers.0.post_attention_layernorm.weight",
            Kind::F32,
        ),
        (
            "language_model.model.layers.0.self_attention_res_norm.weight",
            "model.layers.0.self_attention_res_norm.weight",
            Kind::F32,
        ),
        (
            "language_model.model.layers.0.self_attention_res_proj.weight",
            "model.layers.0.self_attention_res_proj.weight",
            Kind::F32,
        ),
        (
            "language_model.model.layers.0.mlp_res_norm.weight",
            "model.layers.0.mlp_res_norm.weight",
            Kind::F32,
        ),
        (
            "language_model.model.layers.0.mlp_res_proj.weight",
            "model.layers.0.mlp_res_proj.weight",
            Kind::F32,
        ),
        (
            "language_model.model.embed_tokens.weight",
            "model.embed_tokens.weight",
            Kind::Io,
        ),
        ("language_model.lm_head.weight", "lm_head.weight", Kind::Io),
        (
            "language_model.model.norm.weight",
            "model.norm.weight",
            Kind::F32,
        ),
        (
            "language_model.model.output_attn_res_norm.weight",
            "model.output_attn_res_norm.weight",
            Kind::F32,
        ),
        (
            "language_model.model.output_attn_res_proj.weight",
            "model.output_attn_res_proj.weight",
            Kind::F32,
        ),
        ("vision_tower.encoder.blocks.0.wqkv.weight", "", Kind::Skip),
        (
            "vision_tower.encoder.blocks.0.mlp.fc0.weight",
            "",
            Kind::Skip,
        ),
        ("vision_tower.encoder.blocks.0.norm0.weight", "", Kind::Skip),
        (
            "vision_tower.encoder.final_layernorm.weight",
            "",
            Kind::Skip,
        ),
        ("vision_tower.patch_embed.pos_emb.weight", "", Kind::Skip),
        ("vision_tower.patch_embed.proj.weight", "", Kind::Skip),
        ("mm_projector.post_norm.weight", "", Kind::Skip),
        ("mm_projector.proj.0.weight", "", Kind::Skip),
    ];

    for (src, want_out, want_kind) in cases {
        match kimi_container_name(src) {
            None => assert!(want_out.is_empty(), "{src} was dropped but should map"),
            Some(got) => {
                assert!(
                    !want_out.is_empty(),
                    "{src} mapped to {got} but should be dropped"
                );
                assert_eq!(&got, want_out, "container name for {src}");
                assert_eq!(
                    classify(&got, 93, false, false),
                    *want_kind,
                    "kind for {src}"
                );
            }
        }
    }

    let dropped = cases.iter().filter(|(_, o, _)| o.is_empty()).count();
    assert_eq!(
        dropped, 8,
        "exactly the vision tower + projector patterns are dropped"
    );
}

#[test]
fn kimi_k3_classification() {
    let c = |s: &str| classify(s, 93, false, false);
    let l = "model.layers.1.";

    assert_eq!(
        c(&format!("{l}mlp.experts.7.gate_proj.weight_packed")),
        Kind::X
    );
    assert_eq!(
        c(&format!("{l}mlp.experts.7.down_proj.weight_packed")),
        Kind::X
    );
    assert_eq!(
        c(&format!("{l}mlp.experts.7.gate_proj.weight_scale")),
        Kind::Skip
    );

    for t in [
        "self_attn.q_conv1d.weight",
        "self_attn.k_conv1d.weight",
        "self_attn.A_log",
        "self_attn.dt_bias",
        "self_attn.o_norm.weight",
    ] {
        assert_eq!(c(&format!("{l}{t}")), Kind::F32, "{t}");
    }
    for t in [
        "self_attention_res_proj.weight",
        "mlp_res_proj.weight",
        "self_attention_res_norm.weight",
        "mlp_res_norm.weight",
    ] {
        assert_eq!(c(&format!("{l}{t}")), Kind::F32, "{t}");
    }

    for t in [
        "self_attn.q_proj.weight",
        "self_attn.g_proj.weight",
        "self_attn.f_b_proj.weight",
        "self_attn.kv_b_proj.weight",
        "mlp.fc1_latent_proj.weight",
        "mlp.fc2_latent_proj.weight",
        "mlp.shared_experts.down_proj.weight",
    ] {
        assert_eq!(c(&format!("{l}{t}")), Kind::Q, "{t}");
    }

    assert_eq!(c(&format!("{l}mlp.gate.weight")), Kind::F32);
    assert_eq!(
        c(&format!("{l}mlp.gate.e_score_correction_bias")),
        Kind::F32
    );
    assert_eq!(c(&format!("{l}mlp.routed_expert_norm.weight")), Kind::F32);
    assert_eq!(c("model.embed_tokens.weight"), Kind::Io);
    assert_eq!(c("lm_head.weight"), Kind::Io);

    assert_eq!(c("model.layers.1.mlp.experts.7.gate_proj.weight"), Kind::X);
}

#[test]
fn kimi_k3_name_mapping() {
    let m = |s: &str| kimi_container_name(s);
    assert_eq!(
        m("language_model.model.embed_tokens.weight").as_deref(),
        Some("model.embed_tokens.weight")
    );
    assert_eq!(
        m("language_model.lm_head.weight").as_deref(),
        Some("lm_head.weight")
    );
    assert_eq!(
        m("language_model.model.norm.weight").as_deref(),
        Some("model.norm.weight")
    );

    let e = "language_model.model.layers.1.block_sparse_moe.experts.7.";
    assert_eq!(
        m(&format!("{e}w1.weight_packed")).as_deref(),
        Some("model.layers.1.mlp.experts.7.gate_proj.weight")
    );
    assert_eq!(
        m(&format!("{e}w3.weight_packed")).as_deref(),
        Some("model.layers.1.mlp.experts.7.up_proj.weight")
    );
    assert_eq!(
        m(&format!("{e}w2.weight_scale")).as_deref(),
        Some("model.layers.1.mlp.experts.7.down_proj.weight_scale")
    );

    for (w, suf) in [("w1", "gate_proj"), ("w3", "up_proj"), ("w2", "down_proj")] {
        let src = format!(
            "language_model.model.layers.1.block_sparse_moe.experts.7.{w}.weight_packed"
        );
        let want = format!("model.layers.1.mlp.experts.7.{suf}.weight");
        assert_eq!(m(&src).as_deref(), Some(want.as_str()));
    }

    let b = "language_model.model.layers.1.block_sparse_moe.";
    assert_eq!(
        m(&format!("{b}routed_expert_down_proj.weight")).as_deref(),
        Some("model.layers.1.mlp.fc1_latent_proj.weight")
    );
    assert_eq!(
        m(&format!("{b}routed_expert_up_proj.weight")).as_deref(),
        Some("model.layers.1.mlp.fc2_latent_proj.weight")
    );
    assert!(!m(&format!("{b}routed_expert_down_proj.weight"))
        .unwrap()
        .contains("routed_expert"));

    assert_eq!(
        m(&format!("{b}gate.e_score_correction_bias")).as_deref(),
        Some("model.layers.1.mlp.gate.e_score_correction_bias")
    );
    assert_eq!(
        m(&format!("{b}shared_experts.down_proj.weight")).as_deref(),
        Some("model.layers.1.mlp.shared_experts.down_proj.weight")
    );
    assert_eq!(
        m(&format!("{b}routed_expert_norm.weight")).as_deref(),
        Some("model.layers.1.mlp.routed_expert_norm.weight")
    );

    let a = "language_model.model.layers.0.self_attn.";
    for t in [
        "q_proj.weight",
        "g_proj.weight",
        "b_proj.weight",
        "f_a_proj.weight",
        "f_b_proj.weight",
        "q_conv1d.weight",
        "A_log",
        "dt_bias",
        "o_norm.weight",
    ] {
        assert_eq!(
            m(&format!("{a}{t}")).as_deref(),
            Some(format!("model.layers.0.self_attn.{t}").as_str())
        );
    }
    let a3 = "language_model.model.layers.3.self_attn.";
    for t in [
        "q_a_proj.weight",
        "q_b_proj.weight",
        "kv_a_proj_with_mqa.weight",
        "kv_b_proj.weight",
        "kv_a_layernorm.weight",
        "o_proj.weight",
    ] {
        assert_eq!(
            m(&format!("{a3}{t}")).as_deref(),
            Some(format!("model.layers.3.self_attn.{t}").as_str())
        );
    }

    for t in [
        "self_attention_res_norm.weight",
        "self_attention_res_proj.weight",
        "mlp_res_norm.weight",
        "mlp_res_proj.weight",
    ] {
        assert_eq!(
            m(&format!("language_model.model.layers.5.{t}")).as_deref(),
            Some(format!("model.layers.5.{t}").as_str())
        );
    }

    assert_eq!(
        m("language_model.model.layers.0.mlp.gate_proj.weight").as_deref(),
        Some("model.layers.0.mlp.gate_proj.weight")
    );

    assert!(m("vision_tower.encoder.blocks.0.wqkv.weight").is_none());
    assert!(m("mm_projector.proj.0.weight").is_none());
}

#[test]
fn nemotron_name_mapping() {
    let m = |s: &str| nemotron_container_name(s, 88);
    assert_eq!(
        m("backbone.embeddings.weight").as_deref(),
        Some("model.embed_tokens.weight")
    );
    assert_eq!(
        m("backbone.layers.5.mixer.in_proj.weight").as_deref(),
        Some("model.layers.5.mixer.in_proj.weight")
    );
    assert_eq!(
        m("backbone.layers.7.norm.weight").as_deref(),
        Some("model.layers.7.input_layernorm.weight")
    );
    assert_eq!(
        m("backbone.layers.7.mixer.norm.weight").as_deref(),
        Some("model.layers.7.mixer.norm.weight")
    );
    assert_eq!(
        m("backbone.norm_f.weight").as_deref(),
        Some("model.norm.weight")
    );
    assert_eq!(m("lm_head.weight").as_deref(), Some("lm_head.weight"));
}

#[test]
fn nemotron_mtp_head_name_mapping() {
    let m = |s: &str| nemotron_container_name(s, 88);
    assert_eq!(
        m("mtp.layers.0.mixer.q_proj.weight").as_deref(),
        Some("model.layers.88.mixer.q_proj.weight")
    );
    assert_eq!(
        m("mtp.layers.0.mixer.o_proj.weight").as_deref(),
        Some("model.layers.88.mixer.o_proj.weight")
    );
    assert_eq!(
        m("mtp.layers.0.norm.weight").as_deref(),
        Some("model.layers.88.input_layernorm.weight")
    );
    assert_eq!(
        m("mtp.layers.0.eh_proj.weight").as_deref(),
        Some("model.layers.88.eh_proj.weight")
    );
    assert_eq!(
        m("mtp.layers.0.enorm.weight").as_deref(),
        Some("model.layers.88.enorm.weight")
    );
    assert_eq!(
        m("mtp.layers.0.hnorm.weight").as_deref(),
        Some("model.layers.88.hnorm.weight")
    );

    assert_eq!(
        m("mtp.layers.1.norm.weight").as_deref(),
        Some("model.layers.89.input_layernorm.weight")
    );
    assert_eq!(
        m("mtp.layers.1.mixer.gate.weight").as_deref(),
        Some("model.layers.89.mixer.gate.weight")
    );
    assert_eq!(
        m("mtp.layers.1.mixer.gate.e_score_correction_bias").as_deref(),
        Some("model.layers.89.mixer.gate.e_score_correction_bias")
    );
    assert_eq!(
        m("mtp.layers.1.mixer.fc1_latent_proj.weight").as_deref(),
        Some("model.layers.89.mixer.fc1_latent_proj.weight")
    );
    assert_eq!(
        m("mtp.layers.1.mixer.shared_experts.up_proj.weight").as_deref(),
        Some("model.layers.89.mixer.shared_experts.up_proj.weight")
    );
    assert_eq!(
        m("mtp.layers.1.mixer.experts.511.down_proj.weight").as_deref(),
        Some("model.layers.89.mixer.experts.511.down_proj.weight")
    );

    assert_eq!(
        m("mtp.layers.1.final_layernorm.weight").as_deref(),
        Some("model.layers.88.shared_head.norm.weight")
    );

    assert_eq!(m("mtp.lm_head.weight"), None);
    assert_eq!(m("mtp.norm.weight"), None);
}

#[test]
fn nemotron_classify_rules() {
    assert_eq!(
        classify(
            "model.layers.1.mixer.experts.3.up_proj.weight",
            88,
            false,
            false
        ),
        Kind::X
    );
    assert_eq!(
        classify(
            "model.layers.1.mixer.experts.3.down_proj.weight",
            88,
            false,
            false
        ),
        Kind::X
    );
    assert_eq!(
        classify(
            "model.layers.1.mixer.shared_experts.up_proj.weight",
            88,
            false,
            false
        ),
        Kind::Q
    );
    assert_eq!(
        classify("model.layers.1.mixer.gate.weight", 88, false, false),
        Kind::F32
    );
    assert_eq!(
        classify(
            "model.layers.1.mixer.gate.e_score_correction_bias",
            88,
            false,
            false
        ),
        Kind::F32
    );
    assert_eq!(
        classify(
            "model.layers.1.mixer.fc1_latent_proj.weight",
            88,
            false,
            false
        ),
        Kind::Q
    );
    assert_eq!(
        classify(
            "model.layers.1.mixer.fc2_latent_proj.weight",
            88,
            false,
            false
        ),
        Kind::Q
    );
    assert_eq!(
        classify("model.layers.0.mixer.in_proj.weight", 88, false, false),
        Kind::Q
    );
    assert_eq!(
        classify("model.layers.0.mixer.out_proj.weight", 88, false, false),
        Kind::Q
    );
    assert_eq!(
        classify("model.layers.0.mixer.conv1d.weight", 88, false, false),
        Kind::F32
    );
    assert_eq!(
        classify("model.layers.0.mixer.conv1d.bias", 88, false, false),
        Kind::F32
    );
    assert_eq!(
        classify("model.layers.0.mixer.A_log", 88, false, false),
        Kind::F32
    );
    assert_eq!(
        classify("model.layers.0.mixer.D", 88, false, false),
        Kind::F32
    );
    assert_eq!(
        classify("model.layers.0.mixer.dt_bias", 88, false, false),
        Kind::F32
    );
    assert_eq!(
        classify("model.layers.0.mixer.norm.weight", 88, false, false),
        Kind::F32
    );
    assert_eq!(
        classify("model.layers.0.norm.weight", 88, false, false),
        Kind::F32
    );
    assert_eq!(
        classify("model.layers.7.mixer.q_proj.weight", 88, false, false),
        Kind::Q
    );
    assert_eq!(
        classify("model.layers.7.mixer.o_proj.weight", 88, false, false),
        Kind::Q
    );
    assert_eq!(
        classify(
            "model.layers.1.mixer.experts.3.up_proj.weight_scale",
            88,
            false,
            false
        ),
        Kind::Skip
    );
}

#[test]
fn nemotron_mtp_head_classify_rules() {
    let c2 = |n: &str| classify_head(n, 88, false, false, 2);
    assert_eq!(c2("model.layers.88.mixer.q_proj.weight"), Kind::Q);
    assert_eq!(c2("model.layers.88.mixer.o_proj.weight"), Kind::Q);
    assert_eq!(c2("model.layers.88.input_layernorm.weight"), Kind::F32);
    assert_eq!(c2("model.layers.88.eh_proj.weight"), Kind::Q);
    assert_eq!(c2("model.layers.88.enorm.weight"), Kind::F32);
    assert_eq!(c2("model.layers.88.hnorm.weight"), Kind::F32);
    assert_eq!(c2("model.layers.88.shared_head.norm.weight"), Kind::F32);
    assert_eq!(c2("model.layers.89.input_layernorm.weight"), Kind::F32);
    assert_eq!(c2("model.layers.89.mixer.gate.weight"), Kind::F32);
    assert_eq!(
        c2("model.layers.89.mixer.gate.e_score_correction_bias"),
        Kind::F32
    );
    assert_eq!(c2("model.layers.89.mixer.fc1_latent_proj.weight"), Kind::Q);
    assert_eq!(c2("model.layers.89.mixer.fc2_latent_proj.weight"), Kind::Q);
    assert_eq!(
        c2("model.layers.89.mixer.shared_experts.up_proj.weight"),
        Kind::Q
    );
    assert_eq!(
        c2("model.layers.89.mixer.experts.0.up_proj.weight"),
        Kind::X
    );
    assert_eq!(
        c2("model.layers.89.mixer.experts.511.down_proj.weight"),
        Kind::X
    );
    assert_eq!(c2("model.layers.90.mixer.q_proj.weight"), Kind::Skip);
    assert_eq!(c2("model.layers.90.input_layernorm.weight"), Kind::Skip);

    assert_eq!(
        classify("model.layers.89.mixer.gate.weight", 88, false, false),
        Kind::Skip
    );

    assert_eq!(
        classify_head("model.layers.88.eh_proj.weight", 88, false, true, 2),
        Kind::Q
    );
    assert_eq!(
        classify_head(
            "model.layers.89.mixer.experts.7.up_proj.weight",
            88,
            false,
            true,
            2
        ),
        Kind::X
    );
    assert_eq!(
        classify_head("model.layers.3.mixer.in_proj.weight", 88, false, true, 2),
        Kind::Skip
    );
}

#[test]
fn mtp_only_emits_just_the_head() {
    assert_eq!(
        classify("model.layers.78.eh_proj.weight", 78, false, true),
        Kind::Q
    );
    assert_eq!(
        classify(
            "model.layers.78.mlp.experts.5.up_proj.weight",
            78,
            false,
            true
        ),
        Kind::X
    );
    assert_eq!(
        classify("model.layers.78.mlp.gate.weight", 78, false, true),
        Kind::F32
    );
    assert_eq!(classify("lm_head.weight", 78, false, true), Kind::Skip);
    assert_eq!(
        classify("model.embed_tokens.weight", 78, false, true),
        Kind::Skip
    );
    assert_eq!(
        classify("model.layers.3.self_attn.kv_b_proj.weight", 78, false, true),
        Kind::Skip
    );
}

#[test]
fn keep_indexer_retains_the_dsa_weights() {
    let n = "model.layers.0.self_attn.indexer";
    assert_eq!(
        classify(&format!("{n}.wk.weight"), 78, true, false),
        Kind::Q
    );
    assert_eq!(
        classify(&format!("{n}.wq_b.weight"), 78, true, false),
        Kind::Q
    );
    assert_eq!(
        classify(&format!("{n}.weights_proj.weight"), 78, true, false),
        Kind::Q
    );
    assert_eq!(
        classify(&format!("{n}.k_norm.weight"), 78, true, false),
        Kind::F32
    );
    assert_eq!(
        classify(&format!("{n}.k_norm.bias"), 78, true, false),
        Kind::F32
    );
    assert_eq!(
        classify(&format!("{n}.wk.weight_scale_inv"), 78, true, false),
        Kind::Skip
    );
    assert_eq!(
        classify(&format!("{n}.wk.weight"), 78, false, false),
        Kind::Skip
    );
    assert_eq!(
        classify("model.layers.3.eh_proj.weight", 78, true, false),
        Kind::Skip
    );
}

fn tensor(name: &str, dtype: DType, shape: Vec<i64>, nbytes: usize, file_idx: usize) -> SourceTensor {
    let numel = shape.iter().product::<i64>() as usize;
    SourceTensor { name: name.to_string(), dtype, shape, numel, nbytes, file_idx }
}

#[test]
fn layer_numbers_are_read_from_names() {
    assert_eq!(layer_idx("model.layers.17.mlp.gate.weight"), 17);
    assert_eq!(layer_idx("model.layers.17"), 17);
    assert_eq!(layer_idx("model.layers.+4.x"), 4);
    assert_eq!(layer_idx("model.layers.-3.x"), -3);
    assert_eq!(layer_idx("model.layers.x.y"), -1);
    assert_eq!(layer_idx("model.layers"), -1);
    assert_eq!(layer_idx("model.norm.weight"), -1);
    assert_eq!(layer_idx("lm_head.weight"), -1);
    assert_eq!(layer_idx("model.layers.99999999999999999999.x"), -1);
    assert_eq!(layer_idx("model.layers.-9223372036854775808.x"), i64::MIN);
    assert_eq!(layer_idx("model.layers.9223372036854775808.x"), -1);
    assert_eq!(layer_idx(""), -1);
}

#[test]
fn detect_format_by_sidecar() {
    let fp8 = vec![
        tensor("a.weight", DType::F8E4M3, vec![2, 2], 4, 0),
        tensor("a.weight_scale_inv", DType::F32, vec![1, 1], 4, 0),
    ];
    assert_eq!(detect_format(&fp8), SourceFormat::Fp8);
    assert!(SourceFormat::Fp8.needs_convert());

    let nvfp4 = vec![
        tensor("a.weight", DType::U8, vec![1, 2], 2, 0),
        tensor("a.weight_scale", DType::F8E4M3, vec![1, 1], 1, 0),
        tensor("a.weight_scale_2", DType::F32, vec![], 4, 0),
    ];
    assert_eq!(detect_format(&nvfp4), SourceFormat::Nvfp4);

    let container = vec![
        tensor("a.weight", DType::U8, vec![2], 2, 0),
        tensor("a.weight.qs", DType::F32, vec![1], 4, 0),
    ];
    assert_eq!(detect_format(&container), SourceFormat::Container);
    assert!(!SourceFormat::Container.needs_convert());
}

#[test]
fn row_scales_tell_before_a_global_scale() {
    let both = vec![
        tensor("a.weight_scale_2", DType::F32, vec![], 4, 0),
        tensor("b.weight.qs", DType::F32, vec![1], 4, 0),
    ];
    assert_eq!(detect_format(&both), SourceFormat::Container);
    let plain = vec![tensor("a.weight", DType::Bf16, vec![2, 2], 8, 0)];
    assert_eq!(detect_format(&plain), SourceFormat::Unknown);
    assert!(!SourceFormat::Unknown.needs_convert());
    let lone = vec![tensor("a.weight", DType::F8E5M2, vec![2, 2], 4, 0)];
    assert_eq!(detect_format(&lone), SourceFormat::Fp8);
    let sidecar = vec![tensor("a.weight_scale", DType::F8E4M3, vec![2, 2], 4, 0)];
    assert_eq!(detect_format(&sidecar), SourceFormat::Unknown);
}

#[test]
fn formats_have_names() {
    assert_eq!(SourceFormat::Container.as_str(), "container");
    assert_eq!(SourceFormat::Fp8.as_str(), "fp8");
    assert_eq!(SourceFormat::Nvfp4.as_str(), "nvfp4");
    assert_eq!(SourceFormat::Unknown.as_str(), "unknown");
    assert_eq!(DType::F8E4M3.as_str(), "F8_E4M3");
    assert_eq!(DType::Bf16.as_str(), "BF16");
}

#[test]
fn nvfp4_blocked_sidecar_is_not_treated_as_mxfp4() {
    let w = "model.layers.1.mlp.experts.0.gate_proj.weight_packed";
    let s = "model.layers.1.mlp.experts.0.gate_proj.weight_scale";
    let mx = vec![
        tensor(w, DType::U8, vec![2, 32], 64, 0),
        tensor(s, DType::U8, vec![2, 2], 4, 0),
    ];
    assert_eq!(mxfp4_source(&mx, w), Some((2, 64)));
    let nv = vec![
        tensor(w, DType::U8, vec![2, 32], 64, 0),
        tensor(s, DType::U8, vec![2, 4], 8, 0),
    ];
    assert_eq!(mxfp4_source(&nv, w), None);
    assert_eq!(mxfp4_source(&mx, s), None);
    let missing = vec![tensor(w, DType::U8, vec![2, 32], 64, 0)];
    assert_eq!(mxfp4_source(&missing, w), None);
}

#[test]
fn every_tensor_has_its_step() {
    let opts = ConvertOpts::default();
    let none: Vec<SourceTensor> = Vec::new();
    let step = |name: &str, opts: &ConvertOpts| process_one(name, &none, opts).map(|p| (p.out_name, p.step));
    assert_eq!(
        step("model.layers.3.mlp.experts.7.up_proj.weight", &opts),
        Some((
            "model.layers.3.mlp.experts.7.up_proj.weight".to_string(),
            Step::Encode(Encoding::Nvfp4)
        ))
    );
    let xfp8 = ConvertOpts { xfp8: true, ..opts };
    assert_eq!(
        step("model.layers.3.mlp.experts.7.up_proj.weight", &xfp8).unwrap().1,
        Step::Encode(Encoding::E4m3)
    );
    assert_eq!(
        step("lm_head.weight", &ConvertOpts { io_bits: 16, ..opts }).unwrap().1,
        Step::Encode(Encoding::Rows(16))
    );
    assert_eq!(
        step("model.layers.3.self_attn.o_proj.weight", &opts).unwrap().1,
        Step::Encode(Encoding::Rows(8))
    );
    assert_eq!(step("model.layers.3.self_attn.indexer.wk.weight", &opts), None);
    let gemma = ConvertOpts { minimax: true, gemma_norm: true, ..opts };
    assert_eq!(
        step("language_model.model.layers.2.input_layernorm.weight", &gemma),
        Some((
            "model.layers.2.input_layernorm.weight".to_string(),
            Step::F32 { add_one: true }
        ))
    );
    assert_eq!(
        step("language_model.model.layers.2.block_sparse_moe.gate.weight", &gemma).unwrap().1,
        Step::F32 { add_one: false }
    );
    // layers above the stack are dropped for every source but one that keeps its head
    assert_eq!(step("language_model.model.layers.78.input_layernorm.weight", &gemma), None);
}

#[test]
fn a_native_four_bit_expert_is_copied() {
    let w = "language_model.model.layers.1.block_sparse_moe.experts.5.w1.weight_packed";
    let s = "language_model.model.layers.1.block_sparse_moe.experts.5.w1.weight_scale";
    let tensors = vec![
        tensor(w, DType::U8, vec![2, 32], 64, 0),
        tensor(s, DType::U8, vec![2, 2], 4, 0),
    ];
    assert!(check_dims(&tensors, w));
    let opts = ConvertOpts { kimi: true, n_layers: 93, ..ConvertOpts::default() };
    let p = process_one(w, &tensors, &opts).unwrap();
    assert_eq!(p.out_name, "model.layers.1.mlp.experts.5.gate_proj.weight");
    assert_eq!(p.step, Step::Passthrough);
    assert!(process_one(s, &tensors, &opts).is_none());
    let xfp8 = ConvertOpts { xfp8: true, ..opts };
    assert_eq!(process_one(w, &tensors, &xfp8).unwrap().step, Step::Encode(Encoding::E4m3));
}

#[test]
fn only_an_expert_that_may_be_copied_needs_its_dimensions() {
    let w = "language_model.model.layers.1.block_sparse_moe.experts.5.w1.weight_packed";
    let s = "language_model.model.layers.1.block_sparse_moe.experts.5.w1.weight_scale";
    let odd = vec![
        tensor(w, DType::U8, vec![-2, 32], 64, 0),
        tensor(s, DType::U8, vec![-2, 2], 4, 0),
    ];
    let opts = ConvertOpts { kimi: true, n_layers: 93, ..ConvertOpts::default() };
    assert!(!can_process(w, &odd, &opts));
    assert!(can_process(s, &odd, &opts));
    let xfp8 = ConvertOpts { xfp8: true, ..opts };
    assert!(can_process(w, &odd, &xfp8));
    assert_eq!(process_one(w, &odd, &xfp8).unwrap().step, Step::Encode(Encoding::E4m3));
    let dropped = ConvertOpts { n_layers: 1, ..opts };
    assert!(can_process(w, &odd, &dropped));
    assert!(process_one(w, &odd, &dropped).is_none());
    // without exponents beside it the shape is not looked at
    let alone = vec![tensor(w, DType::U8, vec![-2, 32], 64, 0)];
    assert!(can_process(w, &alone, &opts));
    assert_eq!(process_one(w, &alone, &opts).unwrap().step, Step::Encode(Encoding::Nvfp4));
}

#[test]
fn a_hybrid_head_is_kept_by_name() {
    let opts = ConvertOpts { nemotron: true, n_layers: 88, mtp_layers: 2, ..ConvertOpts::default() };
    assert_eq!(
        container_name("mtp.layers.1.mixer.gate.weight", &opts).as_deref(),
        Some("model.layers.89.mixer.gate.weight")
    );
    let one = ConvertOpts { mtp_layers: 1, ..opts };
    assert_eq!(container_name("mtp.layers.1.mixer.gate.weight", &one), None);
    assert_eq!(
        container_name("anything at all", &ConvertOpts::default()).as_deref(),
        Some("anything at all")
    );
}

#[test]
fn dimensions_are_checked() {
    assert!(check_dims(&vec![tensor("a", DType::F32, vec![2, 3], 24, 0)], "a"));
    let bad = vec![tensor("a", DType::F32, vec![2, -3], 24, 0)];
    assert!(!check_dims(&bad, "a"));
    assert!(check_dims(&bad, "b"));
    assert!(is_matrix(&vec![2, 3]));
    assert!(!is_matrix(&vec![6]) && !is_matrix(&vec![1, 2, 3]) && !is_matrix(&vec![]));
    assert_eq!(two_dims(&vec![4, 5], "a"), Ok((4, 5)));
    assert_eq!(two_dims(&vec![4, 5, 6], "a").unwrap_err().name, "a");
}

#[test]
fn tensors_are_listed_by_file_and_class() {
    let tensors = vec![
        tensor("model.layers.0.self_attn.o_proj.weight", DType::U8, vec![2], 2, 1),
        tensor("model.layers.0.mlp.experts.0.up_proj.weight", DType::U8, vec![2], 2, 0),
        tensor("model.layers.0.self_attn.q_b_proj.weight", DType::U8, vec![2], 2, 1),
        tensor("model.norm.weight", DType::U8, vec![2], 2, 1),
    ];
    assert_eq!(tensors_of_file(&tensors, 1), vec![0, 2, 3]);
    assert_eq!(tensors_of_file(&tensors, 2), Vec::<usize>::new());
    assert_eq!(scored_tensors(&tensors, 78, true), vec![1]);
    assert_eq!(scored_tensors(&tensors, 78, false), vec![0, 2]);
}

#[test]
fn packed_weights_have_their_exponents_beside_them() {
    assert_eq!(
        exponents_name("model.layers.0.mlp.w1.weight_packed"),
        "model.layers.0.mlp.w1.weight_scale"
    );
    assert_eq!(exponents_name("w"), "w.weight_scale");
}
