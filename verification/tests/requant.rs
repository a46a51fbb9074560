//! Reading tensors back, and encoding a container anew.

use colibri_engine::catalog::{DType, SourceTensor};
use colibri_engine::convert::{detect_format, process_one, ConvertOpts, Encoding, SourceFormat, Step};
use colibri_engine::encode::{
    arrange, count_shard, f32_out, quantize, unpack_nibbles, ConvertStats, TensorOut,
};
use colibri_engine::minifloat::{e4m3_to_float, float_to_e4m3};
use colibri_engine::requant::{
    dequant, dequant_nvfp4, expert_oi, requant_one, resident_nvfp4_dims, scale_index, Dequant,
    Nvfp4Grid, Requant,
};

fn t(name: &str, dtype: DType, shape: Vec<i64>) -> SourceTensor {
    let numel = shape.iter().product::<i64>() as usize;
    SourceTensor { name: name.to_string(), dtype, shape, numel, nbytes: numel, file_idx: 0 }
}

#[test]
fn each_layout_is_recognized() {
    assert_eq!(dequant(&vec![], "w"), Dequant::Missing);
    assert_eq!(dequant(&vec![t("w", DType::Bf16, vec![2, 2])], "w"), Dequant::Straight);
    assert_eq!(
        dequant(&vec![t("w", DType::F8E4M3, vec![2, 2]), t("w_scale", DType::F32, vec![])], "w"),
        Dequant::PerTensor
    );
    assert_eq!(
        dequant(
            &vec![t("w", DType::F8E4M3, vec![300, 130]), t("w_scale_inv", DType::F32, vec![3, 2])],
            "w"
        ),
        Dequant::Blocks { o: 300, i: 130, nbo: 3, nbi: 2, bo: 128, bi: 128, exponents: false }
    );
    assert_eq!(
        dequant(
            &vec![t("w", DType::F8E5M2, vec![4, 64]), t("w_scale_inv", DType::U8, vec![4, 2])],
            "w"
        ),
        Dequant::Blocks { o: 4, i: 64, nbo: 4, nbi: 2, bo: 1, bi: 32, exponents: true }
    );
    assert_eq!(dequant(&vec![t("w", DType::F8E4M3, vec![2, 2])], "w"), Dequant::NoScales);
    assert_eq!(dequant(&vec![t("w", DType::F8E4M3, vec![4])], "w"), Dequant::NotAMatrix);
    assert_eq!(
        dequant(
            &vec![t("w", DType::F8E4M3, vec![2, 2]), t("w_scale_inv", DType::F32, vec![4])],
            "w"
        ),
        Dequant::ScalesNotAMatrix
    );
}

#[test]
fn four_bit_codes_need_a_global_scale() {
    let w = t("w", DType::U8, vec![1, 2]);
    let s = t("w_scale", DType::F8E4M3, vec![1, 1]);
    let both = vec![w, s];
    assert_eq!(dequant(&both, "w"), Dequant::NoGlobal);
    let full = vec![
        t("w", DType::U8, vec![1, 2]),
        t("w_scale", DType::F8E4M3, vec![1, 1]),
        t("w_scale_2", DType::F32, vec![]),
    ];
    assert_eq!(dequant(&full, "w"), Dequant::Nvfp4 { o: 1, i: 4 });
    let flat = vec![t("w", DType::U8, vec![2]), t("w_scale", DType::F8E4M3, vec![1, 1])];
    assert_eq!(dequant(&flat, "w"), Dequant::CodesNotAMatrix);
    // bytes without scales are just bytes
    assert_eq!(dequant(&vec![t("w", DType::U8, vec![2])], "w"), Dequant::Straight);
}

#[test]
fn a_reciprocal_global_scale_is_refused() {
    let ts = vec![t("w_scale", DType::F8E4M3, vec![1, 1])];
    let grid = |global: f32| dequant_nvfp4(&ts, "w", 1, 4, global.to_bits());
    for global in [1.0, 512.0, f32::INFINITY, f32::NAN, -f32::NAN] {
        assert_eq!(grid(global), Nvfp4Grid::Reciprocal);
    }
    for global in [0.99999994, 0.0, 1e-40, -3.0, f32::NEG_INFINITY] {
        assert_eq!(grid(global), Nvfp4Grid::Flat { nb: 1 });
    }
}

#[test]
fn an_unexpected_scale_grid_is_refused() {
    let ts = vec![t("w_scale", DType::F8E4M3, vec![1, 2])];
    assert_eq!(
        dequant_nvfp4(&ts, "w", 1, 4, 0x3b00_0000),
        Nvfp4Grid::Unexpected { nbo: 1, nbi: 2 }
    );
    assert_eq!(dequant_nvfp4(&ts, "w", 1, 32, 0x3b00_0000), Nvfp4Grid::Flat { nb: 2 });
    assert_eq!(
        dequant_nvfp4(&ts, "w", 2, 32, 0x3b00_0000),
        Nvfp4Grid::Unexpected { nbo: 1, nbi: 2 }
    );
    let flat = vec![t("w_scale", DType::F8E4M3, vec![2])];
    assert_eq!(dequant_nvfp4(&flat, "w", 1, 32, 0x3b00_0000), Nvfp4Grid::ScalesNotAMatrix);
}

#[test]
fn block_scales_are_found_by_row_and_column() {
    assert_eq!(scale_index(0, 0, 128, 128, 3), 0);
    assert_eq!(scale_index(127, 255, 128, 128, 3), 1);
    assert_eq!(scale_index(128, 256, 128, 128, 3), 5);
}

#[test]
fn expert_projections_have_their_dimensions() {
    assert_eq!(expert_oi("x.down_proj.weight", 7, 3), (7, 3));
    assert_eq!(expert_oi("x.gate_proj.weight", 7, 3), (3, 7));
    assert_eq!(expert_oi("x.up_proj.weight", 7, 3), (3, 7));
}

#[test]
fn experts_are_encoded_once() {
    let w = "model.layers.3.mlp.experts.0.down_proj.weight";
    let g = format!("{w}.g");
    let fresh = vec![t(w, DType::U8, vec![21]), t(&format!("{w}.qs"), DType::F32, vec![7])];
    assert_eq!(requant_one(w, &fresh, 78, 7, 3, false), Requant::Expert { o: 7, i: 3 });
    assert_eq!(requant_one(&format!("{w}.qs"), &fresh, 78, 7, 3, false), Requant::Skip);
    let again = vec![t(w, DType::U8, vec![11]), t(&g, DType::F32, vec![1])];
    assert_eq!(requant_one(w, &again, 78, 7, 3, false), Requant::Raw);
    assert_eq!(requant_one(&g, &again, 78, 7, 3, false), Requant::Raw);
    let short = vec![t(w, DType::U8, vec![20])];
    assert_eq!(
        requant_one(w, &short, 78, 7, 3, false),
        Requant::WrongCount { o: 7, i: 3, numel: 20 }
    );
    assert_eq!(requant_one(w, &vec![], 78, 7, 3, false), Requant::Missing);
}

#[test]
fn embeddings_and_norms_are_copied() {
    let ts = vec![
        t("lm_head.weight", DType::U8, vec![8]),
        t("lm_head.weight.qs", DType::F32, vec![2]),
        t("model.norm.weight", DType::F32, vec![4]),
    ];
    for n in ["lm_head.weight", "lm_head.weight.qs", "model.norm.weight"] {
        assert_eq!(requant_one(n, &ts, 78, 4, 4, true), Requant::Raw, "{n}");
    }
    assert_eq!(requant_one("model.other.weight", &ts, 78, 4, 4, true), Requant::Missing);
}

#[test]
fn a_resident_weight_that_is_not_int8_rows_stays() {
    let w = "model.layers.0.self_attn.o_proj.weight";
    let uneven = vec![t(w, DType::U8, vec![10]), t(&format!("{w}.qs"), DType::F32, vec![3])];
    assert_eq!(resident_nvfp4_dims(w, &uneven), None);
    assert_eq!(requant_one(w, &uneven, 78, 4, 4, true), Requant::Raw);
    assert_eq!(requant_one(&format!("{w}.qs"), &uneven, 78, 4, 4, true), Requant::Raw);
    let mut wide = vec![t(w, DType::F32, vec![12]), t(&format!("{w}.qs"), DType::F32, vec![3])];
    wide[0].nbytes = 48;
    assert_eq!(resident_nvfp4_dims(w, &wide), None);
    let done = vec![
        t(w, DType::U8, vec![12]),
        t(&format!("{w}.qs"), DType::F32, vec![3]),
        t(&format!("{w}.g"), DType::F32, vec![1]),
    ];
    assert_eq!(resident_nvfp4_dims(w, &done), None);
}

fn e4m3(code: u8) -> f32 {
    let v = f32::from_bits(e4m3_to_float(code & 0x7f));
    if code & 0x80 != 0 {
        -v
    } else {
        v
    }
}

#[test]
fn per_tensor_fp8_dequant() {
    let w = "model.layers.0.self_attn.q_proj.weight";
    let tensors = vec![
        t(w, DType::F8E4M3, vec![2, 2]),
        t(&format!("{w}_scale"), DType::F32, vec![]),
    ];
    assert_eq!(dequant(&tensors, w), Dequant::PerTensor);
    let codes = [0x38u8, 0x40, 0xB8, 0x30];
    let got: Vec<f32> = codes.iter().map(|&c| e4m3(c) * 3.0).collect();
    assert_eq!(got, vec![3.0, 6.0, -3.0, 1.5]);
    assert_eq!(detect_format(&tensors), SourceFormat::Fp8);
}

fn four_bit(w: &str, half: i64, blocks: i64) -> Vec<SourceTensor> {
    vec![
        t(w, DType::U8, vec![1, half]),
        t(&format!("{w}_scale"), DType::F8E4M3, vec![1, blocks]),
        t(&format!("{w}_scale_2"), DType::F32, vec![]),
    ]
}

#[test]
fn nvfp4_dequant_matches_reference_math() {
    let w = "model.layers.3.mlp.experts.0.gate_proj.weight";
    let tensors = four_bit(w, 2, 1);
    assert_eq!(dequant(&tensors, w), Dequant::Nvfp4 { o: 1, i: 4 });
    let gscale = 0.5f32;
    assert_eq!(
        dequant_nvfp4(&tensors, w, 1, 4, gscale.to_bits()),
        Nvfp4Grid::Flat { nb: 1 }
    );
    let levels = [0.0f32, 0.5, 1.0, 1.5, 2.0, 3.0, 4.0, 6.0];
    let bscale = e4m3(float_to_e4m3(2.0f32.to_bits()));
    let got: Vec<f32> = unpack_nibbles(&vec![0x42, 0x5A], 1, 2)
        .into_iter()
        .map(|c| {
            let v = levels[(c & 7) as usize] * bscale * gscale;
            if c & 8 != 0 {
                -v
            } else {
                v
            }
        })
        .collect();
    assert_eq!(got, vec![1.0, 2.0, -1.0, 3.0]);
}

#[test]
fn nvfp4_rejects_compressed_tensors_reciprocal() {
    let w = "model.layers.3.mlp.experts.0.gate_proj.weight";
    let tensors = four_bit(w, 2, 1);
    assert_eq!(
        dequant_nvfp4(&tensors, w, 1, 4, 2048.0f32.to_bits()),
        Nvfp4Grid::Reciprocal
    );
}

#[test]
fn nvfp4_rejects_unexpected_scale_grid() {
    let w = "model.layers.3.mlp.experts.0.gate_proj.weight";
    let tensors = four_bit(w, 32, 8);
    assert_eq!(dequant(&tensors, w), Dequant::Nvfp4 { o: 1, i: 64 });
    assert_eq!(
        dequant_nvfp4(&tensors, w, 1, 64, 0.5f32.to_bits()),
        Nvfp4Grid::Unexpected { nbo: 1, nbi: 8 }
    );
}

#[test]
fn convert_tiny_fp8_shard() {
    let name = "model.layers.0.self_attn.o_proj.weight";
    let sname = "model.layers.0.self_attn.o_proj.weight_scale_inv";
    let nname = "model.layers.0.input_layernorm.weight";
    let tensors = vec![
        t(name, DType::F8E4M3, vec![2, 2]),
        t(sname, DType::F32, vec![1, 1]),
        t(nname, DType::Bf16, vec![2]),
    ];
    let opts = ConvertOpts { ebits: 8, io_bits: 8, n_layers: 78, ..Default::default() };
    let weight = process_one(name, &tensors, &opts).unwrap();
    assert_eq!(weight.out_name, name);
    assert_eq!(weight.step, Step::Encode(Encoding::Rows(8)));
    assert!(process_one(sname, &tensors, &opts).is_none());
    let norm = process_one(nname, &tensors, &opts).unwrap();
    assert_eq!(norm.step, Step::F32 { add_one: false });

    // codes of one block under the scale 2: [[2, 4], [-2, 1]]
    let w: Vec<f32> = [0x38u8, 0x40, 0xB8, 0x30].iter().map(|&c| e4m3(c) * 2.0).collect();
    assert_eq!(w, vec![2.0, 4.0, -2.0, 1.0]);
    let scales: Vec<f32> = vec![4.0 / 127.0, 2.0 / 127.0];
    let codes: Vec<u8> =
        w.iter().enumerate().map(|(k, v)| (v / scales[k / 2]).round() as i8 as u8).collect();
    assert_eq!(codes, vec![64, 127, (-127i8) as u8, 64]);
    let bits: Vec<u32> = scales.iter().map(|s| s.to_bits()).collect();
    let (c, s) = quantize(name, codes, &bits);
    let outs = vec![
        TensorOut::Quant(c, s),
        TensorOut::Skip,
        TensorOut::Whole(f32_out(nname, vec![2], &vec![1.0f32.to_bits(), 2.0f32.to_bits()])),
    ];
    let mut stats = ConvertStats::default();
    let written = arrange(outs, &mut stats);
    count_shard(&written, &mut stats);
    assert_eq!(stats.tensors_quantized, 1);
    assert_eq!(stats.tensors_f32, 1);
    assert_eq!(stats.shards_written, 1);
    let names: Vec<&str> = written.iter().map(|t| t.name.as_str()).collect();
    assert_eq!(names, vec![name, "model.layers.0.self_attn.o_proj.weight.qs", nname]);
    assert_eq!(written[1].bytes[..4], (4.0f32 / 127.0).to_le_bytes());
}
