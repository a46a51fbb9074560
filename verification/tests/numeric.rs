//! Small float formats, block quantization and sampling, on real f32 values.

use colibri_engine::catalog::{DType, SourceTensor};
use colibri_engine::encode::unpack_nibbles;
use colibri_engine::minifloat::{
    e2m1_code, e2m1_round, e4m3_to_float, e8m0_scale, float_to_e4m3, peak, ue4m3_round,
};
use colibri_engine::quantize::{
    block_peaks, e4m3_codes, mxfp4_scales, quantize_e4m3, quantize_nvfp4,
};
use colibri_engine::score::quant_error;

const E2M1_LEVELS: [f32; 8] = [0.0, 0.5, 1.0, 1.5, 2.0, 3.0, 4.0, 6.0];
const UE4M3_MAX: f32 = 448.0;
const NVFP4_BLOCK: usize = 16;

fn e2m1(v: f32) -> f32 {
    f32::from_bits(e2m1_round(v.to_bits()))
}

fn ue4m3(v: f32) -> f32 {
    f32::from_bits(ue4m3_round(v.to_bits()))
}

fn bits(w: &[f32]) -> Vec<u32> {
    w.iter().map(|v| v.to_bits()).collect()
}

#[test]
fn float_to_e4m3_matches_hardware() {
    let cases: &[(f32, u8)] = &[
        (0.0, 0x00),
        (0.1, 0x1D),
        (0.5, 0x30),
        (1.0, 0x38),
        (1.5, 0x3C),
        (2.0, 0x40),
        (3.14159, 0x45),
        (7.0, 0x4E),
        (15.5, 0x58),
        (100.0, 0x6C),
        (448.0, 0x7E),
        (500.0, 0x7E),
        (-1.0, 0xB8),
        (-0.5, 0xB0),
        (-256.0, 0xF8),
        (0.015625, 0x08),
        (0.0078125, 0x04),
        (0.001, 0x01),
        (2.5, 0x42),
        (0.3, 0x2A),
        (0.017, 0x09),
        (255.9, 0x78),
    ];
    for &(x, want) in cases {
        let got = float_to_e4m3(x.to_bits());
        assert_eq!(got, want, "e4m3({x}) = 0x{got:02X}, want 0x{want:02X}");
    }
}

#[test]
fn e4m3_handles_what_is_not_finite() {
    assert_eq!(float_to_e4m3(f32::INFINITY.to_bits()), 0x7E);
    assert_eq!(float_to_e4m3(f32::NEG_INFINITY.to_bits()), 0xFE);
    assert_eq!(float_to_e4m3(0x7fc0_0000), 0x00);
    assert_eq!(float_to_e4m3(0xffc0_0000), 0x80);
    assert_eq!(float_to_e4m3((-0.0f32).to_bits()), 0x80);
    assert_eq!(float_to_e4m3(1), 0x00);
}

#[test]
fn e4m3_ties_go_to_the_even_code() {
    // halfway between two steps below the smallest exponent
    assert_eq!(float_to_e4m3((0.5f32 / 512.0).to_bits()), 0x00);
    assert_eq!(float_to_e4m3((1.5f32 / 512.0).to_bits()), 0x02);
    assert_eq!(float_to_e4m3((2.5f32 / 512.0).to_bits()), 0x02);
    assert_eq!(float_to_e4m3((7.5f32 / 512.0).to_bits()), 0x08);
    // halfway between 1 and 1.125, and between 1.125 and 1.25
    assert_eq!(float_to_e4m3(1.0625f32.to_bits()), 0x38);
    assert_eq!(float_to_e4m3(1.1875f32.to_bits()), 0x3A);
}

#[test]
fn e4m3_keeps_every_value_of_its_own() {
    for code in 0u8..=0x7e {
        let b = e4m3_to_float(code);
        assert_eq!(float_to_e4m3(b), code);
        assert_eq!(float_to_e4m3(b | 0x8000_0000), code | 0x80);
        assert_eq!(ue4m3_round(b), b);
    }
    assert_eq!(f32::from_bits(e4m3_to_float(0x7e)), 448.0);
    assert_eq!(f32::from_bits(e4m3_to_float(0x01)), 1.0 / 512.0);
    assert_eq!(f32::from_bits(e4m3_to_float(0x38)), 1.0);
}

#[test]
fn e4m3_keeps_the_order_of_values() {
    let mut last = 0u8;
    for k in 0..4000u32 {
        let code = float_to_e4m3((k as f32 * 0.113).to_bits());
        assert!(code >= last);
        last = code;
    }
}

#[test]
fn e2m1_and_ue4m3_round_to_their_real_grids() {
    for &v in &E2M1_LEVELS {
        assert_eq!(e2m1(v), v, "e2m1 level {v} not preserved");
        assert_eq!(e2m1(-v), -v, "e2m1 level -{v} not preserved");
    }
    assert_eq!(e2m1(5.0), 4.0, "tie 4/6 must resolve to the even code");
    assert_eq!(e2m1(100.0), 6.0, "saturates at the max magnitude");
    assert_eq!(e2m1(0.2), 0.0, "below half the first step -> 0");
    for e in -6..=8 {
        let p = 2f32.powi(e);
        assert_eq!(ue4m3(p), p, "ue4m3 power of two {p} not preserved");
    }
    assert_eq!(ue4m3(UE4M3_MAX), UE4M3_MAX);
    assert!(ue4m3(1e30) <= UE4M3_MAX, "must not invent a scale past the max");
    assert_eq!(ue4m3(-1.0), 0.0);
    assert_eq!(ue4m3(f32::NAN), 0.0);
    assert_eq!(ue4m3(f32::INFINITY), 0.0);
    // of two equally near scales the smaller
    assert_eq!(ue4m3(1.0625), 1.0);
    assert_eq!(ue4m3(1.1875), 1.125);
}

#[test]
fn e2m1_codes_carry_their_sign() {
    assert_eq!(e2m1_code(6.0f32.to_bits()), 7);
    assert_eq!(e2m1_code((-6.0f32).to_bits()), 15);
    assert_eq!(e2m1_code(0.25f32.to_bits()), 0);
    assert_eq!(e2m1_code(0.26f32.to_bits()), 1);
    assert_eq!(e2m1_code(2.5f32.to_bits()), 4);
    assert_eq!(e2m1_code((-0.0f32).to_bits()), 8);
    assert_eq!(e2m1_code(f32::NAN.to_bits()) & 7, 0);
    assert_eq!(e2m1_code(7.0f32.to_bits()), 7);
    // nothing is nearest to infinity
    assert_eq!(e2m1_code(f32::INFINITY.to_bits()), 0);
    assert_eq!(e2m1_code(f32::NEG_INFINITY.to_bits()), 8);
    assert_eq!(e2m1_round(f32::INFINITY.to_bits()), 0);
    assert_eq!(e2m1_round(f32::NEG_INFINITY.to_bits()), (-0.0f32).to_bits());
}

#[test]
fn peaks_ignore_signs_and_what_is_not_a_number() {
    let w = bits(&[1.0, -3.0, f32::NAN, 2.0, 0.5]);
    assert_eq!(f32::from_bits(peak(&w, 0, 5)), 3.0);
    assert_eq!(f32::from_bits(peak(&w, 2, 3)), 0.0);
    assert_eq!(f32::from_bits(peak(&w, 3, 3)), 0.0);
    let p = block_peaks(&bits(&[1.0, -2.0, 3.0, 4.0, 5.0, -6.0]), 2, 3, 2);
    assert_eq!(p, bits(&[2.0, 3.0, 5.0, 6.0]));
    assert_eq!(block_peaks(&bits(&[1.0, -2.0, 3.0, 4.0]), 2, 2, 2), bits(&[2.0, 4.0]));
}

/// The steps of the four-bit block format with the divisions in between.
fn nvfp4(w: &[f32], o: usize, i: usize) -> (Vec<u8>, Vec<u8>, f32) {
    let wb = bits(w);
    let amax = f32::from_bits(peak(&wb, 0, wb.len()));
    let global = (amax / (6.0 * UE4M3_MAX)).max(f32::MIN_POSITIVE);
    let ratios: Vec<u32> = block_peaks(&wb, o, i, NVFP4_BLOCK)
        .iter()
        .map(|&b| (f32::from_bits(b) / 6.0 / global).to_bits())
        .collect();
    let scales = e4m3_codes(&ratios);
    let nb = i.div_ceil(NVFP4_BLOCK);
    let scaled: Vec<u32> = (0..o * i)
        .map(|k| {
            let code = scales[k / i * nb + k % i / NVFP4_BLOCK];
            let eff = f32::from_bits(e4m3_to_float(code)) * global;
            if eff > 0.0 { (w[k] / eff).to_bits() } else { 0 }
        })
        .collect();
    (quantize_nvfp4(&scaled, o, i), scales, global)
}

fn nvfp4_sim(w: &[f32], o: usize, i: usize) -> Vec<f32> {
    let amax = w.iter().fold(0f32, |m, &v| m.max(v.abs()));
    let global = (amax / (6.0 * UE4M3_MAX)).max(f32::MIN_POSITIVE);
    let mut out = vec![0f32; o * i];
    for r in 0..o {
        let mut c = 0;
        while c < i {
            let end = (c + NVFP4_BLOCK).min(i);
            let blk = &w[r * i + c..r * i + end];
            let bmax = blk.iter().fold(0f32, |m, &v| m.max(v.abs()));
            let eff = ue4m3(bmax / 6.0 / global) * global;
            for (k, &v) in blk.iter().enumerate() {
                out[r * i + c + k] = if eff > 0.0 { e2m1(v / eff) * eff } else { 0.0 };
            }
            c = end;
        }
    }
    out
}

#[test]
fn nvfp4_sim_is_not_secretly_lossless() {
    let (o, i) = (2usize, 256usize);
    let w: Vec<f32> =
        (0..o * i).map(|k| ((k * 2654435761usize) % 1000) as f32 / 500.0 - 1.0).collect();
    let approx = nvfp4_sim(&w, o, i);
    let diff = w.iter().zip(&approx).filter(|(a, b)| a != b).count();
    assert!(diff > w.len() / 4, "only {diff}/{} values changed", w.len());
}

#[test]
fn nvfp4_encode_decode_matches_sim() {
    let (o, i) = (8usize, 128usize);
    let mut w = vec![0f32; o * i];
    for r in 0..o {
        for c in 0..i {
            let mag = 10f32.powi(-((c / 16) as i32 % 4));
            w[r * i + c] = mag * if (r + c) % 3 == 0 { -1.0 } else { 1.0 };
        }
    }
    let (nib, bs, g) = nvfp4(&w, o, i);
    let nb = i.div_ceil(NVFP4_BLOCK);
    let rb = i.div_ceil(2);
    assert_eq!(nib.len(), o * rb);
    assert_eq!(bs.len(), o * nb);
    let codes = unpack_nibbles(&nib, o, rb);
    let mut dec = vec![0f32; o * i];
    for r in 0..o {
        for c in 0..i {
            let byte = nib[r * rb + (c >> 1)];
            let code = if c & 1 == 1 { byte >> 4 } else { byte & 0x0f };
            assert_eq!(code, codes[r * i + c]);
            let level = E2M1_LEVELS[(code & 7) as usize] * if code & 8 != 0 { -1.0 } else { 1.0 };
            let bsc = f32::from_bits(e4m3_to_float(bs[r * nb + c / NVFP4_BLOCK]));
            dec[r * i + c] = level * bsc * g;
        }
    }
    let sim = nvfp4_sim(&w, o, i);
    let (mut se, mut sr) = (0f64, 0f64);
    for (&a, &b) in dec.iter().zip(&sim) {
        se += ((a - b) as f64).powi(2);
        sr += (b as f64).powi(2);
    }
    let rel = (se / sr.max(1e-30)).sqrt();
    assert!(rel < 1e-4, "decode vs sim rel-RMS {rel:e} too large");
}

#[test]
fn eight_bit_floats_go_with_their_row_scales() {
    let (codes, scales) =
        quantize_e4m3("w", &bits(&[1.0, -448.0, 0.5]), &bits(&[2.0]));
    assert_eq!((codes.name.as_str(), codes.dtype.as_str()), ("w", "U8"));
    assert_eq!(codes.bytes, vec![0x38, 0xFE, 0x30]);
    assert_eq!(codes.shape, vec![3]);
    assert_eq!((scales.name.as_str(), scales.dtype.as_str()), ("w.qs", "F32"));
    assert_eq!(scales.bytes, 2.0f32.to_le_bytes().to_vec());
}

fn weight(name: &str) -> SourceTensor {
    SourceTensor {
        name: name.to_string(),
        dtype: DType::Bf16,
        shape: vec![2, 2],
        numel: 4,
        nbytes: 8,
        file_idx: 0,
    }
}

#[test]
fn samples_are_spread_over_the_names() {
    let mut tensors: Vec<SourceTensor> = (0..6)
        .rev()
        .map(|l| weight(&format!("model.layers.{l}.self_attn.o_proj.weight")))
        .collect();
    tensors.push(weight("model.layers.4.mlp.experts.0.up_proj.weight"));
    tensors.push(weight("model.norm.weight"));
    let names = |picks: Vec<usize>| -> Vec<String> {
        picks.iter().map(|&k| tensors[k].name.clone()).collect()
    };
    let layer = |l: usize| format!("model.layers.{l}.self_attn.o_proj.weight");
    assert_eq!(names(quant_error(&tensors, 8, 3, false)), vec![layer(0), layer(2), layer(4)]);
    assert_eq!(
        names(quant_error(&tensors, 8, 100, false)),
        (0..6).map(layer).collect::<Vec<String>>()
    );
    assert_eq!(
        names(quant_error(&tensors, 8, 3, true)),
        vec!["model.layers.4.mlp.experts.0.up_proj.weight".to_string()]
    );
    assert!(quant_error(&tensors, 8, 0, false).is_empty());
}

#[test]
fn names_sort_like_strings() {
    let tensors: Vec<SourceTensor> = ["10", "2", "1"]
        .iter()
        .map(|l| weight(&format!("model.layers.{l}.self_attn.o_proj.weight")))
        .collect();
    let mut want: Vec<String> = tensors.iter().map(|t| t.name.clone()).collect();
    want.sort();
    let got: Vec<String> =
        quant_error(&tensors, 99, 9, false).iter().map(|&k| tensors[k].name.clone()).collect();
    assert_eq!(got, want);
}

#[test]
fn power_of_two_scales_reach_the_peak_and_no_further() {
    let code = |v: f32| e8m0_scale(v.to_bits());
    assert_eq!(code(0.0), 127);
    assert_eq!(code(6.0), 127);
    assert_eq!(code(6.000001), 128);
    assert_eq!(code(3.0), 126);
    assert_eq!(code(1.0), 125);
    assert_eq!(code(12.0), 128);
    assert_eq!(code(f32::MIN_POSITIVE), 0);
    assert_eq!(code(f32::from_bits(1)), 0);
    assert_eq!(code(f32::MAX), 253);
    assert_eq!(code(f32::INFINITY), 254);
}

#[test]
fn quantize_mxfp4_round_trips_through_the_production_decode() {
    let (o, i) = (32usize, 64usize);
    let w: Vec<f32> = (0..o * i)
        .map(|k| {
            let v = ((k as f32) * 0.017).sin();
            if k % 2 == 0 {
                v
            } else {
                v * 0.12
            }
        })
        .collect();
    let (nb, rb) = (i.div_ceil(32), i.div_ceil(2));
    let bs = mxfp4_scales(&bits(&w), o, i);
    assert_eq!(bs.len(), o * nb);
    let scale = |k: usize| ((bs[(k / i) * nb + (k % i) / 32] as i32 - 127) as f32).exp2();
    let scaled: Vec<f32> = w.iter().enumerate().map(|(k, v)| v / scale(k)).collect();
    let q4 = quantize_nvfp4(&bits(&scaled), o, i);
    assert_eq!(q4.len(), o * rb);
    let (mut num, mut den) = (0f64, 0f64);
    for r in 0..o {
        for k in 0..i {
            let byte = q4[r * rb + (k >> 1)];
            let code = if k & 1 == 1 { byte >> 4 } else { byte & 0x0f };
            let level = E2M1_LEVELS[(code & 7) as usize] * if code & 8 != 0 { -1.0 } else { 1.0 };
            let d = (level * scale(r * i + k) - w[r * i + k]) as f64;
            num += d * d;
            den += (w[r * i + k] as f64).powi(2);
        }
    }
    let rel = (num / den).sqrt();
    assert!(rel < 0.25, "rel-RMS {rel:.3} is too high for four bits");
    assert!(rel > 1e-4, "rel-RMS {rel:.6} is impossibly good for four bits");
}
