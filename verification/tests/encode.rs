//! Encoded tensors and the shards they are put in.

use colibri_engine::encode::{
    arrange, block_span, count_shard, f32_bytes, f32_out, mxfp4_passthrough_out, pack_nibbles,
    quantize, quantize_nvfp4_out, sample, shard_name, unpack_nibbles, worker_share, ConvertStats,
    TensorOut,
};
use colibri_engine::shard::{shard_header, write_shard, OutTensor};

fn out(name: &str, dtype: &str, bytes: Vec<u8>) -> OutTensor {
    OutTensor {
        name: name.to_string(),
        dtype: dtype.to_string(),
        shape: vec![bytes.len() as i64],
        bytes,
    }
}

#[test]
fn codes_are_packed_low_half_first() {
    assert_eq!(pack_nibbles(&vec![2, 4, 10, 5], 1, 4), vec![0x42, 0x5A]);
    assert_eq!(pack_nibbles(&vec![1, 2, 3, 4, 5, 6], 2, 3), vec![0x21, 0x03, 0x54, 0x06]);
    assert_eq!(unpack_nibbles(&vec![0x42, 0x5A], 1, 2), vec![2, 4, 10, 5]);
    let codes: Vec<u8> = (0..48).map(|k| (k * 7 % 16) as u8).collect();
    assert_eq!(unpack_nibbles(&pack_nibbles(&codes, 4, 12), 4, 6), codes);
}

#[test]
fn expert_oi_only_matters_for_e4m3_experts() {
    let (o, i) = (2usize, 32usize);
    let codes = vec![7u8; o * i];
    let packed = pack_nibbles(&codes, o, i);
    let scales = vec![0u8; o * i.div_ceil(16)];
    assert_ne!(
        packed.len() + scales.len(),
        o * i,
        "an NVFP4 blob must NOT be o*i bytes — that is the e4m3 shape the old check assumed"
    );
}

#[test]
fn blocks_end_with_the_row() {
    assert_eq!(block_span(0, 16, 40), (0, 16));
    assert_eq!(block_span(1, 16, 40), (16, 32));
    assert_eq!(block_span(2, 16, 40), (32, 40));
}

#[test]
fn floats_are_little_endian() {
    assert_eq!(f32_bytes(&vec![1.0f32.to_bits(), (-2.5f32).to_bits()]), {
        let mut v = 1.0f32.to_le_bytes().to_vec();
        v.extend((-2.5f32).to_le_bytes());
        v
    });
}

#[test]
fn encoded_tensors_carry_their_marks() {
    let (codes, scales) = quantize("w", vec![1, 2, 3], &vec![1.0f32.to_bits()]);
    assert_eq!((codes.name.as_str(), codes.dtype.as_str()), ("w", "U8"));
    assert_eq!(codes.shape, vec![3]);
    assert_eq!((scales.name.as_str(), scales.dtype.as_str()), ("w.qs", "F32"));
    assert_eq!(scales.bytes, 1.0f32.to_le_bytes().to_vec());
    let (blob, g) = quantize_nvfp4_out("w", vec![0x12], &vec![0x38], 0.5f32.to_bits());
    assert_eq!(blob.bytes, vec![0x12, 0x38]);
    assert_eq!(g.name, "w.g");
    assert_eq!(g.bytes, 0.5f32.to_le_bytes().to_vec());
    let f = f32_out("n", vec![1, 2], &vec![0, 0]);
    assert_eq!((f.dtype.as_str(), f.shape, f.bytes.len()), ("F32", vec![1, 2], 8));
}

#[test]
fn mxfp4_expert_passes_through_bit_exact() {
    let packed: Vec<u8> = (0..64u32).map(|k| (k * 7 + 3) as u8).collect();
    let scale: Vec<u8> = vec![127 - 6, 127 - 5, 127 - 11, 127 - 7];
    let (blob, tag) = mxfp4_passthrough_out("out.gate_proj.weight", packed.clone(), &scale);
    let mut expect = packed.clone();
    expect.extend_from_slice(&scale);
    assert_eq!(blob.bytes, expect, "MXFP4 must survive convert unmodified");
    assert_eq!(blob.dtype, "U8");
    assert_eq!(blob.shape, vec![(64 + 4) as i64]);
    assert_eq!(tag.name, "out.gate_proj.weight.mx");
    assert_eq!(tag.bytes, 1.0f32.to_le_bytes().to_vec());
}

#[test]
fn a_shard_has_length_header_and_data() {
    let ts = vec![out("a", "U8", vec![1, 2, 3]), out("b", "F32", vec![4, 5, 6, 7])];
    let header = "{\"a\":{\"dtype\":\"U8\",\"shape\":[3],\"data_offsets\":[0,3]},\
                  \"b\":{\"dtype\":\"F32\",\"shape\":[4],\"data_offsets\":[3,7]}}";
    assert_eq!(shard_header(&ts), header);
    let bytes = write_shard(&ts);
    let n = header.len();
    assert_eq!(bytes[..8], (n as u64).to_le_bytes());
    assert_eq!(&bytes[8..8 + n], header.as_bytes());
    assert_eq!(bytes[8 + n..], [1, 2, 3, 4, 5, 6, 7]);
    assert_eq!(write_shard(&vec![]), [2, 0, 0, 0, 0, 0, 0, 0, b'{', b'}']);
}

#[test]
fn a_header_lists_every_dimension() {
    let t = OutTensor {
        name: "é".to_string(),
        dtype: "F32".to_string(),
        shape: vec![-1, 0, 12],
        bytes: vec![],
    };
    let s = OutTensor { name: "s".to_string(), dtype: "F32".to_string(), shape: vec![], bytes: vec![9] };
    assert_eq!(
        shard_header(&vec![t, s]),
        "{\"é\":{\"dtype\":\"F32\",\"shape\":[-1,0,12],\"data_offsets\":[0,0]},\
         \"s\":{\"dtype\":\"F32\",\"shape\":[],\"data_offsets\":[0,1]}}"
    );
}

#[test]
fn expert_codes_are_contiguous_for_coalesced_read() {
    let mut stats = ConvertStats::default();
    let mut outs = Vec::new();
    for p in ["gate", "up", "down"] {
        let (c, s) = quantize(p, vec![p.len() as u8; 4], &vec![0]);
        outs.push(TensorOut::Quant(c, s));
    }
    outs.insert(1, TensorOut::Whole(out("norm", "F32", vec![0; 4])));
    outs.push(TensorOut::Skip);
    outs.push(TensorOut::Whole(out("raw", "U8", vec![1])));
    let ts = arrange(outs, &mut stats);
    let names: Vec<&str> = ts.iter().map(|t| t.name.as_str()).collect();
    assert_eq!(names, ["gate", "up", "down", "raw", "gate.qs", "norm", "up.qs", "down.qs"]);
    assert_eq!(
        (stats.tensors_quantized, stats.tensors_f32, stats.tensors_skipped),
        (3, 2, 1)
    );
    count_shard(&ts, &mut stats);
    assert_eq!((stats.shards_written, stats.bytes_out), (1, 29));
}

#[test]
fn shards_are_numbered_in_five_digits() {
    assert_eq!(shard_name(0, false), "out-00000.safetensors");
    assert_eq!(shard_name(42, true), "mtp-00042.safetensors");
    assert_eq!(shard_name(99_999, false), "out-99999.safetensors");
    assert_eq!(shard_name(123_456, false), "out-123456.safetensors");
}

#[test]
fn samples_are_spread_over_everything() {
    assert_eq!(sample(10, 3), vec![0, 3, 6]);
    assert_eq!(sample(3, 10), vec![0, 1, 2]);
    assert_eq!(sample(0, 10), Vec::<usize>::new());
    assert_eq!(sample(10, 0), Vec::<usize>::new());
    assert_eq!(sample(100, 7).len(), 7);
}

#[test]
fn workers_share_everything() {
    assert_eq!(worker_share(10, 4), 3);
    assert_eq!(worker_share(8, 4), 2);
    assert_eq!(worker_share(3, 20), 1);
    assert_eq!(worker_share(7, 1), 7);
}
