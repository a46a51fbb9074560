//! Fetching experts in bands.

use colibri_engine::chunk::{
    chunk_bytes, matrix_weight_bytes, plan_expert_chunks, plan_matrix_chunks, row_bytes, ChunkDesc,
    ChunkError, ChunkSource, ExpertMatrix, LocalChunkSource, DEFAULT_CHUNK_BYTES,
};
use colibri_engine::expert::{Expert, QTensor};

fn qt(fmt: i32, o: usize, i: usize) -> QTensor {
    let rb = row_bytes(fmt, i);
    let bytes: Vec<u8> = (0..o * rb).map(|k| (k % 251) as u8).collect();
    QTensor {
        fmt_code: fmt,
        o,
        i,
        qf: vec![],
        q8: vec![],
        q4: bytes,
        bs: vec![],
        s: vec![1.0f32.to_bits(); o],
        g: 0,
        gpu_eligible: false,
    }
}

fn mk_expert() -> Expert {
    Expert { gate: qt(4, 8, 16), up: qt(4, 8, 16), down: qt(4, 16, 8) }
}

#[test]
fn chunks_tile_the_matrix_exactly() {
    let cs = plan_matrix_chunks(0, 0, ExpertMatrix::Gate, 8, 16, 4, 32);
    assert_eq!(cs.len(), 4);
    let (mut off, mut rows) = (0usize, 0usize);
    for c in &cs {
        assert_eq!(c.byte_off, off);
        assert_eq!(c.byte_len, c.o_count * 16);
        off += c.byte_len;
        rows += c.o_count;
    }
    assert_eq!((rows, off), (8, 8 * 16));
}

#[test]
fn last_band_is_the_remainder() {
    let cs = plan_matrix_chunks(0, 0, ExpertMatrix::Gate, 8, 16, 4, 48);
    let counts: Vec<usize> = cs.iter().map(|c| c.o_count).collect();
    assert_eq!(counts, vec![3, 3, 2]);
}

#[test]
fn tiny_target_still_makes_one_row_bands_not_zero() {
    let cs = plan_matrix_chunks(0, 0, ExpertMatrix::Down, 4, 8, 4, 1);
    assert_eq!(cs.len(), 4);
    assert!(cs.iter().all(|c| c.o_count == 1));
}

#[test]
fn local_fetch_reassembles_each_matrix() {
    let ex = mk_expert();
    let descs = plan_expert_chunks(0, 5, &ex, 32);
    let src = LocalChunkSource { expert: &ex };
    for m in [ExpertMatrix::Gate, ExpertMatrix::Up, ExpertMatrix::Down] {
        let orig = matrix_weight_bytes(&ex, m).unwrap().to_vec();
        let mut re = vec![0u8; orig.len()];
        for d in descs.iter().filter(|d| d.matrix == m) {
            let mut buf = vec![0u8; d.byte_len];
            src.fetch_into(d, &mut buf).unwrap();
            re[d.byte_off..d.byte_off + d.byte_len].copy_from_slice(&buf);
        }
        assert_eq!(re, orig, "{m:?} reassembly mismatch");
    }
}

#[test]
fn fetch_rejects_out_of_range() {
    let ex = mk_expert();
    let bad = ChunkDesc {
        layer: 0,
        eid: 0,
        matrix: ExpertMatrix::Gate,
        o_start: 0,
        o_count: 1,
        byte_off: 10_000,
        byte_len: 16,
    };
    let mut buf = vec![0u8; 16];
    assert!(LocalChunkSource { expert: &ex }.fetch_into(&bad, &mut buf).is_err());
    assert_eq!(
        LocalChunkSource { expert: &ex }.fetch_into(&bad, &mut buf),
        Err(ChunkError::OutOfRange)
    );
    let short = ChunkDesc { byte_off: 0, byte_len: 15, ..bad };
    assert_eq!(
        LocalChunkSource { expert: &ex }.fetch_into(&short, &mut buf),
        Err(ChunkError::OutOfRange)
    );
    assert_eq!(buf, vec![0u8; 16]);
}

#[test]
fn formats_that_are_not_streamed_are_refused() {
    let ex = Expert { gate: qt(1, 2, 4), up: qt(4, 2, 4), down: qt(3, 2, 4) };
    assert_eq!(matrix_weight_bytes(&ex, ExpertMatrix::Gate), Err(ChunkError::Unsupported(1)));
    assert!(matrix_weight_bytes(&ex, ExpertMatrix::Up).is_ok());
    assert!(matrix_weight_bytes(&ex, ExpertMatrix::Down).is_ok());
    let d = ChunkDesc {
        layer: 0,
        eid: 0,
        matrix: ExpertMatrix::Gate,
        o_start: 0,
        o_count: 1,
        byte_off: 0,
        byte_len: 4,
    };
    let mut buf = vec![0u8; 4];
    assert_eq!(
        LocalChunkSource { expert: &ex }.fetch_into(&d, &mut buf),
        Err(ChunkError::Unsupported(1))
    );
}

#[test]
fn rows_have_their_bytes() {
    assert_eq!(row_bytes(0, 5), 20);
    assert_eq!(row_bytes(1, 5), 5);
    assert_eq!(row_bytes(4, 5), 5);
    assert_eq!(row_bytes(3, 5), 2);
    assert_eq!(row_bytes(3, 8), 2);
    assert_eq!(row_bytes(5, 8), 0);
    assert!(plan_matrix_chunks(0, 0, ExpertMatrix::Up, 8, 16, 5, 32).is_empty());
    assert!(plan_matrix_chunks(0, 0, ExpertMatrix::Up, 0, 16, 4, 32).is_empty());
}

#[test]
fn bands_are_never_configured_too_small() {
    assert_eq!(chunk_bytes(None), DEFAULT_CHUNK_BYTES);
    assert_eq!(chunk_bytes(Some(1)), 64 << 10);
    assert_eq!(chunk_bytes(Some(1 << 20)), 1 << 20);
}

struct Lost;

impl ChunkSource for Lost {
    fn fetch_into(&self, _d: &ChunkDesc, _dst: &mut Vec<u8>) -> Result<(), ChunkError> {
        Err(ChunkError::Transport)
    }
}

#[test]
fn a_remote_source_may_fail() {
    let d = ChunkDesc {
        layer: 0,
        eid: 0,
        matrix: ExpertMatrix::Up,
        o_start: 0,
        o_count: 1,
        byte_off: 0,
        byte_len: 1,
    };
    assert_eq!(Lost.fetch_into(&d, &mut vec![0]), Err(ChunkError::Transport));
}
