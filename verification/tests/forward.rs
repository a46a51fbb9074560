//! The ring, attention residuals, sparse selection and the plans of a forward.

use colibri_engine::attention::{
    attended, attention, attention_keys, attention_with, flatten, split_compressed, AttnCall,
    AttnCore, AttnSetup, DeviceArm,
};
use colibri_engine::attnres::{kimi_forward, AttnResState, Fold, LayerShape, Op};
use colibri_engine::dsa::{is_dense, order_key, select_queries, select_topk};
use colibri_engine::dsv4::{
    block_position, comp_avail, compressed_capacity, dsv4_attention, dsv4_compress_select,
    dsv4_forward, dsv4_forward_chunked, dsv4_index_topk, dsv4_prefill_chunk, loses_context,
    pools_whole_batch, rope_reaches, route_topk, rows_emitted, uses_compressed_rope, visible_keys,
    CompressCall, Indexer, IndexerSetup, IndexerStats, Room, Slice, StreamSetup,
};
use colibri_engine::hc::{mix_index, mix_width, Weight, MAX_HC};
use colibri_engine::layout::{columns, fit_usize, place_columns, repeat_rows};
use colibri_engine::mamba::{
    conv_step, exact_experts_wanted, mamba2_mixer, scan_inputs, scan_route, MambaShape, Scan,
};
use colibri_engine::ring::{dsv4_raw_span, dsv4_ring_for, RawKv};
use colibri_engine::stack::{
    forward, forward_batched, layer_forward, layer_forward_batched, layer_forward_kind, trace_state,
    Arch, Carried, Driver, ForwardSteps, LayerAttn, LayerCall, LayerFfn, LayerKind, LayerPlan, Unsupported,
};

fn dsv4_replay(window: i32, ring: bool, prompt: usize, gen: usize) -> Vec<Vec<Vec<u32>>> {
    const W: usize = 6;
    let mut kv = RawKv::new(W);
    let val = |p: usize, j: usize| ((p * 100 + j) as f32).to_bits();
    let mut seen = Vec::new();
    let mut pos_base = 0usize;
    for s in std::iter::once(prompt).chain(std::iter::repeat(1).take(gen)) {
        let span = if ring {
            dsv4_ring_for(&mut kv, pos_base, s, window)
        } else {
            dsv4_raw_span(pos_base, s, window)
        };
        for i in 0..s {
            let p = pos_base + i;
            kv.write(p, (0..W).map(|j| val(p, j)).collect());
        }
        seen.push(kv.read(span.raw_lo, span.total));
        pos_base = span.total;
    }
    seen
}

#[test]
fn the_ring_does_not_change_the_keys_dsv4_attention_sees() {
    const WINDOW: i32 = 8;
    for prompt in [1usize, 3, 7, 8, 9, 20] {
        let linear = dsv4_replay(WINDOW, false, prompt, 40);
        let ringed = dsv4_replay(WINDOW, true, prompt, 40);
        assert_eq!(linear.len(), ringed.len());
        for (step, (a, b)) in linear.iter().zip(&ringed).enumerate() {
            assert_eq!(a, b, "prompt {prompt}, step {step}: ring changed the key block");
        }
    }
}

#[test]
fn the_ring_stays_window_sized_across_a_long_generation() {
    const WINDOW: i32 = 8;
    let mut kv = RawKv::new(6);
    let mut pos_base = 0usize;
    for s in std::iter::once(4usize).chain(std::iter::repeat(1).take(5_000)) {
        let span = dsv4_ring_for(&mut kv, pos_base, s, WINDOW);
        pos_base = span.total;
    }
    assert_eq!(kv.ring(), WINDOW as usize);
}

#[test]
fn a_prefill_longer_than_the_window_sizes_the_ring_to_the_prompt() {
    let mut kv = RawKv::new(6);
    dsv4_ring_for(&mut kv, 0, 500, 8);
    assert_eq!(kv.ring(), 500, "a from-scratch prefill reads every row it wrote");
    let mut pos_base = 500usize;
    for _ in 0..2_000 {
        let span = dsv4_ring_for(&mut kv, pos_base, 1, 8);
        pos_base = span.total;
    }
    assert_eq!(kv.ring(), 500);
}

#[test]
fn an_attention_call_reads_its_window_back() {
    let mut kv = RawKv::new(1);
    let row = |v: u32| vec![v];
    assert_eq!(kv.attend(&vec![row(0), row(1)], 3), vec![row(0), row(1)]);
    assert_eq!(kv.attend(&vec![row(2)], 3), vec![row(0), row(1), row(2)]);
    assert_eq!(kv.attend(&vec![row(3)], 3), vec![row(1), row(2), row(3)]);
    assert_eq!(kv.attend(&vec![row(4), row(5)], 3), vec![row(2), row(3), row(4), row(5)]);
    assert_eq!(kv.ring(), 4);
    let mut all = RawKv::new(1);
    assert_eq!(all.attend(&vec![row(7)], 0), vec![row(7)]);
    assert_eq!(all.attend(&vec![row(8)], 0), vec![row(7), row(8)]);
    assert_eq!(all.ring(), 0);
}

#[test]
fn spans_open_one_window_back() {
    let s = dsv4_raw_span(10, 3, 4);
    assert_eq!((s.raw_lo, s.total, s.win), (7, 13, 4));
    let s = dsv4_raw_span(2, 3, 4);
    assert_eq!((s.raw_lo, s.total, s.win), (0, 5, 4));
    let s = dsv4_raw_span(10, 3, 0);
    assert_eq!((s.raw_lo, s.total, s.win), (0, 13, 13));
}

fn sums(tags: &[usize], embed: f32, outs: &[f32]) -> f32 {
    tags.iter().map(|&t| if t == 0 { embed } else { outs[t - 1] }).sum()
}

fn run_state(bs: usize, embed: f32, n_layers: usize, outs: &[f32]) -> (Vec<f32>, Vec<Vec<f32>>) {
    let mut st = AttnResState::new(0, bs);
    for li in 0..n_layers {
        st.maybe_snapshot(li);
        st.accumulate(2 * li + 1);
        st.accumulate(2 * li + 2);
    }
    (
        vec![sums(&st.prefix, embed, outs)],
        st.blocks.iter().map(|b| vec![sums(b, embed, outs)]).collect(),
    )
}

#[test]
fn attn_res_state_resets_the_accumulator_at_a_block_boundary() {
    let (prefix, blocks) = run_state(2, 10.0, 3, &[1.0, 2.0, 4.0, 5.0, 6.0, 7.0]);
    assert_eq!(prefix, vec![13.0], "post-boundary output must REPLACE the accumulator");
    assert_eq!(blocks, vec![vec![10.0], vec![12.0]]);
}

#[test]
fn attn_res_state_snapshots_the_state_entering_the_layer() {
    let (_, blocks) = run_state(2, 10.0, 1, &[1.0, 2.0]);
    assert_eq!(blocks, vec![vec![10.0]], "candidate must predate this layer's mixer");
}

#[test]
fn attn_res_state_always_snapshots_at_layer_zero() {
    for bs in 1..=5 {
        let mut st = AttnResState::new(1, bs);
        st.maybe_snapshot(0);
        assert_eq!(st.blocks.len(), 1, "layer 0 must be a boundary at bs={bs}");
    }
}

#[test]
fn attn_res_state_saves_eight_candidates_on_the_real_geometry() {
    let mut st = AttnResState::new(0, 12);
    for li in 0..93 {
        st.maybe_snapshot(li);
        st.accumulate(1);
        st.accumulate(1);
    }
    assert_eq!(st.blocks.len(), 8, "93 layers / block 12 -> boundaries at 0,12,..,84");
}

#[test]
fn a_residual_stack_runs_in_order() {
    let layers = vec![
        LayerShape { linear: true, sparse: false },
        LayerShape { linear: false, sparse: true },
    ];
    assert_eq!(
        kimi_forward(&layers, 2),
        vec![
            Op::MixForMixer(0),
            Op::Save,
            Op::Mixer { layer: 0, linear: true },
            Op::Take(Fold::Replace),
            Op::MixForFfn(0),
            Op::Ffn { layer: 0, sparse: false },
            Op::Take(Fold::Add),
            Op::MixForMixer(1),
            Op::Mixer { layer: 1, linear: false },
            Op::Take(Fold::Add),
            Op::MixForFfn(1),
            Op::Ffn { layer: 1, sparse: true },
            Op::Take(Fold::Add),
            Op::MixForOutput,
        ]
    );
    assert_eq!(kimi_forward(&vec![], 3), vec![Op::MixForOutput]);
}

#[test]
fn v4_prefill_chunks_only_when_the_kv_budget_says_it_must() {
    let row = 43 * (512 + 64) * 4usize;
    let budget = 1usize << 30;
    let window = 128i32;
    let budget_rows = budget / row;
    assert!(budget_rows > 2048, "1 GiB should hold well past a short prompt");
    for s in [1usize, 512, 2048, budget_rows] {
        assert_eq!(dsv4_prefill_chunk(None, row, budget, window, s), usize::MAX);
    }
    for s in [budget_rows + 1, 100_000, 1_000_000] {
        assert_eq!(dsv4_prefill_chunk(None, row, budget, window, s), budget_rows);
    }
    let retained = (budget_rows + window as usize) * row;
    assert!(retained < 2 * budget);
    assert!(1_000_000 * row > 40 * retained);
    assert_eq!(dsv4_prefill_chunk(Some(0), row, budget, window, 1 << 40), usize::MAX);
    assert_eq!(dsv4_prefill_chunk(Some(7), row, budget, window, 3), 7);
    assert_eq!(dsv4_prefill_chunk(None, row, 0, window, 200), 128);
}

#[test]
fn a_split_prefill_covers_every_token() {
    let sl = |off: usize, n: usize| Slice { off, n };
    assert_eq!(dsv4_forward_chunked(10, 4), vec![sl(0, 4), sl(4, 4), sl(8, 2)]);
    assert_eq!(dsv4_forward_chunked(8, 4), vec![sl(0, 4), sl(4, 4)]);
    assert_eq!(dsv4_forward_chunked(3, 4), vec![sl(0, 3)]);
    assert_eq!(dsv4_forward_chunked(2, 0), vec![sl(0, 1), sl(1, 1)]);
    assert_eq!(dsv4_forward_chunked(0, 4), vec![sl(0, 0)]);
}

fn bits(v: &[f32]) -> Vec<u32> {
    v.iter().map(|x| x.to_bits()).collect()
}

#[test]
fn select_dense_when_context_fits() {
    let scores = [0.9, 0.1, 0.5, 0.3];
    let sel = select_topk(&bits(&scores), 8);
    assert_eq!(sel, vec![0, 1, 2, 3], "must select all when nk <= index_topk");
    assert!(is_dense(scores.len(), 8));
    assert!(!is_dense(scores.len(), 2));
}

#[test]
fn select_topk_picks_highest_in_position_order() {
    let scores = [0.9, 0.1, 0.5, 0.3, 0.8];
    assert_eq!(select_topk(&bits(&scores), 3), vec![0, 2, 4]);
}

#[test]
fn select_topk_breaks_ties_by_position() {
    let scores = [0.5, 0.9, 0.5, 0.5];
    let sel = select_topk(&bits(&scores), 2);
    assert_eq!(sel.len(), 2);
    assert_eq!(sel, vec![0, 1]);
}

#[test]
fn select_never_exceeds_keep() {
    let scores = [1.0; 10];
    let sel = select_topk(&bits(&scores), 3);
    assert_eq!(sel, vec![0, 1, 2]);
}

#[test]
fn scores_are_ordered_by_value() {
    let v = [-f32::INFINITY, -3.5, -1e-40, -0.0, 1e-40, 0.25, 7.0, f32::INFINITY];
    for w in v.windows(2) {
        assert!(order_key(w[0].to_bits()) < order_key(w[1].to_bits()), "{w:?}");
    }
    assert_eq!(order_key(0.0f32.to_bits()), order_key((-0.0f32).to_bits()));
    assert_eq!(select_topk(&bits(&[-1.0, -2.0, -0.5]), 2), vec![0, 2]);
}

#[test]
fn queries_select_once_they_see_enough() {
    let scores = vec![vec![], vec![], bits(&[0.1, 0.3, 0.2])];
    assert_eq!(select_queries(&scores, 0, 2), vec![vec![], vec![], vec![1, 2]]);
}

const LOGITS: [f32; 8] = [
    0.3722732796, 0.6776740599, 0.7471270662, -1.9457971765, -1.9263764611, -0.5957540694,
    -0.0818209988, 0.0474545494,
];

const BIAS: [f32; 8] = [
    0.1068040283, -1.5889774618, -0.7203883114, -0.7264079265, -1.1121013328, 1.0046830206,
    -0.2700934939, -0.2553420573,
];

const WANT_SCORES: [f32; 8] = [
    0.9468411301, 1.0432274548, 1.0653265557, 0.3654387977, 0.3687737417, 0.6625666248,
    0.808129496, 0.8468505893,
];

fn sqrt_softplus(z: f32) -> f32 {
    (z.max(0.0) + (-z.abs()).exp().ln_1p()).sqrt()
}

/// The routed experts and their weights: the selection is by biased scores, the
/// weights are the scores themselves, scaled to a given sum.
fn routed(topk: usize, scale: f32) -> Vec<(usize, f32)> {
    let scores: Vec<f32> = LOGITS.iter().map(|&z| sqrt_softplus(z)).collect();
    let biased: Vec<f32> = scores.iter().zip(&BIAS).map(|(a, b)| a + b).collect();
    let sel = route_topk(&bits(&biased), topk);
    let sum: f32 = sel.iter().map(|&e| scores[e]).sum();
    sel.iter().map(|&e| (e, scores[e] / sum * scale)).collect()
}

#[test]
fn router_matches_the_reference() {
    for (z, w) in LOGITS.iter().zip(WANT_SCORES.iter()) {
        assert!((sqrt_softplus(*z) - w).abs() < 1e-6, "sqrt_softplus({z}) want {w}");
    }
    let out = routed(3, 1.5);
    let idx: Vec<usize> = out.iter().map(|&(e, _)| e).collect();
    assert_eq!(idx, vec![0, 5, 7], "selection must follow the BIASED scores");
    let want_w = [0.5782216266f32, 0.404619465, 0.5171589084];
    for ((_, g), w) in out.iter().zip(want_w.iter()) {
        assert!((g - w).abs() < 1e-5, "weight {g} want {w}");
    }
    assert_eq!(route_topk(&bits(&WANT_SCORES), 3), vec![0, 1, 2]);
}

#[test]
fn bias_moves_selection_but_not_weights() {
    let out = routed(3, 1.5);
    let w5 = out.iter().find(|&&(e, _)| e == 5).unwrap().1;
    let w0 = out.iter().find(|&&(e, _)| e == 0).unwrap().1;
    let w7 = out.iter().find(|&&(e, _)| e == 7).unwrap().1;
    assert!(w5 < w0 && w5 < w7, "expert 5 must carry the SMALLEST weight of the three");
    let s: f32 = out.iter().map(|&(_, w)| w).sum();
    assert!((s - 1.5).abs() < 1e-5, "weights sum to {s}, want route_scale 1.5");
}

fn active(rows: usize) -> IndexerSetup {
    IndexerSetup {
        enabled: true,
        ratio: 4,
        has_query_weights: true,
        has_compressor: true,
        ready: true,
        rows,
    }
}

#[test]
fn the_indexer_prunes_past_its_limit() {
    let call = CompressCall { setup: active(5), n_comp: 5, pos_base: 18, topk: 2 };
    let mut stats = IndexerStats::new();
    // position 18 sees 4 closed rows, position 19 sees 5
    let scores = vec![bits(&[0.1, 0.9, 0.5, 0.2]), bits(&[0.1, 0.2, 0.3, 0.4, 0.5])];
    let out = dsv4_compress_select(call, 2, &scores, &mut stats);
    assert_eq!(out, vec![vec![1, 2], vec![3, 4]]);
    assert_eq!(stats.dsv4_indexer_stats(), (2, 9, 4));
    assert_eq!(stats.dsv4_indexer_skips(), (0, 0));
}

#[test]
fn the_indexer_keeps_everything_below_its_limit() {
    let call = CompressCall { setup: active(5), n_comp: 5, pos_base: 18, topk: 8 };
    let mut stats = IndexerStats::new();
    let none = vec![vec![], vec![]];
    let with = dsv4_compress_select(call, 2, &none, &mut stats);
    assert_eq!(with, vec![vec![0, 1, 2, 3], vec![0, 1, 2, 3, 4]]);
    assert_eq!(stats.dsv4_indexer_skips(), (2, 5));
    assert_eq!(stats.dsv4_indexer_stats(), (0, 0, 0));
    let off = CompressCall { setup: IndexerSetup { enabled: false, ..call.setup }, ..call };
    assert_eq!(dsv4_compress_select(off, 2, &none, &mut stats), with);
    let early = CompressCall { pos_base: 0, ..call };
    assert_eq!(dsv4_compress_select(early, 2, &none, &mut stats), vec![Vec::<usize>::new(), vec![]]);
}

#[test]
fn an_idle_indexer_says_why() {
    let s = active(1);
    assert_eq!(s.status(), Indexer::Active);
    assert!(!s.is_fault());
    assert_eq!(IndexerSetup { enabled: false, ..s }.status(), Indexer::Off);
    assert_eq!(IndexerSetup { ratio: 0, ..s }.status(), Indexer::Off);
    assert_eq!(IndexerSetup { has_query_weights: false, ..s }.status(), Indexer::NoWeights);
    assert_eq!(IndexerSetup { has_compressor: false, ..s }.status(), Indexer::NoCompressor);
    assert_eq!(IndexerSetup { ready: false, ..s }.status(), Indexer::NotReady);
    assert_eq!(IndexerSetup { rows: 0, ..s }.status(), Indexer::NoRows);
    assert!(IndexerSetup { ready: false, ..s }.is_fault());
    assert!(!IndexerSetup { ready: false, ratio: 128, ..s }.is_fault());
}

#[test]
fn compressed_rows_close_with_their_last_token() {
    assert_eq!(comp_avail(2, 4, 9), 0);
    assert_eq!(comp_avail(3, 4, 9), 1);
    assert_eq!(comp_avail(100, 4, 9), 9);
    assert_eq!(comp_avail(100, 0, 9), 0);
    assert_eq!(block_position(3, 2, 4), 20);
    assert_eq!(visible_keys(5, 3, 2, 4, &vec![0, 7]), vec![1, 2, 3, 4, 11]);
    assert_eq!(visible_keys(1, 8, 0, 2, &vec![]), vec![0, 1]);
}

#[test]
fn compression_is_sized_by_the_smallest_ratio() {
    assert_eq!(compressed_capacity(&vec![0, 128, 4, 0], 1000), 252);
    assert_eq!(compressed_capacity(&vec![128], 1280), 12);
    assert_eq!(compressed_capacity(&vec![0, -1], 40), 12);
    assert!(uses_compressed_rope(&vec![0, 4], 1));
    assert!(!uses_compressed_rope(&vec![0, 4], 0));
    assert!(!uses_compressed_rope(&vec![0, 4], 2));
    assert!(loses_context(128, 129, false));
    assert!(!loses_context(128, 128, false));
    assert!(!loses_context(128, 129, true));
    assert!(!loses_context(0, 129, false));
    assert_eq!(dsv4_index_topk(None, 512), 512);
    assert_eq!(dsv4_index_topk(None, -1), 0);
    assert_eq!(dsv4_index_topk(Some(3), 512), 3);
}

#[test]
fn each_query_attends_to_its_window_and_its_selection() {
    let row = |v: usize| vec![v as u32];
    let comp = || vec![row(1000), row(1001), row(1002)];
    let mut kv = RawKv::new(1);
    let mut pos = 0usize;
    for s in [5usize, 1, 1, 3, 1] {
        let rows: Vec<Vec<u32>> = (pos..pos + s).map(row).collect();
        let sel: Vec<Vec<usize>> = (0..s).map(|i| if i % 2 == 0 { vec![0, 2] } else { vec![] }).collect();
        let keys = dsv4_attention(&mut kv, &rows, 3, comp(), &sel);
        for i in 0..s {
            let p = pos + i;
            let got: Vec<u32> = keys.seen[i].iter().map(|&k| keys.rows[k][0]).collect();
            let mut want: Vec<u32> = ((p + 1).saturating_sub(3)..p + 1).map(|v| v as u32).collect();
            if i % 2 == 0 {
                want.extend([1000, 1002]);
            }
            assert_eq!(got, want, "position {p}");
        }
        pos += s;
    }
}

#[test]
fn a_call_without_tokens_leaves_the_rows_alone() {
    let mut kv = RawKv::new(1);
    assert!(dsv4_attention(&mut kv, &vec![], 3, vec![], &vec![]).seen.is_empty());
    assert_eq!(kv.hi(), 0);
    let rows: Vec<Vec<u32>> = (0..5).map(|p| vec![p]).collect();
    let none: Vec<Vec<usize>> = vec![vec![]; 5];
    dsv4_attention(&mut kv, &rows, 3, vec![], &none);
    let keys = dsv4_attention(&mut kv, &vec![], 3, vec![], &vec![]);
    assert!(keys.seen.is_empty());
    assert_eq!(keys.rows, vec![vec![3], vec![4]]);
    assert_eq!(kv.hi(), 5);
    let next = dsv4_attention(&mut kv, &vec![vec![5]], 3, vec![], &vec![vec![]]);
    assert_eq!(next.rows, vec![vec![3], vec![4], vec![5]]);
}

#[test]
fn a_forward_over_streams_is_planned() {
    let setup = StreamSetup {
        window: 8,
        compress: true,
        indexer: true,
        index_hd: 64,
        max_ctx: 1000,
        ready: false,
    };
    let p = dsv4_forward(setup, &vec![0, 4, 128], 4, 10, 2);
    assert!(!p.loses_context);
    assert_eq!(p.rope_rows, 12);
    assert_eq!(p.room, Some(Room { compressed: 252, indexed: Some(252) }));
    assert_eq!(p.compressed_rope, vec![false, true, true, false]);
    let off = StreamSetup { compress: false, ..setup };
    let p = dsv4_forward(off, &vec![], 1, 0, 0);
    assert!(!p.loses_context);
    assert_eq!((p.room, p.rope_rows), (None, 1));
    assert!(dsv4_forward(off, &vec![], 1, 8, 1).loses_context);
    assert_eq!(dsv4_forward(StreamSetup { ready: true, ..setup }, &vec![4], 1, 0, 1).room, None);
    let plain = StreamSetup { index_hd: 0, ..setup };
    assert_eq!(
        dsv4_forward(plain, &vec![128], 1, 0, 1).room,
        Some(Room { compressed: 9, indexed: None })
    );
}

fn setup() -> AttnSetup {
    AttnSetup {
        has_indexer: true,
        full_indexer: true,
        index_topk: 4,
        dsa_enabled: true,
        force_cpu: false,
        available: true,
        eligible: true,
    }
}

fn call(s_len: usize, pos_base: usize) -> AttnCall {
    AttnCall { core: AttnCore::Reconstruct, s_len, pos_base, st0: 0, selection_given: false }
}

#[test]
fn sparse_attention_fires_on_long_prompts_alone() {
    let p = attention_with(call(5, 0), setup());
    assert!(p.runs_indexer && p.sparse);
    assert_eq!(p.arm, DeviceArm::Sparse);
    assert!(!attention_with(call(4, 0), setup()).runs_indexer);
    assert!(!attention_with(call(1, 9), setup()).runs_indexer);
    assert!(!attention_with(call(5, 0), AttnSetup { full_indexer: false, ..setup() }).runs_indexer);
    assert!(!attention_with(call(5, 0), AttnSetup { dsa_enabled: false, ..setup() }).runs_indexer);
    let given = AttnCall { selection_given: true, ..call(5, 0) };
    let p = attention_with(given, setup());
    assert!(!p.runs_indexer && p.sparse);
    assert_eq!(attention(4, 0, 0, setup()).arm, DeviceArm::Batch);
}

#[test]
fn the_device_arm_follows_the_call() {
    assert_eq!(attention_with(call(1, 9), setup()).arm, DeviceArm::DeviceKv);
    assert_eq!(attention_with(call(3, 9), setup()).arm, DeviceArm::Batch);
    assert_eq!(attention_with(AttnCall { st0: 2, ..call(1, 9) }, setup()).arm, DeviceArm::Batch);
    let off = AttnSetup { available: false, ..setup() };
    assert_eq!(attention_with(call(1, 9), off).arm, DeviceArm::Host);
    let cpu = AttnSetup { force_cpu: true, ..setup() };
    assert_eq!(attention_with(call(5, 0), cpu).arm, DeviceArm::Host);
    let absorb = AttnCall { core: AttnCore::Absorb, selection_given: true, ..call(1, 9) };
    let p = attention_with(absorb, setup());
    assert_eq!((p.arm, p.fallback), (DeviceArm::Host, AttnCore::Absorb));
}

#[test]
fn selecting_all_positions_is_dense() {
    assert_eq!(attended(&vec![], 5, 2), vec![0, 1, 2, 3]);
    assert_eq!(attended(&vec![2, 3, 4, 5], 5, 2), attended(&vec![], 5, 2));
    assert_eq!(attended(&vec![3, 5], 5, 2), vec![1, 3]);
}

#[test]
fn selections_are_laid_out_in_rows() {
    let (idx, cnt) = flatten(&vec![vec![4, 5, 6], vec![], vec![1]], 2);
    assert_eq!(idx, vec![4, 5, 0, 0, 1, 0]);
    assert_eq!(cnt, vec![2, 0, 1]);
}

fn layer(arch: Arch) -> LayerCall {
    LayerCall {
        arch,
        kind: None,
        listed: LayerKind::Mamba,
        full_indexer: true,
        sparse: true,
        n_shared: 1,
        s: 4,
        pos_base: 0,
        tp_enabled: true,
        nodes: 2,
    }
}

#[test]
fn layers_are_planned_by_their_stack() {
    assert_eq!(
        layer_forward_kind(layer(Arch::Mla)),
        Ok(LayerPlan::Block {
            attn: LayerAttn::Mla { reuse: false, keep: true, sharded: true },
            ffn: LayerFfn::Moe { shared: true },
        })
    );
    let later = LayerCall { pos_base: 4, full_indexer: false, sparse: false, ..layer(Arch::Mla) };
    assert_eq!(
        layer_forward_kind(later),
        Ok(LayerPlan::Block {
            attn: LayerAttn::Mla { reuse: true, keep: false, sharded: false },
            ffn: LayerFfn::Dense,
        })
    );
    assert_eq!(
        layer_forward_kind(LayerCall { n_shared: 0, ..layer(Arch::Gqa) }),
        Ok(LayerPlan::Block { attn: LayerAttn::Gqa, ffn: LayerFfn::Moe { shared: false } })
    );
    assert_eq!(
        layer_forward_kind(layer(Arch::NemotronH)),
        Ok(LayerPlan::Single(LayerKind::Mamba))
    );
    let head = LayerCall { kind: Some(LayerKind::Moe), ..layer(Arch::NemotronH) };
    assert_eq!(layer_forward_kind(head), Ok(LayerPlan::Single(LayerKind::Moe)));
    let kda = LayerCall { kind: Some(LayerKind::Kda), ..layer(Arch::NemotronH) };
    assert_eq!(layer_forward_kind(kda), Err(Unsupported::WrongMixer));
    assert_eq!(layer_forward(head), layer_forward_kind(layer(Arch::NemotronH)));
    assert_eq!(layer_forward_kind(layer(Arch::KimiK3)), Err(Unsupported::NoSingleLayer));
}

#[test]
fn sequences_of_a_batch_step_alone() {
    let p = layer_forward_batched(Arch::Mla, true, 0, &vec![7, 0, 12], &vec![0, 0, 3]);
    assert_eq!(p.attn, vec![call(1, 7), call(1, 0), AttnCall { st0: 3, ..call(1, 12) }]);
    assert_eq!((p.gqa, p.ffn, p.rows), (false, LayerFfn::Moe { shared: false }, 3));
    let p = layer_forward_batched(Arch::Gqa, false, 1, &vec![], &vec![]);
    assert_eq!((p.gqa, p.ffn, p.rows), (true, LayerFfn::Dense, 0));
}

#[test]
fn stacks_have_their_drivers() {
    assert_eq!(forward(Arch::KimiK3, 0, 5, 64), Driver::Residuals);
    assert_eq!(forward(Arch::DeepseekV4, 4, 5, 64), Driver::Streams);
    assert_eq!(forward(Arch::DeepseekV4, 0, 5, 64), Driver::Layers { exact_experts: true });
    assert_eq!(forward(Arch::Mla, 0, 1, 64), Driver::Layers { exact_experts: false });
    assert_eq!(forward(Arch::Mla, 0, 65, 64), Driver::Layers { exact_experts: false });
    assert_eq!(forward_batched(Arch::NemotronH, 3), Err(Unsupported::HybridBatch(Arch::NemotronH)));
    assert!(forward_batched(Arch::Mla, 0).is_ok());
    let mut steps = ForwardSteps::new();
    steps.advance();
    steps.advance();
    assert_eq!(steps.current_step(), 2);
}

#[test]
fn shared_layers_reuse_the_nearest_selection() {
    let mut c = Carried::new();
    assert_eq!(c.reused(false), None);
    c.after_layer(true, Some(vec![vec![1, 2]]));
    assert_eq!(c.reused(true), None);
    assert_eq!(c.reused(false), Some(&vec![vec![1, 2]]));
    c.after_layer(false, Some(vec![vec![9]]));
    assert_eq!(c.reused(false), Some(&vec![vec![1, 2]]));
    c.after_layer(true, None);
    assert_eq!(c.reused(false), None);
}

#[test]
fn states_are_hashed_bit_for_bit() {
    assert_eq!(trace_state(&vec![]), 0xcbf29ce484222325);
    let fnv = |bytes: &[u8]| {
        bytes.iter().fold(0xcbf29ce484222325u64, |h, &b| {
            (h ^ b as u64).wrapping_mul(0x100000001b3)
        })
    };
    let v = [1.5f32, -0.0, 3.25];
    let bytes: Vec<u8> = v.iter().flat_map(|x| x.to_le_bytes()).collect();
    assert_eq!(trace_state(&bits(&v)), fnv(&bytes));
    assert_ne!(trace_state(&bits(&[0.0])), trace_state(&bits(&[-0.0])));
}

#[test]
fn a_mixer_splits_its_projection() {
    let shape = MambaShape { n_heads: 2, head_dim: 1, d_state: 1, n_groups: 1, d_inner: 2, d_conv: 3 };
    // rows of 2 gating values, 2 + 1 + 1 convolved ones, 2 steps
    let proj: Vec<u32> = (0..16).collect();
    let (gate, hbc, dt) = shape.split_projection(&proj, 2);
    assert_eq!(gate, vec![0, 1, 8, 9]);
    assert_eq!(hbc, vec![2, 3, 4, 5, 10, 11, 12, 13]);
    assert_eq!(dt, vec![6, 7, 14, 15]);
    let (h, b, c) = shape.split_convolved(&hbc, 2);
    assert_eq!((h, b, c), (vec![2, 3, 10, 11], vec![4, 12], vec![5, 13]));
}

#[test]
fn a_mixer_call_is_laid_out() {
    let shape = MambaShape { n_heads: 1, head_dim: 1, d_state: 1, n_groups: 1, d_inner: 1, d_conv: 2 };
    // rows of one gating value, 1 + 1 + 1 convolved ones, one step
    let proj: Vec<u32> = (10..20).collect();
    let mut state: Vec<u32> = vec![1, 2, 3, 4, 5, 6];
    let m = mamba2_mixer(shape, &mut state, &proj, 2, true, true, true, 64);
    assert_eq!((m.gate, m.dt), (vec![10, 15], vec![14, 19]));
    assert_eq!(m.aug, vec![4, 5, 6, 11, 12, 13, 16, 17, 18]);
    assert_eq!(state, vec![11, 12, 13, 16, 17, 18]);
    assert_eq!((m.from, m.scan), (1, Scan::Sequence { exact: true }));
    let own: Vec<u32> = m.aug[3..].to_vec();
    let skipped = scan_inputs(shape, &own, 1, 2);
    assert_eq!(skipped, (vec![11, 16], vec![12, 17], vec![13, 18]));
    assert_eq!(scan_inputs(shape, &m.aug, 0, 2), skipped);
    let m = mamba2_mixer(shape, &mut state, &proj[..5].to_vec(), 1, false, false, true, 64);
    assert_eq!((m.from, m.scan), (0, Scan::Host));
}

#[test]
fn a_convolution_sees_the_same_rows_whole_or_split() {
    let (kk, cd) = (3usize, 2usize);
    let x: Vec<u32> = (10..22).collect();
    let mut whole = vec![0u32; kk * cd];
    let aug = conv_step(&mut whole, &x, 6, kk, cd);
    let mut parts = vec![0u32; kk * cd];
    let mut seen = Vec::new();
    for (a, b) in [(0usize, 1usize), (1, 4), (4, 6)] {
        let chunk = x[a * cd..b * cd].to_vec();
        let aug = conv_step(&mut parts, &chunk, b - a, kk, cd);
        for t in 0..b - a {
            seen.push(aug[t * cd..(t + kk) * cd].to_vec());
        }
    }
    for (t, w) in seen.iter().enumerate() {
        assert_eq!(*w, aug[t * cd..(t + kk) * cd]);
    }
    assert_eq!(parts, whole);
    assert_eq!(whole, (16..22).collect::<Vec<u32>>());
}

#[test]
fn scans_run_where_they_can() {
    assert_eq!(scan_route(true, true, 1, 64), Scan::Step);
    assert_eq!(scan_route(true, true, 64, 64), Scan::Sequence { exact: true });
    assert_eq!(scan_route(true, true, 65, 64), Scan::Sequence { exact: false });
    assert_eq!(scan_route(false, true, 1, 64), Scan::Host);
    assert_eq!(scan_route(true, false, 9, 64), Scan::Host);
    assert!(exact_experts_wanted(2, 64));
    assert!(!exact_experts_wanted(1, 64));
}

#[test]
fn columns_come_and_go() {
    let buf: Vec<u32> = (0..12).collect();
    assert_eq!(columns(&buf, 3, 4, 1, 2), vec![1, 2, 5, 6, 9, 10]);
    let mut dst = vec![0u32; 12];
    place_columns(&mut dst, &vec![1, 2, 5, 6, 9, 10], 3, 4, 1, 2);
    assert_eq!(dst, vec![0, 1, 2, 0, 0, 5, 6, 0, 0, 9, 10, 0]);
    assert_eq!(repeat_rows(&vec![1, 2, 3, 4], 2, 2, 3), vec![1, 2, 1, 2, 1, 2, 3, 4, 3, 4, 3, 4]);
    let mut v = vec![7usize, 8];
    fit_usize(&mut v, 4);
    assert_eq!(v, vec![7, 8, 0, 0]);
    fit_usize(&mut v, 1);
    assert_eq!(v.len(), 4);
}

#[test]
fn mixing_weights_have_their_places() {
    assert_eq!(mix_width(4), 24);
    assert_eq!(MAX_HC, 8);
    assert_eq!(mix_index(4, Weight::Pre(3)), 3);
    assert_eq!(mix_index(4, Weight::Post(0)), 4);
    assert_eq!(mix_index(4, Weight::Comb(1, 2)), 14);
    assert_eq!(mix_index(4, Weight::Comb(3, 3)), 23);
}

fn descending(n: usize) -> Vec<u32> {
    (0..n).map(|t| (-(t as f32)).to_bits()).collect()
}

#[test]
fn a_long_prompt_attends_to_the_best_scored_keys() {
    let scores: Vec<Vec<u32>> = (0..6).map(|s| descending(s + 1)).collect();
    let k = attention_keys(call(6, 0), setup(), None, &scores);
    assert_eq!(k.seen[3], vec![0, 1, 2, 3]);
    assert_eq!(k.seen[5], vec![0, 1, 2, 3]);
    let handed = k.handed_back.clone().unwrap();
    assert!(handed[3].is_empty());
    assert_eq!(handed[4], vec![0, 1, 2, 3]);

    // a layer without an indexer of its own uses the selection again
    let reuse = AttnCall { selection_given: true, ..call(6, 0) };
    let shared = AttnSetup { full_indexer: false, ..setup() };
    let again = attention_keys(reuse, shared, Some(handed), &vec![]);
    assert_eq!(again.seen, k.seen);
    assert!(again.handed_back.is_none());
}

#[test]
fn the_absorbing_core_ignores_a_selection() {
    let given = AttnCall { selection_given: true, core: AttnCore::Absorb, ..call(1, 5) };
    let k = attention_keys(given, setup(), Some(vec![]), &vec![]);
    assert_eq!(k.seen, vec![vec![0, 1, 2, 3, 4, 5]]);
    assert!(k.handed_back.is_none());
}

#[test]
fn a_step_sees_what_the_prompt_saw() {
    let dense = AttnSetup { dsa_enabled: false, ..setup() };
    let prompt = attention_keys(call(6, 0), dense, None, &vec![]);
    for p in 0..6 {
        let step = attention_keys(call(1, p), dense, None, &vec![]);
        assert_eq!(step.seen[0], prompt.seen[p]);
        assert_eq!(step.seen[0], (0..=p).collect::<Vec<usize>>());
    }
    let absorb = AttnCall { core: AttnCore::Absorb, selection_given: true, ..call(1, 3) };
    let all = attention_keys(absorb, dense, Some(vec![vec![1]]), &vec![]);
    assert_eq!(all.seen[0], vec![0, 1, 2, 3]);
}

#[test]
fn compressed_rows_split_into_latent_and_rope() {
    let (latent, rope) = split_compressed(&vec![1, 2, 3, 4, 5, 6], 2, 2, 1);
    assert_eq!(latent, vec![1, 2, 4, 5]);
    assert_eq!(rope, vec![3, 6]);
}

#[test]
fn rows_behind_the_table_are_not_rotated() {
    assert!(rope_reaches(3, 2, 8));
    assert!(!rope_reaches(3, 2, 7));
    assert!(!rope_reaches(usize::MAX, usize::MAX, usize::MAX));
}

#[test]
fn calls_emit_the_rows_of_one_call() {
    assert!(pools_whole_batch(0));
    assert!(!pools_whole_batch(1));
    assert_eq!(rows_emitted(0, 11, 4), 2);
    assert_eq!(rows_emitted(7, 1, 4), 1);
    assert_eq!(rows_emitted(6, 1, 4), 0);
    assert_eq!(rows_emitted(0, 100, 0), 0);
    for ratio in [1, 4, 128] {
        for chunk in [1, 3, 7, 64, 1000] {
            let calls = dsv4_forward_chunked(513, chunk);
            let rows: usize = calls.iter().map(|c| rows_emitted(5 + c.off, c.n, ratio)).sum();
            assert_eq!(rows, rows_emitted(5, 513, ratio));
        }
    }
}
