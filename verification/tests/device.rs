//! What runs on the device, and what stays there.

use colibri_engine::gpu::{
    ffn_budget, scan_sizes_fit, set_weight_residency, try_attention_absorb_sparse,
    try_dsa_indexer_scores, try_dsv4_sparse_attn, try_mamba2_scan, try_mamba2_scan_seq,
    try_matmul_f32, try_matmul_qt, weight_ptr, weight_residency, wrap_fresh, zerocopy, DevLayer,
    DeviceKv, ExactExperts, ExactExpertsGuard, GpuCounts, GpuFfnCache, MatmulRoute, ScanLens,
    Store, SyncPlan, Synced, WeightResidency, Work, Wrap,
};
use colibri_engine::group::{
    after_segmented, gather, group_chunks, plan_staging, try_expert_ffn, try_expert_ffn_mxfp4,
    try_expert_ffn_relu2, try_expert_group, try_expert_group_int2_decode,
    try_expert_group_nvfp4, try_expert_group_packed, try_expert_group_relu2, ActiveExpert,
    FfnRoute, GroupChunk, GroupRoute, GroupSwitches, Kernel, PackedPlan, TensorFacts,
};

#[test]
fn weights_stay_within_the_budget() {
    let mut c = GpuFfnCache::new(100);
    for key in 1..=3usize {
        assert!(!c.touch(key));
        let scores: Vec<u64> = c.entries.iter().map(|e| e.last as u64).collect();
        c.make_room(40, &vec![], &scores);
        c.insert(key, 40);
    }
    let keys: Vec<usize> = c.entries.iter().map(|e| e.key).collect();
    assert_eq!(keys, vec![2, 3]);
    assert_eq!(c.ffn_cache_stats(), (2, 80, 1, 100));
    assert!(c.touch(2));
    assert_eq!((c.entries[0].heat, c.entries[0].last), (2, 4));
    assert_eq!(c.entries[1].heat, 1);
}

#[test]
fn needed_weights_are_not_given_up() {
    let mut c = GpuFfnCache::new(100);
    c.insert(1, 60);
    c.insert(2, 60);
    c.insert(3, 60);
    c.evict_to(50, &vec![1, 3], &vec![0, 9, 1]);
    let keys: Vec<usize> = c.entries.iter().map(|e| e.key).collect();
    assert_eq!(keys, vec![1, 3]);
    assert_eq!(c.evictions, 1);
    // equal scores: the one that came first goes first
    c.evict_to(60, &vec![], &vec![5, 5]);
    assert_eq!(c.entries[0].key, 3);
}

#[test]
fn the_device_budget_leaves_a_reserve() {
    assert_eq!(ffn_budget(Some(3), Some(1)), 3 << 30);
    assert_eq!(ffn_budget(None, Some(20 << 30)), 6 << 30);
    assert_eq!(ffn_budget(None, Some(1 << 30)), 0);
    assert_eq!(ffn_budget(None, None), u64::MAX);
}

#[test]
fn weights_are_used_in_place_only_where_that_works() {
    assert!(zerocopy(true, false, true));
    assert!(!zerocopy(true, true, true));
    assert!(!zerocopy(true, false, false));
    assert!(!zerocopy(false, false, true));
    assert_eq!(weight_residency(WeightResidency::ZeroCopy, false), WeightResidency::Upload);
    assert_eq!(weight_residency(WeightResidency::ZeroCopy, true), WeightResidency::ZeroCopy);
    assert_eq!(weight_residency(WeightResidency::Upload, true), WeightResidency::Upload);
}

#[test]
fn exact_scopes_nest() {
    let mut flag = ExactExperts { on: false };
    let outer = ExactExpertsGuard::new(&mut flag, true);
    assert!(flag.exact_experts());
    let inner = ExactExpertsGuard::new(&mut flag, false);
    assert!(!flag.exact_experts());
    inner.leave(&mut flag);
    assert!(flag.exact_experts());
    outer.leave(&mut flag);
    assert!(!flag.exact_experts());
}

#[test]
fn only_what_ran_is_counted() {
    let mut c = GpuCounts::new();
    c.tried(Work::Matmul, true);
    c.tried(Work::Matmul, false);
    c.tried(Work::Ffn, true);
    c.tried(Work::Attn, true);
    c.tried(Work::Attn, true);
    assert_eq!((c.matmul_count(), c.ffn_count(), c.attn_count()), (1, 1, 2));
}

#[test]
fn a_sync_brings_only_what_is_missing() {
    let mut l = DevLayer::new();
    let p = l.sync(0, 5);
    assert_eq!(p, SyncPlan { allocate: true, from: 0, to: 5 });
    l.synced(p, Synced::Brought);
    let p = l.sync(5, 6);
    assert_eq!(p, SyncPlan { allocate: false, from: 5, to: 6 });
    l.synced(p, Synced::Brought);
    // a replay rewrites rows from 3 on
    let p = l.sync(3, 4);
    assert_eq!(p, SyncPlan { allocate: false, from: 3, to: 4 });
    l.synced(p, Synced::NotBrought);
    assert_eq!(l.valid, 3);
    let p = l.sync(9, 2);
    assert_eq!((p.from, p.to), (3, 3));
}

#[test]
fn scans_are_held_to_their_sizes() {
    let lens = |seq: usize| ScanLens {
        state: 4 * 2 * 3,
        y: seq * 8,
        hidden: seq * 8,
        b: seq * 6,
        c: seq * 6,
        dt: seq * 4,
        da: seq * 4,
        d: 4,
    };
    assert!(scan_sizes_fit(lens(1), 4, 2, 3, 2, 1));
    assert!(scan_sizes_fit(lens(5), 4, 2, 3, 2, 5));
    assert!(!scan_sizes_fit(lens(5), 4, 2, 3, 2, 4));
    assert!(!scan_sizes_fit(lens(1), 4, 2, 3, 3, 1));
    assert!(!scan_sizes_fit(lens(1), 4, 2, 3, 0, 1));
    let mut l = lens(1);
    l.d = 5;
    assert!(!scan_sizes_fit(l, 4, 2, 3, 2, 1));
    let huge = ScanLens { state: 0, y: 0, hidden: 0, b: 0, c: 0, dt: 0, da: 0, d: usize::MAX };
    assert!(!scan_sizes_fit(huge, usize::MAX, usize::MAX, 1, 1, 1));
    assert!(try_mamba2_scan(true, lens(1), 4, 2, 3, 2));
    assert!(!try_mamba2_scan(false, lens(1), 4, 2, 3, 2));
    assert!(!try_mamba2_scan(true, lens(2), 4, 2, 3, 2));
    assert!(try_mamba2_scan_seq(true, true, lens(2), 4, 2, 3, 2, 2));
    assert!(!try_mamba2_scan_seq(true, false, lens(2), 4, 2, 3, 2, 2));
    assert!(!try_mamba2_scan_seq(true, true, lens(0), 4, 2, 3, 2, 0));
}

#[test]
fn layers_are_synced_one_by_one() {
    let mut kv = DeviceKv::new(2, 8);
    let p = kv.sync(1, 0, 5);
    assert_eq!(p, SyncPlan { allocate: true, from: 0, to: 5 });
    kv.synced(1, p, Synced::Brought);
    assert_eq!(kv.layers[0], DevLayer { allocated: false, valid: 0 });
    assert_eq!(kv.layers[1], DevLayer { allocated: true, valid: 5 });
    let p = kv.sync(0, 0, 8);
    kv.synced(0, p, Synced::NoMemory);
    assert_eq!(kv.layers[0], DevLayer { allocated: false, valid: 0 });
    let p = kv.sync(1, 5, 6);
    assert_eq!(p, SyncPlan { allocate: false, from: 5, to: 6 });
    kv.synced(1, p, Synced::NotBrought);
    assert_eq!(kv.layers[1].valid, 5);
}

#[test]
fn a_present_device_is_told_of_the_residency() {
    assert_eq!(set_weight_residency(WeightResidency::ZeroCopy, true, true), Some(true));
    assert_eq!(set_weight_residency(WeightResidency::ZeroCopy, true, false), Some(false));
    assert_eq!(set_weight_residency(WeightResidency::Upload, true, true), Some(false));
    assert_eq!(set_weight_residency(WeightResidency::ZeroCopy, false, true), None);
}

#[test]
fn kernels_decline_what_they_cannot_index() {
    assert!(try_dsa_indexer_scores(true, 20, 24, 4, 30, 2, 2, 6, 5));
    assert!(!try_dsa_indexer_scores(true, 9, 24, 4, 30, 2, 2, 6, 5));
    assert!(!try_dsa_indexer_scores(true, 10, 23, 4, 30, 2, 2, 6, 5));
    assert!(!try_dsa_indexer_scores(true, 1000, 1000, 1000, 1000, 1, 33, 1, 1));
    assert!(!try_dsa_indexer_scores(false, 20, 24, 4, 30, 2, 2, 6, 5));
    assert_eq!(try_dsv4_sparse_attn(true, true, 64, 64, 100, 2, 6, 1, 2, 32, 6), Some(3));
    assert_eq!(try_dsv4_sparse_attn(true, false, 64, 64, 100, 2, 6, 1, 2, 32, 6), None);
    assert_eq!(try_dsv4_sparse_attn(true, true, 64, 64, 100, 2, 5, 1, 2, 32, 6), None);
    assert_eq!(try_dsv4_sparse_attn(true, true, 60, 60, 100, 2, 6, 1, 2, 30, 6), None);
    assert_eq!(try_dsv4_sparse_attn(true, true, 64, 64, 31, 2, 6, 1, 2, 32, 6), None);
    assert!(try_attention_absorb_sparse(true, true, 3, 3, 8, 2, 2, 4));
    assert!(!try_attention_absorb_sparse(true, true, 2, 3, 8, 2, 2, 4));
    assert!(!try_attention_absorb_sparse(true, true, 3, 3, 0, 2, 2, 4));
    assert!(!try_attention_absorb_sparse(true, true, 3, 3, 8, 3, 2, 4));
    assert!(!try_attention_absorb_sparse(true, true, 3, 3, 8, 2, 0, 4));
    assert!(!try_attention_absorb_sparse(true, true, 3, 3, 8, usize::MAX, 2, 4));
}

#[test]
fn products_read_the_buffer_of_their_format() {
    let route = |fmt: i32| try_matmul_qt(true, true, fmt);
    assert_eq!(route(0), MatmulRoute::Floats);
    assert_eq!(route(1), MatmulRoute::Bytes);
    assert_eq!(route(2), MatmulRoute::Packed);
    assert_eq!(route(3), MatmulRoute::Packed);
    assert_eq!(route(4), MatmulRoute::Host);
    assert_eq!(route(5), MatmulRoute::Nvfp4);
    assert_eq!(try_matmul_qt(true, false, 1), MatmulRoute::Host);
    assert_eq!(try_matmul_qt(false, true, 1), MatmulRoute::Host);
    assert!(try_matmul_f32(true, 6, 2, 3));
    assert!(!try_matmul_f32(true, 5, 2, 3));
}

fn facts(fmt: i32, o: usize, i: usize) -> TensorFacts {
    TensorFacts { fmt, o, i, eligible: true, scales: o }
}

/// An expert between rows of 4 and an inner width of 6.
fn expert(fmt: i32, bytes: u64, rows: &[usize]) -> ActiveExpert {
    ActiveExpert {
        gate: facts(fmt, 6, 4),
        up: facts(fmt, 6, 4),
        down: facts(fmt, 4, 6),
        bytes,
        rows: rows.to_vec(),
    }
}

#[test]
fn single_experts_take_the_kernel_of_their_format() {
    let f = |fmt: i32, zc: bool, tile: bool| {
        try_expert_ffn(facts(fmt, 6, 4), facts(fmt, 6, 4), facts(fmt, 4, 6), true, zc, tile)
    };
    assert_eq!(f(5, true, false), FfnRoute::InPlace(Kernel::Nvfp4));
    assert_eq!(f(4, true, false), FfnRoute::InPlace(Kernel::Fp8));
    assert_eq!(f(1, true, true), FfnRoute::InPlace(Kernel::Int8Tiled));
    assert_eq!(f(1, true, false), FfnRoute::InPlace(Kernel::Plain));
    assert_eq!(f(3, false, true), FfnRoute::Copied(Kernel::Plain));
    assert_eq!(f(5, false, true), FfnRoute::Host);
    let mut no = facts(4, 6, 4);
    no.eligible = false;
    assert_eq!(try_expert_ffn(no, facts(4, 6, 4), facts(4, 4, 6), true, true, true), FfnRoute::Host);
    assert!(try_expert_ffn_mxfp4(facts(6, 6, 4), facts(6, 6, 4), facts(6, 4, 6), true, true));
    assert!(!try_expert_ffn_mxfp4(facts(6, 6, 4), facts(5, 6, 4), facts(6, 4, 6), true, true));
    assert!(!try_expert_ffn_mxfp4(facts(6, 6, 4), facts(6, 6, 4), facts(6, 4, 6), true, false));
    assert!(try_expert_ffn_relu2(facts(5, 6, 4), facts(5, 4, 6), true, true));
    assert!(!try_expert_ffn_relu2(facts(5, 6, 4), facts(4, 4, 6), true, true));
}

#[test]
fn groups_run_whole_or_not_at_all() {
    let cap = GroupRoute::Chunked { chunk: 64 };
    assert_eq!(try_expert_group(&vec![], true, true), GroupRoute::Nothing);
    assert_eq!(try_expert_group(&vec![expert(4, 1, &[0])], true, true), cap);
    assert_eq!(
        try_expert_group(&vec![expert(4, 1, &[0]), expert(5, 1, &[0])], true, true),
        GroupRoute::Decline
    );
    assert_eq!(try_expert_group(&vec![expert(4, 1, &[0])], true, false), GroupRoute::Decline);
}

#[test]
fn two_projection_groups_follow_their_switches() {
    let cap = GroupRoute::Chunked { chunk: 64 };
    let sw = |prefill: bool, seg: bool, seg_decode: bool| GroupSwitches { prefill, seg, seg_decode };
    let step = vec![expert(5, 1, &[0]), expert(5, 1, &[0])];
    let prompt = vec![expert(5, 1, &[0]), expert(5, 1, &[0, 1])];
    let go = |a: &Vec<ActiveExpert>, s: GroupSwitches| try_expert_group_relu2(a, 4, true, true, s);
    assert_eq!(go(&step, sw(false, false, false)), cap);
    assert_eq!(go(&prompt, sw(false, false, false)), GroupRoute::Decline);
    assert_eq!(go(&prompt, sw(true, false, false)), cap);
    assert_eq!(go(&prompt, sw(false, true, false)), GroupRoute::Segmented);
    assert_eq!(go(&step, sw(false, false, true)), GroupRoute::Segmented);
    assert_eq!(go(&vec![expert(5, 1, &[0])], sw(false, false, true)), cap);
    assert_eq!(go(&vec![expert(4, 1, &[0])], sw(true, true, true)), GroupRoute::Decline);
    assert_eq!(go(&vec![], sw(false, false, false)), GroupRoute::Nothing);
    assert_eq!(after_segmented(true), GroupRoute::Nothing);
    assert_eq!(after_segmented(false), cap);
}

#[test]
fn ternary_groups_share_one_row() {
    let go = |a: &Vec<ActiveExpert>| try_expert_group_int2_decode(a, 4, true, true);
    assert_eq!(go(&vec![expert(3, 1, &[7]), expert(3, 1, &[7])]), Some(7));
    assert_eq!(go(&vec![expert(3, 1, &[7]), expert(3, 1, &[8])]), None);
    assert_eq!(go(&vec![expert(3, 1, &[7, 8])]), None);
    assert_eq!(go(&vec![expert(3, 1, &[])]), None);
    assert_eq!(go(&vec![expert(4, 1, &[7])]), None);
    assert_eq!(go(&vec![]), None);
    let many: Vec<ActiveExpert> = (0..17).map(|_| expert(3, 1, &[7])).collect();
    assert_eq!(go(&many), None);
}

#[test]
fn staging_takes_a_quarter_at_most() {
    let chunk = |c: usize, charge: u64| PackedPlan {
        route: GroupRoute::Chunked { chunk: c },
        charge: Some(charge),
    };
    let decline = PackedPlan { route: GroupRoute::Decline, charge: None };
    assert_eq!(plan_staging(10, 100, None, None), chunk(32, 640));
    assert_eq!(plan_staging(10, 100, Some(0), None), chunk(100, 2000));
    assert_eq!(plan_staging(10, 100, None, Some(400)), chunk(5, 100));
    assert_eq!(plan_staging(10, 100, None, Some(79)), decline);
    assert_eq!(
        plan_staging(0, 100, None, Some(0)),
        PackedPlan { route: GroupRoute::Chunked { chunk: 32 }, charge: None }
    );
    let group = vec![expert(6, 10, &[0]), expert(6, 20, &[1])];
    assert_eq!(
        try_expert_group_packed(&group, 4, 6, true, true, None, Some(400)),
        chunk(2, 80)
    );
    assert_eq!(try_expert_group_packed(&group, 4, 5, true, true, None, Some(400)), decline);
    assert_eq!(try_expert_group_packed(&group, 5, 6, true, true, None, Some(400)), decline);
    assert_eq!(
        try_expert_group_nvfp4(&vec![expert(5, 10, &[0])], 4, true, true, None, None),
        chunk(32, 640)
    );
    assert_eq!(
        try_expert_group_packed(&vec![], 4, 6, true, true, None, None).route,
        GroupRoute::Nothing
    );
}

#[test]
fn rows_are_gathered_expert_by_expert() {
    let group = vec![expert(4, 1, &[2, 0]), expert(4, 1, &[]), expert(4, 1, &[2])];
    let g = gather(&group);
    assert_eq!(g.token_of, vec![2, 0, 2]);
    assert_eq!(g.expert_of, vec![0, 0, 2]);
    assert_eq!(g.slot_of, vec![0, 1, 0]);
    assert_eq!(
        group_chunks(&group, 2),
        vec![
            GroupChunk { first: 0, last: 2, row_off: 0, rows: 2 },
            GroupChunk { first: 2, last: 3, row_off: 2, rows: 1 },
        ]
    );
    assert_eq!(group_chunks(&group, 64).len(), 1);
    assert!(group_chunks(&vec![], 2).is_empty());
}

#[test]
fn block_formats_are_wrapped_with_their_scales() {
    assert_eq!(weight_ptr(0), Store::Floats);
    assert_eq!(weight_ptr(1), Store::Bytes);
    assert_eq!(weight_ptr(3), Store::Packed);
    assert_eq!(wrap_fresh(5), Wrap::Nvfp4);
    assert_eq!(wrap_fresh(6), Wrap::Mxfp4);
    assert_eq!(wrap_fresh(0), Wrap::Scaled(Store::Floats));
    assert_eq!(wrap_fresh(4), Wrap::Scaled(Store::Packed));
}
