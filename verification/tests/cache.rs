//! The expert cache, its guard and its predictor.

use std::cell::Cell;
use std::sync::Arc;

use colibri_engine::cache::{load_missing, Ahead, ExpertCache};
use colibri_engine::capacity;
use colibri_engine::expert::{Expert, ExpertProvider, LoadError, QTensor};
use colibri_engine::guard::{
    braking_floor, cap_margin, recover_cap, supported_cap, Guard, Reading, Verdict,
    CAP_RECOVER_PER_TICK, FLOOR_MIN, MAX_BRAKE,
};
use colibri_engine::meminfo::{
    available_ram_bytes, meminfo_field, swap_used_bytes, total_ram_bytes,
};
use colibri_engine::predictor::{ahead_predicts_next_layer, Predictor};
use colibri_engine::residency::{Entry, State};
use colibri_engine::tally::{ExpertId, Tally};
use colibri_engine::tier::evict_score;
use colibri_engine::usage::UsageHistory;

#[test]
fn braking_floor_is_inert_in_steady_state() {
    let hard = 3u64 << 30;
    assert_eq!(braking_floor(hard, 0), hard);
}

#[test]
fn braking_floor_clears_earlyoom_at_the_measured_k3_fill_rate() {
    let hard = 3u64 << 30;
    let earlyoom = 2_613_000_000u64;
    let per_tick = 824_000_000u64;
    assert!(hard - earlyoom < per_tick);
    let floor = braking_floor(hard, per_tick);
    assert!(floor - earlyoom > per_tick);
}

#[test]
fn cap_recovery_is_slow_enough_to_survive_a_late_poll() {
    const TICK_MS: u64 = 100;
    let recover_per_s = CAP_RECOVER_PER_TICK * (1000 / TICK_MS);
    let measured_unbounded_fill = 8_240_000_000u64;
    assert!(recover_per_s * 8 < measured_unbounded_fill);
    let worst_gap_ms = 461u64;
    let lost = recover_per_s * worst_gap_ms / 1000;
    assert!(lost < 1 << 30);
}

#[test]
fn supported_cap_binds_on_approach_and_not_in_steady_state() {
    let hard = 3u64 << 30;
    let steady = supported_cap(33_320_000_000, 29_120_000_000, hard);
    assert!(steady > 33_330_000_000, "must not claw back a converged cache: {steady}");
    let approach = supported_cap(53_620_000_000, 6_590_000_000, hard);
    assert!(
        approach < 53_620_000_000,
        "must cut the cap below the cache during the approach: {approach}"
    );
}

#[test]
fn cap_recovery_is_bounded_by_the_plan() {
    let target = 50u64 << 30;
    assert_eq!(recover_cap(target, target), target, "never exceeds the plan");
    assert_eq!(recover_cap(target - 1, target), target, "clamps, not overshoots");
    assert_eq!(recover_cap(0, target), CAP_RECOVER_PER_TICK);
    assert_eq!(recover_cap(u64::MAX, target), target, "must not overflow");
}

#[test]
fn braking_floor_is_capped() {
    let hard = 3u64 << 30;
    assert_eq!(braking_floor(hard, 40 << 30), hard + MAX_BRAKE);
    assert_eq!(braking_floor(u64::MAX, 1 << 30), u64::MAX, "must not overflow");
}

#[test]
fn the_margin_is_the_floor_and_half_a_brake() {
    assert_eq!(cap_margin(3 << 30), (3 << 30) + (4 << 30));
    assert_eq!(cap_margin(u64::MAX), u64::MAX);
    assert_eq!(supported_cap(0, 1 << 30, 3 << 30), 0);
}

fn empty_tensor() -> QTensor {
    QTensor {
        fmt_code: 0,
        o: 0,
        i: 0,
        qf: vec![],
        q8: vec![],
        q4: vec![],
        bs: vec![],
        s: vec![],
        g: 0,
        gpu_eligible: false,
    }
}

fn empty_expert() -> Arc<Expert> {
    Arc::new(Expert { gate: empty_tensor(), up: empty_tensor(), down: empty_tensor() })
}

fn evict_by_repeated_min(
    entries: &mut Vec<(ExpertId, u64, u32, u32)>,
    bytes: &mut u64,
    pinned: &[ExpertId],
    clock: u32,
    budget: u64,
    protect: &[ExpertId],
) -> Vec<ExpertId> {
    let mut order = Vec::new();
    while *bytes > budget {
        let victim = entries
            .iter()
            .filter(|e| !pinned.contains(&e.0) && !protect.contains(&e.0))
            .min_by_key(|e| evict_score(e.2, e.3, clock))
            .map(|e| e.0);
        match victim {
            Some(k) => {
                let at = entries.iter().position(|e| e.0 == k).unwrap();
                *bytes -= entries[at].1;
                entries.remove(at);
                order.push(k);
            }
            None => break,
        }
    }
    order
}

#[test]
fn batch_eviction_picks_the_same_victims_as_repeated_min() {
    let build = || {
        let mut m: Vec<(ExpertId, u64, u32, u32)> = Vec::new();
        let mut total = 0u64;
        for i in 0..64usize {
            let bytes = 1000 + i as u64;
            total += bytes;
            m.push((ExpertId { layer: i % 4, eid: i }, bytes, 1 + (i % 3) as u32, i as u32));
        }
        (m, total)
    };
    let id = |layer: usize, eid: usize| ExpertId { layer, eid };
    let pinned = vec![id(0, 0), id(1, 5)];
    let protect = vec![id(2, 6), id(3, 11)];
    let clock = 100u32;

    for budget_frac in [0u64, 1, 2, 3] {
        let (mut a_entries, mut a_bytes) = build();
        let budget = a_bytes * budget_frac / 4;
        let expected = evict_by_repeated_min(
            &mut a_entries,
            &mut a_bytes,
            &pinned,
            clock,
            budget,
            &protect,
        );

        let (b_entries, b_bytes) = build();
        let mut s = State {
            entries: b_entries
                .iter()
                .map(|e| Entry { id: e.0, expert: empty_expert(), bytes: e.1, heat: e.2, last: e.3 })
                .collect(),
            pinned: pinned.clone(),
            bytes: b_bytes as u128,
            clock,
            hits: 0,
            misses: 0,
            evictions: 0,
            session_usage: Tally::new(),
            published: 0,
        };
        s.evict_to_protecting(budget, &protect);

        assert!(!expected.is_empty());
        assert_eq!(s.evictions as usize, expected.len());
        assert_eq!(s.bytes, a_bytes as u128);
        assert_eq!(s.published, s.bytes);
        let survivors: Vec<ExpertId> = s.entries.iter().map(|e| e.id).collect();
        let oracle: Vec<ExpertId> = a_entries.iter().map(|e| e.0).collect();
        assert_eq!(survivors, oracle, "budget={budget}: different victims chosen");
        for k in pinned.iter().chain(&protect) {
            assert!(survivors.contains(k), "evicted {k:?}");
        }
    }
}

#[test]
fn recency_outranks_use() {
    assert!(evict_score(1000, 5, 10) < evict_score(1, 6, 10));
    assert!(evict_score(1, 5, 10) < evict_score(2, 5, 10));
    // the clock wraps
    assert!(evict_score(1, u32::MAX, 1) < evict_score(1, 0, 1));
    assert_eq!(evict_score(7, 9, 9), (0xffff_ffffu64 << 32) + 7);
}

#[test]
fn topn_zero_predictor_really_predicts_nothing() {
    let mut p = Predictor::new(0);
    for _ in 0..2 {
        p.observe_and_predict(1, &vec![10]);
        p.observe_and_predict(2, &vec![20]);
    }
    let pred = p.observe_and_predict(1, &vec![10]);
    assert!(pred.is_empty(), "topn=0 must predict nothing, got {pred:?}");

    let mut q = Predictor::new(4);
    for _ in 0..2 {
        q.observe_and_predict(1, &vec![10]);
        q.observe_and_predict(2, &vec![20]);
    }
    let qp = q.observe_and_predict(1, &vec![10]);
    assert_eq!(qp.first(), Some(&20), "topn=4 should still predict, got {qp:?}");
    assert!(qp.len() <= 4, "bound must be exact, got {qp:?}");
}

#[test]
fn prefetch_ahead_gate_tracks_fraction_not_absolute_count() {
    assert!(ahead_predicts_next_layer(160, 160), "GLM full-union prefill must prefetch");
    assert!(ahead_predicts_next_layer(120, 160), "75% of experts still predicts well");
    assert!(!ahead_predicts_next_layer(78, 896));
    assert!(ahead_predicts_next_layer(896, 896), "K3 at full union should prefetch again");
    assert!(!ahead_predicts_next_layer(8, 8), "decode-sized unions never prefetch ahead");
    assert!(ahead_predicts_next_layer(78, 0), "n_experts=0 falls back to the old gate");
    assert!(!ahead_predicts_next_layer(63, 0), "the absolute floor still applies");
}

#[test]
fn predictor_learns_layer_transition() {
    let mut p = Predictor::new(4);
    for _ in 0..2 {
        p.observe_and_predict(1, &vec![10]);
        p.observe_and_predict(2, &vec![20]);
    }
    let pred = p.observe_and_predict(1, &vec![10]);
    assert_eq!(pred.first(), Some(&20), "predicted {pred:?}");
}

#[test]
fn predictor_backfills_with_frequency() {
    let mut p = Predictor::new(3);
    for _ in 0..3 {
        p.observe_and_predict(5, &vec![7, 8]);
    }
    let pred = p.predict(5, &vec![999]);
    assert!(pred.contains(&7) && pred.contains(&8), "predicted {pred:?}");
}

#[test]
fn predictions_rank_by_count_then_number() {
    let mut p = Predictor::new(3);
    p.observe_and_predict(1, &vec![1]);
    p.observe_and_predict(2, &vec![9, 4]);
    p.observe_and_predict(1, &vec![1]);
    p.observe_and_predict(2, &vec![9, 2]);
    // 9 followed twice; 2 and 4 once each, the smaller number first
    assert_eq!(p.predict(2, &vec![1]), vec![9, 2, 4]);
    // a layer that does not follow teaches no transition
    p.observe_and_predict(7, &vec![3]);
    assert_eq!(p.predict(7, &vec![9]), vec![3]);
    assert_eq!(p.predict(8, &vec![3]), Vec::<usize>::new());
}

struct CountingProvider {
    loads: Cell<usize>,
    inter: usize,
    d: usize,
    fails: Option<usize>,
    batches: bool,
}

impl ExpertProvider for CountingProvider {
    fn expert(&self, _layer: usize, eid: usize) -> Result<Arc<Expert>, LoadError> {
        self.loads.set(self.loads.get() + 1);
        if self.fails == Some(eid) {
            return Err(LoadError { message: "gone".to_string() });
        }
        let mk = |o: usize, i: usize| QTensor {
            fmt_code: 1,
            o,
            i,
            q8: (0..o * i).map(|k| ((k + eid) % 5) as u8).collect(),
            s: vec![1.0f32.to_bits(); o],
            ..empty_tensor()
        };
        Ok(Arc::new(Expert {
            gate: mk(self.inter, self.d),
            up: mk(self.inter, self.d),
            down: mk(self.d, self.inter),
        }))
    }

    fn experts_batch(&self, layer: usize, eids: &Vec<usize>) -> Result<Vec<Arc<Expert>>, LoadError> {
        if !self.batches {
            return Err(LoadError { message: "no batches".to_string() });
        }
        eids.iter().map(|&e| self.expert(layer, e)).collect()
    }
}

fn counting() -> CountingProvider {
    CountingProvider { loads: Cell::new(0), inter: 4, d: 8, fails: None, batches: true }
}

fn one_expert() -> u64 {
    let mut c = ExpertCache::new(counting(), u64::MAX);
    c.expert(0, 0).unwrap().bytes()
}

#[test]
fn an_expert_counts_its_buffers() {
    // three int8 matrices of 32 weights, and 4 + 4 + 8 row scales
    assert_eq!(one_expert(), 3 * 32 + 4 * (4 + 4 + 8));
    assert_eq!(empty_expert().bytes(), 0);
}

#[test]
fn hit_avoids_reload() {
    let mut cache = ExpertCache::new(counting(), u64::MAX);
    let _ = cache.expert(0, 1).unwrap();
    let _ = cache.expert(0, 1).unwrap();
    let _ = cache.expert(0, 1).unwrap();
    assert_eq!(cache.inner.loads.get(), 1, "loaded once");
    let s = cache.stats();
    assert_eq!(s.misses, 1);
    assert_eq!(s.hits, 2);
    assert_eq!(s.resident, 1);
}

#[test]
fn evicts_when_over_budget() {
    let one = one_expert();
    let mut cache = ExpertCache::new(counting(), one * 2);
    cache.expert(0, 0).unwrap();
    cache.expert(0, 1).unwrap();
    cache.expert(0, 0).unwrap();
    cache.expert(0, 2).unwrap();
    let s = cache.stats();
    assert!(s.bytes <= one * 2, "over budget: {} > {}", s.bytes, one * 2);
    assert_eq!(s.resident, 2);
    assert!(s.evictions >= 1);
    let before = cache.inner.loads.get();
    cache.expert(0, 1).unwrap();
    assert_eq!(cache.inner.loads.get(), before + 1);
}

#[test]
fn pinned_survives_eviction() {
    let one = one_expert();
    let mut cache = ExpertCache::new(counting(), one * 2);
    cache.pin(0, 0).unwrap();
    cache.expert(0, 1).unwrap();
    cache.expert(0, 2).unwrap();
    cache.expert(0, 3).unwrap();
    let before = cache.inner.loads.get();
    cache.expert(0, 0).unwrap();
    assert_eq!(cache.inner.loads.get(), before, "pinned reloaded");
}

#[test]
fn warm_pin_pins_hottest_within_budget() {
    let mut h = UsageHistory::new();
    h.add(0, 0, 1);
    h.add(0, 1, 10);
    h.add(0, 2, 100);
    let one = one_expert();
    let mut cache = ExpertCache::new(counting(), u64::MAX);
    let pinned = cache.warm_pin(&h, one * 2).unwrap();
    assert_eq!(pinned, 2);
    assert_eq!(cache.pinned_count(), 2);
    assert_eq!(cache.usage_snapshot().total(), 0);

    let mut cache = ExpertCache::new(counting(), one * 3);
    cache.warm_pin(&h, one * 2).unwrap();
    for e in 3..8 {
        cache.expert(0, e).unwrap();
    }
    let before = cache.inner.loads.get();
    cache.expert(0, 2).unwrap();
    cache.expert(0, 1).unwrap();
    assert_eq!(cache.inner.loads.get(), before, "pinned reloaded");
}

#[test]
fn warm_pin_auto_pins_the_hot_head() {
    let mut h = UsageHistory::new();
    for e in 0..4 {
        h.add(0, e, 100);
    }
    for e in 4..60 {
        h.add(0, e, 1);
    }
    let mut cache = ExpertCache::new(counting(), u64::MAX);
    let (n, bytes, covered) = cache.warm_pin_auto(&h, 4, u64::MAX).unwrap();
    assert_eq!(cache.pinned_count(), n);
    assert!((4..=12).contains(&n), "auto pinned {n}, expected the ~4 hot head");
    assert!(bytes > 0);
    let cov = covered as f64 / h.total() as f64;
    assert!(cov > 0.8, "coverage {cov} should capture the hot head's traffic");
    assert_eq!(cache.usage_snapshot().total(), 0, "warm-up isn't session usage");
}

#[test]
fn warm_pin_auto_respects_cache_headroom() {
    let mut h = UsageHistory::new();
    for e in 0..20 {
        h.add(0, e, 100 - e as u64);
    }
    let one = one_expert();
    let mut cache = ExpertCache::new(counting(), one * 5);
    let (n, bytes, _covered) = cache.warm_pin_auto(&h, 20, one * 5).unwrap();
    assert!(n <= 4, "pinned {n}, must leave headroom below the 5-expert budget");
    assert!(bytes <= one * 4);
}

#[test]
fn the_hottest_is_pinned_whatever_it_weighs() {
    let mut h = UsageHistory::new();
    h.add(0, 3, 2);
    h.add(0, 4, 1);
    let mut cache = ExpertCache::new(counting(), u64::MAX);
    assert_eq!(cache.warm_pin(&h, 0).unwrap(), 1);
    assert_eq!(cache.state.pinned, vec![ExpertId { layer: 0, eid: 3 }]);
    let mut none = ExpertCache::new(counting(), u64::MAX);
    assert_eq!(none.pin_ranked(&h.ranked(), u64::MAX, 0).unwrap(), (0, 0));
}

#[test]
fn session_usage_tracks_selections() {
    let mut cache = ExpertCache::new(counting(), u64::MAX);
    cache.expert(3, 5).unwrap();
    cache.expert(3, 5).unwrap();
    cache.expert(3, 7).unwrap();
    let u = cache.usage_snapshot();
    assert_eq!(u.get(3, 5), 2);
    assert_eq!(u.get(3, 7), 1);
    assert_eq!(u.get(3, 6), 0);
    assert_eq!(u.total(), 3);
}

#[test]
fn usage_ranks_hottest_first() {
    let mut h = UsageHistory::new();
    h.add(1, 0, 5);
    h.add(0, 9, 5);
    h.add(0, 1, 7);
    h.add(0, 9, 1);
    let ids: Vec<(usize, usize)> = h.ranked().iter().map(|i| (i.layer, i.eid)).collect();
    assert_eq!(ids, vec![(0, 1), (0, 9), (1, 0)]);
    assert_eq!(h.top_total(2), 13);
    assert_eq!(h.top_total(99), 18);
}

#[test]
fn a_failing_provider_leaves_a_counted_miss() {
    let mut cache = ExpertCache::new(CountingProvider { fails: Some(3), ..counting() }, u64::MAX);
    assert!(cache.expert(0, 3).is_err());
    assert!(cache.pin(0, 3).is_err());
    let s = cache.stats();
    assert_eq!((s.misses, s.hits, s.resident), (2, 0, 0));
    assert_eq!(cache.pinned_count(), 0);
    assert_eq!(cache.usage_snapshot().get(0, 3), 1);
}

#[test]
fn a_batch_survives_its_own_arrival() {
    let one = one_expert();
    let mut cache = ExpertCache::new(counting(), one * 2);
    cache.expert(0, 9).unwrap();
    cache.load_batch(0, &vec![1, 2, 3, 2]);
    let ids: Vec<usize> = cache.state.entries.iter().map(|e| e.id.eid).collect();
    assert_eq!(ids, vec![1, 2, 3]);
    let s = cache.stats();
    assert_eq!((s.misses, s.evictions), (4, 1));
    assert_eq!(cache.usage_snapshot().total(), 1);
    // all there: nothing is loaded
    let loads = cache.inner.loads.get();
    cache.load_batch(0, &vec![3, 1]);
    assert_eq!(cache.inner.loads.get(), loads);
}

#[test]
fn a_failed_batch_falls_back_to_single_loads() {
    let mut cache = ExpertCache::new(
        CountingProvider { batches: false, fails: Some(2), ..counting() },
        u64::MAX,
    );
    cache.load_batch(4, &vec![1, 2, 3]);
    let ids: Vec<(usize, usize)> =
        cache.state.entries.iter().map(|e| (e.id.layer, e.id.eid)).collect();
    assert_eq!(ids, vec![(4, 1), (4, 3)]);
}

#[test]
fn prefetch_asks_for_the_next_layer() {
    let mut cache = ExpertCache::new(counting(), u64::MAX);
    let wide: Vec<usize> = (0..80).collect();
    assert_eq!(cache.plan_ahead(1, &wide, true), None);
    cache.enable_prefetch(2, 100);
    assert_eq!(cache.plan_ahead(1, &wide, true), Some(Ahead { layer: 2, eids: wide.clone() }));
    assert_eq!(cache.plan_ahead(1, &vec![10], true), None);
    assert_eq!(cache.plan_ahead(2, &vec![20], true), None);
    assert_eq!(
        cache.plan_ahead(1, &vec![10], true),
        Some(Ahead { layer: 2, eids: vec![20] })
    );
}

#[test]
fn prefetch_loads_the_layer_and_asks_for_the_next() {
    let mut cache = ExpertCache::new(counting(), u64::MAX);
    cache.enable_prefetch(2, 0);
    let wide: Vec<usize> = (0..64).collect();
    assert_eq!(cache.prefetch(1, &wide, true), Some(Ahead { layer: 2, eids: wide.clone() }));
    assert_eq!(cache.stats().resident, 64);
    assert_eq!(cache.prefetch(1, &wide, false), None);
    assert_eq!(cache.inner.loads.get(), 64);
}

#[test]
fn glm52_expert_size_and_capacity() {
    let bpe = capacity::bytes_per_expert(6144, 2048, 4);
    let mb = bpe as f64 / (1024.0 * 1024.0);
    assert!((17.0..20.0).contains(&mb), "expert MB = {mb}");
    let n = capacity::experts_in_budget(110 * (1 << 30), bpe);
    assert!((5_000..7_000).contains(&n), "experts in 110GB = {n}");
}

#[test]
fn tensors_take_their_width() {
    assert_eq!(capacity::qt_bytes(3, 5, 16), 60);
    assert_eq!(capacity::qt_bytes(3, 5, 8), 27);
    assert_eq!(capacity::qt_bytes(3, 5, 4), 21);
    assert_eq!(capacity::qt_bytes(3, 5, 2), 18);
    assert_eq!(capacity::experts_in_budget(100, 0), 0);
    assert_eq!(capacity::context_in_kv_budget(100, 7), 14);
    assert_eq!(capacity::context_in_kv_budget(100, 0), 0);
}

const GIB: u64 = 1 << 30;

fn reading(avail: u64, resident: u64) -> Reading {
    Reading { avail, swap: Some(0), resident, budget: 50 * GIB, reserved: 0 }
}

#[test]
fn a_guard_holds_the_plan_while_there_is_room() {
    let mut g = Guard::start(50 * GIB, 5 * GIB, 3 * GIB, Some(0), Some(100 * GIB));
    assert_eq!(g.learned_cap, 50 * GIB);
    assert_eq!(g.tick(reading(100 * GIB, 10 * GIB)), Verdict { budget: 50 * GIB, evict: false });
    let mut r = reading(100 * GIB, 10 * GIB);
    r.reserved = 8 * GIB;
    assert_eq!(g.tick(r).budget, 42 * GIB);
}

#[test]
fn a_guard_cuts_at_the_floor_and_recovers_slowly() {
    let mut g = Guard::start(50 * GIB, 5 * GIB, 3 * GIB, None, Some(100 * GIB));
    g.prev_avail = 2 * GIB;
    let v = g.tick(reading(2 * GIB, 50 * GIB));
    assert_eq!(v, Verdict { budget: 46 * GIB, evict: true });
    assert_eq!(g.learned_cap, 46 * GIB);
    let v = g.tick(reading(20 * GIB, 46 * GIB));
    assert_eq!(v, Verdict { budget: 46 * GIB + CAP_RECOVER_PER_TICK, evict: false });
}

#[test]
fn a_guard_gives_back_a_quarter_when_the_system_pages() {
    let mut g = Guard::start(50 * GIB, 5 * GIB, 3 * GIB, Some(GIB), Some(100 * GIB));
    let mut r = reading(30 * GIB, 40 * GIB);
    r.swap = Some(2 * GIB);
    assert_eq!(g.tick(r), Verdict { budget: 30 * GIB, evict: true });
    r.swap = Some(GIB + (256 << 20));
    assert!(!g.tick(r).evict);
}

#[test]
fn a_guard_cedes_only_after_sustained_pressure() {
    let mut g = Guard::start(10 * GIB, 9 * GIB, 3 * GIB, None, Some(100 * GIB));
    g.prev_avail = 8 * GIB;
    for _ in 0..5 {
        assert!(!g.tick(reading(8 * GIB, 10 * GIB)).evict);
    }
    assert_eq!(g.tick(reading(8 * GIB, 10 * GIB)), Verdict { budget: 9 * GIB, evict: true });
    assert!(!g.tick(reading(100 * GIB, 9 * GIB)).evict);
}

#[test]
fn a_guard_never_goes_under_the_smallest_budget() {
    let mut g = Guard::start(0, 0, 0, None, None);
    assert_eq!((g.fill_target, g.hard_floor, g.danger_floor), (FLOOR_MIN, FLOOR_MIN, FLOOR_MIN));
    assert_eq!(g.tick(reading(0, GIB)).budget, FLOOR_MIN);
}

#[test]
fn the_cache_follows_its_guard() {
    let mut cache = ExpertCache::new(counting(), u64::MAX);
    let mut g = cache.spawn_adaptive_budget(50 * GIB, 5 * GIB, 3 * GIB, None, Some(100 * GIB));
    assert_eq!(cache.stats().budget, 50 * GIB);
    cache.expert(0, 0).unwrap();
    cache.guard_tick(&mut g, 100 * GIB, None);
    assert_eq!(cache.stats().budget, 50 * GIB);
    cache.guard_tick(&mut g, GIB, None);
    assert_eq!(cache.stats().budget, FLOOR_MIN);
    assert_eq!(cache.stats().resident, 1);
}

#[test]
fn a_reservation_is_granted_where_there_is_room() {
    let mut cache = ExpertCache::new(counting(), u64::MAX);
    assert_eq!(cache.reserve_ram(10 * GIB, Some(0)), None);
    assert_eq!(cache.reserved, 10 * GIB);
    cache.spawn_adaptive_budget(50 * GIB, 5 * GIB, 3 * GIB, None, Some(100 * GIB));
    assert_eq!(cache.reserve_ram(GIB, Some(4 * GIB)), None);
    assert_eq!(cache.reserve_ram(GIB, None), None);
    cache.release_ram(12 * GIB);
    assert_eq!(cache.reserved, 0);
}

#[test]
fn a_refused_reservation_is_rolled_back() {
    let mut cache = ExpertCache::new(counting(), u64::MAX);
    cache.spawn_adaptive_budget(50 * GIB, 5 * GIB, 3 * GIB, None, Some(100 * GIB));
    let mut claim = cache.reserve_ram(20 * GIB, Some(4 * GIB)).unwrap();
    assert_eq!((claim.need, claim.passes_left), (23 * GIB, 4));
    // nothing to evict above the smallest budget
    assert!(!cache.reserve_pass(&mut claim, Some(4 * GIB)));
    assert!(!cache.reserve_finish(claim, Some(5 * GIB)));
    assert_eq!(cache.reserved, 0);
    let claim = cache.reserve_ram(20 * GIB, Some(4 * GIB)).unwrap();
    assert!(cache.reserve_finish(claim, Some(23 * GIB)));
    assert_eq!(cache.reserved, 20 * GIB);
    let claim = cache.reserve_ram(GIB, Some(3 * GIB)).unwrap();
    assert!(!cache.reserve_finish(claim, None));
}

#[test]
fn releasing_undoes_reserving() {
    let mut cache = ExpertCache::new(counting(), u64::MAX);
    let _ = cache.reserve_ram(7, None);
    let _ = cache.reserve_ram(5, None);
    cache.release_ram(5);
    assert_eq!(cache.reserved, 7);
    cache.release_ram(100);
    assert_eq!(cache.reserved, 0);
}

#[test]
fn the_figures_tell_what_was_asked_loaded_and_given_up() {
    let one = one_expert();
    let mut cache = ExpertCache::new(counting(), one * 2);
    cache.pin(0, 0).unwrap(); // loaded
    cache.expert(0, 1).unwrap(); // loaded
    cache.expert(0, 0).unwrap(); // there
    cache.load_batch(0, &vec![2, 3]); // both loaded, 1 given up
    cache.expert(0, 1).unwrap(); // loaded again, 2 and 3 given up
    let s = cache.stats();
    assert_eq!((s.hits, s.misses, s.evictions, s.resident), (1, 5, 3, 2));
    assert_eq!(s.resident as u64, s.misses - s.evictions);
    assert_eq!(s.bytes, one * 2);
}

#[test]
fn a_pinned_expert_outlives_every_operation() {
    let one = one_expert();
    let mut cache = ExpertCache::new(counting(), one);
    cache.pin(0, 0).unwrap();
    cache.load_batch(0, &vec![1, 2, 3]);
    let hottest = cache.usage_snapshot();
    cache.warm_pin(&hottest, u64::MAX).unwrap();
    cache.prefetch(0, &vec![4, 5], false);
    let mut g = cache.spawn_adaptive_budget(0, 0, 0, None, Some(0));
    cache.guard_tick(&mut g, 0, Some(GIB));
    if let Some(mut claim) = cache.reserve_ram(GIB, Some(0)) {
        while cache.reserve_pass(&mut claim, Some(0)) {}
        assert!(!cache.reserve_finish(claim, Some(0)));
    }
    let loads = cache.inner.loads.get();
    cache.expert(0, 0).unwrap();
    assert_eq!(cache.inner.loads.get(), loads, "pinned reloaded");
}

#[test]
fn reservations_wrap() {
    let mut cache = ExpertCache::new(counting(), u64::MAX);
    let _ = cache.reserve_ram(u64::MAX, None);
    let _ = cache.reserve_ram(3, None);
    assert_eq!(cache.reserved, 2);
    cache.release_ram(3);
    assert_eq!(cache.reserved, 0);
}

#[test]
fn an_expert_that_arrived_meanwhile_is_handed_out() {
    let mut cache = ExpertCache::new(counting(), u64::MAX);
    let id = ExpertId { layer: 0, eid: 1 };
    assert!(cache.state.look_up(id, true).is_none());
    let late = counting().expert(0, 1).unwrap();
    let early = cache.expert(0, 1).unwrap();
    let handed = cache.settle(id, Ok(late)).unwrap();
    assert!(Arc::ptr_eq(&handed, &early));
    assert_eq!(cache.stats().resident, 1);
    let gone = LoadError { message: "gone".to_string() };
    assert!(cache.settle(ExpertId { layer: 0, eid: 2 }, Err(gone)).is_err());
    assert_eq!(cache.stats().resident, 1);
}

#[test]
fn what_a_batch_lacks_is_loaded_singly() {
    let numbers = |p: &CountingProvider| -> Vec<usize> {
        load_missing(p, 0, &vec![1, 2, 3]).iter().map(|l| l.0).collect()
    };
    assert_eq!(numbers(&counting()), vec![1, 2, 3]);
    let holey = CountingProvider { fails: Some(2), ..counting() };
    assert_eq!(numbers(&holey), vec![1, 3]);
}

#[test]
fn bytes_are_those_of_the_residents() {
    let one = one_expert();
    let mut cache = ExpertCache::new(counting(), one * 3);
    cache.load_batch(0, &vec![1, 2]);
    cache.expert(0, 1).unwrap();
    for eid in 3..8 {
        cache.expert(1, eid).unwrap();
        let held: u64 = cache.state.entries.iter().map(|e| e.expert.bytes()).sum();
        assert_eq!(cache.stats().bytes, held);
        assert!(cache.state.entries.iter().all(|e| e.bytes == e.expert.bytes()));
    }
}

const MEMINFO: &str = "MemTotal:       130665472 kB\nMemFree:         1000 kB\n\
                       MemAvailable:   29120000 kB\nSwapTotal:       100 kB\nSwapFree:         40 kB\n";

#[test]
fn memory_figures_are_read() {
    assert_eq!(total_ram_bytes(MEMINFO), Some(130_665_472 * 1024));
    assert_eq!(available_ram_bytes(MEMINFO), Some(29_120_000 * 1024));
    assert_eq!(swap_used_bytes(MEMINFO), Some(60 * 1024));
    assert_eq!(meminfo_field(MEMINFO, "Nothing:"), None);
}

#[test]
fn odd_memory_figures_are_none() {
    assert_eq!(available_ram_bytes(""), None);
    assert_eq!(available_ram_bytes("MemAvailable:"), None);
    assert_eq!(available_ram_bytes("MemAvailable: kB"), None);
    assert_eq!(available_ram_bytes("MemAvailable: 18446744073709551615 kB"), None);
    assert_eq!(available_ram_bytes("MemAvailable: 99999999999999999999 kB"), None);
    assert_eq!(available_ram_bytes("MemAvailable:\t+7\r\n"), Some(7 * 1024));
    // the first line with the key decides
    assert_eq!(available_ram_bytes("MemAvailable: x\nMemAvailable: 1 kB"), None);
    assert_eq!(swap_used_bytes("SwapTotal: 1 kB\nSwapFree: 5 kB"), Some(0));
    assert_eq!(swap_used_bytes("SwapTotal: 1 kB"), None);
}
