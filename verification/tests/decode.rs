//! Generating with and without drafts.

use colibri_engine::decode::{
    draft_budget, generate_greedy, generate_stream, generate_stream_drafting, Action, DecodeStats,
    Generation, AUTO_OFF_AFTER, MAX_DRAFT,
};

/// A model whose next token is a function of the whole sequence.
fn model(seq: &[i32]) -> i32 {
    let mut h: i64 = 7;
    for &t in seq {
        h = (h * 31 + t as i64) % 1009;
    }
    (h % 17) as i32
}

struct Trace {
    out: Vec<i32>,
    delivered: Vec<i32>,
    stats: DecodeStats,
    largest_batch: usize,
    replays: usize,
    last_position: usize,
}

/// Runs a generation to its end. `head(seq, budget)` drafts after `seq`; the
/// consumer stops after `keep` tokens.
fn run(
    mut g: Generation,
    prompt: &[i32],
    head: &dyn Fn(&[i32], usize) -> Vec<i32>,
    keep: usize,
) -> Trace {
    let mut done: Vec<i32> = prompt.to_vec();
    let mut cache: Vec<i32> = Vec::new();
    let mut delivered = Vec::new();
    let (mut largest_batch, mut replays, mut last_position) = (0, 0, 0);
    let mut saved: Option<Vec<i32>> = None;
    loop {
        match g.action() {
            Action::Prefill => {
                cache = prompt.to_vec();
                g.prefilled(model(&cache));
            }
            Action::Deliver(t) => {
                done.push(t);
                delivered.push(t);
                g.delivered(delivered.len() < keep);
            }
            Action::Draft { next, pos, budget } => {
                assert_eq!(pos, done.len() - 1);
                assert_eq!(next, *done.last().unwrap());
                let p = head(&done, budget);
                assert!(p.len() <= budget);
                g.drafted(&p);
            }
            Action::Verify { batch, pos, snapshot } => {
                assert_eq!(pos, cache.len());
                if snapshot {
                    saved = Some(cache.clone());
                }
                largest_batch = largest_batch.max(batch.len());
                let mut truth = Vec::new();
                for t in batch {
                    cache.push(t);
                    truth.push(model(&cache));
                }
                last_position = last_position.max(cache.len());
                g.verified(truth);
            }
            Action::Settle { replay, absorb: _, pos, row: _ } => {
                if !replay.is_empty() {
                    replays += 1;
                    cache = saved.take().unwrap();
                    assert_eq!(cache.len(), pos);
                    cache.extend_from_slice(&replay);
                }
                g.settled();
                cache.truncate(done.len());
            }
            Action::Stop => break,
        }
    }
    assert!(g.is_done());
    let stats = g.stats();
    Trace { out: generate_greedy(g), delivered, stats, largest_batch, replays, last_position }
}

fn perfect(seq: &[i32], budget: usize) -> Vec<i32> {
    let mut s = seq.to_vec();
    let mut out = Vec::new();
    for _ in 0..budget {
        let t = model(&s);
        s.push(t);
        out.push(t);
    }
    out
}

fn wrong(_seq: &[i32], budget: usize) -> Vec<i32> {
    vec![99; budget]
}

fn sometimes(seq: &[i32], budget: usize) -> Vec<i32> {
    let mut p = perfect(seq, budget);
    if let Some(t) = p.get_mut(seq.len() % 3) {
        *t = 99;
    }
    p
}

fn none(_seq: &[i32], _budget: usize) -> Vec<i32> {
    vec![]
}

const PROMPT: [i32; 3] = [3, 1, 4];

fn start(n_new: usize, budget: usize, recurrent: bool) -> Generation {
    generate_stream_drafting(&PROMPT.to_vec(), n_new, budget, true, 100, &vec![], recurrent)
}

#[test]
fn drafts_never_change_the_output() {
    let plain = run(start(40, 0, false), &PROMPT, &none, usize::MAX);
    assert_eq!(plain.out.len(), 43);
    assert_eq!(plain.out[..3], PROMPT);
    assert_eq!(plain.out[3..], plain.delivered[..]);
    for k in 3..plain.out.len() {
        assert_eq!(plain.out[k], model(&plain.out[..k]));
    }
    let heads: [&dyn Fn(&[i32], usize) -> Vec<i32>; 4] = [&perfect, &wrong, &sometimes, &none];
    for head in heads {
        for budget in [1, 3, 8] {
            for recurrent in [false, true] {
                let t = run(start(40, budget, recurrent), &PROMPT, head, usize::MAX);
                assert_eq!(t.out, plain.out);
                assert_eq!(t.stats.emitted, 40);
            }
        }
    }
}

#[test]
fn good_drafts_save_forwards() {
    let t = run(start(40, 4, false), &PROMPT, &perfect, usize::MAX);
    assert_eq!(t.stats.forwards, 9);
    assert_eq!(t.stats.drafts_accepted, 32);
    assert!(t.largest_batch <= 5);
    assert_eq!(t.replays, 0);
    let plain = run(start(40, 0, false), &PROMPT, &none, usize::MAX);
    assert_eq!(plain.stats.forwards, 40);
    assert_eq!(plain.largest_batch, 1);
    assert_eq!(plain.stats.drafts_proposed, 0);
}

#[test]
fn a_useless_head_is_switched_off() {
    let t = run(start(90, 8, false), &PROMPT, &wrong, usize::MAX);
    assert_eq!(t.stats.drafts_accepted, 0);
    assert_eq!(t.stats.drafts_proposed, AUTO_OFF_AFTER);
}

#[test]
fn rejected_drafts_are_replayed_in_recurrent_models() {
    let t = run(start(30, 4, true), &PROMPT, &sometimes, usize::MAX);
    assert!(t.replays > 0);
    let u = run(start(30, 4, false), &PROMPT, &sometimes, usize::MAX);
    assert_eq!(u.replays, 0);
    assert_eq!(t.out, u.out);
    // a replay is a forward, too
    assert_eq!(t.stats.forwards, u.stats.forwards + t.replays as u64);
}

#[test]
fn stop_tokens_end_a_run() {
    let plain = run(start(40, 0, false), &PROMPT, &none, usize::MAX);
    let stop = plain.delivered[10];
    let at = plain.delivered.iter().position(|&t| t == stop).unwrap();
    for budget in [0, 5] {
        let g = generate_stream_drafting(
            &PROMPT.to_vec(),
            40,
            budget,
            true,
            100,
            &vec![stop],
            false,
        );
        let t = run(g, &PROMPT, &perfect, usize::MAX);
        assert_eq!(t.delivered, plain.delivered[..=at]);
    }
}

#[test]
fn a_consumer_can_stop_a_run() {
    let plain = run(start(40, 0, false), &PROMPT, &none, usize::MAX);
    for budget in [0, 5] {
        let t = run(start(40, budget, false), &PROMPT, &perfect, 7);
        assert_eq!(t.delivered, plain.delivered[..7]);
    }
}

#[test]
fn drafts_stay_inside_the_cache() {
    let g = generate_stream_drafting(&PROMPT.to_vec(), 10, 8, true, 13, &vec![], false);
    let t = run(g, &PROMPT, &perfect, usize::MAX);
    assert_eq!(t.stats.emitted, 10);
    assert!(t.last_position <= 13);
}

#[test]
fn no_tokens_asked_for_none_delivered() {
    let t = run(start(0, 4, false), &PROMPT, &perfect, usize::MAX);
    assert_eq!(t.out, PROMPT);
    assert_eq!(t.stats.forwards, 1);
}

#[test]
fn budgets_are_bounded() {
    assert_eq!(draft_budget(None), 0);
    assert_eq!(draft_budget(Some(5)), 5);
    assert_eq!(draft_budget(Some(1000)), MAX_DRAFT);
    assert_eq!(DecodeStats::default().forwards, 0);
}

#[test]
fn a_model_without_a_head_does_not_draft() {
    let g = generate_stream(&PROMPT.to_vec(), 20, Some(4), false, 100, &vec![], false);
    let t = run(g, &PROMPT, &perfect, usize::MAX);
    assert_eq!((t.stats.drafts_proposed, t.stats.forwards), (0, 20));
    let g = generate_stream(&PROMPT.to_vec(), 20, Some(4), true, 100, &vec![], false);
    let t = run(g, &PROMPT, &perfect, usize::MAX);
    assert!(t.stats.forwards < 20);
}

#[test]
fn a_transcript_begins_with_the_prompt() {
    let prompt = vec![5, 6];
    let mut g = generate_stream(&prompt, 2, None, false, 8, &vec![], false);
    loop {
        match g.action() {
            Action::Prefill => g.prefilled(7),
            Action::Deliver(_) => g.delivered(true),
            Action::Verify { batch, .. } => g.verified(vec![8; batch.len()]),
            Action::Settle { .. } => g.settled(),
            Action::Draft { .. } => g.drafted(&vec![]),
            Action::Stop => break,
        }
    }
    assert_eq!(generate_greedy(g), vec![5, 6, 7, 8]);
}

#[test]
fn one_token_takes_the_prefill_alone() {
    for budget in [0, 4] {
        let t = run(start(1, budget, false), &PROMPT, &perfect, usize::MAX);
        assert_eq!((t.stats.emitted, t.stats.forwards), (1, 1));
    }
}
