//! Which resident expert is given up first.

use vstd::prelude::*;

verus! {

/// How many ticks of a wrapping clock ago `last` was.
pub open spec fn age(last: u32, clock: u32) -> int {
    if clock >= last {
        clock - last
    } else {
        clock - last + 0x1_0000_0000
    }
}

/// The rank of a resident expert: the lower, the sooner it goes. Recency comes
/// first, use counts only between experts that were used at the same tick.
pub open spec fn score_of(heat: u32, last: u32, clock: u32) -> int {
    (0xffff_ffff - age(last, clock)) * 0x1_0000_0000 + heat
}

/// The eviction rank of an expert that was used `heat` times, last at `last`.
pub fn evict_score(heat: u32, last: u32, clock: u32) -> (score: u64)
    ensures
        score == score_of(heat, last, clock),
{
    let age: u32 = clock.wrapping_sub(last);
    (0xffff_ffffu32 - age) as u64 * 0x1_0000_0000u64 + heat as u64
}

/// The expert used longer ago ranks lower, however often either was used; use
/// counts decide between experts that were used at the same tick.
pub proof fn recency_decides_first(heat_a: u32, last_a: u32, heat_b: u32, last_b: u32, clock: u32)
    ensures
        age(last_a, clock) > age(last_b, clock) ==> score_of(heat_a, last_a, clock) < score_of(
            heat_b,
            last_b,
            clock,
        ),
        age(last_a, clock) == age(last_b, clock) && heat_a < heat_b ==> score_of(
            heat_a,
            last_a,
            clock,
        ) < score_of(heat_b, last_b, clock),
{
}

/// An expert that was used `k` ticks ago has the rank of its uses with `k` ranks of
/// recency taken off, also where the clock has begun anew in between.
pub proof fn a_tick_costs_one_rank(heat: u32, last: u32, k: u32, clock: u32, score: u64, fresh: u64)
    requires
        clock == (last + k) % 0x1_0000_0000,
        call_ensures(evict_score, (heat, last, clock), score),
        call_ensures(evict_score, (heat, clock, clock), fresh),
    ensures
        fresh - score == k * 0x1_0000_0000,
        fresh % 0x1_0000_0000 == heat,
        fresh / 0x1_0000_0000 == 0xffff_ffff,
{
}

} // verus!
