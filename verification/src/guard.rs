//! The memory guard: how large the expert cache may be right now.
//!
//! The guard looks at the machine once per tick and answers with a byte budget.
//! Three pressures are told apart: the system pages (swap), free memory is about
//! to cross the line that must hold (oom), or it is merely low (soft). What the
//! guard has to cut it remembers as a learned cap, which it earns back slowly.

use vstd::prelude::*;

verus! {

/// Milliseconds between two looks.
pub const TICK_MS: u64 = 100;

/// Ticks below the danger floor before memory is ceded.
pub const SUSTAIN: u32 = 6;

/// Headroom that is restored when the guard has to act: 3 GiB.
pub const HARD_SLACK: u64 = 0xc000_0000;

/// The budget never goes under this: 2 GiB.
pub const FLOOR_MIN: u64 = 0x8000_0000;

/// Growth of swap that is not taken for cache pressure: 256 MiB.
pub const SWAP_TOLERANCE: u64 = 0x1000_0000;

/// Ticks of stopping distance that the guard keeps in hand.
pub const BRAKE_TICKS: u64 = 4;

/// The most that the stopping distance adds to the floor: 8 GiB.
pub const MAX_BRAKE: u64 = 0x2_0000_0000;

/// Bytes that the learned cap earns back per tick: 64 MiB.
pub const CAP_RECOVER_PER_TICK: u64 = 0x400_0000;

/// `n`, held at `u64::MAX`.
pub open spec fn up_to_max(n: int) -> u64 {
    if n > u64::MAX {
        u64::MAX
    } else {
        n as u64
    }
}

/// `a - b`, held at zero.
pub open spec fn minus(a: u64, b: u64) -> u64 {
    if a >= b {
        (a - b) as u64
    } else {
        0
    }
}

/// The smaller of two.
pub open spec fn smaller(a: u64, b: u64) -> u64 {
    if a <= b {
        a
    } else {
        b
    }
}

/// The larger of two.
pub open spec fn larger(a: u64, b: u64) -> u64 {
    if a >= b {
        a
    } else {
        b
    }
}

fn min_of(a: u64, b: u64) -> (m: u64)
    ensures
        m == smaller(a, b),
{
    if a <= b {
        a
    } else {
        b
    }
}

fn max_of(a: u64, b: u64) -> (m: u64)
    ensures
        m == larger(a, b),
{
    if a >= b {
        a
    } else {
        b
    }
}

/// The floor that the guard defends while `drop_per_tick` bytes vanish per tick:
/// the hard floor and the stopping distance on top of it.
pub open spec fn floor_at(hard_floor: u64, drop_per_tick: u64) -> u64 {
    up_to_max(hard_floor + smaller(up_to_max(drop_per_tick * BRAKE_TICKS), MAX_BRAKE))
}

/// The floor that has to be defended, given how fast memory disappears. A static
/// floor is unsafe when the fill is fast: the guard can brake only once per
/// tick, so the distance to the line has to grow with the speed.
pub fn braking_floor(hard_floor: u64, drop_per_tick: u64) -> (floor: u64)
    ensures
        floor == floor_at(hard_floor, drop_per_tick),
{
    let brake: u128 = drop_per_tick as u128 * 4;
    assert(drop_per_tick * BRAKE_TICKS == brake);
    let brake: u64 = if brake > MAX_BRAKE as u128 { MAX_BRAKE } else { brake as u64 };
    hard_floor.saturating_add(brake)
}

/// Free bytes that the cap leaves unspoken for once the cache is full: the hard
/// floor and half a brake for everything else that still grows.
pub open spec fn margin_for(hard_floor: u64) -> u64 {
    up_to_max(hard_floor + MAX_BRAKE / 2)
}

/// Free bytes that the cap must leave.
pub fn cap_margin(hard_floor: u64) -> (m: u64)
    ensures
        m == margin_for(hard_floor),
{
    hard_floor.saturating_add(MAX_BRAKE / 2)
}

/// The largest cap that the memory there is can support: what the cache holds,
/// and what is free, less the margin.
pub open spec fn supported(resident: u64, avail: u64, hard_floor: u64) -> u64 {
    minus(up_to_max(resident + avail), margin_for(hard_floor))
}

/// The largest cap that memory supports right now.
pub fn supported_cap(resident: u64, avail: u64, hard_floor: u64) -> (cap: u64)
    ensures
        cap == supported(resident, avail, hard_floor),
{
    resident.saturating_add(avail).saturating_sub(cap_margin(hard_floor))
}

/// The learned cap after one step back up, never past the plan.
pub open spec fn recovered(learned_cap: u64, fill_target: u64) -> u64 {
    smaller(up_to_max(learned_cap + CAP_RECOVER_PER_TICK), fill_target)
}

/// One step of the learned cap back up.
pub fn recover_cap(learned_cap: u64, fill_target: u64) -> (cap: u64)
    ensures
        cap == recovered(learned_cap, fill_target),
{
    min_of(learned_cap.saturating_add(CAP_RECOVER_PER_TICK), fill_target)
}

/// What the guard sees at a tick.
#[derive(Clone, Copy)]
pub struct Reading {
    /// Free memory.
    pub avail: u64,
    /// Swap in use, where the system tells.
    pub swap: Option<u64>,
    /// Bytes that the cache holds.
    pub resident: u64,
    /// The budget in force.
    pub budget: u64,
    /// Bytes reserved for other allocations.
    pub reserved: u64,
}

/// What the guard decides at a tick.
#[derive(Debug, Clone, Copy, PartialEq, Eq, Structural)]
pub struct Verdict {
    /// The budget from now on.
    pub budget: u64,
    /// Whether the cache comes down to it at once.
    pub evict: bool,
}

/// The pressure that a reading shows.
#[derive(Debug, Clone, Copy, PartialEq, Eq, Structural)]
pub enum Pressure {
    /// The system pages more than it did at the start.
    Swap,
    /// Free memory is under the floor that has to hold.
    Oom,
    /// Neither.
    Soft,
}

/// The guard's memory.
#[derive(Debug, Clone, Copy, PartialEq, Eq, Structural)]
pub struct Guard {
    /// The most that the plan gives the cache.
    pub fill_target: u64,
    /// Free memory below which pressure counts as sustained.
    pub danger_floor: u64,
    /// Free memory that must not be crossed.
    pub hard_floor: u64,
    /// Swap in use at the start.
    pub swap_baseline: u64,
    /// Ticks in a row below the danger floor.
    pub low_ticks: u32,
    /// Free memory at the last tick.
    pub prev_avail: u64,
    /// What the cache was found to be able to hold.
    pub learned_cap: u64,
}

impl Guard {
    /// The guard as it starts: floors in order, the cap seeded from what is free.
    pub open spec fn started(
        fill_target: u64,
        danger_floor: u64,
        hard_floor: u64,
        swap: Option<u64>,
        avail: Option<u64>,
    ) -> Guard {
        let fill = larger(fill_target, FLOOR_MIN);
        let hard = larger(hard_floor, FLOOR_MIN);
        Guard {
            fill_target: fill,
            danger_floor: larger(danger_floor, hard),
            hard_floor: hard,
            swap_baseline: match swap {
                Some(s) => s,
                None => 0,
            },
            low_ticks: 0,
            prev_avail: match avail {
                Some(a) => a,
                None => u64::MAX,
            },
            learned_cap: match avail {
                Some(a) => smaller(fill, larger(supported(0, a, hard), FLOOR_MIN)),
                None => fill,
            },
        }
    }

    /// The floor in force at a reading.
    pub open spec fn floor(self, r: Reading) -> u64 {
        floor_at(self.hard_floor, minus(self.prev_avail, r.avail))
    }

    /// The pressure that a reading shows. Swap is looked at first: the system
    /// pages while free memory still looks comfortable.
    pub open spec fn pressure(self, r: Reading) -> Pressure {
        if r.swap is Some && r.swap->0 > self.swap_baseline + SWAP_TOLERANCE {
            Pressure::Swap
        } else if r.avail < self.floor(r) {
            Pressure::Oom
        } else {
            Pressure::Soft
        }
    }

    /// Ticks in a row below the danger floor, this one counted.
    pub open spec fn low_after(self, r: Reading) -> u32 {
        if r.avail < self.danger_floor {
            if self.low_ticks == u32::MAX {
                u32::MAX
            } else {
                (self.low_ticks + 1) as u32
            }
        } else {
            0
        }
    }

    /// The learned cap after a tick without emergency: never more than memory
    /// supports, and a step back up where there is room and the cap binds.
    pub open spec fn cap_after(self, r: Reading) -> u64 {
        let cap = larger(
            smaller(self.learned_cap, supported(r.resident, r.avail, self.hard_floor)),
            FLOOR_MIN,
        );
        if r.avail > self.danger_floor && up_to_max(r.resident + CAP_RECOVER_PER_TICK) >= cap {
            recovered(cap, self.fill_target)
        } else {
            cap
        }
    }

    /// The budget that a reading leads to.
    pub open spec fn budget_after(self, r: Reading) -> u64 {
        match self.pressure(r) {
            Pressure::Swap => larger(
                smaller((r.resident - r.resident / 4) as u64, r.budget),
                FLOOR_MIN,
            ),
            Pressure::Oom => larger(
                minus(r.resident, up_to_max(self.floor(r) - r.avail + HARD_SLACK)),
                FLOOR_MIN,
            ),
            Pressure::Soft => if self.low_after(r) >= SUSTAIN {
                larger(minus(r.resident, (self.danger_floor - r.avail) as u64), FLOOR_MIN)
            } else {
                larger(minus(self.cap_after(r), r.reserved), FLOOR_MIN)
            },
        }
    }

    /// What the guard remembers after a reading.
    pub open spec fn after(self, r: Reading) -> Guard {
        match self.pressure(r) {
            Pressure::Swap => Guard { prev_avail: r.avail, low_ticks: 0, ..self },
            Pressure::Oom => Guard {
                prev_avail: r.avail,
                low_ticks: 0,
                learned_cap: self.budget_after(r),
                ..self
            },
            Pressure::Soft => Guard {
                prev_avail: r.avail,
                low_ticks: self.low_after(r),
                learned_cap: self.cap_after(r),
                ..self
            },
        }
    }

    /// Starts a guard. The budget in force from the start is `fill_target`.
    pub fn start(
        fill_target: u64,
        danger_floor: u64,
        hard_floor: u64,
        swap: Option<u64>,
        avail: Option<u64>,
    ) -> (g: Guard)
        ensures
            g == Guard::started(fill_target, danger_floor, hard_floor, swap, avail),
    {
        let fill: u64 = max_of(fill_target, FLOOR_MIN);
        let hard: u64 = max_of(hard_floor, FLOOR_MIN);
        let learned_cap: u64 = match avail {
            Some(a) => min_of(fill, max_of(supported_cap(0, a, hard), FLOOR_MIN)),
            None => fill,
        };
        Guard {
            fill_target: fill,
            danger_floor: max_of(danger_floor, hard),
            hard_floor: hard,
            swap_baseline: match swap {
                Some(s) => s,
                None => 0,
            },
            low_ticks: 0,
            prev_avail: match avail {
                Some(a) => a,
                None => u64::MAX,
            },
            learned_cap,
        }
    }

    /// Looks at the machine and decides.
    pub fn tick(&mut self, r: Reading) -> (v: Verdict)
        ensures
            *final(self) == old(self).after(r),
            v.budget == old(self).budget_after(r),
            v.evict == (old(self).pressure(r) != Pressure::Soft || v.budget < r.resident),
    {
        let drop_per_tick: u64 = self.prev_avail.saturating_sub(r.avail);
        self.prev_avail = r.avail;
        if let Some(sw) = r.swap {
            if sw as u128 > self.swap_baseline as u128 + SWAP_TOLERANCE as u128 {
                self.low_ticks = 0;
                return Verdict {
                    budget: max_of(min_of(r.resident - r.resident / 4, r.budget), FLOOR_MIN),
                    evict: true,
                };
            }
        }
        let floor_now: u64 = braking_floor(self.hard_floor, drop_per_tick);
        if r.avail < floor_now {
            let reclaim: u64 = (floor_now - r.avail).saturating_add(HARD_SLACK);
            let budget: u64 = max_of(r.resident.saturating_sub(reclaim), FLOOR_MIN);
            self.learned_cap = budget;
            self.low_ticks = 0;
            return Verdict { budget, evict: true };
        }
        self.low_ticks = if r.avail < self.danger_floor {
            self.low_ticks.saturating_add(1)
        } else {
            0
        };
        self.learned_cap = max_of(
            min_of(self.learned_cap, supported_cap(r.resident, r.avail, self.hard_floor)),
            FLOOR_MIN,
        );
        if r.avail > self.danger_floor && r.resident.saturating_add(CAP_RECOVER_PER_TICK)
            >= self.learned_cap {
            self.learned_cap = recover_cap(self.learned_cap, self.fill_target);
        }
        let held: u64 = self.learned_cap.saturating_sub(r.reserved);
        let budget: u64 = if self.low_ticks >= SUSTAIN {
            max_of(r.resident.saturating_sub(self.danger_floor - r.avail), FLOOR_MIN)
        } else {
            max_of(held, FLOOR_MIN)
        };
        Verdict { budget, evict: budget < r.resident }
    }
}

/// While nothing is consumed the floor is the hard floor itself; it rises with
/// the rate of consumption, but never by more than the largest brake.
pub proof fn braking_floor_follows_the_rate(hard_floor: u64, slow: u64, fast: u64)
    requires
        slow <= fast,
    ensures
        floor_at(hard_floor, 0) == hard_floor,
        hard_floor <= floor_at(hard_floor, slow) <= floor_at(hard_floor, fast),
        floor_at(hard_floor, fast) <= hard_floor + MAX_BRAKE,
{
}

/// The supported cap does not depend on how full the cache is: as the cache
/// grows, free memory shrinks by as much.
pub proof fn supported_cap_is_a_fixed_point(resident: u64, avail: u64, hard_floor: u64, d: u64)
    requires
        d <= avail,
        resident + avail <= u64::MAX,
    ensures
        supported((resident + d) as u64, (avail - d) as u64, hard_floor) == supported(
            resident,
            avail,
            hard_floor,
        ),
{
}

/// The cap earns back at most one step, and never more than the plan.
pub proof fn recovery_is_bounded_by_the_plan(learned_cap: u64, fill_target: u64)
    ensures
        recovered(learned_cap, fill_target) <= fill_target,
        recovered(learned_cap, fill_target) <= learned_cap + CAP_RECOVER_PER_TICK,
        learned_cap <= fill_target ==> learned_cap <= recovered(learned_cap, fill_target),
{
}

impl Guard {
    /// The floors are in order and the cap stays between the smallest budget
    /// and the plan.
    pub open spec fn in_plan(self) -> bool {
        &&& FLOOR_MIN <= self.learned_cap <= self.fill_target
        &&& FLOOR_MIN <= self.hard_floor <= self.danger_floor
    }
}

/// A guard starts within its plan.
pub proof fn a_guard_starts_in_plan(
    fill_target: u64,
    danger_floor: u64,
    hard_floor: u64,
    swap: Option<u64>,
    avail: Option<u64>,
)
    ensures
        Guard::started(fill_target, danger_floor, hard_floor, swap, avail).in_plan(),
{
}

/// Whatever a reading shows, a guard within its plan stays within it, as long
/// as the cache is.
pub proof fn ticks_stay_in_plan(g: Guard, r: Reading)
    requires
        g.in_plan(),
        r.resident <= g.fill_target,
    ensures
        g.after(r).in_plan(),
        g.after(r).fill_target == g.fill_target,
        g.after(r).hard_floor == g.hard_floor,
        g.after(r).danger_floor == g.danger_floor,
{
}

/// No reading drives the budget under the smallest one.
pub proof fn the_budget_never_goes_under_the_floor(g: Guard, r: Reading)
    ensures
        g.budget_after(r) >= FLOOR_MIN,
{
}

/// Without an emergency the cap grows by at most one recovery step per tick, so
/// the cache approaches the floor no faster than that.
pub proof fn growth_is_limited_by_recovery(g: Guard, r: Reading)
    requires
        g.in_plan(),
        g.pressure(r) != Pressure::Oom,
    ensures
        g.after(r).learned_cap <= g.learned_cap + CAP_RECOVER_PER_TICK,
{
}

/// In an emergency the budget asks for enough to restore the slack above the
/// floor, or for everything down to the smallest budget.
pub proof fn an_emergency_restores_the_slack(g: Guard, r: Reading)
    requires
        g.pressure(r) == Pressure::Oom,
        g.floor(r) + HARD_SLACK <= u64::MAX,
    ensures
        g.budget_after(r) == FLOOR_MIN || (g.budget_after(r) < r.resident && r.avail + (r.resident
            - g.budget_after(r)) == g.floor(r) + HARD_SLACK),
{
}

/// Paging gives back a quarter of what is resident, and never raises the budget
/// above the smallest one.
pub proof fn paging_gives_back_a_quarter(g: Guard, r: Reading)
    requires
        g.pressure(r) == Pressure::Swap,
    ensures
        g.budget_after(r) == FLOOR_MIN || (g.budget_after(r) <= r.budget && g.budget_after(r)
            <= r.resident - r.resident / 4),
{
}

/// On a machine with room the guard is invisible: the budget stays the plan less
/// what is reserved.
pub proof fn with_room_the_plan_holds(g: Guard, r: Reading)
    requires
        g.in_plan(),
        g.learned_cap == g.fill_target,
        g.pressure(r) == Pressure::Soft,
        r.avail > g.danger_floor,
        supported(r.resident, r.avail, g.hard_floor) >= g.fill_target,
    ensures
        g.after(r).learned_cap == g.fill_target,
        g.budget_after(r) == larger(minus(g.fill_target, r.reserved), FLOOR_MIN),
{
}

/// A dip below the danger floor that has not lasted does not cut the budget.
pub proof fn a_short_dip_cuts_nothing(g: Guard, r: Reading)
    requires
        g.in_plan(),
        g.pressure(r) == Pressure::Soft,
        g.low_ticks + 1 < SUSTAIN,
        supported(r.resident, r.avail, g.hard_floor) >= g.learned_cap,
    ensures
        g.budget_after(r) >= larger(minus(g.learned_cap, r.reserved), FLOOR_MIN),
{
}

/// While memory stays above the floor, the guard may look away for four ticks at the
/// present rate and still find the hard floor uncrossed, up to a brake of 8 GiB; and
/// the floor asks for no more than that.
pub proof fn the_floor_leaves_time_to_brake(hard_floor: u64, rate: u64, floor: u64)
    requires
        call_ensures(braking_floor, (hard_floor, rate), floor),
        hard_floor + 0x2_0000_0000 <= u64::MAX,
    ensures
        rate <= 0x8000_0000 ==> floor - 4 * rate == hard_floor,
        rate > 0x8000_0000 ==> floor - 0x2_0000_0000 == hard_floor,
{
}

/// The cap that memory supports leaves the hard floor and 4 GiB free, and no more.
pub proof fn the_supported_cap_leaves_a_margin(
    resident: u64,
    avail: u64,
    hard_floor: u64,
    cap: u64,
    margin: u64,
)
    requires
        call_ensures(supported_cap, (resident, avail, hard_floor), cap),
        call_ensures(cap_margin, (hard_floor,), margin),
        resident + avail <= u64::MAX,
        hard_floor + 0x1_0000_0000 <= u64::MAX,
    ensures
        margin == hard_floor + 0x1_0000_0000,
        cap > 0 ==> cap + margin == resident + avail,
        cap == 0 ==> resident + avail <= margin,
{
}

/// The learned cap comes back by 64 MiB at a time and stops at the plan.
pub proof fn the_cap_comes_back_in_steps(learned: u64, fill_target: u64, cap: u64)
    requires
        call_ensures(recover_cap, (learned, fill_target), cap),
    ensures
        learned + 0x400_0000 <= fill_target ==> cap == learned + 0x400_0000,
        learned + 0x400_0000 > fill_target ==> cap == fill_target,
{
}

/// What a guard starts with: at least 2 GiB of plan and of floor, a danger floor that is
/// not under the hard one, and a cap of what is free less the margin.
pub proof fn a_guard_starts_with_what_is_free(
    fill_target: u64,
    danger_floor: u64,
    hard_floor: u64,
    swap: Option<u64>,
    avail: Option<u64>,
    g: Guard,
)
    requires
        call_ensures(Guard::start, (fill_target, danger_floor, hard_floor, swap, avail), g),
        hard_floor <= 0x1_0000_0000_0000,
    ensures
        g.fill_target >= fill_target && g.fill_target >= 0x8000_0000,
        g.fill_target == fill_target || g.fill_target == 0x8000_0000,
        g.hard_floor >= hard_floor && g.hard_floor >= 0x8000_0000,
        g.hard_floor == hard_floor || g.hard_floor == 0x8000_0000,
        g.danger_floor >= danger_floor && g.danger_floor >= g.hard_floor,
        g.danger_floor == danger_floor || g.danger_floor == g.hard_floor,
        g.low_ticks == 0,
        swap is Some ==> g.swap_baseline == swap->0,
        swap is None ==> g.swap_baseline == 0,
        avail is Some ==> g.prev_avail == avail->0,
        avail is None ==> g.prev_avail == u64::MAX && g.learned_cap == g.fill_target,
        0x8000_0000 <= g.learned_cap <= g.fill_target,
        avail is Some && 0x8000_0000 < g.learned_cap < g.fill_target ==> g.learned_cap
            + g.hard_floor + 0x1_0000_0000 == avail->0,
        avail is Some && g.learned_cap == g.fill_target > 0x8000_0000 ==> g.learned_cap
            + g.hard_floor + 0x1_0000_0000 <= avail->0,
        avail is Some && g.learned_cap == 0x8000_0000 < g.fill_target ==> g.learned_cap
            + g.hard_floor + 0x1_0000_0000 >= avail->0,
{
}

/// What counts as which pressure: swap that grew by more than 256 MiB comes first; then
/// free memory that would be under the hard floor within four ticks of the present rate,
/// with a brake of at most 8 GiB.
pub proof fn each_pressure_has_its_sign(g: Guard, r: Reading)
    requires
        g.hard_floor <= 0x1_0000_0000_0000,
    ensures
        g.pressure(r) == Pressure::Swap <==> r.swap is Some && r.swap->0 > g.swap_baseline
            + 0x1000_0000,
        g.pressure(r) == Pressure::Oom ==> r.avail < g.hard_floor + 0x2_0000_0000,
        g.pressure(r) == Pressure::Oom && r.avail >= g.hard_floor ==> r.avail - 4 * (g.prev_avail
            - r.avail) < g.hard_floor,
        g.pressure(r) == Pressure::Soft ==> r.avail >= g.hard_floor,
        g.pressure(r) == Pressure::Soft && r.avail < g.prev_avail ==> r.avail >= g.hard_floor
            + 0x2_0000_0000 || r.avail - 4 * (g.prev_avail - r.avail) >= g.hard_floor,
{
}

/// Paging cuts a quarter of what the cache holds and is not remembered as a limit; an
/// emergency frees memory up to 3 GiB above the floor and is. Neither goes under 2 GiB.
pub proof fn an_emergency_cuts_at_once(g: Guard, r: Reading)
    requires
        g.pressure(r) != Pressure::Soft,
        g.hard_floor <= 0x1_0000_0000_0000,
    ensures
        g.pressure(r) == Pressure::Swap ==> {
            let quarter_less = r.resident - r.resident / 4;
            let cut = if quarter_less < r.budget {
                quarter_less
            } else {
                r.budget as int
            };
            &&& cut >= 0x8000_0000 ==> g.budget_after(r) == cut
            &&& cut < 0x8000_0000 ==> g.budget_after(r) == 0x8000_0000
            &&& g.after(r).learned_cap == g.learned_cap
        },
        g.pressure(r) == Pressure::Oom ==> {
            let freed = r.resident - g.budget_after(r);
            &&& g.after(r).learned_cap == g.budget_after(r)
            &&& g.budget_after(r) > 0x8000_0000 ==> r.avail + freed == g.floor(r) + 0xc000_0000
            &&& g.budget_after(r) == 0x8000_0000 ==> r.avail + freed <= g.floor(r) + 0xc000_0000
            &&& g.budget_after(r) >= 0x8000_0000
        },
        g.after(r).low_ticks == 0,
        g.after(r).prev_avail == r.avail,
{
}

/// Ticks below the danger floor are counted in a row, and the sixth cedes what is
/// missing to that floor. Before that the budget is the cap less what is reserved.
pub proof fn lasting_pressure_cedes_what_is_missing(g: Guard, r: Reading)
    requires
        g.pressure(r) == Pressure::Soft,
        g.low_ticks < u32::MAX,
    ensures
        r.avail >= g.danger_floor ==> g.after(r).low_ticks == 0,
        r.avail < g.danger_floor ==> g.after(r).low_ticks == g.low_ticks + 1,
        g.after(r).prev_avail == r.avail,
        g.budget_after(r) >= 0x8000_0000,
        r.avail < g.danger_floor && g.low_ticks >= 5 && g.budget_after(r) > 0x8000_0000
            ==> r.resident - g.budget_after(r) == g.danger_floor - r.avail,
        r.avail < g.danger_floor && g.low_ticks >= 5 && g.budget_after(r) == 0x8000_0000
            ==> r.resident - g.budget_after(r) <= g.danger_floor - r.avail,
        (r.avail >= g.danger_floor || g.low_ticks < 5) && g.budget_after(r) > 0x8000_0000
            ==> g.budget_after(r) + r.reserved == g.after(r).learned_cap,
        (r.avail >= g.danger_floor || g.low_ticks < 5) && g.budget_after(r) == 0x8000_0000
            ==> g.after(r).learned_cap <= g.budget_after(r) + r.reserved,
{
}

/// Without an emergency the cap is what was learned, or less where memory supports less;
/// it comes back by one step exactly where memory is above the danger floor and the
/// cache is within a step of filling it.
pub proof fn the_cap_follows_what_memory_supports(g: Guard, r: Reading)
    requires
        g.in_plan(),
        g.pressure(r) == Pressure::Soft,
        g.hard_floor <= 0x1_0000_0000_0000,
        r.resident + r.avail <= 0x1_0000_0000_0000_0000 - 0x400_0001,
        g.fill_target <= 0x1_0000_0000_0000,
    ensures
        ({
            let left = r.resident + r.avail - (g.hard_floor + 0x1_0000_0000);
            let held = if left < 0x8000_0000 {
                0x8000_0000
            } else if left < g.learned_cap {
                left
            } else {
                g.learned_cap as int
            };
            let comes_back = r.avail > g.danger_floor && r.resident + 0x400_0000 >= held;
            &&& !comes_back ==> g.after(r).learned_cap == held
            &&& comes_back && held + 0x400_0000 <= g.fill_target ==> g.after(r).learned_cap == held
                + 0x400_0000
            &&& comes_back && held + 0x400_0000 > g.fill_target ==> g.after(r).learned_cap
                == g.fill_target
        }),
{
}

/// A verdict is what the guard's memory follows: in an emergency the cache comes down at
/// once, and otherwise exactly where it holds more than the budget.
pub proof fn a_verdict_is_carried_out(g: &mut Guard, r: Reading, v: Verdict)
    requires
        call_ensures(Guard::tick, (g, r), v),
    ensures
        v.budget == old(g).budget_after(r),
        v.budget >= 0x8000_0000,
        v.budget < r.resident ==> v.evict,
        old(g).pressure(r) == Pressure::Swap || old(g).pressure(r) == Pressure::Oom ==> v.evict,
        v.evict && v.budget >= r.resident ==> old(g).pressure(r) != Pressure::Soft,
        final(g).prev_avail == r.avail,
        final(g).fill_target == old(g).fill_target,
        final(g).hard_floor == old(g).hard_floor,
        final(g).danger_floor == old(g).danger_floor,
        final(g).swap_baseline == old(g).swap_baseline,
{
}

/// Pressure counts as lasting once it has been seen for more than half a second, and the
/// guard looks ten times a second.
pub proof fn pressure_lasts_for_half_a_second(ticks: int)
    ensures
        ticks >= SUSTAIN <==> ticks * TICK_MS > 500,
        10 * TICK_MS == 1000,
{
}

} // verus!
