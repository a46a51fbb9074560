//! Running a layer's routed experts on the device: one by one or as a group.
//!
//! A group's rows are gathered expert by expert, computed in chunks of experts,
//! and added back to the tokens they came from. A path that cannot take the whole
//! group declines before it changes anything, and the caller takes another one.

use vstd::prelude::*;
use crate::capacity::div_up;

verus! {

/// Experts per call of the grouped kernels.
pub const GROUP_CAP: usize = 64;

/// Experts staged per transfer, unless configured.
pub const GROUP_CHUNK_DEFAULT: usize = 32;

/// Experts that the one-row ternary kernel takes at most.
pub const INT2_MAX: usize = 16;

/// What a path asks of a weight.
#[derive(Debug, Clone, Copy, PartialEq, Eq, Structural)]
pub struct TensorFacts {
    pub fmt: i32,
    pub o: usize,
    pub i: usize,
    /// May be used from the device.
    pub eligible: bool,
    /// Per-row scales.
    pub scales: usize,
}

/// An expert that tokens were routed to, and their rows.
pub struct ActiveExpert {
    pub gate: TensorFacts,
    pub up: TensorFacts,
    pub down: TensorFacts,
    pub bytes: u64,
    pub rows: Vec<usize>,
}

/// A kernel of the fused expert block.
#[derive(Debug, Clone, Copy, PartialEq, Eq, Structural)]
pub enum Kernel {
    Nvfp4,
    Fp8,
    /// Tiled int8.
    Int8Tiled,
    Plain,
}

/// How one expert runs.
#[derive(Debug, Clone, Copy, PartialEq, Eq, Structural)]
pub enum FfnRoute {
    /// On the host.
    Host,
    /// On the device, weights in place.
    InPlace(Kernel),
    /// On the device, weights copied there and kept.
    Copied(Kernel),
}

/// The kernel for weights of format `fmt`.
pub open spec fn kernel_for(fmt: i32, tile_i8: bool) -> Kernel {
    if fmt == 5 {
        Kernel::Nvfp4
    } else if fmt == 4 {
        Kernel::Fp8
    } else if fmt == 1 && tile_i8 {
        Kernel::Int8Tiled
    } else {
        Kernel::Plain
    }
}

/// How an expert of three projections runs. The four-bit format has no copied
/// form: its scales are read in place only.
pub fn try_expert_ffn(
    gate: TensorFacts,
    up: TensorFacts,
    down: TensorFacts,
    available: bool,
    zerocopy: bool,
    tile_i8: bool,
) -> (r: FfnRoute)
    ensures
        r == if !(available && gate.eligible && up.eligible && down.eligible) {
            FfnRoute::Host
        } else if zerocopy {
            FfnRoute::InPlace(kernel_for(gate.fmt, tile_i8))
        } else if gate.fmt == 5 {
            FfnRoute::Host
        } else {
            FfnRoute::Copied(kernel_for(gate.fmt, tile_i8))
        },
{
    if !available || !gate.eligible || !up.eligible || !down.eligible {
        return FfnRoute::Host;
    }
    let kernel: Kernel = if gate.fmt == 5 {
        Kernel::Nvfp4
    } else if gate.fmt == 4 {
        Kernel::Fp8
    } else if gate.fmt == 1 && tile_i8 {
        Kernel::Int8Tiled
    } else {
        Kernel::Plain
    };
    if zerocopy {
        FfnRoute::InPlace(kernel)
    } else if gate.fmt == 5 {
        FfnRoute::Host
    } else {
        FfnRoute::Copied(kernel)
    }
}

/// Whether an expert in the MX four-bit format runs on the device: all three
/// projections are in it, and are read in place.
pub fn try_expert_ffn_mxfp4(
    gate: TensorFacts,
    up: TensorFacts,
    down: TensorFacts,
    available: bool,
    zerocopy: bool,
) -> (b: bool)
    ensures
        b == (available && zerocopy && gate.fmt == 6 && up.fmt == 6 && down.fmt == 6),
{
    available && zerocopy && gate.fmt == 6 && up.fmt == 6 && down.fmt == 6
}

/// Whether an expert of two projections runs on the device: both are in the
/// four-bit format, and are read in place.
pub fn try_expert_ffn_relu2(up: TensorFacts, down: TensorFacts, available: bool, zerocopy: bool) -> (b:
    bool)
    ensures
        b == (available && up.eligible && down.eligible && up.fmt == 5 && down.fmt == 5
            && zerocopy),
{
    available && up.eligible && down.eligible && up.fmt == 5 && down.fmt == 5 && zerocopy
}

/// How a group runs.
#[derive(Debug, Clone, Copy, PartialEq, Eq, Structural)]
pub enum GroupRoute {
    /// Not as a group.
    Decline,
    /// Nothing was routed: there is nothing to do.
    Nothing,
    /// In calls of at most `chunk` experts.
    Chunked { chunk: usize },
    /// In one call over all experts; where that fails, in chunks.
    Segmented,
}

/// Whether an expert is one of 8-bit floats.
pub open spec fn is_fp8(e: ActiveExpert) -> bool {
    e.gate.eligible && e.gate.fmt == 4 && e.up.fmt == 4 && e.down.fmt == 4
}

/// Whether an expert of three projections is in format `fmt` and takes rows of
/// `d` values.
pub open spec fn is_packed(e: ActiveExpert, fmt: i32, d: usize) -> bool {
    &&& e.gate.eligible
    &&& e.up.eligible
    &&& e.down.eligible
    &&& e.gate.fmt == fmt
    &&& e.up.fmt == fmt
    &&& e.down.fmt == fmt
    &&& e.gate.i == d
    &&& e.up.i == d
    &&& e.down.o == d
}

/// Whether an expert of two projections is in the four-bit format and takes rows
/// of `d` values.
pub open spec fn is_relu2(e: ActiveExpert, d: usize) -> bool {
    &&& e.up.eligible
    &&& e.down.eligible
    &&& e.up.fmt == 5
    &&& e.down.fmt == 5
    &&& e.up.i == d
    &&& e.down.o == d
}

/// Whether an expert is a ternary one of the given widths.
pub open spec fn is_int2(e: ActiveExpert, d: usize, inter: usize) -> bool {
    &&& e.gate.fmt == 3
    &&& e.up.fmt == 3
    &&& e.down.fmt == 3
    &&& e.gate.eligible
    &&& e.up.eligible
    &&& e.down.eligible
    &&& e.gate.i == d
    &&& e.up.i == d
    &&& e.down.o == d
    &&& e.gate.o == inter
    &&& e.up.o == inter
    &&& e.down.i == inter
    &&& e.gate.scales == inter
    &&& e.up.scales == inter
    &&& e.down.scales == d
}

/// How a group of experts of 8-bit floats runs.
pub fn try_expert_group(active: &Vec<ActiveExpert>, available: bool, zerocopy: bool) -> (r: GroupRoute)
    ensures
        r == if !(available && zerocopy) {
            GroupRoute::Decline
        } else if active@.len() == 0 {
            GroupRoute::Nothing
        } else if forall|k: int| 0 <= k < active@.len() ==> is_fp8(#[trigger] active@[k]) {
            GroupRoute::Chunked { chunk: GROUP_CAP }
        } else {
            GroupRoute::Decline
        },
{
    if !available || !zerocopy {
        return GroupRoute::Decline;
    }
    if active.len() == 0 {
        return GroupRoute::Nothing;
    }
    for k in 0..active.len()
        invariant
            forall|j: int| 0 <= j < k ==> is_fp8(#[trigger] active@[j]),
    {
        let e: &ActiveExpert = &active[k];
        if !(e.gate.eligible && e.gate.fmt == 4 && e.up.fmt == 4 && e.down.fmt == 4) {
            assert(!is_fp8(active@[k as int]));
            return GroupRoute::Decline;
        }
    }
    GroupRoute::Chunked { chunk: GROUP_CAP }
}

/// What a layer's switches allow.
#[derive(Debug, Clone, Copy, PartialEq, Eq, Structural)]
pub struct GroupSwitches {
    /// Groups of several rows per expert.
    pub prefill: bool,
    /// One call over all experts, where some expert has several rows.
    pub seg: bool,
    /// One call over all experts, where each has one row.
    pub seg_decode: bool,
}

/// Whether some expert has several rows.
pub open spec fn has_many_rows(active: Seq<ActiveExpert>) -> bool {
    exists|k: int| 0 <= k < active.len() && (#[trigger] active[k]).rows@.len() > 1
}

/// Whether every expert has exactly one row.
pub open spec fn one_row_each(active: Seq<ActiveExpert>) -> bool {
    forall|k: int| 0 <= k < active.len() ==> (#[trigger] active[k]).rows@.len() == 1
}

/// How a group of experts of two projections runs. By default only steps run as a
/// group, where every expert has one row.
pub fn try_expert_group_relu2(
    active: &Vec<ActiveExpert>,
    d: usize,
    available: bool,
    zerocopy: bool,
    switches: GroupSwitches,
) -> (r: GroupRoute)
    ensures
        r == if !(available && zerocopy) {
            GroupRoute::Decline
        } else if active@.len() == 0 {
            GroupRoute::Nothing
        } else if !switches.prefill && !switches.seg && !one_row_each(active@) {
            GroupRoute::Decline
        } else if !(forall|k: int| 0 <= k < active@.len() ==> is_relu2(#[trigger] active@[k], d)) {
            GroupRoute::Decline
        } else if (switches.seg && has_many_rows(active@)) || (switches.seg_decode && active@.len()
            > 1) {
            GroupRoute::Segmented
        } else {
            GroupRoute::Chunked { chunk: GROUP_CAP }
        },
{
    if !available || !zerocopy {
        return GroupRoute::Decline;
    }
    if active.len() == 0 {
        return GroupRoute::Nothing;
    }
    let mut single: bool = true;
    let mut many: bool = false;
    let mut fits: bool = true;
    for k in 0..active.len()
        invariant
            single == (forall|j: int| 0 <= j < k ==> (#[trigger] active@[j]).rows@.len() == 1),
            many == (exists|j: int| 0 <= j < k && (#[trigger] active@[j]).rows@.len() > 1),
            fits == (forall|j: int| 0 <= j < k ==> is_relu2(#[trigger] active@[j], d)),
    {
        let e: &ActiveExpert = &active[k];
        let n: usize = e.rows.len();
        assert(active@[k as int].rows@.len() == n);
        if n != 1 {
            single = false;
        }
        if n > 1 {
            many = true;
        }
        if !(e.up.eligible && e.down.eligible && e.up.fmt == 5 && e.down.fmt == 5 && e.up.i == d
            && e.down.o == d) {
            assert(!is_relu2(active@[k as int], d));
            fits = false;
        }
    }
    if !switches.prefill && !switches.seg && !single {
        return GroupRoute::Decline;
    }
    if !fits {
        return GroupRoute::Decline;
    }
    if (switches.seg && many) || (switches.seg_decode && active.len() > 1) {
        GroupRoute::Segmented
    } else {
        GroupRoute::Chunked { chunk: GROUP_CAP }
    }
}

/// How a group goes on once a single call over all experts was tried: done, or in
/// chunks.
pub fn after_segmented(ok: bool) -> (r: GroupRoute)
    ensures
        r == if ok { GroupRoute::Nothing } else { (GroupRoute::Chunked { chunk: GROUP_CAP }) },
{
    if ok {
        GroupRoute::Nothing
    } else {
        GroupRoute::Chunked { chunk: GROUP_CAP }
    }
}

/// The one token whose row every expert of a ternary group takes, if the group
/// can run in one call: few experts of the same widths, one row each, the same
/// for all.
pub fn try_expert_group_int2_decode(
    active: &Vec<ActiveExpert>,
    d: usize,
    available: bool,
    enabled: bool,
) -> (token: Option<usize>)
    ensures
        match token {
            Some(t) => {
                &&& available && enabled
                &&& 0 < active@.len() <= INT2_MAX
                &&& forall|k: int|
                    0 <= k < active@.len() ==> {
                        &&& (#[trigger] active@[k]).rows@.len() == 1
                        &&& active@[k].rows@[0] == t
                        &&& is_int2(active@[k], d, active@[0].gate.o)
                    }
            },
            None => {
                ||| !(available && enabled)
                ||| active@.len() == 0
                ||| active@.len() > INT2_MAX
                ||| active@[0].rows@.len() == 0
                ||| exists|k: int|
                    0 <= k < active@.len() && {
                        ||| (#[trigger] active@[k]).rows@.len() != 1
                        ||| active@[k].rows@[0] != active@[0].rows@[0]
                        ||| !is_int2(active@[k], d, active@[0].gate.o)
                    }
            },
        },
{
    if !available || !enabled || active.len() == 0 || active.len() > INT2_MAX {
        return None;
    }
    if active[0].rows.len() == 0 {
        return None;
    }
    let t: usize = active[0].rows[0];
    let inter: usize = active[0].gate.o;
    for k in 0..active.len()
        invariant
            active@.len() > 0,
            active@[0].rows@.len() > 0,
            t == active@[0].rows@[0],
            inter == active@[0].gate.o,
            forall|j: int|
                0 <= j < k ==> {
                    &&& (#[trigger] active@[j]).rows@.len() == 1
                    &&& active@[j].rows@[0] == t
                    &&& is_int2(active@[j], d, inter)
                },
    {
        let e: &ActiveExpert = &active[k];
        if e.rows.len() != 1 {
            assert(active@[k as int].rows@.len() != 1);
            return None;
        }
        if e.rows[0] != t {
            assert(active@[k as int].rows@[0] != t);
            return None;
        }
        let fits: bool = e.gate.fmt == 3 && e.up.fmt == 3 && e.down.fmt == 3 && e.gate.eligible
            && e.up.eligible && e.down.eligible && e.gate.i == d && e.up.i == d && e.down.o == d
            && e.gate.o == inter && e.up.o == inter && e.down.i == inter && e.gate.scales == inter
            && e.up.scales == inter && e.down.scales == d;
        if !fits {
            assert(!is_int2(active@[k as int], d, inter));
            return None;
        }
    }
    Some(t)
}

/// How a packed group runs, and the memory that its staging takes.
#[derive(Debug, Clone, Copy, PartialEq, Eq, Structural)]
pub struct PackedPlan {
    pub route: GroupRoute,
    /// Bytes charged for staging; `None` leaves the ledger as it is.
    pub charge: Option<u64>,
}

/// The bytes of the largest expert.
pub open spec fn largest(active: Seq<ActiveExpert>) -> u64
    decreases active.len(),
{
    if active.len() == 0 {
        0
    } else {
        let m = largest(active.drop_last());
        if active.last().bytes > m {
            active.last().bytes
        } else {
            m
        }
    }
}

/// A byte count, held at `u64::MAX`.
pub open spec fn held(n: int) -> u64 {
    if n > u64::MAX {
        u64::MAX
    } else {
        n as u64
    }
}

/// Experts per transfer: the configured number, none for the whole layer.
pub open spec fn wanted_chunk(configured: Option<usize>, n: nat) -> int {
    match configured {
        Some(c) => if c == 0 {
            n as int
        } else {
            c as int
        },
        None => GROUP_CHUNK_DEFAULT as int,
    }
}

/// How `n` experts of at most `per_expert` bytes are staged: each takes its bytes
/// twice, once in a pinned buffer and once on the device, and all staging
/// together at most a quarter of the memory that is free. Where not even one fits,
/// the group declines.
pub open spec fn staging(
    per_expert: u64,
    n: nat,
    configured: Option<usize>,
    headroom: Option<u64>,
) -> PackedPlan {
    let each = held(per_expert * 2);
    let want = wanted_chunk(configured, n);
    let budget = match headroom {
        Some(h) => h as int / 4,
        None => u64::MAX as int,
    };
    if each == 0 {
        PackedPlan { route: GroupRoute::Chunked { chunk: want as usize }, charge: None }
    } else if budget / (each as int) == 0 {
        PackedPlan { route: GroupRoute::Decline, charge: None }
    } else {
        let chunk = if budget / (each as int) < want { budget / (each as int) } else { want };
        PackedPlan {
            route: GroupRoute::Chunked { chunk: chunk as usize },
            charge: Some(held(each * chunk)),
        }
    }
}

/// How experts of at most `per_expert` bytes are staged.
pub fn plan_staging(per_expert: u64, n: usize, configured: Option<usize>, headroom: Option<u64>) -> (p:
    PackedPlan)
    requires
        n > 0,
    ensures
        p == staging(per_expert, n as nat, configured, headroom),
        p.route matches GroupRoute::Chunked { chunk } ==> chunk >= 1,
{
    let each: u64 = if per_expert > u64::MAX / 2 { u64::MAX } else { per_expert * 2 };
    let want: usize = match configured {
        Some(c) => if c == 0 {
            n
        } else {
            c
        },
        None => GROUP_CHUNK_DEFAULT,
    };
    if each == 0 {
        return PackedPlan { route: GroupRoute::Chunked { chunk: want }, charge: None };
    }
    let budget: u64 = match headroom {
        Some(h) => h / 4,
        None => u64::MAX,
    };
    let fits: u64 = budget / each;
    if fits == 0 {
        return PackedPlan { route: GroupRoute::Decline, charge: None };
    }
    let chunk: usize = if fits < want as u64 { fits as usize } else { want };
    proof {
        assert(0 <= each * chunk <= u128::MAX) by (nonlinear_arith)
            requires
                0 <= each <= 0xffff_ffff_ffff_ffff,
                0 <= chunk <= 0xffff_ffff_ffff_ffff,
        ;
    }
    let charge: u128 = each as u128 * chunk as u128;
    PackedPlan {
        route: GroupRoute::Chunked { chunk },
        charge: Some(if charge > u64::MAX as u128 { u64::MAX } else { charge as u64 }),
    }
}

/// How a group of packed experts of three projections runs.
pub fn try_expert_group_packed(
    active: &Vec<ActiveExpert>,
    d: usize,
    fmt: i32,
    available: bool,
    zerocopy: bool,
    configured: Option<usize>,
    headroom: Option<u64>,
) -> (p: PackedPlan)
    ensures
        p == if !(available && zerocopy) {
            PackedPlan { route: GroupRoute::Decline, charge: None }
        } else if active@.len() == 0 {
            PackedPlan { route: GroupRoute::Nothing, charge: None }
        } else if forall|k: int|
            0 <= k < active@.len() ==> is_packed(#[trigger] active@[k], fmt, d) {
            staging(largest(active@), active@.len(), configured, headroom)
        } else {
            PackedPlan { route: GroupRoute::Decline, charge: None }
        },
{
    if !available || !zerocopy {
        return PackedPlan { route: GroupRoute::Decline, charge: None };
    }
    if active.len() == 0 {
        return PackedPlan { route: GroupRoute::Nothing, charge: None };
    }
    let mut most: u64 = 0;
    assert(active@.take(0) =~= Seq::<ActiveExpert>::empty());
    for k in 0..active.len()
        invariant
            most == largest(active@.take(k as int)),
            forall|j: int| 0 <= j < k ==> is_packed(#[trigger] active@[j], fmt, d),
    {
        let e: &ActiveExpert = &active[k];
        let fits: bool = e.gate.eligible && e.up.eligible && e.down.eligible && e.gate.fmt == fmt
            && e.up.fmt == fmt && e.down.fmt == fmt && e.gate.i == d && e.up.i == d && e.down.o
            == d;
        if !fits {
            assert(!is_packed(active@[k as int], fmt, d));
            return PackedPlan { route: GroupRoute::Decline, charge: None };
        }
        assert(active@.take(k + 1).drop_last() =~= active@.take(k as int));
        assert(active@.take(k + 1).last() == active@[k as int]);
        if e.bytes > most {
            most = e.bytes;
        }
    }
    assert(active@.take(active@.len() as int) =~= active@);
    plan_staging(most, active.len(), configured, headroom)
}

/// How a group of experts in the four-bit block format runs.
pub fn try_expert_group_nvfp4(
    active: &Vec<ActiveExpert>,
    d: usize,
    available: bool,
    zerocopy: bool,
    configured: Option<usize>,
    headroom: Option<u64>,
) -> (p: PackedPlan)
    ensures
        p == if !(available && zerocopy) {
            PackedPlan { route: GroupRoute::Decline, charge: None }
        } else if active@.len() == 0 {
            PackedPlan { route: GroupRoute::Nothing, charge: None }
        } else if forall|k: int| 0 <= k < active@.len() ==> is_packed(#[trigger] active@[k], 5, d) {
            staging(largest(active@), active@.len(), configured, headroom)
        } else {
            PackedPlan { route: GroupRoute::Decline, charge: None }
        },
{
    try_expert_group_packed(active, d, 5, available, zerocopy, configured, headroom)
}

/// Staging never takes more than a quarter of the memory that is free.
pub proof fn staging_leaves_three_quarters(
    per_expert: u64,
    n: nat,
    configured: Option<usize>,
    free: u64,
    chunk: usize,
)
    requires
        0 < n <= usize::MAX,
        staging(per_expert, n, configured, Some(free)).route == (GroupRoute::Chunked { chunk }),
        0 < per_expert <= u64::MAX / 2,
    ensures
        chunk * (2 * per_expert) <= free / 4,
{
    let each = 2 * per_expert as int;
    let budget = free as int / 4;
    let fits = budget / each;
    vstd::arithmetic::div_mod::lemma_fundamental_div_mod(budget, each);
    assert(chunk * each <= fits * each) by (nonlinear_arith)
        requires
            chunk <= fits,
            each > 0,
    ;
    assert(fits * each == each * fits) by (nonlinear_arith);
}

/// Rows of the first `n` experts.
pub open spec fn rows_before(active: Seq<ActiveExpert>, n: int) -> nat
    decreases n,
{
    if n <= 0 {
        0
    } else {
        rows_before(active, n - 1) + active[n - 1].rows@.len()
    }
}

/// Where the rows of a group come from, in the order in which they are gathered.
pub struct Gather {
    /// The token of each row.
    pub token_of: Vec<usize>,
    /// The expert that takes it.
    pub expert_of: Vec<usize>,
    /// Its place among that expert's rows.
    pub slot_of: Vec<usize>,
}

/// Whether row `g` of a gather is row `r` of expert `e`.
pub open spec fn gathers(gt: Gather, active: Seq<ActiveExpert>, e: int, r: int) -> bool {
    let g = rows_before(active, e) + r;
    &&& g < gt.token_of@.len()
    &&& gt.token_of@[g] == active[e].rows@[r]
    &&& gt.expert_of@[g] == e
    &&& gt.slot_of@[g] == r
}

/// Whether a gather takes every row of every expert, expert by expert.
pub open spec fn is_gather(gt: Gather, active: Seq<ActiveExpert>) -> bool {
    &&& gt.token_of@.len() == rows_before(active, active.len() as int)
    &&& gt.expert_of@.len() == gt.token_of@.len()
    &&& gt.slot_of@.len() == gt.token_of@.len()
    &&& forall|e: int, r: int|
        0 <= e < active.len() && 0 <= r < active[e].rows@.len() ==> #[trigger] gathers(
            gt,
            active,
            e,
            r,
        )
}

proof fn rows_before_grows(active: Seq<ActiveExpert>, a: int, b: int)
    requires
        0 <= a <= b,
    ensures
        rows_before(active, a) <= rows_before(active, b),
    decreases b - a,
{
    if a < b {
        rows_before_grows(active, a, b - 1);
    }
}

/// Gathers a group's rows, expert by expert.
pub fn gather(active: &Vec<ActiveExpert>) -> (gt: Gather)
    ensures
        is_gather(gt, active@),
{
    let mut token_of: Vec<usize> = Vec::new();
    let mut expert_of: Vec<usize> = Vec::new();
    let mut slot_of: Vec<usize> = Vec::new();
    for e in 0..active.len()
        invariant
            token_of@.len() == rows_before(active@, e as int),
            expert_of@.len() == token_of@.len(),
            slot_of@.len() == token_of@.len(),
            forall|x: int, r: int|
                0 <= x < e && 0 <= r < active@[x].rows@.len() ==> #[trigger] gathers(
                    (Gather { token_of, expert_of, slot_of }),
                    active@,
                    x,
                    r,
                ),
    {
        let rows: &Vec<usize> = &active[e].rows;
        for r in 0..rows.len()
            invariant
                e < active@.len(),
                *rows == active@[e as int].rows,
                token_of@.len() == rows_before(active@, e as int) + r,
                expert_of@.len() == token_of@.len(),
                slot_of@.len() == token_of@.len(),
                forall|x: int, q: int|
                    0 <= x < e && 0 <= q < active@[x].rows@.len() ==> #[trigger] gathers(
                        (Gather { token_of, expert_of, slot_of }),
                        active@,
                        x,
                        q,
                    ),
                forall|q: int|
                    0 <= q < r ==> #[trigger] gathers(
                        (Gather { token_of, expert_of, slot_of }),
                        active@,
                        e as int,
                        q,
                    ),
        {
            let ghost before = Gather { token_of, expert_of, slot_of };
            token_of.push(rows[r]);
            expert_of.push(e);
            slot_of.push(r);
            proof {
                let now = Gather { token_of, expert_of, slot_of };
                assert forall|x: int, q: int|
                    0 <= x < e && 0 <= q < active@[x].rows@.len() implies #[trigger] gathers(
                    now,
                    active@,
                    x,
                    q,
                ) by {
                    assert(gathers(before, active@, x, q));
                }
                assert forall|q: int| 0 <= q < r + 1 implies #[trigger] gathers(
                    now,
                    active@,
                    e as int,
                    q,
                ) by {
                    if q < r {
                        assert(gathers(before, active@, e as int, q));
                    }
                }
            }
        }
    }
    Gather { token_of, expert_of, slot_of }
}

/// Every gathered row is a row of some expert: nothing is gathered twice.
pub proof fn a_gathered_row_has_one_source(gt: Gather, active: Seq<ActiveExpert>, g: int)
    requires
        is_gather(gt, active),
        active.len() <= usize::MAX,
        0 <= g < gt.token_of@.len(),
    ensures
        ({
            let e = gt.expert_of@[g] as int;
            let r = gt.slot_of@[g] as int;
            &&& 0 <= e < active.len()
            &&& 0 <= r < active[e].rows@.len()
            &&& g == rows_before(active, e) + r
        }),
{
    let e = expert_at(active, g, active.len() as int);
    let r = g - rows_before(active, e);
    assert(gathers(gt, active, e, r));
}

proof fn expert_at(active: Seq<ActiveExpert>, g: int, n: int) -> (e: int)
    requires
        0 <= n <= active.len(),
        0 <= g < rows_before(active, n),
    ensures
        0 <= e < n,
        rows_before(active, e) <= g < rows_before(active, e) + active[e].rows@.len(),
    decreases n,
{
    if g >= rows_before(active, n - 1) {
        n - 1
    } else {
        expert_at(active, g, n - 1)
    }
}

/// One call of a grouped kernel: the experts `first .. last`, whose rows begin at
/// `row_off`.
#[derive(Debug, Clone, Copy, PartialEq, Eq, Structural)]
pub struct GroupChunk {
    pub first: usize,
    pub last: usize,
    pub row_off: usize,
    pub rows: usize,
}

/// Whether `plan` splits a group into calls of `chunk` experts, in order, each
/// with the rows of its own experts.
pub open spec fn is_chunk_plan(plan: Seq<GroupChunk>, active: Seq<ActiveExpert>, chunk: int) -> bool {
    &&& plan.len() == div_up(active.len() as int, chunk)
    &&& forall|k: int|
        0 <= k < plan.len() ==> {
            let c = #[trigger] plan[k];
            &&& c.first == k * chunk
            &&& c.last == if (k + 1) * chunk < active.len() {
                (k + 1) * chunk
            } else {
                active.len() as int
            }
            &&& c.first < c.last
            &&& c.row_off == rows_before(active, c.first as int)
            &&& c.row_off + c.rows == rows_before(active, c.last as int)
        }
}

/// Splits a group into calls of at most `chunk` experts.
pub fn group_chunks(active: &Vec<ActiveExpert>, chunk: usize) -> (plan: Vec<GroupChunk>)
    requires
        chunk >= 1,
        rows_before(active@, active@.len() as int) <= usize::MAX,
    ensures
        is_chunk_plan(plan@, active@, chunk as int),
{
    let n: usize = active.len();
    let mut plan: Vec<GroupChunk> = Vec::new();
    let mut first: usize = 0;
    let mut row_off: usize = 0;
    proof {
        assert(0 * chunk == 0) by (nonlinear_arith);
        if n == 0 {
            vstd::arithmetic::div_mod::lemma_basic_div(chunk - 1, chunk as int);
        }
    }
    while first < n
        invariant
            n == active@.len(),
            chunk >= 1,
            rows_before(active@, n as int) <= usize::MAX,
            first <= n,
            first < n ==> first == plan@.len() * chunk,
            first == n ==> plan@.len() == div_up(n as int, chunk as int),
            row_off == rows_before(active@, first as int),
            forall|k: int|
                0 <= k < plan@.len() ==> {
                    let c = #[trigger] plan@[k];
                    &&& c.first == k * chunk
                    &&& c.last == if (k + 1) * chunk < n {
                        (k + 1) * chunk
                    } else {
                        n as int
                    }
                    &&& c.first < c.last
                    &&& c.row_off == rows_before(active@, c.first as int)
                    &&& c.row_off + c.rows == rows_before(active@, c.last as int)
                },
        decreases n - first,
    {
        let take: usize = if chunk < n - first { chunk } else { n - first };
        let last: usize = first + take;
        let mut rows: usize = 0;
        for e in first..last
            invariant
                n == active@.len(),
                first <= last <= n,
                rows_before(active@, n as int) <= usize::MAX,
                row_off == rows_before(active@, first as int),
                row_off + rows == rows_before(active@, e as int),
        {
            proof {
                rows_before_grows(active@, e + 1, n as int);
            }
            rows = rows + active[e].rows.len();
        }
        let ghost k = plan@.len() as int;
        plan.push(GroupChunk { first, last, row_off, rows });
        proof {
            rows_before_grows(active@, last as int, n as int);
            assert((k + 1) * chunk == k * chunk + chunk) by (nonlinear_arith);
            if last == n {
                assert(n + chunk - 1 == (k + 1) * chunk + (take - 1));
                vstd::arithmetic::div_mod::lemma_fundamental_div_mod_converse(
                    n + chunk - 1,
                    chunk as int,
                    k + 1,
                    take - 1,
                );
            }
        }
        row_off = row_off + rows;
        first = last;
    }
    plan
}

/// The calls take every expert once and all rows once: each begins where the one
/// before ends, and the last ends with the last expert.
pub proof fn calls_take_the_whole_group(
    plan: Seq<GroupChunk>,
    active: Seq<ActiveExpert>,
    chunk: int,
    k: int,
)
    requires
        is_chunk_plan(plan, active, chunk),
        chunk >= 1,
        0 <= k < plan.len(),
    ensures
        plan[0].first == 0,
        plan[0].row_off == 0,
        k + 1 < plan.len() ==> {
            &&& plan[k + 1].first == plan[k].last
            &&& plan[k + 1].row_off == plan[k].row_off + plan[k].rows
        },
        k + 1 == plan.len() ==> {
            &&& plan[k].last == active.len()
            &&& plan[k].row_off + plan[k].rows == rows_before(active, active.len() as int)
        },
        plan[k].last - plan[k].first <= chunk,
{
    let n = active.len() as int;
    let m = plan.len() as int;
    vstd::arithmetic::div_mod::lemma_fundamental_div_mod(n + chunk - 1, chunk);
    assert(m * chunk <= n + chunk - 1 && n + chunk - 1 < m * chunk + chunk) by (nonlinear_arith)
        requires
            n + chunk - 1 == chunk * m + (n + chunk - 1) % chunk,
            0 <= (n + chunk - 1) % chunk < chunk,
    ;
    assert((k + 1) * chunk == k * chunk + chunk) by (nonlinear_arith);
    assert(0 * chunk == 0) by (nonlinear_arith);
    assert(plan[0].first == 0 * chunk);
    if k + 1 < m {
        assert((k + 2) * chunk <= m * chunk) by (nonlinear_arith)
            requires
                k + 2 <= m,
                chunk >= 1,
        ;
        assert((k + 2) * chunk == (k + 1) * chunk + chunk) by (nonlinear_arith);
        assert(plan[k + 1].first == (k + 1) * chunk);
    }
}

/// An expert runs on the device exactly if all of it may and the format can be read
/// there: in place where that is on, from a copy otherwise, which the four-bit format
/// does not have. Every format has its kernel.
pub proof fn a_device_takes_the_whole_expert(
    gate: TensorFacts,
    up: TensorFacts,
    down: TensorFacts,
    available: bool,
    zerocopy: bool,
    tile_i8: bool,
    r: FfnRoute,
)
    requires
        call_ensures(try_expert_ffn, (gate, up, down, available, zerocopy, tile_i8), r),
    ensures
        r != FfnRoute::Host ==> available && gate.eligible && up.eligible && down.eligible,
        r == FfnRoute::Host && available && gate.eligible && up.eligible && down.eligible
            ==> !zerocopy && gate.fmt == 5,
        r matches FfnRoute::InPlace(k) ==> zerocopy && (k == Kernel::Nvfp4 <==> gate.fmt == 5) && (k
            == Kernel::Fp8 <==> gate.fmt == 4) && (k == Kernel::Int8Tiled <==> gate.fmt == 1
            && tile_i8),
        r matches FfnRoute::Copied(k) ==> !zerocopy && gate.fmt != 5 && k != Kernel::Nvfp4 && (k
            == Kernel::Fp8 <==> gate.fmt == 4) && (k == Kernel::Int8Tiled <==> gate.fmt == 1
            && tile_i8),
{
}

/// The formats without a copied form are taken in place, and only where every
/// projection is in them.
pub proof fn in_place_formats_are_not_mixed(
    gate: TensorFacts,
    up: TensorFacts,
    down: TensorFacts,
    available: bool,
    zerocopy: bool,
    mx: bool,
    two: bool,
)
    requires
        call_ensures(try_expert_ffn_mxfp4, (gate, up, down, available, zerocopy), mx),
        call_ensures(try_expert_ffn_relu2, (up, down, available, zerocopy), two),
    ensures
        mx ==> gate.fmt == 6 && up.fmt == 6 && down.fmt == 6,
        two ==> up.fmt == 5 && down.fmt == 5 && up.eligible && down.eligible,
        mx || two ==> available && zerocopy,
        !(mx && two),
        available && zerocopy && gate.fmt == 6 && up.fmt == 6 && down.fmt == 6 ==> mx,
        available && zerocopy && up.fmt == 5 && down.fmt == 5 && up.eligible && down.eligible ==> two,
{
}

/// A group of 8-bit floats runs in calls of 64 experts, where the device reads in place
/// and every expert is of that format; one expert that is not makes it decline.
pub proof fn a_group_of_8_bit_floats_is_all_or_nothing(
    active: Vec<ActiveExpert>,
    available: bool,
    zerocopy: bool,
    r: GroupRoute,
    k: int,
)
    requires
        call_ensures(try_expert_group, (&active, available, zerocopy), r),
        0 <= k < active@.len(),
    ensures
        r != GroupRoute::Decline ==> r == (GroupRoute::Chunked { chunk: 64 }) && available
            && zerocopy && active@[k].gate.eligible && active@[k].gate.fmt == 4
            && active@[k].up.fmt == 4 && active@[k].down.fmt == 4,
        r == GroupRoute::Decline && available && zerocopy ==> exists|j: int|
            0 <= j < active@.len() && (!(#[trigger] active@[j]).gate.eligible || active@[j].gate.fmt
                != 4 || active@[j].up.fmt != 4 || active@[j].down.fmt != 4),
{
}

/// Nothing routed is nothing to do, where a group could run at all.
pub proof fn an_empty_group_is_nothing_to_do(
    active: Vec<ActiveExpert>,
    d: usize,
    fmt: i32,
    available: bool,
    zerocopy: bool,
    switches: GroupSwitches,
    configured: Option<usize>,
    headroom: Option<u64>,
    a: GroupRoute,
    b: GroupRoute,
    c: PackedPlan,
)
    requires
        active@.len() == 0,
        call_ensures(try_expert_group, (&active, available, zerocopy), a),
        call_ensures(try_expert_group_relu2, (&active, d, available, zerocopy, switches), b),
        call_ensures(
            try_expert_group_packed,
            (&active, d, fmt, available, zerocopy, configured, headroom),
            c,
        ),
    ensures
        a == b && b == c.route && c.charge is None,
        available && zerocopy ==> a == GroupRoute::Nothing,
        !(available && zerocopy) ==> a == GroupRoute::Decline,
{
}

/// A group of experts of two projections runs where every expert is in the four-bit
/// format and takes rows of the right width; several rows for one expert need a switch.
/// One call over all is taken for many rows or for a step of several experts, each by
/// its own switch, and calls of 64 otherwise or where that call fails.
pub proof fn two_projections_run_as_their_switches_say(
    active: Vec<ActiveExpert>,
    d: usize,
    available: bool,
    zerocopy: bool,
    switches: GroupSwitches,
    r: GroupRoute,
    k: int,
)
    requires
        call_ensures(try_expert_group_relu2, (&active, d, available, zerocopy, switches), r),
        0 <= k < active@.len(),
    ensures
        r != GroupRoute::Decline ==> {
            let e = active@[k];
            &&& available && zerocopy
            &&& e.up.eligible && e.down.eligible && e.up.fmt == 5 && e.down.fmt == 5
            &&& e.up.i == d && e.down.o == d
            &&& e.rows@.len() == 1 || switches.prefill || switches.seg
            &&& r == GroupRoute::Segmented || r == (GroupRoute::Chunked { chunk: 64 })
        },
        r == GroupRoute::Decline && available && zerocopy ==> exists|j: int|
            0 <= j < active@.len() && {
                let e = #[trigger] active@[j];
                ||| !e.up.eligible || !e.down.eligible || e.up.fmt != 5 || e.down.fmt != 5
                ||| e.up.i != d || e.down.o != d
                ||| e.rows@.len() != 1 && !switches.prefill && !switches.seg
            },
        r == GroupRoute::Segmented ==> switches.seg_decode && active@.len() >= 2 || switches.seg
            && exists|j: int| 0 <= j < active@.len() && (#[trigger] active@[j]).rows@.len() >= 2,
        r is Chunked && switches.seg ==> active@[k].rows@.len() <= 1,
        r is Chunked && switches.seg_decode ==> active@.len() == 1,
{
}

/// A single call that failed is taken up again in calls of 64 experts; one that did not
/// leaves nothing to do.
pub proof fn a_failed_call_is_taken_up_again(ok: bool, r: GroupRoute)
    requires
        call_ensures(after_segmented, (ok,), r),
    ensures
        r == GroupRoute::Nothing <==> ok,
        r == (GroupRoute::Chunked { chunk: 64 }) <==> !ok,
{
}

/// A ternary group runs in one call for one token alone: at most 16 experts with one row
/// each, that of the same token, and weights whose shapes and scales fit together.
/// Nothing else keeps it from running.
pub proof fn a_ternary_group_is_for_one_token(
    active: Vec<ActiveExpert>,
    d: usize,
    available: bool,
    enabled: bool,
    token: Option<usize>,
    k: int,
)
    requires
        call_ensures(try_expert_group_int2_decode, (&active, d, available, enabled), token),
        0 <= k < active@.len(),
    ensures
        token matches Some(t) ==> {
            let e = active@[k];
            let inner = e.gate.o;
            &&& available && enabled && active@.len() <= 16
            &&& e.rows@ == seq![t]
            &&& e.gate.fmt == 3 && e.up.fmt == 3 && e.down.fmt == 3
            &&& e.gate.eligible && e.up.eligible && e.down.eligible
            &&& e.gate.i == d && e.up.i == d && e.down.o == d
            &&& e.up.o == inner && e.down.i == inner && inner == active@[0].gate.o
            &&& e.gate.scales == inner && e.up.scales == inner && e.down.scales == d
        },
        token is None && available && enabled && active@.len() <= 16 ==> exists|j: int|
            0 <= j < active@.len() && {
                let e = #[trigger] active@[j];
                let inner = active@[0].gate.o;
                ||| e.rows@.len() != 1 || e.rows@[0] != active@[0].rows@[0]
                ||| e.gate.fmt != 3 || e.up.fmt != 3 || e.down.fmt != 3
                ||| !e.gate.eligible || !e.up.eligible || !e.down.eligible
                ||| e.gate.i != d || e.up.i != d || e.down.o != d
                ||| e.gate.o != inner || e.up.o != inner || e.down.i != inner
                ||| e.gate.scales != inner || e.up.scales != inner || e.down.scales != d
            },
{
    if token is Some {
        assert(active@[k].rows@ =~= seq![token->0]);
    } else if active@[0].rows@.len() == 0 {
        assert(active@[0].rows@.len() != 1);
    }
}

/// As many experts are staged at once as are wanted and as a quarter of the free memory
/// holds twice; the charge is what they take. It declines exactly where not one fits.
pub proof fn staging_takes_as_many_as_fit(
    per_expert: u64,
    n: usize,
    configured: Option<usize>,
    free: u64,
    p: PackedPlan,
)
    requires
        n > 0,
        0 < per_expert < 0x1_0000_0000_0000,
        call_ensures(plan_staging, (per_expert, n, configured, Some(free)), p),
    ensures
        ({
            let want = match configured {
                None => 32,
                Some(c) => if c > 0 {
                    c
                } else {
                    n
                },
            };
            &&& p.route == GroupRoute::Decline || p.route is Chunked
            &&& p.route == GroupRoute::Decline <==> 8 * per_expert > free
            &&& p.route == GroupRoute::Decline ==> p.charge is None
            &&& p.route matches GroupRoute::Chunked { chunk } ==> {
                &&& 1 <= chunk <= want
                &&& chunk * (8 * per_expert) <= free
                &&& chunk < want ==> (chunk + 1) * (8 * per_expert) > free
                &&& p.charge is Some && p.charge->0 == chunk * (2 * per_expert)
            }
        }),
{
    let each = 2 * per_expert as int;
    let budget = free as int / 4;
    let fits = budget / each;
    vstd::arithmetic::div_mod::lemma_fundamental_div_mod(budget, each);
    vstd::arithmetic::div_mod::lemma_mod_bound(budget, each);
    vstd::arithmetic::div_mod::lemma_div_pos_is_pos(budget, each);
    assert(each * fits == fits * each) by (nonlinear_arith);
    if fits == 0 {
        assert(each * fits == 0) by (nonlinear_arith)
            requires
                fits == 0,
        ;
        assert(budget < each);
    }
    assert(fits >= 1 ==> budget >= each) by (nonlinear_arith)
        requires
            budget >= fits * each,
            fits >= 0,
            each > 0,
    ;
    if let GroupRoute::Chunked { chunk } = p.route {
        let c = chunk as int;
        assert(c * each <= fits * each) by (nonlinear_arith)
            requires
                c <= fits,
                each > 0,
        ;
        assert(c * (8 * per_expert) == 4 * (c * each)) by (nonlinear_arith)
            requires
                each == 2 * per_expert,
        ;
        assert((c + 1) * (8 * per_expert) == 4 * (c * each) + 4 * each) by (nonlinear_arith)
            requires
                each == 2 * per_expert,
        ;
        assert(each * c == c * (2 * per_expert)) by (nonlinear_arith)
            requires
                each == 2 * per_expert,
        ;
    }
}

/// A packed group is staged by its largest expert, where every expert is in the wanted
/// format and of the right width; one that is not makes it decline. The four-bit block
/// format is number five.
pub proof fn a_packed_group_is_staged_by_its_largest(
    active: Vec<ActiveExpert>,
    d: usize,
    fmt: i32,
    available: bool,
    zerocopy: bool,
    configured: Option<usize>,
    headroom: Option<u64>,
    most: u64,
    p: PackedPlan,
    four: PackedPlan,
    staged: PackedPlan,
    k: int,
)
    requires
        call_ensures(
            try_expert_group_packed,
            (&active, d, fmt, available, zerocopy, configured, headroom),
            p,
        ),
        call_ensures(
            try_expert_group_nvfp4,
            (&active, d, available, zerocopy, configured, headroom),
            four,
        ),
        0 <= k < active@.len(),
        forall|j: int| 0 <= j < active@.len() ==> (#[trigger] active@[j]).bytes <= most,
        active@[k].bytes == most,
        call_ensures(plan_staging, (most, active.len(), configured, headroom), staged),
    ensures
        p.route != GroupRoute::Decline ==> {
            let e = active@[k];
            &&& available && zerocopy
            &&& e.gate.eligible && e.up.eligible && e.down.eligible
            &&& e.gate.fmt == fmt && e.up.fmt == fmt && e.down.fmt == fmt
            &&& e.gate.i == d && e.up.i == d && e.down.o == d
            &&& p == staged
        },
        p.route == GroupRoute::Decline && available && zerocopy ==> staged == p || exists|j: int|
            0 <= j < active@.len() && {
                let e = #[trigger] active@[j];
                ||| !e.gate.eligible || !e.up.eligible || !e.down.eligible
                ||| e.gate.fmt != fmt || e.up.fmt != fmt || e.down.fmt != fmt
                ||| e.gate.i != d || e.up.i != d || e.down.o != d
            },
        fmt == 5 ==> four == p,
{
    the_largest_is_reached(active@, k, most);
    assert(active.len() == active@.len());
}

proof fn the_largest_is_reached(active: Seq<ActiveExpert>, k: int, most: u64)
    requires
        0 <= k < active.len(),
        forall|j: int| 0 <= j < active.len() ==> (#[trigger] active[j]).bytes <= most,
        active[k].bytes == most,
    ensures
        largest(active) == most,
    decreases active.len(),
{
    let front = active.drop_last();
    assert forall|j: int| 0 <= j < front.len() implies (#[trigger] front[j]).bytes <= most by {
        assert(front[j] == active[j]);
    }
    if k < front.len() {
        the_largest_is_reached(front, k, most);
    } else {
        nothing_is_larger(front, most);
    }
}

proof fn nothing_is_larger(active: Seq<ActiveExpert>, most: u64)
    requires
        forall|j: int| 0 <= j < active.len() ==> (#[trigger] active[j]).bytes <= most,
    ensures
        largest(active) <= most,
    decreases active.len(),
{
    if active.len() > 0 {
        let front = active.drop_last();
        assert forall|j: int| 0 <= j < front.len() implies (#[trigger] front[j]).bytes <= most by {
            assert(front[j] == active[j]);
        }
        nothing_is_larger(front, most);
    }
}

/// Gathered rows come expert by expert and, of one expert, in their own order; every
/// expert with rows has its turn.
pub proof fn gathered_rows_follow_one_another(active: Vec<ActiveExpert>, gt: Gather, g: int)
    requires
        call_ensures(gather, (&active,), gt),
        0 <= g < gt.token_of@.len(),
    ensures
        ({
            let e = gt.expert_of@[g] as int;
            let r = gt.slot_of@[g] as int;
            &&& e < active@.len() && r < active@[e].rows@.len()
            &&& gt.token_of@[g] == active@[e].rows@[r]
            &&& g == 0 ==> r == 0 && forall|x: int|
                0 <= x < e ==> (#[trigger] active@[x]).rows@.len() == 0
            &&& r + 1 < active@[e].rows@.len() ==> {
                &&& g + 1 < gt.token_of@.len()
                &&& gt.expert_of@[g + 1] == e
                &&& gt.slot_of@[g + 1] == r + 1
            }
            &&& r + 1 == active@[e].rows@.len() && g + 1 < gt.token_of@.len() ==> {
                let next = gt.expert_of@[g + 1] as int;
                &&& next > e
                &&& gt.slot_of@[g + 1] == 0
                &&& forall|x: int| e < x < next ==> (#[trigger] active@[x]).rows@.len() == 0
            }
            &&& g + 1 == gt.token_of@.len() ==> r + 1 == active@[e].rows@.len() && forall|x: int|
                e < x < active@.len() ==> (#[trigger] active@[x]).rows@.len() == 0
        }),
{
    let a = active@;
    assert(active.len() == a.len());
    a_gathered_row_has_one_source(gt, a, g);
    let e = gt.expert_of@[g] as int;
    let r = gt.slot_of@[g] as int;
    assert(gathers(gt, a, e, r));
    let n = a.len() as int;
    rows_before_grows(a, e + 1, n);
    assert(rows_before(a, e + 1) == rows_before(a, e) + a[e].rows@.len());
    if g == 0 {
        empty_between(a, 0, e);
        assert(rows_before(a, 0) == 0);
    }
    if r + 1 < a[e].rows@.len() {
        assert(gathers(gt, a, e, r + 1));
    } else if g + 1 < gt.token_of@.len() {
        a_gathered_row_has_one_source(gt, a, g + 1);
        let next = gt.expert_of@[g + 1] as int;
        if next <= e {
            rows_before_grows(a, next + 1, e + 1);
            assert(rows_before(a, next + 1) == rows_before(a, next) + a[next].rows@.len());
        }
        rows_before_grows(a, e + 1, next);
        empty_between(a, e + 1, next);
    } else {
        empty_between(a, e + 1, n);
    }
}

proof fn empty_between(active: Seq<ActiveExpert>, a: int, b: int)
    requires
        0 <= a <= b <= active.len(),
        rows_before(active, a) >= rows_before(active, b),
    ensures
        forall|x: int| a <= x < b ==> (#[trigger] active[x]).rows@.len() == 0,
{
    assert forall|x: int| a <= x < b implies (#[trigger] active[x]).rows@.len() == 0 by {
        rows_before_grows(active, a, x);
        rows_before_grows(active, x + 1, b);
        assert(rows_before(active, x + 1) == rows_before(active, x) + active[x].rows@.len());
    }
}

/// Rows are counted one by one: one more row of an expert is one more row.
pub proof fn rows_are_the_sum_of_all(active: Seq<ActiveExpert>, n: int)
    requires
        0 <= n < active.len(),
    ensures
        rows_before(active, 0) == 0,
        rows_before(active, n + 1) - rows_before(active, n) == active[n].rows@.len(),
{
}

} // verus!
