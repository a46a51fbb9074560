//! The bookkeeping of a state-space mixer: how its projection is split, what its
//! convolution sees, and where its scan runs.

use vstd::prelude::*;
use crate::layout::{columns, columns_of};

verus! {

/// The widths of a mixer.
#[derive(Debug, Clone, Copy, PartialEq, Eq, Structural)]
pub struct MambaShape {
    pub n_heads: usize,
    pub head_dim: usize,
    pub d_state: usize,
    pub n_groups: usize,
    /// Inner width.
    pub d_inner: usize,
    /// Taps of the convolution.
    pub d_conv: usize,
}

impl MambaShape {
    /// Width of each of the two per-group inputs of the scan.
    pub open spec fn group_width(self) -> int {
        self.n_groups * self.d_state
    }

    /// Width of what is convolved.
    pub open spec fn conv_dim(self) -> int {
        self.d_inner + 2 * self.group_width()
    }

    /// Width of the input projection.
    pub open spec fn proj_out(self) -> int {
        self.d_inner + self.conv_dim() + self.n_heads
    }

    /// The widths are lengths, and there is at least one tap.
    pub open spec fn valid(self) -> bool {
        &&& self.proj_out() <= usize::MAX
        &&& self.d_conv >= 1
    }

    fn widths(self) -> (w: (usize, usize))
        requires
            self.valid(),
        ensures
            w.0 == self.group_width(),
            w.1 == self.conv_dim(),
    {
        proof {
            assert(self.n_groups * self.d_state >= 0) by (nonlinear_arith)
                requires
                    self.n_groups >= 0,
                    self.d_state >= 0,
            ;
        }
        let gn: usize = self.n_groups * self.d_state;
        (gn, self.d_inner + 2 * gn)
    }

    /// Gating values, convolved inputs and step sizes of `s` projected rows.
    pub fn split_projection(self, proj: &Vec<u32>, s: usize) -> (r: (Vec<u32>, Vec<u32>, Vec<u32>))
        requires
            self.valid(),
            proj@.len() == s * self.proj_out(),
        ensures
            columns_of(proj@, s as int, self.proj_out(), 0, self.d_inner as int, r.0@),
            columns_of(proj@, s as int, self.proj_out(), self.d_inner as int, self.conv_dim(), r.1@),
            columns_of(
                proj@,
                s as int,
                self.proj_out(),
                self.d_inner + self.conv_dim(),
                self.n_heads as int,
                r.2@,
            ),
    {
        proof {
            assert(self.n_groups * self.d_state >= 0) by (nonlinear_arith)
                requires
                    self.n_groups >= 0,
                    self.d_state >= 0,
            ;
        }
        let (_, conv): (usize, usize) = self.widths();
        let out: usize = self.d_inner + conv + self.n_heads;
        let gate: Vec<u32> = columns(proj, s, out, 0, self.d_inner);
        let hbc: Vec<u32> = columns(proj, s, out, self.d_inner, conv);
        let dt: Vec<u32> = columns(proj, s, out, self.d_inner + conv, self.n_heads);
        (gate, hbc, dt)
    }

    /// The hidden part and the two per-group parts of `s` convolved rows.
    pub fn split_convolved(self, conv_out: &Vec<u32>, s: usize) -> (r: (
        Vec<u32>,
        Vec<u32>,
        Vec<u32>,
    ))
        requires
            self.valid(),
            conv_out@.len() == s * self.conv_dim(),
        ensures
            columns_of(conv_out@, s as int, self.conv_dim(), 0, self.d_inner as int, r.0@),
            columns_of(
                conv_out@,
                s as int,
                self.conv_dim(),
                self.d_inner as int,
                self.group_width(),
                r.1@,
            ),
            columns_of(
                conv_out@,
                s as int,
                self.conv_dim(),
                self.d_inner + self.group_width(),
                self.group_width(),
                r.2@,
            ),
    {
        proof {
            assert(self.n_groups * self.d_state >= 0) by (nonlinear_arith)
                requires
                    self.n_groups >= 0,
                    self.d_state >= 0,
            ;
        }
        let (gn, conv): (usize, usize) = self.widths();
        let h: Vec<u32> = columns(conv_out, s, conv, 0, self.d_inner);
        let b: Vec<u32> = columns(conv_out, s, conv, self.d_inner, gn);
        let c: Vec<u32> = columns(conv_out, s, conv, self.d_inner + gn, gn);
        (h, b, c)
    }
}

/// What a convolution of `kk` taps over rows of `cd` values goes over: the rows
/// before this call that it still sees, and this call's rows.
pub open spec fn augmented(state: Seq<u32>, x: Seq<u32>, cd: int) -> Seq<u32> {
    state.skip(cd) + x
}

/// The state after the call: the last `kk` rows.
pub open spec fn next_state(state: Seq<u32>, x: Seq<u32>, kk: int, cd: int) -> Seq<u32> {
    let aug = augmented(state, x, cd);
    aug.skip(aug.len() - kk * cd)
}

/// The rows that the convolution of token `t` sees: its own and the `kk - 1`
/// before it.
pub open spec fn taps(state: Seq<u32>, x: Seq<u32>, kk: int, cd: int, t: int) -> Seq<u32> {
    augmented(state, x, cd).subrange(t * cd, (t + kk) * cd)
}

/// Lays out what a call's convolution goes over, and moves the state on.
pub fn conv_step(state: &mut Vec<u32>, x: &Vec<u32>, s: usize, kk: usize, cd: usize) -> (aug: Vec<
    u32,
>)
    requires
        kk >= 1,
        s >= 1,
        old(state)@.len() == kk * cd,
        x@.len() == s * cd,
    ensures
        aug@ == augmented(old(state)@, x@, cd as int),
        final(state)@ == next_state(old(state)@, x@, kk as int, cd as int),
        final(state)@.len() == kk * cd,
{
    let n: usize = state.len();
    let ghost before = state@;
    proof {
        assert(cd <= kk * cd) by (nonlinear_arith)
            requires
                kk >= 1,
                cd >= 0,
        ;
        assert(cd <= s * cd) by (nonlinear_arith)
            requires
                s >= 1,
                cd >= 0,
        ;
    }
    let mut aug: Vec<u32> = Vec::new();
    for i in cd..n
        invariant
            n == state@.len(),
            before == state@,
            cd <= n,
            aug@ == before.subrange(cd as int, i as int),
    {
        aug.push(state[i]);
        assert(aug@ =~= before.subrange(cd as int, i + 1));
    }
    assert(aug@ =~= before.skip(cd as int));
    for i in 0..x.len()
        invariant
            aug@ == before.skip(cd as int) + x@.take(i as int),
    {
        aug.push(x[i]);
        assert(aug@ =~= before.skip(cd as int) + x@.take(i + 1));
    }
    assert(aug@ =~= augmented(before, x@, cd as int));
    let len: usize = aug.len();
    assert(len == n - cd + x@.len());
    let from: usize = len - n;
    let mut next: Vec<u32> = Vec::new();
    for i in from..len
        invariant
            len == aug@.len(),
            from <= len,
            next@ == aug@.subrange(from as int, i as int),
    {
        next.push(aug[i]);
        assert(next@ =~= aug@.subrange(from as int, i + 1));
    }
    assert(next@ =~= aug@.skip(from as int));
    *state = next;
    aug
}

proof fn augmented_goes_on(state: Seq<u32>, a: Seq<u32>, b: Seq<u32>, kk: int, cd: int, sa: int)
    requires
        kk >= 1,
        cd >= 0,
        sa >= 1,
        state.len() == kk * cd,
        a.len() == sa * cd,
    ensures
        augmented(next_state(state, a, kk, cd), b, cd) == augmented(state, a + b, cd).skip(sa * cd),
        next_state(state, a, kk, cd).len() == kk * cd,
{
    assert(cd <= kk * cd && cd <= sa * cd && 0 <= kk * cd && 0 <= sa * cd) by (nonlinear_arith)
        requires
            kk >= 1,
            sa >= 1,
            cd >= 0,
    ;
    let next = next_state(state, a, kk, cd);
    let aug = augmented(state, a, cd);
    assert(aug.len() - kk * cd == sa * cd - cd);
    assert(augmented(next, b, cd) =~= augmented(state, a + b, cd).skip(sa * cd));
}

/// A sequence may arrive whole or in parts: every token's convolution sees the
/// same rows, and the state ends up the same.
pub proof fn convolution_does_not_depend_on_the_split(
    state: Seq<u32>,
    a: Seq<u32>,
    b: Seq<u32>,
    kk: int,
    cd: int,
    sa: int,
    sb: int,
    t: int,
)
    requires
        kk >= 1,
        cd >= 0,
        sa >= 1,
        sb >= 1,
        state.len() == kk * cd,
        a.len() == sa * cd,
        b.len() == sb * cd,
        0 <= t < sb,
    ensures
        taps(next_state(state, a, kk, cd), b, kk, cd, t) == taps(state, a + b, kk, cd, sa + t),
        next_state(next_state(state, a, kk, cd), b, kk, cd) == next_state(state, a + b, kk, cd),
{
    augmented_goes_on(state, a, b, kk, cd, sa);
    let next = next_state(state, a, kk, cd);
    let whole = augmented(state, a + b, cd);
    let part = augmented(next, b, cd);
    assert((sa + t) * cd == sa * cd + t * cd && (sa + t + kk) * cd == sa * cd + (t + kk) * cd)
        by (nonlinear_arith);
    assert(0 <= t * cd <= (t + kk) * cd && (t + kk) * cd <= (sb + kk - 1) * cd) by (nonlinear_arith)
        requires
            0 <= t,
            t + 1 <= sb,
            kk >= 1,
            cd >= 0,
    ;
    assert((sb + kk - 1) * cd == sb * cd + kk * cd - cd) by (nonlinear_arith);
    assert(cd <= kk * cd && cd <= sa * cd && cd <= sb * cd) by (nonlinear_arith)
        requires
            kk >= 1,
            sa >= 1,
            sb >= 1,
            cd >= 0,
    ;
    assert(part.len() == kk * cd - cd + sb * cd);
    assert(taps(next, b, kk, cd, t) =~= taps(state, a + b, kk, cd, sa + t));
    assert(next_state(next, b, kk, cd) =~= next_state(state, a + b, kk, cd));
}

/// The first part of a split sequence sees the same rows as well.
pub proof fn earlier_tokens_do_not_see_later_ones(
    state: Seq<u32>,
    a: Seq<u32>,
    b: Seq<u32>,
    kk: int,
    cd: int,
    sa: int,
    t: int,
)
    requires
        kk >= 1,
        cd >= 0,
        state.len() == kk * cd,
        a.len() == sa * cd,
        0 <= t < sa,
    ensures
        taps(state, a, kk, cd, t) == taps(state, a + b, kk, cd, t),
{
    assert(0 <= t * cd <= (t + kk) * cd && (t + kk) * cd <= (sa + kk - 1) * cd) by (nonlinear_arith)
        requires
            0 <= t,
            t + 1 <= sa,
            kk >= 1,
            cd >= 0,
    ;
    assert((sa + kk - 1) * cd == sa * cd + kk * cd - cd) by (nonlinear_arith);
    assert(cd <= kk * cd) by (nonlinear_arith)
        requires
            kk >= 1,
            cd >= 0,
    ;
    assert(taps(state, a, kk, cd, t) =~= taps(state, a + b, kk, cd, t));
}

/// Where a scan runs.
#[derive(Debug, Clone, Copy, PartialEq, Eq, Structural)]
pub enum Scan {
    /// On the host.
    Host,
    /// On the device, one token.
    Step,
    /// On the device, a sequence; `exact` sums in the order of the one-token form.
    Sequence { exact: bool },
}

/// The longest sequence that is summed exactly, unless configured: enough for
/// every verified batch of drafts.
pub const EXACT_SEQ_MAX: usize = 64;

/// Where the scan of `s` tokens runs. Short sequences, such as a batch of drafts
/// being verified, have to agree with one-token steps to the bit.
pub fn scan_route(available: bool, enabled: bool, s: usize, exact_max: usize) -> (r: Scan)
    ensures
        r == if !(available && enabled) {
            Scan::Host
        } else if s == 1 {
            Scan::Step
        } else {
            Scan::Sequence { exact: s <= exact_max }
        },
{
    if !(available && enabled) {
        Scan::Host
    } else if s == 1 {
        Scan::Step
    } else {
        Scan::Sequence { exact: s <= exact_max }
    }
}

/// Whether a forward of `s` tokens runs its experts on the exact path: several
/// tokens, but no more than a batch of drafts.
pub fn exact_experts_wanted(s: usize, exact_max: usize) -> (b: bool)
    ensures
        b == (1 < s <= exact_max),
{
    s > 1 && s <= exact_max
}

/// What a mixer's kernels go over.
pub struct MixerInputs {
    /// Gating values of the output.
    pub gate: Vec<u32>,
    /// Step sizes of the scan.
    pub dt: Vec<u32>,
    /// Rows for the convolution: what it still sees of earlier calls, and this
    /// call's.
    pub aug: Vec<u32>,
    /// The first row whose convolution is computed.
    pub from: usize,
    /// Where the scan runs.
    pub scan: Scan,
}

/// One call of a mixer, up to its kernels: splits the projection of `s` tokens,
/// lays out the convolution and moves its state on, and says where the scan runs.
/// The rows of earlier calls are there for the taps alone, and `skip_history`
/// leaves their own convolution out.
pub fn mamba2_mixer(
    shape: MambaShape,
    state: &mut Vec<u32>,
    proj: &Vec<u32>,
    s: usize,
    skip_history: bool,
    available: bool,
    enabled: bool,
    exact_max: usize,
) -> (r: MixerInputs)
    requires
        shape.valid(),
        s >= 1,
        proj@.len() == s * shape.proj_out(),
        old(state)@.len() == shape.d_conv * shape.conv_dim(),
    ensures
        columns_of(proj@, s as int, shape.proj_out(), 0, shape.d_inner as int, r.gate@),
        columns_of(
            proj@,
            s as int,
            shape.proj_out(),
            shape.d_inner + shape.conv_dim(),
            shape.n_heads as int,
            r.dt@,
        ),
        exists|x: Seq<u32>|
            {
                &&& #[trigger] columns_of(
                    proj@,
                    s as int,
                    shape.proj_out(),
                    shape.d_inner as int,
                    shape.conv_dim(),
                    x,
                )
                &&& r.aug@ == augmented(old(state)@, x, shape.conv_dim())
                &&& final(state)@ == next_state(
                    old(state)@,
                    x,
                    shape.d_conv as int,
                    shape.conv_dim(),
                )
            },
        final(state)@.len() == old(state)@.len(),
        r.aug@.len() == (shape.d_conv - 1 + s) * shape.conv_dim(),
        skip_history ==> r.aug@.len() == (r.from + s) * shape.conv_dim(),
        r.from == if skip_history {
            shape.d_conv - 1
        } else {
            0
        },
        r.scan == if !(available && enabled) {
            Scan::Host
        } else if s == 1 {
            Scan::Step
        } else {
            Scan::Sequence { exact: s <= exact_max }
        },
{
    let (gate, hbc, dt): (Vec<u32>, Vec<u32>, Vec<u32>) = shape.split_projection(proj, s);
    let (_, cd): (usize, usize) = shape.widths();
    let ghost kept = state@;
    let aug: Vec<u32> = conv_step(state, &hbc, s, shape.d_conv, cd);
    proof {
        let kk = shape.d_conv as int;
        assert(cd <= kk * cd) by (nonlinear_arith)
            requires
                kk >= 1,
                cd >= 0,
        ;
        assert((kk - 1 + s) * cd == kk * cd - cd + s * cd) by (nonlinear_arith);
        assert(aug@.len() == kept.len() - cd + hbc@.len());
    }
    MixerInputs {
        gate,
        dt,
        aug,
        from: if skip_history {
            shape.d_conv - 1
        } else {
            0
        },
        scan: scan_route(available, enabled, s, exact_max),
    }
}

/// The inputs of the scan, from the convolved rows `from` on: those of this
/// call's `s` tokens, split.
pub fn scan_inputs(shape: MambaShape, conv: &Vec<u32>, from: usize, s: usize) -> (r: (
    Vec<u32>,
    Vec<u32>,
    Vec<u32>,
))
    requires
        shape.valid(),
        from < shape.d_conv,
        conv@.len() == (shape.d_conv - 1 - from + s) * shape.conv_dim(),
    ensures
        ({
            let own = conv@.skip((shape.d_conv - 1 - from) * shape.conv_dim());
            &&& columns_of(own, s as int, shape.conv_dim(), 0, shape.d_inner as int, r.0@)
            &&& columns_of(
                own,
                s as int,
                shape.conv_dim(),
                shape.d_inner as int,
                shape.group_width(),
                r.1@,
            )
            &&& columns_of(
                own,
                s as int,
                shape.conv_dim(),
                shape.d_inner + shape.group_width(),
                shape.group_width(),
                r.2@,
            )
        }),
{
    let (_, cd): (usize, usize) = shape.widths();
    let rest: usize = shape.d_conv - 1 - from;
    let n: usize = conv.len();
    proof {
        assert((rest + s) * cd == rest * cd + s * cd && rest * cd >= 0 && s * cd >= 0)
            by (nonlinear_arith)
            requires
                rest >= 0,
                s >= 0,
                cd >= 0,
        ;
    }
    let skip: usize = rest * cd;
    let mut own: Vec<u32> = Vec::new();
    for i in skip..n
        invariant
            n == conv@.len(),
            skip <= n,
            own@ == conv@.subrange(skip as int, i as int),
    {
        own.push(conv[i]);
        assert(own@ =~= conv@.subrange(skip as int, i + 1));
    }
    assert(own@ =~= conv@.skip(skip as int));
    shape.split_convolved(&own, s)
}

/// Every batch that a run with a configured draft budget verifies is summed
/// exactly: the delivered token and its drafts.
pub proof fn verified_batches_are_exact(drafts: nat)
    requires
        drafts <= crate::decode::MAX_DRAFT,
    ensures
        1 + drafts <= EXACT_SEQ_MAX,
        drafts == crate::decode::MAX_DRAFT ==> 1 + drafts == EXACT_SEQ_MAX,
{
}

/// A projected row is its gating values, what is convolved and its step sizes, one
/// behind the other; what is convolved is the inner width and twice a state per group.
pub proof fn a_projected_row_has_three_parts(
    shape: MambaShape,
    proj: Vec<u32>,
    s: usize,
    out: (Vec<u32>, Vec<u32>, Vec<u32>),
    r: int,
    c: int,
)
    requires
        shape.valid(),
        proj@.len() == s * shape.proj_out(),
        call_ensures(MambaShape::split_projection, (shape, &proj, s), out),
        0 <= r < s,
        c >= 0,
    ensures
        ({
            let inner = shape.d_inner as int;
            let conv = inner + shape.n_groups * shape.d_state + shape.n_groups * shape.d_state;
            let heads = shape.n_heads as int;
            let width = inner + conv + heads;
            &&& proj@.len() == s * width
            &&& out.0@.len() == s * inner && out.1@.len() == s * conv && out.2@.len() == s * heads
            &&& c < inner ==> out.0@[r * inner + c] == proj@[r * width + c]
            &&& c < conv ==> out.1@[r * conv + c] == proj@[r * width + inner + c]
            &&& c < heads ==> out.2@[r * heads + c] == proj@[r * width + (inner + conv) + c]
        }),
{
    let inner = shape.d_inner as int;
    if c < inner {
        assert(out.0@[r * inner + c] == proj@[r * shape.proj_out() + 0 + c]);
    }
    if c < shape.conv_dim() {
        assert(out.1@[r * shape.conv_dim() + c] == proj@[r * shape.proj_out() + inner + c]);
    }
    if c < shape.n_heads {
        assert(out.2@[r * shape.n_heads + c] == proj@[r * shape.proj_out() + (inner
            + shape.conv_dim()) + c]);
    }
}

/// Of the convolved rows only those of the call's own tokens are scanned, and each is
/// its hidden part and the two parts per group.
pub proof fn a_scan_goes_over_its_own_tokens(
    shape: MambaShape,
    conv: Vec<u32>,
    from: usize,
    s: usize,
    out: (Vec<u32>, Vec<u32>, Vec<u32>),
    t: int,
    c: int,
)
    requires
        shape.valid(),
        from < shape.d_conv,
        conv@.len() == (shape.d_conv - 1 - from + s) * shape.conv_dim(),
        call_ensures(scan_inputs, (shape, &conv, from, s), out),
        0 <= t < s,
        c >= 0,
    ensures
        ({
            let inner = shape.d_inner as int;
            let group = shape.n_groups * shape.d_state;
            let width = inner + group + group;
            let history = shape.d_conv - 1 - from;
            &&& conv@.len() == (history + s) * width
            &&& out.0@.len() == s * inner && out.1@.len() == s * group && out.2@.len() == s * group
            &&& c < inner ==> out.0@[t * inner + c] == conv@[(history + t) * width + c]
            &&& c < group ==> out.1@[t * group + c] == conv@[(history + t) * width + (inner + c)]
            &&& c < group ==> out.2@[t * group + c] == conv@[(history + t) * width + (inner + group
                + c)]
        }),
{
    let cd = shape.conv_dim();
    let inner = shape.d_inner as int;
    let group = shape.group_width();
    let history = shape.d_conv - 1 - from;
    assert(group >= 0) by (nonlinear_arith)
        requires
            group == shape.n_groups * shape.d_state,
            shape.n_groups >= 0,
            shape.d_state >= 0,
    ;
    let own = conv@.skip(history * cd);
    assert((history + t) * cd == history * cd + t * cd && (history + s) * cd == history * cd + s * cd)
        by (nonlinear_arith);
    assert(0 <= history * cd && 0 <= t * cd && t * cd + cd <= s * cd) by (nonlinear_arith)
        requires
            history >= 0,
            cd >= 0,
            0 <= t,
            t + 1 <= s,
    ;
    if c < inner {
        assert(out.0@[t * inner + c] == own[t * cd + 0 + c]);
    }
    if c < group {
        assert(out.1@[t * group + c] == own[t * cd + inner + c]);
        assert(out.2@[t * group + c] == own[t * cd + (inner + group) + c]);
    }
}

/// Tap `j` of a token's convolution is on the row that came `kk - 1 - j` tokens before
/// it: a row of this call, or one that the state kept of earlier calls.
pub proof fn a_tap_is_on_an_earlier_row(
    state: Seq<u32>,
    x: Seq<u32>,
    kk: int,
    cd: int,
    s: int,
    t: int,
    j: int,
    c: int,
)
    requires
        kk >= 1,
        state.len() == kk * cd,
        x.len() == s * cd,
        0 <= t < s,
        0 <= j < kk,
        0 <= c < cd,
    ensures
        ({
            let row = t - (kk - 1 - j);
            let seen = augmented(state, x, cd)[(t + j) * cd + c];
            &&& augmented(state, x, cd).len() == (kk - 1 + s) * cd
            &&& row >= 0 ==> seen == x[row * cd + c]
            &&& row < 0 ==> seen == state[(kk + row) * cd + c]
        }),
{
    let row = t - (kk - 1 - j);
    assert(cd <= kk * cd && 0 <= s * cd) by (nonlinear_arith)
        requires
            kk >= 1,
            cd >= 0,
            s >= 0,
    ;
    assert((kk - 1 + s) * cd == kk * cd - cd + s * cd) by (nonlinear_arith);
    assert((t + j) * cd == row * cd + kk * cd - cd) by (nonlinear_arith)
        requires
            row == t - (kk - 1 - j),
    ;
    if row >= 0 {
        assert(0 <= row * cd && row * cd + cd <= s * cd) by (nonlinear_arith)
            requires
                0 <= row,
                row + 1 <= s,
                cd >= 0,
        ;
    } else {
        assert((kk + row) * cd == row * cd + kk * cd) by (nonlinear_arith);
        assert(row * cd + cd <= 0) by (nonlinear_arith)
            requires
                row + 1 <= 0,
                cd >= 0,
        ;
        assert(0 <= (t + j) * cd) by (nonlinear_arith)
            requires
                t + j >= 0,
                cd >= 0,
        ;
    }
}

/// The state keeps the last `kk` rows that there were: of this call, and before them of
/// the earlier ones.
pub proof fn the_state_keeps_the_last_rows(
    state: Seq<u32>,
    x: Seq<u32>,
    kk: int,
    cd: int,
    s: int,
    j: int,
    c: int,
)
    requires
        kk >= 1,
        s >= 1,
        state.len() == kk * cd,
        x.len() == s * cd,
        0 <= j < kk,
        0 <= c < cd,
    ensures
        ({
            let row = s - kk + j;
            let kept = next_state(state, x, kk, cd);
            &&& kept.len() == kk * cd
            &&& row >= 0 ==> kept[j * cd + c] == x[row * cd + c]
            &&& row < 0 ==> kept[j * cd + c] == state[(kk + row) * cd + c]
        }),
{
    a_tap_is_on_an_earlier_row(state, x, kk, cd, s, s - 1, j, c);
    let aug = augmented(state, x, cd);
    assert((kk - 1 + s) * cd - kk * cd == (s - 1) * cd) by (nonlinear_arith);
    assert((s - 1 + j) * cd == (s - 1) * cd + j * cd) by (nonlinear_arith);
    assert(0 <= (s - 1) * cd && 0 <= j * cd && j * cd + cd <= kk * cd) by (nonlinear_arith)
        requires
            s >= 1,
            0 <= j,
            j + 1 <= kk,
            cd >= 0,
    ;
    assert(s - 1 - (kk - 1 - j) == s - kk + j);
}

/// A scan runs on the device exactly if there is one that may be used, one token in a
/// step. A call that wants its experts exact has its scan summed exactly as well.
pub proof fn a_scan_agrees_with_its_experts(
    available: bool,
    enabled: bool,
    s: usize,
    exact_max: usize,
    r: Scan,
    exact: bool,
)
    requires
        call_ensures(scan_route, (available, enabled, s, exact_max), r),
        call_ensures(exact_experts_wanted, (s, exact_max), exact),
    ensures
        r != Scan::Host <==> available && enabled,
        r == Scan::Step <==> available && enabled && s == 1,
        r matches Scan::Sequence { exact: summed } ==> s != 1 && (summed <==> s <= exact_max),
        exact <==> s >= 2 && s <= exact_max,
        exact && available && enabled ==> r == (Scan::Sequence { exact: true }),
{
}

/// A step of the convolution lays out the rows it still sees before the rows that came,
/// and keeps the last ones for the next.
pub proof fn a_step_goes_over_old_and_new_rows(
    state: &mut Vec<u32>,
    x: Vec<u32>,
    s: usize,
    kk: usize,
    cd: usize,
    aug: Vec<u32>,
    t: int,
    j: int,
    c: int,
)
    requires
        kk >= 1,
        s >= 1,
        old(state)@.len() == kk * cd,
        x@.len() == s * cd,
        call_ensures(conv_step, (state, &x, s, kk, cd), aug),
        0 <= t < s,
        0 <= j < kk,
        0 <= c < cd,
    ensures
        ({
            let row = t - (kk - 1 - j);
            let kept = s - kk + j;
            &&& aug@.len() == (kk - 1 + s) * cd
            &&& row >= 0 ==> aug@[(t + j) * cd + c] == x@[row * cd + c]
            &&& row < 0 ==> aug@[(t + j) * cd + c] == old(state)@[(kk + row) * cd + c]
            &&& final(state)@.len() == kk * cd
            &&& kept >= 0 ==> final(state)@[j * cd + c] == x@[kept * cd + c]
            &&& kept < 0 ==> final(state)@[j * cd + c] == old(state)@[(kk + kept) * cd + c]
        }),
{
    a_tap_is_on_an_earlier_row(old(state)@, x@, kk as int, cd as int, s as int, t, j, c);
    the_state_keeps_the_last_rows(old(state)@, x@, kk as int, cd as int, s as int, j, c);
}

/// A mixer's convolution sees, `d_conv - 1 - j` tokens before a token, what the projection
/// of that token put behind its gating values, or what earlier calls left in the state.
/// Without its history a call computes one row per token.
pub proof fn a_mixer_convolves_its_projection(
    shape: MambaShape,
    state: &mut Vec<u32>,
    proj: Vec<u32>,
    s: usize,
    skip_history: bool,
    available: bool,
    enabled: bool,
    exact_max: usize,
    r: MixerInputs,
    t: int,
    j: int,
    c: int,
)
    requires
        shape.valid(),
        s >= 1,
        proj@.len() == s * shape.proj_out(),
        old(state)@.len() == shape.d_conv * shape.conv_dim(),
        call_ensures(
            mamba2_mixer,
            (shape, state, &proj, s, skip_history, available, enabled, exact_max),
            r,
        ),
        0 <= t < s,
        0 <= j < shape.d_conv,
        0 <= c < shape.conv_dim(),
    ensures
        ({
            let inner = shape.d_inner as int;
            let conv = inner + 2 * (shape.n_groups * shape.d_state);
            let width = inner + conv + shape.n_heads;
            let row = t - (shape.d_conv - 1 - j);
            let kept = s - shape.d_conv + j;
            let seen = r.aug@[(t + j) * conv + c];
            &&& row >= 0 ==> seen == proj@[row * width + inner + c]
            &&& row < 0 ==> seen == old(state)@[(shape.d_conv + row) * conv + c]
            &&& kept >= 0 ==> final(state)@[j * conv + c] == proj@[kept * width + inner + c]
            &&& kept < 0 ==> final(state)@[j * conv + c] == old(state)@[(shape.d_conv + kept) * conv
                + c]
            &&& c < inner ==> r.gate@[t * inner + c] == proj@[t * width + c]
            &&& c < shape.n_heads ==> r.dt@[t * shape.n_heads + c] == proj@[t * width + (inner
                + conv) + c]
        }),
        !skip_history ==> r.from == 0,
        skip_history ==> r.from + 1 == shape.d_conv,
        r.scan != Scan::Host <==> available && enabled,
        r.scan == Scan::Step <==> available && enabled && s == 1,
        r.scan matches Scan::Sequence { exact } ==> (exact <==> s <= exact_max),
{
    let inner = shape.d_inner as int;
    let conv = shape.conv_dim();
    let width = shape.proj_out();
    let x = choose|x: Seq<u32>|
        {
            &&& #[trigger] columns_of(proj@, s as int, width, inner, conv, x)
            &&& r.aug@ == augmented(old(state)@, x, conv)
            &&& final(state)@ == next_state(old(state)@, x, shape.d_conv as int, conv)
        };
    let kk = shape.d_conv as int;
    a_tap_is_on_an_earlier_row(old(state)@, x, kk, conv, s as int, t, j, c);
    the_state_keeps_the_last_rows(old(state)@, x, kk, conv, s as int, j, c);
    let row = t - (kk - 1 - j);
    let kept = s - kk + j;
    if row >= 0 {
        assert(x[row * conv + c] == proj@[row * width + inner + c]);
    }
    if kept >= 0 {
        assert(x[kept * conv + c] == proj@[kept * width + inner + c]);
    }
    if c < inner {
        assert(r.gate@[t * inner + c] == proj@[t * width + 0 + c]);
    }
    if c < shape.n_heads {
        assert(r.dt@[t * shape.n_heads + c] == proj@[t * width + (inner + conv) + c]);
    }
}

} // verus!
