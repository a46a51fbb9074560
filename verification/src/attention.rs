//! Which attention core runs, over which positions.

use vstd::prelude::*;
use crate::dsa::{scores_cover, select_queries, selects};
use crate::layout::{columns, columns_of};

verus! {

/// Which attention core to use. Both give the same result.
#[derive(Debug, Clone, Copy, PartialEq, Eq, Structural)]
pub enum AttnCore {
    /// Rebuild keys and values from the latent.
    Reconstruct,
    /// Fold the key projection into the query and apply the value projection at
    /// the end.
    Absorb,
}

/// What an attention call is asked for.
#[derive(Debug, Clone, Copy, PartialEq, Eq, Structural)]
pub struct AttnCall {
    pub core: AttnCore,
    /// New tokens.
    pub s_len: usize,
    /// Position of the first of them.
    pub pos_base: usize,
    /// First cached position.
    pub st0: usize,
    /// Whether the caller hands in a selection.
    pub selection_given: bool,
}

/// What the layer and the machine offer.
#[derive(Debug, Clone, Copy, PartialEq, Eq, Structural)]
pub struct AttnSetup {
    /// The layer has an indexer of its own.
    pub has_indexer: bool,
    /// The layer computes its own selection.
    pub full_indexer: bool,
    /// Positions that a selection keeps.
    pub index_topk: usize,
    /// Sparse attention is switched on.
    pub dsa_enabled: bool,
    /// Sparse attention is kept off the device.
    pub force_cpu: bool,
    /// There is a device.
    pub available: bool,
    /// The layer's weights may be used from it.
    pub eligible: bool,
}

/// Where the attention core runs on the device.
#[derive(Debug, Clone, Copy, PartialEq, Eq, Structural)]
pub enum DeviceArm {
    /// Not there: on the host.
    Host,
    /// Over each query's selection.
    Sparse,
    /// One token, over the cache that the device keeps.
    DeviceKv,
    /// Over a copy of the cache.
    Batch,
}

/// What an attention call does.
#[derive(Debug, Clone, Copy, PartialEq, Eq, Structural)]
pub struct AttnPlan {
    /// The indexer runs, and its selection is handed back to the caller.
    pub runs_indexer: bool,
    /// There is a selection, given or computed. The absorbing core does not apply
    /// one.
    pub sparse: bool,
    /// The device arm that is tried first.
    pub arm: DeviceArm,
    /// The core that runs where the device declines.
    pub fallback: AttnCore,
}

impl AttnCall {
    /// Whether the indexer runs: on a layer that has one of its own, over a prompt
    /// that begins the sequence and is longer than what would be kept. A step has
    /// no indexer keys of earlier positions, so it stays dense.
    pub open spec fn indexer_runs(self, setup: AttnSetup) -> bool {
        &&& !self.selection_given
        &&& self.st0 == 0
        &&& self.pos_base == 0
        &&& setup.has_indexer
        &&& setup.full_indexer
        &&& self.pos_base + self.s_len > setup.index_topk
        &&& setup.dsa_enabled
    }

    /// The device arm that is tried.
    pub open spec fn arm(self, setup: AttnSetup) -> DeviceArm {
        if !(setup.available && setup.eligible) {
            DeviceArm::Host
        } else if self.selection_given || self.indexer_runs(setup) {
            if self.core == AttnCore::Reconstruct && self.st0 == 0 && !setup.force_cpu {
                DeviceArm::Sparse
            } else {
                DeviceArm::Host
            }
        } else if self.s_len == 1 && self.st0 == 0 {
            DeviceArm::DeviceKv
        } else {
            DeviceArm::Batch
        }
    }
}

/// Plans an attention call.
pub fn attention_with(call: AttnCall, setup: AttnSetup) -> (plan: AttnPlan)
    ensures
        plan == (AttnPlan {
            runs_indexer: call.indexer_runs(setup),
            sparse: call.selection_given || call.indexer_runs(setup),
            arm: call.arm(setup),
            fallback: call.core,
        }),
{
    let runs_indexer: bool = !call.selection_given && call.st0 == 0 && call.pos_base == 0
        && setup.has_indexer && setup.full_indexer && call.s_len > setup.index_topk
        && setup.dsa_enabled;
    let sparse: bool = call.selection_given || runs_indexer;
    let arm: DeviceArm = if !(setup.available && setup.eligible) {
        DeviceArm::Host
    } else if sparse {
        if call.core == AttnCore::Reconstruct && call.st0 == 0 && !setup.force_cpu {
            DeviceArm::Sparse
        } else {
            DeviceArm::Host
        }
    } else if call.s_len == 1 && call.st0 == 0 {
        DeviceArm::DeviceKv
    } else {
        DeviceArm::Batch
    };
    AttnPlan { runs_indexer, sparse, arm, fallback: call.core }
}

/// Plans an attention call with the reference core and no selection.
pub fn attention(s_len: usize, pos_base: usize, st0: usize, setup: AttnSetup) -> (plan: AttnPlan)
    ensures
        plan == ({
            let call = AttnCall {
                core: AttnCore::Reconstruct,
                s_len,
                pos_base,
                st0,
                selection_given: false,
            };
            AttnPlan {
                runs_indexer: call.indexer_runs(setup),
                sparse: call.indexer_runs(setup),
                arm: call.arm(setup),
                fallback: AttnCore::Reconstruct,
            }
        }),
{
    attention_with(
        AttnCall { core: AttnCore::Reconstruct, s_len, pos_base, st0, selection_given: false },
        setup,
    )
}

/// Sparse attention never fires where everything would be kept, nor on a step.
pub proof fn short_contexts_and_steps_stay_dense(call: AttnCall, setup: AttnSetup)
    requires
        call.pos_base > 0 || call.s_len <= setup.index_topk,
    ensures
        !call.indexer_runs(setup),
{
}

/// The cached positions, counted from `st0`, that the query at `pos` attends to:
/// its selection, or everything up to itself where it has none.
pub open spec fn positions_for(sel: Seq<usize>, pos: int, st0: int) -> Seq<int> {
    if sel.len() > 0 {
        sel.map_values(|t: usize| t as int - st0)
    } else {
        Seq::new((pos + 1 - st0) as nat, |j: int| j)
    }
}

/// The cached positions that a query attends to.
pub fn attended(sel: &Vec<usize>, pos: usize, st0: usize) -> (out: Vec<usize>)
    requires
        st0 <= pos < usize::MAX,
        forall|k: int| 0 <= k < sel@.len() ==> st0 <= #[trigger] sel@[k],
    ensures
        out@.map_values(|j: usize| j as int) == positions_for(sel@, pos as int, st0 as int),
{
    let mut out: Vec<usize> = Vec::new();
    if sel.len() > 0 {
        for k in 0..sel.len()
            invariant
                forall|k: int| 0 <= k < sel@.len() ==> st0 <= #[trigger] sel@[k],
                out@.len() == k,
                forall|j: int| 0 <= j < k ==> out@[j] == sel@[j] - st0,
        {
            out.push(sel[k] - st0);
        }
    } else {
        let nt: usize = pos + 1 - st0;
        for j in 0..nt
            invariant
                out@.len() == j,
                forall|k: int| 0 <= k < j ==> out@[k] == k,
        {
            out.push(j);
        }
    }
    assert(out@.map_values(|j: usize| j as int) =~= positions_for(sel@, pos as int, st0 as int));
    out
}

/// A selection of every position is dense attention.
pub proof fn selecting_everything_is_dense(pos: int, st0: int)
    requires
        0 <= st0 <= pos < usize::MAX,
    ensures
        positions_for(Seq::new((pos + 1 - st0) as nat, |j: int| (st0 + j) as usize), pos, st0)
            == positions_for(Seq::empty(), pos, st0),
{
    let all = Seq::new((pos + 1 - st0) as nat, |j: int| (st0 + j) as usize);
    assert(positions_for(all, pos, st0) =~= positions_for(Seq::empty(), pos, st0));
}

/// The positions that query `q` has selected; none where there is no selection.
pub open spec fn chosen(sel: Option<Vec<Vec<usize>>>, q: int) -> Seq<usize> {
    match sel {
        Some(rows) => rows@[q]@,
        None => Seq::empty(),
    }
}

impl AttnCall {
    /// The cached positions, counted from the first one, that query `q` attends to
    /// under a selection. The absorbing core goes over all it can see.
    pub open spec fn seen(self, sel: Option<Vec<Vec<usize>>>, q: int) -> Seq<int> {
        positions_for(
            if self.core == AttnCore::Absorb {
                Seq::empty()
            } else {
                chosen(sel, q)
            },
            self.pos_base + q,
            self.st0 as int,
        )
    }

    /// Whether a selection that the caller hands in is one for this call: the
    /// reconstructing core reads a row per query, the absorbing one reads none.
    pub open spec fn accepts(self, given: Option<Vec<Vec<usize>>>) -> bool {
        &&& self.selection_given == (given is Some)
        &&& self.core == AttnCore::Reconstruct ==> (given matches Some(rows) ==> rows@.len()
            >= self.s_len && forall|q: int, k: int|
            0 <= q < self.s_len && 0 <= k < rows@[q]@.len() ==> self.st0
                <= #[trigger] rows@[q]@[k])
    }
}

/// What the queries of a call attend to, and what later layers may use again.
pub struct AttnKeys {
    pub seen: Vec<Vec<usize>>,
    pub handed_back: Option<Vec<Vec<usize>>>,
}

/// The positions that each query of a call attends to: those of the selection
/// handed in, of the indexer's where it runs, or all. The indexer's selection is
/// handed back.
pub fn attention_keys(
    call: AttnCall,
    setup: AttnSetup,
    given: Option<Vec<Vec<usize>>>,
    scores: &Vec<Vec<u32>>,
) -> (k: AttnKeys)
    requires
        call.st0 <= call.pos_base,
        call.pos_base + call.s_len < usize::MAX,
        call.accepts(given),
        call.indexer_runs(setup) ==> scores@.len() == call.s_len && scores_cover(
            scores@,
            0,
            setup.index_topk as int,
        ),
    ensures
        k.handed_back is Some <==> call.indexer_runs(setup),
        k.handed_back matches Some(sel) ==> selects(sel@, scores@, 0, setup.index_topk as nat),
        k.seen@.len() == call.s_len,
        forall|q: int|
            0 <= q < call.s_len ==> (#[trigger] k.seen@[q])@.map_values(|j: usize| j as int)
                == call.seen(
                if call.selection_given {
                    given
                } else {
                    k.handed_back
                },
                q,
            ),
{
    let plan: AttnPlan = attention_with(call, setup);
    let handed_back: Option<Vec<Vec<usize>>> = if plan.runs_indexer {
        Some(select_queries(scores, 0, setup.index_topk))
    } else {
        None
    };
    let none: Vec<usize> = Vec::new();
    let mut seen: Vec<Vec<usize>> = Vec::new();
    let ghost sel = if call.selection_given {
        given
    } else {
        handed_back
    };
    for q in 0..call.s_len
        invariant
            call.st0 <= call.pos_base,
            call.pos_base + call.s_len < usize::MAX,
            call.accepts(given),
            none@.len() == 0,
            handed_back is Some <==> call.indexer_runs(setup),
            handed_back matches Some(rows) ==> rows@.len() == call.s_len,
            sel == if call.selection_given {
                given
            } else {
                handed_back
            },
            seen@.len() == q,
            forall|p: int|
                0 <= p < q ==> (#[trigger] seen@[p])@.map_values(|j: usize| j as int)
                    == call.seen(sel, p),
    {
        let row: &Vec<usize> = match call.core {
            AttnCore::Absorb => &none,
            AttnCore::Reconstruct => match &given {
                Some(rows) => &rows[q],
                None => match &handed_back {
                    Some(rows) => &rows[q],
                    None => &none,
                },
            },
        };
        proof {
            assert(none@ =~= Seq::<usize>::empty());
            assert(row@ == if call.core == AttnCore::Absorb {
                Seq::empty()
            } else {
                chosen(sel, q as int)
            });
        }
        seen.push(attended(row, call.pos_base + q, call.st0));
    }
    AttnKeys { seen, handed_back }
}

/// A layer that is handed the selection of an earlier one attends to what that one
/// attended to, and hands nothing back.
pub proof fn a_reused_selection_gives_the_same_keys(
    call: AttnCall,
    setup: AttnSetup,
    later: AttnSetup,
    sel: Option<Vec<Vec<usize>>>,
    q: int,
)
    requires
        call.indexer_runs(setup),
        0 <= q < call.s_len,
    ensures
        ({
            let reuse = AttnCall { selection_given: true, ..call };
            reuse.seen(sel, q) == call.seen(sel, q) && !reuse.indexer_runs(later)
        }),
{
}

/// How a sequence is split into calls does not matter to dense attention: a
/// position attends to the same keys in a prompt and in a step of its own.
pub proof fn steps_see_what_the_prompt_saw(a: AttnCall, b: AttnCall, qa: int, qb: int)
    requires
        a.st0 == b.st0,
        a.pos_base + qa == b.pos_base + qb,
    ensures
        a.seen(None, qa) == b.seen(None, qb),
{
}

/// No query attends to a position behind its own, whether its keys were selected
/// by score or are all it can see.
pub proof fn attention_is_causal(
    call: AttnCall,
    setup: AttnSetup,
    scores: Seq<Vec<u32>>,
    sel: Option<Vec<Vec<usize>>>,
    q: int,
    k: int,
)
    requires
        call.st0 <= call.pos_base,
        0 <= q < call.s_len,
        sel is Some ==> call.indexer_runs(setup) && scores.len() == call.s_len,
        sel matches Some(rows) ==> selects(rows@, scores, 0, setup.index_topk as nat),
        scores_cover(scores, 0, setup.index_topk as int),
        0 <= k < call.seen(sel, q).len(),
    ensures
        0 <= call.seen(sel, q)[k] <= call.pos_base + q - call.st0,
{
    if call.core != AttnCore::Absorb && sel is Some {
        let rows = sel.unwrap();
        assert(rows@[q]@ == chosen(sel, q));
        if rows@[q]@.len() > 0 {
            assert(rows@[q]@[k] < scores[q]@.len());
        }
    }
}

/// The latent and the rotary part of `s` compressed rows: what is written to the
/// cache, one row per position.
pub fn split_compressed(comp: &Vec<u32>, s: usize, kv_lora: usize, qk_rope: usize) -> (r: (
    Vec<u32>,
    Vec<u32>,
))
    requires
        kv_lora + qk_rope <= usize::MAX,
        comp@.len() == s * (kv_lora + qk_rope),
    ensures
        columns_of(comp@, s as int, kv_lora + qk_rope, 0, kv_lora as int, r.0@),
        columns_of(comp@, s as int, kv_lora + qk_rope, kv_lora as int, qk_rope as int, r.1@),
{
    let width: usize = kv_lora + qk_rope;
    let latent: Vec<u32> = columns(comp, s, width, 0, kv_lora);
    let rope: Vec<u32> = columns(comp, s, width, kv_lora, qk_rope);
    (latent, rope)
}

/// Selections in rows of fixed length: row `q` holds the first `max` positions of
/// query `q`, then zeros.
pub open spec fn is_flat(sel: Seq<Vec<usize>>, max: int, idx: Seq<usize>, cnt: Seq<usize>) -> bool {
    &&& idx.len() == sel.len() * max
    &&& cnt.len() == sel.len()
    &&& forall|q: int|
        0 <= q < sel.len() ==> #[trigger] cnt[q] == if sel[q]@.len() < max {
            sel[q]@.len() as int
        } else {
            max
        }
    &&& forall|q: int, j: int|
        0 <= q < sel.len() && 0 <= j < max ==> #[trigger] idx[q * max + j] == if j < sel[q]@.len() {
            sel[q]@[j]
        } else {
            0
        }
}

/// Lays selections out in rows of fixed length, with the number of positions in
/// each. A query with an empty row attends to everything.
pub fn flatten(sel: &Vec<Vec<usize>>, max: usize) -> (r: (Vec<usize>, Vec<usize>))
    ensures
        is_flat(sel@, max as int, r.0@, r.1@),
{
    let mut idx: Vec<usize> = Vec::new();
    let mut cnt: Vec<usize> = Vec::new();
    assert(0 * max == 0) by (nonlinear_arith);
    for q in 0..sel.len()
        invariant
            cnt@.len() == q,
            idx@.len() == q * max,
            forall|p: int|
                0 <= p < q ==> #[trigger] cnt@[p] == if sel@[p]@.len() < max {
                    sel@[p]@.len() as int
                } else {
                    max as int
                },
            forall|p: int, j: int|
                0 <= p < q && 0 <= j < max ==> #[trigger] idx@[p * max + j] == if j
                    < sel@[p]@.len() {
                    sel@[p]@[j]
                } else {
                    0
                },
    {
        let row: &Vec<usize> = &sel[q];
        let n: usize = row.len();
        cnt.push(if n < max { n } else { max });
        for j in 0..max
            invariant
                q < sel@.len(),
                *row == sel@[q as int],
                n == row@.len(),
                idx@.len() == q * max + j,
                forall|p: int, k: int|
                    0 <= p < q && 0 <= k < max ==> #[trigger] idx@[p * max + k] == if k
                        < sel@[p]@.len() {
                        sel@[p]@[k]
                    } else {
                        0
                    },
                forall|k: int|
                    0 <= k < j ==> #[trigger] idx@[q * max + k] == if k < row@.len() {
                        row@[k]
                    } else {
                        0
                    },
        {
            let ghost before = idx@;
            idx.push(if j < n { row[j] } else { 0 });
            assert forall|p: int, k: int| 0 <= p < q && 0 <= k < max implies #[trigger] idx@[p * max
                + k] == if k < sel@[p]@.len() {
                sel@[p]@[k]
            } else {
                0
            } by {
                assert(p * max + k < q * max && p * max >= 0) by (nonlinear_arith)
                    requires
                        0 <= p,
                        p + 1 <= q,
                        0 <= k < max,
                ;
                assert(before[p * max + k] == idx@[p * max + k]);
            }
        }
        proof {
            assert((q + 1) * max == q * max + max) by (nonlinear_arith);
            assert forall|p: int, j: int| 0 <= p < q + 1 && 0 <= j < max implies #[trigger] idx@[p
                * max + j] == if j < sel@[p]@.len() {
                sel@[p]@[j]
            } else {
                0
            } by {
                if p == q {
                    assert(idx@[q * max + j] == if j < row@.len() {
                        row@[j]
                    } else {
                        0
                    });
                }
            }
        }
    }
    (idx, cnt)
}

/// The indexer selects keys for a prompt, and for nothing else: the prompt begins the
/// sequence, there is more of it than would be kept, the layer can select for itself
/// and nobody has selected already. There is a selection exactly if one was given or
/// the indexer runs.
pub proof fn prompts_that_exceed_the_selection_are_indexed(
    call: AttnCall,
    setup: AttnSetup,
    plan: AttnPlan,
)
    requires
        call_ensures(attention_with, (call, setup), plan),
    ensures
        plan.runs_indexer ==> !call.selection_given && setup.has_indexer && setup.full_indexer
            && setup.dsa_enabled,
        plan.runs_indexer ==> call.pos_base == 0 && call.st0 == 0 && call.s_len > setup.index_topk,
        !plan.runs_indexer && setup.has_indexer && setup.full_indexer && setup.dsa_enabled
            && call.pos_base == 0 && call.st0 == 0 ==> call.selection_given || call.s_len
            <= setup.index_topk,
        plan.sparse <==> call.selection_given || plan.runs_indexer,
        plan.fallback == call.core,
{
}

/// A device that is there and may be used is used, except by a selection that it
/// cannot apply: with the absorbing core, over a cache that begins later, or where it
/// is kept off. One token over a cache from its beginning reads the device's own copy.
pub proof fn a_device_is_used_where_it_can_be(call: AttnCall, setup: AttnSetup, plan: AttnPlan)
    requires
        call_ensures(attention_with, (call, setup), plan),
    ensures
        plan.arm != DeviceArm::Host ==> setup.available && setup.eligible,
        plan.arm == DeviceArm::Host && setup.available && setup.eligible ==> plan.sparse && (
        call.core == AttnCore::Absorb || call.st0 != 0 || setup.force_cpu),
        plan.arm == DeviceArm::Sparse ==> plan.sparse && call.core == AttnCore::Reconstruct
            && call.st0 == 0 && !setup.force_cpu,
        plan.arm == DeviceArm::DeviceKv ==> !plan.sparse && call.s_len == 1 && call.st0 == 0,
        plan.arm == DeviceArm::Batch ==> !plan.sparse && (call.s_len != 1 || call.st0 != 0),
{
}

/// Attention as such is the reference core without a selection from outside.
pub proof fn plain_attention_is_the_reference(
    s_len: usize,
    pos_base: usize,
    st0: usize,
    setup: AttnSetup,
    plan: AttnPlan,
    same: AttnPlan,
)
    requires
        call_ensures(attention, (s_len, pos_base, st0, setup), plan),
        call_ensures(
            attention_with,
            (
                AttnCall {
                    core: AttnCore::Reconstruct,
                    s_len,
                    pos_base,
                    st0,
                    selection_given: false,
                },
                setup,
            ),
            same,
        ),
    ensures
        plan == same,
{
}

/// Without a selection a query sees every cached position up to its own; with one it
/// sees the selected positions in their order, counted from where the cache begins.
pub proof fn a_query_sees_its_selection_or_everything(
    sel: Vec<usize>,
    pos: usize,
    st0: usize,
    out: Vec<usize>,
    j: int,
)
    requires
        st0 <= pos < usize::MAX,
        forall|k: int| 0 <= k < sel@.len() ==> st0 <= #[trigger] sel@[k],
        call_ensures(attended, (&sel, pos, st0), out),
        0 <= j < out@.len(),
    ensures
        sel@.len() == 0 ==> out@.len() == pos + 1 - st0 && out@[j] == j,
        sel@.len() > 0 ==> out@.len() == sel@.len() && out@[j] + st0 == sel@[j],
{
    let as_ints = out@.map_values(|j: usize| j as int);
    let want = positions_for(sel@, pos as int, st0 as int);
    assert(as_ints.len() == want.len());
    assert(as_ints[j] == want[j]);
}

/// The keys of a call's query are those of its own row: of the selection handed in, or
/// of the indexer's, or without one all from the cache's beginning to the query. The
/// absorbing core takes all.
pub proof fn each_query_gets_its_own_keys(
    call: AttnCall,
    setup: AttnSetup,
    given: Option<Vec<Vec<usize>>>,
    scores: Vec<Vec<u32>>,
    keys: AttnKeys,
    q: int,
    j: int,
)
    requires
        call.st0 <= call.pos_base,
        call.pos_base + call.s_len < usize::MAX,
        call.accepts(given),
        call.indexer_runs(setup) ==> scores@.len() == call.s_len && scores_cover(
            scores@,
            0,
            setup.index_topk as int,
        ),
        call_ensures(attention_keys, (call, setup, given, &scores), keys),
        0 <= q < call.s_len,
        0 <= j < keys.seen@[q]@.len(),
    ensures
        keys.seen@.len() == call.s_len,
        call.core == AttnCore::Absorb || given is None && keys.handed_back is None ==> ({
            &&& keys.seen@[q]@.len() == call.pos_base + q + 1 - call.st0
            &&& keys.seen@[q]@[j] == j
        }),
        call.core == AttnCore::Reconstruct && given is Some && given.unwrap()@[q]@.len() > 0 ==> ({
            &&& keys.seen@[q]@.len() == given.unwrap()@[q]@.len()
            &&& keys.seen@[q]@[j] + call.st0 == given.unwrap()@[q]@[j]
        }),
        call.core == AttnCore::Reconstruct && keys.handed_back is Some
            && keys.handed_back.unwrap()@[q]@.len() > 0 ==> ({
            &&& keys.seen@[q]@.len() == keys.handed_back.unwrap()@[q]@.len()
            &&& keys.seen@[q]@[j] + call.st0 == keys.handed_back.unwrap()@[q]@[j]
        }),
        given is Some ==> keys.handed_back is None,
{
    let sel = if call.selection_given {
        given
    } else {
        keys.handed_back
    };
    let as_ints = keys.seen@[q]@.map_values(|j: usize| j as int);
    assert(as_ints == call.seen(sel, q));
    assert(as_ints[j] == call.seen(sel, q)[j]);
    assert(as_ints.len() == call.seen(sel, q).len());
}

/// A compressed row is its latent followed by its rotary part.
pub proof fn a_row_is_its_latent_and_its_rotary_part(
    comp: Vec<u32>,
    s: usize,
    kv_lora: usize,
    qk_rope: usize,
    out: (Vec<u32>, Vec<u32>),
    r: int,
    c: int,
)
    requires
        kv_lora + qk_rope <= usize::MAX,
        comp@.len() == s * (kv_lora + qk_rope),
        call_ensures(split_compressed, (&comp, s, kv_lora, qk_rope), out),
        0 <= r < s,
        0 <= c < kv_lora + qk_rope,
    ensures
        c < kv_lora ==> comp@[r * (kv_lora + qk_rope) + c] == out.0@[r * kv_lora + c],
        c >= kv_lora ==> comp@[r * (kv_lora + qk_rope) + c] == out.1@[r * qk_rope + (c - kv_lora)],
        out.0@.len() == s * kv_lora,
        out.1@.len() == s * qk_rope,
{
    if c < kv_lora {
        assert(out.0@[r * kv_lora + c] == comp@[r * (kv_lora + qk_rope) + 0 + c]);
    } else {
        assert(out.1@[r * qk_rope + (c - kv_lora)] == comp@[r * (kv_lora + qk_rope) + kv_lora + (c
            - kv_lora)]);
    }
}

/// What is laid out can be read back: of a row no longer than the rest, every position
/// in its place, and nothing behind it.
pub proof fn laid_out_rows_read_back(
    sel: Vec<Vec<usize>>,
    max: usize,
    out: (Vec<usize>, Vec<usize>),
    q: int,
    j: int,
)
    requires
        call_ensures(flatten, (&sel, max), out),
        0 <= q < sel@.len(),
        0 <= j < max,
    ensures
        out.0@.len() == sel@.len() * max,
        out.1@.len() == sel@.len(),
        sel@[q]@.len() <= max ==> out.1@[q] == sel@[q]@.len(),
        sel@[q]@.len() > max ==> out.1@[q] == max,
        j < out.1@[q] ==> out.0@[q * max + j] == sel@[q]@[j],
        j >= out.1@[q] ==> out.0@[q * max + j] == 0,
{
    assert(out.0@[q * max + j] == out.0@[q * max + j]);
}

} // verus!
