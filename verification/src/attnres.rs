//! Attention residuals: the state that a stack without a residual stream threads
//! between its layers.
//!
//! Sublayer outputs are summed in an accumulator. At every block boundary the
//! accumulator is saved as a candidate and starts anew: the next output replaces
//! it. Each sublayer's input is a mix of the accumulator and all candidates.
//!
//! A sum is described by the outputs in it, in the order in which they were
//! added; the values are added elsewhere.

use vstd::prelude::*;
use crate::capacity::div_up;

verus! {

/// How a sublayer's output goes into the accumulator.
#[derive(Debug, Clone, Copy, PartialEq, Eq, Structural)]
pub enum Fold {
    /// It is added.
    Add,
    /// It becomes the accumulator.
    Replace,
}

/// The mathematical state of a stack.
#[verifier::ext_equal]
pub struct Residuals {
    /// What the accumulator sums.
    pub prefix: Seq<usize>,
    /// What each candidate sums.
    pub blocks: Seq<Seq<usize>>,
    /// Whether the accumulator goes on; if not, it was just saved.
    pub have_prefix: bool,
    /// Layers per block.
    pub bs: nat,
}

impl Residuals {
    /// A stack that has seen the embeddings alone.
    pub open spec fn start(embeddings: usize, bs: nat) -> Residuals {
        Residuals { prefix: seq![embeddings], blocks: Seq::empty(), have_prefix: true, bs }
    }

    /// The state once layer `li` is entered: at a boundary the accumulator, as it
    /// is on entry, is saved.
    pub open spec fn entered(self, li: nat) -> Residuals {
        if self.bs > 0 && li % self.bs == 0 {
            Residuals { blocks: self.blocks.push(self.prefix), have_prefix: false, ..self }
        } else {
            self
        }
    }

    /// How the next output goes in.
    pub open spec fn fold(self) -> Fold {
        if self.have_prefix {
            Fold::Add
        } else {
            Fold::Replace
        }
    }

    /// The state after one more output.
    pub open spec fn accumulated(self, output: usize) -> Residuals {
        Residuals {
            prefix: if self.have_prefix { self.prefix.push(output) } else { seq![output] },
            have_prefix: true,
            ..self
        }
    }

    /// The state after layer `li`, whose two outputs are numbered in order behind
    /// the embeddings, which are number zero.
    pub open spec fn layer(self, li: nat) -> Residuals {
        self.entered(li).accumulated((2 * li + 1) as usize).accumulated((2 * li + 2) as usize)
    }

    /// The state after the first `n` layers.
    pub open spec fn after(n: nat, bs: nat) -> Residuals
        decreases n,
    {
        if n == 0 {
            Residuals::start(0, bs)
        } else {
            Residuals::after((n - 1) as nat, bs).layer((n - 1) as nat)
        }
    }
}

/// The outputs of the layers `a .. b`.
pub open spec fn outputs_of(a: nat, b: nat) -> Seq<usize> {
    Seq::new((2 * (b - a)) as nat, |k: int| (2 * a + 1 + k) as usize)
}

/// The stack-level state.
pub struct AttnResState {
    pub prefix: Vec<usize>,
    pub blocks: Vec<Vec<usize>>,
    pub have_prefix: bool,
    pub bs: usize,
}

impl View for AttnResState {
    type V = Residuals;

    open spec fn view(&self) -> Residuals {
        Residuals {
            prefix: self.prefix@,
            blocks: self.blocks@.map_values(|b: Vec<usize>| b@),
            have_prefix: self.have_prefix,
            bs: self.bs as nat,
        }
    }
}

impl AttnResState {
    /// The state before the first layer, with `bs` layers per block.
    pub fn new(embeddings: usize, bs: usize) -> (st: AttnResState)
        requires
            bs > 0,
        ensures
            st@ == Residuals::start(embeddings, bs as nat),
    {
        let mut prefix: Vec<usize> = Vec::new();
        prefix.push(embeddings);
        let st = AttnResState { prefix, blocks: Vec::new(), have_prefix: true, bs };
        assert(st@ =~= Residuals::start(embeddings, bs as nat));
        st
    }

    /// Enters layer `li`. Answers whether the accumulator is to be saved. To be
    /// called after the layer's input was mixed and before its mixer runs.
    pub fn maybe_snapshot(&mut self, li: usize) -> (saved: bool)
        requires
            old(self).bs > 0,
        ensures
            final(self)@ == old(self)@.entered(li as nat),
            final(self).bs == old(self).bs,
            saved == (li as int % old(self).bs as int == 0),
    {
        if li % self.bs == 0 {
            let ghost before = self@;
            let mut copy: Vec<usize> = Vec::new();
            for i in 0..self.prefix.len()
                invariant
                    copy@ == self.prefix@.take(i as int),
            {
                copy.push(self.prefix[i]);
                assert(copy@ =~= self.prefix@.take(i + 1));
            }
            assert(copy@ =~= self.prefix@);
            self.blocks.push(copy);
            self.have_prefix = false;
            assert(self@ =~= before.entered(li as nat));
            true
        } else {
            false
        }
    }

    /// Takes one sublayer's output into the accumulator. Answers how.
    pub fn accumulate(&mut self, output: usize) -> (f: Fold)
        ensures
            final(self)@ == old(self)@.accumulated(output),
            final(self).bs == old(self).bs,
            f == old(self)@.fold(),
    {
        let ghost before = self@;
        let f: Fold = if self.have_prefix {
            self.prefix.push(output);
            Fold::Add
        } else {
            let mut fresh: Vec<usize> = Vec::new();
            fresh.push(output);
            self.prefix = fresh;
            self.have_prefix = true;
            Fold::Replace
        };
        assert(self@ =~= before.accumulated(output));
        f
    }
}

/// What the stack holds after `n` layers: one candidate per block begun, the
/// first of them the embeddings and each other the outputs of a whole block; and
/// in the accumulator the outputs since the last boundary.
pub proof fn candidates_are_whole_blocks(n: nat, bs: nat)
    requires
        bs > 0,
        2 * n + 2 <= usize::MAX,
    ensures
        ({
            let st = Residuals::after(n, bs);
            &&& st.bs == bs
            &&& st.have_prefix
            &&& st.blocks.len() == div_up(n as int, bs as int)
            &&& n > 0 ==> {
                let last = ((n - 1) / bs as int * bs) as nat;
                &&& st.blocks[0] == seq![0usize]
                &&& st.prefix == outputs_of(last, n)
                &&& forall|b: int|
                    1 <= b < st.blocks.len() ==> #[trigger] st.blocks[b] == outputs_of(
                        ((b - 1) * bs) as nat,
                        (b * bs) as nat,
                    )
            }
        }),
    decreases n,
{
    let b0 = bs as int;
    if n == 0 {
        vstd::arithmetic::div_mod::lemma_small_mod((bs - 1) as nat, bs);
        vstd::arithmetic::div_mod::lemma_basic_div(bs - 1, b0);
    } else {
        let li = (n - 1) as nat;
        candidates_are_whole_blocks(li, bs);
        let before = Residuals::after(li, bs);
        let st = Residuals::after(n, bs);
        let q = li as int / b0;
        vstd::arithmetic::div_mod::lemma_fundamental_div_mod(li as int, b0);
        assert(b0 * q == q * b0) by (nonlinear_arith);
        // blocks begun after n layers: q + 1
        assert(div_up(n as int, b0) == q + 1) by {
            let r = li as int % b0;
            assert(n + b0 - 1 == (q + 1) * b0 + r) by (nonlinear_arith)
                requires
                    li == b0 * q + r,
                    n == li + 1,
            ;
            vstd::arithmetic::div_mod::lemma_fundamental_div_mod_converse(n + b0 - 1, b0, q + 1, r);
        }
        if li % bs == 0 {
            assert(q * b0 == li);
            assert(st.prefix =~= outputs_of(li, n));
            if li > 0 {
                // the block that just ended
                let r = (li - 1) as int % b0;
                let p = (li - 1) as int / b0;
                vstd::arithmetic::div_mod::lemma_fundamental_div_mod(li - 1, b0);
                assert(p == q - 1) by (nonlinear_arith)
                    requires
                        li - 1 == b0 * p + r,
                        0 <= r < b0,
                        li == b0 * q,
                        b0 > 0,
                ;
                assert(div_up(li as int, b0) == q) by {
                    vstd::arithmetic::div_mod::lemma_fundamental_div_mod_converse(
                        li + b0 - 1,
                        b0,
                        q,
                        b0 - 1,
                    );
                }
                assert(before.prefix == outputs_of((p * b0) as nat, li));
                assert(st.blocks.len() == q + 1);
                assert(st.blocks[q] == before.prefix);
                assert((q - 1) * b0 == p * b0);
                assert forall|b: int| 1 <= b < st.blocks.len() implies #[trigger] st.blocks[b]
                    == outputs_of(((b - 1) * bs) as nat, (b * bs) as nat) by {
                    if b < q {
                        assert(st.blocks[b] == before.blocks[b]);
                    }
                }
                assert(st.blocks[0] == before.blocks[0]);
            } else {
                assert(before == Residuals::start(0, bs));
                assert(st.blocks =~= seq![seq![0usize]]);
            }
        } else {
            assert(li > 0) by {
                if li == 0 {
                    vstd::arithmetic::div_mod::lemma_small_mod(0, bs);
                }
            }
            let r = li as int % b0;
            assert((li - 1) as int / b0 == q) by {
                assert(li - 1 == q * b0 + (r - 1));
                vstd::arithmetic::div_mod::lemma_fundamental_div_mod_converse(li - 1, b0, q, r - 1);
            }
            assert(div_up(li as int, b0) == q + 1) by {
                assert(li + b0 - 1 == (q + 1) * b0 + (r - 1)) by (nonlinear_arith)
                    requires
                        li == b0 * q + r,
                ;
                vstd::arithmetic::div_mod::lemma_fundamental_div_mod_converse(
                    li + b0 - 1,
                    b0,
                    q + 1,
                    r - 1,
                );
            }
            assert(q * b0 <= li);
            assert(q * b0 >= 0) by (nonlinear_arith)
                requires
                    q >= 0,
                    b0 > 0,
            ;
            assert(st.blocks == before.blocks);
            assert(st.prefix =~= outputs_of((q * b0) as nat, n));
        }
    }
}

/// A sublayer's input always has a candidate to mix in once the first layer was
/// entered: layer zero is a boundary whatever the block size.
pub proof fn layer_zero_is_a_boundary(embeddings: usize, bs: nat)
    requires
        bs > 0,
    ensures
        Residuals::start(embeddings, bs).entered(0).blocks == seq![seq![embeddings]],
{
    vstd::arithmetic::div_mod::lemma_small_mod(0, bs);
    assert(Residuals::start(embeddings, bs).entered(0).blocks =~= seq![seq![embeddings]]);
}

/// One operation of a forward pass over such a stack.
#[derive(Debug, Clone, Copy, PartialEq, Eq, Structural)]
pub enum Op {
    /// The input of a layer's mixer: a mix of accumulator and candidates.
    MixForMixer(usize),
    /// Save the accumulator as a candidate.
    Save,
    /// A layer's mixer: a linear one, or attention.
    Mixer { layer: usize, linear: bool },
    /// Take the output into the accumulator.
    Take(Fold),
    /// The input of a layer's feed-forward block.
    MixForFfn(usize),
    /// A layer's feed-forward block: routed experts, or a dense one.
    Ffn { layer: usize, sparse: bool },
    /// The result of the whole stack.
    MixForOutput,
}

/// What a layer of a stack is.
#[derive(Debug, Clone, Copy, PartialEq, Eq, Structural)]
pub struct LayerShape {
    /// Whether its mixer is a linear one.
    pub linear: bool,
    /// Whether its feed-forward block has routed experts.
    pub sparse: bool,
}

/// The operations of layer `li`.
pub open spec fn layer_ops(layers: Seq<LayerShape>, bs: nat, li: nat) -> Seq<Op> {
    let boundary = li % bs == 0;
    let l = layers[li as int];
    seq![Op::MixForMixer(li as usize)] + (if boundary { seq![Op::Save] } else { Seq::empty() })
        + seq![
        Op::Mixer { layer: li as usize, linear: l.linear },
        Op::Take(if boundary { Fold::Replace } else { Fold::Add }),
        Op::MixForFfn(li as usize),
        Op::Ffn { layer: li as usize, sparse: l.sparse },
        Op::Take(Fold::Add),
    ]
}

/// The operations of the first `n` layers.
pub open spec fn stack_ops(layers: Seq<LayerShape>, bs: nat, n: nat) -> Seq<Op>
    decreases n,
{
    if n == 0 {
        Seq::empty()
    } else {
        stack_ops(layers, bs, (n - 1) as nat) + layer_ops(layers, bs, (n - 1) as nat)
    }
}

/// The operations of a forward pass, in order.
pub fn kimi_forward(layers: &Vec<LayerShape>, bs: usize) -> (ops: Vec<Op>)
    requires
        bs > 0,
        2 * layers@.len() + 2 <= usize::MAX,
    ensures
        ops@ == stack_ops(layers@, bs as nat, layers@.len()).push(Op::MixForOutput),
{
    let mut ops: Vec<Op> = Vec::new();
    let mut st: AttnResState = AttnResState::new(0, bs);
    for li in 0..layers.len()
        invariant
            bs > 0,
            2 * layers@.len() + 2 <= usize::MAX,
            st@ == Residuals::after(li as nat, bs as nat),
            st.bs == bs,
            ops@ == stack_ops(layers@, bs as nat, li as nat),
    {
        proof {
            candidates_are_whole_blocks(li as nat, bs as nat);
        }
        let ghost so_far = ops@;
        ops.push(Op::MixForMixer(li));
        if st.maybe_snapshot(li) {
            ops.push(Op::Save);
        }
        ops.push(Op::Mixer { layer: li, linear: layers[li].linear });
        let first: Fold = st.accumulate(2 * li + 1);
        ops.push(Op::Take(first));
        ops.push(Op::MixForFfn(li));
        ops.push(Op::Ffn { layer: li, sparse: layers[li].sparse });
        let second: Fold = st.accumulate(2 * li + 2);
        ops.push(Op::Take(second));
        proof {
            assert(ops@ =~= so_far + layer_ops(layers@, bs as nat, li as nat));
        }
    }
    ops.push(Op::MixForOutput);
    ops
}

/// A pass under way: what the stack holds, and the output that is not yet taken in.
pub struct Pass {
    pub held: Residuals,
    pub output: usize,
}

impl Pass {
    /// The pass after one operation.
    pub open spec fn performed(self, op: Op) -> Pass {
        match op {
            Op::Save => Pass {
                held: Residuals {
                    blocks: self.held.blocks.push(self.held.prefix),
                    have_prefix: false,
                    ..self.held
                },
                ..self
            },
            Op::Mixer { layer, linear: _ } => Pass { output: (2 * layer + 1) as usize, ..self },
            Op::Ffn { layer, sparse: _ } => Pass { output: (2 * layer + 2) as usize, ..self },
            Op::Take(fold) => Pass {
                held: Residuals {
                    prefix: if fold == Fold::Add {
                        self.held.prefix.push(self.output)
                    } else {
                        seq![self.output]
                    },
                    have_prefix: true,
                    ..self.held
                },
                ..self
            },
            Op::MixForMixer(_) | Op::MixForFfn(_) | Op::MixForOutput => self,
        }
    }

    /// The pass after all of `ops`.
    pub open spec fn through(self, ops: Seq<Op>) -> Pass
        decreases ops.len(),
    {
        if ops.len() == 0 {
            self
        } else {
            self.through(ops.drop_last()).performed(ops.last())
        }
    }
}

proof fn through_in_parts(p: Pass, a: Seq<Op>, b: Seq<Op>)
    ensures
        p.through(a + b) == p.through(a).through(b),
    decreases b.len(),
{
    if b.len() == 0 {
        assert(a + b =~= a);
    } else {
        through_in_parts(p, a, b.drop_last());
        assert((a + b).drop_last() =~= a + b.drop_last());
    }
}

proof fn one_layer_is_performed(p: Pass, layers: Seq<LayerShape>, bs: nat, li: nat)
    requires
        bs > 0,
        p.held.bs == bs,
        p.held.have_prefix,
        2 * li + 2 <= usize::MAX,
    ensures
        p.through(layer_ops(layers, bs, li)).held == p.held.layer(li),
{
    let l = layers[li as int];
    let front = if li % bs == 0 {
        seq![Op::MixForMixer(li as usize), Op::Save]
    } else {
        seq![Op::MixForMixer(li as usize)]
    };
    let fold = if li % bs == 0 {
        Fold::Replace
    } else {
        Fold::Add
    };
    let mixer = seq![Op::Mixer { layer: li as usize, linear: l.linear }, Op::Take(fold)];
    let ffn = seq![
        Op::MixForFfn(li as usize),
        Op::Ffn { layer: li as usize, sparse: l.sparse },
        Op::Take(Fold::Add),
    ];
    assert(layer_ops(layers, bs, li) =~= front + mixer + ffn);
    through_in_parts(p, front + mixer, ffn);
    through_in_parts(p, front, mixer);
    reveal_with_fuel(Pass::through, 4);
    let entered = p.through(front);
    assert(entered.held =~= p.held.entered(li)) by {
        if li % bs == 0 {
            assert(front.drop_last() =~= seq![Op::MixForMixer(li as usize)]);
            assert(front.drop_last().drop_last() =~= Seq::<Op>::empty());
        } else {
            assert(front.drop_last() =~= Seq::<Op>::empty());
        }
    }
    let mixed = entered.through(mixer);
    assert(mixed.held == p.held.entered(li).accumulated((2 * li + 1) as usize)) by {
        assert(mixer.drop_last() =~= seq![mixer[0]]);
        assert(mixer.drop_last().drop_last() =~= Seq::<Op>::empty());
    }
    let done = mixed.through(ffn);
    assert(done.held == p.held.layer(li)) by {
        assert(ffn.drop_last() =~= seq![ffn[0], ffn[1]]);
        assert(ffn.drop_last().drop_last() =~= seq![ffn[0]]);
        assert(ffn.drop_last().drop_last().drop_last() =~= Seq::<Op>::empty());
    }
}

/// Performing the operations of a pass one after the other keeps the stack in the
/// state that its layers lead to.
pub proof fn the_operations_keep_the_state(layers: Seq<LayerShape>, bs: nat, n: nat, p: Pass)
    requires
        bs > 0,
        2 * n + 2 <= usize::MAX,
        n <= layers.len(),
        p.held == Residuals::start(0, bs),
    ensures
        p.through(stack_ops(layers, bs, n)).held == Residuals::after(n, bs),
    decreases n,
{
    if n > 0 {
        let li = (n - 1) as nat;
        the_operations_keep_the_state(layers, bs, li, p);
        candidates_are_whole_blocks(li, bs);
        through_in_parts(p, stack_ops(layers, bs, li), layer_ops(layers, bs, li));
        one_layer_is_performed(p.through(stack_ops(layers, bs, li)), layers, bs, li);
    }
}

proof fn operations_of_layers_stand_in_order(layers: Seq<LayerShape>, bs: nat, n: nat, li: nat)
    requires
        bs > 0,
        li < n <= layers.len(),
        2 * n + 2 <= usize::MAX,
    ensures
        ({
            let at = 6 * li + div_up(li as int, bs as int);
            let ops = stack_ops(layers, bs, n);
            let own = layer_ops(layers, bs, li);
            &&& ops.len() == 6 * n + div_up(n as int, bs as int)
            &&& at + own.len() <= ops.len()
            &&& forall|k: int| 0 <= k < own.len() ==> ops[at + k] == #[trigger] own[k]
        }),
    decreases n,
{
    operations_are_counted(layers, bs, n);
    operations_are_counted(layers, bs, (n - 1) as nat);
    if li < n - 1 {
        operations_of_layers_stand_in_order(layers, bs, (n - 1) as nat, li);
    }
}

proof fn operations_are_counted(layers: Seq<LayerShape>, bs: nat, n: nat)
    requires
        bs > 0,
        n <= layers.len(),
        2 * n + 2 <= usize::MAX,
    ensures
        stack_ops(layers, bs, n).len() == 6 * n + div_up(n as int, bs as int),
    decreases n,
{
    candidates_are_whole_blocks(n, bs);
    if n > 0 {
        operations_are_counted(layers, bs, (n - 1) as nat);
        candidates_are_whole_blocks((n - 1) as nat, bs);
        assert(Residuals::after(n, bs) == Residuals::after((n - 1) as nat, bs).layer((n - 1) as nat));
    }
}

/// Every layer does the same six things, the first layer of a block one more: its
/// mixer's input is mixed before the accumulator is saved, the mixer's output replaces
/// what was saved or is added, and the output of the feed-forward block is added. The
/// layers come in order, and the output of the stack last.
pub proof fn layers_run_in_order(layers: Vec<LayerShape>, bs: usize, ops: Vec<Op>, li: usize)
    requires
        bs > 0,
        2 * layers@.len() + 2 <= usize::MAX,
        call_ensures(kimi_forward, (&layers, bs), ops),
        li < layers@.len(),
    ensures
        ({
            let blocks_before = (li + bs - 1) / (bs as int);
            let at = 6 * li + blocks_before;
            let first = li as int % bs as int == 0;
            let next = if first {
                at + 2
            } else {
                at + 1
            };
            &&& ops@.len() == 6 * layers@.len() + (layers@.len() + bs - 1) / (bs as int) + 1
            &&& next + 5 < ops@.len()
            &&& ops@[at] == Op::MixForMixer(li)
            &&& first ==> ops@[at + 1] == Op::Save
            &&& ops@[next] == (Op::Mixer { layer: li, linear: layers@[li as int].linear })
            &&& first ==> ops@[next + 1] == Op::Take(Fold::Replace)
            &&& !first ==> ops@[next + 1] == Op::Take(Fold::Add)
            &&& ops@[next + 2] == Op::MixForFfn(li)
            &&& ops@[next + 3] == (Op::Ffn { layer: li, sparse: layers@[li as int].sparse })
            &&& ops@[next + 4] == Op::Take(Fold::Add)
        }),
        ops@.last() == Op::MixForOutput,
{
    let n = layers@.len();
    operations_of_layers_stand_in_order(layers@, bs as nat, n, li as nat);
    let own = layer_ops(layers@, bs as nat, li as nat);
    let at = 6 * li + div_up(li as int, bs as int);
    let all = stack_ops(layers@, bs as nat, n);
    assert forall|k: int| 0 <= k < own.len() implies ops@[at + k] == #[trigger] own[k] by {
        assert(all[at + k] == own[k]);
    }
    let next: int = if li as int % bs as int == 0 {
        assert(own.len() == 7);
        1
    } else {
        assert(own.len() == 6);
        0
    };
    assert(ops@[at] == own[0]);
    assert(ops@[at + next] == own[next]);
    assert(ops@[at + next + 1] == own[next + 1]);
    assert(ops@[at + next + 2] == own[next + 2]);
    assert(ops@[at + next + 3] == own[next + 3]);
    assert(ops@[at + next + 4] == own[next + 4]);
    assert(ops@[at + next + 5] == own[next + 5]);
}

/// Every output is in exactly one place, in the order in which the layers gave it: the
/// outputs of a whole block in the candidate that was saved at its end, the later ones
/// in the accumulator.
pub proof fn every_output_is_held_once(n: nat, bs: nat, li: nat)
    requires
        bs > 0,
        li < n,
        2 * n + 2 <= usize::MAX,
    ensures
        ({
            let st = Residuals::after(n, bs);
            let block = li as int / bs as int;
            let place = 2 * (li as int % bs as int);
            let sum = if block + 1 < st.blocks.len() {
                st.blocks[block + 1]
            } else {
                st.prefix
            };
            &&& sum.len() == 2 * bs || sum == st.prefix
            &&& place + 1 < sum.len()
            &&& sum[place] == 2 * li + 1
            &&& sum[place + 1] == 2 * li + 2
            &&& st.blocks[0] == seq![0usize]
            &&& st.blocks.len() * bs < n + bs
            &&& n <= st.blocks.len() * bs
        }),
{
    candidates_are_whole_blocks(n, bs);
    let b0 = bs as int;
    let st = Residuals::after(n, bs);
    let count = st.blocks.len() as int;
    let block = li as int / b0;
    let r = li as int % b0;
    vstd::arithmetic::div_mod::lemma_fundamental_div_mod(li as int, b0);
    vstd::arithmetic::div_mod::lemma_mod_bound(li as int, b0);
    vstd::arithmetic::div_mod::lemma_fundamental_div_mod(n + b0 - 1, b0);
    vstd::arithmetic::div_mod::lemma_mod_bound(n + b0 - 1, b0);
    vstd::arithmetic::div_mod::lemma_fundamental_div_mod(n - 1, b0);
    vstd::arithmetic::div_mod::lemma_mod_bound(n - 1, b0);
    vstd::arithmetic::div_mod::lemma_div_is_ordered(li as int, n - 1, b0);
    vstd::arithmetic::div_mod::lemma_div_pos_is_pos(li as int, b0);
    let last = (n - 1) as int / b0;
    assert(b0 * block == block * b0 && b0 * last == last * b0 && b0 * count == count * b0)
        by (nonlinear_arith);
    assert(last * b0 >= 0 && block * b0 >= 0) by (nonlinear_arith)
        requires
            last >= 0,
            block >= 0,
            b0 > 0,
    ;
    assert(count == last + 1) by (nonlinear_arith)
        requires
            n - 1 == last * b0 + (n - 1) % b0,
            0 <= (n - 1) % b0 < b0,
            n + b0 - 1 == count * b0 + (n + b0 - 1) % b0,
            0 <= (n + b0 - 1) % b0 < b0,
            b0 > 0,
    ;
    if block + 1 < count {
        assert(st.blocks[block + 1] == outputs_of((block * bs) as nat, ((block + 1) * bs) as nat));
        assert((block + 1) * b0 == block * b0 + b0) by (nonlinear_arith);
        assert((block + 1) * b0 <= last * b0) by (nonlinear_arith)
            requires
                block + 1 <= last,
                b0 > 0,
        ;
    } else {
        assert(block == last);
    }
}

/// How an output is taken in is how it is answered: what replaces leaves nothing else
/// in the accumulator, what is added leaves all of it. Saving keeps the accumulator for
/// the candidates, and is done at every `bs`-th layer.
pub proof fn a_fold_says_what_is_done(st: Residuals, output: usize, li: nat)
    requires
        st.bs > 0,
    ensures
        st.fold() == Fold::Replace ==> st.accumulated(output).prefix == seq![output],
        st.fold() == Fold::Add ==> st.accumulated(output).prefix == st.prefix + seq![output],
        st.accumulated(output).fold() == Fold::Add,
        st.accumulated(output).blocks == st.blocks,
        li % st.bs == 0 ==> st.entered(li).fold() == Fold::Replace && st.entered(li).blocks
            == st.blocks + seq![st.prefix],
        li % st.bs != 0 ==> st.entered(li) == st,
{
    assert(st.prefix.push(output) =~= st.prefix + seq![output]);
    assert(st.blocks.push(st.prefix) =~= st.blocks + seq![st.prefix]);
}

/// Entering a layer saves the accumulator at every `bs`-th one and says so; what is taken
/// in afterwards replaces it, and is added otherwise.
pub proof fn a_saved_accumulator_is_replaced(
    st: &mut AttnResState,
    later: &mut AttnResState,
    li: usize,
    output: usize,
    saved: bool,
    f: Fold,
)
    requires
        old(st).bs > 0,
        old(st).have_prefix,
        call_ensures(AttnResState::maybe_snapshot, (st, li), saved),
        *old(later) == *final(st),
        call_ensures(AttnResState::accumulate, (later, output), f),
    ensures
        saved <==> li as int % old(st).bs as int == 0,
        f == Fold::Replace <==> saved,
        saved ==> final(later)@.prefix == seq![output],
        saved ==> final(later)@.blocks == old(st)@.blocks.push(old(st)@.prefix),
        !saved ==> final(later)@.prefix == old(st)@.prefix.push(output) && final(later)@.blocks
            == old(st)@.blocks,
        final(later)@.have_prefix,
        final(later).bs == old(st).bs,
{
}

} // verus!
