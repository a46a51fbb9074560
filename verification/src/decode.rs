//! Streaming greedy generation with speculative drafts.
//!
//! A [`Generation`] decides everything a decode run decides: which token is
//! delivered next, when the draft head is asked and for how many tokens, which
//! batch the main model verifies, how many drafts are accepted, what has to be
//! rolled back, and when the run ends. It performs no forward pass itself: it
//! names the next [`Action`], and the caller reports what came back.
//!
//! A run moves through [`Phase`]s:
//!
//! ```text
//! Prefill -> Offer -> (Draft ->) Verify -> (Accept ..) -> Settle -> Offer ..
//! ```

use vstd::prelude::*;

verus! {

/// The largest draft budget a run can be given by configuration.
pub const MAX_DRAFT: usize = 63;

/// Proposals that must have been made before the acceptance rate is judged.
pub const AUTO_OFF_AFTER: u64 = 24;

/// What a decode run did. `forwards < emitted` is exactly the speculation win;
/// `drafts_accepted / drafts_proposed` is the acceptance rate that decides
/// whether the draft head is earning its keep.
#[derive(Debug, Clone, Copy, PartialEq, Eq, Structural)]
pub struct DecodeStats {
    pub emitted: usize,
    /// Main-model forwards actually run: the prefill, every verified batch, and
    /// every replay of an accepted prefix. Held at the largest `u64`.
    pub forwards: u64,
    pub drafts_proposed: u64,
    pub drafts_accepted: u64,
}

impl Default for DecodeStats {
    fn default() -> (s: DecodeStats)
        ensures
            s == (DecodeStats {
                emitted: 0,
                forwards: 0,
                drafts_proposed: 0,
                drafts_accepted: 0,
            }),
    {
        DecodeStats { emitted: 0, forwards: 0, drafts_proposed: 0, drafts_accepted: 0 }
    }
}

/// Where a run stands.
#[derive(Debug, Clone, Copy, PartialEq, Eq, Structural)]
pub enum Phase {
    /// The prompt has to be run through the model.
    Prefill,
    /// The model's own next token has to be delivered.
    Offer,
    /// The draft head has to propose tokens.
    Draft,
    /// A batch has to be run through the model.
    Verify,
    /// A draft that agrees with the model has to be delivered.
    Accept,
    /// State past the accepted prefix has to be undone.
    Settle,
    /// The run is over.
    Done,
}

/// What the caller has to do next.
#[derive(Debug, PartialEq, Eq)]
pub enum Action {
    /// Run the whole prompt from position zero; report with `prefilled`.
    Prefill,
    /// Hand the token to the consumer; report with `delivered`.
    Deliver(i32),
    /// Draft up to `budget` tokens after `next`, which stands at `pos`; report
    /// with `drafted`.
    Draft { next: i32, pos: usize, budget: usize },
    /// Run `batch` from `pos`, saving the recurrent state first if `snapshot`;
    /// report the model's next token after each position with `verified`.
    Verify { batch: Vec<i32>, pos: usize, snapshot: bool },
    /// If `replay` is not empty, restore the saved recurrent state and run
    /// `replay` from `pos`. If `absorb` is not empty, bring the draft head up to
    /// date with it. Row `row` of the verified batch is the new last hidden row.
    Settle { replay: Vec<i32>, absorb: Vec<i32>, pos: usize, row: usize },
    /// Nothing: the run is over.
    Stop,
}

/// The mathematical state of a run.
#[verifier::ext_equal]
pub struct Run {
    /// How many of the tokens in `out` are the prompt.
    pub prompt_len: nat,
    /// Tokens asked for.
    pub n_new: nat,
    /// Positions the cache can hold.
    pub max_t: nat,
    /// Tokens that end the run once delivered.
    pub stops: Seq<i32>,
    /// Whether the model carries recurrent state that a rejected draft spoils.
    pub recurrent: bool,
    /// Prompt and everything delivered so far.
    pub out: Seq<i32>,
    /// The token that the model puts next.
    pub next: i32,
    /// First position that the next forward writes.
    pub pos: nat,
    /// Tokens to draft per forward; zero switches drafting off.
    pub budget: nat,
    pub proposed: nat,
    pub accepted: nat,
    /// Main-model forwards actually run.
    pub forwards: nat,
    /// Those of them that ran an accepted prefix once more.
    pub replays: nat,
    pub phase: Phase,
    /// The drafts of the current batch.
    pub drafts: Seq<i32>,
    /// The model's token after each position of the current batch.
    pub truth: Seq<i32>,
    /// Drafts of the current batch accepted so far.
    pub k: nat,
    /// Whether an accepted draft ended the run.
    pub ended: bool,
}

/// What a caller can report.
pub enum Event {
    Prefilled(i32),
    Delivered(bool),
    Drafted(Seq<i32>),
    Verified(Seq<i32>),
    Settled,
}

/// How many of `drafted` tokens go into the batch: no more than are still owed,
/// and no more than the cache can hold after position `pos`.
pub open spec fn clamp(drafted: nat, owed: nat, max_t: nat, pos: nat) -> nat {
    let g = if drafted <= owed { drafted } else { owed };
    if pos + g + 2 > max_t {
        let room = if max_t >= pos + 2 { (max_t - (pos + 2)) as nat } else { 0 };
        if room <= g { room } else { g }
    } else {
        g
    }
}

/// Whether drafting is given up: enough proposals, under a tenth accepted.
pub open spec fn gives_up(proposed: nat, accepted: nat) -> bool {
    proposed >= AUTO_OFF_AFTER && accepted * 10 < proposed
}

impl Run {
    /// Tokens delivered so far.
    pub open spec fn emitted(self) -> int {
        self.out.len() - self.prompt_len
    }

    /// Whether the next draft is delivered: one is left, tokens are still owed,
    /// and it is what the model itself puts there.
    pub open spec fn agrees(self) -> bool {
        &&& self.k < self.drafts.len()
        &&& self.emitted() < self.n_new
        &&& self.truth[self.k as int] == self.drafts[self.k as int]
    }

    /// Whether the accepted prefix of the current batch has to be run once more: a
    /// draft behind it has spoilt recurrent state that is still needed.
    pub open spec fn replays_prefix(self) -> bool {
        self.recurrent && self.k < self.drafts.len() && !self.ended
    }

    /// The run after the current batch has been looked at: another draft to
    /// deliver, or nothing more to take from it.
    pub open spec fn judged(self) -> Run {
        Run { phase: if self.agrees() { Phase::Accept } else { Phase::Settle }, ..self }
    }

    /// The run once it may go on to another token.
    pub open spec fn at_top(self) -> Run {
        Run {
            phase: if self.emitted() < self.n_new { Phase::Offer } else { Phase::Done },
            ..self
        }
    }

    /// The run after the model's own token was delivered.
    pub open spec fn offered(self, keep: bool) -> Run {
        let r = Run { out: self.out.push(self.next), ..self };
        if r.stops.contains(self.next) || !keep || r.emitted() >= r.n_new {
            Run { phase: Phase::Done, ..r }
        } else {
            let budget = if gives_up(r.proposed, r.accepted) { 0 } else { r.budget };
            Run {
                budget,
                drafts: Seq::empty(),
                phase: if budget > 0 { Phase::Draft } else { Phase::Verify },
                ..r
            }
        }
    }

    /// The run after an agreeing draft was delivered.
    pub open spec fn taken(self, keep: bool) -> Run {
        let tok = self.drafts[self.k as int];
        let r = Run { out: self.out.push(tok), k: self.k + 1, ..self };
        if r.stops.contains(tok) || !keep {
            Run { ended: true, phase: Phase::Settle, ..r }
        } else {
            r.judged()
        }
    }

    /// Whether `e` is what the run waits for.
    pub open spec fn expects(self, e: Event) -> bool {
        match e {
            Event::Prefilled(_) => self.phase == Phase::Prefill,
            Event::Delivered(_) => self.phase == Phase::Offer || self.phase == Phase::Accept,
            Event::Drafted(_) => self.phase == Phase::Draft,
            Event::Verified(truth) => self.phase == Phase::Verify
                && truth.len() == self.drafts.len() + 1,
            Event::Settled => self.phase == Phase::Settle,
        }
    }

    /// The run after `e`.
    pub open spec fn step(self, e: Event) -> Run {
        match e {
            Event::Prefilled(first) => (Run {
                next: first,
                forwards: self.forwards + 1,
                ..self
            }).at_top(),
            Event::Delivered(keep) => if self.phase == Phase::Offer {
                self.offered(keep)
            } else {
                self.taken(keep)
            },
            Event::Drafted(proposal) => {
                let g = clamp(
                    proposal.len(),
                    (self.n_new - self.emitted()) as nat,
                    self.max_t,
                    self.pos,
                );
                Run {
                    proposed: self.proposed + proposal.len(),
                    drafts: proposal.take(g as int),
                    phase: Phase::Verify,
                    ..self
                }
            },
            Event::Verified(truth) => (Run {
                truth,
                k: 0,
                ended: false,
                forwards: self.forwards + 1,
                ..self
            }).judged(),
            Event::Settled => {
                let again: nat = if self.replays_prefix() { 1 } else { 0 };
                let r = Run {
                    accepted: self.accepted + self.k,
                    forwards: self.forwards + again,
                    replays: self.replays + again,
                    next: self.truth[self.k as int],
                    pos: self.pos + 1 + self.k,
                    ..self
                };
                if self.ended {
                    Run { phase: Phase::Done, ..r }
                } else {
                    r.at_top()
                }
            },
        }
    }

    /// Whether `a` is what the run asks its caller to do.
    pub open spec fn asks(self, a: Action) -> bool {
        match self.phase {
            Phase::Prefill => a == Action::Prefill,
            Phase::Offer => a == Action::Deliver(self.next),
            Phase::Draft => a matches Action::Draft { next, pos, budget } && {
                &&& next == self.next
                &&& pos == self.pos
                &&& budget == self.budget
            },
            Phase::Verify => a matches Action::Verify { batch, pos, snapshot } && {
                &&& batch@ == seq![self.next] + self.drafts
                &&& pos == self.pos
                &&& snapshot == (self.recurrent && self.drafts.len() > 0)
            },
            Phase::Accept => a == Action::Deliver(self.drafts[self.k as int]),
            Phase::Settle => a matches Action::Settle { replay, absorb, pos, row } && {
                &&& replay@ == if self.replays_prefix() {
                    seq![self.next] + self.drafts.take(self.k as int)
                } else {
                    Seq::empty()
                }
                &&& absorb@ == self.drafts.take(self.k as int)
                &&& pos == self.pos
                &&& row == self.k
            },
            Phase::Done => a == Action::Stop,
        }
    }

    /// A run that has not begun.
    pub open spec fn is_start(self) -> bool {
        &&& self.phase == Phase::Prefill
        &&& self.out.len() == self.prompt_len
        &&& self.prompt_len > 0
        &&& self.prompt_len + self.n_new <= self.max_t
        &&& self.pos == self.prompt_len
        &&& self.proposed == 0
        &&& self.accepted == 0
        &&& self.forwards == 0
        &&& self.replays == 0
    }

    /// Whether the forwards are what the delivered tokens took, `unused` of whose
    /// successors have not been delivered: one forward per token that was not an
    /// accepted draft, and the replays.
    pub open spec fn forwards_add_up(self, accepted: nat, unused: int) -> bool {
        self.forwards + accepted == self.emitted() + unused + self.replays
    }

    /// What every reachable state satisfies.
    pub open spec fn valid(self) -> bool {
        &&& 0 < self.prompt_len <= self.out.len()
        &&& self.prompt_len + self.n_new <= self.max_t
        &&& self.emitted() <= self.n_new
        &&& match self.phase {
            Phase::Prefill => {
                &&& self.emitted() == 0
                &&& self.pos == self.prompt_len
                &&& self.forwards == 0
                &&& self.accepted == 0
                &&& self.proposed == 0
                &&& self.replays == 0
            },
            Phase::Offer => {
                &&& self.emitted() < self.n_new
                &&& self.pos == self.out.len()
                &&& self.forwards_add_up(self.accepted, 1)
            },
            Phase::Draft => {
                &&& self.emitted() < self.n_new
                &&& self.pos + 1 == self.out.len()
                &&& self.forwards_add_up(self.accepted, 0)
                &&& self.replays + self.accepted < self.emitted()
            },
            Phase::Verify => {
                &&& self.emitted() < self.n_new
                &&& self.pos + 1 == self.out.len()
                &&& self.forwards_add_up(self.accepted, 0)
                &&& self.replays + self.accepted < self.emitted()
                &&& self.emitted() + self.drafts.len() <= self.n_new
                &&& self.pos + 2 + self.drafts.len() <= self.max_t
                &&& self.accepted + self.drafts.len() <= self.proposed
            },
            Phase::Accept | Phase::Settle => {
                &&& self.pos + 1 + self.k == self.out.len()
                &&& self.forwards_add_up(self.accepted + self.k, 1)
                &&& self.k <= self.drafts.len()
                &&& self.truth.len() == self.drafts.len() + 1
                &&& self.emitted() - self.k < self.n_new
                &&& self.emitted() - self.k + self.drafts.len() <= self.n_new
                &&& self.pos + 2 + self.drafts.len() <= self.max_t
                &&& self.accepted + self.drafts.len() <= self.proposed
                &&& self.phase == Phase::Accept ==> self.agrees()
                &&& self.ended ==> self.k > 0
                &&& self.replays < self.emitted() - self.accepted - self.k
            },
            Phase::Done => {
                ||| self.n_new > 0 && self.forwards_add_up(self.accepted, 0)
                ||| self.accepted > 0 && self.forwards_add_up(self.accepted, 1)
                ||| self.n_new == 0 && self.forwards == 1 && self.accepted == 0 && self.replays == 0
            },
        }
        &&& self.replays + self.accepted <= self.emitted()
        &&& !self.recurrent ==> self.replays == 0
        &&& self.accepted <= self.proposed
    }

    /// The run a fresh request starts as.
    pub open spec fn start(
        prompt: Seq<i32>,
        n_new: nat,
        budget: nat,
        max_t: nat,
        stops: Seq<i32>,
        recurrent: bool,
    ) -> Run {
        Run {
            prompt_len: prompt.len(),
            n_new,
            max_t,
            stops,
            recurrent,
            out: prompt,
            next: 0,
            pos: prompt.len(),
            budget,
            proposed: 0,
            accepted: 0,
            forwards: 0,
            replays: 0,
            phase: Phase::Prefill,
            drafts: Seq::empty(),
            truth: Seq::empty(),
            k: 0,
            ended: false,
        }
    }
}

/// Every step from a valid run leads to a valid run.
pub proof fn steps_stay_valid(r: Run, e: Event)
    requires
        r.valid(),
        r.expects(e),
    ensures
        r.step(e).valid(),
{
}

/// The greedy continuation of `ctx`: the model's own token again and again,
/// until `n` tokens were added, a stop token was, or the consumer wants no more.
/// `wants` is the consumer's answer to a token, given all tokens up to it.
pub open spec fn greedy(
    ctx: Seq<i32>,
    n: nat,
    stops: Seq<i32>,
    model: spec_fn(Seq<i32>) -> i32,
    wants: spec_fn(Seq<i32>) -> bool,
) -> Seq<i32>
    decreases n,
{
    if n == 0 {
        ctx
    } else {
        let longer = ctx.push(model(ctx));
        if stops.contains(model(ctx)) || !wants(longer) {
            longer
        } else {
            greedy(longer, (n - 1) as nat, stops, model, wants)
        }
    }
}

impl Run {
    /// The tokens once the one at hand is delivered.
    pub open spec fn with_token(self) -> Seq<i32> {
        self.out.push(
            if self.phase == Phase::Offer {
                self.next
            } else {
                self.drafts[self.k as int]
            },
        )
    }

    /// Whether the report `e` is the truth about `model`, the function from a
    /// context to the token that follows it, and about `wants`, the consumer's
    /// answer to each token. Of drafts nothing is asked.
    pub open spec fn honest(
        self,
        e: Event,
        model: spec_fn(Seq<i32>) -> i32,
        wants: spec_fn(Seq<i32>) -> bool,
    ) -> bool {
        match e {
            Event::Prefilled(first) => first == model(self.out),
            Event::Delivered(keep) => keep == wants(self.with_token()),
            Event::Drafted(_) => true,
            Event::Verified(truth) => forall|i: int|
                0 <= i <= self.drafts.len() ==> truth[i] == #[trigger] model(
                    self.out + self.drafts.take(i),
                ),
            Event::Settled => true,
        }
    }

    /// Whether what is still to come, done greedily, leads to `goal`.
    pub open spec fn on_course(
        self,
        goal: Seq<i32>,
        model: spec_fn(Seq<i32>) -> i32,
        wants: spec_fn(Seq<i32>) -> bool,
    ) -> bool {
        let rest = greedy(self.out, (self.n_new - self.emitted()) as nat, self.stops, model, wants);
        match self.phase {
            Phase::Prefill | Phase::Draft | Phase::Verify => rest == goal,
            Phase::Offer => rest == goal && self.next == model(self.out),
            Phase::Accept | Phase::Settle => {
                &&& if self.ended { self.out == goal } else { rest == goal }
                &&& self.phase == Phase::Accept ==> !self.ended
                &&& forall|i: int|
                    self.k <= i <= self.drafts.len() ==> self.truth[i] == #[trigger] model(
                        self.out + self.drafts.subrange(self.k as int, i),
                    )
            },
            Phase::Done => self.out == goal,
        }
    }
}

proof fn course_after_acceptance(
    r: Run,
    keep: bool,
    goal: Seq<i32>,
    model: spec_fn(Seq<i32>) -> i32,
    wants: spec_fn(Seq<i32>) -> bool,
)
    requires
        r.valid(),
        r.phase == Phase::Accept,
        keep == wants(r.with_token()),
        r.on_course(goal, model, wants),
    ensures
        r.taken(keep).on_course(goal, model, wants),
{
    let t = r.taken(keep);
    let k = r.k as int;
    assert(r.out + r.drafts.subrange(k, k) =~= r.out);
    assert(r.truth[k] == model(r.out));
    assert(t.out == r.out.push(model(r.out)));
    assert forall|i: int| t.k <= i <= t.drafts.len() implies t.truth[i] == #[trigger] model(
        t.out + t.drafts.subrange(t.k as int, i),
    ) by {
        assert(t.out + t.drafts.subrange(t.k as int, i) =~= r.out + r.drafts.subrange(k, i));
    }
}

/// An honest report keeps a run on the course to the same goal, whatever was
/// drafted.
pub proof fn honest_steps_stay_on_course(
    r: Run,
    e: Event,
    goal: Seq<i32>,
    model: spec_fn(Seq<i32>) -> i32,
    wants: spec_fn(Seq<i32>) -> bool,
)
    requires
        r.valid(),
        r.expects(e),
        r.honest(e, model, wants),
        r.on_course(goal, model, wants),
    ensures
        r.step(e).on_course(goal, model, wants),
{
    let s = r.step(e);
    reveal_with_fuel(greedy, 2);
    match e {
        Event::Prefilled(_) => {},
        Event::Delivered(keep) => {
            if r.phase == Phase::Accept {
                course_after_acceptance(r, keep, goal, model, wants);
            }
        },
        Event::Drafted(_) => {},
        Event::Verified(truth) => {
            assert forall|i: int| s.k <= i <= s.drafts.len() implies s.truth[i]
                == #[trigger] model(s.out + s.drafts.subrange(s.k as int, i)) by {
                assert(r.drafts.take(i) =~= s.drafts.subrange(0, i));
            }
        },
        Event::Settled => {
            let k = r.k as int;
            assert(r.out + r.drafts.subrange(k, k) =~= r.out);
        },
    }
}

/// `states` are those that a run of the decoder went through while `events` were
/// reported.
pub open spec fn is_run(states: Seq<Run>, events: Seq<Event>) -> bool {
    &&& states.len() == events.len() + 1
    &&& states[0].is_start()
    &&& forall|i: int|
        0 <= i < events.len() ==> {
            &&& #[trigger] states[i].expects(events[i])
            &&& states[i + 1] == states[i].step(events[i])
        }
}

/// A run whose reports are the truth about a model and a consumer.
pub open spec fn is_honest_run(
    states: Seq<Run>,
    events: Seq<Event>,
    model: spec_fn(Seq<i32>) -> i32,
    wants: spec_fn(Seq<i32>) -> bool,
) -> bool {
    &&& is_run(states, events)
    &&& forall|i: int|
        0 <= i < events.len() ==> (#[trigger] states[i]).honest(events[i], model, wants)
}

proof fn runs_stay_valid(states: Seq<Run>, events: Seq<Event>, n: nat)
    requires
        is_run(states, events),
        n < states.len(),
    ensures
        states[n as int].valid(),
        states[n as int].n_new == states[0].n_new,
        states[n as int].stops == states[0].stops,
        states[n as int].recurrent == states[0].recurrent,
    decreases n,
{
    if n > 0 {
        let m = (n - 1) as nat;
        runs_stay_valid(states, events, m);
        assert(states[m as int].expects(events[m as int]));
        steps_stay_valid(states[m as int], events[m as int]);
    }
}

proof fn runs_stay_on_course(
    states: Seq<Run>,
    events: Seq<Event>,
    model: spec_fn(Seq<i32>) -> i32,
    wants: spec_fn(Seq<i32>) -> bool,
    n: nat,
)
    requires
        is_honest_run(states, events, model, wants),
        n < states.len(),
    ensures
        states[n as int].on_course(
            greedy(states[0].out, states[0].n_new, states[0].stops, model, wants),
            model,
            wants,
        ),
    decreases n,
{
    if n > 0 {
        let m = (n - 1) as nat;
        runs_stay_on_course(states, events, model, wants, m);
        runs_stay_valid(states, events, m);
        assert(states[m as int].expects(events[m as int]));
        assert(states[m as int].honest(events[m as int], model, wants));
        honest_steps_stay_on_course(
            states[m as int],
            events[m as int],
            greedy(states[0].out, states[0].n_new, states[0].stops, model, wants),
            model,
            wants,
        );
    }
}

/// Speculation never changes the output. A finished run delivers exactly the
/// greedy continuation of its prompt, up to where the consumer stops it, whatever
/// the budget was and whatever was drafted along the way.
pub proof fn speculation_never_changes_the_output(
    states: Seq<Run>,
    events: Seq<Event>,
    model: spec_fn(Seq<i32>) -> i32,
    wants: spec_fn(Seq<i32>) -> bool,
)
    requires
        is_honest_run(states, events, model, wants),
        states.last().phase == Phase::Done,
    ensures
        states.last().out == greedy(states[0].out, states[0].n_new, states[0].stops, model, wants),
{
    runs_stay_on_course(states, events, model, wants, events.len());
}

/// Two finished runs of the same request for the same consumer deliver the same
/// tokens, however differently they speculated.
pub proof fn runs_of_one_request_agree(
    a: Seq<Run>,
    b: Seq<Run>,
    ea: Seq<Event>,
    eb: Seq<Event>,
    model: spec_fn(Seq<i32>) -> i32,
    wants: spec_fn(Seq<i32>) -> bool,
)
    requires
        is_honest_run(a, ea, model, wants),
        is_honest_run(b, eb, model, wants),
        a[0].out == b[0].out,
        a[0].n_new == b[0].n_new,
        a[0].stops == b[0].stops,
        a.last().phase == Phase::Done,
        b.last().phase == Phase::Done,
    ensures
        a.last().out == b.last().out,
{
    speculation_never_changes_the_output(a, ea, model, wants);
    speculation_never_changes_the_output(b, eb, model, wants);
}

/// What a finished run saves in forwards is what it accepted, less what it had to
/// run again, and less one where the last forward's own token was not wanted any
/// more. So it takes fewer forwards than it delivers tokens only where speculation
/// won, and never more where nothing had to be run again.
pub proof fn fewer_forwards_are_the_speculation_win(r: Run)
    requires
        r.valid(),
        r.phase == Phase::Done,
        r.n_new > 0,
    ensures
        ({
            let won = r.accepted - r.replays;
            r.emitted() - r.forwards == won || r.emitted() - r.forwards == won - 1
        }),
        r.forwards < r.emitted() ==> r.accepted > r.replays,
        r.replays == 0 ==> r.forwards <= r.emitted(),
        !r.recurrent ==> r.replays == 0,
        r.accepted <= r.proposed,
{
}

/// Before a token is delivered, the forwards run so far are one for each token
/// that was not an accepted draft, the replays, and the one that put the token at
/// hand.
pub proof fn forwards_are_counted_as_they_run(r: Run)
    requires
        r.valid(),
        r.phase == Phase::Offer,
    ensures
        r.forwards == r.emitted() - r.accepted + r.replays + 1,
{
}

proof fn runs_without_budget_stay_plain(states: Seq<Run>, events: Seq<Event>, n: nat)
    requires
        is_run(states, events),
        states[0].budget == 0,
        n < states.len(),
    ensures
        ({
            let r = states[n as int];
            &&& r.budget == 0
            &&& r.accepted == 0
            &&& r.proposed == 0
            &&& r.replays == 0
            &&& r.phase != Phase::Draft
            &&& r.phase != Phase::Accept
            &&& r.phase == Phase::Verify || r.phase == Phase::Settle ==> r.drafts.len() == 0
        }),
    decreases n,
{
    if n > 0 {
        let m = (n - 1) as nat;
        runs_without_budget_stay_plain(states, events, m);
        runs_stay_valid(states, events, m);
        assert(states[m as int].expects(events[m as int]));
        no_budget_means_one_token_per_forward(states[m as int], events[m as int]);
    }
}

/// Without a budget a finished run has taken one forward per token: the prefill
/// for the first and one more for each that follows.
pub proof fn without_a_budget_every_token_takes_a_forward(states: Seq<Run>, events: Seq<Event>)
    requires
        is_run(states, events),
        states[0].budget == 0,
        states[0].n_new > 0,
        states.last().phase == Phase::Done,
    ensures
        states.last().forwards == states.last().emitted(),
        states.last().proposed == 0,
{
    runs_without_budget_stay_plain(states, events, events.len());
    runs_stay_valid(states, events, events.len());
}

/// The positions that a batch writes stay inside the cache.
pub proof fn batches_stay_inside_the_cache(r: Run)
    requires
        r.valid(),
        r.phase == Phase::Verify,
    ensures
        r.pos + 1 + r.drafts.len() < r.max_t,
{
}

/// Without a budget no token is ever drafted: each forward verifies exactly one
/// token, the one just delivered.
pub proof fn no_budget_means_one_token_per_forward(r: Run, e: Event)
    requires
        r.valid(),
        r.budget == 0,
        r.phase != Phase::Draft,
        r.phase == Phase::Verify || r.phase == Phase::Settle ==> r.drafts.len() == 0,
        r.phase != Phase::Accept,
        r.expects(e),
    ensures
        r.step(e).budget == 0,
        r.step(e).phase != Phase::Draft,
        r.step(e).phase != Phase::Accept,
        r.step(e).phase == Phase::Verify || r.step(e).phase == Phase::Settle ==> r.step(
            e,
        ).drafts.len() == 0,
{
}

/// What the caller of a run works on, as the tokens that went into it.
#[verifier::ext_equal]
pub struct World {
    /// The tokens in the attention cache, by position.
    pub cache: Seq<i32>,
    /// The tokens that the recurrent state was advanced over.
    pub recurrent: Seq<i32>,
    /// Those of the saved recurrent state.
    pub saved: Seq<i32>,
    /// What stood in the cache in front of the last batch.
    pub front: Seq<i32>,
    /// The last batch that was verified.
    pub batch: Seq<i32>,
    /// The tokens up to the one whose hidden row is the last.
    pub hidden: Seq<i32>,
    /// The tokens handed to the consumer.
    pub handed: Seq<i32>,
    /// Those of them that were handed over since the last batch ran.
    pub fresh: Seq<i32>,
    /// The tokens behind a batch's first that the draft head was last brought up to
    /// date with.
    pub absorbed: Seq<i32>,
    /// Forwards of the main model.
    pub runs: nat,
}

impl World {
    /// After the main model ran `batch` from `pos`: what stood there is overwritten,
    /// and recurrent state moves on from where it is.
    pub open spec fn ran(self, batch: Seq<i32>, pos: int) -> World {
        World {
            cache: self.cache.take(pos) + batch,
            recurrent: self.recurrent + batch,
            runs: self.runs + 1,
            ..self
        }
    }

    /// After an action was performed on it, in a run for `prompt`.
    pub open spec fn after(self, prompt: Seq<i32>, a: Action) -> World {
        match a {
            Action::Prefill => World {
                hidden: prompt,
                ..(World { recurrent: Seq::empty(), ..self }).ran(prompt, 0)
            },
            Action::Deliver(t) => World {
                handed: self.handed.push(t),
                fresh: self.fresh.push(t),
                ..self
            },
            Action::Draft { .. } => self,
            Action::Verify { batch, pos, snapshot } => World {
                saved: if snapshot {
                    self.recurrent
                } else {
                    self.saved
                },
                front: self.cache.take(pos as int),
                batch: batch@,
                fresh: Seq::empty(),
                ..self.ran(batch@, pos as int)
            },
            Action::Settle { replay, absorb, pos, row } => {
                let w = World {
                    hidden: self.front + self.batch.take(row + 1),
                    absorbed: absorb@,
                    ..self
                };
                if replay@.len() > 0 {
                    (World { recurrent: w.saved, ..w }).ran(replay@, pos as int)
                } else {
                    w
                }
            },
            Action::Stop => self,
        }
    }
}

/// `worlds` are what a run's caller goes through who does what the run asks for
/// and reports it.
pub open spec fn is_played(
    states: Seq<Run>,
    events: Seq<Event>,
    actions: Seq<Action>,
    worlds: Seq<World>,
) -> bool {
    &&& is_run(states, events)
    &&& actions.len() == events.len()
    &&& worlds.len() == states.len()
    &&& worlds[0].handed.len() == 0
    &&& worlds[0].runs == 0
    &&& forall|i: int|
        0 <= i < events.len() ==> {
            &&& #[trigger] states[i].asks(actions[i])
            &&& worlds[i + 1] == worlds[i].after(states[0].out, actions[i])
        }
}

impl Run {
    /// Whether the caller's world is where the run takes it to be.
    spec fn matches_world(self, prompt: Seq<i32>, w: World) -> bool {
        let base = self.out.take(self.pos as int);
        let batch = seq![self.next] + self.drafts;
        &&& prompt + w.handed == self.out
        &&& prompt.len() == self.prompt_len
        &&& w.runs == self.forwards
        &&& match self.phase {
            Phase::Offer => {
                &&& w.cache.len() >= self.pos
                &&& w.cache.take(self.pos as int) == self.out
                &&& w.hidden == self.out
                &&& self.recurrent ==> w.recurrent == self.out
            },
            Phase::Draft | Phase::Verify => {
                &&& w.cache.len() >= self.pos
                &&& w.cache.take(self.pos as int) == base
                &&& w.hidden == base
                &&& self.out == base.push(self.next)
                &&& self.recurrent ==> w.recurrent == base
            },
            Phase::Accept | Phase::Settle => {
                &&& w.cache == base + batch
                &&& w.front == base
                &&& w.batch == batch
                &&& w.fresh == self.drafts.take(self.k as int)
                &&& self.out == base + batch.take(1 + self.k as int)
                &&& self.recurrent ==> w.recurrent == base + batch
                &&& self.recurrent && self.drafts.len() > 0 ==> w.saved == base
            },
            _ => true,
        }
    }
}

proof fn a_step_keeps_the_world(r: Run, e: Event, a: Action, prompt: Seq<i32>, w: World)
    requires
        r.valid(),
        r.expects(e),
        r.asks(a),
        r.phase == Phase::Prefill ==> r.out == prompt,
        r.matches_world(prompt, w),
    ensures
        r.step(e).matches_world(prompt, w.after(prompt, a)),
{
    let s = r.step(e);
    let v = w.after(prompt, a);
    let base = r.out.take(r.pos as int);
    let batch = seq![r.next] + r.drafts;
    match e {
        Event::Prefilled(_) => {
            assert(v.cache =~= prompt);
            assert(v.recurrent =~= prompt);
            assert(v.cache.take(s.pos as int) =~= s.out);
        },
        Event::Delivered(_) => {
            assert(prompt + v.handed =~= s.out);
            if r.phase == Phase::Offer {
                assert(s.out.take(r.pos as int) =~= r.out);
            } else {
                assert(s.out.take(r.pos as int) =~= base);
                assert(batch.take(1 + s.k as int) =~= batch.take(1 + r.k as int).push(
                    r.drafts[r.k as int],
                ));
                assert(s.out =~= base + batch.take(1 + s.k as int));
                assert(v.fresh =~= s.drafts.take(s.k as int));
            }
        },
        Event::Drafted(_) => {},
        Event::Verified(_) => {
            assert(v.cache =~= base + batch);
            assert(batch.take(1) =~= seq![r.next]);
            assert(s.out =~= base + batch.take(1 + s.k as int));
            assert(v.fresh =~= s.drafts.take(0));
        },
        Event::Settled => {
            let k = r.k as int;
            let done = batch.take(1 + k);
            assert(done =~= seq![r.next] + r.drafts.take(k));
            assert(v.hidden == r.out);
            if r.replays_prefix() {
                assert(w.cache.take(r.pos as int) =~= base);
                assert(v.cache =~= r.out);
                assert(v.recurrent == r.out);
                assert(v.cache.take(s.pos as int) =~= s.out);
            } else if !r.ended {
                assert(v.cache == base + batch);
                assert(v.cache.take(s.pos as int) =~= base + done);
                if r.recurrent {
                    assert(batch.take(1 + k) =~= batch);
                }
            }
        },
    }
}

proof fn runs_keep_the_world(
    states: Seq<Run>,
    events: Seq<Event>,
    actions: Seq<Action>,
    worlds: Seq<World>,
    n: nat,
)
    requires
        is_played(states, events, actions, worlds),
        n < states.len(),
    ensures
        states[n as int].matches_world(states[0].out, worlds[n as int]),
        states[n as int].phase == Phase::Prefill ==> states[n as int].out == states[0].out,
    decreases n,
{
    if n > 0 {
        let m = n - 1;
        runs_keep_the_world(states, events, actions, worlds, m as nat);
        runs_stay_valid(states, events, m as nat);
        assert(states[m].expects(events[m]));
        assert(states[m].asks(actions[m]));
        a_step_keeps_the_world(states[m], events[m], actions[m], states[0].out, worlds[m]);
    } else {
        assert(states[0].out + worlds[0].handed =~= states[0].out);
    }
}

/// Whoever does what a run asks for has state that fits its tokens. At all times
/// what the consumer was handed is what the run has put behind its prompt, and the
/// forwards counted are those that ran. Whenever the model's own token is to be
/// delivered next, the attention cache, the last hidden row and any recurrent state
/// stand exactly behind the prompt and the tokens delivered so far, as if no draft
/// had ever been rejected.
pub proof fn state_stands_behind_the_delivered_tokens(
    states: Seq<Run>,
    events: Seq<Event>,
    actions: Seq<Action>,
    worlds: Seq<World>,
    n: int,
)
    requires
        is_played(states, events, actions, worlds),
        0 <= n < states.len(),
    ensures
        states[n].out == states[0].out + worlds[n].handed,
        states[n].forwards == worlds[n].runs,
        states[n].phase == Phase::Offer ==> {
            let tokens = states[0].out + worlds[n].handed;
            &&& states[n].pos == tokens.len()
            &&& worlds[n].cache.take(tokens.len() as int) == tokens
            &&& worlds[n].hidden == tokens
            &&& states[0].recurrent ==> worlds[n].recurrent == tokens
        },
{
    runs_keep_the_world(states, events, actions, worlds, n as nat);
    runs_stay_valid(states, events, n as nat);
}

/// A draft is asked for, and a batch is run, right behind the tokens delivered
/// before the last one: the last one has not been run yet, and goes first.
pub proof fn batches_begin_with_the_last_token(
    states: Seq<Run>,
    events: Seq<Event>,
    actions: Seq<Action>,
    worlds: Seq<World>,
    n: int,
)
    requires
        is_played(states, events, actions, worlds),
        0 <= n < events.len(),
    ensures
        actions[n] matches Action::Draft { next, pos, budget } ==> {
            &&& pos + 1 == states[n].out.len()
            &&& next == states[n].out.last()
            &&& budget > 0
            &&& budget <= states[0].budget
        },
        actions[n] matches Action::Verify { batch, pos, .. } ==> {
            &&& pos + 1 == states[n].out.len()
            &&& batch@.len() > 0
            &&& batch@[0] == states[n].out.last()
            &&& batch@.len() + pos < states[0].max_t
            &&& batch@.len() <= 1 + states[0].n_new - worlds[n].handed.len()
        },
{
    runs_keep_the_world(states, events, actions, worlds, n as nat);
    runs_stay_valid(states, events, n as nat);
    budgets_only_shrink(states, events, n as nat);
    assert(states[n].asks(actions[n]));
}

proof fn budgets_only_shrink(states: Seq<Run>, events: Seq<Event>, n: nat)
    requires
        is_run(states, events),
        n < states.len(),
    ensures
        states[n as int].budget <= states[0].budget,
        states[n as int].max_t == states[0].max_t,
        states[n as int].phase == Phase::Draft ==> states[n as int].budget > 0,
    decreases n,
{
    if n > 0 {
        budgets_only_shrink(states, events, (n - 1) as nat);
        assert(states[n - 1].expects(events[n - 1]));
    }
}

/// When a batch is settled, the draft head is brought up to date with exactly the
/// drafts that were delivered, and the hidden row kept is that of the last token
/// delivered. Where recurrent state ran over a draft that was not delivered and the
/// run goes on, it is restored and run over what was delivered, also if that is the
/// batch's first token alone; otherwise nothing is run again.
pub proof fn a_settlement_undoes_what_was_not_delivered(
    states: Seq<Run>,
    events: Seq<Event>,
    actions: Seq<Action>,
    worlds: Seq<World>,
    n: int,
)
    requires
        is_played(states, events, actions, worlds),
        0 <= n < events.len(),
    ensures
        actions[n] matches Action::Settle { replay, absorb, pos, row } ==> {
            let w = worlds[n];
            let stale = w.batch.len() > 1 + w.fresh.len();
            &&& absorb@ == w.fresh
            &&& row == w.fresh.len()
            &&& w.batch.take(1 + w.fresh.len() as int) == seq![w.batch[0]] + w.fresh
            &&& states[0].recurrent && stale && states[n + 1].phase == Phase::Offer ==> replay@
                == seq![w.batch[0]] + w.fresh && w.saved == w.front
            &&& !states[0].recurrent || !stale ==> replay@.len() == 0
        },
{
    runs_keep_the_world(states, events, actions, worlds, n as nat);
    runs_stay_valid(states, events, n as nat);
    assert(states[n].expects(events[n]));
    assert(states[n].asks(actions[n]));
    if states[n].phase == Phase::Settle {
        let r = states[n];
        let w = worlds[n];
        assert(w.batch.take(1 + w.fresh.len() as int) =~= seq![w.batch[0]] + w.fresh);
    }
}

/// A request starts a run for its own tokens, limits and stops.
pub proof fn a_run_starts_as_asked(
    prompt: Seq<i32>,
    n_new: nat,
    budget: nat,
    max_t: nat,
    stops: Seq<i32>,
    recurrent: bool,
)
    requires
        prompt.len() > 0,
        prompt.len() + n_new <= max_t,
    ensures
        ({
            let r = Run::start(prompt, n_new, budget, max_t, stops, recurrent);
            &&& r.is_start()
            &&& r.out == prompt
            &&& r.n_new == n_new
            &&& r.budget == budget
            &&& r.max_t == max_t
            &&& r.stops == stops
            &&& r.recurrent == recurrent
        }),
{
}

/// Steps that are left at most: every report brings a run nearer to its end.
pub open spec fn steps_left(r: Run) -> int {
    (r.n_new - r.emitted()) * 7 + match r.phase {
        Phase::Prefill => 6int,
        Phase::Draft => 5,
        Phase::Verify => 4,
        Phase::Accept => 3,
        Phase::Settle => 2,
        Phase::Offer => 1,
        Phase::Done => 0,
    }
}

/// No run goes on for ever: each report leaves fewer steps to take, and a run that
/// waits for nothing is done.
pub proof fn every_run_comes_to_an_end(r: Run, e: Event)
    requires
        r.valid(),
    ensures
        r.expects(e) ==> 0 <= steps_left(r.step(e)) < steps_left(r),
        r.phase == Phase::Done ==> !r.expects(e),
        r.phase != Phase::Done ==> exists|f: Event| r.expects(f),
{
    match r.phase {
        Phase::Prefill => {
            assert(r.expects(Event::Prefilled(0)));
        },
        Phase::Offer | Phase::Accept => {
            assert(r.expects(Event::Delivered(true)));
        },
        Phase::Draft => {
            assert(r.expects(Event::Drafted(Seq::empty())));
        },
        Phase::Verify => {
            assert(r.expects(Event::Verified(Seq::new(r.drafts.len() + 1, |i: int| 0))));
        },
        Phase::Settle => {
            assert(r.expects(Event::Settled));
        },
        Phase::Done => {},
    }
}

/// Drafts are verified in the order they were proposed, as many as can be used: one
/// is left out only where the tokens owed or the cache's positions run out. Every
/// proposal is counted.
pub proof fn no_draft_is_left_out_needlessly(r: Run, proposal: Seq<i32>)
    requires
        r.valid(),
        r.expects(Event::Drafted(proposal)),
    ensures
        ({
            let s = r.step(Event::Drafted(proposal));
            let n = s.drafts.len() as int;
            &&& s.phase == Phase::Verify
            &&& n <= proposal.len()
            &&& s.drafts == proposal.take(n)
            &&& n < proposal.len() ==> s.emitted() + n == s.n_new || s.pos + n + 2 == s.max_t
            &&& s.proposed == r.proposed + proposal.len()
        }),
{
}

/// Drafting is given up once two dozen tokens were proposed and fewer than one in
/// ten of them accepted, and for no other reason; a draft is asked for whenever
/// there is a budget left.
pub proof fn poor_drafts_are_given_up(r: Run)
    requires
        r.valid(),
        r.phase == Phase::Offer,
        !r.stops.contains(r.next),
        r.emitted() + 1 < r.n_new,
    ensures
        ({
            let s = r.step(Event::Delivered(true));
            let poor = r.proposed >= 24 && r.proposed > 10 * r.accepted;
            &&& poor ==> s.budget == 0
            &&& !poor ==> s.budget == r.budget
            &&& s.phase == if s.budget > 0 {
                Phase::Draft
            } else {
                Phase::Verify
            }
            &&& s.phase == Phase::Verify ==> s.drafts.len() == 0
        }),
{
}

proof fn batches_are_judged(states: Seq<Run>, events: Seq<Event>, n: nat)
    requires
        is_run(states, events),
        n < states.len(),
    ensures
        ({
            let r = states[n as int];
            r.phase == Phase::Accept || r.phase == Phase::Settle ==> {
                &&& forall|i: int| 0 <= i < r.k ==> #[trigger] r.truth[i] == r.drafts[i]
                &&& r.phase == Phase::Settle ==> r.ended || r.k == r.drafts.len() || r.emitted()
                    == r.n_new || r.truth[r.k as int] != r.drafts[r.k as int]
                &&& r.ended ==> r.k > 0
            }
        }),
    decreases n,
{
    if n > 0 {
        batches_are_judged(states, events, (n - 1) as nat);
        runs_stay_valid(states, events, (n - 1) as nat);
        assert(states[n - 1].expects(events[n - 1]));
    }
}

/// Of every batch the longest run of drafts that the model agrees with is accepted:
/// it ends before a draft that the model would not have put there, with the batch,
/// or where the run does.
pub proof fn the_longest_agreeing_run_is_accepted(states: Seq<Run>, events: Seq<Event>, n: int)
    requires
        is_run(states, events),
        0 <= n < events.len(),
        events[n] is Settled,
    ensures
        ({
            let r = states[n];
            let s = states[n + 1];
            let k = s.accepted - r.accepted;
            &&& 0 <= k <= r.drafts.len()
            &&& forall|i: int| 0 <= i < k ==> #[trigger] r.drafts[i] == r.truth[i]
            &&& s.phase == Phase::Offer ==> k == r.drafts.len() || r.truth[k] != r.drafts[k]
            &&& s.next == r.truth[k]
        }),
{
    batches_are_judged(states, events, n as nat);
    runs_stay_valid(states, events, n as nat);
    assert(states[n].expects(events[n]));
}

/// A decode run in progress.
pub struct Generation {
    prompt_len: usize,
    n_new: usize,
    max_t: usize,
    stop_ids: Vec<i32>,
    recurrent: bool,
    out: Vec<i32>,
    next: i32,
    pos: usize,
    budget: usize,
    proposed: u64,
    accepted: u64,
    forwards: u128,
    replays: u64,
    phase: Phase,
    drafts: Vec<i32>,
    truth: Vec<i32>,
    k: usize,
    ended: bool,
}

impl View for Generation {
    type V = Run;

    closed spec fn view(&self) -> Run {
        Run {
            prompt_len: self.prompt_len as nat,
            n_new: self.n_new as nat,
            max_t: self.max_t as nat,
            stops: self.stop_ids@,
            recurrent: self.recurrent,
            out: self.out@,
            next: self.next,
            pos: self.pos as nat,
            budget: self.budget as nat,
            proposed: self.proposed as nat,
            accepted: self.accepted as nat,
            forwards: self.forwards as nat,
            replays: self.replays as nat,
            phase: self.phase,
            drafts: self.drafts@,
            truth: self.truth@,
            k: self.k as nat,
            ended: self.ended,
        }
    }
}

/// Whether `t` is one of `ids`.
fn is_one_of(ids: &Vec<i32>, t: i32) -> (b: bool)
    ensures
        b == ids@.contains(t),
{
    for i in 0..ids.len()
        invariant
            forall|j: int| 0 <= j < i ==> ids@[j] != t,
    {
        if ids[i] == t {
            assert(ids@[i as int] == t);
            return true;
        }
    }
    false
}

/// The first `n` tokens of `v`.
fn head(v: &Vec<i32>, n: usize) -> (h: Vec<i32>)
    requires
        n <= v@.len(),
    ensures
        h@ == v@.take(n as int),
{
    let mut h: Vec<i32> = Vec::new();
    for i in 0..n
        invariant
            n <= v@.len(),
            h@ == v@.take(i as int),
    {
        h.push(v[i]);
        assert(h@ =~= v@.take(i + 1));
    }
    h
}

/// `next` followed by the first `n` tokens of `drafts`.
fn batch_of(next: i32, drafts: &Vec<i32>, n: usize) -> (b: Vec<i32>)
    requires
        n <= drafts@.len(),
    ensures
        b@ == seq![next] + drafts@.take(n as int),
{
    let mut b: Vec<i32> = Vec::new();
    b.push(next);
    for i in 0..n
        invariant
            n <= drafts@.len(),
            b@ == seq![next] + drafts@.take(i as int),
    {
        b.push(drafts[i]);
        assert(b@ =~= seq![next] + drafts@.take(i + 1));
    }
    assert(b@ =~= seq![next] + drafts@.take(n as int));
    b
}

/// Tokens to draft per forward, from the configured number if there is one:
/// off by default, never more than `MAX_DRAFT`.
pub fn draft_budget(configured: Option<usize>) -> (n: usize)
    ensures
        n == match configured {
            Some(c) => if c <= MAX_DRAFT { c } else { MAX_DRAFT },
            None => 0,
        },
{
    match configured {
        Some(c) => if c <= MAX_DRAFT { c } else { MAX_DRAFT },
        None => 0,
    }
}

/// Begins a run that speculates with an explicit budget: `budget` tokens are
/// drafted per forward and verified against the main model. A model without a
/// draft head never drafts.
///
/// `max_t` is the number of positions the cache holds, `stop_ids` the tokens
/// that end the run, `recurrent` whether the model carries recurrent state that
/// has to be rolled back over rejected drafts.
pub fn generate_stream_drafting(
    prompt: &Vec<i32>,
    n_new: usize,
    budget: usize,
    has_mtp: bool,
    max_t: usize,
    stop_ids: &Vec<i32>,
    recurrent: bool,
) -> (g: Generation)
    requires
        prompt@.len() > 0,
        prompt@.len() + n_new <= max_t,
    ensures
        g@ == Run::start(
            prompt@,
            n_new as nat,
            if has_mtp { budget as nat } else { 0 },
            max_t as nat,
            stop_ids@,
            recurrent,
        ),
        g@.is_start(),
        g@.valid(),
{
    let g = Generation {
        prompt_len: prompt.len(),
        n_new,
        max_t,
        stop_ids: head(stop_ids, stop_ids.len()),
        recurrent,
        out: head(prompt, prompt.len()),
        next: 0,
        pos: prompt.len(),
        budget: if has_mtp { budget } else { 0 },
        proposed: 0,
        accepted: 0,
        forwards: 0,
        replays: 0,
        phase: Phase::Prefill,
        drafts: Vec::new(),
        truth: Vec::new(),
        k: 0,
        ended: false,
    };
    assert(g@.out =~= prompt@);
    assert(g@.stops =~= stop_ids@);
    assert(g@.drafts =~= Seq::<i32>::empty());
    assert(g@.truth =~= Seq::<i32>::empty());
    g
}

/// Begins a streaming run with the configured budget.
pub fn generate_stream(
    prompt: &Vec<i32>,
    n_new: usize,
    configured: Option<usize>,
    has_mtp: bool,
    max_t: usize,
    stop_ids: &Vec<i32>,
    recurrent: bool,
) -> (g: Generation)
    requires
        prompt@.len() > 0,
        prompt@.len() + n_new <= max_t,
    ensures
        g@ == Run::start(
            prompt@,
            n_new as nat,
            match configured {
                Some(c) if has_mtp => if c <= MAX_DRAFT { c as nat } else { MAX_DRAFT as nat },
                _ => 0,
            },
            max_t as nat,
            stop_ids@,
            recurrent,
        ),
        g@.is_start(),
        g@.valid(),
{
    let budget: usize = if has_mtp { draft_budget(configured) } else { 0 };
    generate_stream_drafting(prompt, n_new, budget, has_mtp, max_t, stop_ids, recurrent)
}

/// The transcript of a generation: the prompt, and behind it every token that was
/// handed over.
pub fn generate_greedy(run: Generation) -> (out: Vec<i32>)
    ensures
        out@ == run@.out,
{
    run.out
}

impl Generation {
    /// Tokens delivered so far.
    fn emitted(&self) -> (n: usize)
        requires
            self@.valid(),
        ensures
            n == self@.emitted(),
    {
        self.out.len() - self.prompt_len
    }

    /// What the caller has to do next.
    pub fn action(&self) -> (a: Action)
        requires
            self@.valid(),
        ensures
            self@.asks(a),
    {
        match self.phase {
            Phase::Prefill => Action::Prefill,
            Phase::Offer => Action::Deliver(self.next),
            Phase::Draft => Action::Draft { next: self.next, pos: self.pos, budget: self.budget },
            Phase::Verify => {
                let g: usize = self.drafts.len();
                assert(self@.drafts.take(g as int) =~= self@.drafts);
                Action::Verify {
                    batch: batch_of(self.next, &self.drafts, g),
                    pos: self.pos,
                    snapshot: self.recurrent && g > 0,
                }
            },
            Phase::Accept => Action::Deliver(self.drafts[self.k]),
            Phase::Settle => {
                let replay: Vec<i32> = if self.must_replay() {
                    batch_of(self.next, &self.drafts, self.k)
                } else {
                    Vec::new()
                };
                assert(!self@.replays_prefix() ==> replay@ =~= Seq::empty());
                Action::Settle {
                    replay,
                    absorb: head(&self.drafts, self.k),
                    pos: self.pos,
                    row: self.k,
                }
            },
            Phase::Done => Action::Stop,
        }
    }

    /// Whether the accepted prefix has to be run once more.
    fn must_replay(&self) -> (b: bool)
        ensures
            b == self@.replays_prefix(),
    {
        self.recurrent && self.k < self.drafts.len() && !self.ended
    }

    /// Moves on to the next token, or ends the run.
    fn go_to_top(&mut self)
        requires
            old(self)@.out.len() >= old(self)@.prompt_len,
        ensures
            final(self)@ == old(self)@.at_top(),
    {
        if self.out.len() - self.prompt_len < self.n_new {
            self.phase = Phase::Offer;
        } else {
            self.phase = Phase::Done;
        }
    }

    /// Looks at the next draft of the batch.
    fn judge(&mut self)
        requires
            old(self)@.out.len() >= old(self)@.prompt_len,
            old(self)@.truth.len() == old(self)@.drafts.len() + 1,
        ensures
            final(self)@ == old(self)@.judged(),
    {
        if self.k < self.drafts.len() && self.out.len() - self.prompt_len < self.n_new
            && self.truth[self.k] == self.drafts[self.k] {
            self.phase = Phase::Accept;
        } else {
            self.phase = Phase::Settle;
        }
    }

    /// Reports that the prompt ran and that the model puts `first` after it.
    pub fn prefilled(&mut self, first: i32)
        requires
            old(self)@.valid(),
            old(self)@.expects(Event::Prefilled(first)),
        ensures
            final(self)@ == old(self)@.step(Event::Prefilled(first)),
            final(self)@.valid(),
    {
        self.next = first;
        self.forwards = self.forwards + 1;
        self.go_to_top();
    }

    /// Reports that the offered token was handed over; `keep` is whether the
    /// consumer wants more.
    pub fn delivered(&mut self, keep: bool)
        requires
            old(self)@.valid(),
            old(self)@.expects(Event::Delivered(keep)),
        ensures
            final(self)@ == old(self)@.step(Event::Delivered(keep)),
            final(self)@.valid(),
    {
        let ghost before = self@;
        if self.phase == Phase::Offer {
            self.out.push(self.next);
            if is_one_of(&self.stop_ids, self.next) || !keep || self.out.len() - self.prompt_len
                >= self.n_new {
                self.phase = Phase::Done;
            } else {
                if self.proposed >= AUTO_OFF_AFTER && self.accepted <= (self.proposed - 1) / 10 {
                    self.budget = 0;
                }
                self.drafts = Vec::new();
                self.phase = if self.budget > 0 { Phase::Draft } else { Phase::Verify };
            }
            assert(self@ =~= before.offered(keep));
        } else {
            let tok: i32 = self.drafts[self.k];
            self.out.push(tok);
            self.k = self.k + 1;
            if is_one_of(&self.stop_ids, tok) || !keep {
                self.ended = true;
                self.phase = Phase::Settle;
            } else {
                self.judge();
            }
            assert(self@ =~= before.taken(keep));
        }
        proof {
            steps_stay_valid(before, Event::Delivered(keep));
        }
    }

    /// Reports what the draft head proposed.
    pub fn drafted(&mut self, proposal: &Vec<i32>)
        requires
            old(self)@.valid(),
            old(self)@.expects(Event::Drafted(proposal@)),
            old(self)@.proposed + proposal@.len() <= u64::MAX,
        ensures
            final(self)@ == old(self)@.step(Event::Drafted(proposal@)),
            final(self)@.valid(),
    {
        let ghost before = self@;
        let owed: usize = self.n_new - self.emitted();
        self.proposed = self.proposed + proposal.len() as u64;
        let mut g: usize = if proposal.len() <= owed { proposal.len() } else { owed };
        let room: usize = self.max_t - (self.pos + 2);
        if room < g {
            g = room;
        }
        self.drafts = head(proposal, g);
        self.phase = Phase::Verify;
        proof {
            assert(self@ =~= before.step(Event::Drafted(proposal@)));
            steps_stay_valid(before, Event::Drafted(proposal@));
        }
    }

    /// Reports the model's token after each position of the batch.
    pub fn verified(&mut self, truth: Vec<i32>)
        requires
            old(self)@.valid(),
            old(self)@.expects(Event::Verified(truth@)),
        ensures
            final(self)@ == old(self)@.step(Event::Verified(truth@)),
            final(self)@.valid(),
    {
        let ghost before = self@;
        let ghost reported = truth@;
        self.truth = truth;
        self.k = 0;
        self.ended = false;
        self.forwards = self.forwards + 1;
        self.judge();
        proof {
            steps_stay_valid(before, Event::Verified(reported));
        }
    }

    /// Reports that the state past the accepted prefix was dealt with.
    pub fn settled(&mut self)
        requires
            old(self)@.valid(),
            old(self)@.expects(Event::Settled),
        ensures
            final(self)@ == old(self)@.step(Event::Settled),
            final(self)@.valid(),
    {
        let ghost before = self@;
        if self.must_replay() {
            self.forwards = self.forwards + 1;
            self.replays = self.replays + 1;
        }
        self.accepted = self.accepted + self.k as u64;
        self.next = self.truth[self.k];
        self.pos = self.pos + 1 + self.k;
        if self.ended {
            self.phase = Phase::Done;
        } else {
            self.go_to_top();
        }
        proof {
            steps_stay_valid(before, Event::Settled);
        }
    }

    /// Whether the run is over.
    pub fn is_done(&self) -> (b: bool)
        ensures
            b == (self@.phase == Phase::Done),
    {
        self.phase == Phase::Done
    }

    /// What the run did so far.
    pub fn stats(&self) -> (s: DecodeStats)
        requires
            self@.valid(),
        ensures
            s.emitted == self@.emitted(),
            s.forwards == if self@.forwards <= u64::MAX {
                self@.forwards
            } else {
                u64::MAX as nat
            },
            s.drafts_proposed == self@.proposed,
            s.drafts_accepted == self@.accepted,
    {
        DecodeStats {
            emitted: self.emitted(),
            forwards: if self.forwards <= u64::MAX as u128 {
                self.forwards as u64
            } else {
                u64::MAX
            },
            drafts_proposed: self.proposed,
            drafts_accepted: self.accepted,
        }
    }
}

/// Nothing is drafted unless it was asked for, nor without a drafting head, and never more
/// than 63 tokens at once. A run begins with its prompt and nothing delivered.
pub proof fn drafting_is_off_unless_asked_for(
    prompt: Vec<i32>,
    n_new: usize,
    configured: Option<usize>,
    has_mtp: bool,
    max_t: usize,
    stop_ids: Vec<i32>,
    recurrent: bool,
    n: usize,
    g: Generation,
    explicit: Generation,
)
    requires
        prompt@.len() > 0,
        prompt@.len() + n_new <= max_t,
        call_ensures(draft_budget, (configured,), n),
        call_ensures(
            generate_stream,
            (&prompt, n_new, configured, has_mtp, max_t, &stop_ids, recurrent),
            g,
        ),
        call_ensures(
            generate_stream_drafting,
            (&prompt, n_new, n, has_mtp, max_t, &stop_ids, recurrent),
            explicit,
        ),
    ensures
        configured is None ==> n == 0,
        configured matches Some(c) ==> n <= c && n <= 63 && (n == c || n == 63),
        !has_mtp ==> g@.budget == 0,
        has_mtp ==> g@.budget == n,
        g@ == explicit@,
        g@.out == prompt@ && g@.prompt_len == prompt@.len() && g@.n_new == n_new,
        g@.max_t == max_t && g@.stops == stop_ids@ && g@.recurrent == recurrent,
        g@.phase == Phase::Prefill,
{
}

/// What is reported of a run is what happened in it: the tokens behind the prompt, the
/// forwards, and what was drafted and accepted. It is done when it asks for nothing more,
/// and its transcript is all of its tokens.
pub proof fn a_report_tells_what_happened(g: Generation, s: DecodeStats, done: bool, out: Vec<i32>)
    requires
        g@.valid(),
        call_ensures(Generation::stats, (&g,), s),
        call_ensures(Generation::is_done, (&g,), done),
        call_ensures(generate_greedy, (g,), out),
    ensures
        s.emitted + g@.prompt_len == g@.out.len(),
        g@.forwards <= u64::MAX ==> s.forwards == g@.forwards,
        s.drafts_proposed == g@.proposed,
        s.drafts_accepted == g@.accepted,
        done <==> g@.phase == Phase::Done,
        out@ == g@.out,
{
}

/// State is saved before a forward exactly if the model carries state and there are drafts
/// that may spoil it; what is asked for is what the run's phase says.
pub proof fn state_is_saved_where_drafts_may_spoil_it(g: Generation, a: Action)
    requires
        g@.valid(),
        call_ensures(Generation::action, (&g,), a),
    ensures
        a matches Action::Verify { batch, pos, snapshot } ==> {
            &&& snapshot <==> g@.recurrent && batch@.len() >= 2
            &&& batch@[0] == g@.next
            &&& batch@.len() == g@.drafts.len() + 1
            &&& pos == g@.pos
        },
        a is Verify <==> g@.phase == Phase::Verify,
        a is Draft <==> g@.phase == Phase::Draft,
        a is Settle <==> g@.phase == Phase::Settle,
        a == Action::Stop <==> g@.phase == Phase::Done,
{
}

} // verus!
