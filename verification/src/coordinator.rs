//! The coordinator: it turns a completion event of a worker into a question to the
//! gating engine, and the answer into what happens to the message of the event.

use crate::prover_node::descriptor::{CommitOutcome, FoldStrategy, WorkDescriptor};
use crate::text::{dec, number_of, parse_u64, push_dec, same_text};
use vstd::prelude::*;
use vstd::string::*;

verus! {

/// The subscription that events come from, unless one is named.
pub const DEFAULT_EVENTS_SUBSCRIPTION: &'static str = "prover-events-sub";

/// The topic that work is published to, unless one is named.
pub const DEFAULT_WORK_TOPIC: &'static str = "stark-proofs-topic";

/// The store of the gating engine, unless one is named.
pub const DEFAULT_REDIS_URL: &'static str = "redis://127.0.0.1:6379";

/// Seconds that the entries of that store live, unless a number is given: a day.
pub const DEFAULT_TTL_SECS: u64 = 86_400;

/// Seconds to wait after a failed pull.
pub const PULL_RETRY_SECS: u64 = 5;

/// Where the coordinator listens and publishes, and where it keeps its state.
#[derive(Debug, Clone)]
pub struct CoordinatorConfig {
    pub project: Option<String>,
    pub events_subscription: String,
    pub work_topic: String,
    pub redis_url: String,
    pub ttl_secs: u64,
}

/// A value, or what stands for it where there is none.
pub open spec fn or_default(v: Option<String>, default: Seq<char>) -> Seq<char> {
    match v {
        Some(s) => s@,
        None => default,
    }
}

fn value_or(v: Option<String>, default: &str) -> (r: String)
    ensures
        r@ == or_default(v, default@),
{
    match v {
        Some(s) => s,
        None => default.to_owned(),
    }
}

impl CoordinatorConfig {
    /// The configuration that the environment asks for. A time to live that is not
    /// a number counts as none.
    pub fn resolve(
        project: Option<String>,
        events_subscription: Option<String>,
        work_topic: Option<String>,
        redis_url: Option<String>,
        ttl_secs: Option<String>,
    ) -> (r: Self)
        ensures
            r.project == project,
            r.events_subscription@ == or_default(events_subscription, DEFAULT_EVENTS_SUBSCRIPTION@),
            r.work_topic@ == or_default(work_topic, DEFAULT_WORK_TOPIC@),
            r.redis_url@ == or_default(redis_url, DEFAULT_REDIS_URL@),
            r.ttl_secs == match ttl_secs {
                Some(s) => match number_of(s@) {
                    Some(n) => n,
                    None => DEFAULT_TTL_SECS,
                },
                None => DEFAULT_TTL_SECS,
            },
    {
        let ttl: u64 = match ttl_secs {
            Some(s) => match parse_u64(s.as_str()) {
                Some(n) => n,
                None => DEFAULT_TTL_SECS,
            },
            None => DEFAULT_TTL_SECS,
        };
        CoordinatorConfig {
            project,
            events_subscription: value_or(events_subscription, DEFAULT_EVENTS_SUBSCRIPTION),
            work_topic: value_or(work_topic, DEFAULT_WORK_TOPIC),
            redis_url: value_or(redis_url, DEFAULT_REDIS_URL),
            ttl_secs: ttl,
        }
    }
}

/// What a worker says of a finished task, as far as the coordinator decides on it.
#[derive(Debug, Clone)]
pub struct ProverEvent {
    pub descriptor: WorkDescriptor,
    pub status: String,
    pub redriven_after_lease_expiry: bool,
}

/// What is asked of the gating engine.
#[derive(Debug, Clone, Copy, PartialEq, Eq, Structural)]
pub enum GateCall {
    /// An interval of a reduction is there.
    Interval {
        lo: usize,
        hi: usize,
        level: usize,
        radix: usize,
        leaf_count: usize,
        tx_per_proof: usize,
        outcome: CommitOutcome,
    },
    /// A child of a tree node is there.
    Child { descriptor: WorkDescriptor, outcome: CommitOutcome },
}

/// What the gating engine answers.
#[derive(Debug, Clone, Copy, PartialEq, Eq, Structural)]
pub enum GatingOutcome {
    /// Another worker's output counts.
    NotWinner,
    /// The output counts, and the parent waits for more.
    Recorded { have: usize, needed: usize },
    /// The parent's work was published.
    PublishedParent(WorkDescriptor),
    /// The parent's work had been published before.
    ParentAlreadyPublished,
    /// There is no parent.
    RootReached,
}

/// The status of a task that succeeded.
pub open spec fn success() -> Seq<char> {
    "success"@
}

/// Whether the status says that the task succeeded.
fn is_success(status: &str) -> (r: bool)
    ensures
        r == (status@ == success()),
{
    same_text(status, "success")
}

/// What a status says about the output: only a success created it.
pub fn commit_outcome(status: &str) -> (r: CommitOutcome)
    ensures
        r == if status@ == success() {
            CommitOutcome::Committed
        } else {
            CommitOutcome::AlreadyExists
        },
{
    if is_success(status) {
        CommitOutcome::Committed
    } else {
        CommitOutcome::AlreadyExists
    }
}

/// What is asked of the engine about `d`: by interval in a reduction, by child in a
/// tree.
pub open spec fn call_for(d: WorkDescriptor, outcome: CommitOutcome) -> GateCall {
    match d.fold_strategy {
        FoldStrategy::Reduction => GateCall::Interval {
            lo: d.lo,
            hi: d.hi,
            level: d.level,
            radix: d.radix,
            leaf_count: d.leaf_count,
            tx_per_proof: d.tx_per_proof,
            outcome,
        },
        FoldStrategy::Hex => GateCall::Child { descriptor: d, outcome },
    }
}

/// What is asked of the engine about `d`.
pub fn gate_call(d: WorkDescriptor, outcome: CommitOutcome) -> (r: GateCall)
    ensures
        r == call_for(d, outcome),
{
    match d.fold_strategy {
        FoldStrategy::Reduction => GateCall::Interval {
            lo: d.lo,
            hi: d.hi,
            level: d.level,
            radix: d.radix,
            leaf_count: d.leaf_count,
            tx_per_proof: d.tx_per_proof,
            outcome,
        },
        FoldStrategy::Hex => GateCall::Child { descriptor: d, outcome },
    }
}

/// The key that marks a finished reduction of `leaf_count` leaves.
pub open spec fn completion_key_text(leaf_count: nat) -> Seq<char> {
    "rgate/complete/"@ + dec(leaf_count)
}

/// The key that marks a finished reduction of `leaf_count` leaves.
pub fn completion_key(leaf_count: usize) -> (r: String)
    ensures
        r@ == completion_key_text(leaf_count as nat),
{
    let mut r: String = "rgate/complete/".to_owned();
    push_dec(&mut r, leaf_count as u64);
    r
}

/// What the coordinator has in hand.
#[derive(Debug, Clone, Copy, PartialEq, Eq, Structural)]
pub enum CoordinatorPhase {
    /// Nothing.
    Pulling,
    /// A message whose task the engine is asked about.
    Gating(WorkDescriptor),
    /// A message that is about to be acknowledged, once the run is marked.
    Marking,
}

/// What happened.
#[derive(Debug, Clone)]
pub enum CoordinatorEvent {
    /// No message could be pulled.
    PullFailed,
    /// A message came that holds no event.
    Undecodable,
    /// A message came with an event.
    Pulled(ProverEvent),
    /// The engine answered.
    Gated(GatingOutcome),
    /// The engine failed.
    GateFailed,
    /// The run was marked, or could not be.
    Marked,
}

/// What to do next.
#[derive(Debug, Clone)]
pub enum CoordinatorStep {
    /// Wait, and pull again.
    Wait(u64),
    /// Acknowledge the message, and pull again.
    Acknowledge,
    /// Hand the message back, and pull again.
    GiveBack,
    /// Ask the engine.
    Ask(GateCall),
    /// Write the completion marker.
    Mark(String),
    /// The event fits nothing in hand: there is nothing to do.
    Ignore,
}

/// The coordinator between two events, and how many tasks had to be driven again.
#[derive(Debug, Clone)]
pub struct CoordinatorLoop {
    pub phase: CoordinatorPhase,
    pub redriven: u64,
}

/// How many tasks had to be driven again, after `event`.
pub open spec fn redriven_after(redriven: u64, event: CoordinatorEvent) -> u64 {
    match event {
        CoordinatorEvent::Pulled(e) => if e.redriven_after_lease_expiry && redriven < u64::MAX {
            (redriven + 1) as u64
        } else {
            redriven
        },
        _ => redriven,
    }
}

/// Whether `step` and `after` are what follows `event` in the phase `before`.
pub open spec fn follows(
    before: CoordinatorPhase,
    event: CoordinatorEvent,
    after: CoordinatorPhase,
    step: CoordinatorStep,
) -> bool {
    match (before, event) {
        (CoordinatorPhase::Pulling, CoordinatorEvent::PullFailed) => {
            &&& step == CoordinatorStep::Wait(PULL_RETRY_SECS)
            &&& after == CoordinatorPhase::Pulling
        },
        (CoordinatorPhase::Pulling, CoordinatorEvent::Undecodable) => {
            &&& step == CoordinatorStep::Acknowledge
            &&& after == CoordinatorPhase::Pulling
        },
        (CoordinatorPhase::Pulling, CoordinatorEvent::Pulled(e)) => if e.status@ == success() {
            &&& step == CoordinatorStep::Ask(call_for(e.descriptor, CommitOutcome::Committed))
            &&& after == CoordinatorPhase::Gating(e.descriptor)
        } else {
            &&& step == CoordinatorStep::Acknowledge
            &&& after == CoordinatorPhase::Pulling
        },
        (CoordinatorPhase::Gating(d), CoordinatorEvent::Gated(outcome)) => if outcome
            == GatingOutcome::RootReached && d.fold_strategy == FoldStrategy::Reduction {
            &&& step matches CoordinatorStep::Mark(key)
            &&& key@ == completion_key_text(d.leaf_count as nat)
            &&& after == CoordinatorPhase::Marking
        } else {
            &&& step == CoordinatorStep::Acknowledge
            &&& after == CoordinatorPhase::Pulling
        },
        (CoordinatorPhase::Gating(_), CoordinatorEvent::GateFailed) => {
            &&& step == CoordinatorStep::GiveBack
            &&& after == CoordinatorPhase::Pulling
        },
        (CoordinatorPhase::Marking, CoordinatorEvent::Marked) => {
            &&& step == CoordinatorStep::Acknowledge
            &&& after == CoordinatorPhase::Pulling
        },
        _ => {
            &&& step == CoordinatorStep::Ignore
            &&& after == before
        },
    }
}

impl CoordinatorLoop {
    /// A coordinator with nothing in hand.
    pub fn new() -> (r: Self)
        ensures
            r.phase == CoordinatorPhase::Pulling,
            r.redriven == 0,
    {
        CoordinatorLoop { phase: CoordinatorPhase::Pulling, redriven: 0 }
    }

    /// What to do after `event`. A message is acknowledged once the engine has dealt
    /// with it, or where it can never be dealt with; it is handed back where the
    /// gate failed.
    pub fn advance(&mut self, event: CoordinatorEvent) -> (r: CoordinatorStep)
        ensures
            follows(old(self).phase, event, final(self).phase, r),
            final(self).redriven == if old(self).phase == CoordinatorPhase::Pulling {
                redriven_after(old(self).redriven, event)
            } else {
                old(self).redriven
            },
    {
        match self.phase {
            CoordinatorPhase::Pulling => match event {
                CoordinatorEvent::PullFailed => CoordinatorStep::Wait(PULL_RETRY_SECS),
                CoordinatorEvent::Undecodable => CoordinatorStep::Acknowledge,
                CoordinatorEvent::Pulled(e) => {
                    if e.redriven_after_lease_expiry && self.redriven < u64::MAX {
                        self.redriven = self.redriven + 1;
                    }
                    if is_success(e.status.as_str()) {
                        self.phase = CoordinatorPhase::Gating(e.descriptor);
                        CoordinatorStep::Ask(
                            gate_call(e.descriptor, commit_outcome(e.status.as_str())),
                        )
                    } else {
                        CoordinatorStep::Acknowledge
                    }
                },
                _ => CoordinatorStep::Ignore,
            },
            CoordinatorPhase::Gating(d) => match event {
                CoordinatorEvent::Gated(outcome) => {
                    if outcome == GatingOutcome::RootReached && d.fold_strategy
                        == FoldStrategy::Reduction {
                        self.phase = CoordinatorPhase::Marking;
                        CoordinatorStep::Mark(completion_key(d.leaf_count))
                    } else {
                        self.phase = CoordinatorPhase::Pulling;
                        CoordinatorStep::Acknowledge
                    }
                },
                CoordinatorEvent::GateFailed => {
                    self.phase = CoordinatorPhase::Pulling;
                    CoordinatorStep::GiveBack
                },
                _ => CoordinatorStep::Ignore,
            },
            CoordinatorPhase::Marking => match event {
                CoordinatorEvent::Marked => {
                    self.phase = CoordinatorPhase::Pulling;
                    CoordinatorStep::Acknowledge
                },
                _ => CoordinatorStep::Ignore,
            },
        }
    }
}

/// The engine hears of successes only.
pub proof fn only_successes_reach_the_engine(
    before: CoordinatorPhase,
    event: CoordinatorEvent,
    after: CoordinatorPhase,
    step: CoordinatorStep,
)
    requires
        follows(before, event, after, step),
        step is Ask,
    ensures
        event matches CoordinatorEvent::Pulled(e) && e.status@ == success(),
{
}

/// A message that the engine failed on is handed back, and no other is.
pub proof fn messages_are_given_back_for_gate_failures(
    before: CoordinatorPhase,
    event: CoordinatorEvent,
    after: CoordinatorPhase,
    step: CoordinatorStep,
)
    requires
        follows(before, event, after, step),
    ensures
        step is GiveBack <==> before is Gating && event is GateFailed,
{
}

/// Only a finished reduction is marked, and its message is acknowledged whether or
/// not the marker could be written.
pub proof fn marked_runs_are_acknowledged(
    before: CoordinatorPhase,
    event: CoordinatorEvent,
    middle: CoordinatorPhase,
    mark: CoordinatorStep,
    after: CoordinatorPhase,
    step: CoordinatorStep,
)
    requires
        follows(before, event, middle, mark),
        mark is Mark,
        follows(middle, CoordinatorEvent::Marked, after, step),
    ensures
        event == CoordinatorEvent::Gated(GatingOutcome::RootReached),
        step is Acknowledge,
        after is Pulling,
{
}

/// A question about a task names that task: the interval of a reduction with its
/// bounds, level and geometry, and the descriptor itself in a tree.
pub proof fn questions_name_their_task(d: WorkDescriptor, outcome: CommitOutcome)
    ensures
        d.fold_strategy == FoldStrategy::Hex ==> (call_for(d, outcome) matches GateCall::Child {
            descriptor,
            outcome: o,
        } && descriptor == d && o == outcome),
        d.fold_strategy == FoldStrategy::Reduction ==> (call_for(d, outcome) matches GateCall::Interval {
            lo,
            hi,
            level,
            radix,
            leaf_count,
            tx_per_proof,
            outcome: o,
        } && lo == d.lo && hi == d.hi && level == d.level && radix == d.radix && leaf_count
            == d.leaf_count && tx_per_proof == d.tx_per_proof && o == outcome),
{
}

/// A message is held from the moment it comes until it is settled: the coordinator
/// pulls again only after it has acknowledged the message or handed it back, and what
/// is asked while it is held is about its task.
pub proof fn messages_are_settled_before_the_next(
    before: CoordinatorPhase,
    event: CoordinatorEvent,
    after: CoordinatorPhase,
    step: CoordinatorStep,
)
    requires
        follows(before, event, after, step),
    ensures
        before != after && after == CoordinatorPhase::Pulling ==> step is Acknowledge || step is GiveBack,
        before == CoordinatorPhase::Pulling ==> (event matches CoordinatorEvent::Pulled(e) ==> if e.status@
            == "success"@ {
            after == CoordinatorPhase::Gating(e.descriptor) && step == CoordinatorStep::Ask(
                call_for(e.descriptor, CommitOutcome::Committed),
            )
        } else {
            after == CoordinatorPhase::Pulling && step is Acknowledge
        }),
        before == CoordinatorPhase::Pulling && event is Undecodable ==> step is Acknowledge,
        before == CoordinatorPhase::Pulling && event is PullFailed ==> step is Wait && after == before,
        step is Mark ==> (before matches CoordinatorPhase::Gating(d) && d.fold_strategy
            == FoldStrategy::Reduction),
        event == CoordinatorEvent::Gated(GatingOutcome::RootReached) ==> (
        before matches CoordinatorPhase::Gating(d) ==> (d.fold_strategy == FoldStrategy::Reduction
            ==> step is Mark)),
{
}

} // verus!
