//! The dispatch loop of a worker: pull one descriptor, do its work, commit the
//! output, acknowledge, and go on until the root exists or the worker is asked to
//! stop. The loop decides; its caller performs each step and reports back.

use crate::prover_node::descriptor::{CommitOutcome, WorkDescriptor, WorkRole};
use crate::prover_node::geometry::{is_depth, tree_depth};
use crate::prover_node::locations::{tree_file, tree_file_name};
use crate::prover_node::tree::{fold_kind, reduction_fold_kind, FoldKind};
use crate::text::{dec, push_dec};
use vstd::prelude::*;
use vstd::string::*;

verus! {

/// Where the pre-state of a leaf came from.
#[derive(Clone, Copy, Debug, PartialEq, Eq, Structural)]
pub enum PreStateSource {
    /// Read from the pre-state corpus.
    Corpus,
    /// Recomputed by replaying the chunks before it.
    Replay,
}

/// The pre-state provenance that the telemetry reports.
#[derive(Clone, Copy, Debug, PartialEq, Eq, Structural)]
pub enum Provenance {
    Corpus,
    ReplayFallback,
    NotApplicable,
}

/// The proving work of a descriptor.
#[derive(Clone, Copy, Debug, PartialEq, Eq, Structural)]
pub enum Task {
    ProveLeaf { chunk_idx: usize, tx_per_proof: usize },
    FoldNode {
        level: usize,
        node_idx: usize,
        radix: usize,
        leaf_count: usize,
        tx_per_proof: usize,
    },
    FoldPair { level: usize, lo: usize, hi: usize, leaf_count: usize },
}

/// What the telemetry says of a finished task.
#[derive(Clone, Copy, Debug, PartialEq, Eq, Structural)]
pub struct TaskReport {
    pub provenance: Provenance,
    pub fold_kind: FoldKind,
    /// Leaves that a reduction fold's output covers, 0 for other work.
    pub merge_interval_span: usize,
}

/// The next step of the loop.
#[derive(Clone, Copy, Debug, PartialEq, Eq, Structural)]
pub enum Phase {
    /// Ask whether a shutdown was requested.
    CheckShutdown,
    /// Ask whether the root output exists, before pulling.
    QueryRoot,
    /// Pull what may be left although the root exists, and hold its lease.
    Probe,
    /// Pull one descriptor and hold its lease.
    Pull,
    /// Extend the lease of the descriptor that was pulled.
    Extend(WorkDescriptor),
    /// Ask whether the root exists, since nothing came.
    QueryStalled,
    /// Acknowledge a descriptor that asks for no work here.
    Discard(WorkDescriptor),
    /// Do the work.
    Work(WorkDescriptor),
    /// Commit the output.
    Commit(WorkDescriptor, TaskReport),
    /// Acknowledge the descriptor.
    Ack(WorkDescriptor),
    /// Ask whether the root exists, after the loop.
    FinalQuery,
    /// Done: read the root output and verify it.
    Harvest,
    /// Done: leave the rest of the work on the queue.
    Drained,
    /// Done: nothing can be pulled although the root is missing.
    Stalled,
}

/// What the caller reports of a step.
#[derive(Clone, Copy, Debug, PartialEq, Eq, Structural)]
pub enum Event {
    Shutdown(bool),
    RootExists(bool),
    Pulled(Option<WorkDescriptor>),
    Extended,
    /// The work is done; a leaf names the source of its pre-state.
    Proved(Option<PreStateSource>),
    Committed(CommitOutcome),
    Acked,
}

/// Whether `event` answers the step `phase`.
pub open spec fn accepts(phase: Phase, event: Event) -> bool {
    match phase {
        Phase::CheckShutdown => event is Shutdown,
        Phase::QueryRoot | Phase::QueryStalled | Phase::FinalQuery => event is RootExists,
        Phase::Probe | Phase::Pull => event is Pulled,
        Phase::Extend(_) => event is Extended,
        Phase::Discard(_) | Phase::Ack(_) => event is Acked,
        Phase::Work(d) => match event {
            Event::Proved(source) => source is Some == (d.role == WorkRole::Leaf),
            _ => false,
        },
        Phase::Commit(_, _) => event is Committed,
        Phase::Harvest | Phase::Drained | Phase::Stalled => false,
    }
}

/// Whether a descriptor makes sense: a reduction fold covers an interval.
pub open spec fn sound(d: WorkDescriptor) -> bool {
    d.role == WorkRole::ReductionFold ==> d.lo <= d.hi && d.hi - d.lo + 1 <= usize::MAX
}

/// What the telemetry says of a task whose leaf pre-state came from `source`.
pub open spec fn report_of(d: WorkDescriptor, source: Option<PreStateSource>) -> TaskReport {
    match d.role {
        WorkRole::Leaf => TaskReport {
            provenance: if source == Some(PreStateSource::Corpus) {
                Provenance::Corpus
            } else {
                Provenance::ReplayFallback
            },
            fold_kind: FoldKind::NotApplicable,
            merge_interval_span: 0,
        },
        WorkRole::ReductionFold => TaskReport {
            provenance: Provenance::NotApplicable,
            fold_kind: fold_kind(d.lo as int, d.hi as int, d.leaf_count as int),
            merge_interval_span: (d.hi - d.lo + 1) as usize,
        },
        _ => TaskReport {
            provenance: Provenance::NotApplicable,
            fold_kind: FoldKind::NotApplicable,
            merge_interval_span: 0,
        },
    }
}

/// The step that follows `phase` once `event` was reported.
pub open spec fn next_phase(phase: Phase, event: Event) -> Phase {
    match (phase, event) {
        (Phase::CheckShutdown, Event::Shutdown(stop)) => if stop {
            Phase::FinalQuery
        } else {
            Phase::QueryRoot
        },
        (Phase::QueryRoot, Event::RootExists(yes)) => if yes {
            Phase::Probe
        } else {
            Phase::Pull
        },
        (Phase::Probe, Event::Pulled(got)) => match got {
            Some(d) => Phase::Extend(d),
            None => Phase::FinalQuery,
        },
        (Phase::Pull, Event::Pulled(got)) => match got {
            Some(d) => Phase::Extend(d),
            None => Phase::QueryStalled,
        },
        (Phase::Extend(d), Event::Extended) => if d.role == WorkRole::RootCoordinator {
            Phase::Discard(d)
        } else {
            Phase::Work(d)
        },
        (Phase::QueryStalled, Event::RootExists(yes)) => if yes {
            Phase::FinalQuery
        } else {
            Phase::Stalled
        },
        (Phase::Discard(_), Event::Acked) => Phase::CheckShutdown,
        (Phase::Work(d), Event::Proved(source)) => Phase::Commit(d, report_of(d, source)),
        (Phase::Commit(d, _), Event::Committed(_)) => Phase::Ack(d),
        (Phase::Ack(_), Event::Acked) => Phase::CheckShutdown,
        (Phase::FinalQuery, Event::RootExists(yes)) => if yes {
            Phase::Harvest
        } else {
            Phase::Drained
        },
        _ => phase,
    }
}

/// The proving work that `d` asks for.
pub fn task_of(d: &WorkDescriptor) -> (r: Option<Task>)
    ensures
        r == match d.role {
            WorkRole::Leaf => Some(
                Task::ProveLeaf { chunk_idx: d.chunk_idx, tx_per_proof: d.tx_per_proof },
            ),
            WorkRole::TreeNode => Some(
                Task::FoldNode {
                    level: d.level,
                    node_idx: d.node_idx,
                    radix: d.radix,
                    leaf_count: d.leaf_count,
                    tx_per_proof: d.tx_per_proof,
                },
            ),
            WorkRole::ReductionFold => Some(
                Task::FoldPair { level: d.level, lo: d.lo, hi: d.hi, leaf_count: d.leaf_count },
            ),
            WorkRole::RootCoordinator => None,
        },
{
    match d.role {
        WorkRole::Leaf => Some(
            Task::ProveLeaf { chunk_idx: d.chunk_idx, tx_per_proof: d.tx_per_proof },
        ),
        WorkRole::TreeNode => Some(
            Task::FoldNode {
                level: d.level,
                node_idx: d.node_idx,
                radix: d.radix,
                leaf_count: d.leaf_count,
                tx_per_proof: d.tx_per_proof,
            },
        ),
        WorkRole::ReductionFold => Some(
            Task::FoldPair { level: d.level, lo: d.lo, hi: d.hi, leaf_count: d.leaf_count },
        ),
        WorkRole::RootCoordinator => None,
    }
}

fn report_task(d: &WorkDescriptor, source: Option<PreStateSource>) -> (r: TaskReport)
    requires
        sound(*d),
    ensures
        r == report_of(*d, source),
{
    match d.role {
        WorkRole::Leaf => {
            let provenance: Provenance = match source {
                Some(PreStateSource::Corpus) => Provenance::Corpus,
                _ => Provenance::ReplayFallback,
            };
            TaskReport { provenance, fold_kind: FoldKind::NotApplicable, merge_interval_span: 0 }
        },
        WorkRole::ReductionFold => {
            let kind_and_span: (FoldKind, usize) = reduction_fold_kind(d.lo, d.hi, d.leaf_count);
            TaskReport {
                provenance: Provenance::NotApplicable,
                fold_kind: kind_and_span.0,
                merge_interval_span: kind_and_span.1,
            }
        },
        _ => TaskReport {
            provenance: Provenance::NotApplicable,
            fold_kind: FoldKind::NotApplicable,
            merge_interval_span: 0,
        },
    }
}

/// A running dispatch loop.
#[derive(Debug)]
pub struct DispatchLoop {
    pub radix: usize,
    pub leaf_count: usize,
    /// The level of the root.
    pub depth: usize,
    pub phase: Phase,
    /// Descriptors committed and acknowledged so far.
    pub processed: usize,
}

impl DispatchLoop {
    /// Whether the loop can be asked on: descriptors in hand make sense, and the
    /// counter has room.
    pub open spec fn wf(&self) -> bool {
        &&& self.depth >= 1
        &&& self.phase matches Phase::Extend(d) ==> sound(d)
        &&& self.phase matches Phase::Work(d) ==> sound(d) && d.role != WorkRole::RootCoordinator
    }

    /// A loop that works on the tree over `leaf_count` leaves.
    pub fn new(radix: usize, leaf_count: usize) -> (r: Self)
        requires
            radix >= 2,
        ensures
            r.wf(),
            r.radix == radix,
            r.leaf_count == leaf_count,
            r.phase == Phase::CheckShutdown,
            r.processed == 0,
            exists|depth: nat|
                is_depth(leaf_count as int, radix as int, depth) && r.depth == if depth < 1 {
                    1
                } else {
                    depth
                },
    {
        let depth: usize = tree_depth(leaf_count, radix);
        assert(is_depth(leaf_count as int, radix as int, depth as nat));
        let root_level: usize = if depth < 1 {
            1
        } else {
            depth
        };
        DispatchLoop {
            radix,
            leaf_count,
            depth: root_level,
            phase: Phase::CheckShutdown,
            processed: 0,
        }
    }

    /// The key of the root output.
    pub fn root_key(&self) -> (r: String)
        ensures
            r@ == tree_file(self.depth as nat, 0),
    {
        tree_file_name(self.depth, 0)
    }

    /// Takes the report of the present step and moves on to the next.
    pub fn advance(&mut self, event: Event)
        requires
            old(self).wf(),
            accepts(old(self).phase, event),
            event matches Event::Pulled(Some(d)) ==> sound(d),
            old(self).phase is Ack ==> old(self).processed < usize::MAX,
        ensures
            final(self).wf(),
            final(self).phase == next_phase(old(self).phase, event),
            final(self).processed == old(self).processed + if old(self).phase is Ack {
                1int
            } else {
                0int
            },
            final(self).radix == old(self).radix,
            final(self).leaf_count == old(self).leaf_count,
            final(self).depth == old(self).depth,
    {
        let next: Phase = match (self.phase, event) {
            (Phase::CheckShutdown, Event::Shutdown(stop)) => {
                if stop {
                    Phase::FinalQuery
                } else {
                    Phase::QueryRoot
                }
            },
            (Phase::QueryRoot, Event::RootExists(yes)) => {
                if yes {
                    Phase::Probe
                } else {
                    Phase::Pull
                }
            },
            (Phase::Probe, Event::Pulled(got)) => match got {
                Some(d) => Phase::Extend(d),
                None => Phase::FinalQuery,
            },
            (Phase::Pull, Event::Pulled(got)) => match got {
                Some(d) => Phase::Extend(d),
                None => Phase::QueryStalled,
            },
            (Phase::Extend(d), Event::Extended) => {
                if d.role == WorkRole::RootCoordinator {
                    Phase::Discard(d)
                } else {
                    Phase::Work(d)
                }
            },
            (Phase::QueryStalled, Event::RootExists(yes)) => {
                if yes {
                    Phase::FinalQuery
                } else {
                    Phase::Stalled
                }
            },
            (Phase::Discard(_), Event::Acked) => Phase::CheckShutdown,
            (Phase::Work(d), Event::Proved(source)) => Phase::Commit(d, report_task(&d, source)),
            (Phase::Commit(d, _), Event::Committed(_)) => Phase::Ack(d),
            (Phase::Ack(_), Event::Acked) => {
                self.processed = self.processed + 1;
                Phase::CheckShutdown
            },
            (Phase::FinalQuery, Event::RootExists(yes)) => {
                if yes {
                    Phase::Harvest
                } else {
                    Phase::Drained
                }
            },
            (phase, _) => phase,
        };
        self.phase = next;
    }

    /// Why a stalled loop gave up.
    pub fn stall_message(&self) -> (r: String)
        ensures
            r@ == "dispatch loop stalled: no work pullable but root "@ + tree_file(
                self.depth as nat,
                0,
            ) + " not committed (processed "@ + dec(self.processed as nat) + " descriptors)"@,
    {
        let mut r = String::from_str("dispatch loop stalled: no work pullable but root ");
        let key: String = self.root_key();
        r.append(key.as_str());
        r.append(" not committed (processed ");
        push_dec(&mut r, self.processed as u64);
        r.append(" descriptors)");
        r
    }
}

/// The step that a loop is at after the reports `events`.
pub open spec fn run(phase: Phase, events: Seq<Event>) -> Phase
    decreases events.len(),
{
    if events.len() == 0 {
        phase
    } else {
        next_phase(run(phase, events.drop_last()), events.last())
    }
}

/// Whether each report answers the step that the loop is at.
pub open spec fn answered(phase: Phase, events: Seq<Event>) -> bool {
    forall|i: int|
        0 <= i < events.len() ==> accepts(run(phase, events.take(i)), #[trigger] events[i])
}

/// A descriptor is acknowledged as done only right after its output was
/// committed.
pub proof fn ack_follows_commit(phase: Phase, event: Event, d: WorkDescriptor)
    requires
        accepts(phase, event),
        next_phase(phase, event) == Phase::Ack(d),
    ensures
        event is Committed,
        phase is Commit,
        phase->Commit_0 == d,
{
}

/// Whether the loop pulls in this step.
pub open spec fn pulls(phase: Phase) -> bool {
    phase == Phase::Probe || phase == Phase::Pull
}

/// A round of the loop, from one question about a shutdown to the next, pulls at
/// most once: it pulls only after it has asked for the root, and it asks that only
/// after the question about a shutdown.
pub proof fn a_round_pulls_at_most_once(phase: Phase, event: Event)
    requires
        accepts(phase, event),
    ensures
        pulls(next_phase(phase, event)) ==> phase == Phase::QueryRoot,
        next_phase(phase, event) == Phase::QueryRoot ==> phase == Phase::CheckShutdown,
{
}

/// What was pulled is held: its lease is extended, and then it is worked on, or
/// acknowledged where it asks for no work here.
pub proof fn what_is_pulled_is_held(phase: Phase, d: WorkDescriptor)
    requires
        pulls(phase),
    ensures
        ({
            let held = next_phase(phase, Event::Pulled(Some(d)));
            &&& held == Phase::Extend(d)
            &&& next_phase(held, Event::Extended) == if d.role == WorkRole::RootCoordinator {
                Phase::Discard(d)
            } else {
                Phase::Work(d)
            }
        }),
{
}

/// Work that was begun is committed and acknowledged before anything else is
/// pulled, whether or not the output existed already.
pub proof fn begun_work_is_finished(d: WorkDescriptor, events: Seq<Event>)
    requires
        events.len() == 3,
        answered(Phase::Work(d), events),
    ensures
        events[0] is Proved,
        events[1] is Committed,
        events[2] is Acked,
        run(Phase::Work(d), events) == Phase::CheckShutdown,
{
    let start = Phase::Work(d);
    let (e0, e1, e2) = (events[0], events[1], events[2]);
    assert(events.take(0) =~= Seq::<Event>::empty());
    assert(run(start, events.take(0)) == start);
    assert(events.take(1).drop_last() =~= events.take(0));
    assert(events.take(1).last() == e0);
    assert(events.take(2).drop_last() =~= events.take(1));
    assert(events.take(2).last() == e1);
    assert(events.drop_last() =~= events.take(2));
    assert(accepts(run(start, events.take(0)), events[0]));
    assert(accepts(run(start, events.take(1)), events[1]));
    assert(accepts(run(start, events.take(2)), events[2]));
}

/// Whether the loop has left for good and only looks for the root.
pub open spec fn leaving(phase: Phase) -> bool {
    phase == Phase::FinalQuery || phase == Phase::Harvest || phase == Phase::Drained
}

/// Once a shutdown was requested, nothing is pulled any more: whatever is
/// reported, the loop only looks for the root and ends.
pub proof fn nothing_is_pulled_after_shutdown(events: Seq<Event>)
    requires
        events.len() >= 1,
        events[0] == Event::Shutdown(true),
        answered(Phase::CheckShutdown, events),
    ensures
        leaving(run(Phase::CheckShutdown, events)),
    decreases events.len(),
{
    let before = events.drop_last();
    if events.len() > 1 {
        assert(answered(Phase::CheckShutdown, before)) by {
            assert forall|i: int| 0 <= i < before.len() implies accepts(
                run(Phase::CheckShutdown, before.take(i)),
                #[trigger] before[i],
            ) by {
                assert(before.take(i) =~= events.take(i));
                assert(before[i] == events[i]);
            }
        }
        nothing_is_pulled_after_shutdown(before);
        assert(events.take(events.len() - 1) =~= before);
        assert(accepts(run(Phase::CheckShutdown, before), events[events.len() - 1]));
    } else {
        assert(before =~= Seq::<Event>::empty());
        assert(run(Phase::CheckShutdown, before) == Phase::CheckShutdown);
    }
}

/// A root is harvested only when it was reported to exist, and a loop that left
/// without one reports that none was there.
pub proof fn no_root_is_made_up(phase: Phase, event: Event)
    requires
        accepts(phase, event),
    ensures
        next_phase(phase, event) == Phase::Harvest <==> phase == Phase::FinalQuery && event
            == Event::RootExists(true),
        next_phase(phase, event) == Phase::Drained <==> phase == Phase::FinalQuery && event
            == Event::RootExists(false),
{
}

/// The telemetry tells what was done: a leaf says where its pre-state came from, a
/// reduction how many leaves it spans and whether it folded any in, and neither says
/// what only the other can.
pub proof fn telemetry_tells_what_was_done(d: WorkDescriptor, source: PreStateSource)
    requires
        sound(d),
    ensures
        d.role == WorkRole::Leaf ==> {
            let r = report_of(d, Some(source));
            &&& r.provenance == Provenance::Corpus <==> source == PreStateSource::Corpus
            &&& r.provenance == Provenance::ReplayFallback <==> source == PreStateSource::Replay
            &&& r.fold_kind == FoldKind::NotApplicable
            &&& r.merge_interval_span == 0
        },
        d.role == WorkRole::ReductionFold ==> {
            let r = report_of(d, None);
            &&& r.provenance == Provenance::NotApplicable
            &&& r.merge_interval_span == d.hi - d.lo + 1
            &&& r.fold_kind == FoldKind::PaddingNoop <==> d.lo + (d.hi - d.lo + 1) / 2 >= d.leaf_count
            &&& r.fold_kind != FoldKind::NotApplicable
        },
        d.role == WorkRole::TreeNode ==> {
            let r = report_of(d, None);
            &&& r.provenance == Provenance::NotApplicable
            &&& r.fold_kind == FoldKind::NotApplicable
            &&& r.merge_interval_span == 0
        },
{
}

} // verus!
