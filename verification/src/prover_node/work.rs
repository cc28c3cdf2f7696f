//! Runs of a workload plan: replay after replay on one machine, or as seeder and
//! workers around a message queue, and what each of them reports.

use crate::prover_node::descriptor::{
    leaf_descriptor, leaf_seeds, seed_leaf_descriptors, WorkDescriptor,
};
use crate::prover_node::locations::{
    replay_object_prefix, replay_prefix, replay_store_dir, replays_have_distinct_prefixes, store_dir,
};
use crate::prover_node::plan::{drift_text, RunConfig, WorkloadPlan};
use crate::report::{FieldView, Report};
use crate::text::{dec, push_dec};
use vstd::prelude::*;
use vstd::string::*;

verus! {

/// The verified root of one replay.
#[derive(Debug, PartialEq, Eq)]
pub struct RootRecord {
    pub replay: usize,
    pub digest: String,
    pub batch_size: u64,
}

/// What a local run does next.
#[derive(Debug)]
pub enum LocalStep {
    /// Work through one replay in its own store, seeded with these leaves.
    Replay { replay: usize, store_dir: String, seeds: Vec<WorkDescriptor> },
    /// Every replay produced a verified root.
    Complete,
    /// A replay was drained before its root existed.
    Stopped { replay: usize },
}

/// How a replay ended.
#[derive(Debug)]
pub enum ReplayOutcome {
    /// Its root was verified.
    Root { digest: String, batch_size: u64 },
    /// It was drained on request.
    Drained,
}

/// A local run: the replays of a plan, one after the other.
#[derive(Debug)]
pub struct LocalRun {
    pub plan: WorkloadPlan,
    pub roots: Vec<RootRecord>,
    pub drained: bool,
}

impl LocalRun {
    /// The roots so far belong to the first replays, in order.
    pub open spec fn wf(&self) -> bool {
        &&& self.plan.wf()
        &&& self.roots@.len() <= self.plan.blocks
        &&& self.drained ==> self.roots@.len() < self.plan.blocks
        &&& forall|i: int| 0 <= i < self.roots@.len() ==> (#[trigger] self.roots@[i]).replay == i
    }

    /// A run that has not begun.
    pub fn new(plan: WorkloadPlan) -> (r: Self)
        requires
            plan.wf(),
        ensures
            r.wf(),
            r.plan == plan,
            r.roots@.len() == 0,
            !r.drained,
    {
        LocalRun { plan, roots: Vec::new(), drained: false }
    }

    /// What to do next: the next replay, until all are done or one was drained.
    pub fn step(&self) -> (r: LocalStep)
        requires
            self.wf(),
        ensures
            if self.drained {
                r == (LocalStep::Stopped { replay: self.roots@.len() as usize })
            } else if self.roots@.len() == self.plan.blocks {
                r == LocalStep::Complete
            } else {
                match r {
                    LocalStep::Replay { replay, store_dir: dir, seeds } => {
                        &&& replay == self.roots@.len()
                        &&& dir@ == store_dir(replay as nat, self.plan.blocks as nat)
                        &&& seeds@ == Seq::new(
                            self.plan.leaf_count_per_block as nat,
                            |i: int|
                                leaf_descriptor(
                                    i as usize,
                                    self.plan.radix,
                                    self.plan.leaf_count_per_block,
                                    self.plan.txs_per_chunk,
                                ),
                        )
                    },
                    _ => false,
                }
            },
    {
        let replay: usize = self.roots.len();
        if self.drained {
            LocalStep::Stopped { replay }
        } else if replay == self.plan.blocks {
            LocalStep::Complete
        } else {
            LocalStep::Replay {
                replay,
                store_dir: replay_store_dir(replay, self.plan.blocks),
                seeds: seed_leaf_descriptors(
                    self.plan.radix,
                    self.plan.leaf_count_per_block,
                    self.plan.txs_per_chunk,
                ),
            }
        }
    }

    /// Takes the outcome of the replay that was run.
    pub fn finished(&mut self, outcome: ReplayOutcome)
        requires
            old(self).wf(),
            !old(self).drained,
            old(self).roots@.len() < old(self).plan.blocks,
        ensures
            final(self).wf(),
            final(self).plan == old(self).plan,
            match outcome {
                ReplayOutcome::Root { digest, batch_size } => {
                    &&& !final(self).drained
                    &&& final(self).roots@ == old(self).roots@.push(
                        (RootRecord {
                            replay: old(self).roots@.len() as usize,
                            digest,
                            batch_size,
                        }),
                    )
                },
                ReplayOutcome::Drained => {
                    &&& final(self).drained
                    &&& final(self).roots@ == old(self).roots@
                },
            },
    {
        match outcome {
            ReplayOutcome::Root { digest, batch_size } => {
                let replay: usize = self.roots.len();
                self.roots.push(RootRecord { replay, digest, batch_size });
            },
            ReplayOutcome::Drained => {
                self.drained = true;
            },
        }
    }
}

/// The level of the root: at least 1.
pub open spec fn root_level(depth: usize) -> u64 {
    if depth < 1 {
        1
    } else {
        depth as u64
    }
}

fn span_id(head: &str, n: u64) -> (r: String)
    ensures
        r@ == head@ + dec(n as nat),
{
    let mut r: String = head.to_owned();
    push_dec(&mut r, n);
    r
}

/// The report of a proved leaf.
pub fn leaf_report(
    chunk_idx: usize,
    proof_path: &str,
    digest: &str,
    num_public_inputs: u64,
    elapsed_ms: u64,
) -> (r: Report)
    ensures
        r@ == seq![
            ("telemetry_event"@, FieldView::Text("STARK_LEAF_PROVED"@)),
            ("span_id"@, FieldView::Text("leaf_"@ + dec(chunk_idx as nat))),
            ("transport"@, FieldView::Text("filesystem"@)),
            ("proof_path"@, FieldView::Text(proof_path@)),
            ("proof_digest_sha256_8"@, FieldView::Text(digest@)),
            ("num_public_inputs"@, FieldView::Number(num_public_inputs)),
            ("elapsed_ms"@, FieldView::Number(elapsed_ms)),
            ("status"@, FieldView::Text("OK"@)),
        ],
{
    let id: String = span_id("leaf_", chunk_idx as u64);
    let mut r = Report::new();
    r.text("telemetry_event", "STARK_LEAF_PROVED");
    r.text("span_id", id.as_str());
    r.text("transport", "filesystem");
    r.text("proof_path", proof_path);
    r.text("proof_digest_sha256_8", digest);
    r.number("num_public_inputs", num_public_inputs);
    r.number("elapsed_ms", elapsed_ms);
    r.text("status", "OK");
    r
}

/// The report of a folded tree node.
pub fn tree_report(
    level: usize,
    node_idx: usize,
    radix: usize,
    leaf_count: usize,
    depth: usize,
    nodes: usize,
    proof_path: &str,
    digest: &str,
    num_public_inputs: u64,
    elapsed_ms: u64,
) -> (r: Report)
    ensures
        r@ == seq![
            ("telemetry_event"@, FieldView::Text("TREE_PARENT_PROVED"@)),
            (
                "span_id"@,
                FieldView::Text("tree_L"@ + dec(level as nat) + "_N"@ + dec(node_idx as nat)),
            ),
            ("transport"@, FieldView::Text("filesystem"@)),
            ("radix"@, FieldView::Number(radix as u64)),
            ("leaf_count"@, FieldView::Number(leaf_count as u64)),
            ("tree_depth"@, FieldView::Number(depth as u64)),
            ("reduction_level"@, FieldView::Number(level as u64)),
            ("nodes_at_level"@, FieldView::Number(nodes as u64)),
            ("proof_path"@, FieldView::Text(proof_path@)),
            ("proof_digest_sha256_8"@, FieldView::Text(digest@)),
            ("num_public_inputs"@, FieldView::Number(num_public_inputs)),
            ("elapsed_ms"@, FieldView::Number(elapsed_ms)),
            ("status"@, FieldView::Text("OK"@)),
        ],
{
    let mut id: String = span_id("tree_L", level as u64);
    id.append("_N");
    push_dec(&mut id, node_idx as u64);
    let mut r = Report::new();
    r.text("telemetry_event", "TREE_PARENT_PROVED");
    r.text("span_id", id.as_str());
    r.text("transport", "filesystem");
    r.number("radix", radix as u64);
    r.number("leaf_count", leaf_count as u64);
    r.number("tree_depth", depth as u64);
    r.number("reduction_level", level as u64);
    r.number("nodes_at_level", nodes as u64);
    r.text("proof_path", proof_path);
    r.text("proof_digest_sha256_8", digest);
    r.number("num_public_inputs", num_public_inputs);
    r.number("elapsed_ms", elapsed_ms);
    r.text("status", "OK");
    r
}

/// The report of a verified root that was harvested from the store.
pub fn root_report(
    block_number: u64,
    radix: usize,
    leaf_count: usize,
    level: usize,
    proof_path: &str,
    digest: &str,
    verify_ms: u64,
    batch_size: u64,
    end_block_number: u64,
    elapsed_ms: u64,
) -> (r: Report)
    ensures
        r@ == seq![
            ("telemetry_event"@, FieldView::Text("ROOT_PROOF_VERIFIED"@)),
            ("span_id"@, FieldView::Text("root_block_"@ + dec(block_number as nat))),
            ("transport"@, FieldView::Text("filesystem"@)),
            ("radix"@, FieldView::Number(radix as u64)),
            ("leaf_count"@, FieldView::Number(leaf_count as u64)),
            ("root_level"@, FieldView::Number(level as u64)),
            ("proof_path"@, FieldView::Text(proof_path@)),
            ("proof_digest_sha256_8"@, FieldView::Text(digest@)),
            ("verification_time_ms"@, FieldView::Number(verify_ms)),
            ("aggregated_batch_size"@, FieldView::Number(batch_size)),
            ("aggregated_end_block_number"@, FieldView::Number(end_block_number)),
            ("l1_settlement"@, FieldView::Text("not_configured"@)),
            ("elapsed_ms"@, FieldView::Number(elapsed_ms)),
            ("status"@, FieldView::Text("OK"@)),
        ],
{
    let id: String = span_id("root_block_", block_number);
    let mut r = Report::new();
    r.text("telemetry_event", "ROOT_PROOF_VERIFIED");
    r.text("span_id", id.as_str());
    r.text("transport", "filesystem");
    r.number("radix", radix as u64);
    r.number("leaf_count", leaf_count as u64);
    r.number("root_level", level as u64);
    r.text("proof_path", proof_path);
    r.text("proof_digest_sha256_8", digest);
    r.number("verification_time_ms", verify_ms);
    r.number("aggregated_batch_size", batch_size);
    r.number("aggregated_end_block_number", end_block_number);
    r.text("l1_settlement", "not_configured");
    r.number("elapsed_ms", elapsed_ms);
    r.text("status", "OK");
    r
}

/// The report of a replay that was drained before its root existed.
pub fn local_drained_report(plan: &WorkloadPlan, block_number: u64, replay: usize) -> (r: Report)
    ensures
        r@ == seq![
            ("telemetry_event"@, FieldView::Text("FUNGIBLE_DISPATCH_DRAINED_ON_SHUTDOWN"@)),
            ("span_id"@, FieldView::Text("dispatch_block_"@ + dec(block_number as nat))),
            ("transport"@, FieldView::Text("local"@)),
            ("replay"@, FieldView::Number(replay as u64)),
            ("radix"@, FieldView::Number(plan.radix as u64)),
            ("leaf_count"@, FieldView::Number(plan.leaf_count_per_block as u64)),
            ("tree_depth"@, FieldView::Number(root_level(plan.depth))),
            ("root_committed"@, FieldView::Flag(false)),
            ("status"@, FieldView::Text("DRAINED_ON_SIGTERM"@)),
            (
                "note"@,
                FieldView::Text(
                    "graceful shutdown: stopped pulling new work, finished + acked the in-flight lease, left remaining work on the queue"@,
                ),
            ),
        ],
{
    let id: String = span_id("dispatch_block_", block_number);
    let mut r = Report::new();
    r.text("telemetry_event", "FUNGIBLE_DISPATCH_DRAINED_ON_SHUTDOWN");
    r.text("span_id", id.as_str());
    r.text("transport", "local");
    r.number("replay", replay as u64);
    r.number("radix", plan.radix as u64);
    r.number("leaf_count", plan.leaf_count_per_block as u64);
    r.number(
        "tree_depth",
        if plan.depth < 1 {
            1
        } else {
            plan.depth as u64
        },
    );
    r.flag("root_committed", false);
    r.text("status", "DRAINED_ON_SIGTERM");
    r.text(
        "note",
        "graceful shutdown: stopped pulling new work, finished + acked the in-flight lease, left remaining work on the queue",
    );
    r
}

/// The report of a replay whose root was verified.
pub fn local_root_report(
    plan: &WorkloadPlan,
    block_number: u64,
    replay: usize,
    store: &str,
    root_key: &str,
    digest: &str,
    batch_size: u64,
    end_block_number: u64,
    elapsed_ms: u64,
) -> (r: Report)
    ensures
        r@ == seq![
            ("telemetry_event"@, FieldView::Text("FUNGIBLE_DISPATCH_ROOT_VERIFIED"@)),
            ("span_id"@, FieldView::Text("dispatch_block_"@ + dec(block_number as nat))),
            ("transport"@, FieldView::Text("local"@)),
            ("replay"@, FieldView::Number(replay as u64)),
            ("replays_total"@, FieldView::Number(plan.blocks as u64)),
            ("store_dir"@, FieldView::Text(store@)),
            ("radix"@, FieldView::Number(plan.radix as u64)),
            ("leaf_count"@, FieldView::Number(plan.leaf_count_per_block as u64)),
            ("txs_per_block"@, FieldView::Number(plan.txs_per_block as u64)),
            ("txs_per_chunk"@, FieldView::Number(plan.txs_per_chunk as u64)),
            ("tree_depth"@, FieldView::Number(root_level(plan.depth))),
            ("root_proof_key"@, FieldView::Text(root_key@)),
            ("proof_digest_sha256_8"@, FieldView::Text(digest@)),
            ("aggregated_batch_size"@, FieldView::Number(batch_size)),
            ("aggregated_end_block_number"@, FieldView::Number(end_block_number)),
            ("l1_settlement"@, FieldView::Text("not_configured"@)),
            ("elapsed_ms"@, FieldView::Number(elapsed_ms)),
            ("status"@, FieldView::Text("OK"@)),
        ],
{
    let id: String = span_id("dispatch_block_", block_number);
    let mut r = Report::new();
    r.text("telemetry_event", "FUNGIBLE_DISPATCH_ROOT_VERIFIED");
    r.text("span_id", id.as_str());
    r.text("transport", "local");
    r.number("replay", replay as u64);
    r.number("replays_total", plan.blocks as u64);
    r.text("store_dir", store);
    r.number("radix", plan.radix as u64);
    r.number("leaf_count", plan.leaf_count_per_block as u64);
    r.number("txs_per_block", plan.txs_per_block as u64);
    r.number("txs_per_chunk", plan.txs_per_chunk as u64);
    r.number(
        "tree_depth",
        if plan.depth < 1 {
            1
        } else {
            plan.depth as u64
        },
    );
    r.text("root_proof_key", root_key);
    r.text("proof_digest_sha256_8", digest);
    r.number("aggregated_batch_size", batch_size);
    r.number("aggregated_end_block_number", end_block_number);
    r.text("l1_settlement", "not_configured");
    r.number("elapsed_ms", elapsed_ms);
    r.text("status", "OK");
    r
}

/// The leaves that the seeder publishes for one replay.
#[derive(Debug)]
pub struct SeedReplay {
    pub replay: usize,
    /// The object prefix of the replay.
    pub prefix: String,
    pub seeds: Vec<WorkDescriptor>,
}

/// Whether `s` is what the seeder publishes for replay `i`.
pub open spec fn replay_seeded(
    plan: WorkloadPlan,
    base_prefix: Seq<char>,
    i: int,
    s: SeedReplay,
) -> bool {
    &&& s.replay == i
    &&& s.prefix@ == replay_prefix(base_prefix, i as nat, plan.blocks as nat)
    &&& s.seeds@ == leaf_seeds(plan.radix, plan.leaf_count_per_block, plan.txs_per_chunk)
}

/// Replays are seeded alike and apart: each gets every leaf of the plan, under a
/// prefix of its own.
pub proof fn replays_are_seeded_alike_and_apart(
    plan: WorkloadPlan,
    base_prefix: Seq<char>,
    i: int,
    j: int,
    a: SeedReplay,
    b: SeedReplay,
)
    requires
        0 <= i < plan.blocks,
        0 <= j < plan.blocks,
        i != j,
        replay_seeded(plan, base_prefix, i, a),
        replay_seeded(plan, base_prefix, j, b),
    ensures
        a.replay != b.replay,
        a.prefix@ != b.prefix@,
        a.seeds@ == b.seeds@,
        a.seeds@.len() == plan.leaf_count_per_block,
{
    replays_have_distinct_prefixes(base_prefix, i as nat, j as nat, plan.blocks as nat);
}

/// What the seeder publishes: the leaves of each replay under its own prefix.
pub fn seed_plan(plan: &WorkloadPlan, base_prefix: &str) -> (r: Vec<SeedReplay>)
    ensures
        r@.len() == plan.blocks,
        forall|i: int|
            #![trigger r@[i]]
            0 <= i < plan.blocks ==> replay_seeded(*plan, base_prefix@, i, r@[i]),
{
    let mut r: Vec<SeedReplay> = Vec::new();
    let mut i: usize = 0;
    while i < plan.blocks
        invariant
            i <= plan.blocks,
            r@.len() == i,
            forall|j: int|
                #![trigger r@[j]]
                0 <= j < i ==> replay_seeded(*plan, base_prefix@, j, r@[j]),
        decreases plan.blocks - i,
    {
        r.push(
            SeedReplay {
                replay: i,
                prefix: replay_object_prefix(base_prefix, i, plan.blocks),
                seeds: seed_leaf_descriptors(
                    plan.radix,
                    plan.leaf_count_per_block,
                    plan.txs_per_chunk,
                ),
            },
        );
        i = i + 1;
    }
    r
}

/// The report of a finished seeder.
pub fn seeded_report(plan: &WorkloadPlan, block_number: u64, endpoint: &str, depth: usize) -> (r:
    Report)
    requires
        plan.blocks * plan.leaf_count_per_block <= usize::MAX,
    ensures
        r@ == seq![
            ("telemetry_event"@, FieldView::Text("FUNGIBLE_DISPATCH_PUBSUB_SEEDED"@)),
            ("span_id"@, FieldView::Text("dispatch_block_"@ + dec(block_number as nat))),
            ("transport"@, FieldView::Text("pubsub"@)),
            ("mode"@, FieldView::Text("seeder"@)),
            ("endpoint"@, FieldView::Text(endpoint@)),
            ("radix"@, FieldView::Number(plan.radix as u64)),
            ("blocks"@, FieldView::Number(plan.blocks as u64)),
            ("leaf_count_per_block"@, FieldView::Number(plan.leaf_count_per_block as u64)),
            ("txs_per_block"@, FieldView::Number(plan.txs_per_block as u64)),
            ("txs_per_chunk"@, FieldView::Number(plan.txs_per_chunk as u64)),
            ("tree_depth"@, FieldView::Number(depth as u64)),
            (
                "seeded_leaf_descriptors"@,
                FieldView::Number((plan.blocks * plan.leaf_count_per_block) as u64),
            ),
            ("run_config_path"@, FieldView::Text("reports/run_config.json"@)),
            ("status"@, FieldView::Text("SEEDED_AND_EXITING"@)),
            ("live_run"@, FieldView::Text("TODO(confirm-on-live-run)"@)),
        ],
{
    let id: String = span_id("dispatch_block_", block_number);
    let mut r = Report::new();
    r.text("telemetry_event", "FUNGIBLE_DISPATCH_PUBSUB_SEEDED");
    r.text("span_id", id.as_str());
    r.text("transport", "pubsub");
    r.text("mode", "seeder");
    r.text("endpoint", endpoint);
    r.number("radix", plan.radix as u64);
    r.number("blocks", plan.blocks as u64);
    r.number("leaf_count_per_block", plan.leaf_count_per_block as u64);
    r.number("txs_per_block", plan.txs_per_block as u64);
    r.number("txs_per_chunk", plan.txs_per_chunk as u64);
    r.number("tree_depth", depth as u64);
    r.number("seeded_leaf_descriptors", plan.total_leaves() as u64);
    r.text("run_config_path", "reports/run_config.json");
    r.text("status", "SEEDED_AND_EXITING");
    r.text("live_run", "TODO(confirm-on-live-run)");
    r
}

/// Why a worker that does not fit what was seeded may not run.
pub open spec fn refusal_text(
    cfg: RunConfig,
    radix: usize,
    leaf_count: usize,
    tx_per_proof: usize,
) -> Seq<char> {
    "Worker config drift detected against the seeded run-config: "@ + drift_text(
        cfg,
        radix,
        leaf_count,
        tx_per_proof,
    )->0
        + "\nRefusing to run \u{2014} re-run the worker with flags matching the seeder (or re-seed). Seeded plan: radix="@
        + dec(cfg.radix as nat) + ", leaf_count="@ + dec(cfg.leaf_count_per_block as nat)
        + ", tx_per_proof="@ + dec(cfg.txs_per_chunk as nat) + "."@
}

/// Whether a worker may run, given the run configuration that was seeded, if any.
/// A worker whose geometry differs is refused with both plans spelled out.
pub fn admit_worker(
    seeded: Option<RunConfig>,
    radix: usize,
    leaf_count: usize,
    tx_per_proof: usize,
) -> (r: Result<(), String>)
    ensures
        match seeded {
            None => r is Ok,
            Some(cfg) => match drift_text(cfg, radix, leaf_count, tx_per_proof) {
                None => r is Ok,
                Some(_) => r is Err && r->Err_0@ == refusal_text(
                    cfg,
                    radix,
                    leaf_count,
                    tx_per_proof,
                ),
            },
        },
{
    match seeded {
        None => Ok(()),
        Some(cfg) => match cfg.assert_matches_worker(radix, leaf_count, tx_per_proof) {
            Ok(()) => Ok(()),
            Err(msg) => {
                let mut e = String::from_str(
                    "Worker config drift detected against the seeded run-config: ",
                );
                e.append(msg.as_str());
                e.append(
                    "\nRefusing to run \u{2014} re-run the worker with flags matching the seeder (or re-seed). Seeded plan: radix=",
                );
                push_dec(&mut e, cfg.radix as u64);
                e.append(", leaf_count=");
                push_dec(&mut e, cfg.leaf_count_per_block as u64);
                e.append(", tx_per_proof=");
                push_dec(&mut e, cfg.txs_per_chunk as u64);
                e.append(".");
                Err(e)
            },
        },
    }
}

/// The report of a queue worker that was drained before the root existed.
pub fn pubsub_drained_report(
    block_number: u64,
    endpoint: &str,
    radix: usize,
    leaf_count: usize,
    depth: usize,
) -> (r: Report)
    ensures
        r@ == seq![
            ("telemetry_event"@, FieldView::Text("FUNGIBLE_DISPATCH_DRAINED_ON_SHUTDOWN"@)),
            ("span_id"@, FieldView::Text("dispatch_block_"@ + dec(block_number as nat))),
            ("transport"@, FieldView::Text("pubsub"@)),
            ("mode"@, FieldView::Text("worker"@)),
            ("endpoint"@, FieldView::Text(endpoint@)),
            ("radix"@, FieldView::Number(radix as u64)),
            ("leaf_count"@, FieldView::Number(leaf_count as u64)),
            ("tree_depth"@, FieldView::Number(depth as u64)),
            ("root_committed"@, FieldView::Flag(false)),
            ("status"@, FieldView::Text("DRAINED_ON_SIGTERM"@)),
            (
                "note"@,
                FieldView::Text(
                    "graceful shutdown: stopped pulling new work, finished + acked the in-flight lease, left remaining work on the Pub/Sub queue"@,
                ),
            ),
            ("live_run"@, FieldView::Text("TODO(confirm-on-live-run)"@)),
        ],
{
    let id: String = span_id("dispatch_block_", block_number);
    let mut r = Report::new();
    r.text("telemetry_event", "FUNGIBLE_DISPATCH_DRAINED_ON_SHUTDOWN");
    r.text("span_id", id.as_str());
    r.text("transport", "pubsub");
    r.text("mode", "worker");
    r.text("endpoint", endpoint);
    r.number("radix", radix as u64);
    r.number("leaf_count", leaf_count as u64);
    r.number("tree_depth", depth as u64);
    r.flag("root_committed", false);
    r.text("status", "DRAINED_ON_SIGTERM");
    r.text(
        "note",
        "graceful shutdown: stopped pulling new work, finished + acked the in-flight lease, left remaining work on the Pub/Sub queue",
    );
    r.text("live_run", "TODO(confirm-on-live-run)");
    r
}

/// The report of a queue worker that verified the root.
pub fn pubsub_root_report(
    block_number: u64,
    endpoint: &str,
    radix: usize,
    leaf_count: usize,
    depth: usize,
    root_key: &str,
    digest: &str,
    ack_deadline_secs: i32,
) -> (r: Report)
    ensures
        r@ == seq![
            ("telemetry_event"@, FieldView::Text("FUNGIBLE_DISPATCH_ROOT_VERIFIED"@)),
            ("span_id"@, FieldView::Text("dispatch_block_"@ + dec(block_number as nat))),
            ("transport"@, FieldView::Text("pubsub"@)),
            ("mode"@, FieldView::Text("worker"@)),
            ("endpoint"@, FieldView::Text(endpoint@)),
            ("radix"@, FieldView::Number(radix as u64)),
            ("leaf_count"@, FieldView::Number(leaf_count as u64)),
            ("tree_depth"@, FieldView::Number(depth as u64)),
            ("root_proof_key"@, FieldView::Text(root_key@)),
            ("proof_digest_sha256_8"@, FieldView::Text(digest@)),
            ("ack_deadline_secs"@, FieldView::Signed(ack_deadline_secs as i64)),
            ("live_cloud_action_performed"@, FieldView::Flag(true)),
            ("status"@, FieldView::Text("OK"@)),
            ("live_run"@, FieldView::Text("TODO(confirm-on-live-run)"@)),
        ],
{
    let id: String = span_id("dispatch_block_", block_number);
    let mut r = Report::new();
    r.text("telemetry_event", "FUNGIBLE_DISPATCH_ROOT_VERIFIED");
    r.text("span_id", id.as_str());
    r.text("transport", "pubsub");
    r.text("mode", "worker");
    r.text("endpoint", endpoint);
    r.number("radix", radix as u64);
    r.number("leaf_count", leaf_count as u64);
    r.number("tree_depth", depth as u64);
    r.text("root_proof_key", root_key);
    r.text("proof_digest_sha256_8", digest);
    r.signed("ack_deadline_secs", ack_deadline_secs as i64);
    r.flag("live_cloud_action_performed", true);
    r.text("status", "OK");
    r.text("live_run", "TODO(confirm-on-live-run)");
    r
}

/// A completed run verified one root per replay, in order.
pub proof fn completed_run_has_every_root(run: LocalRun)
    requires
        run.wf(),
        !run.drained,
        run.roots@.len() == run.plan.blocks,
    ensures
        forall|b: int|
            0 <= b < run.plan.blocks ==> (#[trigger] run.roots@[b]).replay == b,
{
}

} // verus!
