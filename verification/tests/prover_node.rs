use std::cell::Cell;
use std::collections::{BTreeSet, VecDeque};

use bench::hash::HashOut;
use bench::prover_node::descriptor::{
    seed_leaf_descriptors, CommitOutcome, FoldStrategy, WorkDescriptor, WorkRole,
};
use bench::prover_node::dispatch_loop::{
    task_of, DispatchLoop, Event, Phase, PreStateSource, Provenance, Task,
};
use bench::prover_node::geometry::{nodes_at_level, real_children_for_node, tree_depth};
use bench::prover_node::leaf::{chunk_range, leaf_batch, prove_leaf_batch, ChunkOutcome};
use bench::prover_node::locations::{
    artifact_filename, artifact_path, block_tx_artifact, flag_or_env, replay_object_prefix,
    replay_store_dir, resolve_ack_deadline, test_block_path, transport_summary_pubsub,
    worker_identity, Locations, CIRCUIT_ARTIFACT_VERSION, PRESTATE_CORPUS_DEFAULT,
};
use bench::prover_node::plan::{divisors, RunConfig, WorkloadPlan};
use bench::prover_node::queue_run::{QueueEvent, QueuePhase, QueueRun};
use bench::prover_node::registry::{CircuitRegistry, Tower};
use bench::prover_node::tree::{
    aggregate_node, aggregate_pair, check_node, check_pair, child_circuit,
    circuit_registry_is_primed, prewarm_base_level, prewarm_plan, read_children_for_node, reduction_fold_kind,
    root_circuit, ChildProof, CircuitKey, FoldKind, Padding,
};
use bench::prover_node::work::{
    admit_worker, leaf_report, local_drained_report, local_root_report, pubsub_drained_report,
    pubsub_root_report, root_report, seed_plan, seeded_report, tree_report, LocalRun, LocalStep,
    ReplayOutcome,
};
use bench::report::{Field, Report};

const BLOCK_TXS: usize = 500;

/// A queue and a store that publish a parent once its last child is committed.
struct InMemTransport {
    queue: VecDeque<WorkDescriptor>,
    outputs: BTreeSet<String>,
    gating: bool,
}

impl InMemTransport {
    fn new(gating: bool) -> Self {
        InMemTransport { queue: VecDeque::new(), outputs: BTreeSet::new(), gating }
    }

    fn commit_and_gate(&mut self, d: &WorkDescriptor) -> CommitOutcome {
        if !self.outputs.insert(d.output_key()) {
            return CommitOutcome::AlreadyExists;
        }
        if !self.gating {
            return CommitOutcome::Committed;
        }
        let (level, idx) = match d.role {
            WorkRole::Leaf => (0, d.chunk_idx),
            _ => (d.level, d.node_idx),
        };
        let depth = tree_depth(d.leaf_count, d.radix).max(1);
        if level < depth {
            let parent = idx / d.radix;
            let children = read_children_for_node(level + 1, parent, d.radix, d.leaf_count);
            let ready = children.iter().all(|c| {
                let key = match c {
                    ChildProof::Leaf { idx } => {
                        WorkDescriptor::leaf(*idx, d.radix, d.leaf_count, 1).output_key()
                    }
                    ChildProof::Node { level, node_idx } => {
                        WorkDescriptor::tree_node(*level, *node_idx, d.radix, d.leaf_count, 1)
                            .output_key()
                    }
                    ChildProof::Interval { .. } => unreachable!(),
                };
                self.outputs.contains(&key)
            });
            if ready {
                self.queue.push_back(WorkDescriptor::tree_node(
                    level + 1,
                    parent,
                    d.radix,
                    d.leaf_count,
                    d.tx_per_proof,
                ));
            }
        }
        CommitOutcome::Committed
    }
}

/// Runs a dispatch loop on `transport`, and asks it to stop after
/// `shutdown_after` acknowledgements. Gives the last phase and what was pulled.
fn run_loop(
    transport: &mut InMemTransport,
    radix: usize,
    leaf_count: usize,
    shutdown_after: usize,
) -> (Phase, usize) {
    let mut dispatch = DispatchLoop::new(radix, leaf_count);
    let root_key = dispatch.root_key();
    let mut pulled = 0usize;
    let mut in_hand: Option<WorkDescriptor> = None;
    for _ in 0..10_000 {
        let event = match dispatch.phase {
            Phase::CheckShutdown => Event::Shutdown(dispatch.processed >= shutdown_after),
            Phase::QueryRoot | Phase::QueryStalled | Phase::FinalQuery => {
                Event::RootExists(transport.outputs.contains(&root_key))
            }
            Phase::Probe | Phase::Pull => {
                in_hand = transport.queue.pop_front();
                if in_hand.is_some() {
                    pulled += 1;
                }
                Event::Pulled(in_hand)
            }
            Phase::Extend(d) => {
                assert_eq!(Some(d), in_hand);
                Event::Extended
            }
            Phase::Discard(_) | Phase::Ack(_) => Event::Acked,
            Phase::Work(d) => {
                assert_eq!(Some(d), in_hand);
                Event::Proved(if d.role == WorkRole::Leaf {
                    Some(PreStateSource::Corpus)
                } else {
                    None
                })
            }
            Phase::Commit(d, _) => Event::Committed(transport.commit_and_gate(&d)),
            Phase::Harvest | Phase::Drained | Phase::Stalled => {
                return (dispatch.phase, pulled);
            }
        };
        dispatch.advance(event);
    }
    panic!("loop must terminate");
}

fn drive_to_root(radix: usize, leaf_count: usize) -> bool {
    let mut transport = InMemTransport::new(true);
    for d in seed_leaf_descriptors(radix, leaf_count, 1) {
        transport.queue.push_back(d);
    }
    run_loop(&mut transport, radix, leaf_count, usize::MAX).0 == Phase::Harvest
}

#[test]
fn generic_loop_drives_inmemory_transport_to_root_mechanics() {
    assert!(drive_to_root(2, 4), "the loop must reach a committed root");
    assert!(drive_to_root(2, 5), "the loop must handle a deeper under-full tree");
}

#[test]
fn generic_loop_drives_local_transport_to_root_mechanics() {
    let mut transport = InMemTransport::new(true);
    for d in seed_leaf_descriptors(2, 4, 1) {
        transport.queue.push_back(d);
    }
    let (phase, pulled) = run_loop(&mut transport, 2, 4, usize::MAX);
    assert_eq!(phase, Phase::Harvest);
    // 4 leaves + 2 level-1 folds + 1 root fold.
    assert_eq!(pulled, 7);
    assert_eq!(transport.outputs.len(), 7);
}

#[test]
fn worker_identity_is_stable_and_nonempty() {
    let id = worker_identity(None, 4711);
    assert!(!id.trim().is_empty(), "worker identity must never be empty");
    assert_eq!(id, worker_identity(None, 4711), "worker identity must be stable");
    assert_eq!(id, "pid-4711");
    assert_eq!(worker_identity(Some("  ".to_string()), 1), "pid-1");
    assert_eq!(worker_identity(Some("pod-7".to_string()), 1), "pod-7");
}

fn leaves(n: usize) -> InMemTransport {
    let mut transport = InMemTransport::new(false);
    for chunk in 0..n {
        transport.queue.push_back(WorkDescriptor::leaf(chunk, 2, n, 1));
    }
    transport
}

#[test]
fn drain_stops_pulling_new_work_after_shutdown() {
    let mut transport = leaves(5);
    let (phase, pulled) = run_loop(&mut transport, 2, 5, 2);
    assert_eq!(pulled, 2, "finish the leased work, then stop pulling");
    assert_eq!(phase, Phase::Drained);
    assert_eq!(transport.queue.len(), 3);
}

#[test]
fn no_shutdown_drains_entire_queue() {
    let mut transport = leaves(4);
    let (phase, pulled) = run_loop(&mut transport, 2, 4, usize::MAX);
    assert_eq!(pulled, 4, "without shutdown the loop must drain all work");
    assert_eq!(phase, Phase::Stalled);
}

#[test]
fn shutdown_before_first_pull_pulls_nothing() {
    let mut transport = leaves(3);
    let (phase, pulled) = run_loop(&mut transport, 2, 3, 0);
    assert_eq!(pulled, 0, "shutdown before first pull must drain nothing");
    assert_eq!(phase, Phase::Drained);
}

#[test]
fn stalled_loop_says_why() {
    let mut dispatch = DispatchLoop::new(2, 4);
    dispatch.processed = 3;
    assert_eq!(
        dispatch.stall_message(),
        "dispatch loop stalled: no work pullable but root tree_L2_N0.proof not committed \
         (processed 3 descriptors)"
    );
}

#[test]
fn root_coordinator_descriptors_are_discarded() {
    let mut d = WorkDescriptor::tree_node(1, 0, 2, 2, 1);
    d.role = WorkRole::RootCoordinator;
    let mut transport = InMemTransport::new(true);
    transport.queue.push_back(d);
    let (phase, pulled) = run_loop(&mut transport, 2, 2, usize::MAX);
    assert_eq!((phase, pulled), (Phase::Stalled, 1));
    assert!(transport.outputs.is_empty());
    assert_eq!(task_of(&d), None);
}

#[test]
fn work_left_over_is_done_once_the_root_exists() {
    let mut dispatch = DispatchLoop::new(2, 2);
    dispatch.advance(Event::Shutdown(false));
    dispatch.advance(Event::RootExists(true));
    assert_eq!(dispatch.phase, Phase::Probe);
    let d = WorkDescriptor::leaf(1, 2, 2, 1);
    dispatch.advance(Event::Pulled(Some(d)));
    assert_eq!(dispatch.phase, Phase::Extend(d));
    dispatch.advance(Event::Extended);
    assert_eq!(dispatch.phase, Phase::Work(d));
    let mut other = DispatchLoop::new(2, 2);
    other.advance(Event::Shutdown(false));
    other.advance(Event::RootExists(true));
    other.advance(Event::Pulled(None));
    assert_eq!(other.phase, Phase::FinalQuery);
}

#[test]
fn dispatch_reports_what_a_task_was() {
    let mut dispatch = DispatchLoop::new(2, 3);
    dispatch.advance(Event::Shutdown(false));
    dispatch.advance(Event::RootExists(false));
    let d = WorkDescriptor::reduction_fold(2, 0, 3, 2, 1);
    assert_eq!(task_of(&d), Some(Task::FoldPair { level: 2, lo: 0, hi: 3, leaf_count: 2 }));
    dispatch.advance(Event::Pulled(Some(d)));
    dispatch.advance(Event::Extended);
    dispatch.advance(Event::Proved(None));
    match dispatch.phase {
        Phase::Commit(_, report) => {
            assert_eq!(report.provenance, Provenance::NotApplicable);
            assert_eq!(report.fold_kind, FoldKind::PaddingNoop);
            assert_eq!(report.merge_interval_span, 4);
        }
        _ => panic!("commit expected"),
    }
}

#[test]
fn divisors_of_500_are_correct() {
    assert_eq!(divisors(500), vec![1, 2, 4, 5, 10, 20, 25, 50, 100, 125, 250, 500]);
    assert_eq!(divisors(1), vec![1]);
    assert_eq!(divisors(0), Vec::<usize>::new());
    assert_eq!(divisors(7), vec![1, 7]);
}

#[test]
fn plan_accepts_divisor_chunk_size_5() {
    let plan = WorkloadPlan::derive(1, 0, 5, 16, BLOCK_TXS).expect("C=5 must be accepted");
    assert_eq!(plan.txs_per_block, 500);
    assert_eq!(plan.leaf_count_per_block, 100);
    assert_eq!(plan.depth, 2);
    assert_eq!(plan.radix, 16);
}

#[test]
fn plan_rejects_nondivisor_chunk_size_7() {
    let err = WorkloadPlan::derive(1, 0, 7, 16, BLOCK_TXS)
        .expect_err("C=7 must be rejected (not a divisor of 500)");
    assert!(err.contains("must evenly divide"), "got: {err}");
    assert!(err.contains("1,2,4,5,10,20,25,50,100,125,250,500"), "got: {err}");
    assert_eq!(
        err,
        "--txs-per-chunk C=7 must evenly divide --txs-per-block T=500, else the final chunk is \
         short and the in-pod witness generation zip_eq-panics. Valid divisors of 500: \
         1,2,4,5,10,20,25,50,100,125,250,500."
    );
}

#[test]
fn plan_rejects_txs_per_block_exceeding_block_size() {
    let err =
        WorkloadPlan::derive(1, 600, 5, 16, BLOCK_TXS).expect_err("T=600 > 500 must be rejected");
    assert!(err.contains("exceeds the loaded block"), "got: {err}");
}

#[test]
fn plan_rejects_leaf_count_exceeding_available_chunks() {
    let plan = WorkloadPlan::derive(1, 8, 1, 2, 8).expect("at-limit must be accepted");
    assert_eq!(plan.leaf_count_per_block, 8);
}

#[test]
fn plan_rejects_blocks_below_one() {
    let err = WorkloadPlan::derive(0, 0, 5, 16, BLOCK_TXS).expect_err("B=0 must be rejected");
    assert!(err.contains("--blocks B must be >= 1"), "got: {err}");
}

#[test]
fn plan_rejects_chunk_size_zero() {
    let err = WorkloadPlan::derive(1, 0, 0, 16, BLOCK_TXS).expect_err("C=0 must be rejected");
    assert!(err.contains("--txs-per-chunk C must be >= 1"), "got: {err}");
}

#[test]
fn plan_rejects_empty_block() {
    let err = WorkloadPlan::derive(1, 0, 1, 16, 0).expect_err("an empty block must be rejected");
    assert_eq!(
        err,
        "the loaded block has 0 transactions; nothing to prove (check bench_test.json)."
    );
}

#[test]
fn plan_rejects_radix_out_of_range() {
    assert!(WorkloadPlan::derive(1, 0, 5, 1, BLOCK_TXS).is_err(), "radix 1 rejected");
    assert!(WorkloadPlan::derive(1, 0, 5, 17, BLOCK_TXS).is_err(), "radix 17 rejected");
}

#[test]
fn depth_derivation_from_t_c_radix() {
    assert_eq!(WorkloadPlan::derive(1, 500, 5, 16, BLOCK_TXS).unwrap().depth, 2);
    assert_eq!(WorkloadPlan::derive(1, 500, 5, 2, BLOCK_TXS).unwrap().depth, 7);
    assert_eq!(WorkloadPlan::derive(1, 500, 1, 16, BLOCK_TXS).unwrap().depth, 3);
    assert_eq!(WorkloadPlan::derive(1, 100, 10, 16, BLOCK_TXS).unwrap().depth, 1);
}

#[test]
fn b_gt_1_replays_are_namespaced_with_distinct_prefixes() {
    assert_eq!(replay_object_prefix("runs/", 0, 1), "runs/");
    let p0 = replay_object_prefix("runs/", 0, 3);
    let p1 = replay_object_prefix("runs/", 1, 3);
    let p2 = replay_object_prefix("runs/", 2, 3);
    assert_eq!(p0, "runs/block_0/");
    assert_eq!(p1, "runs/block_1/");
    assert_eq!(p2, "runs/block_2/");
    assert_ne!(p0, p1);
    assert_ne!(p1, p2);
    assert_ne!(p0, p2);
    assert_eq!(replay_object_prefix("", 1, 2), "block_1/");
    assert_eq!(replay_object_prefix("runs", 1, 2), "runs/block_1/");
}

#[test]
fn replay_stores_are_distinct() {
    assert_eq!(replay_store_dir(0, 1), "reports/stark_proofs");
    assert_eq!(replay_store_dir(0, 2), "reports/stark_proofs/block_0");
    assert_eq!(replay_store_dir(1, 2), "reports/stark_proofs/block_1");
}

#[test]
fn effective_plan_echo_is_clear_and_complete() {
    let plan = WorkloadPlan::derive(1, 500, 5, 16, BLOCK_TXS).unwrap();
    let echo = plan.effective_plan_echo("transport=local store=reports/stark_proofs/");
    assert!(echo.contains("Block has 500 txs"), "got: {echo}");
    assert!(echo.contains("blocks=1"), "got: {echo}");
    assert!(echo.contains("txs-per-block=500"), "got: {echo}");
    assert!(echo.contains("txs-per-chunk=5"), "got: {echo}");
    assert!(echo.contains("radix=16"), "got: {echo}");
    assert!(echo.contains("100 leaves/block"), "got: {echo}");
    assert!(echo.contains("depth 2"), "got: {echo}");
    assert!(echo.contains("covering ALL 500 txs"), "got: {echo}");
    assert!(echo.contains("transport=local"), "got: {echo}");
}

#[test]
fn effective_plan_echo_reports_partial_coverage_and_replays() {
    let plan = WorkloadPlan::derive(3, 100, 5, 16, BLOCK_TXS).unwrap();
    let echo = plan.effective_plan_echo("transport=pubsub topic=X sub=Y bucket=Z prefix=P.");
    assert!(echo.contains("blocks=3"), "got: {echo}");
    assert!(echo.contains("covering 100/500 txs"), "got: {echo}");
    assert!(echo.contains("3 independent replays"), "got: {echo}");
    assert!(echo.contains("60 total leaves"), "got: {echo}");
    assert!(echo.contains("transport=pubsub"), "got: {echo}");
    assert_eq!(plan.total_leaves(), 60);
}

#[test]
fn run_config_detects_drift() {
    let plan = WorkloadPlan::derive(1, 500, 5, 16, BLOCK_TXS).unwrap();
    let cfg = RunConfig::seeded(&plan, plan.depth, "t", "s", "b", "runs/");
    assert_eq!(cfg.leaf_count_per_block, 100);
    assert_eq!(cfg.depth, 2);
    assert_eq!((cfg.topic.as_str(), cfg.object_prefix.as_str()), ("t", "runs/"));
    assert!(cfg.assert_matches_worker(16, 100, 5).is_ok());
    assert!(cfg.assert_matches_worker(2, 100, 5).unwrap_err().contains("radix mismatch"));
    assert!(cfg
        .assert_matches_worker(16, 50, 5)
        .unwrap_err()
        .contains("leaf_count mismatch"));
    assert!(cfg
        .assert_matches_worker(16, 100, 1)
        .unwrap_err()
        .contains("txs-per-chunk mismatch"));
    assert!(admit_worker(None, 3, 1, 1).is_ok());
    assert!(admit_worker(Some(cfg), 2, 100, 5).is_err());
}

#[test]
fn test_tree_depth_radix2() {
    assert_eq!(tree_depth(1, 2), 0);
    assert_eq!(tree_depth(2, 2), 1);
    assert_eq!(tree_depth(3, 2), 2);
    assert_eq!(tree_depth(4, 2), 2);
    assert_eq!(tree_depth(5, 2), 3);
    assert_eq!(tree_depth(8, 2), 3);
    assert_eq!(tree_depth(9, 2), 4);
    assert_eq!(tree_depth(16, 2), 4);
}

#[test]
fn test_tree_depth_radix16() {
    assert_eq!(tree_depth(1, 16), 0);
    assert_eq!(tree_depth(16, 16), 1);
    assert_eq!(tree_depth(17, 16), 2);
    assert_eq!(tree_depth(256, 16), 2);
    assert_eq!(tree_depth(257, 16), 3);
}

#[test]
fn test_nodes_at_level_radix2_n4() {
    assert_eq!(nodes_at_level(4, 2, 1), 2);
    assert_eq!(nodes_at_level(4, 2, 2), 1);
}

#[test]
fn test_nodes_at_level_radix2_n8() {
    assert_eq!(nodes_at_level(8, 2, 1), 4);
    assert_eq!(nodes_at_level(8, 2, 2), 2);
    assert_eq!(nodes_at_level(8, 2, 3), 1);
}

#[test]
fn test_nodes_at_level_radix2_n5_underfull() {
    assert_eq!(tree_depth(5, 2), 3);
    assert_eq!(nodes_at_level(5, 2, 1), 3);
    assert_eq!(nodes_at_level(5, 2, 2), 2);
    assert_eq!(nodes_at_level(5, 2, 3), 1);
}

#[test]
fn test_real_children_for_node() {
    assert_eq!(real_children_for_node(4, 2, 1, 0), 2);
    assert_eq!(real_children_for_node(4, 2, 1, 1), 2);
    assert_eq!(real_children_for_node(4, 2, 2, 0), 2);
    assert_eq!(real_children_for_node(5, 2, 1, 0), 2);
    assert_eq!(real_children_for_node(5, 2, 1, 1), 2);
    assert_eq!(real_children_for_node(5, 2, 1, 2), 1);
    assert_eq!(real_children_for_node(5, 2, 2, 0), 2);
    assert_eq!(real_children_for_node(5, 2, 2, 1), 1);
}

#[test]
fn registry_reuses_leaf_circuit_by_pointer() {
    let built = Cell::new(0u32);
    let mut registry: CircuitRegistry<u32> = CircuitRegistry::new();
    let build = |_: CircuitKey| {
        built.set(built.get() + 1);
        built.get()
    };
    let a = registry.get_or_build(CircuitKey::BatchLeaf, &build);
    let b = registry.get_or_build(CircuitKey::BatchLeaf, &build);
    assert_eq!(a, b, "the same retained artifact (no rebuild)");
    assert_eq!(built.get(), 1);
    assert_eq!(registry.entries[a].1, 1);
}

#[test]
fn registry_is_lazy_and_role_scoped() {
    let mut registry: CircuitRegistry<u32> = CircuitRegistry::new();
    registry.get_or_build(CircuitKey::BatchLeaf, &|_: CircuitKey| 1);
    assert_eq!(registry.find(CircuitKey::Node { level: 1 }), None);
    assert_eq!(registry.entries.len(), 1);
    registry.get_or_build(CircuitKey::BatchLeaf, &|_: CircuitKey| 2);
    assert_eq!(registry.entries.len(), 1, "a leaf request must not add a node circuit");
}

#[test]
fn registry_reuses_node_circuit_by_pointer() {
    let mut registry: CircuitRegistry<usize> = CircuitRegistry::new();
    let build = |key: CircuitKey| match key {
        CircuitKey::Node { level } => level,
        _ => 0,
    };
    let a = registry.get_or_build(CircuitKey::Node { level: 1 }, &build);
    let b = registry.get_or_build(CircuitKey::Node { level: 1 }, &build);
    assert_eq!(a, b, "the same retained artifact per level");
    let l2 = registry.get_or_build(CircuitKey::Node { level: 2 }, &build);
    assert_ne!(a, l2, "different levels must be distinct retained artifacts");
    assert_eq!(registry.entries[l2].1, 2);
}

#[test]
fn reduction_node_reuses_by_pointer() {
    let mut registry: CircuitRegistry<usize> = CircuitRegistry::new();
    let build = |_: CircuitKey| 0;
    let a = registry.get_or_build(CircuitKey::ReductionNode { level: 1 }, &build);
    let b = registry.get_or_build(CircuitKey::ReductionNode { level: 1 }, &build);
    assert_eq!(a, b);
    let l2 = registry.get_or_build(CircuitKey::ReductionNode { level: 2 }, &build);
    assert_ne!(a, l2);
    assert_eq!(registry.find(CircuitKey::Node { level: 1 }), None);
    // Level 1 folds the leaf; level 2 folds a level-1 reduction node.
    assert_eq!(
        child_circuit(CircuitKey::ReductionNode { level: 1 }),
        Some((CircuitKey::BatchLeaf, false))
    );
    assert_eq!(
        child_circuit(CircuitKey::ReductionNode { level: 2 }),
        Some((CircuitKey::ReductionNode { level: 1 }, true))
    );
}

#[test]
fn towers_are_built_bottom_up_once() {
    let built = Cell::new(0u32);
    let first = || {
        built.set(built.get() + 1);
        vec![1usize]
    };
    let next = |level: usize, below: &Vec<usize>| {
        built.set(built.get() + 1);
        let mut v = below.clone();
        v.push(level);
        v
    };
    let mut tower: Tower<Vec<usize>> = Tower::new();
    assert_eq!(tower.up_to(3, &first, &next), &vec![1, 2, 3]);
    assert_eq!(built.get(), 3);
    assert_eq!(tower.up_to(2, &first, &next), &vec![1, 2]);
    assert_eq!(built.get(), 3);
    assert_eq!(tower.up_to(4, &first, &next), &vec![1, 2, 3, 4]);
    assert_eq!(built.get(), 4);
}

#[test]
fn artifact_version_stamp_is_pinned() {
    assert!(!CIRCUIT_ARTIFACT_VERSION.is_empty());
    assert!(CIRCUIT_ARTIFACT_VERSION.contains("plonky2_"));
    assert!(artifact_filename("pre_exec").contains(CIRCUIT_ARTIFACT_VERSION));
    assert_eq!(artifact_filename("pre_exec"), "pre_exec.v1-chain304-plonky2_e1c2d354.circuit");
}

#[test]
fn artifacts_are_found_where_the_directory_is() {
    assert_eq!(artifact_path(None, "pre_exec"), None);
    assert_eq!(
        artifact_path(Some("/data/circuits".to_string()), &block_tx_artifact(5)),
        Some("/data/circuits/block_tx_s5.v1-chain304-plonky2_e1c2d354.circuit".to_string())
    );
    let mut places = Locations::new();
    assert_eq!(places.circuit_artifact_dir(None, false, false), None);
    assert_eq!(
        places.circuit_artifact_dir(None, false, true),
        Some("bench/circuits".to_string())
    );
    assert_eq!(
        places.circuit_artifact_dir(Some(String::new()), true, true),
        Some("/data/circuits".to_string())
    );
    assert_eq!(
        places.circuit_artifact_dir(Some("/env".to_string()), true, true),
        Some("/env".to_string())
    );
    places.set_circuit_artifact_dir(Some("/flag".to_string()));
    assert_eq!(
        places.circuit_artifact_dir(Some("/env".to_string()), true, true),
        Some("/flag".to_string())
    );
}

#[test]
fn proofs_and_corpora_are_found_where_they_should_be() {
    let mut places = Locations::new();
    assert_eq!(places.leaf_proof_path(3), "reports/stark_proofs/leaf_3.proof");
    places.set_proof_dir(Some("/tmp/x".to_string()));
    assert_eq!(places.tree_proof_path(2, 1), "/tmp/x/tree_L2_N1.proof");
    assert_eq!(places.reduction_proof_path(0, 3), "/tmp/x/reduction_0_3.proof");
    places.set_proof_dir(None);
    assert_eq!(places.proof_dir(), "reports/stark_proofs");
    assert_eq!(places.prestate_corpus_path(None, true, true), "/data/captured_corpus.json");
    assert_eq!(places.prestate_corpus_path(None, false, true), "/data/captured_corpus.gz");
    assert_eq!(places.prestate_corpus_path(None, false, false), PRESTATE_CORPUS_DEFAULT);
    assert_eq!(places.prestate_corpus_path(Some("/e.gz".to_string()), true, true), "/e.gz");
    places.set_prestate_corpus_path(Some("/f.gz".to_string()));
    assert_eq!(places.prestate_corpus_path(Some("/e.gz".to_string()), true, true), "/f.gz");
    assert_eq!(test_block_path(true, true), "/data/bench_test.json");
    assert_eq!(test_block_path(false, true), "bench/bench_test.json");
    assert_eq!(test_block_path(false, false), "bench_test.json");
}

#[test]
fn settings_fall_back_to_the_environment() {
    assert_eq!(
        transport_summary_pubsub("", "s", "", "p/"),
        "transport=pubsub topic=<env> sub=s bucket=<env> prefix=p/."
    );
    assert_eq!(flag_or_env("a".to_string(), Some("b".to_string())), "a");
    assert_eq!(flag_or_env("".to_string(), Some("b".to_string())), "b");
    assert_eq!(flag_or_env("".to_string(), None), "");
    assert_eq!(resolve_ack_deadline(180, Some(600)), 600);
    assert_eq!(resolve_ack_deadline(90, Some(600)), 90);
    assert_eq!(resolve_ack_deadline(180, None), 180);
}

#[test]
fn output_keys_name_what_they_hold() {
    assert_eq!(WorkDescriptor::leaf(3, 2, 4, 1).output_key(), "leaf_3.proof");
    assert_eq!(WorkDescriptor::tree_node(1, 0, 2, 4, 1).output_key(), "tree_L1_N0.proof");
    let fold = WorkDescriptor::reduction_fold(1, 2, 3, 4, 1);
    assert_eq!(fold.output_key(), "reduction_2_3.proof");
    assert_eq!(fold.fold_strategy, FoldStrategy::Reduction);
    assert_eq!(seed_leaf_descriptors(2, 3, 1).len(), 3);
}

#[test]
fn nodes_are_refused_or_folded() {
    assert!(check_node(1, 0, 17, 4).is_err());
    assert!(check_node(3, 0, 2, 4).is_err());
    assert!(check_node(1, 2, 2, 4).is_err());
    assert!(check_node(1, 1, 2, 4).is_ok());
    assert_eq!(
        check_node(1, 0, 3, 0).unwrap_err(),
        "TreeNode level 1 node 0: no child proofs found in transport"
    );
    assert!(check_node(1, 0, 2, 0).is_ok());
    let plan = aggregate_node(1, 0, 2, 0);
    assert_eq!(plan.circuit, CircuitKey::BinaryNode);
    assert_eq!(plan.children, vec![ChildProof::Leaf { idx: 0 }, ChildProof::Leaf { idx: 1 }]);
    // One level of two leaves is folded by the binary circuit.
    let plan = aggregate_node(1, 0, 2, 2);
    assert_eq!(plan.circuit, CircuitKey::BinaryNode);
    assert_eq!(plan.children, vec![ChildProof::Leaf { idx: 0 }, ChildProof::Leaf { idx: 1 }]);
    // A deeper tree is folded level by level, padded by a base proof of the level below.
    let plan = aggregate_node(2, 0, 2, 4);
    assert_eq!(plan.circuit, CircuitKey::Node { level: 2 });
    assert_eq!(
        plan.children,
        vec![
            ChildProof::Node { level: 1, node_idx: 0 },
            ChildProof::Node { level: 1, node_idx: 1 }
        ]
    );
    assert_eq!(plan.padding, Padding::Base { level: 1 });
    assert_eq!(root_circuit(1, 2), CircuitKey::BinaryNode);
    assert_eq!(root_circuit(2, 2), CircuitKey::Node { level: 2 });
}

#[test]
fn pairs_are_two_equal_halves() {
    assert!(check_pair(2, 0, 3));
    assert!(!check_pair(1, 0, 3));
    let plan = aggregate_pair(2, 0, 3, 4);
    assert_eq!(plan.left, ChildProof::Interval { lo: 0, hi: 1 });
    assert_eq!(plan.right, Some(ChildProof::Interval { lo: 2, hi: 3 }));
    let plan = aggregate_pair(1, 2, 3, 3);
    assert_eq!(plan.left, ChildProof::Leaf { idx: 2 });
    assert_eq!(plan.right, None);
    assert_eq!(reduction_fold_kind(2, 3, 3), (FoldKind::PaddingNoop, 2));
    assert_eq!(reduction_fold_kind(2, 3, 4), (FoldKind::Real, 2));
}

#[test]
fn prewarmed_workers_are_primed() {
    for radix in [2, 16] {
        let plan = prewarm_plan(radix, 5);
        assert!(circuit_registry_is_primed(&plan, radix, 5));
        assert!(!circuit_registry_is_primed(&plan, radix, 6));
        assert!(!circuit_registry_is_primed(&Vec::new(), radix, 5));
    }
    assert_eq!(prewarm_base_level(2), None);
    assert_eq!(prewarm_base_level(16), Some(1));
}

fn hash(n: u64) -> HashOut {
    HashOut::from_elements([n, n, n, n])
}

#[test]
fn neighbouring_leaf_batches_chain() {
    let outcome = |n: u64| ChunkOutcome {
        new_account_tree_root: hash(n),
        new_account_delta_tree_root: hash(n + 100),
        priority_operations_count: 0,
    };
    let a = leaf_batch(0, 50, hash(1), hash(101), outcome(2), hash(9));
    let b = leaf_batch(1, 50, hash(2), hash(102), outcome(3), hash(9));
    assert_eq!(a.new_state_root, b.old_state_root);
    assert_eq!(a.new_account_delta_tree_root, b.old_account_delta_tree_root);
    assert_eq!(a.end_block_number + 1, b.end_block_number);
    assert_eq!((a.batch_size, b.batch_size), (1, 1));
    assert!(a.last_created_at < b.first_created_at);
}

#[test]
fn chunks_cover_the_block() {
    assert_eq!(chunk_range(10, 4, 0), Some((0, 4)));
    assert_eq!(chunk_range(10, 4, 2), Some((8, 10)));
    assert_eq!(chunk_range(10, 4, 3), None);
}

#[test]
fn corpus_and_replay_give_the_same_batch() {
    // The state is the sum of the transactions applied so far.
    let replay = |s: &u64, range: (usize, usize)| s + (range.0..range.1).sum::<usize>() as u64;
    let roots = |s: &u64| (hash(*s), hash(*s + 1000));
    let prove = |s: &u64, range: (usize, usize)| {
        let next = s + (range.0..range.1).sum::<usize>() as u64;
        ChunkOutcome {
            new_account_tree_root: hash(next),
            new_account_delta_tree_root: hash(next + 1000),
            priority_operations_count: 2,
        }
    };
    let run = |chunk_idx: usize, snapshot: Option<u64>| {
        prove_leaf_batch(chunk_idx, 10, 3, 50, hash(9), snapshot, 0u64, &replay, &roots, &prove)
    };
    let (replayed, source) = run(2, None);
    assert_eq!(source, PreStateSource::Replay);
    assert_eq!(replayed.old_state_root, hash(15));
    assert_eq!(replayed.new_state_root, hash(36));
    assert_eq!((replayed.end_block_number, replayed.first_created_at), (3, 52));
    let (read, source) = run(2, Some(15));
    assert_eq!(source, PreStateSource::Corpus);
    assert_eq!(read.old_state_root, replayed.old_state_root);
    assert_eq!(read.new_state_root, replayed.new_state_root);
    assert_eq!(read.new_account_delta_tree_root, replayed.new_account_delta_tree_root);
    // The last chunk is short, and the first one needs no replay.
    assert_eq!(run(3, None).0.new_state_root, hash(45));
    assert_eq!(run(0, None).0.old_state_root, hash(0));
}

#[test]
fn local_runs_replay_in_order() {
    let plan = WorkloadPlan::derive(2, 4, 2, 2, 4).unwrap();
    let mut run = LocalRun::new(plan);
    for expected in 0..2usize {
        match run.step() {
            LocalStep::Replay { replay, store_dir, seeds } => {
                assert_eq!(replay, expected);
                assert_eq!(store_dir, format!("reports/stark_proofs/block_{expected}"));
                assert_eq!(seeds.len(), 2);
            }
            _ => panic!("replay expected"),
        }
        run.finished(ReplayOutcome::Root { digest: format!("d{expected}"), batch_size: 2 });
    }
    assert!(matches!(run.step(), LocalStep::Complete));
    assert_eq!(run.roots.len(), 2);
    assert_eq!(run.roots[1].digest, "d1");
    let plan = WorkloadPlan::derive(2, 4, 2, 2, 4).unwrap();
    let mut drained = LocalRun::new(plan);
    drained.finished(ReplayOutcome::Drained);
    assert!(matches!(drained.step(), LocalStep::Stopped { .. }));
}

#[test]
fn seeds_are_published_under_their_own_prefix() {
    let plan = WorkloadPlan::derive(2, 4, 2, 2, 4).unwrap();
    let seeds = seed_plan(&plan, "runs/");
    assert_eq!(seeds.len(), 2);
    assert_eq!(seeds[0].prefix, "runs/block_0/");
    assert_eq!(seeds[1].prefix, "runs/block_1/");
    assert_eq!(seeds[1].seeds.len(), 2);
}

fn fields(report: &Report) -> Vec<(String, String)> {
    report
        .fields
        .iter()
        .map(|(name, value)| {
            let text = match value {
                Field::Text(t) => t.clone(),
                Field::Number(n) => format!("{n}"),
                Field::Signed(n) => format!("{n}"),
                Field::Flag(b) => format!("{b}"),
            };
            (name.clone(), text)
        })
        .collect()
}

fn value(report: &Report, name: &str) -> String {
    fields(report).into_iter().find(|f| f.0 == name).expect("a field of that name").1
}

#[test]
fn leaf_reports_are_complete() {
    let leaf = leaf_report(7, "p/leaf_7.proof", "abcd", 12, 34);
    let expected = [
        ("telemetry_event", "STARK_LEAF_PROVED"),
        ("span_id", "leaf_7"),
        ("transport", "filesystem"),
        ("proof_path", "p/leaf_7.proof"),
        ("proof_digest_sha256_8", "abcd"),
        ("num_public_inputs", "12"),
        ("elapsed_ms", "34"),
        ("status", "OK"),
    ];
    let got = fields(&leaf);
    assert_eq!(got.len(), expected.len());
    for (g, e) in got.iter().zip(expected.iter()) {
        assert_eq!((g.0.as_str(), g.1.as_str()), *e);
    }
}

#[test]
fn tree_and_root_reports_are_complete() {
    let tree = tree_report(2, 1, 2, 8, 3, 2, "p", "d", 5, 6);
    assert_eq!(value(&tree, "telemetry_event"), "TREE_PARENT_PROVED");
    assert_eq!(value(&tree, "span_id"), "tree_L2_N1");
    assert_eq!(value(&tree, "reduction_level"), "2");
    assert_eq!(value(&tree, "nodes_at_level"), "2");
    assert_eq!(value(&tree, "tree_depth"), "3");
    assert_eq!(fields(&tree).len(), 13);
    let root = root_report(9, 2, 8, 3, "p", "d", 4, 8, 8, 6);
    assert_eq!(value(&root, "telemetry_event"), "ROOT_PROOF_VERIFIED");
    assert_eq!(value(&root, "span_id"), "root_block_9");
    assert_eq!(value(&root, "l1_settlement"), "not_configured");
    assert_eq!(value(&root, "verification_time_ms"), "4");
    assert_eq!(fields(&root).len(), 14);
}

#[test]
fn local_reports_are_complete() {
    let plan = WorkloadPlan::derive(1, 4, 2, 2, 4).unwrap();
    let root = local_root_report(&plan, 9, 0, "store", "tree_L1_N0.proof", "ff", 2, 2, 5);
    assert_eq!(value(&root, "telemetry_event"), "FUNGIBLE_DISPATCH_ROOT_VERIFIED");
    assert_eq!(value(&root, "span_id"), "dispatch_block_9");
    assert_eq!(value(&root, "replays_total"), "1");
    assert_eq!(value(&root, "tree_depth"), "1");
    assert_eq!(fields(&root).len(), 18);
    let drained = local_drained_report(&plan, 9, 0);
    assert_eq!(value(&drained, "telemetry_event"), "FUNGIBLE_DISPATCH_DRAINED_ON_SHUTDOWN");
    assert_eq!(value(&drained, "status"), "DRAINED_ON_SIGTERM");
    assert_eq!(value(&drained, "root_committed"), "false");
}

#[test]
fn queue_reports_are_complete() {
    let plan = WorkloadPlan::derive(3, 4, 2, 2, 4).unwrap();
    let seeded = seeded_report(&plan, 9, "endpoint", plan.depth);
    assert_eq!(value(&seeded, "telemetry_event"), "FUNGIBLE_DISPATCH_PUBSUB_SEEDED");
    assert_eq!(value(&seeded, "mode"), "seeder");
    assert_eq!(value(&seeded, "seeded_leaf_descriptors"), "6");
    assert_eq!(value(&seeded, "status"), "SEEDED_AND_EXITING");
    let drained = pubsub_drained_report(9, "endpoint", 2, 2, 1);
    assert_eq!(value(&drained, "mode"), "worker");
    assert_eq!(value(&drained, "root_committed"), "false");
    let root = pubsub_root_report(9, "endpoint", 2, 2, 1, "tree_L1_N0.proof", "ff", 180);
    assert_eq!(value(&root, "ack_deadline_secs"), "180");
    let early = pubsub_root_report(9, "endpoint", 2, 2, 1, "tree_L1_N0.proof", "ff", -1);
    assert_eq!(value(&early, "ack_deadline_secs"), "-1");
    assert_eq!(value(&root, "live_cloud_action_performed"), "true");
    assert_eq!(value(&root, "proof_digest_sha256_8"), "ff");
}

/// A run whose settings were found to make sense.
fn validated(seed: bool, prewarm_port: Option<u16>, radix: usize) -> QueueRun {
    let mut run = QueueRun::new(seed, prewarm_port, radix, 100, 5);
    assert!(matches!(run.phase, QueuePhase::Validate));
    run.advance(QueueEvent::SettingsChecked(None));
    assert!(matches!(run.phase, QueuePhase::Connect));
    run
}

#[test]
fn invalid_settings_are_refused_before_connecting() {
    let mut run = QueueRun::new(false, None, 16, 100, 5);
    run.advance(QueueEvent::Connected(true));
    assert!(matches!(run.phase, QueuePhase::Validate));
    run.advance(QueueEvent::SettingsChecked(Some("topic is empty".to_string())));
    match &run.phase {
        QueuePhase::InvalidSettings(text) => {
            assert_eq!(text, "Invalid --transport=pubsub config: topic is empty");
        }
        other => panic!("{other:?}"),
    }
    run.advance(QueueEvent::Connected(true));
    assert!(matches!(run.phase, QueuePhase::InvalidSettings(_)));
}

#[test]
fn seeders_publish_and_end() {
    let mut run = validated(true, Some(8080), 16);
    run.advance(QueueEvent::Connected(true));
    assert!(matches!(run.phase, QueuePhase::Seed));
    run.advance(QueueEvent::Dispatched(true));
    assert!(matches!(run.phase, QueuePhase::Seed));
    run.advance(QueueEvent::LeavesPublished);
    assert!(matches!(run.phase, QueuePhase::Seeded));
    let mut offline = validated(true, None, 16);
    offline.advance(QueueEvent::Connected(false));
    assert!(matches!(offline.phase, QueuePhase::NotConnected));
}

#[test]
fn workers_warm_up_before_they_are_ready() {
    let mut run = validated(false, Some(8080), 16);
    run.advance(QueueEvent::Connected(true));
    run.advance(QueueEvent::ConfigRead(None));
    assert!(matches!(run.phase, QueuePhase::Prewarm));
    run.advance(QueueEvent::Primed(true));
    assert!(matches!(run.phase, QueuePhase::Listen(8080)));
    run.advance(QueueEvent::Listening);
    assert!(matches!(run.phase, QueuePhase::Dispatch));
    run.advance(QueueEvent::Dispatched(false));
    assert!(matches!(run.phase, QueuePhase::Drained));
    let mut cold = validated(false, Some(8080), 16);
    cold.advance(QueueEvent::Connected(true));
    cold.advance(QueueEvent::ConfigRead(None));
    cold.advance(QueueEvent::Primed(false));
    assert!(matches!(cold.phase, QueuePhase::NotPrimed));
}

#[test]
fn drifted_workers_never_dispatch() {
    let plan = WorkloadPlan::derive(1, 500, 5, 16, BLOCK_TXS).unwrap();
    let config = || RunConfig::seeded(&plan, plan.depth, "t", "s", "b", "runs/");
    let mut fits = validated(false, None, 16);
    fits.advance(QueueEvent::Connected(true));
    fits.advance(QueueEvent::ConfigRead(Some(config())));
    assert!(matches!(fits.phase, QueuePhase::Dispatch));
    fits.advance(QueueEvent::Dispatched(true));
    assert!(matches!(fits.phase, QueuePhase::RootVerified));
    let mut drifted = validated(false, None, 2);
    drifted.advance(QueueEvent::Connected(true));
    drifted.advance(QueueEvent::ConfigRead(Some(config())));
    match &drifted.phase {
        QueuePhase::Drifted(text) => {
            assert!(text.contains("radix mismatch"), "{text}");
            assert!(text.contains("Seeded plan: radix=16, leaf_count=100, tx_per_proof=5."));
        }
        _ => panic!("a drifted worker must be refused"),
    }
}
