use std::cell::Cell;

use bench::conductor::dispatch::{
    gather, prove_chunk, split_k, CellProveStat, CellReport, ChunkResult, Coordinator,
    CoordinatorPool,
};
use bench::conductor::fold::{
    barrier_metric, fold_distributed, fold_in_process, DistributedFoldOutcome, FoldTransport,
    InMemoryFoldTransport, LevelTask, MergeProof, TaskResult,
};
use bench::conductor::queue::{BlockJob, BlockQueue, LocalBlockQueue};
use bench::conductor::storage::{
    merge_object_key, proof_object_key, DownloadPlan, GcloudStorage, StorageConfig, UploadPlan,
    WaitStep,
};
use bench::conductor::witness::{MountedCorpus, WitnessKey, WitnessResolver};

// Queue.

#[test]
fn publish_pull_fifo() {
    let mut q = LocalBlockQueue::new();
    q.publish(BlockJob::new(100, 500));
    q.publish(BlockJob::new(101, 13));
    assert_eq!(q.backlog(), 2);
    assert_eq!(q.pull(), Some(BlockJob::new(100, 500)));
    assert_eq!(q.pull(), Some(BlockJob::new(101, 13)));
    assert_eq!(q.pull(), None);
    assert_eq!(q.backlog(), 0);
}

#[test]
fn nack_redelivers_to_front() {
    let mut q = LocalBlockQueue::new();
    q.publish(BlockJob::new(1, 4));
    q.publish(BlockJob::new(2, 4));
    let j = q.pull().unwrap();
    assert_eq!(j.height, 1);
    q.nack(j);
    assert_eq!(q.pull(), Some(BlockJob::new(1, 4)));
    assert_eq!(q.pull(), Some(BlockJob::new(2, 4)));
}

#[test]
fn ack_is_noop_locally() {
    let mut q = LocalBlockQueue::new();
    q.publish(BlockJob::new(5, 4));
    let j = q.pull().unwrap();
    q.ack(j);
    assert_eq!(q.backlog(), 0);
    assert_eq!(q.pull(), None);
    assert_eq!(q.acknowledged(), &vec![BlockJob::new(5, 4)]);
}

#[test]
fn each_block_is_pulled_once() {
    let mut q = LocalBlockQueue::default();
    for h in 0..100u64 {
        q.publish(BlockJob::new(h, 4));
    }
    let mut all = Vec::new();
    while let Some(j) = q.pull() {
        all.push(j.height);
    }
    assert_eq!(all, (0..100u64).collect::<Vec<_>>());
}

// Witnesses.

#[test]
fn a_new_mount_replaces_the_block() {
    let slices = |n: usize| (0..n).map(|i| (format!("c{i}"), 4)).collect::<Vec<_>>();
    let mut corpus = MountedCorpus::single_block(7, slices(3));
    corpus.mount_block(8, slices(2));
    corpus.mount_block(7, vec![("new".to_string(), 9)]);
    assert_eq!(corpus.slice_count(7), 1);
    assert_eq!(corpus.fetch(WitnessKey::new(7, 0)).unwrap().payload, "new");
    assert!(corpus.fetch(WitnessKey::new(7, 1)).is_none());
    assert!(corpus.fetch(WitnessKey::new(7, 2)).is_none());
    assert_eq!(corpus.slice_count(8), 2);
    assert_eq!(corpus.fetch(WitnessKey::new(8, 1)).unwrap().payload, "c1");
    assert_eq!(corpus.len(), 3);
}

fn corpus_3() -> MountedCorpus<String> {
    MountedCorpus::single_block(
        100,
        vec![
            ("chunk-0".to_string(), 4),
            ("chunk-1".to_string(), 4),
            ("chunk-2".to_string(), 4),
        ],
    )
}

#[test]
fn addressing_resolves_each_index() {
    let c = corpus_3();
    assert_eq!(c.slice_count(100), 3);
    for i in 0..3u64 {
        let r = c.resolve(WitnessKey::new(100, i)).expect("slice present");
        assert_eq!(r.slice.key, WitnessKey::new(100, i));
        assert_eq!(r.slice.payload, format!("chunk-{i}"));
        assert_eq!(r.slice.tx_count, 4);
    }
}

#[test]
fn absent_key_returns_none_for_fallback() {
    let c = corpus_3();
    assert!(c.resolve(WitnessKey::new(100, 3)).is_none());
    assert!(c.resolve(WitnessKey::new(999, 0)).is_none());
    assert_eq!(c.slice_count(999), 0);
}

#[test]
fn empty_corpus_resolves_nothing() {
    let c: MountedCorpus<String> = MountedCorpus::new();
    assert!(c.is_empty());
    assert!(c.resolve(WitnessKey::new(1, 0)).is_none());
    assert_eq!(c.slice_count(1), 0);
}

#[test]
fn k1_whole_block_is_one_slice() {
    let c = MountedCorpus::single_block(7, vec![("whole-block".to_string(), 500)]);
    assert_eq!(c.slice_count(7), 1);
    let r = c.resolve(WitnessKey::new(7, 0)).unwrap();
    assert_eq!(r.slice.tx_count, 500);
    assert_eq!(r.slice.payload, "whole-block");
}

#[test]
fn multi_height_partitioned() {
    let mut c = MountedCorpus::new();
    c.mount_block(10, vec![("a".to_string(), 4), ("b".to_string(), 4)]);
    c.mount_block(11, vec![("c".to_string(), 4)]);
    assert_eq!(c.slice_count(10), 2);
    assert_eq!(c.slice_count(11), 1);
    assert_eq!(c.resolve(WitnessKey::new(10, 1)).unwrap().slice.payload, "b");
    assert_eq!(c.resolve(WitnessKey::new(11, 0)).unwrap().slice.payload, "c");
    assert_eq!(c.len(), 3);
}

#[test]
fn resolve_returns_measured_fetch_ms() {
    let c = corpus_3();
    let r = c.resolve(WitnessKey::new(100, 0)).unwrap();
    let _real_floor: u64 = r.fetch_ms;
    assert!(r.fetch_ms < 10_000);
}

// Dispatch.

fn corpus_k(height: u64, k: usize, s: usize) -> MountedCorpus<String> {
    let slices: Vec<(String, usize)> = (0..k).map(|i| (format!("h{height}-c{i}"), s)).collect();
    MountedCorpus::single_block(height, slices)
}

#[test]
fn split_k_math() {
    assert_eq!(split_k(500, 4), 125);
    assert_eq!(split_k(500, 9), 56);
    assert_eq!(split_k(1, 4), 1);
    assert_eq!(split_k(0, 4), 0);
    assert_eq!(split_k(8, 4), 2);
}

#[test]
fn inner_dispatch_proves_every_chunk_once() {
    let resolver = corpus_k(100, 12, 4);
    let coord = Coordinator::new(4, 64);
    let proven = Cell::new(0u64);
    let out = coord.prove_block(BlockJob::new(100, 48), &resolver, 3, &|_payload: &String| {
        proven.set(proven.get() + 1);
        CellProveStat { prove_ms: 1 }
    });
    assert_eq!(out.k, 12);
    assert_eq!(out.chunks.len(), 12);
    assert_eq!(out.unresolved, 0);
    assert_eq!(proven.get(), 12);
    let mut idxs: Vec<u64> = out.chunks.iter().map(|c| c.key.witness_index).collect();
    idxs.sort_unstable();
    assert_eq!(idxs, (0..12u64).collect::<Vec<_>>());
    assert!(out.chunks.iter().all(|c| c.tx_count == 4));
    assert_eq!(out.total_prove_ms(), 12);
}

#[test]
fn k1_whole_block_one_chunk() {
    let resolver = corpus_k(7, 1, 500);
    let coord = Coordinator::new(4, 8);
    let out = coord.prove_block(BlockJob::new(7, 500), &resolver, 2, &|_p: &String| {
        CellProveStat { prove_ms: 2 }
    });
    assert_eq!(out.k, 1);
    assert_eq!(out.chunks.len(), 1);
    assert_eq!(out.chunks[0].key, WitnessKey::new(7, 0));
    assert_eq!(out.chunks[0].tx_count, 500);
}

#[test]
fn pool_drains_outer_queue_horizontally() {
    let mut queue = LocalBlockQueue::new();
    let mut corpus = MountedCorpus::new();
    for h in 0..20u64 {
        corpus.mount_block(h, (0..5).map(|i| (format!("h{h}-c{i}"), 4)).collect());
        queue.publish(BlockJob::new(h, 20));
    }
    let pool = CoordinatorPool::new(4, 2, 4, 64);
    let proven = Cell::new(0u64);
    let out = pool.run(&mut queue, &corpus, &|_p: &String| {
        proven.set(proven.get() + 1);
        CellProveStat { prove_ms: 1 }
    });
    assert_eq!(out.blocks_proven, 20);
    assert_eq!(out.total_chunks(), 100);
    assert_eq!(proven.get(), 100);
    assert_eq!(queue.backlog(), 0);
    let acked: Vec<u64> = queue.acknowledged().iter().map(|j| j.height).collect();
    assert_eq!(acked, (0..20u64).collect::<Vec<_>>());
    let mut heights: Vec<u64> = out.outcomes.iter().map(|o| o.height).collect();
    heights.sort_unstable();
    assert_eq!(heights, (0..20u64).collect::<Vec<_>>());
}

#[test]
fn unresolved_chunks_counted_not_hidden() {
    let resolver = corpus_k(3, 6, 4);
    let coord = Coordinator::new(4, 64);
    let out = coord.prove_block(BlockJob::new(3, 40), &resolver, 2, &|_p: &String| CellProveStat {
        prove_ms: 1,
    });
    assert_eq!(out.k, 6);
    assert_eq!(out.chunks.len(), 6);
    assert_eq!(out.unresolved, 0);
}

#[test]
fn witness_fetch_ms_is_measured_per_chunk() {
    let resolver = corpus_k(100, 4, 4);
    let coord = Coordinator::new(4, 16);
    let out = coord.prove_block(BlockJob::new(100, 16), &resolver, 2, &|_p: &String| {
        CellProveStat { prove_ms: 1 }
    });
    assert_eq!(out.chunks.len(), 4);
    let _floor: u64 = out.total_witness_fetch_ms();
}

#[test]
fn absent_chunks_are_counted() {
    let resolver = corpus_k(3, 1, 4);
    let prove = |_p: &String| CellProveStat { prove_ms: 1 };
    assert!(prove_chunk(WitnessKey::new(3, 1), &resolver, &prove).is_none());
    let there = prove_chunk(WitnessKey::new(3, 0), &resolver, &prove).unwrap();
    assert_eq!(there.prove_ms, 1);
    let cells = vec![
        CellReport { results: vec![there], unresolved: 2 },
        CellReport {
            results: vec![ChunkResult {
                key: WitnessKey::new(3, 5),
                witness_fetch_ms: 7,
                prove_ms: 8,
                tx_count: 4,
            }],
            unresolved: 1,
        },
    ];
    let out = gather(3, 5, cells);
    assert_eq!((out.height, out.k, out.unresolved), (3, 5, 3));
    assert_eq!(out.chunks.len(), 2);
    assert_eq!(out.total_prove_ms(), 9);
}

// Fold.

#[derive(Debug, Clone, PartialEq, Eq)]
struct FakeProof {
    ids: Vec<u64>,
}

impl MergeProof for FakeProof {
    fn encoded_len(&self) -> Option<usize> {
        Some(8 + 8 * self.ids.len())
    }
}

fn leaf(id: u64) -> FakeProof {
    FakeProof { ids: vec![id] }
}

fn fake_merge(
    left: &FakeProof,
    _l_is_merge: bool,
    right: &FakeProof,
    _r_is_merge: bool,
) -> Result<FakeProof, String> {
    let mut ids = left.ids.clone();
    ids.extend_from_slice(&right.ids);
    Ok(FakeProof { ids })
}

/// The serial level loop with the same carry of an odd node.
fn fold_serially(leaves: Vec<FakeProof>) -> (FakeProof, bool, usize, usize) {
    let mut level: Vec<(FakeProof, bool)> = leaves.into_iter().map(|p| (p, false)).collect();
    let mut depth = 0usize;
    let mut merges = 0usize;
    while level.len() > 1 {
        depth += 1;
        let mut iter = level.into_iter();
        let mut next: Vec<(FakeProof, bool)> = Vec::new();
        while let Some(left) = iter.next() {
            match iter.next() {
                Some(right) => {
                    let m = fake_merge(&left.0, left.1, &right.0, right.1).unwrap();
                    next.push((m, true));
                    merges += 1;
                }
                None => next.push(left),
            }
        }
        level = next;
    }
    let (p, is_merge) = level.pop().unwrap();
    (p, is_merge, depth, merges)
}

fn leaf_keys(height: u64, k: usize) -> Vec<String> {
    (0..k as u64).map(|i| proof_object_key(height, i)).collect()
}

fn run_distributed(height: u64, k: usize, workers: usize) -> DistributedFoldOutcome<FakeProof> {
    let leaves: Vec<FakeProof> = (0..k as u64).map(leaf).collect();
    let keys = leaf_keys(height, k);
    let mut transport = InMemoryFoldTransport::with_leaves(&keys, &leaves, workers);
    fold_distributed(height, leaves, keys, &mut transport, &fake_merge).expect("distributed fold")
}

#[test]
fn distributed_equals_inprocess_for_k4_k8_and_odd_sizes() {
    for k in [4usize, 5, 6, 7, 8, 9, 16] {
        let leaves: Vec<FakeProof> = (0..k as u64).map(leaf).collect();
        let (ref_proof, ref_is_merge, ref_depth, ref_merges) = fold_serially(leaves.clone());
        let (here, here_is_merge) = fold_in_process(leaves, &fake_merge).unwrap();
        assert_eq!((&here, here_is_merge), (&ref_proof, ref_is_merge));
        for workers in [1usize, 2, 3, 4, 8] {
            let out = run_distributed(7, k, workers);
            assert_eq!(out.final_proof, ref_proof, "k={k} workers={workers}");
            assert_eq!(out.final_is_merge, ref_is_merge, "k={k}: final_is_merge");
            assert_eq!(out.depth, ref_depth, "k={k}: depth");
            assert_eq!(out.merges, ref_merges, "k={k}: merges");
        }
    }
}

#[test]
fn final_ids_are_in_leaf_order() {
    let out = run_distributed(100, 8, 4);
    assert_eq!(out.final_proof.ids, vec![0, 1, 2, 3, 4, 5, 6, 7]);
    assert!(out.final_is_merge);
}

#[test]
fn odd_carry_up_preserved() {
    let out = run_distributed(100, 5, 2);
    assert_eq!(out.final_proof.ids, vec![0, 1, 2, 3, 4]);
}

#[test]
fn single_leaf_no_merge() {
    let out = run_distributed(100, 1, 4);
    assert_eq!(out.final_proof.ids, vec![0]);
    assert!(!out.final_is_merge, "single leaf is not a merge");
    assert_eq!(out.depth, 0);
    assert_eq!(out.merges, 0);
}

#[test]
fn intermediate_proofs_transit_under_merge_key_namespace() {
    let height = 42u64;
    let k = 8usize;
    let leaves: Vec<FakeProof> = (0..k as u64).map(leaf).collect();
    let keys = leaf_keys(height, k);
    let mut transport = InMemoryFoldTransport::with_leaves(&keys, &leaves, 4);
    let out = fold_distributed(height, leaves, keys, &mut transport, &fake_merge).unwrap();
    let merge_keys: Vec<String> =
        transport.keys().into_iter().filter(|k| k.contains("/m/")).collect();
    assert_eq!(merge_keys.len(), 7, "expected 7 intermediate merge outputs");
    for mk in merge_keys {
        assert!(mk.starts_with(&format!("{height}/m/")), "{mk}");
    }
    assert_eq!(transport.read("42/m/3/0").unwrap().ids, vec![0, 1, 2, 3, 4, 5, 6, 7]);
    let sizes = transport
        .keys()
        .into_iter()
        .filter(|k| k.contains("/m/"))
        .map(|k| transport.read(&k).unwrap().encoded_len().unwrap());
    assert_eq!(sizes.max(), Some(out.max_intermediate_bytes));
}

#[test]
fn instrumentation_is_populated() {
    let out = run_distributed(7, 8, 4);
    assert_eq!(out.level_metrics.len(), out.depth);
    assert_eq!(out.level_metrics[0].level, 1);
    assert_eq!(out.level_metrics[0].tasks, 4);
    assert!(out.max_intermediate_bytes > 0, "intermediate size measured");
    for m in &out.level_metrics {
        assert!(m.slowest_prove_ms >= m.median_prove_ms);
        assert_eq!(m.straggler_ms, m.slowest_prove_ms - m.median_prove_ms);
    }
}

#[test]
fn barrier_metric_measures_the_straggler() {
    let results: Vec<TaskResult> = [5u64, 1, 9, 3]
        .iter()
        .enumerate()
        .map(|(i, ms)| TaskResult { index: i as u64, output_key: String::new(), prove_ms: *ms })
        .collect();
    let m = barrier_metric(2, true, 20, &results);
    assert_eq!((m.level, m.tasks, m.odd_carry, m.barrier_ms), (2, 4, true, 20));
    assert_eq!(m.slowest_prove_ms, 9);
    assert_eq!(m.median_prove_ms, 5);
    assert_eq!(m.straggler_ms, 4);
}

#[test]
fn honest_failure_on_merge_error_aborts_fold() {
    let height = 7u64;
    let k = 4usize;
    let leaves: Vec<FakeProof> = (0..k as u64).map(leaf).collect();
    let keys = leaf_keys(height, k);
    let mut transport = InMemoryFoldTransport::with_leaves(&keys, &leaves, 2);
    let merge = |_l: &FakeProof, _lm: bool, _r: &FakeProof, _rm: bool| -> Result<FakeProof, String> {
        Err("simulated merge failure".to_string())
    };
    let err = match fold_distributed(height, leaves, keys, &mut transport, &merge) {
        Ok(_) => panic!("fold must fail when a merge fails"),
        Err(e) => e,
    };
    assert!(err.contains("failed") || err.contains("merge"), "{err}");
}

#[test]
fn honest_failure_on_missing_leaf_key() {
    let height = 7u64;
    let leaves: Vec<FakeProof> = (0..4u64).map(leaf).collect();
    let seeded = leaf_keys(height, 4);
    let mut transport = InMemoryFoldTransport::with_leaves(&seeded, &leaves, 2);
    let wrong_keys: Vec<String> = (0..4u64).map(|i| format!("{height}/wrong/{i}")).collect();
    let err = match fold_distributed(height, leaves, wrong_keys, &mut transport, &fake_merge) {
        Ok(_) => panic!("fold must fail when an input key is missing"),
        Err(e) => e,
    };
    assert!(err.contains("missing key"), "got: {err}");
}

#[test]
fn empty_leaves_is_error() {
    let mut transport = InMemoryFoldTransport::<FakeProof>::with_leaves(&vec![], &vec![], 1);
    let err = match fold_distributed(7, vec![], vec![], &mut transport, &fake_merge) {
        Ok(_) => panic!("empty leaves must error"),
        Err(e) => e,
    };
    assert!(err.contains("no leaf proofs"));
}

#[test]
fn mismatched_keys_leave_the_store_alone() {
    let leaves: Vec<FakeProof> = (0..2u64).map(leaf).collect();
    let keys = leaf_keys(7, 2);
    let mut transport = InMemoryFoldTransport::with_leaves(&keys, &leaves, 1);
    let err = match fold_distributed(7, leaves, leaf_keys(7, 3), &mut transport, &fake_merge) {
        Ok(_) => panic!("keys must match the leaves"),
        Err(e) => e,
    };
    assert_eq!(err, "distributed fold: 2 leaves but 3 leaf keys (must match 1:1)");
    assert_eq!(transport.keys(), keys);
}

#[test]
fn a_failed_level_keeps_what_was_merged() {
    let leaves: Vec<FakeProof> = (0..6u64).map(leaf).collect();
    let keys = leaf_keys(7, 6);
    let task = |i: u64| LevelTask {
        height: 7,
        level: 1,
        index: i,
        left_key: proof_object_key(7, 2 * i),
        left_is_merge: false,
        right_key: proof_object_key(7, 2 * i + 1),
        right_is_merge: false,
        output_key: format!("7/m/1/{i}"),
    };
    let tasks: Vec<LevelTask> = (0..3).map(task).collect();
    let odd = |l: &FakeProof, lm: bool, r: &FakeProof, rm: bool| -> Result<FakeProof, String> {
        if l.ids[0] == 2 {
            return Err("no".to_string());
        }
        fake_merge(l, lm, r, rm)
    };
    let mut one = InMemoryFoldTransport::with_leaves(&keys, &leaves, 1);
    assert_eq!(
        one.run_level(&tasks, &odd).unwrap_err(),
        "distributed fold: merge task #1 (level 1) failed: no"
    );
    assert_eq!(one.read("7/m/1/0").unwrap().ids, vec![0, 1]);
    assert!(one.read("7/m/1/1").is_none());
    assert!(one.read("7/m/1/2").is_none());
    let mut all = InMemoryFoldTransport::with_leaves(&keys, &leaves, 0);
    assert!(all.run_level(&tasks, &odd).is_err());
    assert!(all.read("7/m/1/1").is_none());
    assert_eq!(all.read("7/m/1/2").unwrap().ids, vec![4, 5]);
    let results = all.run_level(&tasks, &fake_merge).unwrap();
    let order: Vec<u64> = results.iter().map(|r| r.index).collect();
    assert_eq!(order, vec![0, 1, 2]);
    assert_eq!(results[2].output_key, "7/m/1/2");
}

#[test]
fn fold_store_reads_what_was_put() {
    let mut transport = InMemoryFoldTransport::<FakeProof>::with_leaves(&vec![], &vec![], 1);
    transport.put("k", &leaf(3)).unwrap();
    assert_eq!(transport.get("k").unwrap().0, leaf(3));
    assert!(transport.get("other").is_err());
}

// Storage.

fn cfg() -> StorageConfig {
    StorageConfig {
        bucket: "kunal-scratch-lighter-prover-proofs".into(),
        gcloud_bin: "gcloud".into(),
        mount_path: String::new(),
    }
}

fn bucketless() -> StorageConfig {
    StorageConfig { bucket: String::new(), gcloud_bin: "gcloud".into(), mount_path: String::new() }
}

fn mounted() -> StorageConfig {
    StorageConfig {
        bucket: "kunal-scratch-lighter-prover-proofs".into(),
        gcloud_bin: "gcloud".into(),
        mount_path: "/mnt/proofs".into(),
    }
}

#[test]
fn object_key_is_height_slash_witness_index() {
    assert_eq!(proof_object_key(186_974_616, 3), "186974616/3");
    assert_eq!(proof_object_key(0, 0), "0/0");
    assert_eq!(proof_object_key(100, 55), "100/55");
}

#[test]
fn merge_object_key_is_height_slash_m_slash_level_slash_index() {
    assert_eq!(merge_object_key(186_974_616, 1, 0), "186974616/m/1/0");
    assert_eq!(merge_object_key(0, 1, 0), "0/m/1/0");
    assert_eq!(merge_object_key(100, 3, 7), "100/m/3/7");
}

#[test]
fn merge_key_never_collides_with_leaf_key() {
    let height = 42u64;
    let leaf_keys: Vec<String> = (0..32).map(|i| proof_object_key(height, i)).collect();
    let mut merge_keys: Vec<String> = Vec::new();
    for level in 1..=6u64 {
        for index in 0..32u64 {
            merge_keys.push(merge_object_key(height, level, index));
        }
    }
    for lk in &leaf_keys {
        assert!(!merge_keys.contains(lk), "{lk}");
        assert_eq!(lk.matches('/').count(), 1, "leaf key shape: {lk}");
    }
    for mk in &merge_keys {
        assert_eq!(mk.matches('/').count(), 3, "merge key shape: {mk}");
        assert_eq!(mk.split('/').nth(1), Some("m"), "{mk}");
    }
}

#[test]
fn disabled_when_bucket_empty() {
    assert!(!bucketless().enabled());
    let c2 = StorageConfig {
        bucket: "   ".into(),
        gcloud_bin: "gcloud".into(),
        mount_path: String::new(),
    };
    assert!(!c2.enabled(), "whitespace-only bucket is still disabled");
}

#[test]
fn enabled_when_bucket_set() {
    assert!(cfg().enabled());
}

#[test]
fn gcs_uri_prefixes_bucket() {
    let key = proof_object_key(100, 2);
    assert_eq!(cfg().gcs_uri(&key), "gs://kunal-scratch-lighter-prover-proofs/100/2");
}

#[test]
fn cp_argv_is_well_formed() {
    let key = proof_object_key(100, 2);
    let argv = cfg().cp_to_gcs_argv("/tmp/proof.bin", &key);
    assert_eq!(
        argv,
        vec![
            "storage".to_string(),
            "cp".to_string(),
            "--quiet".to_string(),
            "/tmp/proof.bin".to_string(),
            "gs://kunal-scratch-lighter-prover-proofs/100/2".to_string(),
        ]
    );
}

#[test]
fn upload_refused_when_disabled() {
    let store = GcloudStorage::new(bucketless());
    let err = store.upload("100/2", 1).unwrap_err();
    assert!(err.contains("disabled"));
}

#[test]
fn cp_from_argv_is_well_formed_and_mirrors_upload() {
    let key = proof_object_key(186_974_616, 3);
    let argv = cfg().cp_from_gcs_argv(&key, "/tmp/proof.bin");
    assert_eq!(
        argv,
        vec![
            "storage".to_string(),
            "cp".to_string(),
            "--quiet".to_string(),
            "gs://kunal-scratch-lighter-prover-proofs/186974616/3".to_string(),
            "/tmp/proof.bin".to_string(),
        ]
    );
    let up = cfg().cp_to_gcs_argv("/tmp/proof.bin", &key);
    assert_eq!(up[4], argv[3], "upload dest URI == download src URI");
}

#[test]
fn download_refused_when_disabled() {
    let store = GcloudStorage::new(bucketless());
    let err = store.download("100/2", 1).unwrap_err();
    assert!(err.contains("disabled"));
}

#[test]
fn mount_enabled_selects_mount_mode() {
    let c = mounted();
    assert!(c.enabled());
    assert!(c.mount_enabled(), "a set mount path turns mount mode on");
    assert!(!cfg().mount_enabled());
}

#[test]
fn mount_object_path_maps_key_under_root() {
    let c = StorageConfig {
        bucket: String::new(),
        gcloud_bin: "gcloud".into(),
        mount_path: "/mnt/proofs".into(),
    };
    assert_eq!(c.mount_object_path(&proof_object_key(100, 2)), "/mnt/proofs/100/2");
    assert_eq!(c.mount_object_path(&merge_object_key(100, 1, 3)), "/mnt/proofs/100/m/1/3");
}

#[test]
fn mounted_objects_go_where_they_are_read() {
    let store = GcloudStorage::new(mounted());
    let key = merge_object_key(186_974_616, 2, 5);
    let dest = match store.upload(&key, 77).unwrap() {
        UploadPlan::Mount { dest, temp_name } => {
            assert!(temp_name.contains("77"));
            dest
        }
        UploadPlan::Command { .. } => panic!("the mount wins"),
    };
    match store.download(&key, 77).unwrap() {
        DownloadPlan::Mount { path } => assert_eq!(path, dest),
        DownloadPlan::Command { .. } => panic!("the mount wins"),
    }
    assert!(matches!(
        GcloudStorage::new(cfg()).upload(&key, 77).unwrap(),
        UploadPlan::Command { .. }
    ));
    assert_eq!(store.uploaded(&key, true, "").unwrap(), key);
    assert!(store.uploaded(&key, false, "quota\n").unwrap_err().contains("quota"));
    assert!(store.download_failure(&key, "gone").contains("gone"));
    assert_eq!(store.config().mount_path, "/mnt/proofs");
}

#[test]
fn waiting_ends_with_the_object_or_the_deadline() {
    let store = GcloudStorage::new(mounted());
    let mut wait = store.wait_for_object("3/1", 40_000_000, 10_000_000);
    match wait.tried(Err("no such file".to_string()), 0, 5, 6, "40ms") {
        WaitStep::Retry { pause_ns } => assert_eq!(pause_ns, 10_000_000),
        _ => panic!("retry expected"),
    }
    match wait.tried(Ok(b"late".to_vec()), 11, 5, 16, "40ms") {
        WaitStep::Ready { bytes, wait } => {
            assert_eq!(bytes, b"late");
            assert_eq!(wait.attempts, 2);
            assert_eq!((wait.wait, wait.read), (11, 5));
        }
        _ => panic!("ready expected"),
    }
    // An object that is there at once was not waited for.
    let mut at_once = store.wait_for_object("3/2", 40_000_000, 10_000_000);
    match at_once.tried(Ok(b"xyz".to_vec()), 300, 5, 306, "40ms") {
        WaitStep::Ready { wait, .. } => assert_eq!((wait.wait, wait.attempts), (0, 1)),
        _ => panic!("ready expected"),
    }
    let mut never = store.wait_for_object("5/0", 40_000_000, 10_000_000);
    match never.tried(Err("no such file".to_string()), 39_000_000, 2_000_000, 41_000_000, "40ms") {
        WaitStep::GaveUp { message } => {
            assert!(message.contains("not visible"), "{message}");
            assert!(message.contains("5/0"), "{message}");
        }
        _ => panic!("give up expected"),
    }
}

#[test]
fn staging_files_of_keys_differ() {
    let store = GcloudStorage::new(cfg());
    let name = |key: &str| match store.upload(key, 9).unwrap() {
        UploadPlan::Command { temp_name } => temp_name,
        UploadPlan::Mount { .. } => panic!("no mount is configured"),
    };
    assert_eq!(name("100/2"), "lighter-proof-100_2-9.bin");
    assert_ne!(name("100/2"), name("10/02"));
    match store.download("100/2", 9).unwrap() {
        DownloadPlan::Command { temp_name } => {
            assert_eq!(temp_name, "lighter-proof-dl-100_2-9.bin");
        }
        DownloadPlan::Mount { .. } => panic!("no mount is configured"),
    }
    let mounted = GcloudStorage::new(mounted());
    let temp = |key: &str| match mounted.upload(key, 9).unwrap() {
        UploadPlan::Mount { temp_name, .. } => temp_name,
        UploadPlan::Command { .. } => panic!("the mount wins"),
    };
    assert_eq!(temp("7/m/1/0"), ".lighter-proof-tmp-0-9");
    assert_ne!(temp("7/m/1/0"), temp("7/m/1/1"));
}
