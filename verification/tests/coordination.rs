use bench::coordinator::{
    commit_outcome, completion_key, gate_call, CoordinatorConfig, CoordinatorEvent,
    CoordinatorLoop, CoordinatorPhase, CoordinatorStep, GateCall, GatingOutcome, ProverEvent,
};
use bench::hash::HashOut;
use bench::prestate::{
    Ledger, PreStateSnapshots, TreeRoots, ACCOUNT_MERKLE_LEVELS, ASSET_LIST_SIZE,
    MARKET_MERKLE_LEVELS, POSITION_LIST_SIZE,
};
use bench::prestate_store::{
    check_compatible, corpus_framing, corpus_json, from_gzip_bytes, CorpusError, Framing,
    PreStateCorpus, SiblingPaths, SnapshotEntry,
};
use bench::prover_node::descriptor::{CommitOutcome, WorkDescriptor};
use bench::prover_node::dispatch_loop::PreStateSource;
use bench::text_map::TextMap;
use std::io::Write;

fn event(descriptor: WorkDescriptor, status: &str, redriven: bool) -> CoordinatorEvent {
    CoordinatorEvent::Pulled(ProverEvent {
        descriptor,
        status: status.to_string(),
        redriven_after_lease_expiry: redriven,
    })
}

#[test]
fn configuration_has_defaults() {
    let c = CoordinatorConfig::resolve(None, None, None, None, None);
    assert_eq!(c.project, None);
    assert_eq!(c.events_subscription, "prover-events-sub");
    assert_eq!(c.work_topic, "stark-proofs-topic");
    assert_eq!(c.redis_url, "redis://127.0.0.1:6379");
    assert_eq!(c.ttl_secs, 86_400);
    let c = CoordinatorConfig::resolve(
        Some("p".to_string()),
        Some("s".to_string()),
        Some("t".to_string()),
        Some("r".to_string()),
        Some("60".to_string()),
    );
    assert_eq!((c.work_topic.as_str(), c.ttl_secs), ("t", 60));
    let c = CoordinatorConfig::resolve(None, None, None, None, Some("a day".to_string()));
    assert_eq!(c.ttl_secs, 86_400);
}

#[test]
fn successes_are_gated_and_acknowledged() {
    let d = WorkDescriptor::leaf(1, 2, 4, 1);
    let mut c = CoordinatorLoop::new();
    match c.advance(event(d, "success", false)) {
        CoordinatorStep::Ask(call) => {
            assert_eq!(
                call,
                GateCall::Child { descriptor: d, outcome: CommitOutcome::Committed }
            );
        }
        _ => panic!("the engine must be asked"),
    }
    assert_eq!(c.phase, CoordinatorPhase::Gating(d));
    let step = c.advance(CoordinatorEvent::Gated(GatingOutcome::Recorded { have: 1, needed: 2 }));
    assert!(matches!(step, CoordinatorStep::Acknowledge));
    assert_eq!(c.phase, CoordinatorPhase::Pulling);
}

#[test]
fn failures_never_reach_the_engine() {
    let d = WorkDescriptor::leaf(1, 2, 4, 1);
    let mut c = CoordinatorLoop::new();
    assert!(matches!(c.advance(event(d, "failed", true)), CoordinatorStep::Acknowledge));
    assert_eq!(c.redriven, 1);
    assert!(matches!(c.advance(CoordinatorEvent::Undecodable), CoordinatorStep::Acknowledge));
    assert!(matches!(c.advance(CoordinatorEvent::PullFailed), CoordinatorStep::Wait(5)));
    assert!(matches!(c.advance(CoordinatorEvent::Marked), CoordinatorStep::Ignore));
    assert_eq!(commit_outcome("failed"), CommitOutcome::AlreadyExists);
    assert_eq!(commit_outcome("success"), CommitOutcome::Committed);
}

#[test]
fn gate_failures_give_the_message_back() {
    let d = WorkDescriptor::leaf(1, 2, 4, 1);
    let mut c = CoordinatorLoop::new();
    c.advance(event(d, "success", false));
    assert!(matches!(c.advance(CoordinatorEvent::GateFailed), CoordinatorStep::GiveBack));
    assert_eq!(c.phase, CoordinatorPhase::Pulling);
}

#[test]
fn finished_reductions_are_marked() {
    let d = WorkDescriptor::reduction_fold(2, 0, 3, 4, 1);
    assert_eq!(
        gate_call(d, CommitOutcome::Committed),
        GateCall::Interval {
            lo: 0,
            hi: 3,
            level: 2,
            radix: d.radix,
            leaf_count: 4,
            tx_per_proof: 1,
            outcome: CommitOutcome::Committed
        }
    );
    let mut c = CoordinatorLoop::new();
    c.advance(event(d, "success", false));
    match c.advance(CoordinatorEvent::Gated(GatingOutcome::RootReached)) {
        CoordinatorStep::Mark(key) => assert_eq!(key, "rgate/complete/4"),
        _ => panic!("the run must be marked"),
    }
    assert_eq!(completion_key(12), "rgate/complete/12");
    assert!(matches!(c.advance(CoordinatorEvent::Marked), CoordinatorStep::Acknowledge));
    // A tree has no marker.
    let mut tree = CoordinatorLoop::new();
    tree.advance(event(WorkDescriptor::tree_node(2, 0, 2, 4, 1), "success", false));
    assert!(matches!(
        tree.advance(CoordinatorEvent::Gated(GatingOutcome::RootReached)),
        CoordinatorStep::Acknowledge
    ));
}

// Corpus.

fn hash(n: u64) -> HashOut {
    HashOut::from_elements([n, n, n, n])
}

fn entry(n: u64, paths: Option<SiblingPaths>) -> SnapshotEntry<u8, u8, u8, u8> {
    SnapshotEntry {
        ledger: Ledger {
            register_stack: 1,
            all_assets: vec![0; ASSET_LIST_SIZE],
            all_market_details: vec![0; POSITION_LIST_SIZE],
            system_config: 2,
        },
        roots: TreeRoots {
            account_tree_root: hash(n),
            account_pub_data_tree_root: hash(n),
            account_delta_tree_root: hash(n),
            market_tree_root: hash(n),
        },
        sibling_paths: paths,
    }
}

fn paths() -> SiblingPaths {
    let mut map = TextMap::new();
    map.insert("account".to_string(), vec![hash(1); ACCOUNT_MERKLE_LEVELS]);
    map.insert("account_pub_data".to_string(), vec![hash(2); ACCOUNT_MERKLE_LEVELS]);
    map.insert("account_delta".to_string(), vec![hash(3); ACCOUNT_MERKLE_LEVELS]);
    map.insert("market".to_string(), vec![hash(4); MARKET_MERKLE_LEVELS]);
    SiblingPaths { paths: map, account_index: 2, market_index: 255 }
}

fn corpus(version: &str, snapshots: Vec<SnapshotEntry<u8, u8, u8, u8>>) -> PreStateCorpus<u8, u8, u8, u8> {
    PreStateCorpus {
        schema_version: version.to_string(),
        height: 7,
        created_at: 9,
        snapshots,
    }
}

#[test]
fn corpora_become_snapshots() {
    let snaps = corpus("1.1", vec![entry(10, None), entry(11, Some(paths())), entry(12, None)])
        .into_snapshots()
        .unwrap();
    assert_eq!((snaps.height, snaps.created_at, snaps.len()), (7, 9, 3));
    assert!(!snaps.is_empty());
    assert_eq!(snaps.at_position(2).unwrap().roots.market_tree_root, hash(12));
    assert!(snaps.at_position(3).is_none());
    assert_eq!(snaps.at_chunk(2, 1).unwrap().roots.market_tree_root, hash(12));
    assert!(snaps.at_chunk(2, 2).is_none());
    let p = snaps.at_position(1).unwrap().empty_index_sibling_paths.as_ref().unwrap();
    assert_eq!((p.account_index, p.market_index), (2, 255));
    assert_eq!(p.market, vec![hash(4); MARKET_MERKLE_LEVELS]);
    let (found, source) = PreStateSnapshots::pre_state_for(Some(&snaps), 1, 1);
    assert_eq!(found.unwrap().roots.market_tree_root, hash(11));
    assert_eq!(source, PreStateSource::Corpus);
    let (missing, source) = PreStateSnapshots::pre_state_for(Some(&snaps), 1, 9);
    assert!(missing.is_none());
    assert_eq!(source, PreStateSource::Replay);
    let (none, source) =
        PreStateSnapshots::<u8, u8, u8, u8>::pre_state_for(None, 1, 0);
    assert!(none.is_none());
    assert_eq!(source, PreStateSource::Replay);
    let tx = snaps.at_position(0).unwrap().block_tx(5, vec!['a']);
    assert_eq!((tx.created_at, tx.txs), (5, vec!['a']));
    assert_eq!(tx.roots_before.account_tree_root, hash(10));
}

#[test]
fn versions_gate_the_corpus() {
    assert!(check_compatible("1.0").is_ok());
    assert!(check_compatible("1.7").is_ok());
    assert!(check_compatible("2.0").is_err());
    assert!(check_compatible("").is_err());
    match corpus("2.0", vec![]).into_snapshots() {
        Err(CorpusError::IncompatibleVersion { found, supported }) => {
            assert_eq!((found.as_str(), supported.as_str()), ("2.0", "1.0"));
        }
        _ => panic!("version 2 must be refused"),
    }
}

#[test]
fn misshapen_snapshots_are_refused() {
    let mut short = entry(1, None);
    short.ledger.all_assets.pop();
    match corpus("1.0", vec![short]).into_snapshots() {
        Err(CorpusError::ShapeMismatch { expected, got, .. }) => {
            assert_eq!((expected, got), (ASSET_LIST_SIZE, ASSET_LIST_SIZE - 1));
        }
        _ => panic!("a short list must be refused"),
    }
    let mut incomplete = paths();
    incomplete.paths = TextMap::new();
    match corpus("1.1", vec![entry(1, Some(incomplete))]).into_snapshots() {
        Err(e) => assert!(e.message().contains("account"), "{}", e.message()),
        Ok(_) => panic!("missing paths must be refused"),
    }
}

#[test]
fn packed_corpora_are_unpacked() {
    let mut encoder = flate2::write::GzEncoder::new(Vec::new(), flate2::Compression::default());
    encoder.write_all(b"{\"schema_version\":\"1.0\"}").unwrap();
    let packed = encoder.finish().unwrap();
    assert_eq!(from_gzip_bytes(&packed).unwrap(), b"{\"schema_version\":\"1.0\"}");
    assert!(matches!(from_gzip_bytes(b"not gzip"), Err(CorpusError::Io(_))));
    assert_eq!(corpus_json("/x/c.gz", packed.clone()).unwrap(), b"{\"schema_version\":\"1.0\"}");
    assert_eq!(corpus_json("/x/c", packed).unwrap(), b"{\"schema_version\":\"1.0\"}");
    assert_eq!(corpus_json("/x/c.JSON", b"{}".to_vec()).unwrap(), b"{}");
    assert!(corpus_json("/x/c.gz", b"{}".to_vec()).is_err());
}

#[test]
fn framings_go_by_the_extension() {
    assert_eq!(corpus_framing("/data/captured_corpus.json"), Framing::RawJson);
    assert_eq!(corpus_framing("/data/captured_corpus.GZ"), Framing::Gzip);
    assert_eq!(corpus_framing("corpus"), Framing::GzipByDefault);
    assert_eq!(Framing::RawJson.label(), "raw-json (zero-decompress)");
    assert_eq!(Framing::Gzip.label(), "gzip (decompress)");
    assert_eq!(Framing::GzipByDefault.label(), "gzip (decompress, by default)");
}
