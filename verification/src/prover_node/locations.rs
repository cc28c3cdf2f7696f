//! Where proofs, corpora and circuit artifacts live, and what runs are called.

use crate::text::{
    dec, join_path, joined_path, lemma_cut_at, lemma_dec, lemma_dec_injective, push_dec, trim, trimmed,
};
use vstd::prelude::*;
use vstd::string::*;

verus! {

/// The proof store of a single run.
pub const PROOF_DIR: &'static str = "reports/stark_proofs";

/// The committed pre-state corpus, relative to a checkout.
pub const PRESTATE_CORPUS_DEFAULT: &'static str = "bench/corpus/cap-block/captured_corpus.gz";

/// Where the seeder leaves the run configuration.
pub const RUN_CONFIG_PATH: &'static str = "reports/run_config.json";

/// Stamp of the circuit parameters and of the proof system's revision. It is part
/// of every artifact's file name, so artifacts of another version are not found.
pub const CIRCUIT_ARTIFACT_VERSION: &'static str = "v1-chain304-plonky2_e1c2d354";

/// The file name of the proof of leaf `idx`.
pub open spec fn leaf_file(idx: nat) -> Seq<char> {
    "leaf_"@ + dec(idx) + ".proof"@
}

/// The file name of the proof of node `node_idx` at `level`.
pub open spec fn tree_file(level: nat, node_idx: nat) -> Seq<char> {
    "tree_L"@ + dec(level) + "_N"@ + dec(node_idx) + ".proof"@
}

/// The file name of the reduction proof of the leaves `lo..=hi`.
pub open spec fn reduction_file(lo: nat, hi: nat) -> Seq<char> {
    "reduction_"@ + dec(lo) + "_"@ + dec(hi) + ".proof"@
}

/// The file name of the proof of leaf `idx`.
pub fn leaf_file_name(idx: usize) -> (r: String)
    ensures
        r@ == leaf_file(idx as nat),
{
    let mut r = String::from_str("leaf_");
    push_dec(&mut r, idx as u64);
    r.append(".proof");
    r
}

/// The file name of the proof of node `node_idx` at `level`.
pub fn tree_file_name(level: usize, node_idx: usize) -> (r: String)
    ensures
        r@ == tree_file(level as nat, node_idx as nat),
{
    let mut r = String::from_str("tree_L");
    push_dec(&mut r, level as u64);
    r.append("_N");
    push_dec(&mut r, node_idx as u64);
    r.append(".proof");
    r
}

/// The file name of the reduction proof of the leaves `lo..=hi`.
pub fn reduction_file_name(lo: usize, hi: usize) -> (r: String)
    ensures
        r@ == reduction_file(lo as nat, hi as nat),
{
    let mut r = String::from_str("reduction_");
    push_dec(&mut r, lo as u64);
    r.append("_");
    push_dec(&mut r, hi as u64);
    r.append(".proof");
    r
}

/// The directories that a process works with, each with its optional override.
#[derive(Debug, Default)]
pub struct Locations {
    proof_dir_override: Option<String>,
    prestate_corpus_override: Option<String>,
    circuit_artifact_dir_override: Option<String>,
}

/// The text of an optional string.
pub open spec fn opt_text(s: Option<String>) -> Option<Seq<char>> {
    match s {
        Some(t) => Some(t@),
        None => None,
    }
}

impl Locations {
    pub closed spec fn proof_override(&self) -> Option<Seq<char>> {
        opt_text(self.proof_dir_override)
    }

    pub closed spec fn corpus_override(&self) -> Option<Seq<char>> {
        opt_text(self.prestate_corpus_override)
    }

    pub closed spec fn artifact_override(&self) -> Option<Seq<char>> {
        opt_text(self.circuit_artifact_dir_override)
    }

    /// The proof directory in force.
    pub open spec fn proof_root(&self) -> Seq<char> {
        match self.proof_override() {
            Some(dir) => dir,
            None => PROOF_DIR@,
        }
    }

    /// Locations without any override.
    pub fn new() -> (r: Self)
        ensures
            r.proof_override() is None,
            r.corpus_override() is None,
            r.artifact_override() is None,
    {
        Locations {
            proof_dir_override: None,
            prestate_corpus_override: None,
            circuit_artifact_dir_override: None,
        }
    }

    /// The proof directory in force: the override, or the default.
    pub fn proof_dir(&self) -> (r: String)
        ensures
            r@ == self.proof_root(),
    {
        match &self.proof_dir_override {
            Some(dir) => dir.clone(),
            None => String::from_str(PROOF_DIR),
        }
    }

    /// Sets the override of the proof directory, or clears it.
    pub fn set_proof_dir(&mut self, dir: Option<String>)
        ensures
            final(self).proof_override() == opt_text(dir),
            final(self).corpus_override() == old(self).corpus_override(),
            final(self).artifact_override() == old(self).artifact_override(),
    {
        self.proof_dir_override = dir;
    }

    /// Sets the override of the pre-state corpus, or clears it.
    pub fn set_prestate_corpus_path(&mut self, path: Option<String>)
        ensures
            final(self).corpus_override() == opt_text(path),
            final(self).proof_override() == old(self).proof_override(),
            final(self).artifact_override() == old(self).artifact_override(),
    {
        self.prestate_corpus_override = path;
    }

    /// Sets the override of the artifact directory, or clears it.
    pub fn set_circuit_artifact_dir(&mut self, path: Option<String>)
        ensures
            final(self).artifact_override() == opt_text(path),
            final(self).proof_override() == old(self).proof_override(),
            final(self).corpus_override() == old(self).corpus_override(),
    {
        self.circuit_artifact_dir_override = path;
    }

    /// The path of the proof of leaf `idx`.
    pub fn leaf_proof_path(&self, idx: usize) -> (r: String)
        ensures
            r@ == joined_path(self.proof_root(), leaf_file(idx as nat)),
    {
        let dir: String = self.proof_dir();
        let file: String = leaf_file_name(idx);
        join_path(dir.as_str(), file.as_str())
    }

    /// The path of the proof of node `node_idx` at `level`.
    pub fn tree_proof_path(&self, level: usize, node_idx: usize) -> (r: String)
        ensures
            r@ == joined_path(self.proof_root(), tree_file(level as nat, node_idx as nat)),
    {
        let dir: String = self.proof_dir();
        let file: String = tree_file_name(level, node_idx);
        join_path(dir.as_str(), file.as_str())
    }

    /// The path of the reduction proof of the leaves `lo..=hi`.
    pub fn reduction_proof_path(&self, lo: usize, hi: usize) -> (r: String)
        ensures
            r@ == joined_path(self.proof_root(), reduction_file(lo as nat, hi as nat)),
    {
        let dir: String = self.proof_dir();
        let file: String = reduction_file_name(lo, hi);
        join_path(dir.as_str(), file.as_str())
    }

    /// The pre-state corpus in force: the override, a nonempty environment
    /// setting, the raw and then the compressed corpus of the image where they
    /// exist, or the committed one.
    pub fn prestate_corpus_path(
        &self,
        env: Option<String>,
        raw_mount_exists: bool,
        gz_mount_exists: bool,
    ) -> (r: String)
        ensures
            r@ == corpus_path(
                self.corpus_override(),
                opt_text(env),
                raw_mount_exists,
                gz_mount_exists,
            ),
    {
        match &self.prestate_corpus_override {
            Some(p) => {
                return p.clone();
            },
            None => {},
        }
        match env {
            Some(p) => {
                if !p.as_str().is_empty() {
                    return p;
                }
            },
            None => {},
        }
        if raw_mount_exists {
            return String::from_str("/data/captured_corpus.json");
        }
        if gz_mount_exists {
            return String::from_str("/data/captured_corpus.gz");
        }
        String::from_str(PRESTATE_CORPUS_DEFAULT)
    }

    /// The artifact directory in force: the override, a nonempty environment
    /// setting, the image's or the checkout's directory where it exists, or none.
    pub fn circuit_artifact_dir(
        &self,
        env: Option<String>,
        mount_exists: bool,
        local_exists: bool,
    ) -> (r: Option<String>)
        ensures
            opt_text(r) == artifact_dir(
                self.artifact_override(),
                opt_text(env),
                mount_exists,
                local_exists,
            ),
    {
        match &self.circuit_artifact_dir_override {
            Some(p) => {
                return Some(p.clone());
            },
            None => {},
        }
        match env {
            Some(p) => {
                if !p.as_str().is_empty() {
                    return Some(p);
                }
            },
            None => {},
        }
        if mount_exists {
            return Some(String::from_str("/data/circuits"));
        }
        if local_exists {
            return Some(String::from_str("bench/circuits"));
        }
        None
    }
}

/// Which pre-state corpus is in force.
pub open spec fn corpus_path(
    over: Option<Seq<char>>,
    env: Option<Seq<char>>,
    raw_mount_exists: bool,
    gz_mount_exists: bool,
) -> Seq<char> {
    if over is Some {
        over->0
    } else if env is Some && env->0.len() > 0 {
        env->0
    } else if raw_mount_exists {
        "/data/captured_corpus.json"@
    } else if gz_mount_exists {
        "/data/captured_corpus.gz"@
    } else {
        PRESTATE_CORPUS_DEFAULT@
    }
}

/// Which artifact directory is in force.
pub open spec fn artifact_dir(
    over: Option<Seq<char>>,
    env: Option<Seq<char>>,
    mount_exists: bool,
    local_exists: bool,
) -> Option<Seq<char>> {
    if over is Some {
        over
    } else if env is Some && env->0.len() > 0 {
        env
    } else if mount_exists {
        Some("/data/circuits"@)
    } else if local_exists {
        Some("bench/circuits"@)
    } else {
        None
    }
}

/// The file name of the artifact `kind`.
pub open spec fn artifact_file(kind: Seq<char>) -> Seq<char> {
    kind + "."@ + CIRCUIT_ARTIFACT_VERSION@ + ".circuit"@
}

/// The version-stamped file name of the artifact `kind`.
pub fn artifact_filename(kind: &str) -> (r: String)
    ensures
        r@ == artifact_file(kind@),
{
    let mut r: String = kind.to_owned();
    r.append(".");
    r.append(CIRCUIT_ARTIFACT_VERSION);
    r.append(".circuit");
    r
}

/// The path of the artifact `kind` in `dir`, or none where no directory is
/// configured.
pub fn artifact_path(dir: Option<String>, kind: &str) -> (r: Option<String>)
    ensures
        match dir {
            Some(d) => r is Some && r->0@ == joined_path(d@, artifact_file(kind@)),
            None => r is None,
        },
{
    match dir {
        Some(d) => {
            let file: String = artifact_filename(kind);
            Some(join_path(d.as_str(), file.as_str()))
        },
        None => None,
    }
}

/// The name of the transaction circuit's artifact for `tx_per_proof`
/// transactions per leaf.
pub fn block_tx_artifact(tx_per_proof: usize) -> (r: String)
    ensures
        r@ == "block_tx_s"@ + dec(tx_per_proof as nat),
{
    let mut r = String::from_str("block_tx_s");
    push_dec(&mut r, tx_per_proof as u64);
    r
}

/// Where the benchmark block is read from: the image, the checkout, or the
/// working directory.
pub fn test_block_path(mount_exists: bool, checkout_exists: bool) -> (r: &'static str)
    ensures
        r@ == if mount_exists {
            "/data/bench_test.json"@
        } else if checkout_exists {
            "bench/bench_test.json"@
        } else {
            "bench_test.json"@
        },
{
    if mount_exists {
        "/data/bench_test.json"
    } else if checkout_exists {
        "bench/bench_test.json"
    } else {
        "bench_test.json"
    }
}

/// The object prefix of replay `replay_idx` out of `blocks` under `base`.
pub open spec fn replay_prefix(base: Seq<char>, replay_idx: nat, blocks: nat) -> Seq<char> {
    if blocks <= 1 {
        base
    } else if base.len() == 0 {
        "block_"@ + dec(replay_idx) + "/"@
    } else if base.last() == '/' {
        base + "block_"@ + dec(replay_idx) + "/"@
    } else {
        base + "/block_"@ + dec(replay_idx) + "/"@
    }
}

/// The object prefix of replay `replay_idx` under `base`: `base` itself for a
/// single replay, and a directory of its own for each of several.
pub fn replay_object_prefix(base: &str, replay_idx: usize, blocks: usize) -> (r: String)
    ensures
        r@ == replay_prefix(base@, replay_idx as nat, blocks as nat),
{
    if blocks <= 1 {
        return base.to_owned();
    }
    let n: usize = base.unicode_len();
    let mut r: String;
    if n == 0 {
        r = String::from_str("block_");
    } else if base.get_char(n - 1) == '/' {
        r = base.to_owned();
        r.append("block_");
    } else {
        r = base.to_owned();
        r.append("/block_");
    }
    push_dec(&mut r, replay_idx as u64);
    r.append("/");
    r
}

/// The proof store of replay `replay` out of `blocks`: the default directory for
/// a single replay, and a directory below it for each of several.
pub fn replay_store_dir(replay: usize, blocks: usize) -> (r: String)
    ensures
        r@ == store_dir(replay as nat, blocks as nat),
{
    let mut r = String::from_str(PROOF_DIR);
    if blocks > 1 {
        r.append("/block_");
        push_dec(&mut r, replay as u64);
    }
    r
}

/// The proof store of a replay.
pub open spec fn store_dir(replay: nat, blocks: nat) -> Seq<char> {
    if blocks <= 1 {
        PROOF_DIR@
    } else {
        PROOF_DIR@ + "/block_"@ + dec(replay)
    }
}

/// Replays of one run never share an object prefix.
pub proof fn replays_have_distinct_prefixes(base: Seq<char>, a: nat, b: nat, blocks: nat)
    requires
        blocks > 1,
        a != b,
    ensures
        replay_prefix(base, a, blocks) != replay_prefix(base, b, blocks),
{
    reveal_strlit("/");
    if replay_prefix(base, a, blocks) == replay_prefix(base, b, blocks) {
        let head = if base.len() == 0 {
            "block_"@
        } else if base.last() == '/' {
            base + "block_"@
        } else {
            base + "/block_"@
        };
        let (pa, pb) = (replay_prefix(base, a, blocks), replay_prefix(base, b, blocks));
        assert(pa =~= head + (dec(a) + "/"@));
        assert(pb =~= head + (dec(b) + "/"@));
        assert(dec(a) + "/"@ =~= pa.subrange(head.len() as int, pa.len() as int));
        assert(dec(b) + "/"@ =~= pb.subrange(head.len() as int, pb.len() as int));
        lemma_dec(a);
        lemma_dec(b);
        lemma_cut_at(dec(a), "/"@, dec(b), "/"@, '/');
        lemma_dec_injective(a, b);
    }
}

/// Replays of one run never share a proof store.
pub proof fn replays_have_distinct_stores(a: nat, b: nat, blocks: nat)
    requires
        blocks > 1,
        a != b,
    ensures
        store_dir(a, blocks) != store_dir(b, blocks),
{
    if store_dir(a, blocks) == store_dir(b, blocks) {
        let head = PROOF_DIR@ + "/block_"@;
        assert(dec(a) =~= store_dir(a, blocks).subrange(
            head.len() as int,
            store_dir(a, blocks).len() as int,
        ));
        assert(dec(b) =~= store_dir(b, blocks).subrange(
            head.len() as int,
            store_dir(b, blocks).len() as int,
        ));
        lemma_dec_injective(a, b);
    }
}

/// `s`, or `other` where it is empty.
pub open spec fn or_else_text(s: Seq<char>, other: Seq<char>) -> Seq<char> {
    if s.len() == 0 {
        other
    } else {
        s
    }
}

fn or_else<'a>(s: &'a str, other: &'a str) -> (r: &'a str)
    ensures
        r@ == or_else_text(s@, other@),
{
    if s.is_empty() {
        other
    } else {
        s
    }
}

/// The endpoint of the message-queue transport in one line. A setting that comes
/// from the environment is shown as `<env>`.
pub fn transport_summary_pubsub(
    topic: &str,
    subscription: &str,
    bucket: &str,
    prefix: &str,
) -> (r: String)
    ensures
        r@ == "transport=pubsub topic="@ + or_else_text(topic@, "<env>"@) + " sub="@ + or_else_text(
            subscription@,
            "<env>"@,
        ) + " bucket="@ + or_else_text(bucket@, "<env>"@) + " prefix="@ + or_else_text(
            prefix@,
            "<none>"@,
        ) + "."@,
{
    let mut r = String::from_str("transport=pubsub topic=");
    r.append(or_else(topic, "<env>"));
    r.append(" sub=");
    r.append(or_else(subscription, "<env>"));
    r.append(" bucket=");
    r.append(or_else(bucket, "<env>"));
    r.append(" prefix=");
    r.append(or_else(prefix, "<none>"));
    r.append(".");
    r
}

/// The identity of a worker: its host name, or its process id where the host
/// name is missing or blank.
pub fn worker_identity(hostname: Option<String>, process_id: u32) -> (r: String)
    ensures
        r@ == match hostname {
            Some(h) if trimmed(h@).len() > 0 => h@,
            _ => "pid-"@ + dec(process_id as nat),
        },
{
    match hostname {
        Some(h) => {
            if !trim(h.as_str()).is_empty() {
                return h;
            }
        },
        None => {},
    }
    let mut r = String::from_str("pid-");
    push_dec(&mut r, process_id as u64);
    r
}

/// A setting of the message-queue transport: the flag, or the environment where
/// the flag is blank.
pub fn flag_or_env(flag: String, env: Option<String>) -> (r: String)
    ensures
        r@ == if trimmed(flag@).len() > 0 {
            flag@
        } else {
            match env {
                Some(v) => v@,
                None => Seq::empty(),
            }
        },
{
    if !trim(flag.as_str()).is_empty() {
        return flag;
    }
    match env {
        Some(v) => v,
        None => String::new(),
    }
}

/// The acknowledgement deadline in force: the environment's, where it is set and
/// the flag was left at its default of 180 seconds.
pub fn resolve_ack_deadline(flag: i32, env: Option<i32>) -> (r: i32)
    ensures
        r == match env {
            Some(v) if flag == 180 => v,
            _ => flag,
        },
{
    match env {
        Some(v) => if flag == 180 {
            v
        } else {
            flag
        },
        None => flag,
    }
}

/// The nearest setting wins: an override over the environment, the environment over
/// what is mounted, the raw corpus over the packed one, and the committed one last. An
/// empty setting counts as none.
pub proof fn the_nearest_corpus_wins(over: Seq<char>, env: Seq<char>, raw: bool, gz: bool)
    requires
        env.len() > 0,
    ensures
        corpus_path(Some(over), Some(env), raw, gz) == over,
        corpus_path(None, Some(env), raw, gz) == env,
        corpus_path(None, Some(Seq::<char>::empty()), raw, gz) == corpus_path(None, None, raw, gz),
        corpus_path(None, None, true, gz) == "/data/captured_corpus.json"@,
        corpus_path(None, None, false, true) == "/data/captured_corpus.gz"@,
        corpus_path(None, None, false, false) == "bench/corpus/cap-block/captured_corpus.gz"@,
        artifact_dir(Some(over), Some(env), raw, gz) == Some(over),
        artifact_dir(None, Some(env), raw, gz) == Some(env),
        artifact_dir(None, Some(Seq::<char>::empty()), raw, gz) == artifact_dir(None, None, raw, gz),
        artifact_dir(None, None, true, gz) == Some("/data/circuits"@),
        artifact_dir(None, None, false, true) == Some("bench/circuits"@),
        artifact_dir(None, None, false, false) is None,
{
}

} // verus!
