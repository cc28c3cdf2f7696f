//! The proof store: object keys, the two transports (a mounted bucket and the
//! `gcloud storage` command line), and the wait for a proof written elsewhere.

use crate::text::{
    dec, join_path, joined_path, lemma_cut_at, lemma_dec, lemma_dec_injective, push_dec, trim, trimmed,
};
use vstd::prelude::*;
use vstd::string::*;

verus! {

/// The key text of a leaf proof: `{height}/{witness_index}`.
pub open spec fn proof_key(height: nat, witness_index: nat) -> Seq<char> {
    dec(height) + "/"@ + dec(witness_index)
}

/// The key text of a merge proof: `{height}/m/{level}/{index}`.
pub open spec fn merge_key(height: nat, level: nat, index: nat) -> Seq<char> {
    dec(height) + "/m/"@ + dec(level) + "/"@ + dec(index)
}

/// The object key of a leaf proof.
pub fn proof_object_key(height: u64, witness_index: u64) -> (r: String)
    ensures
        r@ == proof_key(height as nat, witness_index as nat),
{
    let mut r = String::new();
    push_dec(&mut r, height);
    assert(r@ =~= dec(height as nat));
    r.append("/");
    push_dec(&mut r, witness_index);
    r
}

/// The object key of an intermediate merge proof. `level` counts from 1 (level 1
/// folds the leaves) and `index` is the position of the pair within its level.
pub fn merge_object_key(height: u64, level: u64, index: u64) -> (r: String)
    ensures
        r@ == merge_key(height as nat, level as nat, index as nat),
{
    let mut r = String::new();
    push_dec(&mut r, height);
    assert(r@ =~= dec(height as nat));
    r.append("/m/");
    push_dec(&mut r, level);
    r.append("/");
    push_dec(&mut r, index);
    r
}

proof fn lemma_numeral_has_no_slash(n: nat)
    ensures
        forall|i: int| 0 <= i < dec(n).len() ==> #[trigger] dec(n)[i] != '/',
{
    lemma_dec(n);
}

/// Two leaf proofs share a key only if they are the same leaf of the same block.
pub proof fn proof_keys_are_distinct(h1: nat, w1: nat, h2: nat, w2: nat)
    requires
        proof_key(h1, w1) == proof_key(h2, w2),
    ensures
        h1 == h2,
        w1 == w2,
{
    reveal_strlit("/");
    lemma_numeral_has_no_slash(h1);
    lemma_numeral_has_no_slash(h2);
    let (r1, r2) = ("/"@ + dec(w1), "/"@ + dec(w2));
    assert(proof_key(h1, w1) =~= dec(h1) + r1);
    assert(proof_key(h2, w2) =~= dec(h2) + r2);
    lemma_cut_at(dec(h1), r1, dec(h2), r2, '/');
    assert(dec(w1) =~= r1.subrange(1, r1.len() as int));
    assert(dec(w2) =~= r2.subrange(1, r2.len() as int));
    lemma_dec_injective(h1, h2);
    lemma_dec_injective(w1, w2);
}

/// Two merge proofs share a key only if they are the same pair of the same level
/// of the same block.
pub proof fn merge_keys_are_distinct(h1: nat, l1: nat, i1: nat, h2: nat, l2: nat, i2: nat)
    requires
        merge_key(h1, l1, i1) == merge_key(h2, l2, i2),
    ensures
        h1 == h2,
        l1 == l2,
        i1 == i2,
{
    reveal_strlit("/");
    reveal_strlit("/m/");
    lemma_numeral_has_no_slash(h1);
    lemma_numeral_has_no_slash(h2);
    lemma_numeral_has_no_slash(l1);
    lemma_numeral_has_no_slash(l2);
    let (t1, t2) = ("/"@ + dec(i1), "/"@ + dec(i2));
    let (r1, r2) = ("/m/"@ + dec(l1) + t1, "/m/"@ + dec(l2) + t2);
    assert(merge_key(h1, l1, i1) =~= dec(h1) + r1);
    assert(merge_key(h2, l2, i2) =~= dec(h2) + r2);
    lemma_cut_at(dec(h1), r1, dec(h2), r2, '/');
    assert(dec(l1) + t1 =~= r1.subrange(3, r1.len() as int));
    assert(dec(l2) + t2 =~= r2.subrange(3, r2.len() as int));
    lemma_cut_at(dec(l1), t1, dec(l2), t2, '/');
    assert(dec(i1) =~= t1.subrange(1, t1.len() as int));
    assert(dec(i2) =~= t2.subrange(1, t2.len() as int));
    lemma_dec_injective(h1, h2);
    lemma_dec_injective(l1, l2);
    lemma_dec_injective(i1, i2);
}

/// A merge key never equals a leaf key, of whichever blocks.
pub proof fn merge_keys_avoid_leaf_keys(h1: nat, level: nat, index: nat, h2: nat, witness_index: nat)
    ensures
        merge_key(h1, level, index) != proof_key(h2, witness_index),
{
    reveal_strlit("/");
    reveal_strlit("/m/");
    lemma_numeral_has_no_slash(h1);
    lemma_numeral_has_no_slash(h2);
    lemma_dec(witness_index);
    if merge_key(h1, level, index) == proof_key(h2, witness_index) {
        let r1 = "/m/"@ + (dec(level) + "/"@ + dec(index));
        let r2 = "/"@ + dec(witness_index);
        assert(merge_key(h1, level, index) =~= dec(h1) + r1);
        assert(proof_key(h2, witness_index) =~= dec(h2) + r2);
        lemma_cut_at(dec(h1), r1, dec(h2), r2, '/');
        assert(r1[1] == 'm');
        assert(r2[1] == dec(witness_index)[0]);
    }
}

/// Where the proof store is. Without a bucket and without a mount it is off.
#[derive(Debug, Clone)]
pub struct StorageConfig {
    /// The bucket's name.
    pub bucket: String,
    /// The `gcloud` program.
    pub gcloud_bin: String,
    /// The directory where the bucket is mounted. Where it is set, objects are
    /// files below it, and the command line is not used.
    pub mount_path: String,
}

/// Whether `s` holds anything but white space.
pub open spec fn filled(s: Seq<char>) -> bool {
    trimmed(s).len() > 0
}

/// The texts of a list of strings.
pub open spec fn texts(v: Seq<String>) -> Seq<Seq<char>> {
    v.map_values(|s: String| s@)
}

impl StorageConfig {
    /// The object's address in the bucket.
    pub open spec fn uri(&self, key: Seq<char>) -> Seq<char> {
        "gs://"@ + self.bucket@ + "/"@ + key
    }

    /// Whether there is a proof store at all.
    pub fn enabled(&self) -> (r: bool)
        ensures
            r == (filled(self.bucket@) || filled(self.mount_path@)),
    {
        !trim(self.bucket.as_str()).is_empty() || self.mount_enabled()
    }

    /// Whether objects are files below a mount.
    pub fn mount_enabled(&self) -> (r: bool)
        ensures
            r == filled(self.mount_path@),
    {
        !trim(self.mount_path.as_str()).is_empty()
    }

    /// The file of the object `key` below the mount.
    pub fn mount_object_path(&self, key: &str) -> (r: String)
        ensures
            r@ == joined_path(trimmed(self.mount_path@), key@),
    {
        join_path(trim(self.mount_path.as_str()), key)
    }

    /// `gs://{bucket}/{key}`.
    pub fn gcs_uri(&self, key: &str) -> (r: String)
        ensures
            r@ == self.uri(key@),
    {
        let mut r = String::from_str("gs://");
        r.append(self.bucket.as_str());
        r.append("/");
        r.append(key);
        r
    }

    /// The arguments that copy `local_path` to the object `key`.
    pub fn cp_to_gcs_argv(&self, local_path: &str, key: &str) -> (r: Vec<String>)
        ensures
            texts(r@) == seq!["storage"@, "cp"@, "--quiet"@, local_path@, self.uri(key@)],
    {
        let mut r: Vec<String> = Vec::new();
        r.push(String::from_str("storage"));
        r.push(String::from_str("cp"));
        r.push(String::from_str("--quiet"));
        r.push(local_path.to_owned());
        r.push(self.gcs_uri(key));
        assert(texts(r@) =~= seq!["storage"@, "cp"@, "--quiet"@, local_path@, self.uri(key@)]);
        r
    }

    /// The arguments that copy the object `key` to `local_path`.
    pub fn cp_from_gcs_argv(&self, key: &str, local_path: &str) -> (r: Vec<String>)
        ensures
            texts(r@) == seq!["storage"@, "cp"@, "--quiet"@, self.uri(key@), local_path@],
    {
        let mut r: Vec<String> = Vec::new();
        r.push(String::from_str("storage"));
        r.push(String::from_str("cp"));
        r.push(String::from_str("--quiet"));
        r.push(self.gcs_uri(key));
        r.push(local_path.to_owned());
        assert(texts(r@) =~= seq!["storage"@, "cp"@, "--quiet"@, self.uri(key@), local_path@]);
        r
    }
}

/// A download reads from where an upload wrote to exactly if they have the same
/// key.
pub proof fn download_reads_what_upload_wrote(
    up: Seq<Seq<char>>,
    down: Seq<Seq<char>>,
    cfg: StorageConfig,
    written: Seq<char>,
    read: Seq<char>,
    from: Seq<char>,
    to: Seq<char>,
)
    requires
        up == seq!["storage"@, "cp"@, "--quiet"@, from, cfg.uri(written)],
        down == seq!["storage"@, "cp"@, "--quiet"@, cfg.uri(read), to],
    ensures
        up[4] == down[3] <==> written == read,
{
    let head = "gs://"@ + cfg.bucket@ + "/"@;
    let (a, b) = (cfg.uri(written), cfg.uri(read));
    assert(written =~= a.subrange(head.len() as int, a.len() as int));
    assert(read =~= b.subrange(head.len() as int, b.len() as int));
}

/// `s` with every `/` replaced by `_`.
pub open spec fn flattened(s: Seq<char>) -> Seq<char> {
    s.map_values(
        |c: char|
            if c == '/' {
                '_'
            } else {
                c
            },
    )
}

fn flatten_key(key: &str) -> (r: String)
    ensures
        r@ == flattened(key@),
{
    let n: usize = key.unicode_len();
    let mut r = String::new();
    let mut i: usize = 0;
    proof {
        reveal_strlit("_");
        assert(flattened(key@.take(0)) =~= Seq::<char>::empty());
    }
    while i < n
        invariant
            i <= n == key@.len(),
            r@ == flattened(key@.take(i as int)),
            "_"@ =~= seq!['_'],
        decreases n - i,
    {
        if key.get_char(i) == '/' {
            r.append("_");
        } else {
            r.append(key.substring_char(i, i + 1));
        }
        assert(r@ =~= flattened(key@.take(i + 1)));
        i = i + 1;
    }
    assert(key@.take(n as int) =~= key@);
    r
}

/// What stands behind the last `/` of `s`.
pub open spec fn last_segment(s: Seq<char>) -> Seq<char>
    decreases s.len(),
{
    if s.len() == 0 || s.last() == '/' {
        Seq::empty()
    } else {
        last_segment(s.drop_last()).push(s.last())
    }
}

fn last_part(key: &str) -> (r: &str)
    ensures
        r@ == last_segment(key@),
{
    let n: usize = key.unicode_len();
    let mut i: usize = n;
    proof {
        assert(key@.take(n as int) =~= key@);
        assert(last_segment(key@.take(n as int)) + key@.subrange(n as int, n as int) =~= last_segment(
            key@,
        ));
    }
    while i > 0 && key.get_char(i - 1) != '/'
        invariant
            i <= n == key@.len(),
            last_segment(key@) == last_segment(key@.take(i as int)) + key@.subrange(
                i as int,
                n as int,
            ),
        decreases i,
    {
        proof {
            let head = key@.take(i as int);
            assert(head.drop_last() =~= key@.take(i - 1));
            assert(last_segment(head) + key@.subrange(i as int, n as int) =~= last_segment(
                key@.take(i - 1),
            ) + key@.subrange(i - 1, n as int));
        }
        i = i - 1;
    }
    proof {
        let head = key@.take(i as int);
        assert(last_segment(head) =~= Seq::<char>::empty());
        assert(last_segment(key@) =~= key@.subrange(i as int, n as int));
    }
    key.substring_char(i, n)
}

/// How an object is written.
#[derive(Debug, PartialEq, Eq)]
pub enum UploadPlan {
    /// Write `temp_name` in the directory of `dest`, then rename it to `dest`.
    Mount { dest: String, temp_name: String },
    /// Stage the bytes in the temporary directory under `temp_name`, then run
    /// the copy command.
    Command { temp_name: String },
}

/// How an object is read.
#[derive(Debug, PartialEq, Eq)]
pub enum DownloadPlan {
    /// Read this file.
    Mount { path: String },
    /// Run the copy command to `temp_name` in the temporary directory, then read
    /// that.
    Command { temp_name: String },
}

/// The proof store.
#[derive(Debug, Clone)]
pub struct GcloudStorage {
    cfg: StorageConfig,
}

/// The name of the temporary file next to the mounted object `key`.
pub open spec fn mount_temp_name(key: Seq<char>, process_id: nat) -> Seq<char> {
    ".lighter-proof-tmp-"@ + last_segment(key) + "-"@ + dec(process_id)
}

/// The name of a staging file, with `head` for its purpose.
pub open spec fn stage_name(head: Seq<char>, key: Seq<char>, process_id: nat) -> Seq<char> {
    head + flattened(key) + "-"@ + dec(process_id) + ".bin"@
}

fn stage_file(head: &str, key: &str, process_id: u32) -> (r: String)
    ensures
        r@ == stage_name(head@, key@, process_id as nat),
{
    let mut r: String = head.to_owned();
    let flat: String = flatten_key(key);
    r.append(flat.as_str());
    r.append("-");
    push_dec(&mut r, process_id as u64);
    r.append(".bin");
    r
}

impl GcloudStorage {
    pub closed spec fn cfg(&self) -> StorageConfig {
        self.cfg
    }

    pub fn new(cfg: StorageConfig) -> (r: Self)
        ensures
            r.cfg() == cfg,
    {
        GcloudStorage { cfg }
    }

    pub fn config(&self) -> (r: &StorageConfig)
        ensures
            *r == self.cfg(),
    {
        &self.cfg
    }

    /// How to write the object `key`: below the mount where there is one, else
    /// with the command line. A store that is off refuses.
    pub fn upload(&self, key: &str, process_id: u32) -> (r: Result<UploadPlan, String>)
        ensures
            if filled(self.cfg().mount_path@) {
                match r {
                    Ok(UploadPlan::Mount { dest, temp_name }) => dest@ == joined_path(
                        trimmed(self.cfg().mount_path@),
                        key@,
                    ) && temp_name@ == mount_temp_name(key@, process_id as nat),
                    _ => false,
                }
            } else if filled(self.cfg().bucket@) {
                match r {
                    Ok(UploadPlan::Command { temp_name }) => temp_name@ == stage_name(
                        "lighter-proof-"@,
                        key@,
                        process_id as nat,
                    ),
                    _ => false,
                }
            } else {
                r is Err && r->Err_0@
                    == "proof store disabled (no bucket or mount configured); refusing to upload"@
            },
    {
        if !self.cfg.enabled() {
            return Err(
                String::from_str(
                    "proof store disabled (no bucket or mount configured); refusing to upload",
                ),
            );
        }
        if self.cfg.mount_enabled() {
            let mut temp_name = String::from_str(".lighter-proof-tmp-");
            temp_name.append(last_part(key));
            temp_name.append("-");
            push_dec(&mut temp_name, process_id as u64);
            return Ok(UploadPlan::Mount { dest: self.cfg.mount_object_path(key), temp_name });
        }
        Ok(UploadPlan::Command { temp_name: stage_file("lighter-proof-", key, process_id) })
    }

    /// What an upload by the command line came to: the key, or the command's
    /// complaint.
    pub fn uploaded(&self, key: &str, success: bool, stderr: &str) -> (r: Result<String, String>)
        ensures
            match r {
                Ok(k) => success && k@ == key@,
                Err(e) => !success && e@ == "gcloud storage cp to "@ + self.cfg().uri(key@)
                    + " failed: "@ + trimmed(stderr@),
            },
    {
        if !success {
            let mut e = String::from_str("gcloud storage cp to ");
            let uri: String = self.cfg.gcs_uri(key);
            e.append(uri.as_str());
            e.append(" failed: ");
            e.append(trim(stderr));
            return Err(e);
        }
        Ok(key.to_owned())
    }

    /// How to read the object `key`: below the mount where there is one, else
    /// with the command line. A store that is off refuses.
    pub fn download(&self, key: &str, process_id: u32) -> (r: Result<DownloadPlan, String>)
        ensures
            if filled(self.cfg().mount_path@) {
                match r {
                    Ok(DownloadPlan::Mount { path }) => path@ == joined_path(
                        trimmed(self.cfg().mount_path@),
                        key@,
                    ),
                    _ => false,
                }
            } else if filled(self.cfg().bucket@) {
                match r {
                    Ok(DownloadPlan::Command { temp_name }) => temp_name@ == stage_name(
                        "lighter-proof-dl-"@,
                        key@,
                        process_id as nat,
                    ),
                    _ => false,
                }
            } else {
                r is Err && r->Err_0@
                    == "proof store disabled (no bucket or mount configured); refusing to download"@
            },
    {
        if !self.cfg.enabled() {
            return Err(
                String::from_str(
                    "proof store disabled (no bucket or mount configured); refusing to download",
                ),
            );
        }
        if self.cfg.mount_enabled() {
            return Ok(DownloadPlan::Mount { path: self.cfg.mount_object_path(key) });
        }
        Ok(DownloadPlan::Command { temp_name: stage_file("lighter-proof-dl-", key, process_id) })
    }

    /// The complaint of a copy command that could not fetch the object `key`.
    pub fn download_failure(&self, key: &str, stderr: &str) -> (r: String)
        ensures
            r@ == "gcloud storage cp from "@ + self.cfg().uri(key@) + " failed: "@ + trimmed(stderr@),
    {
        let mut e = String::from_str("gcloud storage cp from ");
        let uri: String = self.cfg.gcs_uri(key);
        e.append(uri.as_str());
        e.append(" failed: ");
        e.append(trim(stderr));
        e
    }

    /// Starts waiting until the object `key` can be read, for at most
    /// `deadline_ns`, with pauses of `poll_ns`.
    pub fn wait_for_object(&self, key: &str, deadline_ns: u64, poll_ns: u64) -> (r: ObjectWait)
        ensures
            r.key@ == key@,
            r.deadline_ns == deadline_ns,
            r.poll_ns == poll_ns,
            r.attempts == 0,
    {
        ObjectWait { key: key.to_owned(), deadline_ns, poll_ns, attempts: 0 }
    }
}

/// On a mounted store an object is read from where one was written exactly if they
/// have the same key. Keys do not begin with a slash, which would lead out of the
/// mount.
pub proof fn mounted_objects_are_read_where_written(
    up: UploadPlan,
    down: DownloadPlan,
    root: Seq<char>,
    written: Seq<char>,
    read: Seq<char>,
)
    requires
        up matches UploadPlan::Mount { dest, .. } && dest@ == joined_path(root, written),
        down matches DownloadPlan::Mount { path } && path@ == joined_path(root, read),
        written.len() > 0 ==> written[0] != '/',
        read.len() > 0 ==> read[0] != '/',
    ensures
        up->dest@ == down->path@ <==> written == read,
{
    let head = if root.len() == 0 || root.last() == '/' {
        root
    } else {
        root + "/"@
    };
    let (a, b) = (joined_path(root, written), joined_path(root, read));
    assert(written =~= a.subrange(head.len() as int, a.len() as int));
    assert(read =~= b.subrange(head.len() as int, b.len() as int));
}

/// Staging files of different keys are different files, for keys without an
/// underscore, as all object keys are.
pub proof fn stage_names_are_distinct(head: Seq<char>, a: Seq<char>, b: Seq<char>, process_id: nat)
    requires
        forall|i: int| 0 <= i < a.len() ==> #[trigger] a[i] != '_',
        forall|i: int| 0 <= i < b.len() ==> #[trigger] b[i] != '_',
        stage_name(head, a, process_id) == stage_name(head, b, process_id),
    ensures
        a == b,
{
    let (x, y) = (stage_name(head, a, process_id), stage_name(head, b, process_id));
    let n = head.len() as int;
    assert(x.len() == y.len());
    assert(x.subrange(n, n + a.len()) =~= flattened(a));
    assert(y.subrange(n, n + b.len()) =~= flattened(b));
    assert forall|i: int| 0 <= i < a.len() implies a[i] == b[i] by {
        assert(flattened(a)[i] == flattened(b)[i]);
        assert(a[i] != '_' && b[i] != '_');
    }
    assert(a =~= b);
}

/// The temporary files of two objects in one mounted directory are different
/// files.
pub proof fn mount_temp_names_are_distinct(a: Seq<char>, b: Seq<char>, process_id: nat)
    requires
        mount_temp_name(a, process_id) == mount_temp_name(b, process_id),
    ensures
        last_segment(a) == last_segment(b),
{
    let (x, y) = (mount_temp_name(a, process_id), mount_temp_name(b, process_id));
    let n = ".lighter-proof-tmp-"@.len() as int;
    assert(x.len() == y.len());
    assert(x.subrange(n, n + last_segment(a).len()) =~= last_segment(a));
    assert(y.subrange(n, n + last_segment(b).len()) =~= last_segment(b));
}

/// How long it took until an object could be read.
#[derive(Debug, Clone, Copy, PartialEq, Eq, Structural)]
pub struct VisibilityWait {
    /// Nanoseconds until the read that succeeded began; 0 for the first read.
    pub wait: u64,
    /// Nanoseconds of that read.
    pub read: u64,
    /// Reads that were tried.
    pub attempts: u64,
}

/// A wait for an object that another machine wrote.
#[derive(Debug)]
pub struct ObjectWait {
    pub key: String,
    pub deadline_ns: u64,
    pub poll_ns: u64,
    pub attempts: u64,
}

/// What to do after a read was tried.
#[derive(Debug)]
pub enum WaitStep {
    /// The object is here.
    Ready { bytes: Vec<u8>, wait: VisibilityWait },
    /// Pause for so many nanoseconds and try again.
    Retry { pause_ns: u64 },
    /// The deadline has passed.
    GaveUp { message: String },
}

/// Whether `step` is what follows a read in the wait `w`.
pub open spec fn wait_goes_on(
    w: ObjectWait,
    outcome: Result<Vec<u8>, String>,
    wait_ns: u64,
    read_ns: u64,
    elapsed_ns: u64,
    deadline_text: Seq<char>,
    step: WaitStep,
) -> bool {
    match outcome {
        Ok(got) => step == (WaitStep::Ready {
            bytes: got,
            wait: VisibilityWait {
                wait: if w.attempts == 0 {
                    0
                } else {
                    wait_ns
                },
                read: read_ns,
                attempts: (w.attempts + 1) as u64,
            },
        }),
        Err(e) => if elapsed_ns >= w.deadline_ns {
            step is GaveUp && step->message@ == not_visible_text(
                w.key@,
                w.attempts + 1,
                deadline_text,
                e@,
            )
        } else {
            step == (WaitStep::Retry { pause_ns: w.poll_ns })
        },
    }
}

/// A wait ends with the bytes that were read, or, past the deadline, with a failure;
/// it goes on only while there is time, and makes nothing up. What was there at once
/// was not waited for.
pub proof fn waits_end_with_what_was_read(
    w: ObjectWait,
    outcome: Result<Vec<u8>, String>,
    wait_ns: u64,
    read_ns: u64,
    elapsed_ns: u64,
    deadline_text: Seq<char>,
    step: WaitStep,
)
    requires
        wait_goes_on(w, outcome, wait_ns, read_ns, elapsed_ns, deadline_text, step),
        w.attempts < u64::MAX,
    ensures
        step is Ready <==> outcome is Ok,
        step matches WaitStep::Ready { bytes, wait } ==> outcome == Ok::<Vec<u8>, String>(bytes)
            && wait.read == read_ns && wait.attempts == w.attempts + 1 && (w.attempts == 0
            ==> wait.wait == 0) && (w.attempts > 0 ==> wait.wait == wait_ns),
        step is Retry <==> outcome is Err && elapsed_ns < w.deadline_ns,
        step is GaveUp <==> outcome is Err && elapsed_ns >= w.deadline_ns,
        step matches WaitStep::Retry { pause_ns } ==> pause_ns == w.poll_ns,
{
}

impl ObjectWait {
    /// Takes the outcome of a read: what it gave, when it began and how long it
    /// took, and how long the wait has lasted by now. `deadline_text` is the
    /// deadline in words.
    pub fn tried(
        &mut self,
        outcome: Result<Vec<u8>, String>,
        wait_ns: u64,
        read_ns: u64,
        elapsed_ns: u64,
        deadline_text: &str,
    ) -> (r: WaitStep)
        requires
            old(self).attempts < u64::MAX,
        ensures
            final(self).key@ == old(self).key@,
            final(self).deadline_ns == old(self).deadline_ns,
            final(self).poll_ns == old(self).poll_ns,
            final(self).attempts == old(self).attempts + 1,
            wait_goes_on(
                *old(self),
                outcome,
                wait_ns,
                read_ns,
                elapsed_ns,
                deadline_text@,
                r,
            ),
    {
        self.attempts = self.attempts + 1;
        match outcome {
            Ok(bytes) => {
                let wait: u64 = if self.attempts == 1 {
                    0
                } else {
                    wait_ns
                };
                WaitStep::Ready {
                    bytes,
                    wait: VisibilityWait { wait, read: read_ns, attempts: self.attempts },
                }
            },
            Err(e) => {
                if elapsed_ns >= self.deadline_ns {
                    let mut message = String::from_str("proof '");
                    message.append(self.key.as_str());
                    message.append("' not visible after ");
                    push_dec(&mut message, self.attempts);
                    message.append(" attempt(s) over ");
                    message.append(deadline_text);
                    message.append(
                        " (read-after-write visibility wait exceeded; honest-failure, no fabricated proof): ",
                    );
                    message.append(e.as_str());
                    WaitStep::GaveUp { message }
                } else {
                    WaitStep::Retry { pause_ns: self.poll_ns }
                }
            },
        }
    }
}

/// Why a wait was given up.
pub open spec fn not_visible_text(
    key: Seq<char>,
    attempts: int,
    deadline: Seq<char>,
    cause: Seq<char>,
) -> Seq<char> {
    "proof '"@ + key + "' not visible after "@ + dec(attempts as nat) + " attempt(s) over "@
        + deadline
        + " (read-after-write visibility wait exceeded; honest-failure, no fabricated proof): "@
        + cause
}

} // verus!
