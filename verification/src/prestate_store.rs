//! Reading a pre-state corpus: the wire form, its version, and its shapes.

use crate::account_family_tree::climbs;
use crate::hash::HashOut;
use crate::prestate::{
    ChunkPreState, EmptyIndexSiblingPaths, Ledger, PreStateSnapshots, TreeRoots,
    ACCOUNT_MERKLE_LEVELS, ASSET_LIST_SIZE, MARKET_MERKLE_LEVELS, POSITION_LIST_SIZE,
};
use crate::text::{chars_of, dec, position_from, push_dec, same_text};
use crate::text_map::TextMap;
use vstd::prelude::*;
use vstd::string::*;

verus! {

/// The corpus version that this reader supports. Versions with the same number
/// before the first dot can be read.
pub const CORPUS_SCHEMA_VERSION: &'static str = "1.0";

/// The version of a corpus that carries sibling paths.
pub const CORPUS_SCHEMA_VERSION_WITH_PATHS: &'static str = "1.1";

pub const SIBLING_PATH_KEY_ACCOUNT: &'static str = "account";

pub const SIBLING_PATH_KEY_ACCOUNT_PUB_DATA: &'static str = "account_pub_data";

pub const SIBLING_PATH_KEY_ACCOUNT_DELTA: &'static str = "account_delta";

pub const SIBLING_PATH_KEY_MARKET: &'static str = "market";

/// Why a corpus could not be read.
#[derive(Debug)]
pub enum CorpusError {
    /// A list does not have the length that its field requires.
    ShapeMismatch { field: &'static str, expected: usize, got: usize },
    /// The version cannot be read.
    IncompatibleVersion { found: String, supported: String },
    /// Sibling paths lack one of the trees.
    MissingSiblingPath { tree: &'static str },
    /// The document is no corpus.
    Json(String),
    /// The bytes could not be read or unpacked.
    Io(String),
}

/// What an error says.
pub open spec fn error_text(e: CorpusError) -> Seq<char> {
    match e {
        CorpusError::ShapeMismatch { field, expected, got } => "pre-state corpus field '"@ + field@
            + "' has wrong length: expected "@ + dec(expected as nat) + ", got "@ + dec(got as nat),
        CorpusError::IncompatibleVersion { found, supported } => "pre-state corpus schema version '"@
            + found@ + "' is incompatible with supported '"@ + supported@ + "' (MAJOR mismatch)"@,
        CorpusError::MissingSiblingPath { tree } =>
        "pre-state corpus sibling_paths present but missing required tree '"@ + tree@
            + "' (issue #243 schema 1.1)"@,
        CorpusError::Json(cause) => "pre-state corpus JSON error: "@ + cause@,
        CorpusError::Io(cause) => "pre-state corpus I/O error: "@ + cause@,
    }
}

impl CorpusError {
    /// What the error says.
    pub fn message(&self) -> (r: String)
        ensures
            r@ == error_text(*self),
    {
        match self {
            CorpusError::ShapeMismatch { field, expected, got } => {
                let mut r = String::from_str("pre-state corpus field '");
                r.append(field);
                r.append("' has wrong length: expected ");
                push_dec(&mut r, *expected as u64);
                r.append(", got ");
                push_dec(&mut r, *got as u64);
                r
            },
            CorpusError::IncompatibleVersion { found, supported } => {
                let mut r = String::from_str("pre-state corpus schema version '");
                r.append(found.as_str());
                r.append("' is incompatible with supported '");
                r.append(supported.as_str());
                r.append("' (MAJOR mismatch)");
                r
            },
            CorpusError::MissingSiblingPath { tree } => {
                let mut r = String::from_str(
                    "pre-state corpus sibling_paths present but missing required tree '",
                );
                r.append(tree);
                r.append("' (issue #243 schema 1.1)");
                r
            },
            CorpusError::Json(cause) => {
                let mut r = String::from_str("pre-state corpus JSON error: ");
                r.append(cause.as_str());
                r
            },
            CorpusError::Io(cause) => {
                let mut r = String::from_str("pre-state corpus I/O error: ");
                r.append(cause.as_str());
                r
            },
        }
    }
}

/// Sibling paths on the wire: a path for each tree, by name, from the leaf up.
#[derive(Debug)]
pub struct SiblingPaths {
    pub paths: TextMap<Vec<HashOut>>,
    pub account_index: u128,
    pub market_index: u128,
}

/// What is wrong with the path of the tree `key`, if anything is.
pub open spec fn path_fault(paths: Map<Seq<char>, Vec<HashOut>>, key: &'static str, depth: usize) -> Option<
    CorpusError,
> {
    if !paths.contains_key(key@) {
        Some(CorpusError::MissingSiblingPath { tree: key })
    } else if paths[key@]@.len() != depth {
        Some(
            CorpusError::ShapeMismatch {
                field: key,
                expected: depth,
                got: paths[key@]@.len() as usize,
            },
        )
    } else {
        None
    }
}

/// The first thing that is wrong with sibling paths, if anything is.
pub open spec fn paths_fault(paths: Map<Seq<char>, Vec<HashOut>>) -> Option<CorpusError> {
    let account = path_fault(paths, SIBLING_PATH_KEY_ACCOUNT, ACCOUNT_MERKLE_LEVELS);
    let pub_data = path_fault(paths, SIBLING_PATH_KEY_ACCOUNT_PUB_DATA, ACCOUNT_MERKLE_LEVELS);
    let delta = path_fault(paths, SIBLING_PATH_KEY_ACCOUNT_DELTA, ACCOUNT_MERKLE_LEVELS);
    let market = path_fault(paths, SIBLING_PATH_KEY_MARKET, MARKET_MERKLE_LEVELS);
    if account is Some {
        account
    } else if pub_data is Some {
        pub_data
    } else if delta is Some {
        delta
    } else {
        market
    }
}

/// Whether `p` holds the paths of `paths`.
pub open spec fn paths_read(
    paths: Map<Seq<char>, Vec<HashOut>>,
    account_index: u128,
    market_index: u128,
    p: EmptyIndexSiblingPaths,
) -> bool {
    &&& p.wf()
    &&& p.account_index == account_index
    &&& p.market_index == market_index
    &&& p.account@ == paths[SIBLING_PATH_KEY_ACCOUNT@]@
    &&& p.account_pub_data@ == paths[SIBLING_PATH_KEY_ACCOUNT_PUB_DATA@]@
    &&& p.account_delta@ == paths[SIBLING_PATH_KEY_ACCOUNT_DELTA@]@
    &&& p.market@ == paths[SIBLING_PATH_KEY_MARKET@]@
}

fn copy_hashes(v: &Vec<HashOut>) -> (r: Vec<HashOut>)
    ensures
        r@ == v@,
{
    let n: usize = v.len();
    let mut r: Vec<HashOut> = Vec::new();
    let mut i: usize = 0;
    while i < n
        invariant
            i <= n == v@.len(),
            r@ == v@.take(i as int),
        decreases n - i,
    {
        r.push(v[i]);
        assert(r@ =~= v@.take(i + 1));
        i = i + 1;
    }
    assert(v@.take(n as int) =~= v@);
    r
}

impl SiblingPaths {
    /// The path of the tree `key`, if it is there and has `depth` levels.
    fn take(&self, key: &'static str, depth: usize) -> (r: Result<Vec<HashOut>, CorpusError>)
        ensures
            match path_fault(self.paths@, key, depth) {
                Some(fault) => r is Err && r->Err_0 == fault,
                None => r is Ok && r->Ok_0@ == self.paths@[key@]@ && r->Ok_0@.len() == depth,
            },
    {
        match self.paths.get(key) {
            Some(v) => {
                if v.len() != depth {
                    return Err(
                        CorpusError::ShapeMismatch { field: key, expected: depth, got: v.len() },
                    );
                }
                Ok(copy_hashes(v))
            },
            None => Err(CorpusError::MissingSiblingPath { tree: key }),
        }
    }

    /// The four paths, each checked for its presence and depth.
    pub fn into_empty_index_paths(self) -> (r: Result<EmptyIndexSiblingPaths, CorpusError>)
        ensures
            match paths_fault(self.paths@) {
                Some(fault) => r is Err && r->Err_0 == fault,
                None => r is Ok && paths_read(
                    self.paths@,
                    self.account_index,
                    self.market_index,
                    r->Ok_0,
                ),
            },
            r matches Ok(p) ==> {
                &&& p.account@ == self.paths@["account"@]@
                &&& p.account_pub_data@ == self.paths@["account_pub_data"@]@
                &&& p.account_delta@ == self.paths@["account_delta"@]@
                &&& p.market@ == self.paths@["market"@]@
            },
    {
        let account: Vec<HashOut> = match self.take(SIBLING_PATH_KEY_ACCOUNT, ACCOUNT_MERKLE_LEVELS) {
            Ok(v) => v,
            Err(e) => {
                return Err(e);
            },
        };
        let account_pub_data: Vec<HashOut> = match self.take(
            SIBLING_PATH_KEY_ACCOUNT_PUB_DATA,
            ACCOUNT_MERKLE_LEVELS,
        ) {
            Ok(v) => v,
            Err(e) => {
                return Err(e);
            },
        };
        let account_delta: Vec<HashOut> = match self.take(
            SIBLING_PATH_KEY_ACCOUNT_DELTA,
            ACCOUNT_MERKLE_LEVELS,
        ) {
            Ok(v) => v,
            Err(e) => {
                return Err(e);
            },
        };
        let market: Vec<HashOut> = match self.take(SIBLING_PATH_KEY_MARKET, MARKET_MERKLE_LEVELS) {
            Ok(v) => v,
            Err(e) => {
                return Err(e);
            },
        };
        Ok(
            EmptyIndexSiblingPaths {
                account_index: self.account_index,
                market_index: self.market_index,
                account,
                account_pub_data,
                account_delta,
                market,
            },
        )
    }
}

/// One snapshot on the wire.
#[derive(Debug)]
pub struct SnapshotEntry<R, A, M, S> {
    pub ledger: Ledger<R, A, M, S>,
    pub roots: TreeRoots,
    pub sibling_paths: Option<SiblingPaths>,
}

/// The first thing that is wrong with a snapshot, if anything is.
pub open spec fn entry_fault<R, A, M, S>(e: SnapshotEntry<R, A, M, S>) -> Option<CorpusError> {
    if e.ledger.all_assets@.len() != ASSET_LIST_SIZE {
        Some(
            CorpusError::ShapeMismatch {
                field: "all_assets",
                expected: ASSET_LIST_SIZE,
                got: e.ledger.all_assets@.len() as usize,
            },
        )
    } else if e.ledger.all_market_details@.len() != POSITION_LIST_SIZE {
        Some(
            CorpusError::ShapeMismatch {
                field: "all_market_details",
                expected: POSITION_LIST_SIZE,
                got: e.ledger.all_market_details@.len() as usize,
            },
        )
    } else {
        match e.sibling_paths {
            Some(sp) => paths_fault(sp.paths@),
            None => None,
        }
    }
}

/// Whether `s` is the snapshot that `e` describes.
pub open spec fn entry_read<R, A, M, S>(
    e: SnapshotEntry<R, A, M, S>,
    s: ChunkPreState<R, A, M, S>,
) -> bool {
    &&& s.wf()
    &&& s.ledger == e.ledger
    &&& s.roots == e.roots
    &&& match (e.sibling_paths, s.empty_index_sibling_paths) {
        (Some(sp), Some(p)) => paths_read(sp.paths@, sp.account_index, sp.market_index, p),
        (None, None) => true,
        _ => false,
    }
}

impl<R, A, M, S> SnapshotEntry<R, A, M, S> {
    /// The snapshot, with its shapes checked.
    pub fn into_chunk_pre_state(self) -> (r: Result<ChunkPreState<R, A, M, S>, CorpusError>)
        ensures
            match entry_fault(self) {
                Some(fault) => r is Err && r->Err_0 == fault,
                None => r is Ok && entry_read(self, r->Ok_0),
            },
    {
        let assets: usize = self.ledger.all_assets.len();
        if assets != ASSET_LIST_SIZE {
            return Err(
                CorpusError::ShapeMismatch {
                    field: "all_assets",
                    expected: ASSET_LIST_SIZE,
                    got: assets,
                },
            );
        }
        let markets: usize = self.ledger.all_market_details.len();
        if markets != POSITION_LIST_SIZE {
            return Err(
                CorpusError::ShapeMismatch {
                    field: "all_market_details",
                    expected: POSITION_LIST_SIZE,
                    got: markets,
                },
            );
        }
        let empty_index_sibling_paths: Option<EmptyIndexSiblingPaths> = match self.sibling_paths {
            Some(sp) => match sp.into_empty_index_paths() {
                Ok(p) => Some(p),
                Err(e) => {
                    return Err(e);
                },
            },
            None => None,
        };
        Ok(ChunkPreState { ledger: self.ledger, roots: self.roots, empty_index_sibling_paths })
    }
}

/// A corpus on the wire.
#[derive(Debug)]
pub struct PreStateCorpus<R, A, M, S> {
    pub schema_version: String,
    pub height: u64,
    pub created_at: i64,
    pub snapshots: Vec<SnapshotEntry<R, A, M, S>>,
}

/// What stands before the first dot of a version.
pub open spec fn major(version: Seq<char>) -> Seq<char> {
    version.take(position_from(version, '.', 0))
}

fn major_of(version: &str) -> (r: &str)
    ensures
        r@ == major(version@),
{
    let cs: Vec<char> = chars_of(version);
    let n: usize = cs.len();
    let mut i: usize = 0;
    while i < n && cs[i] != '.'
        invariant
            cs@ == version@,
            i <= n == cs.len(),
            position_from(version@, '.', 0) == position_from(version@, '.', i as int),
        decreases n - i,
    {
        i = i + 1;
    }
    assert(version@.subrange(0, i as int) =~= version@.take(i as int));
    version.substring_char(0, i)
}

/// Whether a corpus of this version can be read.
pub open spec fn compatible(version: Seq<char>) -> bool {
    major(version) == major(CORPUS_SCHEMA_VERSION@)
}

/// Checks that a corpus of this version can be read.
pub fn check_compatible(version: &str) -> (r: Result<(), CorpusError>)
    ensures
        if compatible(version@) {
            r is Ok
        } else {
            match r {
                Err(CorpusError::IncompatibleVersion { found, supported }) => found@ == version@
                    && supported@ == CORPUS_SCHEMA_VERSION@,
                _ => false,
            }
        },
{
    if !same_text(major_of(version), major_of(CORPUS_SCHEMA_VERSION)) {
        return Err(
            CorpusError::IncompatibleVersion {
                found: version.to_owned(),
                supported: CORPUS_SCHEMA_VERSION.to_owned(),
            },
        );
    }
    Ok(())
}

/// A reader takes every corpus whose version starts with the same number.
pub proof fn additive_versions_stay_readable()
    ensures
        compatible(CORPUS_SCHEMA_VERSION@),
        compatible(CORPUS_SCHEMA_VERSION_WITH_PATHS@),
{
    reveal_strlit("1.0");
    reveal_strlit("1.1");
    let (a, b) = ("1.0"@, "1.1"@);
    assert(a[0] == '1' && a[1] == '.');
    assert(b[0] == '1' && b[1] == '.');
    reveal_with_fuel(position_from, 3);
    assert(position_from(a, '.', 0) == 1);
    assert(position_from(b, '.', 0) == 1);
    assert(a.take(1) =~= b.take(1));
}

/// The position of the first snapshot from `i` on that is at fault.
pub open spec fn first_fault<R, A, M, S>(
    entries: Seq<SnapshotEntry<R, A, M, S>>,
    i: int,
) -> Option<CorpusError>
    decreases entries.len() - i,
{
    if i < 0 || i >= entries.len() {
        None
    } else if entry_fault(entries[i]) is Some {
        entry_fault(entries[i])
    } else {
        first_fault(entries, i + 1)
    }
}

/// Whether `states` are the snapshots that `entries` describe, in order.
pub open spec fn entries_read<R, A, M, S>(
    entries: Seq<SnapshotEntry<R, A, M, S>>,
    states: Seq<ChunkPreState<R, A, M, S>>,
) -> bool {
    &&& states.len() == entries.len()
    &&& forall|i: int| 0 <= i < entries.len() ==> entry_read(entries[i], #[trigger] states[i])
}

impl<R, A, M, S> PreStateCorpus<R, A, M, S> {
    /// The snapshots, with version and shapes checked. Anything wrong is an
    /// error; nothing is left out or made up.
    pub fn into_snapshots(self) -> (r: Result<PreStateSnapshots<R, A, M, S>, CorpusError>)
        ensures
            if !compatible(self.schema_version@) {
                match r {
                    Err(CorpusError::IncompatibleVersion { found, supported }) => found@
                        == self.schema_version@ && supported@ == CORPUS_SCHEMA_VERSION@,
                    _ => false,
                }
            } else {
                match first_fault(self.snapshots@, 0) {
                    Some(fault) => r is Err && r->Err_0 == fault,
                    None => {
                        &&& r is Ok
                        &&& r->Ok_0.height == self.height
                        &&& r->Ok_0.created_at == self.created_at
                        &&& entries_read(self.snapshots@, r->Ok_0.states())
                    },
                }
            },
    {
        match check_compatible(self.schema_version.as_str()) {
            Ok(()) => {},
            Err(e) => {
                return Err(e);
            },
        }
        let height: u64 = self.height;
        let created_at: i64 = self.created_at;
        let ghost all = self.snapshots@;
        let mut rest = self.snapshots;
        let mut states: Vec<ChunkPreState<R, A, M, S>> = Vec::new();
        assert(rest@ =~= all.skip(0));
        while rest.len() > 0
            invariant
                compatible(self.schema_version@),
                all == self.snapshots@,
                rest@.len() + states@.len() == all.len(),
                rest@ == all.skip(states@.len() as int),
                first_fault(all, 0) == first_fault(all, states@.len() as int),
                forall|i: int|
                    0 <= i < states@.len() ==> entry_read(all[i], #[trigger] states@[i]),
            decreases rest@.len(),
        {
            let entry: SnapshotEntry<R, A, M, S> = rest.remove(0);
            assert(entry == all[states@.len() as int]);
            assert(rest@ =~= all.skip(states@.len() as int + 1));
            match entry.into_chunk_pre_state() {
                Ok(s) => {
                    states.push(s);
                },
                Err(e) => {
                    return Err(e);
                },
            }
        }
        Ok(PreStateSnapshots::new(height, created_at, states))
    }
}

/// What `flate2::read::GzDecoder` makes of `bytes`: what they unpack to, or its
/// complaint.
pub uninterp spec fn gunzipped(bytes: Seq<u8>) -> Result<Seq<u8>, Seq<char>>;

/// Unpacks gzip data by `flate2::read::GzDecoder`, read to its end. The content,
/// or else the text of the error, depends on the bytes alone.
#[verifier::external_body]
fn gunzip(bytes: &[u8]) -> (r: Result<Vec<u8>, String>)
    ensures
        match r {
            Ok(content) => gunzipped(bytes@) == Ok::<Seq<u8>, Seq<char>>(content@),
            Err(e) => gunzipped(bytes@) == Err::<Seq<u8>, Seq<char>>(e@),
        },
{
    let mut content = Vec::new();
    match std::io::Read::read_to_end(&mut flate2::read::GzDecoder::new(bytes), &mut content) {
        Ok(_) => Ok(content),
        Err(e) => Err(e.to_string()),
    }
}

/// The JSON document of a packed corpus.
pub fn from_gzip_bytes(bytes: &[u8]) -> (r: Result<Vec<u8>, CorpusError>)
    ensures
        match gunzipped(bytes@) {
            Ok(content) => r is Ok && r->Ok_0@ == content,
            Err(cause) => r matches Err(CorpusError::Io(e)) && e@ == cause,
        },
{
    match gunzip(bytes) {
        Ok(content) => Ok(content),
        Err(e) => Err(CorpusError::Io(e)),
    }
}

/// How a corpus file holds its JSON.
#[derive(Clone, Copy, Debug, PartialEq, Eq, Structural)]
pub enum Framing {
    /// As it is.
    RawJson,
    /// Packed.
    Gzip,
    /// Packed, for want of a known extension.
    GzipByDefault,
}

/// A letter of A to Z in lower case; any other character as it is.
pub open spec fn lower(c: char) -> char {
    if 'A' <= c <= 'Z' {
        ((c as u8 + 32) as u8) as char
    } else {
        c
    }
}

/// Whether `s` ends in `tail`, whatever the case of its letters.
pub open spec fn ends_with(s: Seq<char>, tail: Seq<char>) -> bool {
    s.len() >= tail.len() && forall|i: int|
        0 <= i < tail.len() ==> lower(#[trigger] s[s.len() - tail.len() + i]) == tail[i]
}

/// Whether `s` ends in `tail`, whatever the case of its letters.
fn has_tail(s: &str, tail: &str) -> (r: bool)
    ensures
        r == ends_with(s@, tail@),
{
    let cs: Vec<char> = chars_of(s);
    let ts: Vec<char> = chars_of(tail);
    let n: usize = cs.len();
    if n < ts.len() {
        return false;
    }
    let from: usize = n - ts.len();
    let mut i: usize = 0;
    while i < ts.len()
        invariant
            cs@ == s@,
            ts@ == tail@,
            from + ts@.len() == n == cs@.len(),
            i <= ts@.len(),
            forall|j: int| 0 <= j < i ==> lower(#[trigger] s@[s@.len() - tail@.len() + j]) == tail@[j],
        decreases ts@.len() - i,
    {
        let c: char = cs[from + i];
        let small: char = if 'A' <= c && c <= 'Z' {
            (c as u8 + 32) as char
        } else {
            c
        };
        assert(s@[s@.len() - tail@.len() + i] == c);
        assert(small == lower(c));
        if small != ts[i] {
            return false;
        }
        i = i + 1;
    }
    true
}

/// How the corpus file at `path` holds its JSON, by its extension.
pub open spec fn framing_of(path: Seq<char>) -> Framing {
    if ends_with(path, ".json"@) {
        Framing::RawJson
    } else if ends_with(path, ".gz"@) {
        Framing::Gzip
    } else {
        Framing::GzipByDefault
    }
}

/// How the corpus file at `path` holds its JSON, by its extension.
pub fn corpus_framing(path: &str) -> (r: Framing)
    ensures
        r == framing_of(path@),
{
    if has_tail(path, ".json") {
        Framing::RawJson
    } else if has_tail(path, ".gz") {
        Framing::Gzip
    } else {
        Framing::GzipByDefault
    }
}

impl Framing {
    /// What a log line calls the framing.
    pub fn label(self) -> (r: &'static str)
        ensures
            r@ == match self {
                Framing::RawJson => "raw-json (zero-decompress)"@,
                Framing::Gzip => "gzip (decompress)"@,
                Framing::GzipByDefault => "gzip (decompress, by default)"@,
            },
    {
        match self {
            Framing::RawJson => "raw-json (zero-decompress)",
            Framing::Gzip => "gzip (decompress)",
            Framing::GzipByDefault => "gzip (decompress, by default)",
        }
    }
}

/// The JSON in the content `bytes` of the corpus file at `path`.
pub fn corpus_json(path: &str, bytes: Vec<u8>) -> (r: Result<Vec<u8>, CorpusError>)
    ensures
        framing_of(path@) == Framing::RawJson ==> r == Ok::<Vec<u8>, CorpusError>(bytes),
        framing_of(path@) != Framing::RawJson ==> match gunzipped(bytes@) {
            Ok(content) => r is Ok && r->Ok_0@ == content,
            Err(cause) => r matches Err(CorpusError::Io(e)) && e@ == cause,
        },
{
    match corpus_framing(path) {
        Framing::RawJson => Ok(bytes),
        _ => from_gzip_bytes(bytes.as_slice()),
    }
}

/// Whether the four paths on the wire lead from the leaf `leaf`, empty in each tree,
/// to the roots of the same names.
pub open spec fn paths_lead<H: Fn(HashOut, HashOut) -> HashOut>(
    h: H,
    leaf: HashOut,
    sp: SiblingPaths,
    roots: TreeRoots,
) -> bool {
    let (i, m) = (sp.account_index as nat, sp.market_index as nat);
    &&& climbs(h, i, leaf, sp.paths@["account"@]@, roots.account_tree_root)
    &&& climbs(h, i, leaf, sp.paths@["account_pub_data"@]@, roots.account_pub_data_tree_root)
    &&& climbs(h, i, leaf, sp.paths@["account_delta"@]@, roots.account_delta_tree_root)
    &&& climbs(h, m, leaf, sp.paths@["market"@]@, roots.market_tree_root)
}

/// What is read proves what was written: where the paths of an entry lead to the
/// roots of the entry, each path of the snapshot leads to the root of its own tree
/// in the snapshot.
pub proof fn read_paths_lead_to_their_own_roots<R, A, M, S, H: Fn(HashOut, HashOut) -> HashOut>(
    h: H,
    leaf: HashOut,
    e: SnapshotEntry<R, A, M, S>,
    s: ChunkPreState<R, A, M, S>,
)
    requires
        entry_read(e, s),
        e.sibling_paths matches Some(sp) && paths_lead(h, leaf, sp, e.roots),
    ensures
        s.empty_index_sibling_paths matches Some(p) && {
            let (i, m) = (p.account_index as nat, p.market_index as nat);
            &&& i == e.sibling_paths->0.account_index
            &&& m == e.sibling_paths->0.market_index
            &&& climbs(h, i, leaf, p.account@, s.roots.account_tree_root)
            &&& climbs(h, i, leaf, p.account_pub_data@, s.roots.account_pub_data_tree_root)
            &&& climbs(h, i, leaf, p.account_delta@, s.roots.account_delta_tree_root)
            &&& climbs(h, m, leaf, p.market@, s.roots.market_tree_root)
        },
{
}

/// Whether an entry has the lists and paths that a snapshot needs.
pub open spec fn well_shaped<R, A, M, S>(e: SnapshotEntry<R, A, M, S>) -> bool {
    &&& e.ledger.all_assets@.len() == 64
    &&& e.ledger.all_market_details@.len() == 255
    &&& e.sibling_paths matches Some(sp) ==> {
        &&& sp.paths@.contains_key("account"@) && sp.paths@["account"@]@.len() == 48
        &&& sp.paths@.contains_key("account_pub_data"@) && sp.paths@["account_pub_data"@]@.len() == 48
        &&& sp.paths@.contains_key("account_delta"@) && sp.paths@["account_delta"@]@.len() == 48
        &&& sp.paths@.contains_key("market"@) && sp.paths@["market"@]@.len() == 12
    }
}

/// A corpus is refused exactly where one of its entries lacks what a snapshot needs.
pub proof fn ill_shaped_entries_are_refused<R, A, M, S>(entries: Seq<SnapshotEntry<R, A, M, S>>)
    ensures
        first_fault(entries, 0) is None <==> forall|i: int|
            0 <= i < entries.len() ==> well_shaped(#[trigger] entries[i]),
{
    lemma_first_fault(entries, 0);
}

proof fn lemma_first_fault<R, A, M, S>(entries: Seq<SnapshotEntry<R, A, M, S>>, i: int)
    requires
        0 <= i <= entries.len(),
    ensures
        first_fault(entries, i) is None <==> forall|j: int|
            i <= j < entries.len() ==> well_shaped(#[trigger] entries[j]),
    decreases entries.len() - i,
{
    if i < entries.len() {
        lemma_first_fault(entries, i + 1);
        assert(entry_fault(entries[i]) is None <==> well_shaped(entries[i]));
    }
}

/// The snapshot at a position is that of the entry at the same position, with the
/// ledger and each root as they were written.
pub proof fn snapshots_keep_their_places<R, A, M, S>(
    entries: Seq<SnapshotEntry<R, A, M, S>>,
    states: Seq<ChunkPreState<R, A, M, S>>,
)
    requires
        entries_read(entries, states),
    ensures
        states.len() == entries.len(),
        forall|i: int|
            #![trigger states[i]]
            0 <= i < states.len() ==> {
                &&& states[i].ledger.register_stack == entries[i].ledger.register_stack
                &&& states[i].ledger.all_assets@ == entries[i].ledger.all_assets@
                &&& states[i].ledger.all_market_details@ == entries[i].ledger.all_market_details@
                &&& states[i].ledger.system_config == entries[i].ledger.system_config
                &&& states[i].roots.account_tree_root == entries[i].roots.account_tree_root
                &&& states[i].roots.account_pub_data_tree_root
                    == entries[i].roots.account_pub_data_tree_root
                &&& states[i].roots.account_delta_tree_root == entries[i].roots.account_delta_tree_root
                &&& states[i].roots.market_tree_root == entries[i].roots.market_tree_root
                &&& states[i].empty_index_sibling_paths is Some
                    <==> entries[i].sibling_paths is Some
            },
{
    assert forall|i: int|
        #![trigger states[i]]
        0 <= i < states.len() implies entry_read(entries[i], states[i]) by {
    }
}

/// A corpus called `.json` is taken as it is, in whatever case the extension is
/// written; one called `.gz` is unpacked.
pub proof fn extensions_decide_the_framing(stem: Seq<char>)
    ensures
        framing_of(stem + ".json"@) == Framing::RawJson,
        framing_of(stem + ".JSON"@) == Framing::RawJson,
        framing_of(stem + ".gz"@) == Framing::Gzip,
        framing_of(stem + ".GZ"@) == Framing::Gzip,
{
    reveal_strlit(".json");
    reveal_strlit(".JSON");
    reveal_strlit(".gz");
    reveal_strlit(".GZ");
    let n = stem.len() as int;
    let (a, b, c, d) = (stem + ".json"@, stem + ".JSON"@, stem + ".gz"@, stem + ".GZ"@);
    assert(a[n] == '.' && a[n + 1] == 'j' && a[n + 2] == 's' && a[n + 3] == 'o' && a[n + 4] == 'n');
    assert(b[n] == '.' && b[n + 1] == 'J' && b[n + 2] == 'S' && b[n + 3] == 'O' && b[n + 4] == 'N');
    assert(c[n] == '.' && c[n + 1] == 'g' && c[n + 2] == 'z');
    assert(d[n] == '.' && d[n + 1] == 'G' && d[n + 2] == 'Z');
    assert(lower(c[n + 2]) == 'z' && lower(d[n + 2]) == 'z');
    assert(ends_with(c, ".json"@) ==> lower(c[c.len() - 5 + 4]) == 'n');
    assert(ends_with(d, ".json"@) ==> lower(d[d.len() - 5 + 4]) == 'n');
}

/// A snapshot has paths exactly where its entry has them, and without them it is what
/// the entry holds.
pub proof fn snapshots_have_the_paths_of_their_entries<R, A, M, S>(
    e: SnapshotEntry<R, A, M, S>,
    s: ChunkPreState<R, A, M, S>,
)
    requires
        s.wf(),
    ensures
        entry_read(e, s) ==> (e.sibling_paths is Some <==> s.empty_index_sibling_paths is Some),
        e.sibling_paths is None ==> (entry_read(e, s) <==> s.empty_index_sibling_paths is None
            && s.ledger == e.ledger && s.roots == e.roots),
{
}

} // verus!
