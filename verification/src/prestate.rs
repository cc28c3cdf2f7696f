//! Pre-state snapshots: the ledger state before each transaction of a block.

use crate::hash::HashOut;
use crate::prover_node::dispatch_loop::PreStateSource;
use vstd::pervasive::cloned;
use vstd::prelude::*;

verus! {

/// Assets that a ledger state lists.
pub const ASSET_LIST_SIZE: usize = 64;

/// Markets that a ledger state lists.
pub const POSITION_LIST_SIZE: usize = 255;

/// Levels of the account, public-data and delta trees.
pub const ACCOUNT_MERKLE_LEVELS: usize = 48;

/// Levels of the market tree.
pub const MARKET_MERKLE_LEVELS: usize = 12;

/// The account leaf that counts as empty by default.
pub const EMPTY_INDEX: u128 = 2;

/// The market leaf that counts as empty by default.
pub const EMPTY_MARKET_INDEX: u128 = 255;

/// The parts of the ledger that only the circuits read: register stack `R`,
/// assets `A`, market details `M` and system configuration `S`.
#[derive(Debug, Clone)]
pub struct Ledger<R, A, M, S> {
    pub register_stack: R,
    pub all_assets: Vec<A>,
    pub all_market_details: Vec<M>,
    pub system_config: S,
}

/// The roots of the four state trees.
#[derive(Debug, Clone, Copy, PartialEq, Eq, Structural)]
pub struct TreeRoots {
    pub account_tree_root: HashOut,
    pub account_pub_data_tree_root: HashOut,
    pub account_delta_tree_root: HashOut,
    pub market_tree_root: HashOut,
}

/// The sibling paths of an empty leaf of each state tree, from the leaf up.
#[derive(Debug, Clone)]
pub struct EmptyIndexSiblingPaths {
    /// The empty leaf of the three account trees.
    pub account_index: u128,
    /// The empty leaf of the market tree.
    pub market_index: u128,
    pub account: Vec<HashOut>,
    pub account_pub_data: Vec<HashOut>,
    pub account_delta: Vec<HashOut>,
    pub market: Vec<HashOut>,
}

impl EmptyIndexSiblingPaths {
    /// Every path has as many levels as its tree.
    pub open spec fn wf(&self) -> bool {
        &&& self.account@.len() == ACCOUNT_MERKLE_LEVELS
        &&& self.account_pub_data@.len() == ACCOUNT_MERKLE_LEVELS
        &&& self.account_delta@.len() == ACCOUNT_MERKLE_LEVELS
        &&& self.market@.len() == MARKET_MERKLE_LEVELS
    }
}

/// The ledger state before some transaction of a block.
#[derive(Debug)]
pub struct ChunkPreState<R, A, M, S> {
    pub ledger: Ledger<R, A, M, S>,
    pub roots: TreeRoots,
    pub empty_index_sibling_paths: Option<EmptyIndexSiblingPaths>,
}

impl<R, A, M, S> ChunkPreState<R, A, M, S> {
    /// Lists and paths have the sizes that the circuits expect.
    pub open spec fn wf(&self) -> bool {
        &&& self.ledger.all_assets@.len() == ASSET_LIST_SIZE
        &&& self.ledger.all_market_details@.len() == POSITION_LIST_SIZE
        &&& self.empty_index_sibling_paths matches Some(p) ==> p.wf()
    }
}

/// The input of the circuit that proves a chunk.
#[derive(Debug)]
pub struct BlockTx<R, A, M, S, T> {
    pub created_at: i64,
    pub ledger_before: Ledger<R, A, M, S>,
    pub roots_before: TreeRoots,
    pub txs: Vec<T>,
}

/// Whether `b` is a copy of `a`, list for list and part for part.
pub open spec fn copied<R: Clone, A: Clone, M: Clone, S: Clone>(
    a: Ledger<R, A, M, S>,
    b: Ledger<R, A, M, S>,
) -> bool {
    &&& cloned(a.register_stack, b.register_stack)
    &&& cloned(a.system_config, b.system_config)
    &&& a.all_assets@.len() == b.all_assets@.len()
    &&& forall|i: int|
        0 <= i < a.all_assets@.len() ==> cloned(a.all_assets@[i], #[trigger] b.all_assets@[i])
    &&& a.all_market_details@.len() == b.all_market_details@.len()
    &&& forall|i: int|
        0 <= i < a.all_market_details@.len() ==> cloned(
            a.all_market_details@[i],
            #[trigger] b.all_market_details@[i],
        )
}

/// Copies a ledger.
pub fn copy_ledger<R: Clone, A: Clone, M: Clone, S: Clone>(a: &Ledger<R, A, M, S>) -> (r: Ledger<
    R,
    A,
    M,
    S,
>)
    ensures
        copied(*a, r),
{
    Ledger {
        register_stack: a.register_stack.clone(),
        all_assets: a.all_assets.clone(),
        all_market_details: a.all_market_details.clone(),
        system_config: a.system_config.clone(),
    }
}

impl<R: Clone, A: Clone, M: Clone, S: Clone> ChunkPreState<R, A, M, S> {
    /// The circuit input of a chunk that starts from this state.
    pub fn block_tx<T>(&self, created_at: i64, txs: Vec<T>) -> (r: BlockTx<R, A, M, S, T>)
        ensures
            r.created_at == created_at,
            r.txs == txs,
            r.roots_before == self.roots,
            copied(self.ledger, r.ledger_before),
    {
        BlockTx {
            created_at,
            ledger_before: copy_ledger(&self.ledger),
            roots_before: self.roots,
            txs,
        }
    }
}

/// The snapshots of one block: the one at position `i` is the state after the
/// first `i` transactions.
#[derive(Debug)]
pub struct PreStateSnapshots<R, A, M, S> {
    pub height: u64,
    pub created_at: i64,
    pub snapshots: Vec<ChunkPreState<R, A, M, S>>,
}

impl<R, A, M, S> PreStateSnapshots<R, A, M, S> {
    pub open spec fn states(&self) -> Seq<ChunkPreState<R, A, M, S>> {
        self.snapshots@
    }

    pub fn new(height: u64, created_at: i64, snapshots: Vec<ChunkPreState<R, A, M, S>>) -> (r: Self)
        ensures
            r.height == height,
            r.created_at == created_at,
            r.states() == snapshots@,
    {
        PreStateSnapshots { height, created_at, snapshots }
    }

    /// Positions that are captured: one more than the block has transactions.
    pub fn len(&self) -> (r: usize)
        ensures
            r == self.states().len(),
    {
        self.snapshots.len()
    }

    pub fn is_empty(&self) -> (r: bool)
        ensures
            r == (self.states().len() == 0),
    {
        self.snapshots.len() == 0
    }

    /// The state after the first `pos` transactions.
    pub fn at_position(&self, pos: usize) -> (r: Option<&ChunkPreState<R, A, M, S>>)
        ensures
            match r {
                Some(s) => pos < self.states().len() && *s == self.states()[pos as int],
                None => pos >= self.states().len(),
            },
    {
        if pos < self.snapshots.len() {
            Some(&self.snapshots[pos])
        } else {
            None
        }
    }

    /// The state before chunk `chunk_index`, for chunks of `chunk_size`, where it
    /// is captured.
    pub open spec fn before_chunk(&self, chunk_size: nat, chunk_index: nat) -> Option<
        ChunkPreState<R, A, M, S>,
    > {
        if chunk_size * chunk_index < self.states().len() {
            Some(self.states()[(chunk_size * chunk_index) as int])
        } else {
            None
        }
    }

    /// The state before chunk `chunk_index`, for chunks of `chunk_size`.
    pub fn at_chunk(&self, chunk_size: usize, chunk_index: usize) -> (r: Option<
        &ChunkPreState<R, A, M, S>,
    >)
        requires
            chunk_size * chunk_index <= usize::MAX,
        ensures
            match r {
                Some(s) => self.before_chunk(chunk_size as nat, chunk_index as nat) == Some(*s),
                None => self.before_chunk(chunk_size as nat, chunk_index as nat) is None,
            },
    {
        self.at_position(chunk_size * chunk_index)
    }

    /// All snapshots.
    pub fn snapshots(&self) -> (r: &Vec<ChunkPreState<R, A, M, S>>)
        ensures
            r@ == self.states(),
    {
        &self.snapshots
    }

    /// The pre-state of a chunk for proving: the corpus where it has the chunk,
    /// else nothing, so that the chunks before it are replayed.
    pub fn pre_state_for(
        loaded: Option<&Self>,
        chunk_size: usize,
        chunk_index: usize,
    ) -> (r: (Option<&ChunkPreState<R, A, M, S>>, PreStateSource))
        requires
            chunk_size * chunk_index <= usize::MAX,
        ensures
            match loaded {
                Some(snaps) => match snaps.before_chunk(chunk_size as nat, chunk_index as nat) {
                    Some(state) => r.0 is Some && *r.0->0 == state && r.1 == PreStateSource::Corpus,
                    None => r.0 is None && r.1 == PreStateSource::Replay,
                },
                None => r.0 is None && r.1 == PreStateSource::Replay,
            },
    {
        match loaded {
            Some(snaps) => match snaps.at_chunk(chunk_size, chunk_index) {
                Some(s) => (Some(s), PreStateSource::Corpus),
                None => (None, PreStateSource::Replay),
            },
            None => (None, PreStateSource::Replay),
        }
    }
}

/// One corpus serves every chunk size: a chunk of `factor` times the size starts
/// from the same state as every `factor`-th chunk of that size, and chunks of one
/// transaction start from the state at their own position.
pub proof fn chunk_lookup_is_positional<R, A, M, S>(
    snaps: PreStateSnapshots<R, A, M, S>,
    size: nat,
    factor: nat,
    chunk: nat,
)
    ensures
        snaps.before_chunk(size * factor, chunk) == snaps.before_chunk(size, factor * chunk),
        snaps.before_chunk(1, chunk) is Some <==> chunk < snaps.states().len(),
        chunk < snaps.states().len() ==> snaps.before_chunk(1, chunk) == Some(
            snaps.states()[chunk as int],
        ),
{
    assert((size * factor) * chunk == size * (factor * chunk)) by (nonlinear_arith);
}

/// A copy holds what the ledger holds, where the parts' own copies do.
pub proof fn copies_hold_the_same<R: Clone, A: Clone, M: Clone, S: Clone>(
    a: Ledger<R, A, M, S>,
    b: Ledger<R, A, M, S>,
)
    requires
        copied(a, b),
        forall|x: R, y: R| #[trigger] cloned(x, y) ==> x == y,
        forall|x: A, y: A| #[trigger] cloned(x, y) ==> x == y,
        forall|x: M, y: M| #[trigger] cloned(x, y) ==> x == y,
        forall|x: S, y: S| #[trigger] cloned(x, y) ==> x == y,
    ensures
        a.register_stack == b.register_stack,
        a.system_config == b.system_config,
        a.all_assets@ == b.all_assets@,
        a.all_market_details@ == b.all_market_details@,
{
    assert(a.all_assets@ =~= b.all_assets@);
    assert(a.all_market_details@ =~= b.all_market_details@);
}

} // verus!
