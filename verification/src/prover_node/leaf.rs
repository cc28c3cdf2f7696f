//! Proving one chunk: where its pre-state comes from, and the batch that its
//! proof stands for in the reduction tree.

use crate::hash::HashOut;
use crate::prover_node::dispatch_loop::PreStateSource;
use vstd::prelude::*;

verus! {

/// The aggregate that a proof of the reduction tree carries.
#[derive(Clone, Copy, Debug)]
pub struct Batch {
    pub end_block_number: u64,
    pub batch_size: u64,
    pub first_created_at: i64,
    pub last_created_at: i64,
    pub old_state_root: HashOut,
    pub new_state_root: HashOut,
    pub new_validium_root: HashOut,
    pub old_account_delta_tree_root: HashOut,
    pub new_account_delta_tree_root: HashOut,
    pub on_chain_operations_pub_data_hash: [u8; 32],
    pub priority_operations_count: u64,
    pub old_prefix_priority_operation_hash: [u8; 32],
    pub new_prefix_priority_operation_hash: [u8; 32],
}

/// What the proof of a chunk says of the state after it.
#[derive(Clone, Copy, Debug)]
pub struct ChunkOutcome {
    pub new_account_tree_root: HashOut,
    pub new_account_delta_tree_root: HashOut,
    pub priority_operations_count: u64,
}

/// The number of chunks of `chunk_size` in a block of `tx_count` transactions.
pub open spec fn chunk_count(tx_count: int, chunk_size: int) -> int {
    crate::prover_node::geometry::ceil_div(tx_count, chunk_size)
}

/// The transactions of chunk `chunk_idx`: from the first to past the last.
pub fn chunk_range(tx_count: usize, chunk_size: usize, chunk_idx: usize) -> (r: Option<
    (usize, usize),
>)
    requires
        chunk_size > 0,
    ensures
        r is Some <==> chunk_idx < chunk_count(tx_count as int, chunk_size as int),
        r matches Some(range) ==> range.0 == chunk_idx * chunk_size && range.1 == if (chunk_idx + 1)
            * chunk_size < tx_count {
            (chunk_idx + 1) * chunk_size
        } else {
            tx_count as int
        },
        r matches Some(range) ==> range.0 < range.1 <= tx_count,
{
    let chunks: usize = crate::prover_node::geometry::div_up(tx_count, chunk_size);
    if chunk_idx >= chunks {
        return None;
    }
    proof {
        lemma_chunk_starts_inside(tx_count as int, chunk_size as int, chunk_idx as int);
        assert((chunk_idx + 1) * chunk_size == chunk_idx * chunk_size + chunk_size)
            by (nonlinear_arith);
    }
    let first: usize = chunk_idx * chunk_size;
    let end: usize = if tx_count - first < chunk_size {
        tx_count
    } else {
        first + chunk_size
    };
    Some((first, end))
}

pub(crate) proof fn lemma_chunk_starts_inside(n: int, c: int, k: int)
    requires
        n >= 0,
        c > 0,
        0 <= k < chunk_count(n, c),
    ensures
        0 <= k * c < n,
{
    let q = (n + c - 1) / c;
    vstd::arithmetic::div_mod::lemma_fundamental_div_mod(n + c - 1, c);
    vstd::arithmetic::div_mod::lemma_mod_bound(n + c - 1, c);
    assert(k * c <= (q - 1) * c) by (nonlinear_arith)
        requires
            k <= q - 1,
            c > 0,
    ;
    assert((q - 1) * c == c * q - c) by (nonlinear_arith);
    assert(k * c >= 0) by (nonlinear_arith)
        requires
            k >= 0,
            c > 0,
    ;
}

/// The batch of chunk `chunk_idx`. Chunks count as consecutive batches of one
/// block each, so that neighbours satisfy what the fold asks of them.
pub open spec fn leaf_batch_of(
    b: Batch,
    chunk_idx: int,
    created_at: int,
    account_root_before: HashOut,
    delta_root_before: HashOut,
    outcome: ChunkOutcome,
    new_validium_root: HashOut,
) -> bool {
    &&& b.end_block_number == chunk_idx + 1
    &&& b.batch_size == 1
    &&& b.first_created_at == created_at + chunk_idx
    &&& b.last_created_at == created_at + chunk_idx
    &&& b.old_state_root == account_root_before
    &&& b.new_state_root == outcome.new_account_tree_root
    &&& b.new_validium_root == new_validium_root
    &&& b.old_account_delta_tree_root == delta_root_before
    &&& b.new_account_delta_tree_root == outcome.new_account_delta_tree_root
    &&& b.priority_operations_count == outcome.priority_operations_count
    &&& b.on_chain_operations_pub_data_hash@ == Seq::new(32, |i: int| 0u8)
    &&& b.old_prefix_priority_operation_hash@ == Seq::new(32, |i: int| 0u8)
    &&& b.new_prefix_priority_operation_hash@ == Seq::new(32, |i: int| 0u8)
}

/// The batch of chunk `chunk_idx`, from the roots before it and what its proof
/// says of the state after it.
pub fn leaf_batch(
    chunk_idx: usize,
    created_at: i64,
    account_root_before: HashOut,
    delta_root_before: HashOut,
    outcome: ChunkOutcome,
    new_validium_root: HashOut,
) -> (r: Batch)
    requires
        chunk_idx < u64::MAX,
        created_at + chunk_idx <= i64::MAX,
        chunk_idx <= i64::MAX,
    ensures
        leaf_batch_of(
            r,
            chunk_idx as int,
            created_at as int,
            account_root_before,
            delta_root_before,
            outcome,
            new_validium_root,
        ),
{
    let at: i64 = created_at + chunk_idx as i64;
    let r = Batch {
        end_block_number: chunk_idx as u64 + 1,
        batch_size: 1,
        first_created_at: at,
        last_created_at: at,
        old_state_root: account_root_before,
        new_state_root: outcome.new_account_tree_root,
        new_validium_root,
        old_account_delta_tree_root: delta_root_before,
        new_account_delta_tree_root: outcome.new_account_delta_tree_root,
        on_chain_operations_pub_data_hash: [0u8; 32],
        priority_operations_count: outcome.priority_operations_count,
        old_prefix_priority_operation_hash: [0u8; 32],
        new_prefix_priority_operation_hash: [0u8; 32],
    };
    assert(r.on_chain_operations_pub_data_hash@ =~= Seq::new(32, |i: int| 0u8));
    assert(r.old_prefix_priority_operation_hash@ =~= Seq::new(32, |i: int| 0u8));
    assert(r.new_prefix_priority_operation_hash@ =~= Seq::new(32, |i: int| 0u8));
    r
}

/// What the reduction tree asks of two neighbouring batches.
pub open spec fn consecutive(a: Batch, b: Batch) -> bool {
    &&& a.end_block_number == b.end_block_number - b.batch_size
    &&& a.last_created_at <= b.first_created_at
    &&& a.new_state_root == b.old_state_root
    &&& a.new_account_delta_tree_root == b.old_account_delta_tree_root
    &&& a.new_prefix_priority_operation_hash@ == b.old_prefix_priority_operation_hash@
}

/// The batches of neighbouring chunks can be folded, where the second chunk
/// starts from the state that the first one ended in.
pub proof fn neighbouring_chunks_fold(
    a: Batch,
    b: Batch,
    chunk_idx: int,
    created_at: int,
    account_root_before: HashOut,
    delta_root_before: HashOut,
    first: ChunkOutcome,
    second: ChunkOutcome,
    new_validium_root: HashOut,
)
    requires
        leaf_batch_of(
            a,
            chunk_idx,
            created_at,
            account_root_before,
            delta_root_before,
            first,
            new_validium_root,
        ),
        leaf_batch_of(
            b,
            chunk_idx + 1,
            created_at,
            first.new_account_tree_root,
            first.new_account_delta_tree_root,
            second,
            new_validium_root,
        ),
    ensures
        consecutive(a, b),
{
}

/// A leaf on its way to the state before its chunk. `St` is the ledger state.
#[derive(Debug)]
pub struct LeafRun<St> {
    pub chunk_idx: usize,
    /// Chunks already applied to `state`.
    pub applied: usize,
    pub state: St,
    pub source: PreStateSource,
}

impl<St> LeafRun<St> {
    pub open spec fn wf(&self) -> bool {
        self.applied <= self.chunk_idx
    }

    /// Starts from the corpus snapshot where there is one, and else from the
    /// state at the start of the block.
    pub fn start(chunk_idx: usize, snapshot: Option<St>, initial: St) -> (r: Self)
        ensures
            r.wf(),
            r.chunk_idx == chunk_idx,
            match snapshot {
                Some(s) => r.state == s && r.applied == chunk_idx && r.source
                    == PreStateSource::Corpus,
                None => r.state == initial && r.applied == 0 && r.source == PreStateSource::Replay,
            },
    {
        match snapshot {
            Some(state) => LeafRun {
                chunk_idx,
                applied: chunk_idx,
                state,
                source: PreStateSource::Corpus,
            },
            None => LeafRun {
                chunk_idx,
                applied: 0,
                state: initial,
                source: PreStateSource::Replay,
            },
        }
    }

    /// Takes the state after a replayed chunk.
    pub fn replayed(&mut self, state: St)
        requires
            old(self).applied < old(self).chunk_idx,
        ensures
            final(self).wf(),
            final(self).chunk_idx == old(self).chunk_idx,
            final(self).applied == old(self).applied + 1,
            final(self).state == state,
            final(self).source == old(self).source,
    {
        self.applied = self.applied + 1;
        self.state = state;
    }
}

/// The transactions of chunk `i`: from the first to past the last.
pub open spec fn range_of(tx_count: int, size: int, i: int) -> (usize, usize) {
    (
        (i * size) as usize,
        if (i + 1) * size < tx_count {
            ((i + 1) * size) as usize
        } else {
            tx_count as usize
        },
    )
}

/// Whether replaying the first `n` chunks may lead from `initial` to `state`.
pub open spec fn replays_to<St, R: Fn(&St, (usize, usize)) -> St>(
    replay: R,
    tx_count: int,
    size: int,
    initial: St,
    n: int,
    state: St,
) -> bool
    decreases n,
{
    if n <= 0 {
        state == initial
    } else {
        exists|below: St|
            replays_to(replay, tx_count, size, initial, n - 1, below) && #[trigger] call_ensures(
                replay,
                (&below, range_of(tx_count, size, n - 1)),
                state,
            )
    }
}

/// Whether `b` may be the batch of a chunk that is proved from `state`.
pub open spec fn proves_batch<
    St,
    Roots: Fn(&St) -> (HashOut, HashOut),
    Prove: Fn(&St, (usize, usize)) -> ChunkOutcome,
>(
    roots: Roots,
    prove: Prove,
    tx_count: int,
    size: int,
    chunk_idx: int,
    created_at: int,
    new_validium_root: HashOut,
    state: St,
    b: Batch,
) -> bool {
    exists|before: (HashOut, HashOut), outcome: ChunkOutcome|
        {
            &&& #[trigger] call_ensures(roots, (&state,), before)
            &&& #[trigger] call_ensures(
                prove,
                (&state, range_of(tx_count, size, chunk_idx)),
                outcome,
            )
            &&& leaf_batch_of(
                b,
                chunk_idx,
                created_at,
                before.0,
                before.1,
                outcome,
                new_validium_root,
            )
        }
}

/// Whether `r` may be what proving a chunk gives: its batch from the snapshot where
/// there is one, and else from the state that replaying the chunks before it leads
/// to, with the source of that state.
pub open spec fn leaf_proved<
    St,
    Replay: Fn(&St, (usize, usize)) -> St,
    Roots: Fn(&St) -> (HashOut, HashOut),
    Prove: Fn(&St, (usize, usize)) -> ChunkOutcome,
>(
    replay: Replay,
    roots: Roots,
    prove: Prove,
    tx_count: int,
    size: int,
    chunk_idx: int,
    created_at: int,
    new_validium_root: HashOut,
    snapshot: Option<St>,
    initial: St,
    r: (Batch, PreStateSource),
) -> bool {
    match snapshot {
        Some(state) => r.1 == PreStateSource::Corpus && proves_batch(
            roots,
            prove,
            tx_count,
            size,
            chunk_idx,
            created_at,
            new_validium_root,
            state,
            r.0,
        ),
        None => r.1 == PreStateSource::Replay && exists|state: St| #[trigger]
            replays_to(replay, tx_count, size, initial, chunk_idx, state) && proves_batch(
                roots,
                prove,
                tx_count,
                size,
                chunk_idx,
                created_at,
                new_validium_root,
                state,
                r.0,
            ),
    }
}

/// Proves a chunk from the state before it, and gives the batch that its leaf
/// carries. The state is the corpus snapshot where there is one, and is reached by
/// replaying the chunks before it where there is none; the source says which.
pub fn prove_leaf_batch<
    St,
    Replay: Fn(&St, (usize, usize)) -> St,
    Roots: Fn(&St) -> (HashOut, HashOut),
    Prove: Fn(&St, (usize, usize)) -> ChunkOutcome,
>(
    chunk_idx: usize,
    tx_count: usize,
    tx_per_proof: usize,
    created_at: i64,
    new_validium_root: HashOut,
    snapshot: Option<St>,
    initial: St,
    replay: &Replay,
    roots: &Roots,
    prove: &Prove,
) -> (r: (Batch, PreStateSource))
    requires
        tx_per_proof > 0,
        chunk_idx < chunk_count(tx_count as int, tx_per_proof as int),
        chunk_idx < u64::MAX,
        created_at + chunk_idx <= i64::MAX,
        chunk_idx <= i64::MAX,
        forall|s: St, range: (usize, usize)| #[trigger] call_requires(*replay, (&s, range)),
        forall|s: St| #[trigger] call_requires(*roots, (&s,)),
        forall|s: St, range: (usize, usize)| #[trigger] call_requires(*prove, (&s, range)),
    ensures
        leaf_proved(
            *replay,
            *roots,
            *prove,
            tx_count as int,
            tx_per_proof as int,
            chunk_idx as int,
            created_at as int,
            new_validium_root,
            snapshot,
            initial,
            r,
        ),
{
    let ghost (n, size) = (tx_count as int, tx_per_proof as int);
    let mut run: LeafRun<St> = LeafRun::start(chunk_idx, snapshot, initial);
    while run.applied < run.chunk_idx
        invariant
            run.chunk_idx == chunk_idx,
            run.applied <= chunk_idx,
            n == tx_count,
            size == tx_per_proof,
            tx_per_proof > 0,
            chunk_idx < chunk_count(n, size),
            forall|s: St, range: (usize, usize)| #[trigger] call_requires(*replay, (&s, range)),
            snapshot matches Some(s) ==> run.applied == chunk_idx && run.state == s && run.source
                == PreStateSource::Corpus,
            snapshot is None ==> run.source == PreStateSource::Replay && replays_to(
                *replay,
                n,
                size,
                initial,
                run.applied as int,
                run.state,
            ),
        decreases chunk_idx - run.applied,
    {
        let i: usize = run.applied;
        let ghost below = run.state;
        match chunk_range(tx_count, tx_per_proof, i) {
            Some(range) => {
                assert(range == range_of(n, size, i as int));
                let next: St = replay(&run.state, range);
                proof {
                    let m = i + 1;
                    assert(call_ensures(*replay, (&below, range_of(n, size, m - 1)), next));
                    assert(replays_to(*replay, n, size, initial, m, next));
                }
                run.replayed(next);
            },
            None => {
                assert(false);
            },
        }
    }
    let before: (HashOut, HashOut) = roots(&run.state);
    let range: (usize, usize) = match chunk_range(tx_count, tx_per_proof, chunk_idx) {
        Some(range) => range,
        None => (0, 0),
    };
    assert(range == range_of(n, size, chunk_idx as int));
    let outcome: ChunkOutcome = prove(&run.state, range);
    assert(call_ensures(*roots, (&run.state,), before));
    assert(call_ensures(*prove, (&run.state, range_of(n, size, chunk_idx as int)), outcome));
    let batch: Batch = leaf_batch(
        chunk_idx,
        created_at,
        before.0,
        before.1,
        outcome,
        new_validium_root,
    );
    assert(proves_batch(
        *roots,
        *prove,
        n,
        size,
        chunk_idx as int,
        created_at as int,
        new_validium_root,
        run.state,
        batch,
    ));
    (batch, run.source)
}

/// Whether two batches carry the same.
pub open spec fn same_batch(a: Batch, b: Batch) -> bool {
    &&& a.end_block_number == b.end_block_number
    &&& a.batch_size == b.batch_size
    &&& a.first_created_at == b.first_created_at
    &&& a.last_created_at == b.last_created_at
    &&& a.old_state_root == b.old_state_root
    &&& a.new_state_root == b.new_state_root
    &&& a.new_validium_root == b.new_validium_root
    &&& a.old_account_delta_tree_root == b.old_account_delta_tree_root
    &&& a.new_account_delta_tree_root == b.new_account_delta_tree_root
    &&& a.on_chain_operations_pub_data_hash@ == b.on_chain_operations_pub_data_hash@
    &&& a.priority_operations_count == b.priority_operations_count
    &&& a.old_prefix_priority_operation_hash@ == b.old_prefix_priority_operation_hash@
    &&& a.new_prefix_priority_operation_hash@ == b.new_prefix_priority_operation_hash@
}

/// Replaying is a function where one replay is.
proof fn lemma_replay_is_unique<St, R: Fn(&St, (usize, usize)) -> St>(
    replay: R,
    tx_count: int,
    size: int,
    initial: St,
    n: int,
    a: St,
    b: St,
)
    requires
        forall|s: St, range: (usize, usize), x: St, y: St| #[trigger]
            call_ensures(replay, (&s, range), x) && #[trigger] call_ensures(replay, (&s, range), y)
                ==> x == y,
        replays_to(replay, tx_count, size, initial, n, a),
        replays_to(replay, tx_count, size, initial, n, b),
    ensures
        a == b,
    decreases n,
{
    if n > 0 {
        let range = range_of(tx_count, size, n - 1);
        let x = choose|below: St|
            replays_to(replay, tx_count, size, initial, n - 1, below) && #[trigger] call_ensures(
                replay,
                (&below, range),
                a,
            );
        let y = choose|below: St|
            replays_to(replay, tx_count, size, initial, n - 1, below) && #[trigger] call_ensures(
                replay,
                (&below, range),
                b,
            );
        lemma_replay_is_unique(replay, tx_count, size, initial, n - 1, x, y);
    }
}

/// The state that a proved chunk started from is the one that replaying the chunks
/// before it leads to, whatever its source was.
proof fn lemma_leaf_state<
    St,
    Replay: Fn(&St, (usize, usize)) -> St,
    Roots: Fn(&St) -> (HashOut, HashOut),
    Prove: Fn(&St, (usize, usize)) -> ChunkOutcome,
>(
    replay: Replay,
    roots: Roots,
    prove: Prove,
    tx_count: int,
    size: int,
    chunk_idx: int,
    created_at: int,
    new_validium_root: HashOut,
    snapshot: Option<St>,
    initial: St,
    r: (Batch, PreStateSource),
) -> (state: St)
    requires
        leaf_proved(
            replay,
            roots,
            prove,
            tx_count,
            size,
            chunk_idx,
            created_at,
            new_validium_root,
            snapshot,
            initial,
            r,
        ),
        snapshot matches Some(s) ==> replays_to(replay, tx_count, size, initial, chunk_idx, s),
    ensures
        replays_to(replay, tx_count, size, initial, chunk_idx, state),
        proves_batch(
            roots,
            prove,
            tx_count,
            size,
            chunk_idx,
            created_at,
            new_validium_root,
            state,
            r.0,
        ),
{
    match snapshot {
        Some(s) => s,
        None => choose|state: St| #[trigger]
            replays_to(replay, tx_count, size, initial, chunk_idx, state) && proves_batch(
                roots,
                prove,
                tx_count,
                size,
                chunk_idx,
                created_at,
                new_validium_root,
                state,
                r.0,
            ),
    }
}

/// The batch of a chunk does not depend on where its pre-state came from: read from
/// the block's own corpus or replayed, it is the same, where replaying, the roots of
/// a state and proving are functions.
pub proof fn batches_do_not_depend_on_the_source<
    St,
    Replay: Fn(&St, (usize, usize)) -> St,
    Roots: Fn(&St) -> (HashOut, HashOut),
    Prove: Fn(&St, (usize, usize)) -> ChunkOutcome,
>(
    replay: Replay,
    roots: Roots,
    prove: Prove,
    tx_count: int,
    size: int,
    chunk_idx: int,
    created_at: int,
    new_validium_root: HashOut,
    first: Option<St>,
    second: Option<St>,
    initial: St,
    a: (Batch, PreStateSource),
    b: (Batch, PreStateSource),
)
    requires
        forall|s: St, range: (usize, usize), x: St, y: St| #[trigger]
            call_ensures(replay, (&s, range), x) && #[trigger] call_ensures(replay, (&s, range), y)
                ==> x == y,
        forall|s: St, x: (HashOut, HashOut), y: (HashOut, HashOut)| #[trigger]
            call_ensures(roots, (&s,), x) && #[trigger] call_ensures(roots, (&s,), y) ==> x == y,
        forall|s: St, range: (usize, usize), x: ChunkOutcome, y: ChunkOutcome| #[trigger]
            call_ensures(prove, (&s, range), x) && #[trigger] call_ensures(prove, (&s, range), y)
                ==> x == y,
        first matches Some(s) ==> replays_to(replay, tx_count, size, initial, chunk_idx, s),
        second matches Some(s) ==> replays_to(replay, tx_count, size, initial, chunk_idx, s),
        leaf_proved(
            replay,
            roots,
            prove,
            tx_count,
            size,
            chunk_idx,
            created_at,
            new_validium_root,
            first,
            initial,
            a,
        ),
        leaf_proved(
            replay,
            roots,
            prove,
            tx_count,
            size,
            chunk_idx,
            created_at,
            new_validium_root,
            second,
            initial,
            b,
        ),
    ensures
        same_batch(a.0, b.0),
{
    let x = lemma_leaf_state(
        replay,
        roots,
        prove,
        tx_count,
        size,
        chunk_idx,
        created_at,
        new_validium_root,
        first,
        initial,
        a,
    );
    let y = lemma_leaf_state(
        replay,
        roots,
        prove,
        tx_count,
        size,
        chunk_idx,
        created_at,
        new_validium_root,
        second,
        initial,
        b,
    );
    lemma_replay_is_unique(replay, tx_count, size, initial, chunk_idx, x, y);
}

/// The batches that proving two neighbouring chunks of a block gives can be folded,
/// whether the state before either was read from the block's own corpus or
/// replayed: where replaying is a function, and the state after a replayed chunk has
/// the roots that proving the chunk reports.
pub proof fn neighbouring_leaves_fold<
    St,
    Replay: Fn(&St, (usize, usize)) -> St,
    Roots: Fn(&St) -> (HashOut, HashOut),
    Prove: Fn(&St, (usize, usize)) -> ChunkOutcome,
>(
    replay: Replay,
    roots: Roots,
    prove: Prove,
    tx_count: int,
    size: int,
    chunk_idx: int,
    created_at: int,
    new_validium_root: HashOut,
    first: Option<St>,
    second: Option<St>,
    initial: St,
    a: (Batch, PreStateSource),
    b: (Batch, PreStateSource),
)
    requires
        chunk_idx >= 0,
        forall|s: St, range: (usize, usize), x: St, y: St| #[trigger]
            call_ensures(replay, (&s, range), x) && #[trigger] call_ensures(replay, (&s, range), y)
                ==> x == y,
        forall|s: St, range: (usize, usize), next: St, outcome: ChunkOutcome, after: (HashOut, HashOut)|
            #[trigger] call_ensures(replay, (&s, range), next) && #[trigger] call_ensures(
                prove,
                (&s, range),
                outcome,
            ) && #[trigger] call_ensures(roots, (&next,), after) ==> after == (
                outcome.new_account_tree_root,
                outcome.new_account_delta_tree_root,
            ),
        first matches Some(s) ==> replays_to(replay, tx_count, size, initial, chunk_idx, s),
        second matches Some(s) ==> replays_to(replay, tx_count, size, initial, chunk_idx + 1, s),
        leaf_proved(
            replay,
            roots,
            prove,
            tx_count,
            size,
            chunk_idx,
            created_at,
            new_validium_root,
            first,
            initial,
            a,
        ),
        leaf_proved(
            replay,
            roots,
            prove,
            tx_count,
            size,
            chunk_idx + 1,
            created_at,
            new_validium_root,
            second,
            initial,
            b,
        ),
    ensures
        a.0.batch_size == 1,
        b.0.batch_size == 1,
        a.0.end_block_number == chunk_idx + 1,
        consecutive(a.0, b.0),
{
    let x = lemma_leaf_state(
        replay,
        roots,
        prove,
        tx_count,
        size,
        chunk_idx,
        created_at,
        new_validium_root,
        first,
        initial,
        a,
    );
    let y = lemma_leaf_state(
        replay,
        roots,
        prove,
        tx_count,
        size,
        chunk_idx + 1,
        created_at,
        new_validium_root,
        second,
        initial,
        b,
    );
    let range = range_of(tx_count, size, chunk_idx);
    let below = choose|below: St|
        replays_to(replay, tx_count, size, initial, chunk_idx, below) && #[trigger] call_ensures(
            replay,
            (&below, range_of(tx_count, size, chunk_idx + 1 - 1)),
            y,
        );
    lemma_replay_is_unique(replay, tx_count, size, initial, chunk_idx, x, below);
    let (before, outcome) = choose|before: (HashOut, HashOut), outcome: ChunkOutcome|
        {
            &&& #[trigger] call_ensures(roots, (&x,), before)
            &&& #[trigger] call_ensures(prove, (&x, range), outcome)
            &&& leaf_batch_of(
                a.0,
                chunk_idx,
                created_at,
                before.0,
                before.1,
                outcome,
                new_validium_root,
            )
        };
    let (between, last) = choose|between: (HashOut, HashOut), last: ChunkOutcome|
        {
            &&& #[trigger] call_ensures(roots, (&y,), between)
            &&& #[trigger] call_ensures(
                prove,
                (&y, range_of(tx_count, size, chunk_idx + 1)),
                last,
            )
            &&& leaf_batch_of(
                b.0,
                chunk_idx + 1,
                created_at,
                between.0,
                between.1,
                last,
                new_validium_root,
            )
        };
    assert(call_ensures(replay, (&x, range), y));
    neighbouring_chunks_fold(
        a.0,
        b.0,
        chunk_idx,
        created_at,
        before.0,
        before.1,
        outcome,
        last,
        new_validium_root,
    );
}

/// The ranges of the chunks follow each other without gap or overlap, from the first
/// transaction of the block to its last.
pub proof fn chunk_ranges_partition_the_block(tx_count: usize, size: usize, i: int)
    requires
        size > 0,
        0 <= i < chunk_count(tx_count as int, size as int),
    ensures
        range_of(tx_count as int, size as int, 0).0 == 0,
        range_of(tx_count as int, size as int, i).0 < range_of(tx_count as int, size as int, i).1,
        i + 1 < chunk_count(tx_count as int, size as int) ==> range_of(
            tx_count as int,
            size as int,
            i,
        ).1 == range_of(tx_count as int, size as int, i + 1).0,
        i + 1 == chunk_count(tx_count as int, size as int) ==> range_of(
            tx_count as int,
            size as int,
            i,
        ).1 == tx_count,
        range_of(tx_count as int, size as int, i).1 - range_of(tx_count as int, size as int, i).0
            <= size,
{
    let (n, c) = (tx_count as int, size as int);
    lemma_chunk_starts_inside(n, c, i);
    assert(0 * c == 0);
    assert((i + 1) * c == i * c + c) by (nonlinear_arith);
    if i + 1 < chunk_count(n, c) {
        lemma_chunk_starts_inside(n, c, i + 1);
    } else {
        let k = chunk_count(n, c);
        vstd::arithmetic::div_mod::lemma_fundamental_div_mod(n + c - 1, c);
        vstd::arithmetic::div_mod::lemma_mod_bound(n + c - 1, c);
        assert(c * k == k * c) by (nonlinear_arith);
    }
}

} // verus!
