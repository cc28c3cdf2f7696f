//! The inner tier: a coordinator splits a block into chunks, hands the chunk
//! references out to cells and gathers what they proved; and the pool of
//! coordinators that drains the block queue.

use crate::clock;
use crate::conductor::queue::{BlockJob, BlockQueue};
use crate::conductor::witness::{ResolvedWitness, WitnessKey, WitnessResolver, WitnessSlice};
use crate::prover_node::geometry::ceil_div;
use vstd::prelude::*;

verus! {

/// `ceil(tx_count / chunk_size)`: the number of chunks of a block.
pub fn split_k(tx_count: u64, chunk_size: usize) -> (r: u64)
    requires
        chunk_size > 0,
    ensures
        r == ceil_div(tx_count as int, chunk_size as int),
{
    let s: u64 = chunk_size as u64;
    let q: u64 = tx_count / s;
    proof {
        let (a, b) = (tx_count as int, s as int);
        vstd::arithmetic::div_mod::lemma_fundamental_div_mod(a, b);
        vstd::arithmetic::div_mod::lemma_mod_bound(a, b);
        let m = a % b;
        assert(b * q == q * b) by (nonlinear_arith);
        if m == 0 {
            vstd::arithmetic::div_mod::lemma_fundamental_div_mod_converse(a + b - 1, b, q as int, b - 1);
        } else {
            assert((q + 1) * b == q * b + b) by (nonlinear_arith);
            vstd::arithmetic::div_mod::lemma_fundamental_div_mod_converse(a + b - 1, b, q + 1, m - 1);
            assert(q < a) by (nonlinear_arith)
                requires
                    a == b * q + m,
                    m > 0,
                    b > 0,
                    q >= 0,
            ;
        }
    }
    if tx_count % s == 0 {
        q
    } else {
        q + 1
    }
}

/// What a cell reports of one proved chunk.
#[derive(Debug, Clone)]
pub struct ChunkResult {
    pub key: WitnessKey,
    /// Milliseconds that resolving the witness took.
    pub witness_fetch_ms: u64,
    /// Milliseconds that the proof took.
    pub prove_ms: u64,
    pub tx_count: usize,
}

/// What became of one block.
#[derive(Debug, Clone)]
pub struct InnerDispatchOutcome {
    pub height: u64,
    /// Chunks that were dispatched.
    pub k: u64,
    /// One result per proved chunk.
    pub chunks: Vec<ChunkResult>,
    /// Chunks whose witness was not there.
    pub unresolved: u64,
}

/// The sum of the fetch times.
pub open spec fn fetch_total(chunks: Seq<ChunkResult>) -> int
    decreases chunks.len(),
{
    if chunks.len() == 0 {
        0
    } else {
        fetch_total(chunks.drop_last()) + chunks.last().witness_fetch_ms
    }
}

/// The sum of the prove times.
pub open spec fn prove_total(chunks: Seq<ChunkResult>) -> int
    decreases chunks.len(),
{
    if chunks.len() == 0 {
        0
    } else {
        prove_total(chunks.drop_last()) + chunks.last().prove_ms
    }
}

proof fn lemma_totals_grow(chunks: Seq<ChunkResult>, i: int)
    requires
        0 <= i <= chunks.len(),
    ensures
        0 <= fetch_total(chunks.take(i)) <= fetch_total(chunks),
        0 <= prove_total(chunks.take(i)) <= prove_total(chunks),
    decreases chunks.len(),
{
    if i < chunks.len() {
        lemma_totals_grow(chunks.drop_last(), i);
        assert(chunks.drop_last().take(i) =~= chunks.take(i));
    } else {
        assert(chunks.take(i) =~= chunks);
        if chunks.len() > 0 {
            lemma_totals_grow(chunks.drop_last(), chunks.len() - 1);
        }
    }
}

impl InnerDispatchOutcome {
    /// Milliseconds that resolving the witnesses took, over all chunks.
    pub fn total_witness_fetch_ms(&self) -> (r: u64)
        requires
            fetch_total(self.chunks@) <= u64::MAX,
        ensures
            r == fetch_total(self.chunks@),
    {
        let n: usize = self.chunks.len();
        let mut sum: u64 = 0;
        let mut i: usize = 0;
        assert(self.chunks@.take(0) =~= Seq::<ChunkResult>::empty());
        while i < n
            invariant
                i <= n == self.chunks@.len(),
                fetch_total(self.chunks@) <= u64::MAX,
                sum == fetch_total(self.chunks@.take(i as int)),
            decreases n - i,
        {
            proof {
                lemma_totals_grow(self.chunks@, i + 1);
                assert(self.chunks@.take(i + 1).drop_last() =~= self.chunks@.take(i as int));
            }
            sum = sum + self.chunks[i].witness_fetch_ms;
            i = i + 1;
        }
        assert(self.chunks@.take(n as int) =~= self.chunks@);
        sum
    }

    /// Milliseconds that proving took, over all chunks.
    pub fn total_prove_ms(&self) -> (r: u64)
        requires
            prove_total(self.chunks@) <= u64::MAX,
        ensures
            r == prove_total(self.chunks@),
    {
        let n: usize = self.chunks.len();
        let mut sum: u64 = 0;
        let mut i: usize = 0;
        assert(self.chunks@.take(0) =~= Seq::<ChunkResult>::empty());
        while i < n
            invariant
                i <= n == self.chunks@.len(),
                prove_total(self.chunks@) <= u64::MAX,
                sum == prove_total(self.chunks@.take(i as int)),
            decreases n - i,
        {
            proof {
                lemma_totals_grow(self.chunks@, i + 1);
                assert(self.chunks@.take(i + 1).drop_last() =~= self.chunks@.take(i as int));
            }
            sum = sum + self.chunks[i].prove_ms;
            i = i + 1;
        }
        assert(self.chunks@.take(n as int) =~= self.chunks@);
        sum
    }
}

/// What the prover reports of one chunk.
#[derive(Debug, Clone, Copy)]
pub struct CellProveStat {
    pub prove_ms: u64,
}

/// The chunk `i` of the block at `height`.
pub open spec fn chunk_key(height: u64, i: int) -> WitnessKey {
    WitnessKey { height, witness_index: i as u64 }
}

/// Whether `c` is a result that a cell may report for the chunk that it names:
/// the witness was there, and the prover was given its payload.
pub open spec fn proved<R: WitnessResolver, P: Fn(&R::Payload) -> CellProveStat>(
    resolver: R,
    prove: P,
    c: ChunkResult,
) -> bool {
    &&& resolver.holds(c.key)
    &&& exists|slice: WitnessSlice<R::Payload>, stat: CellProveStat|
        #![trigger resolver.delivers(c.key, slice), call_ensures(prove, (&slice.payload,), stat)]
        resolver.delivers(c.key, slice) && slice.key == c.key && call_ensures(
            prove,
            (&slice.payload,),
            stat,
        ) && c.prove_ms == stat.prove_ms && c.tx_count == slice.tx_count
}

/// Whether `prove` accepts every payload.
pub open spec fn proves_all<R: WitnessResolver, P: Fn(&R::Payload) -> CellProveStat>(
    prove: P,
) -> bool {
    forall|payload: &R::Payload| #[trigger] call_requires(prove, (payload,))
}

/// Whether one of the results is that of the chunk `key`.
pub open spec fn reported(chunks: Seq<ChunkResult>, key: WitnessKey) -> bool {
    exists|j: int| 0 <= j < chunks.len() && (#[trigger] chunks[j]).key == key
}

/// What a block's outcome says: every chunk whose witness is there was proved,
/// each exactly once, and the others were counted.
pub open spec fn dispatched<R: WitnessResolver, P: Fn(&R::Payload) -> CellProveStat>(
    out: InnerDispatchOutcome,
    height: u64,
    k: int,
    resolver: R,
    prove: P,
) -> bool {
    &&& out.height == height
    &&& out.k == k
    &&& out.chunks@.len() + out.unresolved == k
    &&& forall|j: int|
        #![trigger out.chunks@[j]]
        0 <= j < out.chunks@.len() ==> proved(resolver, prove, out.chunks@[j])
            && out.chunks@[j].key.height == height && out.chunks@[j].key.witness_index < k
    &&& forall|i: int, j: int|
        0 <= i < j < out.chunks@.len() ==> (#[trigger] out.chunks@[i]).key != (
        #[trigger] out.chunks@[j]).key
    &&& forall|i: int|
        0 <= i < k && resolver.holds(#[trigger] chunk_key(height, i)) ==> reported(
            out.chunks@,
            chunk_key(height, i),
        )
}

/// Resolves the witness of one chunk and proves it; nothing where the witness is
/// not there.
pub fn prove_chunk<R: WitnessResolver, P: Fn(&R::Payload) -> CellProveStat>(
    key: WitnessKey,
    resolver: &R,
    prove: &P,
) -> (r: Option<ChunkResult>)
    requires
        resolver.wf(),
        proves_all::<R, P>(*prove),
    ensures
        r is Some <==> resolver.holds(key),
        r matches Some(c) ==> c.key == key && proved(*resolver, *prove, c),
{
    let found: Option<ResolvedWitness<R::Payload>> = resolver.resolve(key);
    match found {
        Some(resolved) => {
            let stat: CellProveStat = prove(&resolved.slice.payload);
            let c = ChunkResult {
                key,
                witness_fetch_ms: resolved.fetch_ms,
                prove_ms: stat.prove_ms,
                tx_count: resolved.slice.tx_count,
            };
            proof {
                let slice = resolved.slice;
                assert(resolver.delivers(c.key, slice));
                assert(call_ensures(*prove, (&slice.payload,), stat));
            }
            Some(c)
        },
        None => None,
    }
}

/// What one cell proved.
#[derive(Debug)]
pub struct CellReport {
    pub results: Vec<ChunkResult>,
    pub unresolved: u64,
}

/// Splits blocks into chunks and dispatches them.
#[derive(Debug)]
pub struct Coordinator {
    /// Transactions per chunk.
    pub chunk_size: usize,
    /// Chunk references that may wait at a time.
    pub queue_cap: usize,
}

/// The number of chunks that are dispatched: the split of the block, but no more
/// than the witness plane has, where it has any.
pub open spec fn dispatch_width(tx_count: int, chunk_size: int, available: int) -> int {
    let k = ceil_div(tx_count, chunk_size);
    if available == 0 || k < available {
        k
    } else {
        available
    }
}

/// The flattened reports of the first cells.
pub open spec fn gathered(cells: Seq<CellReport>) -> Seq<ChunkResult>
    decreases cells.len(),
{
    if cells.len() == 0 {
        Seq::empty()
    } else {
        gathered(cells.drop_last()) + cells.last().results@
    }
}

/// The chunks that the first cells could not resolve.
pub open spec fn unresolved_total(cells: Seq<CellReport>) -> int
    decreases cells.len(),
{
    if cells.len() == 0 {
        0
    } else {
        unresolved_total(cells.drop_last()) + cells.last().unresolved
    }
}

proof fn lemma_unresolved_grow(cells: Seq<CellReport>, i: int)
    requires
        0 <= i <= cells.len(),
    ensures
        0 <= unresolved_total(cells.take(i)) <= unresolved_total(cells),
    decreases cells.len(),
{
    if i < cells.len() {
        lemma_unresolved_grow(cells.drop_last(), i);
        assert(cells.drop_last().take(i) =~= cells.take(i));
    } else {
        assert(cells.take(i) =~= cells);
        if cells.len() > 0 {
            lemma_unresolved_grow(cells.drop_last(), cells.len() - 1);
        }
    }
}

/// Puts the reports of the cells together.
pub fn gather(height: u64, k: u64, cells: Vec<CellReport>) -> (r: InnerDispatchOutcome)
    requires
        unresolved_total(cells@) <= u64::MAX,
    ensures
        r.height == height,
        r.k == k,
        r.chunks@ == gathered(cells@),
        r.unresolved == unresolved_total(cells@),
{
    let ghost all = cells@;
    let mut rest = cells;
    let mut chunks: Vec<ChunkResult> = Vec::new();
    let mut unresolved: u64 = 0;
    let ghost mut done: int = 0;
    assert(all.take(0) =~= Seq::<CellReport>::empty());
    while rest.len() > 0
        invariant
            0 <= done <= all.len(),
            rest@ == all.subrange(done, all.len() as int),
            unresolved_total(all) <= u64::MAX,
            chunks@ == gathered(all.take(done)),
            unresolved == unresolved_total(all.take(done)),
        decreases rest@.len(),
    {
        let cell: CellReport = rest.remove(0);
        assert(cell == all[done]);
        proof {
            lemma_unresolved_grow(all, done + 1);
            assert(all.take(done + 1).drop_last() =~= all.take(done));
            assert(rest@ =~= all.subrange(done + 1, all.len() as int));
        }
        let mut results = cell.results;
        chunks.append(&mut results);
        unresolved = unresolved + cell.unresolved;
        proof {
            done = done + 1;
        }
    }
    assert(all.take(done) =~= all);
    InnerDispatchOutcome { height, k, chunks, unresolved }
}

/// What the cells hold once the first `i` chunks of the block were handed out.
spec fn handed_out<R: WitnessResolver, P: Fn(&R::Payload) -> CellProveStat>(
    flat: Seq<ChunkResult>,
    missing: int,
    height: u64,
    i: int,
    resolver: R,
    prove: P,
) -> bool {
    &&& flat.len() + missing == i
    &&& forall|j: int|
        #![trigger flat[j]]
        0 <= j < flat.len() ==> proved(resolver, prove, flat[j]) && flat[j].key.height == height
            && flat[j].key.witness_index < i
    &&& forall|a: int, b: int|
        0 <= a < b < flat.len() ==> (#[trigger] flat[a]).key != (#[trigger] flat[b]).key
    &&& forall|n: int|
        0 <= n < i && resolver.holds(#[trigger] chunk_key(height, n)) ==> reported(
            flat,
            chunk_key(height, n),
        )
}

/// Adding a result to one cell adds it to the flattened reports, somewhere.
proof fn lemma_gathered_update(cells: Seq<CellReport>, c: int, cell: CellReport, x: ChunkResult)
    requires
        0 <= c < cells.len(),
        cell.results@ == cells[c].results@.push(x),
        cell.unresolved == cells[c].unresolved,
    ensures
        unresolved_total(cells.update(c, cell)) == unresolved_total(cells),
        exists|at: int|
            0 <= at <= gathered(cells).len() && #[trigger] gathered(cells).insert(at, x) == gathered(
                cells.update(c, cell),
            ),
    decreases cells.len(),
{
    let now = cells.update(c, cell);
    if c == cells.len() - 1 {
        assert(now.drop_last() =~= cells.drop_last());
        let at = gathered(cells).len() as int;
        assert(gathered(cells).insert(at, x) =~= gathered(now));
    } else {
        assert(now.drop_last() =~= cells.drop_last().update(c, cell));
        lemma_gathered_update(cells.drop_last(), c, cell, x);
        let front = gathered(cells.drop_last());
        let at = choose|at: int|
            0 <= at <= front.len() && #[trigger] front.insert(at, x) == gathered(now.drop_last());
        assert(now.last() == cells.last());
        assert(gathered(cells).insert(at, x) =~= gathered(now));
    }
}

/// Counting a missing chunk in one cell counts it in the total.
proof fn lemma_unresolved_update(cells: Seq<CellReport>, c: int, cell: CellReport)
    requires
        0 <= c < cells.len(),
        cell.results@ == cells[c].results@,
        cell.unresolved == cells[c].unresolved + 1,
    ensures
        unresolved_total(cells.update(c, cell)) == unresolved_total(cells) + 1,
        gathered(cells.update(c, cell)) == gathered(cells),
    decreases cells.len(),
{
    let now = cells.update(c, cell);
    if c == cells.len() - 1 {
        assert(now.drop_last() =~= cells.drop_last());
    } else {
        assert(now.drop_last() =~= cells.drop_last().update(c, cell));
        lemma_unresolved_update(cells.drop_last(), c, cell);
        assert(now.last() == cells.last());
    }
}

proof fn lemma_handed_out_insert<R: WitnessResolver, P: Fn(&R::Payload) -> CellProveStat>(
    flat: Seq<ChunkResult>,
    missing: int,
    height: u64,
    i: int,
    resolver: R,
    prove: P,
    at: int,
    x: ChunkResult,
)
    requires
        handed_out(flat, missing, height, i, resolver, prove),
        0 <= at <= flat.len(),
        0 <= i < u64::MAX,
        x.key == chunk_key(height, i),
        proved(resolver, prove, x),
    ensures
        handed_out(flat.insert(at, x), missing, height, i + 1, resolver, prove),
{
    let now = flat.insert(at, x);
    assert forall|j: int|
        #![trigger now[j]]
        0 <= j < now.len() implies proved(resolver, prove, now[j]) && now[j].key.height == height
        && now[j].key.witness_index < i + 1 by {
        if j < at {
            assert(now[j] == flat[j]);
        } else if j > at {
            assert(now[j] == flat[j - 1]);
        }
    }
    assert forall|a: int, b: int| 0 <= a < b < now.len() implies (#[trigger] now[a]).key != (
    #[trigger] now[b]).key by {
        let fa = if a < at {
            a
        } else {
            a - 1
        };
        let fb = if b < at {
            b
        } else {
            b - 1
        };
        if a == at {
            assert(now[b] == flat[fb]);
            assert(flat[fb].key.witness_index < i);
        } else if b == at {
            assert(now[a] == flat[fa]);
            assert(flat[fa].key.witness_index < i);
        } else {
            assert(now[a] == flat[fa]);
            assert(now[b] == flat[fb]);
        }
    }
    assert forall|n: int|
        0 <= n < i + 1 && resolver.holds(#[trigger] chunk_key(height, n)) implies reported(
        now,
        chunk_key(height, n),
    ) by {
        if n == i {
            assert(now[at].key == chunk_key(height, n));
        } else {
            assert(reported(flat, chunk_key(height, n)));
            let j = choose|j: int|
                0 <= j < flat.len() && (#[trigger] flat[j]).key == chunk_key(height, n);
            if j < at {
                assert(now[j] == flat[j]);
            } else {
                assert(now[j + 1] == flat[j]);
            }
        }
    }
}

impl Coordinator {
    pub fn new(chunk_size: usize, queue_cap: usize) -> (r: Self)
        requires
            chunk_size > 0,
            queue_cap > 0,
        ensures
            r.chunk_size == chunk_size,
            r.queue_cap == queue_cap,
    {
        Coordinator { chunk_size, queue_cap }
    }

    /// The number of chunks that are dispatched for `block`.
    pub fn width<R: WitnessResolver>(&self, block: BlockJob, resolver: &R) -> (r: u64)
        requires
            self.chunk_size > 0,
            resolver.wf(),
        ensures
            r == dispatch_width(
                block.tx_count as int,
                self.chunk_size as int,
                resolver.width(block.height) as int,
            ),
    {
        let requested: u64 = split_k(block.tx_count, self.chunk_size);
        let available: u64 = resolver.slice_count(block.height);
        if available == 0 || requested < available {
            requested
        } else {
            available
        }
    }

    /// Proves one block: splits it into chunks, hands them to `n_cells` cells in
    /// turn, and gathers what these proved.
    pub fn prove_block<R: WitnessResolver, P: Fn(&R::Payload) -> CellProveStat>(
        &self,
        block: BlockJob,
        resolver: &R,
        n_cells: usize,
        prove: &P,
    ) -> (r: InnerDispatchOutcome)
        requires
            self.chunk_size > 0,
            n_cells > 0,
            resolver.wf(),
            proves_all::<R, P>(*prove),
        ensures
            dispatched(
                r,
                block.height,
                dispatch_width(
                    block.tx_count as int,
                    self.chunk_size as int,
                    resolver.width(block.height) as int,
                ),
                *resolver,
                *prove,
            ),
    {
        let k: u64 = self.width(block, resolver);
        let mut cells: Vec<CellReport> = Vec::new();
        let mut c: usize = 0;
        assert(gathered(cells@) =~= Seq::<ChunkResult>::empty());
        while c < n_cells
            invariant
                c <= n_cells,
                cells@.len() == c,
                gathered(cells@) == Seq::<ChunkResult>::empty(),
                unresolved_total(cells@) == 0,
            decreases n_cells - c,
        {
            let ghost before = cells@;
            cells.push(CellReport { results: Vec::new(), unresolved: 0 });
            assert(cells@.drop_last() =~= before);
            assert(gathered(cells@) =~= Seq::<ChunkResult>::empty());
            c = c + 1;
        }
        let mut i: u64 = 0;
        let mut turn: usize = 0;
        while i < k
            invariant
                i <= k,
                turn < n_cells,
                cells@.len() == n_cells,
                resolver.wf(),
                proves_all::<R, P>(*prove),
                handed_out(
                    gathered(cells@),
                    unresolved_total(cells@),
                    block.height,
                    i as int,
                    *resolver,
                    *prove,
                ),
            decreases k - i,
        {
            let key: WitnessKey = WitnessKey::new(block.height, i);
            assert(key == chunk_key(block.height, i as int));
            let ghost before = cells@;
            let ghost flat = gathered(cells@);
            let ghost missing = unresolved_total(cells@);
            let mut cell: CellReport = cells.remove(turn);
            match prove_chunk(key, resolver, prove) {
                Some(x) => {
                    cell.results.push(x);
                    proof {
                        lemma_gathered_update(before, turn as int, cell, x);
                        let at = choose|at: int|
                            0 <= at <= flat.len() && #[trigger] flat.insert(at, x) == gathered(
                                before.update(turn as int, cell),
                            );
                        lemma_handed_out_insert(
                            flat,
                            missing,
                            block.height,
                            i as int,
                            *resolver,
                            *prove,
                            at,
                            x,
                        );
                    }
                },
                None => {
                    proof {
                        lemma_unresolved_grow(before, turn as int + 1);
                        lemma_cell_within(before, turn as int);
                    }
                    cell.unresolved = cell.unresolved + 1;
                    proof {
                        lemma_unresolved_update(before, turn as int, cell);
                    }
                },
            }
            cells.insert(turn, cell);
            assert(cells@ =~= before.update(turn as int, cell));
            turn = if turn + 1 == n_cells {
                0
            } else {
                turn + 1
            };
            i = i + 1;
        }
        gather(block.height, k, cells)
    }
}

proof fn lemma_cell_within(cells: Seq<CellReport>, c: int)
    requires
        0 <= c < cells.len(),
    ensures
        cells[c].unresolved <= unresolved_total(cells),
    decreases cells.len(),
{
    lemma_unresolved_grow(cells, cells.len() - 1);
    assert(cells.take(cells.len() - 1) =~= cells.drop_last());
    if c < cells.len() - 1 {
        lemma_cell_within(cells.drop_last(), c);
    }
}

/// A pool of coordinators, each of which proves one block at a time.
#[derive(Debug)]
pub struct CoordinatorPool {
    pub n_coordinators: usize,
    pub cells_per_coordinator: usize,
    pub chunk_size: usize,
    pub queue_cap: usize,
}

/// What draining the queue came to.
#[derive(Debug)]
pub struct PoolOutcome {
    pub blocks_proven: u64,
    pub outcomes: Vec<InnerDispatchOutcome>,
    pub wall_ms: u64,
}

/// Proved chunks over all blocks.
pub open spec fn chunk_total(outcomes: Seq<InnerDispatchOutcome>) -> int
    decreases outcomes.len(),
{
    if outcomes.len() == 0 {
        0
    } else {
        chunk_total(outcomes.drop_last()) + outcomes.last().chunks@.len()
    }
}

/// Fetch time over all blocks.
pub open spec fn pool_fetch_total(outcomes: Seq<InnerDispatchOutcome>) -> int
    decreases outcomes.len(),
{
    if outcomes.len() == 0 {
        0
    } else {
        pool_fetch_total(outcomes.drop_last()) + fetch_total(outcomes.last().chunks@)
    }
}

proof fn lemma_pool_totals_grow(outcomes: Seq<InnerDispatchOutcome>, i: int)
    requires
        0 <= i <= outcomes.len(),
    ensures
        0 <= chunk_total(outcomes.take(i)) <= chunk_total(outcomes),
        0 <= pool_fetch_total(outcomes.take(i)) <= pool_fetch_total(outcomes),
    decreases outcomes.len(),
{
    if outcomes.len() > 0 {
        lemma_totals_grow(outcomes.last().chunks@, 0);
        if i < outcomes.len() {
            lemma_pool_totals_grow(outcomes.drop_last(), i);
            assert(outcomes.drop_last().take(i) =~= outcomes.take(i));
        } else {
            lemma_pool_totals_grow(outcomes.drop_last(), outcomes.len() - 1);
            assert(outcomes.take(i) =~= outcomes);
        }
    } else {
        assert(outcomes.take(i) =~= outcomes);
    }
}

impl Default for PoolOutcome {
    fn default() -> (r: Self)
        ensures
            r.blocks_proven == 0,
            r.outcomes@.len() == 0,
            r.wall_ms == 0,
    {
        PoolOutcome { blocks_proven: 0, outcomes: Vec::new(), wall_ms: 0 }
    }
}

impl PoolOutcome {
    /// Proved chunks over all blocks.
    pub fn total_chunks(&self) -> (r: usize)
        requires
            chunk_total(self.outcomes@) <= usize::MAX,
        ensures
            r == chunk_total(self.outcomes@),
    {
        let n: usize = self.outcomes.len();
        let mut sum: usize = 0;
        let mut i: usize = 0;
        assert(self.outcomes@.take(0) =~= Seq::<InnerDispatchOutcome>::empty());
        while i < n
            invariant
                i <= n == self.outcomes@.len(),
                chunk_total(self.outcomes@) <= usize::MAX,
                sum == chunk_total(self.outcomes@.take(i as int)),
            decreases n - i,
        {
            proof {
                lemma_pool_totals_grow(self.outcomes@, i + 1);
                assert(self.outcomes@.take(i + 1).drop_last() =~= self.outcomes@.take(i as int));
            }
            sum = sum + self.outcomes[i].chunks.len();
            i = i + 1;
        }
        assert(self.outcomes@.take(n as int) =~= self.outcomes@);
        sum
    }

    /// Milliseconds that resolving witnesses took, over all blocks.
    pub fn total_witness_fetch_ms(&self) -> (r: u64)
        requires
            pool_fetch_total(self.outcomes@) <= u64::MAX,
        ensures
            r == pool_fetch_total(self.outcomes@),
    {
        let n: usize = self.outcomes.len();
        let mut sum: u64 = 0;
        let mut i: usize = 0;
        assert(self.outcomes@.take(0) =~= Seq::<InnerDispatchOutcome>::empty());
        while i < n
            invariant
                i <= n == self.outcomes@.len(),
                pool_fetch_total(self.outcomes@) <= u64::MAX,
                sum == pool_fetch_total(self.outcomes@.take(i as int)),
            decreases n - i,
        {
            proof {
                lemma_pool_totals_grow(self.outcomes@, i + 1);
                assert(self.outcomes@.take(i + 1).drop_last() =~= self.outcomes@.take(i as int));
                lemma_pool_totals_grow(self.outcomes@, i as int);
            }
            sum = sum + self.outcomes[i].total_witness_fetch_ms();
            i = i + 1;
        }
        assert(self.outcomes@.take(n as int) =~= self.outcomes@);
        sum
    }
}

impl CoordinatorPool {
    pub fn new(
        n_coordinators: usize,
        cells_per_coordinator: usize,
        chunk_size: usize,
        queue_cap: usize,
    ) -> (r: Self)
        requires
            n_coordinators > 0,
            cells_per_coordinator > 0,
            chunk_size > 0,
            queue_cap > 0,
        ensures
            r.n_coordinators == n_coordinators,
            r.cells_per_coordinator == cells_per_coordinator,
            r.chunk_size == chunk_size,
            r.queue_cap == queue_cap,
    {
        CoordinatorPool { n_coordinators, cells_per_coordinator, chunk_size, queue_cap }
    }

    /// Drains the queue: every waiting block is proved once, and acknowledged once
    /// it is proved.
    pub fn run<Q: BlockQueue, R: WitnessResolver, P: Fn(&R::Payload) -> CellProveStat>(
        &self,
        queue: &mut Q,
        resolver: &R,
        prove: &P,
    ) -> (r: PoolOutcome)
        requires
            self.cells_per_coordinator > 0,
            self.chunk_size > 0,
            self.queue_cap > 0,
            resolver.wf(),
            proves_all::<R, P>(*prove),
            old(queue).waiting().len() <= u64::MAX,
        ensures
            final(queue).waiting().len() == 0,
            final(queue).acked() == old(queue).acked() + old(queue).waiting(),
            r.blocks_proven == old(queue).waiting().len(),
            r.outcomes@.len() == old(queue).waiting().len(),
            forall|i: int|
                #![trigger r.outcomes@[i]]
                0 <= i < r.outcomes@.len() ==> {
                    let block = old(queue).waiting()[i];
                    dispatched(
                        r.outcomes@[i],
                        block.height,
                        dispatch_width(
                            block.tx_count as int,
                            self.chunk_size as int,
                            resolver.width(block.height) as int,
                        ),
                        *resolver,
                        *prove,
                    )
                },
    {
        let started = clock::now();
        let ghost all = queue.waiting();
        let coordinator: Coordinator = Coordinator::new(self.chunk_size, self.queue_cap);
        let mut outcomes: Vec<InnerDispatchOutcome> = Vec::new();
        let mut next: Option<BlockJob> = queue.pull();
        assert(old(queue).acked() + all.take(0) =~= old(queue).acked());
        while next.is_some()
            invariant
                all == old(queue).waiting(),
                self.cells_per_coordinator > 0,
                self.chunk_size > 0,
                coordinator.chunk_size == self.chunk_size,
                resolver.wf(),
                proves_all::<R, P>(*prove),
                match next {
                    Some(block) => outcomes@.len() < all.len() && block == all[outcomes@.len() as int]
                        && queue.waiting() == all.subrange(outcomes@.len() as int + 1, all.len() as int),
                    None => outcomes@.len() == all.len() && queue.waiting().len() == 0,
                },
                queue.acked() == old(queue).acked() + all.take(outcomes@.len() as int),
                forall|i: int|
                    #![trigger outcomes@[i]]
                    0 <= i < outcomes@.len() ==> dispatched(
                        outcomes@[i],
                        all[i].height,
                        dispatch_width(
                            all[i].tx_count as int,
                            self.chunk_size as int,
                            resolver.width(all[i].height) as int,
                        ),
                        *resolver,
                        *prove,
                    ),
            decreases all.len() - outcomes@.len(),
        {
            let block: BlockJob = next.unwrap();
            let out: InnerDispatchOutcome = coordinator.prove_block(
                block,
                resolver,
                self.cells_per_coordinator,
                prove,
            );
            queue.ack(block);
            assert(queue.acked() =~= old(queue).acked() + all.take(outcomes@.len() as int + 1));
            outcomes.push(out);
            let ghost held = queue.waiting();
            next = queue.pull();
            proof {
                if next is Some {
                    assert(held.drop_first() =~= all.subrange(
                        outcomes@.len() as int + 1,
                        all.len() as int,
                    ));
                }
            }
        }
        assert(all.take(outcomes@.len() as int) =~= all);
        PoolOutcome {
            blocks_proven: outcomes.len() as u64,
            outcomes,
            wall_ms: clock::millis_since(&started),
        }
    }
}

/// Where the witness plane has every chunk of a block, every chunk is proved.
pub proof fn nothing_is_left_unresolved<R: WitnessResolver, P: Fn(&R::Payload) -> CellProveStat>(
    out: InnerDispatchOutcome,
    height: u64,
    k: int,
    resolver: R,
    prove: P,
)
    requires
        dispatched(out, height, k, resolver, prove),
        0 <= k <= u64::MAX,
        forall|i: int| 0 <= i < k ==> resolver.holds(#[trigger] chunk_key(height, i)),
    ensures
        out.unresolved == 0,
        out.chunks@.len() == k,
{
    lemma_enough_results(out.chunks@, height, k);
}

/// Results that name each of `k` chunks are at least `k`.
proof fn lemma_enough_results(chunks: Seq<ChunkResult>, height: u64, k: int)
    requires
        0 <= k <= u64::MAX,
        forall|i: int| 0 <= i < k ==> reported(chunks, #[trigger] chunk_key(height, i)),
    ensures
        chunks.len() >= k,
    decreases k,
{
    if k > 0 {
        assert(reported(chunks, chunk_key(height, k - 1)));
        let j = choose|j: int|
            0 <= j < chunks.len() && (#[trigger] chunks[j]).key == chunk_key(height, k - 1);
        let fewer = chunks.remove(j);
        assert forall|i: int| 0 <= i < k - 1 implies reported(
            fewer,
            #[trigger] chunk_key(height, i),
        ) by {
            assert(reported(chunks, chunk_key(height, i)));
            let y = choose|y: int|
                0 <= y < chunks.len() && (#[trigger] chunks[y]).key == chunk_key(height, i);
            if y < j {
                assert(fewer[y] == chunks[y]);
            } else {
                assert(y != j);
                assert(fewer[y - 1] == chunks[y]);
            }
        }
        lemma_enough_results(fewer, height, k - 1);
    }
}

/// A block is split into just as many chunks as hold its transactions, and no more
/// are dispatched than the witness plane has, where it has any.
pub proof fn splits_hold_every_transaction(tx_count: int, chunk_size: int, available: int)
    requires
        tx_count >= 0,
        chunk_size > 0,
        available > 0,
    ensures
        ({
            let k = dispatch_width(tx_count, chunk_size, 0);
            &&& k * chunk_size >= tx_count
            &&& (k - 1) * chunk_size < tx_count
            &&& dispatch_width(tx_count, chunk_size, available) == if k < available {
                k
            } else {
                available
            }
        }),
{
    let k = dispatch_width(tx_count, chunk_size, 0);
    vstd::arithmetic::div_mod::lemma_fundamental_div_mod(tx_count + chunk_size - 1, chunk_size);
    vstd::arithmetic::div_mod::lemma_mod_bound(tx_count + chunk_size - 1, chunk_size);
    assert(chunk_size * k == k * chunk_size) by (nonlinear_arith);
    assert((k - 1) * chunk_size == k * chunk_size - chunk_size) by (nonlinear_arith);
}

/// Reports add up: no result of a cell is lost or invented, and every chunk that was
/// not resolved is counted.
pub proof fn reports_add_up(a: Seq<CellReport>, b: Seq<CellReport>, c: CellReport)
    ensures
        gathered(a + b) == gathered(a) + gathered(b),
        unresolved_total(a + b) == unresolved_total(a) + unresolved_total(b),
        gathered(seq![c]) == c.results@,
        unresolved_total(seq![c]) == c.unresolved,
    decreases b.len(),
{
    reveal_with_fuel(gathered, 2);
    reveal_with_fuel(unresolved_total, 2);
    assert(seq![c].drop_last() =~= Seq::<CellReport>::empty());
    assert(gathered(seq![c]) =~= c.results@);
    if b.len() == 0 {
        assert(a + b =~= a);
        assert(gathered(a + b) =~= gathered(a) + gathered(b));
    } else {
        assert((a + b).drop_last() =~= a + b.drop_last());
        assert((a + b).last() == b.last());
        reports_add_up(a, b.drop_last(), c);
        assert(gathered(a + b) =~= gathered(a) + gathered(b));
    }
}

/// Times add up over chunks.
pub proof fn chunk_times_add_up(a: Seq<ChunkResult>, b: Seq<ChunkResult>, c: ChunkResult)
    ensures
        fetch_total(a + b) == fetch_total(a) + fetch_total(b),
        prove_total(a + b) == prove_total(a) + prove_total(b),
        fetch_total(seq![c]) == c.witness_fetch_ms,
        prove_total(seq![c]) == c.prove_ms,
    decreases b.len(),
{
    reveal_with_fuel(fetch_total, 2);
    reveal_with_fuel(prove_total, 2);
    assert(seq![c].drop_last() =~= Seq::<ChunkResult>::empty());
    if b.len() == 0 {
        assert(a + b =~= a);
    } else {
        assert((a + b).drop_last() =~= a + b.drop_last());
        assert((a + b).last() == b.last());
        chunk_times_add_up(a, b.drop_last(), c);
    }
}

/// Chunks and times add up over blocks.
pub proof fn block_totals_add_up(
    a: Seq<InnerDispatchOutcome>,
    b: Seq<InnerDispatchOutcome>,
    c: InnerDispatchOutcome,
)
    ensures
        chunk_total(a + b) == chunk_total(a) + chunk_total(b),
        pool_fetch_total(a + b) == pool_fetch_total(a) + pool_fetch_total(b),
        chunk_total(seq![c]) == c.chunks@.len(),
        pool_fetch_total(seq![c]) == fetch_total(c.chunks@),
    decreases b.len(),
{
    reveal_with_fuel(chunk_total, 2);
    reveal_with_fuel(pool_fetch_total, 2);
    assert(seq![c].drop_last() =~= Seq::<InnerDispatchOutcome>::empty());
    if b.len() == 0 {
        assert(a + b =~= a);
    } else {
        assert((a + b).drop_last() =~= a + b.drop_last());
        assert((a + b).last() == b.last());
        block_totals_add_up(a, b.drop_last(), c);
    }
}

/// Every result of a dispatched block comes of the witness of its own chunk, and no
/// chunk has two.
pub proof fn results_come_of_their_own_witness<
    R: WitnessResolver,
    P: Fn(&R::Payload) -> CellProveStat,
>(out: InnerDispatchOutcome, height: u64, k: int, resolver: R, prove: P, i: int, j: int)
    requires
        dispatched(out, height, k, resolver, prove),
        0 <= i < out.chunks@.len(),
        0 <= j < out.chunks@.len(),
    ensures
        out.chunks@[i].key.height == height,
        out.chunks@[i].key.witness_index < k,
        i != j ==> out.chunks@[i].key.witness_index != out.chunks@[j].key.witness_index,
        exists|slice: WitnessSlice<R::Payload>, stat: CellProveStat|
            #![trigger resolver.delivers(out.chunks@[i].key, slice), call_ensures(prove, (&slice.payload,), stat)]
            {
                &&& resolver.delivers(out.chunks@[i].key, slice)
                &&& call_ensures(prove, (&slice.payload,), stat)
                &&& out.chunks@[i].prove_ms == stat.prove_ms
                &&& out.chunks@[i].tx_count == slice.tx_count
            },
{
    assert(proved(resolver, prove, out.chunks@[i]));
    assert(out.chunks@[j].key.height == height);
    if i < j {
        assert(out.chunks@[i].key != out.chunks@[j].key);
    } else if j < i {
        assert(out.chunks@[j].key != out.chunks@[i].key);
    }
}

/// The outcome of a block tells of that block alone: its height, and of its chunks as
/// many as it says, proved or counted as missing.
pub proof fn outcomes_tell_of_their_block<
    R: WitnessResolver,
    P: Fn(&R::Payload) -> CellProveStat,
>(out: InnerDispatchOutcome, height: u64, k: int, resolver: R, prove: P, j: int)
    requires
        dispatched(out, height, k, resolver, prove),
        0 <= j < out.chunks@.len(),
    ensures
        out.chunks@[j].key.height == out.height,
        out.chunks@[j].key.witness_index < out.k,
        out.chunks@.len() + out.unresolved == out.k,
        out.height == height,
{
}

} // verus!
