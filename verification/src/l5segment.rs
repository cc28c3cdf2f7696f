//! Segments of a chain of blocks that are folded in parallel: where they start,
//! what each has to know of the blocks before it, and how a chain of blocks is
//! cut out of one block's transactions.

use crate::hash::HashOut;
use vstd::arithmetic::div_mod::*;
use vstd::arithmetic::mul::*;
use vstd::pervasive::cloned;
use vstd::prelude::*;

verus! {

/// The boundary before segment `k`: segments have `blocks / segments` blocks, and
/// the first ones take one more each until the remainder is used up.
pub open spec fn boundary(blocks: int, segments: int, k: int) -> int {
    let extra = blocks % segments;
    k * (blocks / segments) + if k < extra {
        k
    } else {
        extra
    }
}

/// The boundaries of `segment_count` segments over `block_count` blocks.
pub fn segment_split_points(block_count: usize, segment_count: usize) -> (r: Vec<usize>)
    requires
        1 <= segment_count <= block_count,
    ensures
        r@.len() == segment_count + 1,
        forall|k: int|
            0 <= k <= segment_count ==> #[trigger] r@[k] == boundary(
                block_count as int,
                segment_count as int,
                k,
            ),
        r@[0] == 0,
        r@[segment_count as int] == block_count,
{
    let base: usize = block_count / segment_count;
    let remainder: usize = block_count % segment_count;
    let mut points: Vec<usize> = Vec::new();
    points.push(0);
    let mut acc: usize = 0;
    let mut k: usize = 0;
    proof {
        lemma_last_boundary(block_count as int, segment_count as int);
        assert(0 * base == 0);
    }
    while k < segment_count
        invariant
            k <= segment_count,
            segment_count >= 1,
            base == block_count as int / segment_count as int,
            remainder == block_count as int % segment_count as int,
            acc == boundary(block_count as int, segment_count as int, k as int),
            points@.len() == k + 1,
            forall|i: int|
                0 <= i <= k ==> #[trigger] points@[i] == boundary(
                    block_count as int,
                    segment_count as int,
                    i,
                ),
            boundary(block_count as int, segment_count as int, segment_count as int) == block_count,
        decreases segment_count - k,
    {
        proof {
            lemma_boundary_step(block_count as int, segment_count as int, k as int);
            lemma_boundary_mono(
                block_count as int,
                segment_count as int,
                k as int + 1,
                segment_count as int,
            );
        }
        let size: usize = if k < remainder {
            base + 1
        } else {
            base
        };
        acc = acc + size;
        points.push(acc);
        k = k + 1;
    }
    points
}

proof fn lemma_boundary_step(n: int, s: int, k: int)
    requires
        s >= 1,
        n >= 0,
        k >= 0,
    ensures
        boundary(n, s, k + 1) - boundary(n, s, k) == n / s + if k < n % s {
            1int
        } else {
            0int
        },
        n / s >= 0,
        0 <= n % s < s,
{
    lemma_mod_bound(n, s);
    lemma_div_pos_is_pos(n, s);
    assert((k + 1) * (n / s) == k * (n / s) + n / s) by (nonlinear_arith);
}

proof fn lemma_boundary_mono(n: int, s: int, a: int, b: int)
    requires
        s >= 1,
        n >= 0,
        0 <= a <= b,
    ensures
        boundary(n, s, a) <= boundary(n, s, b),
    decreases b - a,
{
    if a < b {
        lemma_boundary_step(n, s, b - 1);
        lemma_boundary_mono(n, s, a, b - 1);
    }
}

proof fn lemma_last_boundary(n: int, s: int)
    requires
        s >= 1,
        n >= 0,
    ensures
        boundary(n, s, s) == n,
{
    lemma_fundamental_div_mod(n, s);
    lemma_mod_bound(n, s);
}

/// Segments differ by at most one block, and longer ones come first.
pub proof fn segments_are_balanced(n: int, s: int, i: int, j: int)
    requires
        1 <= s <= n,
        0 <= i <= j < s,
    ensures
        ({
            let a = boundary(n, s, i + 1) - boundary(n, s, i);
            let b = boundary(n, s, j + 1) - boundary(n, s, j);
            &&& 1 <= b <= a <= b + 1
        }),
{
    lemma_boundary_step(n, s, i);
    lemma_boundary_step(n, s, j);
    assert(n / s >= 1) by {
        lemma_div_is_ordered(s, n, s);
        lemma_div_basics(s);
    }
}

/// Every block lies in exactly one segment.
pub proof fn segments_cover_every_block(n: int, s: int, b: int)
    requires
        1 <= s <= n,
        0 <= b < n,
    ensures
        exists|k: int| 0 <= k < s && boundary(n, s, k) <= b < #[trigger] boundary(n, s, k + 1),
        forall|i: int, j: int|
            0 <= i < s && 0 <= j < s && boundary(n, s, i) <= b < #[trigger] boundary(n, s, i + 1)
                && boundary(n, s, j) <= b < #[trigger] boundary(n, s, j + 1) ==> i == j,
{
    lemma_last_boundary(n, s);
    lemma_find_segment(n, s, b, s);
    assert forall|i: int, j: int|
        0 <= i < s && 0 <= j < s && boundary(n, s, i) <= b < #[trigger] boundary(n, s, i + 1)
            && boundary(n, s, j) <= b < #[trigger] boundary(n, s, j + 1) implies i == j by {
        if i < j {
            lemma_boundary_mono(n, s, i + 1, j);
        } else if j < i {
            lemma_boundary_mono(n, s, j + 1, i);
        }
    }
}

proof fn lemma_find_segment(n: int, s: int, b: int, k: int)
    requires
        1 <= s <= n,
        0 <= k <= s,
        0 <= b < boundary(n, s, k),
    ensures
        exists|i: int| 0 <= i < s && boundary(n, s, i) <= b < #[trigger] boundary(n, s, i + 1),
    decreases k,
{
    assert(boundary(n, s, 0) == 0);
    if k > 0 {
        if boundary(n, s, k - 1) <= b {
            assert(boundary(n, s, (k - 1) + 1) == boundary(n, s, k));
        } else {
            lemma_find_segment(n, s, b, k - 1);
        }
    }
}

/// What a segment has to know before its first fold.
#[derive(Debug, Clone, Copy)]
pub struct SegmentSeed {
    /// The running hash of on-chain operations over all earlier blocks; zeros
    /// for the first segment.
    pub old_on_chain_operations_pub_data_hash: [u8; 32],
    /// Taken from the segment's first block.
    pub old_state_root: HashOut,
    pub old_account_delta_tree_root: HashOut,
    pub old_prefix_priority_operation_hash: [u8; 32],
}

/// The header fields of a block that a segment starts from.
#[derive(Debug, Clone, Copy)]
pub struct BlockHead {
    pub old_state_root: HashOut,
    pub old_account_delta_tree_root: HashOut,
    pub old_prefix_priority_operation_hash: [u8; 32],
}

/// Whether folding the first `n` blocks into `fresh`, one after the other, may
/// give `batch`. `aggregate` folds one block.
pub open spec fn aggregates_to<B, T, F: Fn(T, &B) -> T>(
    aggregate: F,
    fresh: T,
    blocks: Seq<B>,
    n: int,
    batch: T,
) -> bool
    decreases n,
{
    if n <= 0 {
        batch == fresh
    } else {
        exists|before: T|
            aggregates_to(aggregate, fresh, blocks, n - 1, before) && #[trigger] call_ensures(
                aggregate,
                (before, &blocks[n - 1]),
                batch,
            )
    }
}

/// Folds the first `n` blocks into `fresh`.
pub fn running_batch<B, T, F: Fn(T, &B) -> T>(blocks: &Vec<B>, n: usize, fresh: T, aggregate: &F) -> (r: T)
    requires
        n <= blocks@.len(),
        forall|t: T, b: &B| #[trigger] call_requires(*aggregate, (t, b)),
    ensures
        aggregates_to(*aggregate, fresh, blocks@, n as int, r),
{
    let mut batch: T = fresh;
    let mut i: usize = 0;
    while i < n
        invariant
            i <= n <= blocks@.len(),
            forall|t: T, b: &B| #[trigger] call_requires(*aggregate, (t, b)),
            aggregates_to(*aggregate, fresh, blocks@, i as int, batch),
        decreases n - i,
    {
        let ghost before = batch;
        batch = aggregate(batch, &blocks[i]);
        proof {
            assert(call_ensures(*aggregate, (before, &blocks@[(i + 1) - 1]), batch));
        }
        i = i + 1;
    }
    batch
}

/// Whether `hash` may be the running hash over the first `n` blocks.
pub open spec fn is_running_hash<
    B,
    T,
    N: Fn() -> T,
    F: Fn(T, &B) -> T,
    X: Fn(&T) -> [u8; 32],
>(
    hash: [u8; 32],
    blocks: Seq<B>,
    n: int,
    fresh: N,
    aggregate: F,
    hash_of: X,
) -> bool {
    exists|empty: T, batch: T|
        #![trigger aggregates_to(aggregate, empty, blocks, n, batch)]
        call_ensures(fresh, (), empty) && aggregates_to(aggregate, empty, blocks, n, batch)
            && call_ensures(hash_of, (&batch,), hash)
}

/// What the seed of segment `k` is: the header fields of its first block, and
/// the running hash over the blocks before it.
pub open spec fn seed_of<
    B,
    T,
    N: Fn() -> T,
    F: Fn(T, &B) -> T,
    H: Fn(&B) -> BlockHead,
    X: Fn(&T) -> [u8; 32],
>(
    seed: SegmentSeed,
    blocks: Seq<B>,
    start: int,
    k: int,
    fresh: N,
    aggregate: F,
    head_of: H,
    hash_of: X,
) -> bool {
    &&& exists|head: BlockHead| #[trigger]
        call_ensures(head_of, (&blocks[start],), head) && seed.old_state_root == head.old_state_root
            && seed.old_account_delta_tree_root == head.old_account_delta_tree_root
            && seed.old_prefix_priority_operation_hash == head.old_prefix_priority_operation_hash
    &&& if k == 0 {
        seed.old_on_chain_operations_pub_data_hash@ == Seq::new(32, |i: int| 0u8)
    } else {
        is_running_hash(
            seed.old_on_chain_operations_pub_data_hash,
            blocks,
            start,
            fresh,
            aggregate,
            hash_of,
        )
    }
}

/// The seeds of all segments. The batch aggregation of the circuits comes in as
/// `fresh`, `aggregate` and `hash_of`, and the header of a block as `head_of`.
pub fn host_prepass<
    B,
    T,
    N: Fn() -> T,
    F: Fn(T, &B) -> T,
    H: Fn(&B) -> BlockHead,
    X: Fn(&T) -> [u8; 32],
>(
    blocks: &Vec<B>,
    split_points: &Vec<usize>,
    fresh: &N,
    aggregate: &F,
    head_of: &H,
    hash_of: &X,
) -> (r: Vec<SegmentSeed>)
    requires
        split_points@.len() >= 2,
        split_points@.last() == blocks@.len(),
        forall|k: int|
            0 <= k < split_points@.len() - 1 ==> #[trigger] split_points@[k] < blocks@.len(),
        call_requires(*fresh, ()),
        forall|t: T, b: &B| #[trigger] call_requires(*aggregate, (t, b)),
        forall|b: &B| #[trigger] call_requires(*head_of, (b,)),
        forall|t: &T| #[trigger] call_requires(*hash_of, (t,)),
    ensures
        r@.len() == split_points@.len() - 1,
        forall|k: int|
            #![trigger r@[k]]
            0 <= k < r@.len() ==> seed_of(
                r@[k],
                blocks@,
                split_points@[k] as int,
                k,
                *fresh,
                *aggregate,
                *head_of,
                *hash_of,
            ),
{
    let count: usize = split_points.len() - 1;
    let mut seeds: Vec<SegmentSeed> = Vec::new();
    let mut k: usize = 0;
    while k < count
        invariant
            k <= count,
            count == split_points@.len() - 1,
            forall|i: int|
                0 <= i < split_points@.len() - 1 ==> #[trigger] split_points@[i] < blocks@.len(),
            call_requires(*fresh, ()),
            forall|t: T, b: &B| #[trigger] call_requires(*aggregate, (t, b)),
            forall|b: &B| #[trigger] call_requires(*head_of, (b,)),
            forall|t: &T| #[trigger] call_requires(*hash_of, (t,)),
            seeds@.len() == k,
            forall|i: int|
                #![trigger seeds@[i]]
                0 <= i < k ==> seed_of(
                    seeds@[i],
                    blocks@,
                    split_points@[i] as int,
                    i,
                    *fresh,
                    *aggregate,
                    *head_of,
                    *hash_of,
                ),
        decreases count - k,
    {
        let start: usize = split_points[k];
        let head: BlockHead = head_of(&blocks[start]);
        let hash: [u8; 32];
        if k == 0 {
            hash = [0u8; 32];
            assert(hash@ =~= Seq::new(32, |i: int| 0u8));
        } else {
            let empty: T = fresh();
            let ghost start_batch = empty;
            assert(call_ensures(*fresh, (), start_batch));
            let batch: T = running_batch(blocks, start, empty, aggregate);
            hash = hash_of(&batch);
            assert(aggregates_to(*aggregate, start_batch, blocks@, start as int, batch));
            assert(is_running_hash(hash, blocks@, start as int, *fresh, *aggregate, *hash_of));
        }
        let seed = SegmentSeed {
            old_on_chain_operations_pub_data_hash: hash,
            old_state_root: head.old_state_root,
            old_account_delta_tree_root: head.old_account_delta_tree_root,
            old_prefix_priority_operation_hash: head.old_prefix_priority_operation_hash,
        };
        proof {
            assert(call_ensures(*head_of, (&blocks@[start as int],), head));
            assert(seed_of(
                seed,
                blocks@,
                start as int,
                k as int,
                *fresh,
                *aggregate,
                *head_of,
                *hash_of,
            ));
        }
        seeds.push(seed);
        k = k + 1;
    }
    seeds
}

/// The state that a block's proof leaves for the next one. `L` is what only the
/// circuits read: assets, market details, register stack, configuration and
/// metadata.
#[derive(Debug, Clone)]
pub struct Rolling<L> {
    pub ledger: L,
    pub account_tree_root: HashOut,
    pub account_pub_data_tree_root: HashOut,
    pub account_delta_tree_root: HashOut,
    pub market_tree_root: HashOut,
}

/// What a block's proof says of the block.
#[derive(Debug, Clone, Copy)]
pub struct BlockProofOutput {
    pub new_state_root: HashOut,
    pub new_prefix_priority_operation_hash: [u8; 32],
}

/// A block of a chain, with transactions `T` and fields `O` that chaining does
/// not touch.
#[derive(Debug)]
pub struct ChainBlock<L, T, O> {
    pub block_number: u64,
    pub created_at: i64,
    pub ledger: L,
    pub old_account_tree_root: HashOut,
    pub old_account_pub_data_tree_root: HashOut,
    pub old_account_delta_tree_root: HashOut,
    pub old_market_tree_root: HashOut,
    pub old_state_root: HashOut,
    pub old_prefix_priority_operation_hash: [u8; 32],
    pub txs: Vec<T>,
    pub other: O,
}

/// The transactions of block `index` of a chain over `txs`.
pub open spec fn chain_slice<T>(txs: Seq<T>, index: int, tx_per_block: int) -> Seq<T> {
    txs.subrange(index * tx_per_block, (index + 1) * tx_per_block)
}

/// Whether `r` is the block after block `prev_index` of a chain.
pub open spec fn follows_in_chain<L: Clone, T: Clone, O: Clone>(
    base: ChainBlock<L, T, O>,
    prev_index: int,
    tx_per_block: int,
    prev_rolling: Rolling<L>,
    prev_bw: BlockProofOutput,
    r: ChainBlock<L, T, O>,
) -> bool {
    &&& r.block_number == base.block_number + prev_index + 1
    &&& r.created_at == base.created_at + prev_index + 1
    &&& cloned(prev_rolling.ledger, r.ledger)
    &&& r.old_account_tree_root == prev_rolling.account_tree_root
    &&& r.old_account_pub_data_tree_root == prev_rolling.account_pub_data_tree_root
    &&& r.old_account_delta_tree_root == prev_rolling.account_delta_tree_root
    &&& r.old_market_tree_root == prev_rolling.market_tree_root
    &&& r.old_state_root == prev_bw.new_state_root
    &&& r.old_prefix_priority_operation_hash == prev_bw.new_prefix_priority_operation_hash
    &&& r.txs@.len() == tx_per_block
    &&& forall|i: int|
        0 <= i < tx_per_block ==> cloned(
            chain_slice(base.txs@, prev_index + 1, tx_per_block)[i],
            #[trigger] r.txs@[i],
        )
    &&& cloned(base.other, r.other)
}

/// The block after block `prev_index` of a chain: the next slice of the base
/// block's transactions, on top of the state that the previous block left.
pub fn chain_next_block<L: Clone, T: Clone, O: Clone>(
    base: &ChainBlock<L, T, O>,
    prev_index: usize,
    tx_per_block: usize,
    prev_rolling: &Rolling<L>,
    prev_bw: &BlockProofOutput,
) -> (r: ChainBlock<L, T, O>)
    requires
        prev_index + 1 <= usize::MAX,
        (prev_index + 2) * tx_per_block <= base.txs@.len(),
        base.block_number + prev_index + 1 <= u64::MAX,
        base.created_at + prev_index + 1 <= i64::MAX,
        prev_index + 1 <= i64::MAX,
    ensures
        follows_in_chain(*base, prev_index as int, tx_per_block as int, *prev_rolling, *prev_bw, r),
{
    let next_i: usize = prev_index + 1;
    proof {
        assert((prev_index + 2) * tx_per_block == (prev_index + 1) * tx_per_block + tx_per_block)
            by (nonlinear_arith);
        assert((prev_index + 1) * tx_per_block >= 0) by (nonlinear_arith);
    }
    let len: usize = base.txs.len();
    let start: usize = next_i * tx_per_block;
    let mut txs: Vec<T> = Vec::new();
    let mut i: usize = 0;
    while i < tx_per_block
        invariant
            i <= tx_per_block,
            len == base.txs@.len(),
            start == (prev_index + 1) * tx_per_block,
            start + tx_per_block <= len,
            txs@.len() == i,
            forall|j: int|
                0 <= j < i ==> cloned(
                    base.txs@[(prev_index + 1) * tx_per_block + j],
                    #[trigger] txs@[j],
                ),
        decreases tx_per_block - i,
    {
        txs.push(base.txs[start + i].clone());
        i = i + 1;
    }
    ChainBlock {
        block_number: base.block_number + next_i as u64,
        created_at: base.created_at + next_i as i64,
        ledger: prev_rolling.ledger.clone(),
        old_account_tree_root: prev_rolling.account_tree_root,
        old_account_pub_data_tree_root: prev_rolling.account_pub_data_tree_root,
        old_account_delta_tree_root: prev_rolling.account_delta_tree_root,
        old_market_tree_root: prev_rolling.market_tree_root,
        old_state_root: prev_bw.new_state_root,
        old_prefix_priority_operation_hash: prev_bw.new_prefix_priority_operation_hash,
        txs,
        other: base.other.clone(),
    }
}

/// The transactions of the first `blocks` blocks of a chain, one block after the
/// other.
pub open spec fn chained<T>(txs: Seq<T>, tx_per_block: int, blocks: nat) -> Seq<T>
    decreases blocks,
{
    if blocks == 0 {
        Seq::empty()
    } else {
        chained(txs, tx_per_block, (blocks - 1) as nat) + chain_slice(txs, blocks - 1, tx_per_block)
    }
}

/// The slices of a chain follow each other without gap or overlap: one after the
/// other they are the transactions that the chain began with.
pub proof fn chained_slices_are_contiguous<T>(txs: Seq<T>, tx_per_block: int, blocks: nat)
    requires
        tx_per_block >= 0,
        blocks * tx_per_block <= txs.len(),
    ensures
        chained(txs, tx_per_block, blocks) == txs.take(blocks * tx_per_block),
    decreases blocks,
{
    if blocks > 0 {
        let fewer = blocks - 1;
        assert(blocks * tx_per_block == fewer * tx_per_block + tx_per_block) by (nonlinear_arith)
            requires
                fewer == blocks - 1,
        ;
        assert(fewer * tx_per_block >= 0) by (nonlinear_arith)
            requires
                fewer >= 0,
                tx_per_block >= 0,
        ;
        chained_slices_are_contiguous(txs, tx_per_block, fewer as nat);
        assert(txs.take(blocks * tx_per_block) =~= txs.take(fewer * tx_per_block) + chain_slice(
            txs,
            fewer,
            tx_per_block,
        ));
    } else {
        assert(blocks * tx_per_block == 0) by (nonlinear_arith)
            requires
                blocks == 0,
        ;
        assert(txs.take(0) =~= Seq::<T>::empty());
    }
}

/// Every block of a chain starts where the one before it ended: each old root is the
/// root that was left under the same name, and numbers and moments go up by one.
pub proof fn blocks_start_where_the_last_ended<L: Clone, T: Clone, O: Clone>(
    base: ChainBlock<L, T, O>,
    index: int,
    tx_per_block: int,
    rolling: Rolling<L>,
    bw: BlockProofOutput,
    later: Rolling<L>,
    later_bw: BlockProofOutput,
    block: ChainBlock<L, T, O>,
    next: ChainBlock<L, T, O>,
)
    requires
        follows_in_chain(base, index, tx_per_block, rolling, bw, block),
        follows_in_chain(base, index + 1, tx_per_block, later, later_bw, next),
    ensures
        next.block_number == block.block_number + 1,
        next.created_at == block.created_at + 1,
        next.old_state_root == later_bw.new_state_root,
        next.old_prefix_priority_operation_hash@ == later_bw.new_prefix_priority_operation_hash@,
        next.old_account_tree_root == later.account_tree_root,
        next.old_account_pub_data_tree_root == later.account_pub_data_tree_root,
        next.old_account_delta_tree_root == later.account_delta_tree_root,
        next.old_market_tree_root == later.market_tree_root,
        cloned(later.ledger, next.ledger),
        next.txs@.len() == block.txs@.len(),
{
}

/// Folding may stop anywhere and go on from there: what the first `m` blocks were
/// folded into is where the rest goes on.
pub proof fn runs_split_anywhere<B, T, F: Fn(T, &B) -> T>(
    aggregate: F,
    fresh: T,
    blocks: Seq<B>,
    m: int,
    n: int,
    batch: T,
)
    requires
        0 <= m <= n <= blocks.len(),
    ensures
        aggregates_to(aggregate, fresh, blocks, n, batch) <==> exists|middle: T| #[trigger]
            aggregates_to(aggregate, fresh, blocks, m, middle) && aggregates_to(
                aggregate,
                middle,
                blocks.skip(m),
                n - m,
                batch,
            ),
    decreases n - m,
{
    if m == n {
        if aggregates_to(aggregate, fresh, blocks, n, batch) {
            assert(aggregates_to(aggregate, batch, blocks.skip(m), 0, batch));
        }
    } else {
        let rest = blocks.skip(m);
        assert(rest[n - m - 1] == blocks[n - 1]);
        if aggregates_to(aggregate, fresh, blocks, n, batch) {
            let before = choose|before: T|
                aggregates_to(aggregate, fresh, blocks, n - 1, before) && #[trigger] call_ensures(
                    aggregate,
                    (before, &blocks[n - 1]),
                    batch,
                );
            runs_split_anywhere(aggregate, fresh, blocks, m, n - 1, before);
            let middle = choose|middle: T| #[trigger]
                aggregates_to(aggregate, fresh, blocks, m, middle) && aggregates_to(
                    aggregate,
                    middle,
                    rest,
                    n - 1 - m,
                    before,
                );
            assert(call_ensures(aggregate, (before, &rest[(n - m) - 1]), batch));
            assert(aggregates_to(aggregate, middle, rest, n - m, batch));
        }
        if exists|middle: T| #[trigger]
            aggregates_to(aggregate, fresh, blocks, m, middle) && aggregates_to(
                aggregate,
                middle,
                rest,
                n - m,
                batch,
            ) {
            let middle = choose|middle: T| #[trigger]
                aggregates_to(aggregate, fresh, blocks, m, middle) && aggregates_to(
                    aggregate,
                    middle,
                    rest,
                    n - m,
                    batch,
                );
            let before = choose|before: T|
                aggregates_to(aggregate, middle, rest, (n - m) - 1, before)
                    && #[trigger] call_ensures(aggregate, (before, &rest[(n - m) - 1]), batch);
            runs_split_anywhere(aggregate, fresh, blocks, m, n - 1, before);
            assert(call_ensures(aggregate, (before, &blocks[n - 1]), batch));
        }
    }
}

/// Folding one block asks the aggregation once, for that block.
pub proof fn one_block_is_folded_once<B, T, F: Fn(T, &B) -> T>(
    aggregate: F,
    fresh: T,
    block: B,
    batch: T,
)
    ensures
        aggregates_to(aggregate, fresh, seq![block], 1, batch) <==> call_ensures(
            aggregate,
            (fresh, &block),
            batch,
        ),
        aggregates_to(aggregate, fresh, Seq::<B>::empty(), 0, batch) <==> batch == fresh,
{
    reveal_with_fuel(aggregates_to, 2);
    let one = seq![block];
    assert(one[0] == block);
    if call_ensures(aggregate, (fresh, &block), batch) {
        assert(aggregates_to(aggregate, fresh, one, 0, fresh));
        assert(call_ensures(aggregate, (fresh, &one[1 - 1]), batch));
    }
}

/// A segment starts from the header of its own first block, and, unless it is the
/// first, from the hash over exactly the blocks before it.
pub proof fn seeds_belong_to_their_segment<
    B,
    T,
    N: Fn() -> T,
    F: Fn(T, &B) -> T,
    H: Fn(&B) -> BlockHead,
    X: Fn(&T) -> [u8; 32],
>(
    seed: SegmentSeed,
    blocks: Seq<B>,
    start: int,
    k: int,
    fresh: N,
    aggregate: F,
    head_of: H,
    hash_of: X,
    head: BlockHead,
)
    requires
        seed_of(seed, blocks, start, k, fresh, aggregate, head_of, hash_of),
        forall|b: B, x: BlockHead, y: BlockHead| #[trigger]
            call_ensures(head_of, (&b,), x) && #[trigger] call_ensures(head_of, (&b,), y) ==> x == y,
        call_ensures(head_of, (&blocks[start],), head),
    ensures
        seed.old_state_root == head.old_state_root,
        seed.old_account_delta_tree_root == head.old_account_delta_tree_root,
        seed.old_prefix_priority_operation_hash == head.old_prefix_priority_operation_hash,
        k == 0 ==> forall|i: int|
            0 <= i < 32 ==> #[trigger] seed.old_on_chain_operations_pub_data_hash@[i] == 0,
        k != 0 ==> exists|empty: T, batch: T|
            #![trigger aggregates_to(aggregate, empty, blocks, start, batch)]
            call_ensures(fresh, (), empty) && aggregates_to(aggregate, empty, blocks, start, batch)
                && call_ensures(hash_of, (&batch,), seed.old_on_chain_operations_pub_data_hash),
{
}

} // verus!
