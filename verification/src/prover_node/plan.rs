//! The workload plan: three operator knobs and a radix, from which everything
//! else is derived and checked before any work is seeded.

use crate::prover_node::geometry::{ceil_div, is_depth, tree_depth};
use crate::text::{dec, push_dec};
use vstd::arithmetic::div_mod::*;
use vstd::prelude::*;
use vstd::string::*;

verus! {

/// The largest fan-in that the reduction-tree circuits have.
pub const HEX_RADIX: usize = 16;

/// Whether `d` divides `n`.
pub open spec fn divides(d: int, n: int) -> bool {
    d > 0 && n % d == 0
}

/// All divisors of `n` in ascending order; none for 0.
pub fn divisors(n: usize) -> (r: Vec<usize>)
    ensures
        n == 0 ==> r@.len() == 0,
        forall|i: int, j: int| 0 <= i < j < r@.len() ==> r@[i] < r@[j],
        n > 0 ==> forall|d: usize| r@.contains(d) <==> #[trigger] divides(d as int, n as int),
{
    if n == 0 {
        return Vec::new();
    }
    let mut small: Vec<usize> = Vec::new();
    let mut large: Vec<usize> = Vec::new();
    let mut d: usize = 1;
    proof {
        assert forall|e: usize|
            divides(e as int, n as int) && n / e < e && n / e < d implies #[trigger] large@.contains(
            e,
        ) by {
            lemma_cofactor(n as int, e as int);
        }
    }
    while d <= n / d
        invariant
            n > 0,
            1 <= d <= n + 1,
            forall|e: usize|
                e < d && #[trigger] divides(e as int, n as int) && e <= n / e ==> small@.contains(e),
            forall|i: int, j: int| 0 <= i < j < small@.len() ==> small@[i] < small@[j],
            forall|i: int|
                0 <= i < small@.len() ==> {
                    &&& divides((#[trigger] small@[i]) as int, n as int)
                    &&& small@[i] <= n / small@[i]
                    &&& small@[i] < d
                },
            forall|i: int|
                0 <= i < large@.len() ==> {
                    &&& divides((#[trigger] large@[i]) as int, n as int)
                    &&& n / large@[i] < d
                    &&& n / large@[i] < large@[i]
                },
            forall|e: usize|
                divides(e as int, n as int) && n / e < e && n / e < d ==> #[trigger] large@.contains(e),
            forall|i: int, j: int| 0 <= i < j < large@.len() ==> large@[i] > large@[j],
        decreases n + 1 - d,
    {
        let ghost small_before = small@;
        let ghost large_before = large@;
        proof {
            lemma_div_bounds(n as int, d as int);
        }
        if n % d == 0 {
            small.push(d);
            let q: usize = n / d;
            proof {
                lemma_cofactor(n as int, d as int);
            }
            if d != q {
                large.push(q);
            }
            proof {
                assert(small@[small@.len() - 1] == d);
                assert forall|e: usize|
                    e < d + 1 && #[trigger] divides(e as int, n as int) && e <= n
                        / e implies small@.contains(e) by {
                    if e < d {
                        assert(small_before.contains(e));
                        let i = choose|i: int| 0 <= i < small_before.len() && small_before[i] == e;
                        assert(small@[i] == e);
                    }
                }
                assert forall|i: int| 0 <= i < small@.len() implies {
                    &&& divides((#[trigger] small@[i]) as int, n as int)
                    &&& small@[i] <= n / small@[i]
                    &&& small@[i] < d + 1
                } by {
                    if i < small_before.len() {
                        assert(small@[i] == small_before[i]);
                    }
                }
                assert forall|i: int| 0 <= i < large@.len() implies {
                    &&& divides((#[trigger] large@[i]) as int, n as int)
                    &&& n / large@[i] < d + 1
                    &&& n / large@[i] < large@[i]
                } by {
                    if i < large_before.len() {
                        assert(large@[i] == large_before[i]);
                    }
                }
                assert forall|e: usize|
                    divides(e as int, n as int) && n / e < e && n / e
                        < d + 1 implies #[trigger] large@.contains(e) by {
                    lemma_cofactor(n as int, e as int);
                    if n / e < d {
                        assert(large_before.contains(e));
                        let i = choose|i: int| 0 <= i < large_before.len() && large_before[i] == e;
                        assert(large@[i] == e);
                    } else {
                        assert(n / e == d);
                        assert(e == q);
                        assert(large@[large@.len() - 1] == q);
                    }
                }
                assert forall|i: int, j: int| 0 <= i < j < large@.len() implies large@[i] > large@[j] by {
                    if j == large_before.len() {
                        let e = large_before[i];
                        assert(large@[i] == e);
                        assert(n / e < d);
                        lemma_cofactor(n as int, e as int);
                        lemma_smaller_cofactor(n as int, e as int, q as int);
                    }
                }
            }
        } else {
            proof {
                assert(!divides(d as int, n as int));
                assert forall|e: usize|
                    divides(e as int, n as int) && n / e < e && n / e
                        < d + 1 implies #[trigger] large@.contains(e) by {
                    if n / e >= d {
                        lemma_cofactor(n as int, e as int);
                        assert(n / e == d);
                        assert(divides(d as int, n as int));
                    }
                }
            }
        }
        d = d + 1;
    }
    let ghost lows = small@;
    let ghost highs = large@;
    proof {
        assert forall|e: usize| #[trigger] divides(e as int, n as int) implies lows.contains(e)
            || highs.contains(e) by {
            lemma_cofactor(n as int, e as int);
            let f = n / e;
            if e <= f {
                if e >= d {
                    lemma_cofactor_order(n as int, d as int, e as int);
                }
            } else {
                if f >= d {
                    lemma_cofactor_order(n as int, d as int, f as int);
                }
            }
        }
        assert forall|i: int, j: int| 0 <= i < lows.len() && 0 <= j < highs.len() implies lows[i]
            < highs[j] by {
            let a = lows[i];
            let b = highs[j];
            assert(lows.contains(a));
            lemma_cofactor(n as int, a as int);
            lemma_cofactor(n as int, b as int);
            if a >= b {
                lemma_cofactor_order(n as int, b as int, a as int);
            }
        }
    }
    let total: usize = large.len();
    let mut k: usize = total;
    while k > 0
        invariant
            k <= total == highs.len(),
            large@ == highs,
            small@.len() == lows.len() + (total - k),
            forall|i: int| 0 <= i < lows.len() ==> #[trigger] small@[i] == lows[i],
            forall|i: int|
                lows.len() <= i < small@.len() ==> #[trigger] small@[i] == highs[total - 1 - (i
                    - lows.len())],
        decreases k,
    {
        k = k - 1;
        small.push(large[k]);
    }
    proof {
        assert forall|i: int, j: int| 0 <= i < j < small@.len() implies small@[i] < small@[j] by {
            if i >= lows.len() {
                assert(small@[i] == highs[total - 1 - (i - lows.len())]);
                assert(small@[j] == highs[total - 1 - (j - lows.len())]);
            } else if j >= lows.len() {
                assert(small@[i] == lows[i]);
                assert(small@[j] == highs[total - 1 - (j - lows.len())]);
            }
        }
        assert forall|e: usize| small@.contains(e) <==> #[trigger] divides(e as int, n as int) by {
            if small@.contains(e) {
                let i = choose|i: int| 0 <= i < small@.len() && small@[i] == e;
                if i < lows.len() {
                    assert(lows.contains(lows[i]));
                } else {
                    assert(divides(highs[total - 1 - (i - lows.len())] as int, n as int));
                }
            }
            if divides(e as int, n as int) {
                if lows.contains(e) {
                    let i = choose|i: int| 0 <= i < lows.len() && lows[i] == e;
                    assert(small@[i] == e);
                } else {
                    let j = choose|j: int| 0 <= j < highs.len() && highs[j] == e;
                    assert(small@[lows.len() + (total - 1 - j)] == e);
                }
            }
        }
    }
    small
}

proof fn lemma_div_bounds(n: int, d: int)
    requires
        n > 0,
        d > 0,
        d <= n / d,
    ensures
        d <= n,
        d == 1 || 2 * d <= n,
{
    lemma_fundamental_div_mod(n, d);
    lemma_mod_bound(n, d);
    let q = n / d;
    assert(d * d <= n) by (nonlinear_arith)
        requires
            n == d * q + n % d,
            n % d >= 0,
            q >= d,
            d > 0,
    ;
    assert(d <= d * d) by (nonlinear_arith)
        requires
            d >= 1,
    ;
    if d >= 2 {
        assert(2 * d <= d * d) by (nonlinear_arith)
            requires
                d >= 2,
        ;
    }
}

/// The cofactor of a divisor is a divisor, whose cofactor is the divisor.
proof fn lemma_cofactor(n: int, d: int)
    requires
        n > 0,
        divides(d, n),
    ensures
        n / d > 0,
        n == d * (n / d),
        divides(n / d, n),
        n / (n / d) == d,
        d <= n,
{
    lemma_fundamental_div_mod(n, d);
    let q = n / d;
    assert(q > 0) by (nonlinear_arith)
        requires
            n == d * q,
            n > 0,
            d > 0,
    ;
    lemma_fundamental_div_mod_converse(n, q, d, 0);
    assert(d <= n) by (nonlinear_arith)
        requires
            n == d * q,
            q >= 1,
            d > 0,
    ;
}

proof fn lemma_smaller_cofactor(n: int, e: int, q: int)
    requires
        n > 0,
        divides(e, n),
        divides(q, n),
        n / e < n / q,
    ensures
        e > q,
{
    lemma_cofactor(n, e);
    lemma_cofactor(n, q);
    let a = n / e;
    let b = n / q;
    assert(e > q) by (nonlinear_arith)
        requires
            n == e * a,
            n == q * b,
            a < b,
            a > 0,
            q > 0,
            e > 0,
            n > 0,
    ;
}

proof fn lemma_cofactor_order(n: int, d: int, e: int)
    requires
        n > 0,
        0 < d <= e,
    ensures
        n / e <= n / d,
{
    lemma_div_is_ordered_by_denominator(n, d, e);
}

/// The decimal numerals of `s`, separated by commas.
pub open spec fn comma_list(s: Seq<usize>) -> Seq<char>
    decreases s.len(),
{
    if s.len() == 0 {
        Seq::empty()
    } else if s.len() == 1 {
        dec(s[0] as nat)
    } else {
        comma_list(s.drop_last()) + ","@ + dec(s.last() as nat)
    }
}

fn push_comma_list(out: &mut String, v: &Vec<usize>)
    ensures
        final(out)@ == old(out)@ + comma_list(v@),
{
    let n: usize = v.len();
    let mut i: usize = 0;
    assert(v@.take(0) =~= Seq::<usize>::empty());
    assert(out@ =~= old(out)@ + comma_list(v@.take(0)));
    while i < n
        invariant
            i <= n == v@.len(),
            out@ == old(out)@ + comma_list(v@.take(i as int)),
        decreases n - i,
    {
        let ghost before = out@;
        if i > 0 {
            out.append(",");
        }
        push_dec(out, v[i] as u64);
        assert(v@.take(i + 1).drop_last() =~= v@.take(i as int));
        assert(out@ =~= old(out)@ + comma_list(v@.take(i + 1)));
        i = i + 1;
    }
    assert(v@.take(n as int) =~= v@);
}

/// The geometry of a run: what the operator asked for and what follows from it.
#[derive(Clone, Debug, PartialEq, Eq)]
pub struct WorkloadPlan {
    /// How often the block is replayed, each time as a tree of its own.
    pub blocks: usize,
    /// Transactions proved per block.
    pub txs_per_block: usize,
    /// Transactions per leaf; divides `txs_per_block`.
    pub txs_per_chunk: usize,
    /// Fan-in of the tree.
    pub radix: usize,
    /// Transactions that the loaded block really has.
    pub block_tx_count: usize,
    /// Leaves per block.
    pub leaf_count_per_block: usize,
    /// Levels above the leaves.
    pub depth: usize,
}

/// What is wrong with a workload.
pub enum PlanFault {
    RadixTooSmall,
    RadixTooLarge,
    NoBlocks,
    EmptyBlock,
    TooManyTxs,
    EmptyChunk,
    UnevenChunks,
}

/// How many transactions per block are meant: 0 stands for all of them.
pub open spec fn meant_txs(txs_per_block: usize, block_tx_count: usize) -> usize {
    if txs_per_block == 0 {
        block_tx_count
    } else {
        txs_per_block
    }
}

/// The first fault of a workload, if it has any.
pub open spec fn plan_fault(
    blocks: usize,
    txs_per_block: usize,
    txs_per_chunk: usize,
    radix: usize,
    block_tx_count: usize,
) -> Option<PlanFault> {
    let t = meant_txs(txs_per_block, block_tx_count);
    if radix < 2 {
        Some(PlanFault::RadixTooSmall)
    } else if radix > HEX_RADIX {
        Some(PlanFault::RadixTooLarge)
    } else if blocks < 1 {
        Some(PlanFault::NoBlocks)
    } else if block_tx_count == 0 {
        Some(PlanFault::EmptyBlock)
    } else if t > block_tx_count {
        Some(PlanFault::TooManyTxs)
    } else if txs_per_chunk == 0 {
        Some(PlanFault::EmptyChunk)
    } else if !divides(txs_per_chunk as int, t as int) {
        Some(PlanFault::UnevenChunks)
    } else {
        None
    }
}

/// Whether `s` lists the divisors of `n` in ascending order.
pub open spec fn lists_divisors(s: Seq<usize>, n: usize) -> bool {
    &&& forall|i: int, j: int| 0 <= i < j < s.len() ==> s[i] < s[j]
    &&& forall|d: usize| s.contains(d) <==> #[trigger] divides(d as int, n as int)
}

/// What the operator is told of a fault.
pub open spec fn fault_text(
    fault: PlanFault,
    text: Seq<char>,
    blocks: usize,
    txs_per_block: usize,
    txs_per_chunk: usize,
    radix: usize,
    block_tx_count: usize,
) -> bool {
    let t = meant_txs(txs_per_block, block_tx_count) as nat;
    let n = block_tx_count as nat;
    match fault {
        PlanFault::RadixTooSmall => text == "radix must be >= 2 (got "@ + dec(radix as nat)
            + "); the reduction-tree fan-in cannot be < 2."@,
        PlanFault::RadixTooLarge => text == "radix "@ + dec(radix as nat)
            + " exceeds the reduction-tree node fan-in 16; use --radix in [2, 16] (the two built radixes are 2 and 16)."@,
        PlanFault::NoBlocks => text == "--blocks B must be >= 1 (got "@ + dec(blocks as nat)
            + "). B is the replay count: the same block is proved B times as B independent, namespaced trees. There is no distinct-block corpus on this branch, so B==0 is meaningless."@,
        PlanFault::EmptyBlock => text
            == "the loaded block has 0 transactions; nothing to prove (check bench_test.json)."@,
        PlanFault::TooManyTxs => text == "--txs-per-block T="@ + dec(t)
            + " exceeds the loaded block's real transaction count ("@ + dec(n) + "); choose T <= "@
            + dec(n) + " (or omit it to prove all "@ + dec(n) + ")."@,
        PlanFault::EmptyChunk => text
            == "--txs-per-chunk C must be >= 1 (got 0); each leaf must carry at least one tx."@,
        PlanFault::UnevenChunks => exists|divs: Seq<usize>| #[trigger]
            lists_divisors(divs, meant_txs(txs_per_block, block_tx_count)) && text
                == "--txs-per-chunk C="@ + dec(txs_per_chunk as nat)
                + " must evenly divide --txs-per-block T="@ + dec(t)
                + ", else the final chunk is short and the in-pod witness generation zip_eq-panics. Valid divisors of "@
                + dec(t) + ": "@ + comma_list(divs) + "."@,
    }
}

/// The plan of a faultless workload.
pub open spec fn plan_of(
    p: WorkloadPlan,
    blocks: usize,
    txs_per_block: usize,
    txs_per_chunk: usize,
    radix: usize,
    block_tx_count: usize,
) -> bool {
    let t = meant_txs(txs_per_block, block_tx_count);
    &&& p.blocks == blocks
    &&& p.txs_per_block == t
    &&& p.txs_per_chunk == txs_per_chunk
    &&& p.radix == radix
    &&& p.block_tx_count == block_tx_count
    &&& p.leaf_count_per_block * txs_per_chunk == t
    &&& is_depth(p.leaf_count_per_block as int, radix as int, p.depth as nat)
}

impl WorkloadPlan {
    /// What holds of every derived plan.
    pub open spec fn wf(&self) -> bool {
        &&& 2 <= self.radix <= HEX_RADIX
        &&& self.blocks >= 1
        &&& self.txs_per_chunk >= 1
        &&& 1 <= self.txs_per_block <= self.block_tx_count
        &&& self.leaf_count_per_block * self.txs_per_chunk == self.txs_per_block
        &&& 1 <= self.leaf_count_per_block <= ceil_div(
            self.block_tx_count as int,
            self.txs_per_chunk as int,
        )
        &&& is_depth(self.leaf_count_per_block as int, self.radix as int, self.depth as nat)
    }

    /// Derives the plan from the operator's knobs, or says what is wrong with
    /// them. `txs_per_block == 0` stands for all transactions of the block.
    pub fn derive(
        blocks: usize,
        txs_per_block: usize,
        txs_per_chunk: usize,
        radix: usize,
        block_tx_count: usize,
    ) -> (r: Result<Self, String>)
        ensures
            match plan_fault(blocks, txs_per_block, txs_per_chunk, radix, block_tx_count) {
                Some(fault) => r is Err && fault_text(
                    fault,
                    r->Err_0@,
                    blocks,
                    txs_per_block,
                    txs_per_chunk,
                    radix,
                    block_tx_count,
                ),
                None => r is Ok && plan_of(
                    r->Ok_0,
                    blocks,
                    txs_per_block,
                    txs_per_chunk,
                    radix,
                    block_tx_count,
                ) && r->Ok_0.wf(),
            },
    {
        if radix < 2 {
            let mut e = String::from_str("radix must be >= 2 (got ");
            push_dec(&mut e, radix as u64);
            e.append("); the reduction-tree fan-in cannot be < 2.");
            return Err(e);
        }
        if radix > HEX_RADIX {
            let mut e = String::from_str("radix ");
            push_dec(&mut e, radix as u64);
            e.append(
                " exceeds the reduction-tree node fan-in 16; use --radix in [2, 16] (the two built radixes are 2 and 16).",
            );
            return Err(e);
        }
        if blocks < 1 {
            let mut e = String::from_str("--blocks B must be >= 1 (got ");
            push_dec(&mut e, blocks as u64);
            e.append(
                "). B is the replay count: the same block is proved B times as B independent, namespaced trees. There is no distinct-block corpus on this branch, so B==0 is meaningless.",
            );
            return Err(e);
        }
        if block_tx_count == 0 {
            return Err(
                String::from_str(
                    "the loaded block has 0 transactions; nothing to prove (check bench_test.json).",
                ),
            );
        }
        let t: usize = if txs_per_block == 0 {
            block_tx_count
        } else {
            txs_per_block
        };
        if t > block_tx_count {
            let mut e = String::from_str("--txs-per-block T=");
            push_dec(&mut e, t as u64);
            e.append(" exceeds the loaded block's real transaction count (");
            push_dec(&mut e, block_tx_count as u64);
            e.append("); choose T <= ");
            push_dec(&mut e, block_tx_count as u64);
            e.append(" (or omit it to prove all ");
            push_dec(&mut e, block_tx_count as u64);
            e.append(").");
            return Err(e);
        }
        let c: usize = txs_per_chunk;
        if c == 0 {
            return Err(
                String::from_str(
                    "--txs-per-chunk C must be >= 1 (got 0); each leaf must carry at least one tx.",
                ),
            );
        }
        if t % c != 0 {
            let divs: Vec<usize> = divisors(t);
            let mut e = String::from_str("--txs-per-chunk C=");
            push_dec(&mut e, c as u64);
            e.append(" must evenly divide --txs-per-block T=");
            push_dec(&mut e, t as u64);
            e.append(
                ", else the final chunk is short and the in-pod witness generation zip_eq-panics. Valid divisors of ",
            );
            push_dec(&mut e, t as u64);
            e.append(": ");
            push_comma_list(&mut e, &divs);
            e.append(".");
            assert(lists_divisors(divs@, t));
            return Err(e);
        }
        let leaf_count_per_block: usize = t / c;
        proof {
            lemma_cofactor(t as int, c as int);
            assert(leaf_count_per_block * c == t) by (nonlinear_arith)
                requires
                    t == c * leaf_count_per_block,
            ;
            lemma_div_is_ordered(t as int, block_tx_count + c - 1, c as int);
        }
        let depth: usize = tree_depth(leaf_count_per_block, radix);
        Ok(
            WorkloadPlan {
                blocks,
                txs_per_block: t,
                txs_per_chunk: c,
                radix,
                block_tx_count,
                leaf_count_per_block,
                depth,
            },
        )
    }

    /// Leaves over all replays.
    pub fn total_leaves(&self) -> (r: usize)
        requires
            self.blocks * self.leaf_count_per_block <= usize::MAX,
        ensures
            r == self.blocks * self.leaf_count_per_block,
    {
        self.blocks * self.leaf_count_per_block
    }

    /// The plan in one line, for the operator. `transport_summary` describes the
    /// endpoint.
    pub fn effective_plan_echo(&self, transport_summary: &str) -> (r: String)
        requires
            self.blocks > 1 ==> self.blocks * self.leaf_count_per_block <= usize::MAX,
        ensures
            r@ == plan_echo(*self, transport_summary@),
    {
        let mut e = String::from_str("Block has ");
        push_dec(&mut e, self.block_tx_count as u64);
        e.append(" txs. blocks=");
        push_dec(&mut e, self.blocks as u64);
        e.append(", txs-per-block=");
        push_dec(&mut e, self.txs_per_block as u64);
        e.append(", txs-per-chunk=");
        push_dec(&mut e, self.txs_per_chunk as u64);
        e.append(", radix=");
        push_dec(&mut e, self.radix as u64);
        e.append(" \u{2192} ");
        push_dec(&mut e, self.leaf_count_per_block as u64);
        e.append(" leaves/block, depth ");
        let shown: usize = if self.depth < 1 {
            1
        } else {
            self.depth
        };
        push_dec(&mut e, shown as u64);
        e.append(", ");
        let coverage: String = self.coverage();
        e.append(coverage.as_str());
        let replays: String = self.replays();
        e.append(replays.as_str());
        e.append(". ");
        e.append(transport_summary);
        e
    }

    fn coverage(&self) -> (r: String)
        ensures
            r@ == coverage_text(*self),
    {
        if self.txs_per_block == self.block_tx_count {
            let mut e = String::from_str("covering ALL ");
            push_dec(&mut e, self.block_tx_count as u64);
            e.append(" txs");
            e
        } else {
            let mut e = String::from_str("covering ");
            push_dec(&mut e, self.txs_per_block as u64);
            e.append("/");
            push_dec(&mut e, self.block_tx_count as u64);
            e.append(" txs");
            e
        }
    }

    fn replays(&self) -> (r: String)
        requires
            self.blocks > 1 ==> self.blocks * self.leaf_count_per_block <= usize::MAX,
        ensures
            r@ == replays_text(*self),
    {
        if self.blocks > 1 {
            let mut e = String::from_str(" (");
            push_dec(&mut e, self.blocks as u64);
            e.append(" independent replays = ");
            push_dec(&mut e, self.total_leaves() as u64);
            e.append(" total leaves, namespaced per replay)");
            e
        } else {
            String::new()
        }
    }
}

/// Which part of the block a plan covers.
pub open spec fn coverage_text(p: WorkloadPlan) -> Seq<char> {
    if p.txs_per_block == p.block_tx_count {
        "covering ALL "@ + dec(p.block_tx_count as nat) + " txs"@
    } else {
        "covering "@ + dec(p.txs_per_block as nat) + "/"@ + dec(p.block_tx_count as nat) + " txs"@
    }
}

/// What a plan says of its replays; nothing where there is only one.
pub open spec fn replays_text(p: WorkloadPlan) -> Seq<char> {
    if p.blocks > 1 {
        " ("@ + dec(p.blocks as nat) + " independent replays = "@ + dec(
            (p.blocks * p.leaf_count_per_block) as nat,
        ) + " total leaves, namespaced per replay)"@
    } else {
        Seq::empty()
    }
}

/// A plan in one line.
pub open spec fn plan_echo(p: WorkloadPlan, tail: Seq<char>) -> Seq<char> {
    let shown = if p.depth < 1 {
        1nat
    } else {
        p.depth as nat
    };
    "Block has "@ + dec(p.block_tx_count as nat) + " txs. blocks="@ + dec(p.blocks as nat)
        + ", txs-per-block="@ + dec(p.txs_per_block as nat) + ", txs-per-chunk="@ + dec(
        p.txs_per_chunk as nat,
    ) + ", radix="@ + dec(p.radix as nat) + " \u{2192} "@ + dec(p.leaf_count_per_block as nat)
        + " leaves/block, depth "@ + dec(shown) + ", "@ + coverage_text(p) + replays_text(p)
        + ". "@ + tail
}

/// What the seeder leaves for the workers to compare themselves against.
#[derive(Clone, Debug, PartialEq, Eq)]
pub struct RunConfig {
    pub blocks: usize,
    pub txs_per_block: usize,
    pub txs_per_chunk: usize,
    pub radix: usize,
    pub leaf_count_per_block: usize,
    pub depth: usize,
    pub topic: String,
    pub subscription: String,
    pub bucket: String,
    pub object_prefix: String,
}

/// The first way in which a worker's geometry differs from the seeded one.
pub open spec fn drift_text(
    cfg: RunConfig,
    radix: usize,
    leaf_count: usize,
    tx_per_proof: usize,
) -> Option<Seq<char>> {
    if cfg.radix != radix {
        Some(
            "radix mismatch: worker derived "@ + dec(radix as nat) + " but the seeder seeded "@
                + dec(cfg.radix as nat)
                + " (the tree fan-in must agree or folds read the wrong children)"@,
        )
    } else if cfg.leaf_count_per_block != leaf_count {
        Some(
            "leaf_count mismatch: worker derived "@ + dec(leaf_count as nat)
                + " but the seeder seeded "@ + dec(cfg.leaf_count_per_block as nat)
                + " (different N \u{21d2} different depth/geometry \u{21d2} wrong tree or out-of-range node)"@,
        )
    } else if cfg.txs_per_chunk != tx_per_proof {
        Some(
            "txs-per-chunk mismatch: worker derived "@ + dec(tx_per_proof as nat)
                + " but the seeder seeded "@ + dec(cfg.txs_per_chunk as nat)
                + " (different chunking \u{21d2} leaf proofs cover different tx ranges)"@,
        )
    } else {
        None
    }
}

impl RunConfig {
    /// Checks a worker's geometry against the seeded one.
    pub fn assert_matches_worker(
        &self,
        radix: usize,
        leaf_count: usize,
        tx_per_proof: usize,
    ) -> (r: Result<(), String>)
        ensures
            match drift_text(*self, radix, leaf_count, tx_per_proof) {
                Some(text) => r is Err && r->Err_0@ == text,
                None => r is Ok,
            },
    {
        if self.radix != radix {
            let mut e = String::from_str("radix mismatch: worker derived ");
            push_dec(&mut e, radix as u64);
            e.append(" but the seeder seeded ");
            push_dec(&mut e, self.radix as u64);
            e.append(" (the tree fan-in must agree or folds read the wrong children)");
            return Err(e);
        }
        if self.leaf_count_per_block != leaf_count {
            let mut e = String::from_str("leaf_count mismatch: worker derived ");
            push_dec(&mut e, leaf_count as u64);
            e.append(" but the seeder seeded ");
            push_dec(&mut e, self.leaf_count_per_block as u64);
            e.append(
                " (different N \u{21d2} different depth/geometry \u{21d2} wrong tree or out-of-range node)",
            );
            return Err(e);
        }
        if self.txs_per_chunk != tx_per_proof {
            let mut e = String::from_str("txs-per-chunk mismatch: worker derived ");
            push_dec(&mut e, tx_per_proof as u64);
            e.append(" but the seeder seeded ");
            push_dec(&mut e, self.txs_per_chunk as u64);
            e.append(" (different chunking \u{21d2} leaf proofs cover different tx ranges)");
            return Err(e);
        }
        Ok(())
    }

    /// The run configuration that the seeder of `plan` writes.
    pub fn seeded(
        plan: &WorkloadPlan,
        depth: usize,
        topic: &str,
        subscription: &str,
        bucket: &str,
        object_prefix: &str,
    ) -> (r: Self)
        ensures
            r.blocks == plan.blocks,
            r.txs_per_block == plan.txs_per_block,
            r.txs_per_chunk == plan.txs_per_chunk,
            r.radix == plan.radix,
            r.leaf_count_per_block == plan.leaf_count_per_block,
            r.depth == depth,
            r.topic@ == topic@,
            r.subscription@ == subscription@,
            r.bucket@ == bucket@,
            r.object_prefix@ == object_prefix@,
    {
        RunConfig {
            blocks: plan.blocks,
            txs_per_block: plan.txs_per_block,
            txs_per_chunk: plan.txs_per_chunk,
            radix: plan.radix,
            leaf_count_per_block: plan.leaf_count_per_block,
            depth,
            topic: topic.to_owned(),
            subscription: subscription.to_owned(),
            bucket: bucket.to_owned(),
            object_prefix: object_prefix.to_owned(),
        }
    }
}

/// A worker that derived the plan that was seeded passes the drift check.
pub proof fn seeded_worker_passes(plan: WorkloadPlan, cfg: RunConfig)
    requires
        cfg.radix == plan.radix,
        cfg.leaf_count_per_block == plan.leaf_count_per_block,
        cfg.txs_per_chunk == plan.txs_per_chunk,
    ensures
        drift_text(cfg, plan.radix, plan.leaf_count_per_block, plan.txs_per_chunk) is None,
{
}

/// Every chunk that a plan's leaves address exists in the block.
pub proof fn planned_chunks_exist(plan: WorkloadPlan, leaf: int)
    requires
        plan.wf(),
        0 <= leaf < plan.leaf_count_per_block,
    ensures
        (leaf + 1) * plan.txs_per_chunk <= plan.block_tx_count,
        leaf < ceil_div(plan.block_tx_count as int, plan.txs_per_chunk as int),
{
    assert((leaf + 1) * plan.txs_per_chunk <= plan.leaf_count_per_block * plan.txs_per_chunk)
        by (nonlinear_arith)
        requires
            leaf + 1 <= plan.leaf_count_per_block,
            plan.txs_per_chunk >= 0,
    ;
}

/// A plan is derived exactly where the knobs can be met, and it proves what was asked
/// for: every transaction that is meant lies in one of its leaves, and every leaf is
/// full.
pub proof fn plans_prove_what_was_asked(
    blocks: usize,
    txs_per_block: usize,
    txs_per_chunk: usize,
    radix: usize,
    block_tx_count: usize,
    p: WorkloadPlan,
)
    ensures
        plan_fault(blocks, txs_per_block, txs_per_chunk, radix, block_tx_count) is None <==> {
            let t = if txs_per_block == 0 {
                block_tx_count
            } else {
                txs_per_block
            };
            &&& 2 <= radix <= 16
            &&& blocks >= 1
            &&& 1 <= t <= block_tx_count
            &&& txs_per_chunk >= 1
            &&& t as int % txs_per_chunk as int == 0
        },
        plan_of(p, blocks, txs_per_block, txs_per_chunk, radix, block_tx_count) ==> {
            &&& p.leaf_count_per_block * p.txs_per_chunk == if txs_per_block == 0 {
                block_tx_count
            } else {
                txs_per_block
            }
            &&& p.blocks == blocks
            &&& p.txs_per_chunk == txs_per_chunk
            &&& p.radix == radix
            &&& p.block_tx_count == block_tx_count
            &&& p.txs_per_block == p.leaf_count_per_block * p.txs_per_chunk
            &&& p.leaf_count_per_block <= vstd::arithmetic::power::pow(radix as int, p.depth as nat)
        },
{
}

/// A worker passes the drift check exactly where its fan-in, its leaves per block and
/// its transactions per leaf are those that were seeded.
pub proof fn only_the_seeded_geometry_passes(
    cfg: RunConfig,
    radix: usize,
    leaf_count: usize,
    tx_per_proof: usize,
)
    ensures
        drift_text(cfg, radix, leaf_count, tx_per_proof) is None <==> cfg.radix == radix
            && cfg.leaf_count_per_block == leaf_count && cfg.txs_per_chunk == tx_per_proof,
{
}

} // verus!
