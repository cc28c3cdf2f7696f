//! Proving a block chunk by chunk: every chunk starts from the state that the one
//! before it left, and its proof is folded into the chain of the block. Also what
//! the run reports of its log and of the processor.

use crate::prover_node::geometry::div_up;
use crate::prover_node::leaf::{chunk_count, chunk_range, lemma_chunk_starts_inside};
use crate::text::{contains, contains_text, words, words_of};
use vstd::prelude::*;
use vstd::string::*;

verus! {

/// The transactions of chunk `i`.
pub open spec fn chunk_of<T>(txs: Seq<T>, size: int, i: int) -> Seq<T> {
    txs.subrange(
        i * size,
        if (i + 1) * size < txs.len() {
            (i + 1) * size
        } else {
            txs.len() as int
        },
    )
}

/// Whether chunk `i` may be proved by `tx_proof` from `state`, leave `next`, and
/// extend the chain `chain` to `longer`.
pub open spec fn extends<
    S,
    T,
    P,
    Prove: Fn(&S, &[T]) -> P,
    Read: Fn(&P) -> S,
    Fold: Fn(u64, &P, &P) -> P,
>(
    prove: Prove,
    read: Read,
    fold: Fold,
    chunk: Seq<T>,
    i: u64,
    state: S,
    chain: P,
    tx_proof: P,
    next: S,
    longer: P,
) -> bool {
    &&& exists|txs: &[T]| txs@ == chunk && #[trigger] call_ensures(prove, (&state, txs), tx_proof)
    &&& call_ensures(read, (&tx_proof,), next)
    &&& call_ensures(fold, (i, &chain, &tx_proof), longer)
}

/// Whether the first `n` chunks may lead from the state and the chain at the start
/// to `state` and `chain`.
pub open spec fn chained<
    S,
    T,
    P,
    Prove: Fn(&S, &[T]) -> P,
    Read: Fn(&P) -> S,
    Fold: Fn(u64, &P, &P) -> P,
>(
    prove: Prove,
    read: Read,
    fold: Fold,
    txs: Seq<T>,
    size: int,
    start: S,
    base: P,
    n: int,
    state: S,
    chain: P,
) -> bool
    decreases n,
{
    if n <= 0 {
        state == start && chain == base
    } else {
        exists|before: S, shorter: P, tx_proof: P|
            {
                &&& chained(prove, read, fold, txs, size, start, base, n - 1, before, shorter)
                &&& #[trigger] extends(
                    prove,
                    read,
                    fold,
                    chunk_of(txs, size, n - 1),
                    (n - 1) as u64,
                    before,
                    shorter,
                    tx_proof,
                    state,
                    chain,
                )
            }
    }
}

/// Proves the chunks of `txs` in order, and folds their proofs into the chain
/// `base`. Also gives the state that the last chunk left, and the count of chunks.
pub fn prove_chunks<
    S,
    T,
    P,
    Prove: Fn(&S, &[T]) -> P,
    Read: Fn(&P) -> S,
    Fold: Fn(u64, &P, &P) -> P,
>(txs: &Vec<T>, size: usize, start: S, base: P, prove: &Prove, read: &Read, fold: &Fold) -> (r: (
    S,
    P,
    usize,
))
    requires
        size > 0,
        forall|s: S, c: &[T]| #[trigger] call_requires(*prove, (&s, c)),
        forall|p: P| #[trigger] call_requires(*read, (&p,)),
        forall|i: u64, a: P, b: P| #[trigger] call_requires(*fold, (i, &a, &b)),
    ensures
        r.2 == chunk_count(txs@.len() as int, size as int),
        chained(*prove, *read, *fold, txs@, size as int, start, base, r.2 as int, r.0, r.1),
{
    let count: usize = div_up(txs.len(), size);
    let ghost (start0, base0) = (start, base);
    let mut state: S = start;
    let mut chain: P = base;
    let mut i: usize = 0;
    while i < count
        invariant
            i <= count,
            size > 0,
            count == chunk_count(txs@.len() as int, size as int),
            forall|s: S, c: &[T]| #[trigger] call_requires(*prove, (&s, c)),
            forall|p: P| #[trigger] call_requires(*read, (&p,)),
            forall|i: u64, a: P, b: P| #[trigger] call_requires(*fold, (i, &a, &b)),
            chained(
                *prove,
                *read,
                *fold,
                txs@,
                size as int,
                start0,
                base0,
                i as int,
                state,
                chain,
            ),
        decreases count - i,
    {
        match chunk_range(txs.len(), size, i) {
            Some(range) => {
                let chunk: &[T] = vstd::slice::slice_subrange(txs.as_slice(), range.0, range.1);
                assert(chunk@ == chunk_of(txs@, size as int, i as int));
                let ghost (before, shorter) = (state, chain);
                let tx_proof: P = prove(&state, chunk);
                let next: S = read(&tx_proof);
                let longer: P = fold(i as u64, &chain, &tx_proof);
                proof {
                    let n = i + 1;
                    assert(extends(
                        *prove,
                        *read,
                        *fold,
                        chunk_of(txs@, size as int, n - 1),
                        (n - 1) as u64,
                        before,
                        shorter,
                        tx_proof,
                        next,
                        longer,
                    ));
                    assert(chained(
                        *prove,
                        *read,
                        *fold,
                        txs@,
                        size as int,
                        start0,
                        base0,
                        n,
                        next,
                        longer,
                    ));
                }
                state = next;
                chain = longer;
            },
            None => {
                assert(false);
            },
        }
        i = i + 1;
    }
    (state, chain, count)
}

/// The first `n` chunks, one after the other.
pub open spec fn joined<T>(txs: Seq<T>, size: int, n: int) -> Seq<T>
    decreases n,
{
    if n <= 0 {
        Seq::empty()
    } else {
        joined(txs, size, n - 1) + chunk_of(txs, size, n - 1)
    }
}

proof fn lemma_joined<T>(txs: Seq<T>, size: int, n: int)
    requires
        size > 0,
        0 <= n <= chunk_count(txs.len() as int, size),
    ensures
        joined(txs, size, n) == txs.take(
            if n * size < txs.len() {
                n * size
            } else {
                txs.len() as int
            },
        ),
    decreases n,
{
    if n == 0 {
        assert(joined(txs, size, 0) =~= txs.take(0));
    } else {
        lemma_joined(txs, size, n - 1);
        lemma_chunk_starts_inside(txs.len() as int, size, n - 1);
        assert(n * size == (n - 1) * size + size) by (nonlinear_arith);
        assert(joined(txs, size, n) =~= txs.take(
            if n * size < txs.len() {
                n * size
            } else {
                txs.len() as int
            },
        ));
    }
}

/// The chunks of a block are its transactions, each once and in order.
pub proof fn chunks_partition_the_block<T>(txs: Seq<T>, size: int)
    requires
        size > 0,
    ensures
        joined(txs, size, chunk_count(txs.len() as int, size)) == txs,
{
    let n = txs.len() as int;
    let count = chunk_count(n, size);
    assert(0 <= count && n <= count * size) by (nonlinear_arith)
        requires
            count == (n + size - 1) / size,
            size > 0,
            n >= 0,
    ;
    lemma_joined(txs, size, count);
    assert(txs.take(n) =~= txs);
}

/// How grave a log record is, the gravest first.
#[derive(Debug, Clone, Copy, PartialEq, Eq, Structural)]
pub enum LogLevel {
    Error,
    Warn,
    Info,
    Debug,
    Trace,
}

/// Where a log record goes.
#[derive(Debug, Clone, Copy, PartialEq, Eq, Structural)]
pub struct LogRoute {
    /// To the collected log.
    pub collected: bool,
    /// To the log of the proving stages.
    pub stages: bool,
    /// To the terminal.
    pub printed: bool,
}

/// Whether a record's target names a circuit or its prover.
pub open spec fn of_circuits(target: Seq<char>) -> bool {
    contains_text(target, "plonky2"@) || contains_text(target, "timing"@) || contains_text(
        target,
        "circuit"@,
    )
}

/// Where a record goes: warnings nowhere, all else to the collected log; debug
/// records and those of the circuits to the stages as well; what is at least
/// informative to the terminal.
pub fn log_route(level: LogLevel, target: &str) -> (r: LogRoute)
    ensures
        r.collected == (level != LogLevel::Warn),
        r.stages == (level != LogLevel::Warn && (level == LogLevel::Debug || of_circuits(target@))),
        r.printed == (level == LogLevel::Error || level == LogLevel::Info),
{
    if level == LogLevel::Warn {
        return LogRoute { collected: false, stages: false, printed: false };
    }
    LogRoute {
        collected: true,
        stages: level == LogLevel::Debug || contains(target, "plonky2") || contains(
            target,
            "timing",
        ) || contains(target, "circuit"),
        printed: level == LogLevel::Error || level == LogLevel::Info,
    }
}

/// The processor time that a process's `stat` file tells, as it stands there: the
/// ticks in user mode and in the kernel, the fourteenth and fifteenth word; nothing
/// where the file is shorter.
pub fn cpu_time_words(stat: &str) -> (r: Option<(String, String)>)
    ensures
        r is Some <==> words_of(stat@).len() > 14,
        r matches Some(ticks) ==> ticks.0@ == words_of(stat@)[13] && ticks.1@ == words_of(stat@)[14],
{
    let ws: Vec<String> = words(stat);
    let ghost all = words_of(stat@);
    assert(ws@.map_values(|w: String| w@).len() == all.len());
    if ws.len() <= 14 {
        return None;
    }
    assert(all[13] == ws@[13]@ && all[14] == ws@[14]@);
    Some((ws[13].clone(), ws[14].clone()))
}

/// A chain holds every transaction of the block once, and in order: where a proof
/// carries the transactions that it was made of, and folding puts what its two proofs
/// carry one after the other, the chain carries what it began with and then all of
/// the block.
pub proof fn chains_hold_every_transaction<
    S,
    T,
    P,
    Prove: Fn(&S, &[T]) -> P,
    Read: Fn(&P) -> S,
    Fold: Fn(u64, &P, &P) -> P,
>(
    prove: Prove,
    read: Read,
    fold: Fold,
    carries: spec_fn(P) -> Seq<T>,
    txs: Seq<T>,
    size: int,
    start: S,
    base: P,
    n: int,
    state: S,
    chain: P,
)
    requires
        size > 0,
        n == chunk_count(txs.len() as int, size),
        forall|s: S, c: &[T], p: P| #[trigger]
            call_ensures(prove, (&s, c), p) ==> carries(p) == c@,
        forall|i: u64, a: P, b: P, p: P| #[trigger]
            call_ensures(fold, (i, &a, &b), p) ==> carries(p) == carries(a) + carries(b),
        chained(prove, read, fold, txs, size, start, base, n, state, chain),
    ensures
        carries(chain) == carries(base) + txs,
{
    lemma_carried(prove, read, fold, carries, txs, size, start, base, n, state, chain);
    chunks_partition_the_block(txs, size);
}

proof fn lemma_carried<
    S,
    T,
    P,
    Prove: Fn(&S, &[T]) -> P,
    Read: Fn(&P) -> S,
    Fold: Fn(u64, &P, &P) -> P,
>(
    prove: Prove,
    read: Read,
    fold: Fold,
    carries: spec_fn(P) -> Seq<T>,
    txs: Seq<T>,
    size: int,
    start: S,
    base: P,
    n: int,
    state: S,
    chain: P,
)
    requires
        forall|s: S, c: &[T], p: P| #[trigger]
            call_ensures(prove, (&s, c), p) ==> carries(p) == c@,
        forall|i: u64, a: P, b: P, p: P| #[trigger]
            call_ensures(fold, (i, &a, &b), p) ==> carries(p) == carries(a) + carries(b),
        chained(prove, read, fold, txs, size, start, base, n, state, chain),
    ensures
        carries(chain) == carries(base) + joined(txs, size, n),
    decreases n,
{
    if n <= 0 {
        assert(carries(chain) =~= carries(base) + joined(txs, size, n));
    } else {
        let (before, shorter, tx_proof) = choose|before: S, shorter: P, tx_proof: P|
            {
                &&& chained(prove, read, fold, txs, size, start, base, n - 1, before, shorter)
                &&& #[trigger] extends(
                    prove,
                    read,
                    fold,
                    chunk_of(txs, size, n - 1),
                    (n - 1) as u64,
                    before,
                    shorter,
                    tx_proof,
                    state,
                    chain,
                )
            };
        lemma_carried(prove, read, fold, carries, txs, size, start, base, n - 1, before, shorter);
        assert(carries(tx_proof) == chunk_of(txs, size, n - 1));
        assert(carries(chain) == carries(shorter) + carries(tx_proof));
        assert(carries(chain) =~= carries(base) + joined(txs, size, n));
    }
}

} // verus!
