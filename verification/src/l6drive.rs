//! Driving the inner and the outer wrapper: the witness of an empty delta, the
//! block patch between the circuits' levels, and the batch commitment.
//!
//! Circuits, their proofs and the Keccak hash are the caller's.

use crate::empty_witness::{Block, EmptyTrees};
use crate::hash::HashOut;
use crate::prestate::ACCOUNT_MERKLE_LEVELS;
use vstd::arithmetic::div_mod::lemma_mod_breakdown;
use vstd::arithmetic::power::{lemma_pow_positive, pow};
use vstd::prelude::*;

verus! {

/// The input of the delta circuit, with account deltas `A`.
#[derive(Debug)]
pub struct DeltaWitness<A> {
    pub account_deltas: Vec<A>,
    pub previous_account_index: i64,
    pub path_matrix: [Vec<HashOut>; 2],
    pub x: HashOut,
}

/// The sibling path of an empty delta tree.
fn empty_path(trees: &EmptyTrees) -> (r: Vec<HashOut>)
    requires
        trees.wf(),
    ensures
        r@ == trees.hashes@.take(ACCOUNT_MERKLE_LEVELS as int),
{
    let mut r: Vec<HashOut> = Vec::new();
    let mut i: usize = 0;
    assert(r@ =~= trees.hashes@.take(0));
    while i < ACCOUNT_MERKLE_LEVELS
        invariant
            i <= ACCOUNT_MERKLE_LEVELS,
            trees.wf(),
            r@ == trees.hashes@.take(i as int),
        decreases ACCOUNT_MERKLE_LEVELS - i,
    {
        r.push(trees.hashes[i]);
        assert(r@ =~= trees.hashes@.take(i + 1));
        i = i + 1;
    }
    r
}

/// The paths that an empty delta chain starts from: that of an empty tree, twice.
pub fn empty_path_matrix(trees: &EmptyTrees) -> (r: [Vec<HashOut>; 2])
    requires
        trees.wf(),
    ensures
        r@[0]@ == trees.hashes@.take(ACCOUNT_MERKLE_LEVELS as int),
        r@[1]@ == trees.hashes@.take(ACCOUNT_MERKLE_LEVELS as int),
{
    [empty_path(trees), empty_path(trees)]
}

/// The witness of a delta in which nothing changed: the leaf `nil` of no account,
/// before any account, in an empty tree.
pub fn empty_delta_witness<A>(nil: A, evaluation_point: HashOut, trees: &EmptyTrees) -> (r:
    DeltaWitness<A>)
    requires
        trees.wf(),
    ensures
        r.account_deltas@ == seq![nil],
        r.previous_account_index == -1,
        r.path_matrix@[0]@ == trees.hashes@.take(ACCOUNT_MERKLE_LEVELS as int),
        r.path_matrix@[1]@ == trees.hashes@.take(ACCOUNT_MERKLE_LEVELS as int),
        r.x == evaluation_point,
{
    let mut account_deltas: Vec<A> = Vec::new();
    account_deltas.push(nil);
    assert(account_deltas@ =~= seq![nil]);
    DeltaWitness {
        account_deltas,
        previous_account_index: -1,
        path_matrix: empty_path_matrix(trees),
        x: evaluation_point,
    }
}

/// What proving and then checking gives: the proof where both succeed, else what
/// failed first.
pub open spec fn checked<P, C: Fn(&P) -> Result<(), String>>(
    check: C,
    made: Result<P, String>,
    r: Result<P, String>,
) -> bool {
    match made {
        Ok(p) => exists|verdict: Result<(), String>| #[trigger]
            call_ensures(check, (&p,), verdict) && r == match verdict {
                Ok(_) => Ok(p),
                Err(e) => Err(e),
            },
        Err(e) => r == Err::<P, String>(e),
    }
}

/// The proof, where it was made and passes the check.
fn check_made<P, C: Fn(&P) -> Result<(), String>>(made: Result<P, String>, check: &C) -> (r: Result<
    P,
    String,
>)
    requires
        made matches Ok(p) ==> call_requires(*check, (&p,)),
    ensures
        checked(*check, made, r),
        r matches Ok(p) ==> call_ensures(*check, (&p,), Ok(())),
{
    match made {
        Ok(p) => {
            let verdict: Result<(), String> = check(&p);
            match verdict {
                Ok(done) => {
                    assert(done == ());
                    Ok(p)
                },
                Err(e) => Err(e),
            }
        },
        Err(e) => Err(e),
    }
}

/// Proves a delta leaf, and folds it into a fresh chain. Both proofs are checked.
/// The chain's base proof stands for the absent second chain as well.
pub fn prove_delta_chain<
    W,
    P,
    Q,
    Prove: Fn(&W) -> Result<P, String>,
    Check: Fn(&P) -> Result<(), String>,
    Fold: Fn(bool, &Q, &Q, &P) -> Result<Q, String>,
    CheckFold: Fn(&Q) -> Result<(), String>,
>(
    witness: &W,
    base: &Q,
    prove: &Prove,
    check: &Check,
    fold: &Fold,
    check_fold: &CheckFold,
) -> (r: Result<Q, String>)
    requires
        call_requires(*prove, (witness,)),
        forall|p: P| #[trigger] call_requires(*check, (&p,)),
        forall|p: P| #[trigger] call_requires(*fold, (false, base, base, &p)),
        forall|q: Q| #[trigger] call_requires(*check_fold, (&q,)),
    ensures
        exists|made: Result<P, String>, leaf: Result<P, String>|
            {
                &&& #[trigger] call_ensures(*prove, (witness,), made)
                &&& #[trigger] checked(*check, made, leaf)
                &&& match leaf {
                    Ok(p) => exists|folded: Result<Q, String>| #[trigger]
                        call_ensures(*fold, (false, base, base, &p), folded) && checked(
                            *check_fold,
                            folded,
                            r,
                        ),
                    Err(e) => r == Err::<Q, String>(e),
                }
            },
        r matches Ok(q) ==> call_ensures(*check_fold, (&q,), Ok(())),
{
    let made: Result<P, String> = prove(witness);
    let ghost first = made;
    let leaf: Result<P, String> = check_made(made, check);
    assert(call_ensures(*prove, (witness,), first) && checked(*check, first, leaf));
    match leaf {
        Ok(p) => {
            let folded: Result<Q, String> = fold(false, base, base, &p);
            assert(call_ensures(*fold, (false, base, base, &p), folded));
            check_made(folded, check_fold)
        },
        Err(e) => Err(e),
    }
}

/// Wraps a proof, and checks the result.
pub fn prove_outer_wrapper<
    P,
    Q,
    Prove: Fn(&P) -> Result<Q, String>,
    Check: Fn(&Q) -> Result<(), String>,
>(inner: &P, prove: &Prove, check: &Check) -> (r: Result<Q, String>)
    requires
        call_requires(*prove, (inner,)),
        forall|q: Q| #[trigger] call_requires(*check, (&q,)),
    ensures
        exists|made: Result<Q, String>| #[trigger]
            call_ensures(*prove, (inner,), made) && checked(*check, made, r),
        r matches Ok(q) ==> call_ensures(*check, (&q,), Ok(())),
{
    let made: Result<Q, String> = prove(inner);
    check_made(made, check)
}

/// What a finished chain of a block's transactions says.
#[derive(Debug)]
pub struct ChainWitness<D> {
    pub new_validium_root: HashOut,
    pub new_state_root: HashOut,
    pub new_account_delta_tree_root: HashOut,
    pub on_chain_operations_count: u64,
    pub on_chain_operations_pub_data: Vec<Vec<u8>>,
    pub priority_operations_count: u64,
    pub priority_operations_pub_data: Vec<u8>,
    pub new_public_market_details: Vec<D>,
}

/// Whether the hash `k` may give `out` for `bytes`.
pub open spec fn keccaked<K: Fn(&Vec<u8>) -> [u8; 32]>(k: K, bytes: Seq<u8>, out: [u8; 32]) -> bool {
    exists|v: Vec<u8>| v@ == bytes && #[trigger] call_ensures(k, (&v,), out)
}

/// Whether the hash `k` can be asked about everything.
pub open spec fn total_keccak<K: Fn(&Vec<u8>) -> [u8; 32]>(k: K) -> bool {
    forall|v: Vec<u8>| #[trigger] call_requires(k, (&v,))
}

/// Appends `bytes` to `out`.
fn push_bytes(out: &mut Vec<u8>, bytes: &[u8])
    ensures
        final(out)@ == old(out)@ + bytes@,
{
    let mut i: usize = 0;
    let ghost before = out@;
    assert(out@ =~= before + bytes@.take(0));
    while i < bytes.len()
        invariant
            i <= bytes@.len(),
            out@ == before + bytes@.take(i as int),
        decreases bytes@.len() - i,
    {
        out.push(bytes[i]);
        assert(out@ =~= before + bytes@.take(i + 1));
        i = i + 1;
    }
    assert(bytes@.take(bytes@.len() as int) =~= bytes@);
}

/// Whether `patched` is `block` with the results of its chain filled in. The
/// prefix hash of priority operations moves on only where there were any.
pub open spec fn is_patched<L, D, N, K: Fn(&Vec<u8>) -> [u8; 32]>(
    k: K,
    block: Block<L, D, N>,
    cw: ChainWitness<D>,
    patched: Block<L, D, N>,
) -> bool {
    &&& patched == (Block {
        new_validium_root: cw.new_validium_root,
        new_state_root: cw.new_state_root,
        new_account_delta_tree_root: cw.new_account_delta_tree_root,
        on_chain_operations_count: cw.on_chain_operations_count,
        on_chain_operations_pub_data: cw.on_chain_operations_pub_data,
        priority_operations_count: cw.priority_operations_count,
        new_public_market_details: cw.new_public_market_details,
        new_prefix_priority_operation_hash: patched.new_prefix_priority_operation_hash,
        ..block
    })
    &&& if cw.priority_operations_count != 0 {
        keccaked(
            k,
            block.old_prefix_priority_operation_hash@ + cw.priority_operations_pub_data@,
            patched.new_prefix_priority_operation_hash,
        )
    } else {
        patched.new_prefix_priority_operation_hash == block.old_prefix_priority_operation_hash
    }
}

/// The block with the results of its chain filled in.
pub fn patch_block<L, D, N, K: Fn(&Vec<u8>) -> [u8; 32]>(
    block: Block<L, D, N>,
    cw: ChainWitness<D>,
    keccak: &K,
) -> (r: Block<L, D, N>)
    requires
        total_keccak(*keccak),
    ensures
        is_patched(*keccak, block, cw, r),
{
    let new_prefix: [u8; 32] = if cw.priority_operations_count != 0 {
        let mut input: Vec<u8> = Vec::new();
        push_bytes(&mut input, block.old_prefix_priority_operation_hash.as_slice());
        push_bytes(&mut input, cw.priority_operations_pub_data.as_slice());
        assert(input@ =~= block.old_prefix_priority_operation_hash@
            + cw.priority_operations_pub_data@);
        keccak(&input)
    } else {
        block.old_prefix_priority_operation_hash
    };
    Block {
        new_validium_root: cw.new_validium_root,
        new_state_root: cw.new_state_root,
        new_account_delta_tree_root: cw.new_account_delta_tree_root,
        on_chain_operations_count: cw.on_chain_operations_count,
        on_chain_operations_pub_data: cw.on_chain_operations_pub_data,
        priority_operations_count: cw.priority_operations_count,
        new_public_market_details: cw.new_public_market_details,
        new_prefix_priority_operation_hash: new_prefix,
        ..block
    }
}

/// What follows the block proof `l4`: it is folded into a chain of one segment,
/// and the chain is checked.
pub open spec fn after_block<
    P,
    Segment: Fn(&P) -> Result<P, String>,
    Check: Fn(&P) -> Result<(), String>,
>(segment: Segment, check: Check, l4: Result<P, String>, r: Result<P, String>) -> bool {
    match l4 {
        Ok(p) => exists|folded: Result<P, String>| #[trigger]
            call_ensures(segment, (&p,), folded) && checked(check, folded, r),
        Err(e) => r == Err::<P, String>(e),
    }
}

/// Proves a block into a chain of one segment: its pre-execution, its
/// transactions, their chain, the block patched with what the chain says, and the
/// segment. The chain is checked, and whatever fails first ends the work.
pub fn prove_empty_l5_chain<
    L,
    D,
    N,
    E,
    P,
    K: Fn(&Vec<u8>) -> [u8; 32],
    Pre: Fn(&Block<L, D, N>) -> Result<E, String>,
    Txs: Fn(&Block<L, D, N>) -> Result<P, String>,
    Chain: Fn(&Block<L, D, N>, &E, &P) -> Result<P, String>,
    Read: Fn(&P) -> ChainWitness<D>,
    Prove: Fn(&Block<L, D, N>, &E, &P) -> Result<P, String>,
    Segment: Fn(&P) -> Result<P, String>,
    Check: Fn(&P) -> Result<(), String>,
>(
    block: Block<L, D, N>,
    keccak: &K,
    pre: &Pre,
    txs: &Txs,
    chain: &Chain,
    read: &Read,
    prove: &Prove,
    segment: &Segment,
    check: &Check,
) -> (r: Result<P, String>)
    requires
        total_keccak(*keccak),
        call_requires(*pre, (&block,)),
        call_requires(*txs, (&block,)),
        forall|e: E, p: P| #[trigger] call_requires(*chain, (&block, &e, &p)),
        forall|p: P| #[trigger] call_requires(*read, (&p,)),
        forall|b: Block<L, D, N>, e: E, p: P| #[trigger] call_requires(*prove, (&b, &e, &p)),
        forall|p: P| #[trigger] call_requires(*segment, (&p,)),
        forall|p: P| #[trigger] call_requires(*check, (&p,)),
    ensures
        exists|executed: Result<E, String>| #[trigger]
            call_ensures(*pre, (&block,), executed) && match executed {
                Err(e) => r == Err::<P, String>(e),
                Ok(x) => exists|tx: Result<P, String>| #[trigger]
                    call_ensures(*txs, (&block,), tx) && match tx {
                        Err(e) => r == Err::<P, String>(e),
                        Ok(t) => exists|linked: Result<P, String>| #[trigger]
                            call_ensures(*chain, (&block, &x, &t), linked) && match linked {
                                Err(e) => r == Err::<P, String>(e),
                                Ok(c) => exists|
                                    cw: ChainWitness<D>,
                                    patched: Block<L, D, N>,
                                    l4: Result<P, String>,
                                |
                                    {
                                        &&& #[trigger] call_ensures(*read, (&c,), cw)
                                        &&& is_patched(*keccak, block, cw, patched)
                                        &&& #[trigger] call_ensures(*prove, (&patched, &x, &c), l4)
                                        &&& after_block(*segment, *check, l4, r)
                                    },
                            },
                    },
            },
        r matches Ok(p) ==> call_ensures(*check, (&p,), Ok(())),
{
    let executed: Result<E, String> = pre(&block);
    match executed {
        Err(e) => Err(e),
        Ok(x) => {
            let tx: Result<P, String> = txs(&block);
            match tx {
                Err(e) => Err(e),
                Ok(t) => {
                    let linked: Result<P, String> = chain(&block, &x, &t);
                    match linked {
                        Err(e) => Err(e),
                        Ok(c) => {
                            let cw: ChainWitness<D> = read(&c);
                            let ghost said = cw;
                            let ghost old_block = block;
                            let patched: Block<L, D, N> = patch_block(block, cw, keccak);
                            let l4: Result<P, String> = prove(&patched, &x, &c);
                            assert(call_ensures(*read, (&c,), said));
                            assert(call_ensures(*prove, (&patched, &x, &c), l4));
                            match l4 {
                                Ok(p) => {
                                    let folded: Result<P, String> = segment(&p);
                                    assert(call_ensures(*segment, (&p,), folded));
                                    check_made(folded, check)
                                },
                                Err(e) => Err(e),
                            }
                        },
                    }
                },
            }
        },
    }
}

/// A batch of blocks, as far as its commitment goes.
#[derive(Debug, Clone)]
pub struct Batch {
    pub end_block_number: u64,
    pub batch_size: u64,
    pub first_created_at: i64,
    pub last_created_at: i64,
    pub old_state_root: HashOut,
    pub new_state_root: HashOut,
    pub new_validium_root: HashOut,
    pub on_chain_operations_pub_data_hash: [u8; 32],
    pub priority_operations_count: u64,
    pub new_prefix_priority_operation_hash: [u8; 32],
}

/// The `n` low bytes of `v`, the most significant one first.
pub open spec fn be_bytes(v: nat, n: nat) -> Seq<u8>
    decreases n,
{
    if n == 0 {
        Seq::empty()
    } else {
        be_bytes(v / 256, (n - 1) as nat).push((v % 256) as u8)
    }
}

/// The `n` low bytes of `v`, the least significant one first.
pub open spec fn le_bytes(v: nat, n: nat) -> Seq<u8>
    decreases n,
{
    if n == 0 {
        Seq::empty()
    } else {
        seq![(v % 256) as u8] + le_bytes(v / 256, (n - 1) as nat)
    }
}

/// A moment as 64 bits, negative ones in two's complement.
pub open spec fn moment_bits(t: i64) -> nat {
    if t < 0 {
        (0x1_0000_0000_0000_0000 + t) as nat
    } else {
        t as nat
    }
}

/// The elements of a digest, eight bytes each.
pub open spec fn root_bytes(h: HashOut) -> Seq<u8> {
    le_bytes(h.e0 as nat, 8) + le_bytes(h.e1 as nat, 8) + le_bytes(h.e2 as nat, 8) + le_bytes(
        h.e3 as nat,
        8,
    )
}

/// What a batch's commitment is the hash of, given the hash of its blob.
pub open spec fn commitment_input(batch: Batch, blob: Seq<u8>) -> Seq<u8> {
    be_bytes(batch.end_block_number as nat, 8) + be_bytes(batch.batch_size as nat, 4) + be_bytes(
        moment_bits(batch.first_created_at),
        8,
    ) + be_bytes(moment_bits(batch.last_created_at), 8) + root_bytes(batch.old_state_root)
        + root_bytes(batch.new_state_root) + root_bytes(batch.new_validium_root)
        + batch.on_chain_operations_pub_data_hash@ + be_bytes(
        batch.priority_operations_count as nat,
        4,
    ) + batch.new_prefix_priority_operation_hash@ + blob
}

/// Appends the `n` low bytes of `v`, the most significant one first.
fn push_be(out: &mut Vec<u8>, v: u64, n: u64)
    ensures
        final(out)@ == old(out)@ + be_bytes(v as nat, n as nat),
    decreases n,
{
    if n > 0 {
        push_be(out, v / 256, n - 1);
        out.push((v % 256) as u8);
    }
    assert(out@ =~= old(out)@ + be_bytes(v as nat, n as nat));
}

/// Appends the `n` low bytes of `v`, the least significant one first.
fn push_le(out: &mut Vec<u8>, v: u64, n: u64)
    ensures
        final(out)@ == old(out)@ + le_bytes(v as nat, n as nat),
    decreases n,
{
    if n > 0 {
        out.push((v % 256) as u8);
        push_le(out, v / 256, n - 1);
    }
    assert(out@ =~= old(out)@ + le_bytes(v as nat, n as nat));
}

/// Appends the elements of a digest, eight bytes each.
fn push_root(out: &mut Vec<u8>, h: &HashOut)
    ensures
        final(out)@ == old(out)@ + root_bytes(*h),
{
    push_le(out, h.e0, 8);
    push_le(out, h.e1, 8);
    push_le(out, h.e2, 8);
    push_le(out, h.e3, 8);
    assert(out@ =~= old(out)@ + root_bytes(*h));
}

/// A moment as 64 bits.
fn moment(t: i64) -> (r: u64)
    ensures
        r == moment_bits(t),
{
    if t < 0 {
        (0x1_0000_0000_0000_0000i128 + t as i128) as u64
    } else {
        t as u64
    }
}

/// The commitment of a batch: the hash of what it consists of and of the hash of
/// its blob's opening and versioned hash.
pub fn batch_commitment<K: Fn(&Vec<u8>) -> [u8; 32]>(
    batch: &Batch,
    blob_polynomial_opening_x: &[u8; 32],
    blob_polynomial_opening_y: &[u8; 32],
    kzg_versioned_hash: &[u8; 32],
    keccak: &K,
) -> (r: [u8; 32])
    requires
        total_keccak(*keccak),
    ensures
        exists|blob: [u8; 32]| #[trigger]
            keccaked(
                *keccak,
                blob_polynomial_opening_x@ + blob_polynomial_opening_y@ + kzg_versioned_hash@,
                blob,
            ) && keccaked(*keccak, commitment_input(*batch, blob@), r),
{
    let mut opening: Vec<u8> = Vec::new();
    push_bytes(&mut opening, blob_polynomial_opening_x.as_slice());
    push_bytes(&mut opening, blob_polynomial_opening_y.as_slice());
    push_bytes(&mut opening, kzg_versioned_hash.as_slice());
    assert(opening@ =~= blob_polynomial_opening_x@ + blob_polynomial_opening_y@
        + kzg_versioned_hash@);
    let blob: [u8; 32] = keccak(&opening);
    assert(keccaked(
        *keccak,
        blob_polynomial_opening_x@ + blob_polynomial_opening_y@ + kzg_versioned_hash@,
        blob,
    ));
    let mut input: Vec<u8> = Vec::new();
    push_be(&mut input, batch.end_block_number, 8);
    push_be(&mut input, batch.batch_size, 4);
    push_be(&mut input, moment(batch.first_created_at), 8);
    push_be(&mut input, moment(batch.last_created_at), 8);
    push_root(&mut input, &batch.old_state_root);
    push_root(&mut input, &batch.new_state_root);
    push_root(&mut input, &batch.new_validium_root);
    push_bytes(&mut input, batch.on_chain_operations_pub_data_hash.as_slice());
    push_be(&mut input, batch.priority_operations_count, 4);
    push_bytes(&mut input, batch.new_prefix_priority_operation_hash.as_slice());
    push_bytes(&mut input, blob.as_slice());
    assert(input@ =~= commitment_input(*batch, blob@));
    let r: [u8; 32] = keccak(&input);
    assert(keccaked(*keccak, commitment_input(*batch, blob@), r));
    r
}

proof fn lemma_be_len(v: nat, n: nat)
    ensures
        be_bytes(v, n).len() == n,
    decreases n,
{
    if n > 0 {
        lemma_be_len(v / 256, (n - 1) as nat);
    }
}

proof fn lemma_le_len(v: nat, n: nat)
    ensures
        le_bytes(v, n).len() == n,
    decreases n,
{
    if n > 0 {
        lemma_le_len(v / 256, (n - 1) as nat);
    }
}

proof fn lemma_low_bytes(v: nat, w: nat, n: nat)
    requires
        n > 0,
        v % 256 == w % 256,
        (v / 256) as int % pow(256, (n - 1) as nat) == (w / 256) as int % pow(256, (n - 1) as nat),
    ensures
        v as int % pow(256, n) == w as int % pow(256, n),
{
    reveal(pow);
    let p = pow(256, (n - 1) as nat);
    lemma_pow_positive(256, (n - 1) as nat);
    assert(pow(256, n) == 256 * p);
    lemma_mod_breakdown(v as int, 256, p);
    lemma_mod_breakdown(w as int, 256, p);
}

proof fn lemma_be_faithful(v: nat, w: nat, n: nat)
    requires
        be_bytes(v, n) == be_bytes(w, n),
    ensures
        v as int % pow(256, n) == w as int % pow(256, n),
    decreases n,
{
    if n == 0 {
        reveal(pow);
    } else {
        let (a, b) = (be_bytes(v, n), be_bytes(w, n));
        assert(a.last() == (v % 256) as u8 && b.last() == (w % 256) as u8);
        assert(a.drop_last() =~= be_bytes(v / 256, (n - 1) as nat));
        assert(b.drop_last() =~= be_bytes(w / 256, (n - 1) as nat));
        lemma_be_faithful(v / 256, w / 256, (n - 1) as nat);
        lemma_low_bytes(v, w, n);
    }
}

proof fn lemma_le_faithful(v: nat, w: nat, n: nat)
    requires
        le_bytes(v, n) == le_bytes(w, n),
    ensures
        v as int % pow(256, n) == w as int % pow(256, n),
    decreases n,
{
    if n == 0 {
        reveal(pow);
    } else {
        let (a, b) = (le_bytes(v, n), le_bytes(w, n));
        assert(a[0] == (v % 256) as u8 && b[0] == (w % 256) as u8);
        assert(a.drop_first() =~= le_bytes(v / 256, (n - 1) as nat));
        assert(b.drop_first() =~= le_bytes(w / 256, (n - 1) as nat));
        lemma_le_faithful(v / 256, w / 256, (n - 1) as nat);
        lemma_low_bytes(v, w, n);
    }
}

proof fn lemma_powers()
    ensures
        pow(256, 4) == 0x1_0000_0000,
        pow(256, 8) == 0x1_0000_0000_0000_0000,
{
    reveal_with_fuel(pow, 9);
}

proof fn lemma_root_faithful(a: HashOut, b: HashOut)
    requires
        root_bytes(a) == root_bytes(b),
    ensures
        a == b,
{
    let (x, y) = (root_bytes(a), root_bytes(b));
    lemma_le_len(a.e0 as nat, 8);
    lemma_le_len(a.e1 as nat, 8);
    lemma_le_len(a.e2 as nat, 8);
    lemma_le_len(a.e3 as nat, 8);
    lemma_le_len(b.e0 as nat, 8);
    lemma_le_len(b.e1 as nat, 8);
    lemma_le_len(b.e2 as nat, 8);
    lemma_le_len(b.e3 as nat, 8);
    assert(x.subrange(0, 8) =~= le_bytes(a.e0 as nat, 8));
    assert(y.subrange(0, 8) =~= le_bytes(b.e0 as nat, 8));
    assert(x.subrange(8, 16) =~= le_bytes(a.e1 as nat, 8));
    assert(y.subrange(8, 16) =~= le_bytes(b.e1 as nat, 8));
    assert(x.subrange(16, 24) =~= le_bytes(a.e2 as nat, 8));
    assert(y.subrange(16, 24) =~= le_bytes(b.e2 as nat, 8));
    assert(x.subrange(24, 32) =~= le_bytes(a.e3 as nat, 8));
    assert(y.subrange(24, 32) =~= le_bytes(b.e3 as nat, 8));
    lemma_le_faithful(a.e0 as nat, b.e0 as nat, 8);
    lemma_le_faithful(a.e1 as nat, b.e1 as nat, 8);
    lemma_le_faithful(a.e2 as nat, b.e2 as nat, 8);
    lemma_le_faithful(a.e3 as nat, b.e3 as nat, 8);
    lemma_powers();
}

/// Where the parts of a commitment's input stand.
proof fn lemma_commitment_parts(batch: Batch, blob: Seq<u8>)
    requires
        blob.len() == 32,
    ensures
        ({
            let i = commitment_input(batch, blob);
            &&& i.len() == 224
            &&& i.subrange(0, 8) == be_bytes(batch.end_block_number as nat, 8)
            &&& i.subrange(8, 12) == be_bytes(batch.batch_size as nat, 4)
            &&& i.subrange(12, 20) == be_bytes(moment_bits(batch.first_created_at), 8)
            &&& i.subrange(20, 28) == be_bytes(moment_bits(batch.last_created_at), 8)
            &&& i.subrange(28, 60) == root_bytes(batch.old_state_root)
            &&& i.subrange(60, 92) == root_bytes(batch.new_state_root)
            &&& i.subrange(92, 124) == root_bytes(batch.new_validium_root)
            &&& i.subrange(124, 156) == batch.on_chain_operations_pub_data_hash@
            &&& i.subrange(156, 160) == be_bytes(batch.priority_operations_count as nat, 4)
            &&& i.subrange(160, 192) == batch.new_prefix_priority_operation_hash@
            &&& i.subrange(192, 224) == blob
        }),
{
    lemma_be_len(batch.end_block_number as nat, 8);
    lemma_be_len(batch.batch_size as nat, 4);
    lemma_be_len(moment_bits(batch.first_created_at), 8);
    lemma_be_len(moment_bits(batch.last_created_at), 8);
    lemma_be_len(batch.priority_operations_count as nat, 4);
    lemma_root_len(batch.old_state_root);
    lemma_root_len(batch.new_state_root);
    lemma_root_len(batch.new_validium_root);
    let i = commitment_input(batch, blob);
    assert(i.subrange(0, 8) =~= be_bytes(batch.end_block_number as nat, 8));
    assert(i.subrange(8, 12) =~= be_bytes(batch.batch_size as nat, 4));
    assert(i.subrange(12, 20) =~= be_bytes(moment_bits(batch.first_created_at), 8));
    assert(i.subrange(20, 28) =~= be_bytes(moment_bits(batch.last_created_at), 8));
    assert(i.subrange(28, 60) =~= root_bytes(batch.old_state_root));
    assert(i.subrange(60, 92) =~= root_bytes(batch.new_state_root));
    assert(i.subrange(92, 124) =~= root_bytes(batch.new_validium_root));
    assert(i.subrange(124, 156) =~= batch.on_chain_operations_pub_data_hash@);
    assert(i.subrange(156, 160) =~= be_bytes(batch.priority_operations_count as nat, 4));
    assert(i.subrange(160, 192) =~= batch.new_prefix_priority_operation_hash@);
    assert(i.subrange(192, 224) =~= blob);
}

proof fn lemma_root_len(h: HashOut)
    ensures
        root_bytes(h).len() == 32,
{
    lemma_le_len(h.e0 as nat, 8);
    lemma_le_len(h.e1 as nat, 8);
    lemma_le_len(h.e2 as nat, 8);
    lemma_le_len(h.e3 as nat, 8);
}

/// A commitment's input determines the batch and the blob's hash; of the batch's
/// size and of its count of priority operations, the low 32 bits.
pub proof fn commitment_input_is_faithful(a: Batch, b: Batch, x: Seq<u8>, y: Seq<u8>)
    requires
        x.len() == 32,
        y.len() == 32,
        commitment_input(a, x) == commitment_input(b, y),
    ensures
        x == y,
        a.end_block_number == b.end_block_number,
        a.batch_size % 0x1_0000_0000 == b.batch_size % 0x1_0000_0000,
        a.first_created_at == b.first_created_at,
        a.last_created_at == b.last_created_at,
        a.old_state_root == b.old_state_root,
        a.new_state_root == b.new_state_root,
        a.new_validium_root == b.new_validium_root,
        a.on_chain_operations_pub_data_hash@ == b.on_chain_operations_pub_data_hash@,
        a.priority_operations_count % 0x1_0000_0000 == b.priority_operations_count % 0x1_0000_0000,
        a.new_prefix_priority_operation_hash@ == b.new_prefix_priority_operation_hash@,
{
    lemma_commitment_parts(a, x);
    lemma_commitment_parts(b, y);
    lemma_powers();
    lemma_be_faithful(a.end_block_number as nat, b.end_block_number as nat, 8);
    lemma_be_faithful(a.batch_size as nat, b.batch_size as nat, 4);
    lemma_be_faithful(moment_bits(a.first_created_at), moment_bits(b.first_created_at), 8);
    lemma_be_faithful(moment_bits(a.last_created_at), moment_bits(b.last_created_at), 8);
    lemma_be_faithful(a.priority_operations_count as nat, b.priority_operations_count as nat, 4);
    lemma_root_faithful(a.old_state_root, b.old_state_root);
    lemma_root_faithful(a.new_state_root, b.new_state_root);
    lemma_root_faithful(a.new_validium_root, b.new_validium_root);
}

/// Filling in the results of a chain keeps what the block began with and takes every
/// result under its own name; without priority operations their prefix hash stays.
pub proof fn patching_keeps_the_beginning<L, D, N, K: Fn(&Vec<u8>) -> [u8; 32]>(
    k: K,
    block: Block<L, D, N>,
    cw: ChainWitness<D>,
    patched: Block<L, D, N>,
)
    requires
        is_patched(k, block, cw, patched),
    ensures
        patched.created_at == block.created_at,
        patched.block_number == block.block_number,
        patched.ledger == block.ledger,
        patched.old_roots == block.old_roots,
        patched.old_state_root == block.old_state_root,
        patched.old_prefix_priority_operation_hash == block.old_prefix_priority_operation_hash,
        patched.txs == block.txs,
        patched.new_state_root == cw.new_state_root,
        patched.new_validium_root == cw.new_validium_root,
        patched.new_account_delta_tree_root == cw.new_account_delta_tree_root,
        patched.on_chain_operations_count == cw.on_chain_operations_count,
        patched.on_chain_operations_pub_data == cw.on_chain_operations_pub_data,
        patched.priority_operations_count == cw.priority_operations_count,
        patched.new_public_market_details == cw.new_public_market_details,
        cw.priority_operations_count == 0 ==> patched.new_prefix_priority_operation_hash
            == block.old_prefix_priority_operation_hash,
        cw.priority_operations_count != 0 ==> exists|v: Vec<u8>|
            v@ == block.old_prefix_priority_operation_hash@ + cw.priority_operations_pub_data@
                && #[trigger] call_ensures(k, (&v,), patched.new_prefix_priority_operation_hash),
{
}

/// Nothing that fails its check is handed on, and a proof that passes is handed on as
/// it was made.
pub proof fn only_checked_proofs_are_handed_on<P, C: Fn(&P) -> Result<(), String>>(
    check: C,
    made: Result<P, String>,
    r: Result<P, String>,
)
    requires
        checked(check, made, r),
    ensures
        r matches Ok(p) ==> made == Ok::<P, String>(p) && call_ensures(check, (&p,), Ok(())),
        made is Err ==> r == made,
        made matches Ok(p) ==> (r is Err ==> call_ensures(check, (&p,), Err(r->Err_0))),
{
    if made is Ok {
        let p = made->Ok_0;
        let verdict = choose|verdict: Result<(), String>| #[trigger]
            call_ensures(check, (&p,), verdict) && r == match verdict {
                Ok(_) => Ok(p),
                Err(e) => Err(e),
            };
        match verdict {
            Ok(u) => {
                assert(u == ());
            },
            Err(e) => {},
        }
    }
}

/// A block proof becomes a chain by one segment over it that passes the check, and a
/// block that was not proved becomes none.
pub proof fn chains_are_folded_and_checked<
    P,
    Segment: Fn(&P) -> Result<P, String>,
    Check: Fn(&P) -> Result<(), String>,
>(segment: Segment, check: Check, l4: Result<P, String>, r: Result<P, String>)
    requires
        after_block(segment, check, l4, r),
    ensures
        r matches Ok(chain) ==> l4 is Ok && call_ensures(segment, (&l4->Ok_0,), Ok(chain))
            && call_ensures(check, (&chain,), Ok(())),
        l4 is Err ==> r == l4,
{
    if l4 is Ok {
        let p = l4->Ok_0;
        let folded = choose|folded: Result<P, String>| #[trigger]
            call_ensures(segment, (&p,), folded) && checked(check, folded, r);
        only_checked_proofs_are_handed_on(check, folded, r);
    }
}

} // verus!
