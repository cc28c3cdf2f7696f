use bench::account_family_native::{
    account_delta_leaf_hash, account_delta_partial_hash, account_hash_from_partial,
    account_hash_native, account_leaf_hash, account_partial_hash, account_pub_data_leaf_hash,
    market_leaf_hash, position_bucket_hashes, Account, AccountDelta, AccountPosition, Market,
    PendingUnlock, Protocol, PublicPoolInfo, PublicPoolShare, PublicPoolShareDelta, TwoHashes,
};
use bench::big::SignedBig;
use bench::empty_witness::{
    empty_account, empty_account_delta, empty_account_delta_partial_hash,
    empty_account_partial_hashes, empty_fee_account, empty_fee_account_delta,
    empty_genesis_block, empty_market, empty_merkle_proof, empty_sibling, empty_tx,
    empty_tx_with_fee_partial, EmptyTrees, Shape, NIL_MARKET_INDEX,
};
use bench::hash::{HashOut, GOLDILOCKS_ORDER};
use bench::l6drive::{
    batch_commitment, empty_delta_witness, patch_block, prove_delta_chain, prove_empty_l5_chain,
    prove_outer_wrapper, Batch, ChainWitness,
};
use bench::prestate::{TreeRoots, ACCOUNT_MERKLE_LEVELS, MARKET_MERKLE_LEVELS};

fn sponge(v: &Vec<u64>) -> HashOut {
    let mut h = HashOut { e0: v.len() as u64, e1: 7, e2: 11, e3: 13 };
    for x in v {
        h.e1 = h.e1.wrapping_mul(0x9e37_79b9).wrapping_add(*x);
        h.e2 = h.e2.wrapping_mul(31).wrapping_add(*x ^ h.e1);
        h.e3 = h.e3.wrapping_add(h.e2).rotate_left(5);
    }
    h
}

fn two(a: HashOut, b: HashOut) -> HashOut {
    sponge(&vec![a.e0, a.e1, a.e2, a.e3, b.e0, b.e1, b.e2, b.e3])
}

fn hash(n: u64) -> HashOut {
    HashOut::from_elements([n, n + 1, n + 2, n + 3])
}

fn trees() -> EmptyTrees {
    let mut hashes = vec![HashOut::zero()];
    for i in 0..ACCOUNT_MERKLE_LEVELS {
        hashes.push(two(hashes[i], hashes[i]));
    }
    let account_delta_root = hashes[ACCOUNT_MERKLE_LEVELS];
    EmptyTrees {
        hashes,
        api_key_root: hash(10),
        account_orders_root: hash(20),
        asset_root: hash(30),
        position_delta_root: hash(40),
        order_book_root: hash(50),
        account_delta_root,
    }
}

fn shape() -> Shape {
    Shape {
        pool_shares: 2,
        strategies: 1,
        pending_unlocks: 1,
        nil_asset_index: 63,
        asset_levels: 6,
        position_levels: 8,
        position_paths: 3,
        api_key_levels: 8,
        account_orders_levels: 60,
        account_orders_paths: 2,
    }
}

/// The protocol under which the empty account of `trees()` counts as empty.
fn protocol() -> Protocol {
    let mut p = Protocol {
        empty_account_hash: HashOut::zero(),
        treasury_account_index: 0,
        empty_position_delta_tree_root: hash(40),
        empty_asset_tree_root: hash(30),
        position_bucket_size: 16,
    };
    let a = empty_account(&trees(), &shape());
    let buckets = position_bucket_hashes(&a.positions, p.position_bucket_size, &sponge);
    let partial = account_partial_hash(&a, &buckets, &sponge);
    p.empty_account_hash = account_hash_from_partial(&a, &partial, &p, &sponge).0;
    p
}

#[test]
fn empty_account_native_leaf_is_zero() {
    let p = protocol();
    let (acc, pd, is_empty) = account_hash_native(&empty_account(&trees(), &shape()), &p, &sponge);
    assert!(is_empty, "empty account must be flagged empty");
    assert_eq!(acc, HashOut::zero(), "empty account leaf hash is zero");
    assert_eq!(pd, HashOut::zero(), "empty account pub-data leaf hash is zero");
}

#[test]
fn the_treasury_is_never_empty() {
    let p = protocol();
    let mut a = empty_account(&trees(), &shape());
    a.account_index = p.treasury_account_index;
    let (acc, pd, is_empty) = account_hash_native(&a, &p, &sponge);
    assert!(!is_empty);
    assert_eq!(acc, p.empty_account_hash);
    assert_ne!(pd, HashOut::zero());
}

fn populated() -> Account {
    let position = AccountPosition {
        last_funding_rate_prefix_sum: SignedBig::from_i128(-987_654),
        position: SignedBig::from_i128(123_456),
        entry_quote: 555,
        initial_margin_fraction: 250,
        total_order_count: 2,
        total_position_tied_order_count: 1,
        margin_mode: 1,
        allocated_margin: SignedBig::from_i128(-9_000),
    };
    Account {
        account_index: 7,
        master_account_index: 3,
        account_type: 1,
        account_trading_mode: 4,
        l1_address: vec![0, 0, 0x9abc_def0, 0x1234_5678],
        collateral: SignedBig::from_i128(-123_456_789),
        total_order_count: 11,
        total_non_cross_order_count: 5,
        cancel_all_time: 99,
        positions: vec![position],
        public_pool_shares: vec![PublicPoolShare {
            public_pool_index: 3,
            share_amount: 1000,
            principal_amount: 500,
            entry_timestamp: 1_700_000_000,
        }],
        public_pool_info: PublicPoolInfo {
            status: 1,
            operator_fee: 10,
            min_operator_share_rate: 2,
            total_shares: 1001,
            operator_shares: 50,
            strategies: vec![SignedBig::from_i128(-321), SignedBig::from_i128(0)],
        },
        pending_unlocks: vec![PendingUnlock {
            unlock_timestamp: 1_700_000_500,
            asset_index: 6,
            amount: vec![424_242],
        }],
        api_key_root: hash(10),
        account_orders_root: hash(20),
        asset_root: hash(30),
        aggregated_balances_root: hash(60),
        partial_hash: HashOut::zero(),
        partial_hash_for_pub_data: HashOut::zero(),
    }
}

fn elements(h: HashOut) -> Vec<u64> {
    vec![h.e0, h.e1, h.e2, h.e3]
}

const MINUS: u64 = GOLDILOCKS_ORDER - 1;

/// The leaves of `populated()`, written out by hand.
fn populated_leaves() -> (HashOut, HashOut) {
    // One bucket of two positions: the populated one and the empty one behind it.
    let pub_params = vec![
        987_654 % 65_536, 987_654 / 65_536, 0, 0, MINUS,
        123_456 % 65_536, 123_456 / 65_536, 0, 0, 1,
        0, 0, 0, 0, 0,
        0, 0, 0, 0, 0,
    ];
    let bucket_pub = sponge(&pub_params);
    let mut params = elements(bucket_pub);
    params.extend([9_000, 0, 0, MINUS, 1, 555, 250, 2, 1]);
    params.extend([0, 0, 0, 0, 0, 0, 0, 0, 0]);
    let bucket_full = sponge(&params);

    let mut pub_elements = elements(bucket_pub);
    pub_elements.extend([3, 1000, 1001, 50]);
    let partial_pub = sponge(&pub_elements);
    let unlocks = sponge(&vec![1_700_000_500, 6, 424_242, 0, 0]);
    let mut partial = elements(partial_pub);
    partial.extend(elements(bucket_full));
    partial.extend([500, 1_700_000_000, 1, 2, 10]);
    partial.extend(elements(unlocks));
    let partial_full = sponge(&partial);

    let address = [0, 0, 0x9abc_def0, 0x1234_5678, 0];
    let mut leaf_pub = elements(partial_pub);
    leaf_pub.extend(address);
    leaf_pub.push(1);
    leaf_pub.extend(elements(hash(60)));
    let strategies = sponge(&vec![321, 0, 0, MINUS, 0, 0, 0, 0]);
    let mut leaf = elements(partial_full);
    leaf.push(3);
    leaf.extend(address);
    leaf.push(1);
    leaf.extend([123_456_789, 0, 0, MINUS]);
    leaf.extend(elements(strategies));
    leaf.extend([11, 5, 99, 4]);
    leaf.extend(elements(hash(10)));
    leaf.extend(elements(hash(20)));
    leaf.extend(elements(hash(30)));
    (sponge(&leaf), sponge(&leaf_pub))
}

#[test]
fn populated_account_leaves_follow_the_layout() {
    let p = protocol();
    let a = populated();
    let expected = populated_leaves();
    assert_eq!(account_hash_native(&a, &p, &sponge), (expected.0, expected.1, false));
    assert_eq!(account_leaf_hash(&a, &p, &sponge), expected.0);
    assert_eq!(account_pub_data_leaf_hash(&a, &p, &sponge), expected.1);
}

#[test]
fn positions_are_hashed_by_the_bucket() {
    let mut positions = Vec::new();
    for _ in 0..5 {
        positions.push(AccountPosition::default());
    }
    // Five positions and the empty one behind them, four to a bucket.
    let buckets = position_bucket_hashes(&positions, 4, &sponge);
    assert_eq!(buckets.len(), 2);
    assert_eq!(buckets[0].pub_data, sponge(&vec![0; 40]));
    assert_eq!(buckets[1].pub_data, sponge(&vec![0; 20]));
    let mut full = elements(buckets[1].pub_data);
    full.extend(vec![0; 18]);
    assert_eq!(buckets[1].full, sponge(&full));
}

#[test]
fn empty_account_delta_leaf_is_zero() {
    let p = protocol();
    let d = empty_account_delta(&trees(), &shape());
    assert_eq!(account_delta_leaf_hash(&d, &p, &sponge), HashOut::zero());
    assert_eq!(account_delta_partial_hash(&d, &p, &sponge), HashOut::zero());
}

#[test]
fn populated_account_delta_leaf_follows_the_layout() {
    let p = protocol();
    let mut d: AccountDelta = empty_account_delta(&trees(), &shape());
    d.account_type = 1;
    d.l1_address = vec![0xdead_beef];
    d.public_pool_info_delta.total_shares_delta = 10;
    d.public_pool_info_delta.operator_shares_delta = -3;
    d.public_pool_shares_delta = vec![PublicPoolShareDelta { public_pool_index: 4, shares_delta: -1 }];
    let mut limbs = vec![4, MINUS, 10, GOLDILOCKS_ORDER - 3, 0xdead_beef, 0, 0, 0, 0, 1];
    limbs.extend(elements(hash(40)));
    let partial = sponge(&limbs);
    assert_eq!(account_delta_partial_hash(&d, &p, &sponge), partial);
    let mut leaf = elements(partial);
    leaf.extend(elements(hash(30)));
    assert_eq!(account_delta_leaf_hash(&d, &p, &sponge), sponge(&leaf));
}

#[test]
fn changed_assets_alone_make_a_leaf() {
    let p = protocol();
    let mut d = empty_account_delta(&trees(), &shape());
    d.asset_delta_root = hash(70);
    let mut leaf = elements(HashOut::zero());
    leaf.extend(elements(hash(70)));
    assert_eq!(account_delta_leaf_hash(&d, &p, &sponge), sponge(&leaf));
}

#[test]
fn empty_market_leaf_is_zero() {
    let mut m = empty_market(&trees());
    assert_eq!(m.market_index, NIL_MARKET_INDEX);
    assert_eq!(market_leaf_hash(&m, &sponge), HashOut::zero());
    // The order book does not make a market.
    m.order_book_root = hash(99);
    assert_eq!(market_leaf_hash(&m, &sponge), HashOut::zero());
}

#[test]
fn populated_market_leaf_follows_the_layout() {
    let market = Market {
        market_index: 3,
        market_type: 1,
        status: 1,
        base_asset_id: 2,
        quote_asset_id: 1,
        ask_nonce: 100,
        bid_nonce: 200,
        taker_fee: 30,
        maker_fee: 10,
        liquidation_fee: 50,
        size_extension_multiplier: 1000,
        quote_extension_multiplier: 2000,
        total_order_count: 7,
        min_base_amount: 5,
        min_quote_amount: 9,
        order_quote_limit: 1_000_000,
        order_book_root: hash(50),
    };
    let mut limbs = vec![1, 1, 2, 1, 100, 200, 30, 10, 50, 5, 9, 1_000_000, 7, 1000, 2000];
    limbs.extend(elements(hash(50)));
    assert_eq!(market_leaf_hash(&market, &sponge), sponge(&limbs));
}

#[test]
fn empty_paths_reconstruct_empty_roots() {
    let trees = trees();
    let proof = empty_merkle_proof(ACCOUNT_MERKLE_LEVELS, &trees, &two);
    let mut h = trees.hashes[0];
    for sib in proof.iter() {
        h = two(h, *sib);
    }
    assert_eq!(h, trees.account_delta_root);
    // Beyond the table the same fold goes on.
    let deep = empty_sibling(60, &trees, &two);
    let mut g = trees.hashes[ACCOUNT_MERKLE_LEVELS];
    for _ in ACCOUNT_MERKLE_LEVELS..60 {
        g = two(g, g);
    }
    assert_eq!(deep, g);
    let path = empty_merkle_proof(60, &trees, &two);
    assert_eq!(two(path[59], path[59]), deep);
}

#[test]
fn empty_tx_builds() {
    let trees = trees();
    let tx = empty_tx(&trees, &shape(), &protocol(), &vec![1u8, 2, 3], &two, &sponge);
    assert!(tx.is_empty());
    assert_eq!(tx.market_before.order_book_root, trees.order_book_root);
    assert_eq!(tx.accounts_before.len(), 3);
    assert_eq!(tx.asset_indices, [63, 63]);
    assert_eq!(tx.account_asset_indices, vec![vec![63, 63]; 3]);
    assert_eq!(tx.order_book_tree_path, vec![1, 2, 3]);
    assert_eq!(tx.account_tree_merkle_proofs[2], trees.hashes[..ACCOUNT_MERKLE_LEVELS]);
    assert_eq!(tx.asset_tree_merkle_proofs[1][1].len(), 6);
    assert_eq!(tx.account_orders_tree_merkle_proof[0].len(), 60);
    assert_eq!(tx.market_tree_merkle_proof.len(), MARKET_MERKLE_LEVELS);
    // The fee account carries the partial digests of an empty account.
    let partial = empty_account_partial_hashes(&trees, &shape(), &protocol(), &sponge);
    assert_eq!(tx.accounts_before[2].partial_hash, partial.full);
    assert_eq!(tx.accounts_before[2].partial_hash_for_pub_data, partial.pub_data);
    assert_eq!(tx.accounts_before[0].partial_hash, HashOut::zero());
    let leaves =
        account_hash_from_partial(&tx.accounts_before[2], &partial, &protocol(), &sponge);
    assert!(leaves.2);
}

#[test]
fn fee_accounts_take_what_they_are_given() {
    let trees = trees();
    let fee = TwoHashes { full: hash(1), pub_data: hash(2) };
    let a = empty_fee_account(fee, &trees, &shape());
    assert_eq!((a.partial_hash, a.partial_hash_for_pub_data), (hash(1), hash(2)));
    assert_eq!(a.positions.len(), 255);
    let d = empty_fee_account_delta(hash(3), &trees, &shape());
    assert_eq!(d.partial_hash, hash(3));
    let tx = empty_tx_with_fee_partial(fee, hash(3), &trees, &shape(), &Vec::<u8>::new(), &two);
    assert_eq!(tx.accounts_delta_before[2].partial_hash, hash(3));
    assert_eq!(tx.accounts_delta_before[1].partial_hash, HashOut::zero());
    assert_eq!(
        empty_account_delta_partial_hash(&trees, &shape(), &protocol(), &sponge),
        HashOut::zero()
    );
}

fn genesis(txs: usize) -> bench::empty_witness::Block<u8, u8, u8> {
    empty_genesis_block(
        txs,
        1,
        1,
        9u8,
        vec![1u8],
        &trees(),
        &shape(),
        &protocol(),
        &vec![0u8],
        &two,
        &sponge,
        &|ledger: &u8, roots: TreeRoots| (two(roots.account_tree_root, hash(*ledger as u64)), hash(8)),
    )
}

#[test]
fn empty_block_builds() {
    let block = genesis(1);
    let trees = trees();
    assert_eq!(block.old_roots.account_delta_tree_root, trees.account_delta_root);
    assert_eq!(block.new_account_delta_tree_root, trees.account_delta_root);
    assert_eq!(block.txs.len(), 1);
    assert_eq!(block.old_roots.market_tree_root, trees.hashes[MARKET_MERKLE_LEVELS]);
    assert_eq!(block.old_state_root, block.new_state_root);
    assert_eq!(block.old_state_root, two(trees.hashes[48], hash(9)));
    assert_eq!(block.new_validium_root, hash(8));
    assert_eq!(genesis(3).txs.len(), 3);
}

fn keccak(v: &Vec<u8>) -> [u8; 32] {
    let mut out = [0u8; 32];
    for (i, b) in v.iter().enumerate() {
        out[i % 32] = out[i % 32].wrapping_mul(31).wrapping_add(*b).wrapping_add(i as u8);
    }
    out
}

fn chain_witness(priority_operations: u64) -> ChainWitness<u8> {
    ChainWitness {
        new_validium_root: hash(81),
        new_state_root: hash(82),
        new_account_delta_tree_root: hash(83),
        on_chain_operations_count: 1,
        on_chain_operations_pub_data: vec![vec![5]],
        priority_operations_count: priority_operations,
        priority_operations_pub_data: vec![6, 7],
        new_public_market_details: vec![2],
    }
}

#[test]
fn blocks_are_patched_with_what_the_chain_says() {
    let patched = patch_block(genesis(1), chain_witness(0), &keccak);
    assert_eq!(patched.new_state_root, hash(82));
    assert_eq!(patched.new_validium_root, hash(81));
    assert_eq!(patched.new_account_delta_tree_root, hash(83));
    assert_eq!(patched.on_chain_operations_pub_data, vec![vec![5]]);
    assert_eq!(patched.new_public_market_details, vec![2]);
    // Without priority operations their prefix hash stays.
    assert_eq!(patched.new_prefix_priority_operation_hash, [0u8; 32]);
    let moved = patch_block(genesis(1), chain_witness(2), &keccak);
    let mut input = vec![0u8; 32];
    input.extend([6, 7]);
    assert_eq!(moved.new_prefix_priority_operation_hash, keccak(&input));
    assert_eq!(moved.priority_operations_count, 2);
}

#[test]
fn chains_stop_at_the_first_failure() {
    let ok = |s: &str| -> Result<String, String> { Ok(s.to_string()) };
    let run = |fail: &'static str| {
        let step = |name: &str| -> Result<String, String> {
            if name == fail {
                Err(format!("{name} failed"))
            } else {
                ok(name)
            }
        };
        prove_empty_l5_chain(
            genesis(1),
            &keccak,
            &|_: &bench::empty_witness::Block<u8, u8, u8>| step("pre"),
            &|_: &bench::empty_witness::Block<u8, u8, u8>| step("txs"),
            &|_: &bench::empty_witness::Block<u8, u8, u8>, _: &String, _: &String| step("chain"),
            &|_: &String| chain_witness(0),
            &|b: &bench::empty_witness::Block<u8, u8, u8>, _: &String, _: &String| {
                assert_eq!(b.new_state_root, hash(82));
                step("block")
            },
            &|_: &String| step("segment"),
            &|_: &String| step("check").map(|_| ()),
        )
    };
    assert_eq!(run("nothing"), Ok("segment".to_string()));
    for name in ["pre", "txs", "chain", "block", "segment", "check"] {
        assert_eq!(run(name), Err(format!("{name} failed")));
    }
}

#[test]
fn delta_chains_and_wrappers_are_checked() {
    let prove = |w: &u8| -> Result<u8, String> { Ok(*w + 1) };
    let fold = |recursive: bool, a: &u8, b: &u8, p: &u8| -> Result<u8, String> {
        assert!(!recursive);
        assert_eq!(a, b);
        Ok(a + p)
    };
    let pass = |_: &u8| -> Result<(), String> { Ok(()) };
    let fail = |_: &u8| -> Result<(), String> { Err("bad".to_string()) };
    assert_eq!(prove_delta_chain(&1, &10, &prove, &pass, &fold, &pass), Ok(12));
    assert_eq!(
        prove_delta_chain(&1, &10, &prove, &fail, &fold, &pass),
        Err("bad".to_string())
    );
    assert_eq!(
        prove_delta_chain(&1, &10, &prove, &pass, &fold, &fail),
        Err("bad".to_string())
    );
    assert_eq!(prove_outer_wrapper(&1, &prove, &pass), Ok(2));
    assert_eq!(prove_outer_wrapper(&1, &prove, &fail), Err("bad".to_string()));
}

#[test]
fn empty_deltas_start_from_empty_paths() {
    let trees = trees();
    let w = empty_delta_witness("nil", hash(5), &trees);
    assert_eq!(w.account_deltas, vec!["nil"]);
    assert_eq!(w.previous_account_index, -1);
    assert_eq!(w.path_matrix[0], trees.hashes[..48]);
    assert_eq!(w.path_matrix[1], trees.hashes[..48]);
    assert_eq!(w.x, hash(5));
}

#[test]
fn batch_commitments_follow_the_layout() {
    let batch = Batch {
        end_block_number: 0x0102,
        batch_size: 3,
        first_created_at: 4,
        last_created_at: -1,
        old_state_root: hash(1),
        new_state_root: hash(2),
        new_validium_root: hash(3),
        on_chain_operations_pub_data_hash: [7u8; 32],
        priority_operations_count: 0x1_0000_0005,
        new_prefix_priority_operation_hash: [8u8; 32],
    };
    let mut opening = vec![1u8; 32];
    opening.extend([2u8; 32]);
    opening.extend([3u8; 32]);
    let blob = keccak(&opening);
    let mut input = Vec::new();
    input.extend(0x0102u64.to_be_bytes());
    input.extend(3u32.to_be_bytes());
    input.extend(4u64.to_be_bytes());
    input.extend(u64::MAX.to_be_bytes());
    for n in [1u64, 2, 3] {
        for e in [n, n + 1, n + 2, n + 3] {
            input.extend(e.to_le_bytes());
        }
    }
    input.extend([7u8; 32]);
    input.extend(5u32.to_be_bytes());
    input.extend([8u8; 32]);
    input.extend(blob);
    assert_eq!(input.len(), 224);
    assert_eq!(
        batch_commitment(&batch, &[1u8; 32], &[2u8; 32], &[3u8; 32], &keccak),
        keccak(&input)
    );
}
