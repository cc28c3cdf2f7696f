use bench::hash::HashOut;
use bench::l5segment::{
    chain_next_block, host_prepass, running_batch, segment_split_points, BlockHead,
    BlockProofOutput, ChainBlock, Rolling,
};

fn root(seed: u64) -> HashOut {
    HashOut { e0: seed, e1: seed + 1, e2: seed + 2, e3: seed + 3 }
}

#[test]
fn split_points_distribute_evenly() {
    for &(blocks, segments) in &[(1usize, 1usize), (3, 3), (8, 8), (64, 8), (10, 3), (8, 1)] {
        let pts = segment_split_points(blocks, segments);
        assert_eq!(pts.len(), segments + 1, "wrong number of boundaries");
        assert_eq!(pts[0], 0, "first boundary must be 0");
        assert_eq!(*pts.last().unwrap(), blocks, "last boundary must be block_count");

        let sizes: Vec<usize> = pts.windows(2).map(|w| w[1] - w[0]).collect();
        assert_eq!(sizes.iter().sum::<usize>(), blocks, "sizes must sum to block_count");
        assert_eq!(sizes.len(), segments, "must have one size per segment");

        let max = *sizes.iter().max().unwrap();
        let min = *sizes.iter().min().unwrap();
        assert!(max - min <= 1, "sizes not balanced: {sizes:?}");
        assert!(sizes.windows(2).all(|w| w[0] >= w[1]), "sizes not non-increasing: {sizes:?}");
    }
}

#[test]
fn split_points_64_over_8_is_uniform() {
    let pts = segment_split_points(64, 8);
    let sizes: Vec<usize> = pts.windows(2).map(|w| w[1] - w[0]).collect();
    assert_eq!(sizes, vec![8; 8]);
}

struct Block {
    head: BlockHead,
    operations: Vec<u8>,
}

/// Chains the operations of a block into the running hash of a batch.
fn aggregate(hash: [u8; 32], b: &Block) -> [u8; 32] {
    let mut out = hash;
    for (i, op) in b.operations.iter().enumerate() {
        for (j, h) in out.iter_mut().enumerate() {
            *h = h.wrapping_mul(31).wrapping_add(*op).wrapping_add((i + j) as u8);
        }
    }
    out
}

#[test]
fn host_prepass_matches_independent_batch_fold() {
    let mut blocks = Vec::new();
    for i in 0..6u64 {
        blocks.push(Block {
            head: BlockHead {
                old_state_root: root(100 + i * 10),
                old_account_delta_tree_root: root(100 + i * 10),
                old_prefix_priority_operation_hash: [i as u8; 32],
            },
            operations: if i == 1 || i == 4 { vec![1, 2, 3] } else { Vec::new() },
        });
    }
    let split_points = segment_split_points(blocks.len(), 3);
    let seeds = host_prepass(
        &blocks,
        &split_points,
        &|| [0u8; 32],
        &aggregate,
        &|b: &Block| b.head,
        &|h: &[u8; 32]| *h,
    );
    assert_eq!(seeds.len(), 3);
    assert_eq!(seeds[0].old_on_chain_operations_pub_data_hash, [0u8; 32]);
    for k in 0..seeds.len() {
        let start = split_points[k];
        let mut batch = [0u8; 32];
        for block in &blocks[..start] {
            batch = aggregate(batch, block);
        }
        assert_eq!(seeds[k].old_on_chain_operations_pub_data_hash, batch, "segment {k}");
        assert_eq!(seeds[k].old_state_root, blocks[start].head.old_state_root);
        assert_eq!(seeds[k].old_prefix_priority_operation_hash, [start as u8; 32]);
        assert_eq!(running_batch(&blocks, start, [0u8; 32], &aggregate), batch);
    }
    assert!(seeds.iter().any(|s| s.old_on_chain_operations_pub_data_hash != [0u8; 32]));
}

fn base(txs: Vec<u32>) -> ChainBlock<String, u32, ()> {
    ChainBlock {
        block_number: 186_974_592,
        created_at: 1_700_000_000,
        ledger: "base".to_string(),
        old_account_tree_root: root(0),
        old_account_pub_data_tree_root: root(0),
        old_account_delta_tree_root: root(1),
        old_market_tree_root: root(0),
        old_state_root: root(1),
        old_prefix_priority_operation_hash: [0u8; 32],
        txs,
        other: (),
    }
}

fn rolling() -> Rolling<String> {
    Rolling {
        ledger: "rolled".to_string(),
        account_tree_root: root(700),
        account_pub_data_tree_root: root(710),
        account_delta_tree_root: root(720),
        market_tree_root: root(730),
    }
}

#[test]
fn chain_next_block_patches_required_fields() {
    let base = base(Vec::new());
    let rolling = rolling();
    let mut prefix = [0u8; 32];
    for (i, b) in prefix.iter_mut().enumerate() {
        *b = (i as u8).wrapping_add(0x42);
    }
    let prev_bw =
        BlockProofOutput { new_state_root: root(900), new_prefix_priority_operation_hash: prefix };
    let next = chain_next_block(&base, 0, 0, &rolling, &prev_bw);

    assert_eq!(next.block_number, base.block_number + 1);
    assert_eq!(next.created_at, base.created_at + 1);
    assert_eq!(next.ledger, "rolled");
    assert_eq!(next.old_account_tree_root, rolling.account_tree_root);
    assert_eq!(next.old_account_pub_data_tree_root, rolling.account_pub_data_tree_root);
    assert_eq!(next.old_account_delta_tree_root, rolling.account_delta_tree_root);
    assert_eq!(next.old_market_tree_root, rolling.market_tree_root);
    assert_eq!(next.old_state_root, prev_bw.new_state_root);
    assert_eq!(
        next.old_prefix_priority_operation_hash,
        prev_bw.new_prefix_priority_operation_hash
    );
    assert_ne!(next.old_state_root, base.old_state_root);
    assert_ne!(next.old_prefix_priority_operation_hash, base.old_prefix_priority_operation_hash);
    assert_eq!(next.txs.len(), 0);
}

#[test]
fn chained_blocks_take_the_next_slice() {
    let base = base((0..9).collect());
    let prev_bw = BlockProofOutput {
        new_state_root: root(900),
        new_prefix_priority_operation_hash: [1u8; 32],
    };
    assert_eq!(chain_next_block(&base, 0, 3, &rolling(), &prev_bw).txs, vec![3, 4, 5]);
    assert_eq!(chain_next_block(&base, 1, 3, &rolling(), &prev_bw).txs, vec![6, 7, 8]);
}
