//! The witness of a block that changes nothing: empty leaves, the sibling paths
//! of empty trees, and empty transactions.

use crate::account_family_native::{
    account_delta_partial_hash, account_partial_hash, buckets_hashed, empty_position, extended,
    position_bucket_hashes, zero_view, Account, AccountDelta, AccountPosition, Market,
    PendingUnlock, Protocol, PublicPoolInfo, PublicPoolInfoDelta, PublicPoolShare,
    PublicPoolShareDelta, TwoHashes,
};
use crate::account_family_tree::{ancestor, climb_is_unique, climbs, empty_digests, merged};
use crate::big::SignedBig;
use crate::hash::{compresses, functional, total, total_sponge, zero_hash, HashOut};
use crate::prestate::{TreeRoots, ACCOUNT_MERKLE_LEVELS, MARKET_MERKLE_LEVELS, POSITION_LIST_SIZE};
use vstd::prelude::*;

verus! {

/// Accounts that a transaction touches.
pub const NB_ACCOUNTS_PER_TX: usize = 3;

/// The last of them is the fee account.
pub const FEE_ACCOUNT_ID: usize = 2;

/// Assets of each account that a transaction touches.
pub const NB_ASSETS_PER_TX: usize = 2;

/// The transaction that does nothing.
pub const TX_TYPE_EMPTY: u8 = 0;

/// The market of a transaction without one.
pub const NIL_MARKET_INDEX: u16 = 255;

/// An account leaf that is neither the treasury nor the insurance fund.
pub const EMPTY_ACCOUNT_INDEX: i64 = 2;

/// What the protocol fixes about empty trees: the digests of empty subtrees by
/// their levels, and the roots of the trees inside leaves.
#[derive(Debug, Clone)]
pub struct EmptyTrees {
    pub hashes: Vec<HashOut>,
    pub api_key_root: HashOut,
    pub account_orders_root: HashOut,
    pub asset_root: HashOut,
    pub position_delta_root: HashOut,
    pub order_book_root: HashOut,
    pub account_delta_root: HashOut,
}

impl EmptyTrees {
    /// Whether there is a digest for every level of the account trees.
    pub open spec fn wf(&self) -> bool {
        self.hashes@.len() == ACCOUNT_MERKLE_LEVELS + 1
    }
}

/// What the protocol fixes about the lists inside leaves and transactions.
#[derive(Debug, Clone, Copy)]
pub struct Shape {
    pub pool_shares: usize,
    pub strategies: usize,
    pub pending_unlocks: usize,
    pub nil_asset_index: i16,
    pub asset_levels: usize,
    pub position_levels: usize,
    pub position_paths: usize,
    pub api_key_levels: usize,
    pub account_orders_levels: usize,
    pub account_orders_paths: usize,
}

/// Whether `ext` continues the digests `hashes` of empty subtrees upwards.
pub open spec fn continues<H: Fn(HashOut, HashOut) -> HashOut>(
    h: H,
    hashes: Seq<HashOut>,
    ext: Seq<HashOut>,
) -> bool {
    &&& forall|i: int| 0 <= i < ext.len() && i < hashes.len() ==> #[trigger] ext[i] == hashes[i]
    &&& forall|i: int|
        hashes.len() <= i < ext.len() ==> compresses(h, ext[i - 1], ext[i - 1], #[trigger] ext[i])
}

/// The digests of empty subtrees of fewer than `levels` levels: the sibling path
/// of any leaf of an empty tree.
pub fn empty_merkle_proof<H: Fn(HashOut, HashOut) -> HashOut>(
    levels: usize,
    trees: &EmptyTrees,
    h: &H,
) -> (r: Vec<HashOut>)
    requires
        trees.wf(),
        total(*h),
    ensures
        r@.len() == levels,
        continues(*h, trees.hashes@, r@),
{
    let mut r: Vec<HashOut> = Vec::new();
    let mut i: usize = 0;
    while i < levels
        invariant
            i <= levels,
            trees.wf(),
            total(*h),
            r@.len() == i,
            continues(*h, trees.hashes@, r@),
        decreases levels - i,
    {
        let ghost before = r@;
        if i < trees.hashes.len() {
            r.push(trees.hashes[i]);
        } else {
            let below: HashOut = r[i - 1];
            let above: HashOut = h(below, below);
            r.push(above);
            assert(compresses(*h, below, below, above));
        }
        proof {
            let hashes = trees.hashes@;
            assert forall|j: int| hashes.len() <= j < r@.len() implies compresses(
                *h,
                r@[j - 1],
                r@[j - 1],
                #[trigger] r@[j],
            ) by {
                if j < i {
                    assert(r@[j] == before[j] && r@[j - 1] == before[j - 1]);
                }
            }
        }
        i = i + 1;
    }
    r
}

/// The digest of an empty subtree of `level` levels.
pub fn empty_sibling<H: Fn(HashOut, HashOut) -> HashOut>(
    level: usize,
    trees: &EmptyTrees,
    h: &H,
) -> (r: HashOut)
    requires
        trees.wf(),
        total(*h),
        level < usize::MAX,
    ensures
        level <= ACCOUNT_MERKLE_LEVELS ==> r == trees.hashes@[level as int],
        exists|ext: Seq<HashOut>|
            ext.len() == level + 1 && #[trigger] continues(*h, trees.hashes@, ext) && r
                == ext[level as int],
{
    let path: Vec<HashOut> = empty_merkle_proof(level + 1, trees, h);
    path[level]
}

/// Whether the digests of empty subtrees are what compressing gives.
pub open spec fn genuine<H: Fn(HashOut, HashOut) -> HashOut>(h: H, trees: EmptyTrees) -> bool {
    &&& trees.wf()
    &&& empty_digests(h, trees.hashes@)
}

proof fn lemma_continued_digests<H: Fn(HashOut, HashOut) -> HashOut>(
    h: H,
    trees: EmptyTrees,
    ext: Seq<HashOut>,
)
    requires
        genuine(h, trees),
        continues(h, trees.hashes@, ext),
    ensures
        empty_digests(h, ext),
{
    let hashes = trees.hashes@;
    assert forall|i: int| 0 <= i < ext.len() - 1 implies compresses(
        h,
        ext[i],
        ext[i],
        #[trigger] ext[i + 1],
    ) by {
        if i + 1 < hashes.len() {
            assert(ext[i] == hashes[i]);
            assert(compresses(h, hashes[i], hashes[i], hashes[i + 1]));
        }
    }
}

proof fn lemma_empty_climb<H: Fn(HashOut, HashOut) -> HashOut>(
    h: H,
    digests: Seq<HashOut>,
    idx: nat,
    n: int,
)
    requires
        empty_digests(h, digests),
        0 <= n < digests.len(),
    ensures
        climbs(h, idx, zero_hash(), digests.take(n), digests[n]),
    decreases n,
{
    if n > 0 {
        lemma_empty_climb(h, digests, idx, n - 1);
        let path = digests.take(n);
        assert(path.drop_last() =~= digests.take(n - 1));
        assert(digests[n - 1 + 1] == digests[n]);
        assert(compresses(h, digests[n - 1], digests[n - 1], digests[n - 1 + 1]));
        assert(merged(
            h,
            ancestor(idx, (path.len() - 1) as nat),
            digests[n - 1],
            path.last(),
            digests[n],
        ));
    }
}

/// The empty leaf leads to the root of the empty tree along the path of an empty
/// tree, whichever leaf it is and however many levels the tree has.
pub proof fn empty_paths_lead_to_empty_roots<H: Fn(HashOut, HashOut) -> HashOut>(
    h: H,
    trees: EmptyTrees,
    ext: Seq<HashOut>,
    idx: nat,
    root: HashOut,
)
    requires
        genuine(h, trees),
        functional(h),
        ext.len() > 0,
        continues(h, trees.hashes@, ext),
        climbs(h, idx, zero_hash(), ext.drop_last(), root),
    ensures
        root == ext.last(),
{
    lemma_continued_digests(h, trees, ext);
    lemma_empty_climb(h, ext, idx, ext.len() - 1);
    assert(ext.take(ext.len() - 1) =~= ext.drop_last());
    climb_is_unique(h, idx, zero_hash(), ext.drop_last(), root, ext.last());
}

/// Whether a share is empty.
pub open spec fn empty_share(s: PublicPoolShare) -> bool {
    s == (PublicPoolShare {
        public_pool_index: 0,
        share_amount: 0,
        principal_amount: 0,
        entry_timestamp: 0,
    })
}

/// Whether an unlock is empty.
pub open spec fn empty_unlock(u: PendingUnlock) -> bool {
    u.unlock_timestamp == 0 && u.asset_index == 0 && u.amount@.len() == 0
}

/// Whether a number is zero.
pub open spec fn zero_number(s: SignedBig) -> bool {
    s@ == zero_view()
}

/// Whether `a` is empty: an ordinary account with nothing in it but empty trees.
pub open spec fn is_empty_account(a: Account, trees: EmptyTrees, shape: Shape) -> bool {
    &&& a.account_index == EMPTY_ACCOUNT_INDEX
    &&& a.master_account_index == 0
    &&& a.account_type == 0
    &&& a.account_trading_mode == 0
    &&& a.l1_address@.len() == 0
    &&& zero_number(a.collateral)
    &&& a.total_order_count == 0
    &&& a.total_non_cross_order_count == 0
    &&& a.cancel_all_time == 0
    &&& a.positions@.len() == POSITION_LIST_SIZE
    &&& forall|i: int| 0 <= i < POSITION_LIST_SIZE ==> (#[trigger] a.positions@[i])@ == empty_position()
    &&& a.public_pool_shares@.len() == shape.pool_shares
    &&& forall|i: int| 0 <= i < shape.pool_shares ==> empty_share(#[trigger] a.public_pool_shares@[i])
    &&& a.public_pool_info.status == 0
    &&& a.public_pool_info.operator_fee == 0
    &&& a.public_pool_info.min_operator_share_rate == 0
    &&& a.public_pool_info.total_shares == 0
    &&& a.public_pool_info.operator_shares == 0
    &&& a.public_pool_info.strategies@.len() == shape.strategies
    &&& forall|i: int|
        0 <= i < shape.strategies ==> zero_number(#[trigger] a.public_pool_info.strategies@[i])
    &&& a.pending_unlocks@.len() == shape.pending_unlocks
    &&& forall|i: int| 0 <= i < shape.pending_unlocks ==> empty_unlock(#[trigger] a.pending_unlocks@[i])
    &&& a.api_key_root == trees.api_key_root
    &&& a.account_orders_root == trees.account_orders_root
    &&& a.asset_root == trees.asset_root
    &&& a.aggregated_balances_root == trees.asset_root
}

/// The zero number, as its view.
fn zero_big() -> (r: SignedBig)
    ensures
        zero_number(r),
{
    let r: SignedBig = SignedBig::zero();
    assert(r@.digits =~= Seq::<u32>::empty());
    r
}

/// The fee account of an empty transaction: empty, and with the partial digests
/// that its leaf is computed from.
pub fn empty_fee_account(partial: TwoHashes, trees: &EmptyTrees, shape: &Shape) -> (r: Account)
    ensures
        is_empty_account(r, *trees, *shape),
        r.fits(),
        r.partial_hash == partial.full,
        r.partial_hash_for_pub_data == partial.pub_data,
{
    let mut positions: Vec<AccountPosition> = Vec::new();
    let mut i: usize = 0;
    while i < POSITION_LIST_SIZE
        invariant
            i <= POSITION_LIST_SIZE,
            positions@.len() == i,
            forall|j: int| 0 <= j < i ==> (#[trigger] positions@[j])@ == empty_position(),
        decreases POSITION_LIST_SIZE - i,
    {
        positions.push(AccountPosition::default());
        i = i + 1;
    }
    let mut public_pool_shares: Vec<PublicPoolShare> = Vec::new();
    i = 0;
    while i < shape.pool_shares
        invariant
            i <= shape.pool_shares,
            public_pool_shares@.len() == i,
            forall|j: int| 0 <= j < i ==> empty_share(#[trigger] public_pool_shares@[j]),
        decreases shape.pool_shares - i,
    {
        public_pool_shares.push(
            PublicPoolShare {
                public_pool_index: 0,
                share_amount: 0,
                principal_amount: 0,
                entry_timestamp: 0,
            },
        );
        i = i + 1;
    }
    let mut strategies: Vec<SignedBig> = Vec::new();
    i = 0;
    while i < shape.strategies
        invariant
            i <= shape.strategies,
            strategies@.len() == i,
            forall|j: int| 0 <= j < i ==> zero_number(#[trigger] strategies@[j]),
        decreases shape.strategies - i,
    {
        strategies.push(zero_big());
        i = i + 1;
    }
    let mut pending_unlocks: Vec<PendingUnlock> = Vec::new();
    i = 0;
    while i < shape.pending_unlocks
        invariant
            i <= shape.pending_unlocks,
            pending_unlocks@.len() == i,
            forall|j: int| 0 <= j < i ==> empty_unlock(#[trigger] pending_unlocks@[j]),
        decreases shape.pending_unlocks - i,
    {
        pending_unlocks.push(
            PendingUnlock { unlock_timestamp: 0, asset_index: 0, amount: Vec::new() },
        );
        i = i + 1;
    }
    Account {
        account_index: EMPTY_ACCOUNT_INDEX,
        master_account_index: 0,
        account_type: 0,
        account_trading_mode: 0,
        l1_address: Vec::new(),
        collateral: zero_big(),
        total_order_count: 0,
        total_non_cross_order_count: 0,
        cancel_all_time: 0,
        positions,
        public_pool_shares,
        public_pool_info: PublicPoolInfo {
            status: 0,
            operator_fee: 0,
            min_operator_share_rate: 0,
            total_shares: 0,
            operator_shares: 0,
            strategies,
        },
        pending_unlocks,
        api_key_root: trees.api_key_root,
        account_orders_root: trees.account_orders_root,
        asset_root: trees.asset_root,
        aggregated_balances_root: trees.asset_root,
        partial_hash: partial.full,
        partial_hash_for_pub_data: partial.pub_data,
    }
}

/// An empty account.
pub fn empty_account(trees: &EmptyTrees, shape: &Shape) -> (r: Account)
    ensures
        is_empty_account(r, *trees, *shape),
        r.fits(),
        r.partial_hash == zero_hash(),
        r.partial_hash_for_pub_data == zero_hash(),
{
    empty_fee_account(
        TwoHashes { full: HashOut::zero(), pub_data: HashOut::zero() },
        trees,
        shape,
    )
}

/// The partial digests of an empty account.
pub fn empty_account_partial_hashes<S: Fn(&Vec<u64>) -> HashOut>(
    trees: &EmptyTrees,
    shape: &Shape,
    p: &Protocol,
    sponge: &S,
) -> (r: TwoHashes)
    requires
        p.position_bucket_size > 0,
        total_sponge(*sponge),
    ensures
        exists|a: Account, buckets: Seq<TwoHashes>|
            {
                &&& is_empty_account(a, *trees, *shape)
                &&& buckets_hashed(
                    *sponge,
                    extended(a.positions@),
                    p.position_bucket_size as int,
                    buckets,
                )
                &&& #[trigger] a.partially_hashed(*sponge, buckets, r)
            },
{
    let a: Account = empty_account(trees, shape);
    let buckets: Vec<TwoHashes> = position_bucket_hashes(
        &a.positions,
        p.position_bucket_size,
        sponge,
    );
    let r: TwoHashes = account_partial_hash(&a, &buckets, sponge);
    assert(a.partially_hashed(*sponge, buckets@, r));
    r
}

/// Whether `d` is empty: an ordinary account in which nothing changed.
pub open spec fn is_empty_delta(d: AccountDelta, trees: EmptyTrees, shape: Shape) -> bool {
    &&& d.account_index == EMPTY_ACCOUNT_INDEX
    &&& d.account_type == 0
    &&& d.l1_address@.len() == 0
    &&& d.public_pool_shares_delta@.len() == shape.pool_shares
    &&& forall|i: int|
        0 <= i < shape.pool_shares ==> #[trigger] d.public_pool_shares_delta@[i] == (
        PublicPoolShareDelta { public_pool_index: 0, shares_delta: 0 })
    &&& d.public_pool_info_delta == (PublicPoolInfoDelta {
        total_shares_delta: 0,
        operator_shares_delta: 0,
    })
    &&& d.asset_delta_root == trees.asset_root
    &&& d.position_delta_root == trees.position_delta_root
}

/// The change of the fee account in an empty transaction: empty, and with the
/// partial digest that its leaf is computed from.
pub fn empty_fee_account_delta(partial_hash: HashOut, trees: &EmptyTrees, shape: &Shape) -> (r:
    AccountDelta)
    ensures
        is_empty_delta(r, *trees, *shape),
        r.fits(),
        r.partial_hash == partial_hash,
{
    let mut shares: Vec<PublicPoolShareDelta> = Vec::new();
    let mut i: usize = 0;
    while i < shape.pool_shares
        invariant
            i <= shape.pool_shares,
            shares@.len() == i,
            forall|j: int|
                0 <= j < i ==> #[trigger] shares@[j] == (PublicPoolShareDelta {
                    public_pool_index: 0,
                    shares_delta: 0,
                }),
        decreases shape.pool_shares - i,
    {
        shares.push(PublicPoolShareDelta { public_pool_index: 0, shares_delta: 0 });
        i = i + 1;
    }
    AccountDelta {
        account_index: EMPTY_ACCOUNT_INDEX,
        account_type: 0,
        l1_address: Vec::new(),
        public_pool_shares_delta: shares,
        public_pool_info_delta: PublicPoolInfoDelta {
            total_shares_delta: 0,
            operator_shares_delta: 0,
        },
        asset_delta_root: trees.asset_root,
        position_delta_root: trees.position_delta_root,
        partial_hash,
    }
}

/// An account in which nothing changed.
pub fn empty_account_delta(trees: &EmptyTrees, shape: &Shape) -> (r: AccountDelta)
    ensures
        is_empty_delta(r, *trees, *shape),
        r.fits(),
        r.partial_hash == zero_hash(),
{
    empty_fee_account_delta(HashOut::zero(), trees, shape)
}

/// The partial digest of a change of nothing: zeros, where the protocol and the
/// trees agree on the empty position-delta tree.
pub fn empty_account_delta_partial_hash<S: Fn(&Vec<u64>) -> HashOut>(
    trees: &EmptyTrees,
    shape: &Shape,
    p: &Protocol,
    sponge: &S,
) -> (r: HashOut)
    requires
        total_sponge(*sponge),
    ensures
        p.empty_position_delta_tree_root == trees.position_delta_root ==> r == zero_hash(),
        exists|d: AccountDelta|
            is_empty_delta(d, *trees, *shape) && #[trigger] d.partially_hashed(*sponge, *p, r),
{
    let d: AccountDelta = empty_account_delta(trees, shape);
    let r: HashOut = account_delta_partial_hash(&d, p, sponge);
    assert(d.partially_hashed(*sponge, *p, r));
    r
}

/// A market without anything but an empty order book.
pub open spec fn empty_market_of(trees: EmptyTrees) -> Market {
    Market {
        market_index: NIL_MARKET_INDEX,
        market_type: 0,
        status: 0,
        base_asset_id: 0,
        quote_asset_id: 0,
        ask_nonce: 0,
        bid_nonce: 0,
        taker_fee: 0,
        maker_fee: 0,
        liquidation_fee: 0,
        size_extension_multiplier: 0,
        quote_extension_multiplier: 0,
        total_order_count: 0,
        min_base_amount: 0,
        min_quote_amount: 0,
        order_quote_limit: 0,
        order_book_root: trees.order_book_root,
    }
}

/// The market of a transaction without one.
pub fn empty_market(trees: &EmptyTrees) -> (r: Market)
    ensures
        r == empty_market_of(*trees),
        r.is_empty(),
        r.fits(),
{
    Market {
        market_index: NIL_MARKET_INDEX,
        market_type: 0,
        status: 0,
        base_asset_id: 0,
        quote_asset_id: 0,
        ask_nonce: 0,
        bid_nonce: 0,
        taker_fee: 0,
        maker_fee: 0,
        liquidation_fee: 0,
        size_extension_multiplier: 0,
        quote_extension_multiplier: 0,
        total_order_count: 0,
        min_base_amount: 0,
        min_quote_amount: 0,
        order_quote_limit: 0,
        order_book_root: trees.order_book_root,
    }
}

/// The leaf of a change of nothing is the empty leaf.
pub proof fn empty_delta_leaf_is_zero<S: Fn(&Vec<u64>) -> HashOut>(
    sponge: S,
    d: AccountDelta,
    trees: EmptyTrees,
    shape: Shape,
    p: Protocol,
    leaf: HashOut,
)
    requires
        is_empty_delta(d, trees, shape),
        p.empty_position_delta_tree_root == trees.position_delta_root,
        p.empty_asset_tree_root == trees.asset_root,
        d.leaf_hashed(sponge, p, leaf),
    ensures
        leaf == zero_hash(),
{
    assert(d.nothing_changed(p));
}

/// The leaf of an account that the protocol takes for empty is the empty leaf, in
/// both account trees.
pub proof fn empty_account_leaf_is_zero<S: Fn(&Vec<u64>) -> HashOut>(
    sponge: S,
    a: Account,
    p: Protocol,
    leaves: (HashOut, HashOut, bool),
)
    requires
        a.leaves_hashed(sponge, p, leaves),
        leaves.2,
    ensures
        leaves.0 == zero_hash(),
        leaves.1 == zero_hash(),
        a.account_index != p.treasury_account_index,
{
}

/// What a transaction touches, with the sibling path of every leaf. `N` is a
/// node of an order-book path. The payload of an empty transaction is left to the
/// circuits.
#[derive(Debug)]
pub struct Tx<N> {
    pub tx_type: u8,
    pub nonce: i64,
    pub expired_at: i64,
    pub taker_fee: i64,
    pub maker_fee: i64,
    pub accounts_before: Vec<Account>,
    pub accounts_delta_before: Vec<AccountDelta>,
    pub market_before: Market,
    /// The assets of each account.
    pub account_asset_indices: Vec<Vec<i64>>,
    pub asset_indices: [i16; 2],
    pub account_tree_merkle_proofs: Vec<Vec<HashOut>>,
    pub account_pub_data_tree_merkle_proofs: Vec<Vec<HashOut>>,
    pub account_delta_tree_merkle_proofs: Vec<Vec<HashOut>>,
    pub asset_tree_merkle_proofs: Vec<Vec<Vec<HashOut>>>,
    pub public_asset_tree_merkle_proofs: Vec<Vec<Vec<HashOut>>>,
    pub asset_delta_tree_merkle_proofs: Vec<Vec<Vec<HashOut>>>,
    pub position_delta_merkle_proofs: Vec<Vec<HashOut>>,
    pub api_key_tree_merkle_proof: Vec<HashOut>,
    pub account_orders_tree_merkle_proof: Vec<Vec<HashOut>>,
    pub market_tree_merkle_proof: Vec<HashOut>,
    pub order_book_tree_path: Vec<N>,
    pub impact_ask_order_book_tree_path: Vec<N>,
    pub impact_bid_order_book_tree_path: Vec<N>,
}

impl<N> Tx<N> {
    /// Whether the transaction does nothing.
    pub fn is_empty(&self) -> (r: bool)
        ensures
            r == (self.tx_type == TX_TYPE_EMPTY),
    {
        self.tx_type == TX_TYPE_EMPTY
    }
}

/// Whether `path` is the sibling path of a leaf of an empty tree.
pub open spec fn is_empty_path<H: Fn(HashOut, HashOut) -> HashOut>(
    h: H,
    trees: EmptyTrees,
    levels: usize,
    path: Vec<HashOut>,
) -> bool {
    path@.len() == levels && continues(h, trees.hashes@, path@)
}

/// Whether `paths` are `count` sibling paths of leaves of empty trees.
pub open spec fn are_empty_paths<H: Fn(HashOut, HashOut) -> HashOut>(
    h: H,
    trees: EmptyTrees,
    levels: usize,
    count: usize,
    paths: Vec<Vec<HashOut>>,
) -> bool {
    paths@.len() == count && forall|i: int|
        0 <= i < count ==> is_empty_path(h, trees, levels, #[trigger] paths@[i])
}

/// Whether `paths` has the empty sibling paths of the assets of each account.
pub open spec fn are_empty_asset_paths<H: Fn(HashOut, HashOut) -> HashOut>(
    h: H,
    trees: EmptyTrees,
    levels: usize,
    paths: Vec<Vec<Vec<HashOut>>>,
) -> bool {
    paths@.len() == NB_ACCOUNTS_PER_TX && forall|i: int|
        0 <= i < NB_ACCOUNTS_PER_TX ==> are_empty_paths(
            h,
            trees,
            levels,
            NB_ASSETS_PER_TX,
            #[trigger] paths@[i],
        )
}

/// `count` sibling paths of leaves of empty trees.
fn empty_paths<H: Fn(HashOut, HashOut) -> HashOut>(
    levels: usize,
    count: usize,
    trees: &EmptyTrees,
    h: &H,
) -> (r: Vec<Vec<HashOut>>)
    requires
        trees.wf(),
        total(*h),
    ensures
        are_empty_paths(*h, *trees, levels, count, r),
{
    let mut r: Vec<Vec<HashOut>> = Vec::new();
    let mut i: usize = 0;
    while i < count
        invariant
            i <= count,
            trees.wf(),
            total(*h),
            r@.len() == i,
            forall|j: int| 0 <= j < i ==> is_empty_path(*h, *trees, levels, #[trigger] r@[j]),
        decreases count - i,
    {
        r.push(empty_merkle_proof(levels, trees, h));
        i = i + 1;
    }
    r
}

/// The empty sibling paths of the assets of each account.
fn empty_asset_paths<H: Fn(HashOut, HashOut) -> HashOut>(
    levels: usize,
    trees: &EmptyTrees,
    h: &H,
) -> (r: Vec<Vec<Vec<HashOut>>>)
    requires
        trees.wf(),
        total(*h),
    ensures
        are_empty_asset_paths(*h, *trees, levels, r),
{
    let mut r: Vec<Vec<Vec<HashOut>>> = Vec::new();
    let mut i: usize = 0;
    while i < NB_ACCOUNTS_PER_TX
        invariant
            i <= NB_ACCOUNTS_PER_TX,
            trees.wf(),
            total(*h),
            r@.len() == i,
            forall|j: int|
                0 <= j < i ==> are_empty_paths(
                    *h,
                    *trees,
                    levels,
                    NB_ASSETS_PER_TX,
                    #[trigger] r@[j],
                ),
        decreases NB_ACCOUNTS_PER_TX - i,
    {
        r.push(empty_paths(levels, NB_ASSETS_PER_TX, trees, h));
        i = i + 1;
    }
    r
}

/// A copy of `v`.
fn copy_path<N: Copy>(v: &Vec<N>) -> (r: Vec<N>)
    ensures
        r@ == v@,
{
    let mut r: Vec<N> = Vec::new();
    let mut i: usize = 0;
    assert(r@ =~= v@.take(0));
    while i < v.len()
        invariant
            i <= v@.len(),
            r@ == v@.take(i as int),
        decreases v@.len() - i,
    {
        r.push(v[i]);
        assert(r@ =~= v@.take(i + 1));
        i = i + 1;
    }
    assert(v@.take(v@.len() as int) =~= v@);
    r
}

/// Whether `tx` is the empty transaction: it touches empty leaves only, each
/// along the path of an empty tree, and its fee account carries the given partial
/// digests.
pub open spec fn is_empty_tx<N, H: Fn(HashOut, HashOut) -> HashOut>(
    h: H,
    trees: EmptyTrees,
    shape: Shape,
    order_book_path: Seq<N>,
    fee_partial: TwoHashes,
    fee_delta_partial: HashOut,
    tx: Tx<N>,
) -> bool {
    &&& tx.tx_type == TX_TYPE_EMPTY
    &&& tx.nonce == 0
    &&& tx.expired_at == 0
    &&& tx.taker_fee == 0
    &&& tx.maker_fee == 0
    &&& tx.accounts_before@.len() == NB_ACCOUNTS_PER_TX
    &&& forall|i: int|
        0 <= i < NB_ACCOUNTS_PER_TX ==> {
            &&& is_empty_account(#[trigger] tx.accounts_before@[i], trees, shape)
            &&& tx.accounts_before@[i].partial_hash == if i == FEE_ACCOUNT_ID {
                fee_partial.full
            } else {
                zero_hash()
            }
            &&& tx.accounts_before@[i].partial_hash_for_pub_data == if i == FEE_ACCOUNT_ID {
                fee_partial.pub_data
            } else {
                zero_hash()
            }
        }
    &&& tx.accounts_delta_before@.len() == NB_ACCOUNTS_PER_TX
    &&& forall|i: int|
        0 <= i < NB_ACCOUNTS_PER_TX ==> {
            &&& is_empty_delta(#[trigger] tx.accounts_delta_before@[i], trees, shape)
            &&& tx.accounts_delta_before@[i].partial_hash == if i == FEE_ACCOUNT_ID {
                fee_delta_partial
            } else {
                zero_hash()
            }
        }
    &&& tx.market_before == empty_market_of(trees)
    &&& tx.asset_indices@ == seq![shape.nil_asset_index, shape.nil_asset_index]
    &&& tx.account_asset_indices@.len() == NB_ACCOUNTS_PER_TX
    &&& forall|i: int|
        0 <= i < NB_ACCOUNTS_PER_TX ==> (#[trigger] tx.account_asset_indices@[i])@ == seq![
            shape.nil_asset_index as i64,
            shape.nil_asset_index as i64,
        ]
    &&& are_empty_paths(
        h,
        trees,
        ACCOUNT_MERKLE_LEVELS,
        NB_ACCOUNTS_PER_TX,
        tx.account_tree_merkle_proofs,
    )
    &&& are_empty_paths(
        h,
        trees,
        ACCOUNT_MERKLE_LEVELS,
        NB_ACCOUNTS_PER_TX,
        tx.account_pub_data_tree_merkle_proofs,
    )
    &&& are_empty_paths(
        h,
        trees,
        ACCOUNT_MERKLE_LEVELS,
        NB_ACCOUNTS_PER_TX,
        tx.account_delta_tree_merkle_proofs,
    )
    &&& are_empty_asset_paths(h, trees, shape.asset_levels, tx.asset_tree_merkle_proofs)
    &&& are_empty_asset_paths(h, trees, shape.asset_levels, tx.public_asset_tree_merkle_proofs)
    &&& are_empty_asset_paths(h, trees, shape.asset_levels, tx.asset_delta_tree_merkle_proofs)
    &&& are_empty_paths(
        h,
        trees,
        shape.position_levels,
        shape.position_paths,
        tx.position_delta_merkle_proofs,
    )
    &&& is_empty_path(h, trees, shape.api_key_levels, tx.api_key_tree_merkle_proof)
    &&& are_empty_paths(
        h,
        trees,
        shape.account_orders_levels,
        shape.account_orders_paths,
        tx.account_orders_tree_merkle_proof,
    )
    &&& is_empty_path(h, trees, MARKET_MERKLE_LEVELS, tx.market_tree_merkle_proof)
    &&& tx.order_book_tree_path@ == order_book_path
    &&& tx.impact_ask_order_book_tree_path@ == order_book_path
    &&& tx.impact_bid_order_book_tree_path@ == order_book_path
}

/// The empty transaction, with the partial digests of its fee account given.
pub fn empty_tx_with_fee_partial<N: Copy, H: Fn(HashOut, HashOut) -> HashOut>(
    fee_partial: TwoHashes,
    fee_delta_partial: HashOut,
    trees: &EmptyTrees,
    shape: &Shape,
    order_book_path: &Vec<N>,
    h: &H,
) -> (r: Tx<N>)
    requires
        trees.wf(),
        total(*h),
    ensures
        is_empty_tx(*h, *trees, *shape, order_book_path@, fee_partial, fee_delta_partial, r),
{
    let mut accounts_before: Vec<Account> = Vec::new();
    accounts_before.push(empty_account(trees, shape));
    accounts_before.push(empty_account(trees, shape));
    accounts_before.push(empty_fee_account(fee_partial, trees, shape));
    let mut accounts_delta_before: Vec<AccountDelta> = Vec::new();
    accounts_delta_before.push(empty_account_delta(trees, shape));
    accounts_delta_before.push(empty_account_delta(trees, shape));
    accounts_delta_before.push(empty_fee_account_delta(fee_delta_partial, trees, shape));
    let mut account_asset_indices: Vec<Vec<i64>> = Vec::new();
    let nil: i16 = shape.nil_asset_index;
    let mut i: usize = 0;
    while i < NB_ACCOUNTS_PER_TX
        invariant
            i <= NB_ACCOUNTS_PER_TX,
            account_asset_indices@.len() == i,
            forall|j: int|
                0 <= j < i ==> (#[trigger] account_asset_indices@[j])@ == seq![
                    nil as i64,
                    nil as i64,
                ],
        decreases NB_ACCOUNTS_PER_TX - i,
    {
        let indices: Vec<i64> = vec![nil as i64, nil as i64];
        assert(indices@ =~= seq![nil as i64, nil as i64]);
        account_asset_indices.push(indices);
        i = i + 1;
    }
    let r = Tx {
        tx_type: TX_TYPE_EMPTY,
        nonce: 0,
        expired_at: 0,
        taker_fee: 0,
        maker_fee: 0,
        accounts_before,
        accounts_delta_before,
        market_before: empty_market(trees),
        account_asset_indices,
        asset_indices: [nil, nil],
        account_tree_merkle_proofs: empty_paths(
            ACCOUNT_MERKLE_LEVELS,
            NB_ACCOUNTS_PER_TX,
            trees,
            h,
        ),
        account_pub_data_tree_merkle_proofs: empty_paths(
            ACCOUNT_MERKLE_LEVELS,
            NB_ACCOUNTS_PER_TX,
            trees,
            h,
        ),
        account_delta_tree_merkle_proofs: empty_paths(
            ACCOUNT_MERKLE_LEVELS,
            NB_ACCOUNTS_PER_TX,
            trees,
            h,
        ),
        asset_tree_merkle_proofs: empty_asset_paths(shape.asset_levels, trees, h),
        public_asset_tree_merkle_proofs: empty_asset_paths(shape.asset_levels, trees, h),
        asset_delta_tree_merkle_proofs: empty_asset_paths(shape.asset_levels, trees, h),
        position_delta_merkle_proofs: empty_paths(
            shape.position_levels,
            shape.position_paths,
            trees,
            h,
        ),
        api_key_tree_merkle_proof: empty_merkle_proof(shape.api_key_levels, trees, h),
        account_orders_tree_merkle_proof: empty_paths(
            shape.account_orders_levels,
            shape.account_orders_paths,
            trees,
            h,
        ),
        market_tree_merkle_proof: empty_merkle_proof(MARKET_MERKLE_LEVELS, trees, h),
        order_book_tree_path: copy_path(order_book_path),
        impact_ask_order_book_tree_path: copy_path(order_book_path),
        impact_bid_order_book_tree_path: copy_path(order_book_path),
    };
    assert(r.asset_indices@ =~= seq![nil, nil]);
    r
}

/// Whether `full` and `delta` may be the partial digests of an empty fee account.
pub open spec fn are_fee_partials<S: Fn(&Vec<u64>) -> HashOut>(
    sponge: S,
    trees: EmptyTrees,
    shape: Shape,
    p: Protocol,
    fee: TwoHashes,
    fee_delta: HashOut,
) -> bool {
    &&& exists|a: Account, buckets: Seq<TwoHashes>|
        {
            &&& is_empty_account(a, trees, shape)
            &&& buckets_hashed(
                sponge,
                extended(a.positions@),
                p.position_bucket_size as int,
                buckets,
            )
            &&& #[trigger] a.partially_hashed(sponge, buckets, fee)
        }
    &&& exists|d: AccountDelta|
        is_empty_delta(d, trees, shape) && #[trigger] d.partially_hashed(sponge, p, fee_delta)
}

/// The empty transaction.
pub fn empty_tx<N: Copy, H: Fn(HashOut, HashOut) -> HashOut, S: Fn(&Vec<u64>) -> HashOut>(
    trees: &EmptyTrees,
    shape: &Shape,
    p: &Protocol,
    order_book_path: &Vec<N>,
    h: &H,
    sponge: &S,
) -> (r: Tx<N>)
    requires
        trees.wf(),
        p.position_bucket_size > 0,
        total(*h),
        total_sponge(*sponge),
    ensures
        exists|fee: TwoHashes, fee_delta: HashOut|
            are_fee_partials(*sponge, *trees, *shape, *p, fee, fee_delta) && #[trigger] is_empty_tx(
                *h,
                *trees,
                *shape,
                order_book_path@,
                fee,
                fee_delta,
                r,
            ),
{
    let fee: TwoHashes = empty_account_partial_hashes(trees, shape, p, sponge);
    let fee_delta: HashOut = empty_account_delta_partial_hash(trees, shape, p, sponge);
    empty_tx_with_fee_partial(fee, fee_delta, trees, shape, order_book_path, h)
}

/// A block, with the part `L` of the ledger that only the circuits read and the
/// market details `D` that it publishes.
#[derive(Debug)]
pub struct Block<L, D, N> {
    pub created_at: i64,
    pub block_number: u64,
    pub ledger: L,
    pub new_public_market_details: Vec<D>,
    pub calculate_premium: bool,
    pub calculate_funding: bool,
    pub calculate_oracle_prices: bool,
    pub old_roots: TreeRoots,
    pub old_state_root: HashOut,
    pub new_validium_root: HashOut,
    pub new_state_root: HashOut,
    pub new_account_delta_tree_root: HashOut,
    pub on_chain_operations_count: u64,
    pub on_chain_operations_pub_data: Vec<Vec<u8>>,
    pub priority_operations_count: u64,
    pub old_prefix_priority_operation_hash: [u8; 32],
    pub new_prefix_priority_operation_hash: [u8; 32],
    pub txs: Vec<Tx<N>>,
}

/// The roots of empty state trees.
pub open spec fn empty_roots(trees: EmptyTrees) -> TreeRoots {
    TreeRoots {
        account_tree_root: trees.hashes@[ACCOUNT_MERKLE_LEVELS as int],
        account_pub_data_tree_root: trees.hashes@[ACCOUNT_MERKLE_LEVELS as int],
        account_delta_tree_root: trees.account_delta_root,
        market_tree_root: trees.hashes@[MARKET_MERKLE_LEVELS as int],
    }
}

/// A block of `tx_count` empty transactions on empty trees. `roots_of` gives the
/// state root and the validium root; as nothing changes they are those before and
/// after.
pub fn empty_genesis_block<
    L,
    D,
    N: Copy,
    H: Fn(HashOut, HashOut) -> HashOut,
    S: Fn(&Vec<u64>) -> HashOut,
    R: Fn(&L, TreeRoots) -> (HashOut, HashOut),
>(
    tx_count: usize,
    block_number: u64,
    created_at: i64,
    ledger: L,
    new_public_market_details: Vec<D>,
    trees: &EmptyTrees,
    shape: &Shape,
    p: &Protocol,
    order_book_path: &Vec<N>,
    h: &H,
    sponge: &S,
    roots_of: &R,
) -> (r: Block<L, D, N>)
    requires
        trees.wf(),
        p.position_bucket_size > 0,
        total(*h),
        total_sponge(*sponge),
        call_requires(*roots_of, (&ledger, empty_roots(*trees))),
    ensures
        r.created_at == created_at,
        r.block_number == block_number,
        r.ledger == ledger,
        r.new_public_market_details == new_public_market_details,
        !r.calculate_premium,
        !r.calculate_funding,
        !r.calculate_oracle_prices,
        r.old_roots == empty_roots(*trees),
        call_ensures(*roots_of, (&ledger, empty_roots(*trees)), (r.old_state_root, r.new_validium_root)),
        r.new_state_root == r.old_state_root,
        r.new_account_delta_tree_root == r.old_roots.account_delta_tree_root,
        r.on_chain_operations_count == 0,
        r.on_chain_operations_pub_data@.len() == 0,
        r.priority_operations_count == 0,
        r.old_prefix_priority_operation_hash@ == Seq::new(32, |i: int| 0u8),
        r.new_prefix_priority_operation_hash@ == r.old_prefix_priority_operation_hash@,
        r.txs@.len() == tx_count,
        exists|fee: TwoHashes, fee_delta: HashOut|
            #![trigger are_fee_partials(*sponge, *trees, *shape, *p, fee, fee_delta)]
            are_fee_partials(*sponge, *trees, *shape, *p, fee, fee_delta) && forall|i: int|
                0 <= i < tx_count ==> is_empty_tx(
                    *h,
                    *trees,
                    *shape,
                    order_book_path@,
                    fee,
                    fee_delta,
                    #[trigger] r.txs@[i],
                ),
{
    let old_roots = TreeRoots {
        account_tree_root: empty_sibling(ACCOUNT_MERKLE_LEVELS, trees, h),
        account_pub_data_tree_root: empty_sibling(ACCOUNT_MERKLE_LEVELS, trees, h),
        account_delta_tree_root: trees.account_delta_root,
        market_tree_root: empty_sibling(MARKET_MERKLE_LEVELS, trees, h),
    };
    let roots: (HashOut, HashOut) = roots_of(&ledger, old_roots);
    let fee: TwoHashes = empty_account_partial_hashes(trees, shape, p, sponge);
    let fee_delta: HashOut = empty_account_delta_partial_hash(trees, shape, p, sponge);
    let mut txs: Vec<Tx<N>> = Vec::new();
    let mut i: usize = 0;
    while i < tx_count
        invariant
            i <= tx_count,
            trees.wf(),
            total(*h),
            txs@.len() == i,
            forall|j: int|
                0 <= j < i ==> is_empty_tx(
                    *h,
                    *trees,
                    *shape,
                    order_book_path@,
                    fee,
                    fee_delta,
                    #[trigger] txs@[j],
                ),
        decreases tx_count - i,
    {
        txs.push(empty_tx_with_fee_partial(fee, fee_delta, trees, shape, order_book_path, h));
        i = i + 1;
    }
    assert(are_fee_partials(*sponge, *trees, *shape, *p, fee, fee_delta));
    let zeros: [u8; 32] = [0u8; 32];
    assert(zeros@ =~= Seq::new(32, |i: int| 0u8));
    Block {
        created_at,
        block_number,
        ledger,
        new_public_market_details,
        calculate_premium: false,
        calculate_funding: false,
        calculate_oracle_prices: false,
        old_roots,
        old_state_root: roots.0,
        new_validium_root: roots.1,
        new_state_root: roots.0,
        new_account_delta_tree_root: old_roots.account_delta_tree_root,
        on_chain_operations_count: 0,
        on_chain_operations_pub_data: Vec::new(),
        priority_operations_count: 0,
        old_prefix_priority_operation_hash: zeros,
        new_prefix_priority_operation_hash: [0u8; 32],
        txs,
    }
}

/// The proofs of an empty transaction lead where they should: those of the account,
/// public-account and market trees from the empty leaf, whichever it is, to the roots
/// of an empty ledger.
pub proof fn empty_transactions_prove_empty_leaves<N, H: Fn(HashOut, HashOut) -> HashOut>(
    h: H,
    trees: EmptyTrees,
    shape: Shape,
    order_book_path: Seq<N>,
    fee_partial: TwoHashes,
    fee_delta_partial: HashOut,
    tx: Tx<N>,
    i: int,
    idx: nat,
)
    requires
        genuine(h, trees),
        is_empty_tx(h, trees, shape, order_book_path, fee_partial, fee_delta_partial, tx),
        0 <= i < 3,
    ensures
        tx.account_tree_merkle_proofs@.len() == 3,
        tx.account_pub_data_tree_merkle_proofs@.len() == 3,
        tx.account_delta_tree_merkle_proofs@.len() == 3,
        climbs(
            h,
            idx,
            zero_hash(),
            tx.account_tree_merkle_proofs@[i]@,
            empty_roots(trees).account_tree_root,
        ),
        climbs(
            h,
            idx,
            zero_hash(),
            tx.account_pub_data_tree_merkle_proofs@[i]@,
            empty_roots(trees).account_pub_data_tree_root,
        ),
        climbs(
            h,
            idx,
            zero_hash(),
            tx.account_delta_tree_merkle_proofs@[i]@,
            empty_roots(trees).account_tree_root,
        ),
        climbs(
            h,
            idx,
            zero_hash(),
            tx.market_tree_merkle_proof@,
            empty_roots(trees).market_tree_root,
        ),
{
    let d = trees.hashes@;
    lemma_empty_climb(h, d, idx, 48);
    lemma_empty_climb(h, d, idx, 12);
    assert(is_empty_path(h, trees, ACCOUNT_MERKLE_LEVELS, tx.account_tree_merkle_proofs@[i]));
    assert(is_empty_path(h, trees, ACCOUNT_MERKLE_LEVELS, tx.account_pub_data_tree_merkle_proofs@[i]));
    assert(is_empty_path(h, trees, ACCOUNT_MERKLE_LEVELS, tx.account_delta_tree_merkle_proofs@[i]));
    assert(tx.account_tree_merkle_proofs@[i]@ =~= d.take(48));
    assert(tx.account_pub_data_tree_merkle_proofs@[i]@ =~= d.take(48));
    assert(tx.account_delta_tree_merkle_proofs@[i]@ =~= d.take(48));
    assert(tx.market_tree_merkle_proof@ =~= d.take(12));
}

/// An empty transaction touches accounts with nothing in them, of which the last is
/// the fee account and carries the partial digests, and moves no fee.
pub proof fn empty_transactions_change_nothing<N, H: Fn(HashOut, HashOut) -> HashOut>(
    h: H,
    trees: EmptyTrees,
    shape: Shape,
    order_book_path: Seq<N>,
    fee_partial: TwoHashes,
    fee_delta_partial: HashOut,
    p: Protocol,
    tx: Tx<N>,
    i: int,
)
    requires
        is_empty_tx(h, trees, shape, order_book_path, fee_partial, fee_delta_partial, tx),
        0 <= i < 3,
        p.empty_position_delta_tree_root == trees.position_delta_root,
    ensures
        tx.accounts_before@.len() == 3,
        tx.accounts_delta_before@.len() == 3,
        tx.accounts_before@[i].collateral.value() == 0,
        tx.accounts_before@[i].l1_address@.len() == 0,
        tx.accounts_before@[i].account_type == 0,
        tx.accounts_before@[i].total_order_count == 0,
        tx.accounts_before@[i].positions@.len() == 255,
        forall|j: int|
            0 <= j < 255 ==> (#[trigger] tx.accounts_before@[i].positions@[j]).position.value() == 0,
        tx.accounts_delta_before@[i].nothing_changed(p),
        tx.accounts_delta_before@[i].asset_delta_root == tx.accounts_before@[i].asset_root,
        tx.market_before.is_empty(),
        tx.taker_fee == 0,
        tx.maker_fee == 0,
        tx.accounts_before@[2].partial_hash == fee_partial.full,
        tx.accounts_before@[2].partial_hash_for_pub_data == fee_partial.pub_data,
        tx.accounts_delta_before@[2].partial_hash == fee_delta_partial,
        i < 2 ==> tx.accounts_before@[i].partial_hash == zero_hash()
            && tx.accounts_delta_before@[i].partial_hash == zero_hash(),
{
    let a = tx.accounts_before@[i];
    assert(is_empty_account(a, trees, shape));
    assert(is_empty_delta(tx.accounts_delta_before@[i], trees, shape));
    assert(a.collateral@.sign == 0);
    assert forall|j: int| 0 <= j < 255 implies (#[trigger] a.positions@[j]).position.value() == 0 by {
        assert(a.positions@[j]@ == empty_position());
        assert(a.positions@[j]@.position.sign == 0);
    }
    assert(is_empty_account(tx.accounts_before@[2], trees, shape));
    assert(is_empty_delta(tx.accounts_delta_before@[2], trees, shape));
}

} // verus!
