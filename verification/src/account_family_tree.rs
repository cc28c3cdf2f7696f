//! Sparse Merkle trees of fixed depth over digests, and the harvest of sibling
//! paths from other leaves' proofs.
//!
//! Two digests are compressed by a function that the caller supplies. The empty
//! leaf is the digest of zeros, and an empty subtree compresses its empty half
//! with itself.

use crate::hash::{compresses, functional, total, zero_hash, HashOut};
use crate::text::{dec, push_dec, push_dec_wide};
use std::collections::HashMap;
use vstd::arithmetic::power2::*;
use vstd::prelude::*;
use vstd::string::*;

verus! {

broadcast use vstd::std_specs::hash::group_hash_axioms;

/// The position of the ancestor `level` levels above position `idx`.
pub open spec fn ancestor(idx: nat, level: nat) -> nat
    decreases level,
{
    if level == 0 {
        idx
    } else {
        ancestor(idx, (level - 1) as nat) / 2
    }
}

/// The position next to `idx` below the same parent.
pub open spec fn sibling(idx: nat) -> nat {
    if idx % 2 == 0 {
        idx + 1
    } else {
        (idx - 1) as nat
    }
}

/// The heap key of the node at `level` and position `idx` in a tree of `depth`
/// levels. The root has key 1.
pub open spec fn heap_key(depth: nat, level: nat, idx: nat) -> nat {
    pow2((depth - level) as nat) + idx
}

/// Whether the node exists in a tree of `depth` levels.
pub open spec fn in_tree(depth: nat, level: nat, idx: nat) -> bool {
    level <= depth && idx < pow2((depth - level) as nat)
}

proof fn lemma_levels(depth: nat, level: nat)
    requires
        level < depth,
    ensures
        pow2((depth - level) as nat) == 2 * pow2((depth - level - 1) as nat),
        pow2((depth - level - 1) as nat) >= 1,
{
    lemma_pow2_unfold((depth - level) as nat);
    lemma_pow2_pos((depth - level - 1) as nat);
}

proof fn lemma_ancestor_in_tree(depth: nat, idx: nat, level: nat)
    requires
        idx < pow2(depth),
        level <= depth,
    ensures
        in_tree(depth, level, ancestor(idx, level)),
    decreases level,
{
    if level > 0 {
        lemma_ancestor_in_tree(depth, idx, (level - 1) as nat);
        lemma_levels(depth, (level - 1) as nat);
    }
}

proof fn lemma_sibling_in_tree(depth: nat, level: nat, idx: nat)
    requires
        level < depth,
        in_tree(depth, level, idx),
    ensures
        in_tree(depth, level, sibling(idx)),
        in_tree(depth, level + 1, idx / 2),
        sibling(idx) / 2 == idx / 2,
        sibling(idx) != idx,
{
    lemma_levels(depth, level);
}

/// Nodes have different heap keys.
proof fn lemma_heap_key_injective(depth: nat, l1: nat, i1: nat, l2: nat, i2: nat)
    requires
        in_tree(depth, l1, i1),
        in_tree(depth, l2, i2),
        heap_key(depth, l1, i1) == heap_key(depth, l2, i2),
    ensures
        l1 == l2,
        i1 == i2,
{
    if l1 < l2 {
        lemma_levels_apart(depth, l1, l2);
    } else if l2 < l1 {
        lemma_levels_apart(depth, l2, l1);
    }
}

proof fn lemma_levels_apart(depth: nat, low: nat, high: nat)
    requires
        low < high <= depth,
    ensures
        2 * pow2((depth - high) as nat) <= pow2((depth - low) as nat),
    decreases high - low,
{
    lemma_levels(depth, low);
    if low + 1 < high {
        lemma_levels_apart(depth, low + 1, high);
        lemma_pow2_pos((depth - high) as nat);
    }
}

proof fn lemma_heap_key_fits(depth: nat, level: nat, idx: nat)
    requires
        depth < 128,
        in_tree(depth, level, idx),
    ensures
        1 <= heap_key(depth, level, idx) < 2 * pow2(depth),
        2 * pow2(depth) <= u128::MAX + 1,
{
    lemma_pow2_pos((depth - level) as nat);
    if level > 0 {
        lemma_levels_apart(depth, 0, level);
    }
    lemma_pow2_unfold((depth + 1) as nat);
    if depth + 1 < 128 {
        lemma_pow2_strictly_increases((depth + 1) as nat, 128);
    }
    lemma2_to64();
    lemma_pow2_adds(64, 64);
}

/// `2^exp`.
fn power_of_two(exp: usize) -> (r: u128)
    requires
        exp < 128,
    ensures
        r == pow2(exp as nat),
{
    let mut p: u128 = 1;
    let mut i: usize = 0;
    proof {
        lemma2_to64();
    }
    while i < exp
        invariant
            i <= exp < 128,
            p == pow2(i as nat),
        decreases exp - i,
    {
        proof {
            lemma_pow2_unfold((i + 1) as nat);
            lemma2_to64();
            lemma_pow2_adds(64, 64);
            if i + 1 < 128 {
                lemma_pow2_strictly_increases((i + 1) as nat, 128);
            }
        }
        p = p * 2;
        i = i + 1;
    }
    p
}

/// Whether `empties[i]` is the digest of an empty subtree of `i` levels.
pub open spec fn empty_digests<H: Fn(HashOut, HashOut) -> HashOut>(h: H, empties: Seq<HashOut>) -> bool {
    &&& empties.len() > 0 ==> empties[0] == zero_hash()
    &&& forall|i: int|
        0 <= i < empties.len() - 1 ==> compresses(
            h,
            empties[i],
            empties[i],
            #[trigger] empties[i + 1],
        )
}

/// The digests of empty subtrees of up to `levels` levels.
pub fn empty_siblings<H: Fn(HashOut, HashOut) -> HashOut>(levels: usize, h: &H) -> (r: Vec<HashOut>)
    requires
        total(*h),
        levels < usize::MAX,
    ensures
        r@.len() == levels + 1,
        empty_digests(*h, r@),
{
    let mut r: Vec<HashOut> = Vec::new();
    r.push(HashOut::zero());
    let mut i: usize = 0;
    while i < levels
        invariant
            i <= levels < usize::MAX,
            total(*h),
            r@.len() == i + 1,
            empty_digests(*h, r@),
        decreases levels - i,
    {
        let below: HashOut = r[i];
        let above: HashOut = h(below, below);
        let ghost before = r@;
        r.push(above);
        proof {
            assert forall|j: int| 0 <= j < r@.len() - 1 implies compresses(
                *h,
                r@[j],
                r@[j],
                #[trigger] r@[j + 1],
            ) by {
                if j < i {
                    assert(r@[j] == before[j]);
                    assert(r@[j + 1] == before[j + 1]);
                }
            }
        }
        i = i + 1;
    }
    r
}

/// The digest of an empty subtree of `level` levels.
pub fn empty_sibling<H: Fn(HashOut, HashOut) -> HashOut>(level: usize, h: &H) -> (r: HashOut)
    requires
        total(*h),
        level < usize::MAX,
    ensures
        exists|empties: Seq<HashOut>|
            empties.len() == level + 1 && #[trigger] empty_digests(*h, empties) && r == empties[level as int],
{
    let all: Vec<HashOut> = empty_siblings(level, h);
    all[level]
}

/// A node and its sibling in the order in which they are compressed.
pub open spec fn merged<H: Fn(HashOut, HashOut) -> HashOut>(
    h: H,
    idx: nat,
    node: HashOut,
    other: HashOut,
    out: HashOut,
) -> bool {
    if idx % 2 == 0 {
        compresses(h, node, other, out)
    } else {
        compresses(h, other, node, out)
    }
}

/// Compresses a node at an even position with its sibling on the right, at an
/// odd position with its sibling on the left.
fn merge<H: Fn(HashOut, HashOut) -> HashOut>(h: &H, odd: bool, node: HashOut, other: HashOut) -> (r:
    HashOut)
    requires
        total(*h),
    ensures
        odd ==> compresses(*h, other, node, r),
        !odd ==> compresses(*h, node, other, r),
{
    if odd {
        h(other, node)
    } else {
        h(node, other)
    }
}

/// Whether `out` may be the root that the leaf at `idx` leads to along `path`.
/// The path lists siblings from the leaf up.
pub open spec fn climbs<H: Fn(HashOut, HashOut) -> HashOut>(
    h: H,
    idx: nat,
    leaf: HashOut,
    path: Seq<HashOut>,
    out: HashOut,
) -> bool
    decreases path.len(),
{
    if path.len() == 0 {
        out == leaf
    } else {
        exists|below: HashOut|
            climbs(h, idx, leaf, path.drop_last(), below) && #[trigger] merged(
                h,
                ancestor(idx, (path.len() - 1) as nat),
                below,
                path.last(),
                out,
            )
    }
}

/// The root that the leaf at `leaf_index` leads to along `path`.
pub fn fold_path<H: Fn(HashOut, HashOut) -> HashOut>(
    leaf_index: u128,
    leaf_hash: HashOut,
    path: &Vec<HashOut>,
    h: &H,
) -> (r: HashOut)
    requires
        total(*h),
    ensures
        climbs(*h, leaf_index as nat, leaf_hash, path@, r),
{
    let mut state: HashOut = leaf_hash;
    let mut key: u128 = leaf_index;
    let n: usize = path.len();
    let mut i: usize = 0;
    assert(path@.take(0) =~= Seq::<HashOut>::empty());
    while i < n
        invariant
            i <= n == path@.len(),
            total(*h),
            key == ancestor(leaf_index as nat, i as nat),
            climbs(*h, leaf_index as nat, leaf_hash, path@.take(i as int), state),
        decreases n - i,
    {
        let ghost below = state;
        state = merge(h, key % 2 == 1, state, path[i]);
        proof {
            let longer = path@.take(i + 1);
            assert(longer.drop_last() =~= path@.take(i as int));
            assert(merged(
                *h,
                ancestor(leaf_index as nat, (longer.len() - 1) as nat),
                below,
                longer.last(),
                state,
            ));
        }
        key = key / 2;
        i = i + 1;
    }
    assert(path@.take(n as int) =~= path@);
    state
}

/// With a functional compression a leaf and a path lead to one root.
pub proof fn climb_is_unique<H: Fn(HashOut, HashOut) -> HashOut>(
    h: H,
    idx: nat,
    leaf: HashOut,
    path: Seq<HashOut>,
    a: HashOut,
    b: HashOut,
)
    requires
        functional(h),
        climbs(h, idx, leaf, path, a),
        climbs(h, idx, leaf, path, b),
    ensures
        a == b,
    decreases path.len(),
{
    if path.len() > 0 {
        let at = ancestor(idx, (path.len() - 1) as nat);
        let x = choose|below: HashOut|
            climbs(h, idx, leaf, path.drop_last(), below) && #[trigger] merged(
                h,
                at,
                below,
                path.last(),
                a,
            );
        let y = choose|below: HashOut|
            climbs(h, idx, leaf, path.drop_last(), below) && #[trigger] merged(
                h,
                at,
                below,
                path.last(),
                b,
            );
        climb_is_unique(h, idx, leaf, path.drop_last(), x, y);
    }
}

/// A sparse Merkle tree of `L` levels.
#[derive(Debug, Clone)]
pub struct AccountFamilyTree<const L: usize> {
    /// The digests of empty subtrees, by number of levels.
    empty_hashes: Vec<HashOut>,
    /// The nodes on the paths of inserted leaves, by heap key.
    node_hashes: HashMap<u128, HashOut>,
}

/// The node that a heap of nodes has at `level` and `idx`: the one it holds, or
/// the empty subtree's digest.
pub open spec fn node_at(
    depth: nat,
    empties: Seq<HashOut>,
    nodes: Map<u128, HashOut>,
    level: nat,
    idx: nat,
) -> HashOut {
    let key = heap_key(depth, level, idx) as u128;
    if nodes.contains_key(key) {
        nodes[key]
    } else {
        empties[level as int]
    }
}

impl<const L: usize> AccountFamilyTree<L> {
    pub closed spec fn empties(&self) -> Seq<HashOut> {
        self.empty_hashes@
    }

    pub closed spec fn nodes(&self) -> Map<u128, HashOut> {
        self.node_hashes@
    }

    /// The node at `level` and `idx`; the leaves are level 0.
    pub open spec fn node(&self, level: nat, idx: nat) -> HashOut {
        node_at(L as nat, self.empties(), self.nodes(), level, idx)
    }

    /// The leaf at `idx`.
    pub open spec fn leaf(&self, idx: nat) -> HashOut {
        self.node(0, idx)
    }

    /// The tree has a digest for the empty subtree of each level.
    pub open spec fn wf(&self) -> bool {
        L < 128 && self.empties().len() == L + 1
    }

    /// Whether every node above the leaves compresses its two children.
    pub open spec fn coherent<H: Fn(HashOut, HashOut) -> HashOut>(&self, h: H) -> bool {
        forall|level: nat, idx: nat|
            level < L && in_tree(L as nat, level + 1, idx) ==> compresses(
                h,
                self.node(level, 2 * idx),
                self.node(level, 2 * idx + 1),
                #[trigger] self.node(level + 1, idx),
            )
    }

    /// Whether every node above the leaves compresses its children, but for those
    /// above `done` on the way from the leaf `idx` to the root.
    spec fn coherent_but<H: Fn(HashOut, HashOut) -> HashOut>(&self, h: H, leaf: nat, done: nat) -> bool {
        forall|level: nat, idx: nat|
            level < L && in_tree(L as nat, level + 1, idx) && (level < done || idx != ancestor(
                leaf,
                level + 1,
            )) ==> compresses(
                h,
                self.node(level, 2 * idx),
                self.node(level, 2 * idx + 1),
                #[trigger] self.node(level + 1, idx),
            )
    }

    /// The empty tree.
    pub fn new<H: Fn(HashOut, HashOut) -> HashOut>(h: &H) -> (r: Self)
        requires
            total(*h),
            L < 128,
        ensures
            r.wf(),
            r.coherent(*h),
            forall|idx: nat| #[trigger] r.leaf(idx) == zero_hash(),
            empty_digests(*h, r.empties()),
            r.nodes() == Map::<u128, HashOut>::empty(),
    {
        let r = AccountFamilyTree { empty_hashes: empty_siblings(L, h), node_hashes: HashMap::new() };
        proof {
            assert forall|level: nat, idx: nat|
                level < L && in_tree(L as nat, level + 1, idx) implies compresses(
                *h,
                r.node(level, 2 * idx),
                r.node(level, 2 * idx + 1),
                #[trigger] r.node(level + 1, idx),
            ) by {
                assert(r.empties()[level as int + 1] == r.node(level + 1, idx));
            }
        }
        r
    }

    /// The root.
    pub fn root(&self) -> (r: HashOut)
        requires
            self.wf(),
        ensures
            r == self.node(L as nat, 0),
    {
        proof {
            lemma2_to64();
        }
        match self.node_hashes.get(&1u128) {
            Some(x) => *x,
            None => self.empty_hashes[L],
        }
    }

    fn node_or_empty(&self, key: u128, level: usize) -> (r: HashOut)
        requires
            self.wf(),
            level <= L,
        ensures
            r == if self.nodes().contains_key(key) {
                self.nodes()[key]
            } else {
                self.empties()[level as int]
            },
    {
        match self.node_hashes.get(&key) {
            Some(x) => *x,
            None => self.empty_hashes[level],
        }
    }

    /// Puts `leaf_hash` at `leaf_index` and recomputes the nodes above it.
    pub fn insert_leaf<H: Fn(HashOut, HashOut) -> HashOut>(
        &mut self,
        leaf_index: u128,
        leaf_hash: HashOut,
        h: &H,
    )
        requires
            old(self).wf(),
            total(*h),
            leaf_index < pow2(L as nat),
        ensures
            final(self).wf(),
            final(self).empties() == old(self).empties(),
            final(self).leaf(leaf_index as nat) == leaf_hash,
            forall|idx: nat|
                in_tree(L as nat, 0, idx) && idx != leaf_index ==> #[trigger] final(self).leaf(idx)
                    == old(self).leaf(idx),
            forall|level: nat, idx: nat|
                in_tree(L as nat, level, idx) && idx != ancestor(leaf_index as nat, level)
                    ==> #[trigger] final(self).node(level, idx) == old(self).node(level, idx),
            old(self).coherent(*h) ==> final(self).coherent(*h),
    {
        let ghost leaf = leaf_index as nat;
        let ghost depth = L as nat;
        proof {
            lemma_heap_key_fits(depth, 0, leaf);
        }
        let mut key: u128 = power_of_two(L) + leaf_index;
        let mut node_hash: HashOut = leaf_hash;
        self.node_hashes.insert(key, node_hash);
        proof {
            assert(key == heap_key(depth, 0, leaf));
            self.lemma_one_node_changed(*old(self), 0, leaf, node_hash);
            if old(self).coherent(*h) {
                assert(self.coherent_but(*h, leaf, 0)) by {
                    assert forall|m: nat, idx: nat|
                        m < L && in_tree(depth, m + 1, idx) && idx != ancestor(leaf, m + 1) implies compresses(
                        *h,
                        self.node(m, 2 * idx),
                        self.node(m, 2 * idx + 1),
                        #[trigger] self.node(m + 1, idx),
                    ) by {
                        lemma_children_in_tree(depth, m, idx);
                        assert(ancestor(leaf, 0) == leaf);
                        assert(ancestor(leaf, 1) == leaf / 2);
                        assert(self.node(m, 2 * idx) == old(self).node(m, 2 * idx));
                        assert(self.node(m, 2 * idx + 1) == old(self).node(m, 2 * idx + 1));
                        assert(self.node(m + 1, idx) == old(self).node(m + 1, idx));
                    }
                }
            }
        }
        let mut level: usize = 0;
        while level < L
            invariant
                self.wf(),
                depth == L as nat,
                leaf == leaf_index as nat,
                leaf < pow2(depth),
                total(*h),
                level <= L,
                self.empties() == old(self).empties(),
                in_tree(depth, level as nat, ancestor(leaf, level as nat)),
                key == heap_key(depth, level as nat, ancestor(leaf, level as nat)),
                node_hash == self.node(level as nat, ancestor(leaf, level as nat)),
                self.node(0, leaf) == leaf_hash,
                forall|m: nat, idx: nat|
                    in_tree(depth, m, idx) && idx != ancestor(leaf, m) ==> #[trigger] self.node(m, idx)
                        == old(self).node(m, idx),
                old(self).coherent(*h) ==> self.coherent_but(*h, leaf, level as nat),
            decreases L - level,
        {
            let ghost at = ancestor(leaf, level as nat);
            let ghost up = ancestor(leaf, (level + 1) as nat);
            proof {
                lemma_levels(depth, level as nat);
                lemma_sibling_in_tree(depth, level as nat, at);
                lemma_heap_key_fits(depth, level as nat, at);
                lemma_heap_key_fits(depth, level as nat, sibling(at));
                lemma_heap_key_fits(depth, (level + 1) as nat, up);
            }
            let odd: bool = key % 2 == 1;
            let sibling_key: u128 = if odd {
                key - 1
            } else {
                key + 1
            };
            assert(odd == (at % 2 == 1));
            assert(sibling_key == heap_key(depth, level as nat, sibling(at)));
            let sibling_hash: HashOut = self.node_or_empty(sibling_key, level);
            assert(sibling_hash == self.node(level as nat, sibling(at)));
            let parent_hash: HashOut = merge(h, odd, node_hash, sibling_hash);
            let parent_key: u128 = key / 2;
            assert(parent_key == heap_key(depth, (level + 1) as nat, up));
            let ghost before = *self;
            self.node_hashes.insert(parent_key, parent_hash);
            proof {
                self.lemma_one_node_changed(before, (level + 1) as nat, up, parent_hash);
                assert(in_tree(depth, 0, leaf));
                assert(self.node(0, leaf) == before.node(0, leaf));
                if old(self).coherent(*h) {
                    assert(before.coherent_but(*h, leaf, level as nat));
                    self.lemma_coherent_step(before, *h, leaf, level as nat, parent_hash);
                }
            }
            node_hash = parent_hash;
            key = parent_key;
            level = level + 1;
        }
        proof {
            if old(self).coherent(*h) {
                assert(self.coherent(*h)) by {
                    assert forall|m: nat, idx: nat|
                        m < L && in_tree(depth, m + 1, idx) implies compresses(
                        *h,
                        self.node(m, 2 * idx),
                        self.node(m, 2 * idx + 1),
                        #[trigger] self.node(m + 1, idx),
                    ) by {
                        assert(m < L as nat);
                    }
                }
            }
        }
    }

    proof fn lemma_one_node_changed(self, before: Self, level: nat, idx: nat, value: HashOut)
        requires
            L < 128,
            in_tree(L as nat, level, idx),
            self.empties() == before.empties(),
            self.nodes() == before.nodes().insert(
                heap_key(L as nat, level, idx) as u128,
                value,
            ),
        ensures
            self.node(level, idx) == value,
            forall|m: nat, i: nat|
                in_tree(L as nat, m, i) && (m != level || i != idx) ==> #[trigger] self.node(m, i)
                    == before.node(m, i),
    {
        let depth = L as nat;
        lemma_heap_key_fits(depth, level, idx);
        assert forall|m: nat, i: nat|
            in_tree(depth, m, i) && (m != level || i != idx) implies #[trigger] self.node(m, i)
            == before.node(m, i) by {
            lemma_heap_key_fits(depth, m, i);
            if heap_key(depth, m, i) == heap_key(depth, level, idx) {
                lemma_heap_key_injective(depth, m, i, level, idx);
            }
        }
    }

    proof fn lemma_coherent_step<H: Fn(HashOut, HashOut) -> HashOut>(
        self,
        before: Self,
        h: H,
        leaf: nat,
        level: nat,
        parent: HashOut,
    )
        requires
            L < 128,
            level < L,
            leaf < pow2(L as nat),
            before.coherent_but(h, leaf, level),
            self.node(level + 1, ancestor(leaf, level + 1)) == parent,
            forall|m: nat, i: nat|
                in_tree(L as nat, m, i) && (m != level + 1 || i != ancestor(leaf, level + 1))
                    ==> #[trigger] self.node(m, i) == before.node(m, i),
            merged(
                h,
                ancestor(leaf, level),
                before.node(level, ancestor(leaf, level)),
                before.node(level, sibling(ancestor(leaf, level))),
                parent,
            ),
        ensures
            self.coherent_but(h, leaf, level + 1),
    {
        let depth = L as nat;
        assert forall|m: nat, idx: nat|
            m < L && in_tree(depth, m + 1, idx) && (m < level + 1 || idx != ancestor(leaf, m + 1)) implies compresses(
            h,
            self.node(m, 2 * idx),
            self.node(m, 2 * idx + 1),
            #[trigger] self.node(m + 1, idx),
        ) by {
            lemma_children_in_tree(depth, m, idx);
            let at = ancestor(leaf, level);
            if m == level && idx == ancestor(leaf, level + 1) {
                lemma_ancestor_in_tree(depth, leaf, level);
                assert(self.node(m, 2 * idx) == before.node(m, 2 * idx));
                assert(self.node(m, 2 * idx + 1) == before.node(m, 2 * idx + 1));
                if at % 2 == 0 {
                    assert(at == 2 * idx);
                } else {
                    assert(at == 2 * idx + 1);
                }
            } else {
                assert(before.node(m + 1, idx) == self.node(m + 1, idx));
                if m == level + 1 {
                    // The changed node is no child of a node off the path.
                    assert(ancestor(leaf, m + 1) == ancestor(leaf, level + 1) / 2);
                }
                assert(self.node(m, 2 * idx) == before.node(m, 2 * idx));
                assert(self.node(m, 2 * idx + 1) == before.node(m, 2 * idx + 1));
            }
        }
    }

    /// The siblings on the way from the leaf at `leaf_index` to the root, from
    /// the leaf up.
    pub fn leaf_proof(&self, leaf_index: u128) -> (r: Vec<HashOut>)
        requires
            self.wf(),
            leaf_index < pow2(L as nat),
        ensures
            r@ == self.siblings(leaf_index as nat),
    {
        let ghost leaf = leaf_index as nat;
        let ghost depth = L as nat;
        proof {
            lemma_heap_key_fits(depth, 0, leaf);
        }
        let mut key: u128 = power_of_two(L) + leaf_index;
        let mut r: Vec<HashOut> = Vec::new();
        let mut level: usize = 0;
        while level < L
            invariant
                self.wf(),
                depth == L as nat,
                leaf < pow2(depth),
                level <= L,
                in_tree(depth, level as nat, ancestor(leaf, level as nat)),
                key == heap_key(depth, level as nat, ancestor(leaf, level as nat)),
                r@.len() == level,
                forall|m: int|
                    0 <= m < level ==> #[trigger] r@[m] == self.node(
                        m as nat,
                        sibling(ancestor(leaf, m as nat)),
                    ),
            decreases L - level,
        {
            let ghost at = ancestor(leaf, level as nat);
            proof {
                lemma_levels(depth, level as nat);
                lemma_sibling_in_tree(depth, level as nat, at);
                lemma_heap_key_fits(depth, level as nat, at);
                lemma_heap_key_fits(depth, level as nat, sibling(at));
            }
            let sibling_key: u128 = if key % 2 == 1 {
                key - 1
            } else {
                key + 1
            };
            assert(sibling_key == heap_key(depth, level as nat, sibling(at)));
            r.push(self.node_or_empty(sibling_key, level));
            key = key / 2;
            level = level + 1;
        }
        assert(r@ =~= self.siblings(leaf));
        r
    }

    /// The siblings on the way from the leaf at `idx` to the root.
    pub open spec fn siblings(&self, idx: nat) -> Seq<HashOut> {
        Seq::new(L as nat, |m: int| self.node(m as nat, sibling(ancestor(idx, m as nat))))
    }

    /// The root that a leaf leads to along a path.
    pub fn fold<H: Fn(HashOut, HashOut) -> HashOut>(
        leaf_index: u128,
        leaf_hash: HashOut,
        path: &Vec<HashOut>,
        h: &H,
    ) -> (r: HashOut)
        requires
            total(*h),
        ensures
            climbs(*h, leaf_index as nat, leaf_hash, path@, r),
    {
        fold_path(leaf_index, leaf_hash, path, h)
    }
}

proof fn lemma_children_in_tree(depth: nat, level: nat, idx: nat)
    requires
        level < depth,
        in_tree(depth, level + 1, idx),
    ensures
        in_tree(depth, level, 2 * idx),
        in_tree(depth, level, 2 * idx + 1),
{
    lemma_levels(depth, level);
}

/// The path of every leaf of a coherent tree, inserted or empty, leads from the
/// leaf to the root.
pub proof fn paths_lead_to_the_root<const L: usize, H: Fn(HashOut, HashOut) -> HashOut>(
    tree: AccountFamilyTree<L>,
    h: H,
    idx: nat,
    out: HashOut,
)
    requires
        tree.wf(),
        tree.coherent(h),
        functional(h),
        idx < pow2(L as nat),
        climbs(h, idx, tree.leaf(idx), tree.siblings(idx), out),
    ensures
        out == tree.node(L as nat, 0),
{
    lemma_climb_to(tree, h, idx, L as nat);
    let path = tree.siblings(idx);
    assert(path.take(L as int) =~= path);
    lemma_ancestor_in_tree(L as nat, idx, L as nat);
    lemma2_to64();
    climb_is_unique(h, idx, tree.leaf(idx), path, out, tree.node(L as nat, 0));
}

proof fn lemma_climb_to<const L: usize, H: Fn(HashOut, HashOut) -> HashOut>(
    tree: AccountFamilyTree<L>,
    h: H,
    idx: nat,
    level: nat,
)
    requires
        tree.wf(),
        tree.coherent(h),
        idx < pow2(L as nat),
        level <= L,
    ensures
        climbs(
            h,
            idx,
            tree.leaf(idx),
            tree.siblings(idx).take(level as int),
            tree.node(level, ancestor(idx, level)),
        ),
    decreases level,
{
    let depth = L as nat;
    let path = tree.siblings(idx).take(level as int);
    if level > 0 {
        let m = (level - 1) as nat;
        lemma_climb_to(tree, h, idx, m);
        lemma_ancestor_in_tree(depth, idx, m);
        lemma_ancestor_in_tree(depth, idx, level);
        let at = ancestor(idx, m);
        let up = ancestor(idx, level);
        assert(path.drop_last() =~= tree.siblings(idx).take(m as int));
        assert(path.last() == tree.node(m, sibling(at)));
        assert(compresses(
            h,
            tree.node(m, 2 * up),
            tree.node(m, 2 * up + 1),
            tree.node(m + 1, up),
        ));
        if at % 2 == 0 {
            assert(at == 2 * up);
        } else {
            assert(at == 2 * up + 1);
        }
        assert(merged(h, at, tree.node(m, at), path.last(), tree.node(level, up)));
    }
}

/// The root depends on the leaves alone.
pub proof fn equal_leaves_have_equal_roots<const L: usize, H: Fn(HashOut, HashOut) -> HashOut>(
    a: AccountFamilyTree<L>,
    b: AccountFamilyTree<L>,
    h: H,
)
    requires
        a.wf(),
        b.wf(),
        a.coherent(h),
        b.coherent(h),
        functional(h),
        forall|idx: nat| in_tree(L as nat, 0, idx) ==> #[trigger] a.leaf(idx) == b.leaf(idx),
    ensures
        a.node(L as nat, 0) == b.node(L as nat, 0),
{
    lemma2_to64();
    lemma_equal_nodes(a, b, h, L as nat, 0);
}

proof fn lemma_equal_nodes<const L: usize, H: Fn(HashOut, HashOut) -> HashOut>(
    a: AccountFamilyTree<L>,
    b: AccountFamilyTree<L>,
    h: H,
    level: nat,
    idx: nat,
)
    requires
        a.coherent(h),
        b.coherent(h),
        functional(h),
        in_tree(L as nat, level, idx),
        forall|i: nat| in_tree(L as nat, 0, i) ==> #[trigger] a.leaf(i) == b.leaf(i),
    ensures
        a.node(level, idx) == b.node(level, idx),
    decreases level,
{
    if level == 0 {
        assert(a.leaf(idx) == b.leaf(idx));
    } else {
        let m = (level - 1) as nat;
        lemma_children_in_tree(L as nat, m, idx);
        lemma_equal_nodes(a, b, h, m, 2 * idx);
        lemma_equal_nodes(a, b, h, m, 2 * idx + 1);
        assert(compresses(h, a.node(m, 2 * idx), a.node(m, 2 * idx + 1), a.node(m + 1, idx)));
        assert(compresses(h, b.node(m, 2 * idx), b.node(m, 2 * idx + 1), b.node(m + 1, idx)));
    }
}

/// Collects the nodes that other leaves' proofs reveal, to put together the path
/// of a leaf that nobody has proved. A node that is seen again replaces what was
/// known of it.
#[derive(Debug, Clone)]
pub struct PathHarvester<const L: usize> {
    empty_hashes: Vec<HashOut>,
    nodes: HashMap<u128, HashOut>,
}

/// Whether `hs` are the digests from the leaf `idx` up to the root along `path`.
pub open spec fn climb_states<H: Fn(HashOut, HashOut) -> HashOut>(
    h: H,
    idx: nat,
    leaf: HashOut,
    path: Seq<HashOut>,
    hs: Seq<HashOut>,
) -> bool {
    &&& hs.len() == path.len() + 1
    &&& hs[0] == leaf
    &&& forall|l: int|
        0 <= l < path.len() ==> merged(
            h,
            ancestor(idx, l as nat),
            hs[l],
            path[l],
            #[trigger] hs[l + 1],
        )
}

/// What a proof says of the node at `level` and `i`, counting its first `nodes`
/// nodes and `sibs` siblings.
pub open spec fn proof_says(
    idx: nat,
    hs: Seq<HashOut>,
    path: Seq<HashOut>,
    nodes: nat,
    sibs: nat,
    level: nat,
    i: nat,
) -> Option<HashOut> {
    if level < nodes && i == ancestor(idx, level) {
        Some(hs[level as int])
    } else if level < sibs && i == sibling(ancestor(idx, level)) {
        Some(path[level as int])
    } else {
        None
    }
}

/// Whether `after` is `before` with what a proof says recorded over it.
pub open spec fn recorded(
    depth: nat,
    before: Map<u128, HashOut>,
    after: Map<u128, HashOut>,
    idx: nat,
    hs: Seq<HashOut>,
    path: Seq<HashOut>,
    nodes: nat,
    sibs: nat,
) -> bool {
    forall|level: nat, i: nat|
        #![trigger heap_key(depth, level, i)]
        in_tree(depth, level, i) ==> {
            let key = heap_key(depth, level, i) as u128;
            match proof_says(idx, hs, path, nodes, sibs, level, i) {
                Some(v) => after.contains_key(key) && after[key] == v,
                None => after.contains_key(key) == before.contains_key(key) && after[key]
                    == before[key],
            }
        }
}

/// Whether a proof says of the node at `level` and `i` something else than what
/// is known.
pub open spec fn conflict_at(
    depth: nat,
    known: Map<u128, HashOut>,
    idx: nat,
    hs: Seq<HashOut>,
    path: Seq<HashOut>,
    level: nat,
    i: nat,
) -> bool {
    let key = heap_key(depth, level, i) as u128;
    &&& in_tree(depth, level, i)
    &&& known.contains_key(key)
    &&& match proof_says(idx, hs, path, depth + 1, depth, level, i) {
        Some(v) => known[key] != v,
        None => false,
    }
}

/// Whether a proof contradicts what is known.
pub open spec fn conflicts(
    depth: nat,
    known: Map<u128, HashOut>,
    idx: nat,
    hs: Seq<HashOut>,
    path: Seq<HashOut>,
) -> bool {
    exists|level: nat, i: nat| #[trigger] conflict_at(depth, known, idx, hs, path, level, i)
}

/// A digest as text.
pub open spec fn hash_text(h: HashOut) -> Seq<char> {
    "HashOut { elements: ["@ + dec(h.e0 as nat) + ", "@ + dec(h.e1 as nat) + ", "@ + dec(
        h.e2 as nat,
    ) + ", "@ + dec(h.e3 as nat) + "] }"@
}

fn describe_hash(h: &HashOut) -> (r: String)
    ensures
        r@ == hash_text(*h),
{
    let mut r = String::from_str("HashOut { elements: [");
    push_dec(&mut r, h.e0);
    r.append(", ");
    push_dec(&mut r, h.e1);
    r.append(", ");
    push_dec(&mut r, h.e2);
    r.append(", ");
    push_dec(&mut r, h.e3);
    r.append("] }");
    r
}

/// The error for a node that contradicts what is known of it.
pub open spec fn conflict_text(key: nat, level: nat, known: HashOut, said: HashOut) -> Seq<char> {
    "PathHarvester node conflict at heap key "@ + dec(key) + " (level "@ + dec(level) + "): "@
        + hash_text(known) + " vs "@ + hash_text(said) + " \u{2014} incoherent state"@
}

/// Whether what a proof says of its first nodes and siblings agrees with what is
/// known.
pub open spec fn no_conflict_below(
    depth: nat,
    known: Map<u128, HashOut>,
    idx: nat,
    hs: Seq<HashOut>,
    path: Seq<HashOut>,
    nodes: nat,
    sibs: nat,
) -> bool {
    forall|level: nat, i: nat|
        #![trigger heap_key(depth, level, i)]
        in_tree(depth, level, i) ==> match proof_says(idx, hs, path, nodes, sibs, level, i) {
            Some(v) => known.contains_key(heap_key(depth, level, i) as u128) ==> known[heap_key(
                depth,
                level,
                i,
            ) as u128] == v,
            None => true,
        }
}

/// The node that a proof names after its first `nodes` nodes and `sibs` siblings, as
/// its level, its position and what the proof says of it. Each node is followed by
/// its sibling, and that by the node above.
pub open spec fn named_next(
    idx: nat,
    hs: Seq<HashOut>,
    path: Seq<HashOut>,
    nodes: nat,
    sibs: nat,
) -> (nat, nat, HashOut) {
    if nodes == sibs {
        (nodes, ancestor(idx, nodes), hs[nodes as int])
    } else {
        (sibs, sibling(ancestor(idx, sibs)), path[sibs as int])
    }
}

/// Whether a proof is refused with `text` after its first `nodes` nodes and `sibs`
/// siblings: these agree with what was known and are recorded, and of the next one
/// something else was known. `hs` are the digests from the leaf up, as far as they
/// were computed.
pub open spec fn refused_after<H: Fn(HashOut, HashOut) -> HashOut>(
    h: H,
    depth: nat,
    before: Map<u128, HashOut>,
    after: Map<u128, HashOut>,
    idx: nat,
    leaf: HashOut,
    path: Seq<HashOut>,
    hs: Seq<HashOut>,
    nodes: nat,
    sibs: nat,
    text: Seq<char>,
) -> bool {
    let (level, i, said) = named_next(idx, hs, path, nodes, sibs);
    let key = heap_key(depth, level, i);
    &&& nodes == sibs <= depth || nodes == sibs + 1 <= depth
    &&& climb_states(h, idx, leaf, path.take(hs.len() - 1), hs)
    &&& hs.len() == sibs + 1
    &&& recorded(depth, before, after, idx, hs, path, nodes, sibs)
    &&& no_conflict_below(depth, before, idx, hs, path, nodes, sibs)
    &&& before.contains_key(key as u128)
    &&& before[key as u128] != said
    &&& text == conflict_text(key, level, before[key as u128], said)
}

/// Whether a proof is refused with `text`, and what is known after that.
pub open spec fn refused<H: Fn(HashOut, HashOut) -> HashOut>(
    h: H,
    depth: nat,
    before: Map<u128, HashOut>,
    after: Map<u128, HashOut>,
    idx: nat,
    leaf: HashOut,
    path: Seq<HashOut>,
    text: Seq<char>,
) -> bool {
    exists|hs: Seq<HashOut>, nodes: nat, sibs: nat| #[trigger]
        refused_after(h, depth, before, after, idx, leaf, path, hs, nodes, sibs, text)
}

/// Whether every node that was known is known, and is the same.
pub open spec fn kept(depth: nat, before: Map<u128, HashOut>, after: Map<u128, HashOut>) -> bool {
    forall|level: nat, i: nat|
        #![trigger heap_key(depth, level, i)]
        in_tree(depth, level, i) && before.contains_key(heap_key(depth, level, i) as u128)
            ==> after.contains_key(heap_key(depth, level, i) as u128) && after[heap_key(
            depth,
            level,
            i,
        ) as u128] == before[heap_key(depth, level, i) as u128]
}

proof fn lemma_kept(
    depth: nat,
    before: Map<u128, HashOut>,
    after: Map<u128, HashOut>,
    idx: nat,
    hs: Seq<HashOut>,
    path: Seq<HashOut>,
    nodes: nat,
    sibs: nat,
)
    requires
        recorded(depth, before, after, idx, hs, path, nodes, sibs),
        no_conflict_below(depth, before, idx, hs, path, nodes, sibs),
    ensures
        kept(depth, before, after),
{
}

impl<const L: usize> PathHarvester<L> {
    pub closed spec fn empties(&self) -> Seq<HashOut> {
        self.empty_hashes@
    }

    pub closed spec fn known(&self) -> Map<u128, HashOut> {
        self.nodes@
    }

    pub open spec fn wf(&self) -> bool {
        L < 128 && self.empties().len() == L + 1
    }

    /// What is known of the node at `level` and `idx`; an unseen one counts as
    /// empty.
    pub open spec fn node(&self, level: nat, idx: nat) -> HashOut {
        node_at(L as nat, self.empties(), self.known(), level, idx)
    }

    /// A harvester that has seen nothing.
    pub fn new<H: Fn(HashOut, HashOut) -> HashOut>(h: &H) -> (r: Self)
        requires
            total(*h),
            L < 128,
        ensures
            r.wf(),
            r.known() == Map::<u128, HashOut>::empty(),
            empty_digests(*h, r.empties()),
    {
        PathHarvester { empty_hashes: empty_siblings(L, h), nodes: HashMap::new() }
    }

    /// Forgets every node.
    pub fn reset(&mut self)
        ensures
            final(self).known() == Map::<u128, HashOut>::empty(),
            final(self).empties() == old(self).empties(),
    {
        self.nodes.clear();
    }

    fn insert_node(&mut self, key: u128, hash: HashOut, level: usize, strict: bool) -> (r: Result<
        (),
        String,
    >)
        ensures
            final(self).empties() == old(self).empties(),
            match r {
                Ok(()) => {
                    &&& final(self).known() == old(self).known().insert(key, hash)
                    &&& strict && old(self).known().contains_key(key) ==> old(self).known()[key] == hash
                },
                Err(e) => {
                    &&& strict
                    &&& old(self).known().contains_key(key)
                    &&& old(self).known()[key] != hash
                    &&& final(self).known() == old(self).known()
                    &&& e@ == conflict_text(
                        key as nat,
                        level as nat,
                        old(self).known()[key],
                        hash,
                    )
                },
            },
    {
        if strict {
            match self.nodes.get(&key) {
                Some(existing) => {
                    if *existing != hash {
                        let mut e = String::from_str("PathHarvester node conflict at heap key ");
                        push_dec_wide(&mut e, key);
                        e.append(" (level ");
                        push_dec(&mut e, level as u64);
                        e.append("): ");
                        let was: String = describe_hash(existing);
                        e.append(was.as_str());
                        e.append(" vs ");
                        let now: String = describe_hash(&hash);
                        e.append(now.as_str());
                        e.append(" \u{2014} incoherent state");
                        return Err(e);
                    }
                },
                None => {},
            }
        }
        self.nodes.insert(key, hash);
        Ok(())
    }

    /// Records a proof: the leaf, its siblings, and the nodes above it. In strict
    /// mode a proof that contradicts what is known is an error.
    fn record_proof_inner<H: Fn(HashOut, HashOut) -> HashOut>(
        &mut self,
        leaf_index: u128,
        leaf_hash: HashOut,
        sibling_path: &Vec<HashOut>,
        strict: bool,
        h: &H,
    ) -> (r: Result<(), String>)
        requires
            old(self).wf(),
            total(*h),
            leaf_index < pow2(L as nat),
            sibling_path@.len() == L,
        ensures
            final(self).wf(),
            final(self).empties() == old(self).empties(),
            r is Ok ==> exists|hs: Seq<HashOut>|
                #![trigger climb_states(*h, leaf_index as nat, leaf_hash, sibling_path@, hs)]
                climb_states(*h, leaf_index as nat, leaf_hash, sibling_path@, hs) && recorded(
                    L as nat,
                    old(self).known(),
                    final(self).known(),
                    leaf_index as nat,
                    hs,
                    sibling_path@,
                    (L + 1) as nat,
                    L as nat,
                ) && (strict ==> !conflicts(
                    L as nat,
                    old(self).known(),
                    leaf_index as nat,
                    hs,
                    sibling_path@,
                )),
            strict ==> kept(L as nat, old(self).known(), final(self).known()),
            r matches Err(e) ==> strict && refused(
                *h,
                L as nat,
                old(self).known(),
                final(self).known(),
                leaf_index as nat,
                leaf_hash,
                sibling_path@,
                e@,
            ),
    {
        let ghost idx = leaf_index as nat;
        let ghost depth = L as nat;
        let ghost before = self.known();
        let ghost path = sibling_path@;
        let ghost mut hs: Seq<HashOut> = seq![leaf_hash];
        proof {
            lemma_heap_key_fits(depth, 0, idx);
            lemma2_to64();
        }
        let mut key: u128 = power_of_two(L) + leaf_index;
        let mut node_hash: HashOut = leaf_hash;
        assert(key == heap_key(depth, 0, idx));
        match self.insert_node(key, node_hash, 0, strict) {
            Ok(()) => {},
            Err(e) => {
                proof {
                    assert(path.take(0) =~= Seq::<HashOut>::empty());
                    assert(refused_after(
                        *h,
                        depth,
                        before,
                        self.known(),
                        idx,
                        leaf_hash,
                        path,
                        hs,
                        0,
                        0,
                        e@,
                    ));
                }
                return Err(e);
            },
        }
        proof {
            lemma_record_one(depth, before, before, self.known(), idx, hs, path, 0, 0, 0, idx, leaf_hash, 1, 0);
        }
        let mut level: usize = 0;
        assert(path.take(0) =~= Seq::<HashOut>::empty());
        while level < L
            invariant
                self.wf(),
                total(*h),
                depth == L as nat,
                idx == leaf_index as nat,
                idx < pow2(depth),
                path == sibling_path@,
                path.len() == L,
                level <= L,
                before == old(self).known(),
                self.empties() == old(self).empties(),
                in_tree(depth, level as nat, ancestor(idx, level as nat)),
                key == heap_key(depth, level as nat, ancestor(idx, level as nat)),
                hs.len() == level + 1,
                hs[0] == leaf_hash,
                node_hash == hs[level as int],
                climbs(*h, idx, leaf_hash, path.take(level as int), node_hash),
                forall|l: int|
                    0 <= l < level ==> merged(
                        *h,
                        ancestor(idx, l as nat),
                        hs[l],
                        path[l],
                        #[trigger] hs[l + 1],
                    ),
                recorded(
                    depth,
                    before,
                    self.known(),
                    idx,
                    hs,
                    path,
                    (level + 1) as nat,
                    level as nat,
                ),
                strict ==> no_conflict_below(
                    depth,
                    before,
                    idx,
                    hs,
                    path,
                    (level + 1) as nat,
                    level as nat,
                ),
            decreases L - level,
        {
            let ghost at = ancestor(idx, level as nat);
            let ghost up = ancestor(idx, (level + 1) as nat);
            proof {
                lemma_levels(depth, level as nat);
                lemma_sibling_in_tree(depth, level as nat, at);
                lemma_heap_key_fits(depth, level as nat, at);
                lemma_heap_key_fits(depth, level as nat, sibling(at));
                lemma_heap_key_fits(depth, (level + 1) as nat, up);
            }
            let odd: bool = key % 2 == 1;
            let sibling_key: u128 = if odd {
                key - 1
            } else {
                key + 1
            };
            assert(odd == (at % 2 == 1));
            assert(sibling_key == heap_key(depth, level as nat, sibling(at)));
            let other: HashOut = sibling_path[level];
            let ghost held = self.known();
            proof {
                // Nothing was recorded for the sibling so far.
                assert(proof_says(idx, hs, path, (level + 1) as nat, level as nat, level as nat, sibling(at)) is None);
                assert(heap_key(depth, level as nat, sibling(at)) == sibling_key);
            }
            match self.insert_node(sibling_key, other, level, strict) {
                Ok(()) => {},
                Err(e) => {
                    proof {
                        lemma_kept(
                            depth,
                            before,
                            self.known(),
                            idx,
                            hs,
                            path,
                            (level + 1) as nat,
                            level as nat,
                        );
                        lemma_partial_states(*h, idx, leaf_hash, path, hs);
                        assert(refused_after(
                            *h,
                            depth,
                            before,
                            self.known(),
                            idx,
                            leaf_hash,
                            path,
                            hs,
                            (level + 1) as nat,
                            level as nat,
                            e@,
                        ));
                    }
                    return Err(e);
                },
            }
            proof {
                lemma_record_one(
                    depth,
                    before,
                    held,
                    self.known(),
                    idx,
                    hs,
                    path,
                    (level + 1) as nat,
                    level as nat,
                    level as nat,
                    sibling(at),
                    other,
                    (level + 1) as nat,
                    (level + 1) as nat,
                );
                if strict {
                    lemma_no_conflict_step(
                        depth,
                        before,
                        idx,
                        hs,
                        path,
                        (level + 1) as nat,
                        level as nat,
                        level as nat,
                        sibling(at),
                        other,
                        (level + 1) as nat,
                        (level + 1) as nat,
                    );
                }
            }
            let parent_hash: HashOut = merge(h, odd, node_hash, other);
            let ghost shorter = hs;
            proof {
                let longer = path.take(level + 1);
                assert(longer.drop_last() =~= path.take(level as int));
                assert(merged(
                    *h,
                    ancestor(idx, (longer.len() - 1) as nat),
                    node_hash,
                    longer.last(),
                    parent_hash,
                ));
                assert(climbs(*h, idx, leaf_hash, longer, parent_hash));
                hs = hs.push(parent_hash);
                lemma_record_longer(depth, before, self.known(), idx, shorter, hs, path, (level + 1) as nat);
                if strict {
                    lemma_no_conflict_longer(depth, before, idx, shorter, hs, path, (level + 1) as nat);
                }
            }
            key = key / 2;
            assert(key == heap_key(depth, (level + 1) as nat, up));
            let ghost held2 = self.known();
            proof {
                assert(proof_says(
                    idx,
                    hs,
                    path,
                    (level + 1) as nat,
                    (level + 1) as nat,
                    (level + 1) as nat,
                    up,
                ) is None);
            }
            match self.insert_node(key, parent_hash, level + 1, strict) {
                Ok(()) => {},
                Err(e) => {
                    proof {
                        lemma_kept(
                            depth,
                            before,
                            self.known(),
                            idx,
                            hs,
                            path,
                            (level + 1) as nat,
                            (level + 1) as nat,
                        );
                        assert forall|l: int| 0 <= l < level + 1 implies merged(
                            *h,
                            ancestor(idx, l as nat),
                            hs[l],
                            path[l],
                            #[trigger] hs[l + 1],
                        ) by {
                            if l < level {
                                assert(hs[l] == shorter[l]);
                                assert(hs[l + 1] == shorter[l + 1]);
                            }
                        }
                        lemma_partial_states(*h, idx, leaf_hash, path, hs);
                        assert(refused_after(
                            *h,
                            depth,
                            before,
                            self.known(),
                            idx,
                            leaf_hash,
                            path,
                            hs,
                            (level + 1) as nat,
                            (level + 1) as nat,
                            e@,
                        ));
                    }
                    return Err(e);
                },
            }
            proof {
                lemma_record_one(
                    depth,
                    before,
                    held2,
                    self.known(),
                    idx,
                    hs,
                    path,
                    (level + 1) as nat,
                    (level + 1) as nat,
                    (level + 1) as nat,
                    up,
                    parent_hash,
                    (level + 2) as nat,
                    (level + 1) as nat,
                );
                if strict {
                    lemma_no_conflict_step(
                        depth,
                        before,
                        idx,
                        hs,
                        path,
                        (level + 1) as nat,
                        (level + 1) as nat,
                        (level + 1) as nat,
                        up,
                        parent_hash,
                        (level + 2) as nat,
                        (level + 1) as nat,
                    );
                }
                assert forall|l: int| 0 <= l < level + 1 implies merged(
                    *h,
                    ancestor(idx, l as nat),
                    hs[l],
                    path[l],
                    #[trigger] hs[l + 1],
                ) by {
                    if l < level {
                        assert(hs[l] == shorter[l]);
                        assert(hs[l + 1] == shorter[l + 1]);
                    }
                }
            }
            node_hash = parent_hash;
            level = level + 1;
        }
        proof {
            assert(climb_states(*h, idx, leaf_hash, path, hs));
            if strict {
                lemma_kept(
                    depth,
                    before,
                    self.known(),
                    idx,
                    hs,
                    path,
                    (level + 1) as nat,
                    level as nat,
                );
                assert(!conflicts(depth, before, idx, hs, path)) by {
                    if conflicts(depth, before, idx, hs, path) {
                        let (level, i) = choose|level: nat, i: nat| #[trigger]
                            conflict_at(depth, before, idx, hs, path, level, i);
                        assert(heap_key(depth, level, i) == heap_key(depth, level, i));
                    }
                }
            }
        }
        Ok(())
    }

    /// Records a proof, and refuses one that contradicts what is known. Nothing that
    /// is known changes; what a refused proof named before the contradiction is
    /// recorded.
    pub fn record_proof_strict<H: Fn(HashOut, HashOut) -> HashOut>(
        &mut self,
        leaf_index: u128,
        leaf_hash: HashOut,
        sibling_path: &Vec<HashOut>,
        h: &H,
    ) -> (r: Result<(), String>)
        requires
            old(self).wf(),
            total(*h),
            leaf_index < pow2(L as nat),
            sibling_path@.len() == L,
        ensures
            final(self).wf(),
            final(self).empties() == old(self).empties(),
            r is Ok ==> exists|hs: Seq<HashOut>|
                #![trigger climb_states(*h, leaf_index as nat, leaf_hash, sibling_path@, hs)]
                climb_states(*h, leaf_index as nat, leaf_hash, sibling_path@, hs) && recorded(
                    L as nat,
                    old(self).known(),
                    final(self).known(),
                    leaf_index as nat,
                    hs,
                    sibling_path@,
                    (L + 1) as nat,
                    L as nat,
                ) && !conflicts(
                    L as nat,
                    old(self).known(),
                    leaf_index as nat,
                    hs,
                    sibling_path@,
                ),
            kept(L as nat, old(self).known(), final(self).known()),
            r matches Err(e) ==> refused(
                *h,
                L as nat,
                old(self).known(),
                final(self).known(),
                leaf_index as nat,
                leaf_hash,
                sibling_path@,
                e@,
            ),
    {
        self.record_proof_inner(leaf_index, leaf_hash, sibling_path, true, h)
    }

    /// Records a proof over what is known.
    pub fn record_proof<H: Fn(HashOut, HashOut) -> HashOut>(
        &mut self,
        leaf_index: u128,
        leaf_hash: HashOut,
        sibling_path: &Vec<HashOut>,
        h: &H,
    )
        requires
            old(self).wf(),
            total(*h),
            leaf_index < pow2(L as nat),
            sibling_path@.len() == L,
        ensures
            final(self).wf(),
            final(self).empties() == old(self).empties(),
            exists|hs: Seq<HashOut>|
                #![trigger climb_states(*h, leaf_index as nat, leaf_hash, sibling_path@, hs)]
                climb_states(*h, leaf_index as nat, leaf_hash, sibling_path@, hs) && recorded(
                    L as nat,
                    old(self).known(),
                    final(self).known(),
                    leaf_index as nat,
                    hs,
                    sibling_path@,
                    (L + 1) as nat,
                    L as nat,
                ),
    {
        let _ = self.record_proof_inner(leaf_index, leaf_hash, sibling_path, false, h);
    }

    /// The siblings on the way from the leaf at `idx` to the root, as far as they
    /// are known; an unseen one counts as empty.
    pub open spec fn siblings(&self, idx: nat) -> Seq<HashOut> {
        Seq::new(L as nat, |m: int| self.node(m as nat, sibling(ancestor(idx, m as nat))))
    }

    /// The path of the leaf at `target_index`, from the leaf up.
    pub fn path(&self, target_index: u128) -> (r: Vec<HashOut>)
        requires
            self.wf(),
            target_index < pow2(L as nat),
        ensures
            r@ == self.siblings(target_index as nat),
    {
        let ghost idx = target_index as nat;
        let ghost depth = L as nat;
        proof {
            lemma_heap_key_fits(depth, 0, idx);
        }
        let mut key: u128 = power_of_two(L) + target_index;
        let mut r: Vec<HashOut> = Vec::new();
        let mut level: usize = 0;
        while level < L
            invariant
                self.wf(),
                depth == L as nat,
                idx < pow2(depth),
                level <= L,
                in_tree(depth, level as nat, ancestor(idx, level as nat)),
                key == heap_key(depth, level as nat, ancestor(idx, level as nat)),
                r@.len() == level,
                forall|m: int|
                    0 <= m < level ==> #[trigger] r@[m] == self.node(
                        m as nat,
                        sibling(ancestor(idx, m as nat)),
                    ),
            decreases L - level,
        {
            let ghost at = ancestor(idx, level as nat);
            proof {
                lemma_levels(depth, level as nat);
                lemma_sibling_in_tree(depth, level as nat, at);
                lemma_heap_key_fits(depth, level as nat, at);
                lemma_heap_key_fits(depth, level as nat, sibling(at));
            }
            let sibling_key: u128 = if key % 2 == 1 {
                key - 1
            } else {
                key + 1
            };
            assert(sibling_key == heap_key(depth, level as nat, sibling(at)));
            let seen: HashOut = match self.nodes.get(&sibling_key) {
                Some(x) => *x,
                None => self.empty_hashes[level],
            };
            r.push(seen);
            key = key / 2;
            level = level + 1;
        }
        assert(r@ =~= self.siblings(idx));
        r
    }

    /// The root, if some proof reached it; else the empty tree's.
    pub fn harvested_root(&self) -> (r: HashOut)
        requires
            self.wf(),
        ensures
            r == self.node(L as nat, 0),
    {
        proof {
            lemma2_to64();
        }
        match self.nodes.get(&1u128) {
            Some(x) => *x,
            None => self.empty_hashes[L],
        }
    }

    /// The root that a leaf leads to along a path.
    pub fn fold<H: Fn(HashOut, HashOut) -> HashOut>(
        target_index: u128,
        leaf_hash: HashOut,
        path: &Vec<HashOut>,
        h: &H,
    ) -> (r: HashOut)
        requires
            total(*h),
        ensures
            climbs(*h, target_index as nat, leaf_hash, path@, r),
    {
        fold_path(target_index, leaf_hash, path, h)
    }
}

/// Whether everything that is known is true of `tree`.
pub open spec fn agrees<const L: usize>(known: Map<u128, HashOut>, tree: AccountFamilyTree<L>) -> bool {
    forall|level: nat, i: nat|
        #![trigger heap_key(L as nat, level, i)]
        in_tree(L as nat, level, i) && known.contains_key(heap_key(L as nat, level, i) as u128)
            ==> known[heap_key(L as nat, level, i) as u128] == tree.node(level, i)
}

proof fn lemma_states_are_nodes<const L: usize, H: Fn(HashOut, HashOut) -> HashOut>(
    tree: AccountFamilyTree<L>,
    h: H,
    idx: nat,
    hs: Seq<HashOut>,
    level: nat,
)
    requires
        tree.wf(),
        tree.coherent(h),
        functional(h),
        idx < pow2(L as nat),
        climb_states(h, idx, tree.leaf(idx), tree.siblings(idx), hs),
        level <= L,
    ensures
        hs[level as int] == tree.node(level, ancestor(idx, level)),
    decreases level,
{
    if level > 0 {
        let m = (level - 1) as nat;
        lemma_states_are_nodes(tree, h, idx, hs, m);
        lemma_ancestor_in_tree(L as nat, idx, m);
        lemma_ancestor_in_tree(L as nat, idx, level);
        let at = ancestor(idx, m);
        let up = ancestor(idx, level);
        assert(merged(h, at, hs[m as int], tree.siblings(idx)[m as int], hs[m as int + 1]));
        assert(compresses(h, tree.node(m, 2 * up), tree.node(m, 2 * up + 1), tree.node(m + 1, up)));
        if at % 2 == 0 {
            assert(at == 2 * up);
        } else {
            assert(at == 2 * up + 1);
        }
    }
}

/// Proofs against one and the same tree never contradict each other, and
/// recording them keeps what is known true of the tree.
pub proof fn coherent_proofs_never_conflict<const L: usize, H: Fn(HashOut, HashOut) -> HashOut>(
    tree: AccountFamilyTree<L>,
    h: H,
    idx: nat,
    known: Map<u128, HashOut>,
    after: Map<u128, HashOut>,
    hs: Seq<HashOut>,
)
    requires
        tree.wf(),
        tree.coherent(h),
        functional(h),
        idx < pow2(L as nat),
        agrees(known, tree),
        climb_states(h, idx, tree.leaf(idx), tree.siblings(idx), hs),
        recorded(
            L as nat,
            known,
            after,
            idx,
            hs,
            tree.siblings(idx),
            (L + 1) as nat,
            L as nat,
        ),
    ensures
        !conflicts(L as nat, known, idx, hs, tree.siblings(idx)),
        agrees(after, tree),
        after.contains_key(1),
        after[1] == tree.node(L as nat, 0),
{
    let depth = L as nat;
    let path = tree.siblings(idx);
    assert forall|level: nat, i: nat| in_tree(depth, level, i) implies match (#[trigger] proof_says(
        idx,
        hs,
        path,
        depth + 1,
        depth,
        level,
        i,
    )) {
        Some(v) => v == tree.node(level, i),
        None => true,
    } by {
        if i == ancestor(idx, level) {
            lemma_states_are_nodes(tree, h, idx, hs, level);
        }
    }
    if conflicts(depth, known, idx, hs, path) {
        let (level, i) = choose|level: nat, i: nat| #[trigger]
            conflict_at(depth, known, idx, hs, path, level, i);
        assert(known[heap_key(depth, level, i) as u128] == tree.node(level, i));
    }
    assert forall|level: nat, i: nat|
        #![trigger heap_key(depth, level, i)]
        in_tree(depth, level, i) && after.contains_key(heap_key(depth, level, i) as u128) implies after[heap_key(
        depth,
        level,
        i,
    ) as u128] == tree.node(level, i) by {
        assert(proof_says(idx, hs, path, depth + 1, depth, level, i) is Some || proof_says(
            idx,
            hs,
            path,
            depth + 1,
            depth,
            level,
            i,
        ) is None);
    }
    lemma_ancestor_in_tree(depth, idx, depth);
    lemma2_to64();
    assert(ancestor(idx, depth) == 0);
    assert(heap_key(depth, depth, 0) == 1);
    assert(proof_says(idx, hs, path, depth + 1, depth, depth, 0) is Some);
}

/// The harvested path of a leaf is its path in the tree, where every sibling was
/// seen or is empty. It then leads from the leaf to the root.
pub proof fn harvested_path_is_the_tree_path<const L: usize, H: Fn(HashOut, HashOut) -> HashOut>(
    tree: AccountFamilyTree<L>,
    harvest: PathHarvester<L>,
    h: H,
    target: nat,
    out: HashOut,
)
    requires
        tree.wf(),
        tree.coherent(h),
        functional(h),
        target < pow2(L as nat),
        agrees(harvest.known(), tree),
        harvest.empties() == tree.empties(),
        forall|level: nat|
            level < L ==> {
                let i = #[trigger] sibling(ancestor(target, level));
                harvest.known().contains_key(heap_key(L as nat, level, i) as u128) || tree.node(level, i)
                    == tree.empties()[level as int]
            },
        climbs(h, target, tree.leaf(target), harvest.siblings(target), out),
    ensures
        harvest.siblings(target) == tree.siblings(target),
        out == tree.node(L as nat, 0),
{
    let depth = L as nat;
    assert forall|m: int| 0 <= m < L implies harvest.siblings(target)[m] == tree.siblings(target)[m] by {
        let level = m as nat;
        lemma_ancestor_in_tree(depth, target, level);
        lemma_sibling_in_tree(depth, level, ancestor(target, level));
        let i = sibling(ancestor(target, level));
        assert(in_tree(depth, level, i));
        assert(heap_key(depth, level, i) == heap_key(depth, level, i));
    }
    assert(harvest.siblings(target) =~= tree.siblings(target));
    paths_lead_to_the_root(tree, h, target, out);
}

/// Whether the leaf `j` was seen: it and every node above it are known.
pub open spec fn seen(depth: nat, known: Map<u128, HashOut>, j: nat) -> bool {
    forall|level: nat|
        level <= depth ==> known.contains_key(
            heap_key(depth, level, #[trigger] ancestor(j, level)) as u128,
        )
}

/// Recording the proof of a leaf shows the leaf, and hides none that was seen.
pub proof fn recorded_leaves_are_seen(
    depth: nat,
    before: Map<u128, HashOut>,
    after: Map<u128, HashOut>,
    idx: nat,
    hs: Seq<HashOut>,
    path: Seq<HashOut>,
    j: nat,
)
    requires
        idx < pow2(depth),
        j < pow2(depth),
        recorded(depth, before, after, idx, hs, path, depth + 1, depth),
    ensures
        seen(depth, after, idx),
        seen(depth, before, j) ==> seen(depth, after, j),
{
    assert forall|level: nat| level <= depth implies after.contains_key(
        heap_key(depth, level, #[trigger] ancestor(idx, level)) as u128,
    ) by {
        lemma_ancestor_in_tree(depth, idx, level);
        assert(proof_says(idx, hs, path, depth + 1, depth, level, ancestor(idx, level)) is Some);
    }
    if seen(depth, before, j) {
        assert forall|level: nat| level <= depth implies after.contains_key(
            heap_key(depth, level, #[trigger] ancestor(j, level)) as u128,
        ) by {
            lemma_ancestor_in_tree(depth, j, level);
            assert(before.contains_key(heap_key(depth, level, ancestor(j, level)) as u128));
        }
    }
}

/// The digests of empty subtrees are determined.
proof fn lemma_empty_digests_agree<H: Fn(HashOut, HashOut) -> HashOut>(
    h: H,
    a: Seq<HashOut>,
    b: Seq<HashOut>,
    i: int,
)
    requires
        functional(h),
        empty_digests(h, a),
        empty_digests(h, b),
        0 <= i < a.len(),
        i < b.len(),
    ensures
        a[i] == b[i],
    decreases i,
{
    if i > 0 {
        lemma_empty_digests_agree(h, a, b, i - 1);
        assert(compresses(h, a[i - 1], a[i - 1], a[i - 1 + 1]));
        assert(compresses(h, b[i - 1], b[i - 1], b[i - 1 + 1]));
    }
}

/// A subtree without leaves is an empty one.
proof fn lemma_empty_subtree<const L: usize, H: Fn(HashOut, HashOut) -> HashOut>(
    tree: AccountFamilyTree<L>,
    h: H,
    level: nat,
    i: nat,
)
    requires
        tree.wf(),
        tree.coherent(h),
        functional(h),
        empty_digests(h, tree.empties()),
        in_tree(L as nat, level, i),
        forall|j: nat|
            j < pow2(L as nat) && #[trigger] ancestor(j, level) == i ==> tree.leaf(j) == zero_hash(),
    ensures
        tree.node(level, i) == tree.empties()[level as int],
    decreases level,
{
    if level == 0 {
        assert(ancestor(i, 0) == i);
    } else {
        let m = (level - 1) as nat;
        lemma_children_in_tree(L as nat, m, i);
        assert forall|j: nat| j < pow2(L as nat) && #[trigger] ancestor(j, m) == 2 * i implies tree.leaf(
            j,
        ) == zero_hash() by {
            assert(ancestor(j, level) == i);
        }
        assert forall|j: nat|
            j < pow2(L as nat) && #[trigger] ancestor(j, m) == 2 * i + 1 implies tree.leaf(j)
            == zero_hash() by {
            assert(ancestor(j, level) == i);
        }
        lemma_empty_subtree(tree, h, m, 2 * i);
        lemma_empty_subtree(tree, h, m, 2 * i + 1);
        assert(compresses(h, tree.node(m, 2 * i), tree.node(m, 2 * i + 1), tree.node(m + 1, i)));
        let e = tree.empties();
        assert(compresses(h, e[m as int], e[m as int], e[m as int + 1]));
    }
}

/// It is enough to record every leaf that is not empty: the harvested path of every
/// leaf, recorded or not, is then its path in the tree, and leads from the leaf to
/// the root.
pub proof fn seeing_every_leaf_is_enough<const L: usize, H: Fn(HashOut, HashOut) -> HashOut>(
    tree: AccountFamilyTree<L>,
    harvest: PathHarvester<L>,
    h: H,
    target: nat,
    out: HashOut,
)
    requires
        tree.wf(),
        harvest.wf(),
        tree.coherent(h),
        functional(h),
        empty_digests(h, tree.empties()),
        empty_digests(h, harvest.empties()),
        target < pow2(L as nat),
        agrees(harvest.known(), tree),
        forall|j: nat|
            j < pow2(L as nat) && #[trigger] tree.leaf(j) != zero_hash() ==> seen(
                L as nat,
                harvest.known(),
                j,
            ),
        climbs(h, target, tree.leaf(target), harvest.siblings(target), out),
    ensures
        harvest.siblings(target) == tree.siblings(target),
        out == tree.node(L as nat, 0),
{
    assert forall|i: int| 0 <= i < tree.empties().len() implies harvest.empties()[i]
        == tree.empties()[i] by {
        lemma_empty_digests_agree(h, harvest.empties(), tree.empties(), i);
    }
    assert(harvest.empties() =~= tree.empties());
    assert forall|level: nat| level < L implies {
        let i = #[trigger] sibling(ancestor(target, level));
        harvest.known().contains_key(heap_key(L as nat, level, i) as u128) || tree.node(level, i)
            == tree.empties()[level as int]
    } by {
        let i = sibling(ancestor(target, level));
        lemma_ancestor_in_tree(L as nat, target, level);
        lemma_sibling_in_tree(L as nat, level, ancestor(target, level));
        if exists|j: nat|
            j < pow2(L as nat) && #[trigger] ancestor(j, level) == i && tree.leaf(j) != zero_hash() {
            let j = choose|j: nat|
                j < pow2(L as nat) && #[trigger] ancestor(j, level) == i && tree.leaf(j)
                    != zero_hash();
            assert(seen(L as nat, harvest.known(), j));
        } else {
            lemma_empty_subtree(tree, h, level, i);
        }
    }
    harvested_path_is_the_tree_path(tree, harvest, h, target, out);
}

proof fn lemma_partial_states<H: Fn(HashOut, HashOut) -> HashOut>(
    h: H,
    idx: nat,
    leaf: HashOut,
    path: Seq<HashOut>,
    hs: Seq<HashOut>,
)
    requires
        1 <= hs.len() <= path.len() + 1,
        hs[0] == leaf,
        forall|l: int|
            0 <= l < hs.len() - 1 ==> merged(
                h,
                ancestor(idx, l as nat),
                hs[l],
                path[l],
                #[trigger] hs[l + 1],
            ),
    ensures
        climb_states(h, idx, leaf, path.take(hs.len() - 1), hs),
{
}

proof fn lemma_record_one(
    depth: nat,
    before: Map<u128, HashOut>,
    held: Map<u128, HashOut>,
    after: Map<u128, HashOut>,
    idx: nat,
    hs: Seq<HashOut>,
    path: Seq<HashOut>,
    nodes: nat,
    sibs: nat,
    level: nat,
    i: nat,
    value: HashOut,
    nodes2: nat,
    sibs2: nat,
)
    requires
        depth < 128,
        in_tree(depth, level, i),
        recorded(depth, before, held, idx, hs, path, nodes, sibs),
        after == held.insert(heap_key(depth, level, i) as u128, value),
        proof_says(idx, hs, path, nodes2, sibs2, level, i) == Some(value),
        forall|m: nat, j: nat|
            in_tree(depth, m, j) && (m != level || j != i) ==> #[trigger] proof_says(
                idx,
                hs,
                path,
                nodes2,
                sibs2,
                m,
                j,
            ) == proof_says(idx, hs, path, nodes, sibs, m, j),
    ensures
        recorded(depth, before, after, idx, hs, path, nodes2, sibs2),
{
    lemma_heap_key_fits(depth, level, i);
    assert forall|m: nat, j: nat|
        #![trigger heap_key(depth, m, j)]
        in_tree(depth, m, j) implies {
        let key = heap_key(depth, m, j) as u128;
        match proof_says(idx, hs, path, nodes2, sibs2, m, j) {
            Some(v) => after.contains_key(key) && after[key] == v,
            None => after.contains_key(key) == before.contains_key(key) && after[key] == before[key],
        }
    } by {
        lemma_heap_key_fits(depth, m, j);
        if m != level || j != i {
            if heap_key(depth, m, j) == heap_key(depth, level, i) {
                lemma_heap_key_injective(depth, m, j, level, i);
            }
        }
    }
}

proof fn lemma_no_conflict_step(
    depth: nat,
    known: Map<u128, HashOut>,
    idx: nat,
    hs: Seq<HashOut>,
    path: Seq<HashOut>,
    nodes: nat,
    sibs: nat,
    level: nat,
    i: nat,
    value: HashOut,
    nodes2: nat,
    sibs2: nat,
)
    requires
        no_conflict_below(depth, known, idx, hs, path, nodes, sibs),
        known.contains_key(heap_key(depth, level, i) as u128) ==> known[heap_key(
            depth,
            level,
            i,
        ) as u128] == value,
        proof_says(idx, hs, path, nodes2, sibs2, level, i) == Some(value),
        forall|m: nat, j: nat|
            in_tree(depth, m, j) && (m != level || j != i) ==> #[trigger] proof_says(
                idx,
                hs,
                path,
                nodes2,
                sibs2,
                m,
                j,
            ) == proof_says(idx, hs, path, nodes, sibs, m, j),
    ensures
        no_conflict_below(depth, known, idx, hs, path, nodes2, sibs2),
{
}

proof fn lemma_record_longer(
    depth: nat,
    before: Map<u128, HashOut>,
    after: Map<u128, HashOut>,
    idx: nat,
    shorter: Seq<HashOut>,
    longer: Seq<HashOut>,
    path: Seq<HashOut>,
    n: nat,
)
    requires
        recorded(depth, before, after, idx, shorter, path, n, n),
        n <= shorter.len() <= longer.len(),
        forall|l: int| 0 <= l < n ==> shorter[l] == longer[l],
    ensures
        recorded(depth, before, after, idx, longer, path, n, n),
{
    assert forall|level: nat, i: nat|
        #![trigger heap_key(depth, level, i)]
        in_tree(depth, level, i) implies {
        let key = heap_key(depth, level, i) as u128;
        match proof_says(idx, longer, path, n, n, level, i) {
            Some(v) => after.contains_key(key) && after[key] == v,
            None => after.contains_key(key) == before.contains_key(key) && after[key] == before[key],
        }
    } by {
        assert(proof_says(idx, longer, path, n, n, level, i) == proof_says(
            idx,
            shorter,
            path,
            n,
            n,
            level,
            i,
        ));
    }
}

proof fn lemma_no_conflict_longer(
    depth: nat,
    known: Map<u128, HashOut>,
    idx: nat,
    shorter: Seq<HashOut>,
    longer: Seq<HashOut>,
    path: Seq<HashOut>,
    n: nat,
)
    requires
        no_conflict_below(depth, known, idx, shorter, path, n, n),
        n <= shorter.len() <= longer.len(),
        forall|l: int| 0 <= l < n ==> shorter[l] == longer[l],
    ensures
        no_conflict_below(depth, known, idx, longer, path, n, n),
{
    assert forall|level: nat, i: nat|
        #![trigger heap_key(depth, level, i)]
        in_tree(depth, level, i) implies match proof_says(idx, longer, path, n, n, level, i) {
        Some(v) => known.contains_key(heap_key(depth, level, i) as u128) ==> known[heap_key(
            depth,
            level,
            i,
        ) as u128] == v,
        None => true,
    } by {
        assert(proof_says(idx, longer, path, n, n, level, i) == proof_says(
            idx,
            shorter,
            path,
            n,
            n,
            level,
            i,
        ));
    }
}

/// Every node above the leaves compresses its left child and its right child, in this
/// order.
pub proof fn parents_compress_left_then_right<const L: usize, H: Fn(HashOut, HashOut) -> HashOut>(
    tree: AccountFamilyTree<L>,
    h: H,
    level: nat,
    idx: nat,
)
    requires
        tree.coherent(h),
        level < L,
        in_tree(L as nat, level + 1, idx),
    ensures
        compresses(
            h,
            tree.node(level, 2 * idx),
            tree.node(level, 2 * idx + 1),
            tree.node(level + 1, idx),
        ),
{
}

/// Climbing from a leaf compresses it with its sibling: on the left of it where the
/// leaf's index is even, on the right where it is odd.
pub proof fn a_leaf_keeps_its_side<H: Fn(HashOut, HashOut) -> HashOut>(
    h: H,
    idx: nat,
    leaf: HashOut,
    other: HashOut,
    out: HashOut,
)
    ensures
        idx % 2 == 0 ==> (climbs(h, idx, leaf, seq![other], out) <==> compresses(
            h,
            leaf,
            other,
            out,
        )),
        idx % 2 == 1 ==> (climbs(h, idx, leaf, seq![other], out) <==> compresses(
            h,
            other,
            leaf,
            out,
        )),
{
    reveal_with_fuel(climbs, 2);
    let one = seq![other];
    assert(one.drop_last() =~= Seq::<HashOut>::empty());
    assert(one.last() == other);
    assert(ancestor(idx, 0) == idx);
    if merged(h, idx, leaf, other, out) {
        assert(climbs(h, idx, leaf, one.drop_last(), leaf));
        assert(merged(h, ancestor(idx, (one.len() - 1) as nat), leaf, one.last(), out));
    }
}

proof fn lemma_states_agree<H: Fn(HashOut, HashOut) -> HashOut>(
    h: H,
    idx: nat,
    leaf: HashOut,
    path: Seq<HashOut>,
    few: Seq<HashOut>,
    hs: Seq<HashOut>,
    l: int,
)
    requires
        functional(h),
        climb_states(h, idx, leaf, path, hs),
        1 <= few.len() <= hs.len(),
        climb_states(h, idx, leaf, path.take(few.len() - 1), few),
        0 <= l < few.len(),
    ensures
        few[l] == hs[l],
    decreases l,
{
    if l > 0 {
        lemma_states_agree(h, idx, leaf, path, few, hs, l - 1);
        let part = path.take(few.len() - 1);
        assert(part[l - 1] == path[l - 1]);
        assert(merged(h, ancestor(idx, (l - 1) as nat), few[l - 1], part[l - 1], few[l - 1 + 1]));
        assert(merged(h, ancestor(idx, (l - 1) as nat), hs[l - 1], path[l - 1], hs[l - 1 + 1]));
    }
}

/// A proof is refused only where it contradicts what was known.
pub proof fn refused_proofs_conflict<H: Fn(HashOut, HashOut) -> HashOut>(
    h: H,
    depth: nat,
    before: Map<u128, HashOut>,
    after: Map<u128, HashOut>,
    idx: nat,
    leaf: HashOut,
    path: Seq<HashOut>,
    text: Seq<char>,
    hs: Seq<HashOut>,
)
    requires
        functional(h),
        idx < pow2(depth),
        path.len() == depth,
        refused(h, depth, before, after, idx, leaf, path, text),
        climb_states(h, idx, leaf, path, hs),
    ensures
        conflicts(depth, before, idx, hs, path),
{
    let (few, nodes, sibs) = choose|few: Seq<HashOut>, nodes: nat, sibs: nat| #[trigger]
        refused_after(h, depth, before, after, idx, leaf, path, few, nodes, sibs, text);
    let (level, i, said) = named_next(idx, few, path, nodes, sibs);
    lemma_ancestor_in_tree(depth, idx, level);
    if nodes == sibs {
        lemma_states_agree(h, idx, leaf, path, few, hs, nodes as int);
    } else {
        lemma_sibling_in_tree(depth, level, ancestor(idx, level));
    }
    assert(conflict_at(depth, before, idx, hs, path, level, i));
}

/// What was seen stays seen, and as it was, whatever comes of a proof.
pub proof fn seen_leaves_stay_seen(
    depth: nat,
    before: Map<u128, HashOut>,
    after: Map<u128, HashOut>,
    j: nat,
)
    requires
        kept(depth, before, after),
        j < pow2(depth),
        seen(depth, before, j),
    ensures
        seen(depth, after, j),
        after[heap_key(depth, 0, j) as u128] == before[heap_key(depth, 0, j) as u128],
{
    assert forall|level: nat| level <= depth implies after.contains_key(
        heap_key(depth, level, #[trigger] ancestor(j, level)) as u128,
    ) && after[heap_key(depth, level, ancestor(j, level)) as u128] == before[heap_key(
        depth,
        level,
        ancestor(j, level),
    ) as u128] by {
        lemma_ancestor_in_tree(depth, j, level);
    }
    assert(ancestor(j, 0) == j);
}

} // verus!
