//! Which proofs a fold reads, which circuit it runs, and how it is padded.

use crate::prover_node::geometry::{
    child_count, ceil_div, every_child_has_one_parent, every_node_has_a_child, is_depth,
    levels_fold_by_radix, node_count, nodes_at_level, real_children_for_node, tree_depth,
};
use crate::prover_node::plan::HEX_RADIX;
use crate::text::{dec, push_dec};
use vstd::arithmetic::power::{lemma_pow_positive, pow};
use vstd::arithmetic::power2::*;
use vstd::prelude::*;
use vstd::string::*;

verus! {

/// A proof that a fold reads from the store.
#[derive(Clone, Copy, Debug, PartialEq, Eq, Structural)]
pub enum ChildProof {
    Leaf { idx: usize },
    Node { level: usize, node_idx: usize },
    Interval { lo: usize, hi: usize },
}

/// The circuit shapes that a process keeps once built.
#[derive(Clone, Copy, Debug, PartialEq, Eq, Structural)]
pub enum CircuitKey {
    PreExec,
    BlockTx { tx_per_proof: usize },
    BatchLeaf,
    /// The node circuit of the wide tree at `level`.
    Node { level: usize },
    /// The node circuit of the same-height binary tree at `level`.
    ReductionNode { level: usize },
    /// The one-level binary circuit over leaves.
    BinaryNode,
}

/// What fills the unused slots of a fold.
#[derive(Clone, Copy, Debug, PartialEq, Eq, Structural)]
pub enum Padding {
    /// Nothing has to be filled.
    NotNeeded,
    /// A dummy proof: the children are not recursive.
    Dummy,
    /// A base proof of the node circuit at `level`.
    Base { level: usize },
}

/// How a tree node is folded.
#[derive(Debug, PartialEq, Eq)]
pub struct NodePlan {
    pub circuit: CircuitKey,
    pub children: Vec<ChildProof>,
    pub padding: Padding,
}

/// The child with number `idx` of a node at `level`.
pub open spec fn child_at(level: usize, idx: usize) -> ChildProof {
    if level == 1 {
        ChildProof::Leaf { idx }
    } else {
        ChildProof::Node { level: (level - 1) as usize, node_idx: idx }
    }
}

/// Why a node cannot be folded, if it cannot.
pub open spec fn node_fault(
    level: usize,
    node_idx: usize,
    radix: usize,
    leaf_count: usize,
    depth: nat,
) -> Option<Seq<char>> {
    let shape = " for N="@ + dec(leaf_count as nat) + ", radix="@ + dec(radix as nat);
    if level < 1 {
        Some("tree levels are 1-indexed"@)
    } else if radix < 2 {
        Some("radix must be >= 2"@)
    } else if radix > HEX_RADIX {
        Some(
            "radix "@ + dec(radix as nat)
                + " exceeds the reduction-tree node fan-in 16; a wider circuit would be required"@,
        )
    } else if level > depth && level > 1 {
        Some(
            "TreeNode level "@ + dec(level as nat) + " exceeds tree depth "@ + dec(depth) + shape
                + "; refusing to fold a non-existent level"@,
        )
    } else if node_idx >= node_count(leaf_count as int, radix as int, level as nat) {
        Some(
            "TreeNode level "@ + dec(level as nat) + " node "@ + dec(node_idx as nat)
                + " out of range: only "@ + dec(
                node_count(leaf_count as int, radix as int, level as nat) as nat,
            ) + " node(s) exist at this level"@ + shape,
        )
    } else if leaf_count == 0 && radix > 2 {
        Some(
            "TreeNode level "@ + dec(level as nat) + " node "@ + dec(node_idx as nat)
                + ": no child proofs found in transport"@,
        )
    } else {
        None
    }
}

fn push_shape(e: &mut String, leaf_count: usize, radix: usize)
    ensures
        final(e)@ == old(e)@ + (" for N="@ + dec(leaf_count as nat) + ", radix="@ + dec(
            radix as nat,
        )),
{
    let mut s = String::from_str(" for N=");
    push_dec(&mut s, leaf_count as u64);
    s.append(", radix=");
    push_dec(&mut s, radix as u64);
    e.append(s.as_str());
}

/// Checks that a node can be folded, and says why not.
pub fn check_node(level: usize, node_idx: usize, radix: usize, leaf_count: usize) -> (r: Result<
    (),
    String,
>)
    ensures
        exists|depth: nat|
            (radix >= 2 ==> is_depth(leaf_count as int, radix as int, depth)) && match (
            #[trigger] node_fault(level, node_idx, radix, leaf_count, depth)) {
                Some(text) => r is Err && r->Err_0@ == text,
                None => r is Ok,
            },
{
    if level < 1 {
        proof {
            let depth: nat = if radix >= 2 {
                choose|depth: nat| is_depth(leaf_count as int, radix as int, depth)
            } else {
                0
            };
            if radix >= 2 {
                lemma_has_depth(leaf_count, radix);
            }
            assert(node_fault(level, node_idx, radix, leaf_count, depth) is Some);
        }
        return Err(String::from_str("tree levels are 1-indexed"));
    }
    if radix < 2 {
        assert(node_fault(level, node_idx, radix, leaf_count, 0) is Some);
        return Err(String::from_str("radix must be >= 2"));
    }
    let depth: usize = tree_depth(leaf_count, radix);
    assert(is_depth(leaf_count as int, radix as int, depth as nat));
    let ghost fault = node_fault(level, node_idx, radix, leaf_count, depth as nat);
    if radix > HEX_RADIX {
        let mut e = String::from_str("radix ");
        push_dec(&mut e, radix as u64);
        e.append(" exceeds the reduction-tree node fan-in 16; a wider circuit would be required");
        assert(fault == Some(e@));
        return Err(e);
    }
    if level > depth && level > 1 {
        let mut e = String::from_str("TreeNode level ");
        push_dec(&mut e, level as u64);
        e.append(" exceeds tree depth ");
        push_dec(&mut e, depth as u64);
        push_shape(&mut e, leaf_count, radix);
        e.append("; refusing to fold a non-existent level");
        assert(fault == Some(e@));
        return Err(e);
    }
    let nodes: usize = nodes_at_level(leaf_count, radix, level);
    if node_idx >= nodes {
        let mut e = String::from_str("TreeNode level ");
        push_dec(&mut e, level as u64);
        e.append(" node ");
        push_dec(&mut e, node_idx as u64);
        e.append(" out of range: only ");
        push_dec(&mut e, nodes as u64);
        e.append(" node(s) exist at this level");
        push_shape(&mut e, leaf_count, radix);
        assert(fault == Some(e@));
        return Err(e);
    }
    if leaf_count == 0 && radix > 2 {
        let mut e = String::from_str("TreeNode level ");
        push_dec(&mut e, level as u64);
        e.append(" node ");
        push_dec(&mut e, node_idx as u64);
        e.append(": no child proofs found in transport");
        assert(fault == Some(e@));
        return Err(e);
    }
    assert(fault is None);
    Ok(())
}

proof fn lemma_has_depth(n: usize, radix: usize)
    requires
        radix >= 2,
    ensures
        exists|depth: nat| is_depth(n as int, radix as int, depth),
{
    lemma_depth_up_to(n as nat, radix as int);
}

proof fn lemma_depth_up_to(n: nat, radix: int)
    requires
        radix >= 2,
    ensures
        exists|depth: nat| is_depth(n as int, radix, depth),
    decreases n,
{
    reveal(vstd::arithmetic::power::pow);
    if n <= 1 {
        assert(vstd::arithmetic::power::pow(radix, 0) == 1);
        assert(is_depth(n as int, radix, 0));
    } else {
        let fewer = n - 1;
        lemma_depth_up_to(fewer as nat, radix);
        let d = choose|depth: nat| is_depth(fewer, radix, depth);
        if n <= vstd::arithmetic::power::pow(radix, d) {
            assert(is_depth(n as int, radix, d));
        } else {
            let p = vstd::arithmetic::power::pow(radix, d);
            assert(vstd::arithmetic::power::pow(radix, d + 1) == radix * p);
            assert(radix * p >= n) by (nonlinear_arith)
                requires
                    radix >= 2,
                    p == n - 1,
                    n >= 2,
            ;
            assert(is_depth(n as int, radix, d + 1));
        }
    }
}

/// Whether a node is folded with the one-level binary circuit.
pub open spec fn is_binary_fold(level: nat, radix: nat, depth: nat) -> bool {
    radix == 2 && level == 1 && depth <= 1
}

/// Whether `plan` says how node `node_idx` at `level` is folded: which circuit, which
/// children from the store, and which padding.
pub open spec fn node_planned(
    level: usize,
    node_idx: int,
    radix: int,
    leaf_count: int,
    depth: nat,
    plan: NodePlan,
) -> bool {
    if is_binary_fold(level as nat, radix as nat, depth) {
        &&& plan.circuit == CircuitKey::BinaryNode
        &&& plan.padding == Padding::NotNeeded
        &&& plan.children@ == seq![
            ChildProof::Leaf { idx: (2 * node_idx) as usize },
            ChildProof::Leaf { idx: (2 * node_idx + 1) as usize },
        ]
    } else {
        &&& plan.circuit == CircuitKey::Node { level }
        &&& plan.padding == if level == 1 {
            Padding::Dummy
        } else {
            Padding::Base { level: (level - 1) as usize }
        }
        &&& plan.children@ == Seq::new(
            child_count(leaf_count, radix, level as nat, node_idx) as nat,
            |c: int| child_at(level, (node_idx * radix + c) as usize),
        )
        &&& plan.children@.len() >= 1
    }
}

/// How node `node_idx` at `level` is folded: which circuit, which children from
/// the store, and which padding.
pub fn aggregate_node(level: usize, node_idx: usize, radix: usize, leaf_count: usize) -> (r: NodePlan)
    requires
        leaf_count >= 1 || radix == 2,
        level >= 1,
        2 <= radix <= HEX_RADIX,
        node_idx < node_count(leaf_count as int, radix as int, level as nat),
        forall|depth: nat|
            is_depth(leaf_count as int, radix as int, depth) ==> level <= depth || level == 1,
    ensures
        exists|depth: nat|
            #![trigger is_depth(leaf_count as int, radix as int, depth)]
            is_depth(leaf_count as int, radix as int, depth) && node_planned(
                level,
                node_idx as int,
                radix as int,
                leaf_count as int,
                depth,
                r,
            ),
{
    let depth: usize = tree_depth(leaf_count, radix);
    assert(is_depth(leaf_count as int, radix as int, depth as nat));
    proof {
        if leaf_count == 0 {
            // Only the level over no leaves is there, with its one node.
            assert(depth == 0) by {
                if depth > 0 {
                    vstd::arithmetic::power::lemma_pow_positive(2, (depth - 1) as nat);
                }
            }
            assert(level == 1);
            assert(vstd::arithmetic::power::pow(2, 1) == 2) by {
                vstd::arithmetic::power::lemma_pow1(2);
            }
            assert(node_idx == 0);
        } else {
            crate::prover_node::geometry::every_node_has_a_child(
                leaf_count as int,
                radix as int,
                level as nat,
                node_idx as int,
            );
            lemma_first_child_exists(leaf_count, radix, level, node_idx);
        }
    }
    if radix == 2 && level == 1 && depth <= 1 {
        proof {
            // One node over at most two leaves.
            if leaf_count > 0 {
                crate::prover_node::geometry::levels_fold_by_radix(leaf_count as int, 2, 0);
            }
            assert(vstd::arithmetic::power::pow(2, 1) == 2 && vstd::arithmetic::power::pow(2, 0) == 1)
                by {
                reveal(vstd::arithmetic::power::pow);
                assert(vstd::arithmetic::power::pow(2, 1) == 2 * vstd::arithmetic::power::pow(2, 0));
            }
        }
        let mut children: Vec<ChildProof> = Vec::new();
        children.push(ChildProof::Leaf { idx: 2 * node_idx });
        children.push(ChildProof::Leaf { idx: 2 * node_idx + 1 });
        assert(children@ =~= seq![
            ChildProof::Leaf { idx: (2 * node_idx) as usize },
            ChildProof::Leaf { idx: (2 * node_idx + 1) as usize },
        ]);
        return NodePlan { circuit: CircuitKey::BinaryNode, children, padding: Padding::NotNeeded };
    }
    let children: Vec<ChildProof> = read_children_for_node(level, node_idx, radix, leaf_count);
    let padding: Padding = if level == 1 {
        Padding::Dummy
    } else {
        Padding::Base { level: level - 1 }
    };
    NodePlan { circuit: CircuitKey::Node { level }, children, padding }
}

proof fn lemma_first_child_exists(leaf_count: usize, radix: usize, level: usize, node_idx: usize)
    requires
        leaf_count >= 1,
        level >= 1,
        radix >= 2,
        1 <= child_count(leaf_count as int, radix as int, level as nat, node_idx as int),
    ensures
        node_idx * radix < node_count(leaf_count as int, radix as int, (level - 1) as nat)
            <= leaf_count,
{
    lemma_no_more_nodes_than_leaves(leaf_count as int, radix as int, (level - 1) as nat);
}

proof fn lemma_no_more_nodes_than_leaves(n: int, radix: int, level: nat)
    requires
        n >= 1,
        radix >= 2,
    ensures
        1 <= node_count(n, radix, level) <= n,
    decreases level,
{
    if level > 0 {
        lemma_no_more_nodes_than_leaves(n, radix, (level - 1) as nat);
        levels_fold_by_radix(n, radix, (level - 1) as nat);
        let below = node_count(n, radix, (level - 1) as nat);
        assert(ceil_div(below, radix) <= below) by {
            vstd::arithmetic::div_mod::lemma_fundamental_div_mod(below + radix - 1, radix);
            vstd::arithmetic::div_mod::lemma_mod_bound(below + radix - 1, radix);
            let q = (below + radix - 1) / radix;
            assert(q <= below) by (nonlinear_arith)
                requires
                    radix * q <= below + radix - 1,
                    radix >= 2,
                    below >= 1,
            ;
        }
    }
}

/// The proofs of the children that node `node_idx` at `level` really has.
pub fn read_children_for_node(
    level: usize,
    node_idx: usize,
    radix: usize,
    leaf_count: usize,
) -> (r: Vec<ChildProof>)
    requires
        level >= 1,
        radix >= 2,
        node_idx * radix < node_count(leaf_count as int, radix as int, (level - 1) as nat)
            <= usize::MAX,
    ensures
        r@ == Seq::new(
            child_count(leaf_count as int, radix as int, level as nat, node_idx as int) as nat,
            |c: int| child_at(level, (node_idx * radix + c) as usize),
        ),
{
    let present: usize = real_children_for_node(leaf_count, radix, level, node_idx);
    let first: usize = node_idx * radix;
    let mut r: Vec<ChildProof> = Vec::new();
    let mut c: usize = 0;
    while c < present
        invariant
            c <= present,
            level >= 1,
            first == node_idx * radix,
            first + present <= usize::MAX,
            r@.len() == c,
            forall|i: int|
                0 <= i < c ==> #[trigger] r@[i] == child_at(level, (node_idx * radix + i) as usize),
        decreases present - c,
    {
        let idx: usize = first + c;
        if level == 1 {
            r.push(ChildProof::Leaf { idx });
        } else {
            r.push(ChildProof::Node { level: level - 1, node_idx: idx });
        }
        c = c + 1;
    }
    assert(r@ =~= Seq::new(
        child_count(leaf_count as int, radix as int, level as nat, node_idx as int) as nat,
        |c: int| child_at(level, (node_idx * radix + c) as usize),
    ));
    r
}

/// The circuit that a root proof at `root_level` is verified against.
pub fn root_circuit(root_level: usize, radix: usize) -> (r: CircuitKey)
    ensures
        r == if radix == 2 && root_level == 1 {
            CircuitKey::BinaryNode
        } else {
            CircuitKey::Node { level: root_level }
        },
{
    if radix == 2 && root_level == 1 {
        CircuitKey::BinaryNode
    } else {
        CircuitKey::Node { level: root_level }
    }
}

/// How a same-height pair is folded.
#[derive(Clone, Copy, Debug, PartialEq, Eq, Structural)]
pub struct PairPlan {
    pub level: usize,
    pub left: ChildProof,
    /// The right child, or none where it would cover padding only.
    pub right: Option<ChildProof>,
}

/// Whether a reduction fold did work or passed its left child on.
#[derive(Clone, Copy, Debug, PartialEq, Eq, Structural)]
pub enum FoldKind {
    Real,
    PaddingNoop,
    NotApplicable,
}

/// Whether `lo..=hi` is an interval that a fold at `level` can cover.
pub open spec fn foldable(level: usize, lo: usize, hi: usize) -> bool {
    &&& level >= 1
    &&& lo <= hi
    &&& hi - lo + 1 == pow2(level as nat)
}

/// The last leaf of the left half of `lo..=hi`.
pub open spec fn middle(lo: int, hi: int) -> int {
    lo + (hi - lo + 1) / 2 - 1
}

/// The proof of the interval `lo..=hi` at `level`: at level 0 a leaf.
pub open spec fn interval_proof(level: int, lo: int, hi: int) -> ChildProof {
    if level == 0 {
        ChildProof::Leaf { idx: lo as usize }
    } else {
        ChildProof::Interval { lo: lo as usize, hi: hi as usize }
    }
}

/// How the pair that covers `lo..=hi` is folded: its two halves, of which the
/// right one is left out where it lies past the last leaf.
pub open spec fn pair_plan(level: usize, lo: int, hi: int, leaf_count: int) -> PairPlan {
    PairPlan {
        level,
        left: interval_proof(level - 1, lo, middle(lo, hi)),
        right: if middle(lo, hi) + 1 >= leaf_count {
            None::<ChildProof>
        } else {
            Some(interval_proof(level - 1, middle(lo, hi) + 1, hi))
        },
    }
}

/// How the pair that covers `lo..=hi` is folded: its two halves, of which the
/// right one is left out where it lies past the last leaf.
pub fn aggregate_pair(level: usize, lo: usize, hi: usize, leaf_count: usize) -> (r: PairPlan)
    requires
        foldable(level, lo, hi),
        hi - lo + 1 <= usize::MAX,
    ensures
        r == pair_plan(level, lo as int, hi as int, leaf_count as int),
{
    proof {
        lemma_pow2_unfold(level as nat);
        lemma_pow2_pos((level - 1) as nat);
        lemma2_to64();
    }
    let span: usize = hi - lo + 1;
    let mid: usize = lo + (span / 2 - 1);
    let left: ChildProof = if level == 1 {
        ChildProof::Leaf { idx: lo }
    } else {
        ChildProof::Interval { lo, hi: mid }
    };
    let right_lo: usize = mid + 1;
    let right: Option<ChildProof> = if right_lo >= leaf_count {
        None
    } else if level == 1 {
        Some(ChildProof::Leaf { idx: hi })
    } else {
        Some(ChildProof::Interval { lo: right_lo, hi })
    };
    PairPlan { level, left, right }
}

/// Whether the span of `lo..=hi` is a fold of `level`, for callers that have to
/// refuse anything else.
pub fn check_pair(level: usize, lo: usize, hi: usize) -> (r: bool)
    ensures
        r == (foldable(level, lo, hi) && hi - lo + 1 <= usize::MAX),
{
    if level < 1 || hi < lo {
        return false;
    }
    if lo == 0 && hi == usize::MAX {
        return false;
    }
    let span: usize = hi - lo + 1;
    let mut p: usize = 1;
    let mut i: usize = 0;
    proof {
        lemma2_to64();
    }
    while i < level
        invariant
            i <= level,
            1 <= p,
            lo <= hi,
            span == hi - lo + 1,
            p == pow2(i as nat),
        decreases level - i,
    {
        proof {
            lemma_pow2_unfold((i + 1) as nat);
        }
        if p > span / 2 {
            // The next power is past the span already.
            proof {
                if i + 1 < level {
                    lemma_pow2_strictly_increases((i + 1) as nat, level as nat);
                }
            }
            return false;
        }
        p = p * 2;
        i = i + 1;
    }
    p == span
}

/// The children of a same-height fold are two adjacent intervals of half its
/// span, and together they cover it.
pub proof fn pair_halves_are_equal(level: usize, lo: usize, hi: usize)
    requires
        foldable(level, lo, hi),
    ensures
        middle(lo as int, hi as int) - lo + 1 == pow2((level - 1) as nat),
        hi - middle(lo as int, hi as int) == pow2((level - 1) as nat),
        lo <= middle(lo as int, hi as int) < hi,
{
    lemma_pow2_unfold(level as nat);
    lemma_pow2_pos((level - 1) as nat);
}

/// Whether the leaf lies in the right half of `lo..=hi`.
pub open spec fn in_right_half(lo: int, hi: int, leaf: int) -> bool {
    middle(lo, hi) < leaf <= hi
}

/// The kind of the reduction fold that covers `lo..=hi`.
pub open spec fn fold_kind(lo: int, hi: int, leaf_count: int) -> FoldKind {
    if middle(lo, hi) + 1 >= leaf_count {
        FoldKind::PaddingNoop
    } else {
        FoldKind::Real
    }
}

/// The kind of a reduction fold, for the telemetry, and the span it covers.
pub fn reduction_fold_kind(lo: usize, hi: usize, leaf_count: usize) -> (r: (FoldKind, usize))
    requires
        lo <= hi,
        hi - lo + 1 <= usize::MAX,
    ensures
        r.0 == fold_kind(lo as int, hi as int, leaf_count as int),
        r.1 == hi - lo + 1,
{
    let span: usize = hi - lo + 1;
    let right_lo: usize = lo + span / 2;
    let kind: FoldKind = if right_lo >= leaf_count {
        FoldKind::PaddingNoop
    } else {
        FoldKind::Real
    };
    (kind, span)
}

/// The telemetry calls a fold a padding no-op exactly where the fold reads no
/// right child, and that is so exactly where no leaf lies in its right half.
pub proof fn fold_kind_mirrors_the_fold(level: usize, lo: usize, hi: usize, leaf_count: int)
    requires
        foldable(level, lo, hi),
    ensures
        fold_kind(lo as int, hi as int, leaf_count) == FoldKind::PaddingNoop <==> pair_plan(
            level,
            lo as int,
            hi as int,
            leaf_count,
        ).right is None,
        fold_kind(lo as int, hi as int, leaf_count) == FoldKind::Real <==> exists|leaf: int|
            #[trigger] in_right_half(lo as int, hi as int, leaf) && leaf < leaf_count,
{
    pair_halves_are_equal(level, lo, hi);
    lemma_pow2_pos((level - 1) as nat);
    let first = middle(lo as int, hi as int) + 1;
    if fold_kind(lo as int, hi as int, leaf_count) == FoldKind::Real {
        assert(in_right_half(lo as int, hi as int, first));
    }
}

/// The circuits that a worker builds before it reports itself ready.
pub fn prewarm_plan(radix: usize, tx_per_proof: usize) -> (r: Vec<CircuitKey>)
    ensures
        r@ == seq![
            CircuitKey::PreExec,
            CircuitKey::BlockTx { tx_per_proof },
            CircuitKey::BatchLeaf,
            tree_circuit(radix),
        ],
{
    let mut r: Vec<CircuitKey> = Vec::new();
    r.push(CircuitKey::PreExec);
    r.push(CircuitKey::BlockTx { tx_per_proof });
    r.push(CircuitKey::BatchLeaf);
    if radix == 2 {
        r.push(CircuitKey::BinaryNode);
    } else {
        r.push(CircuitKey::Node { level: 2 });
    }
    assert(r@ =~= seq![
        CircuitKey::PreExec,
        CircuitKey::BlockTx { tx_per_proof },
        CircuitKey::BatchLeaf,
        tree_circuit(radix),
    ]);
    r
}

/// The level whose base proof a worker mints before it reports itself ready: the
/// first, unless it folds pairs, which need no padding.
pub fn prewarm_base_level(radix: usize) -> (r: Option<usize>)
    ensures
        r == if radix == 2 {
            None::<usize>
        } else {
            Some(1usize)
        },
{
    if radix == 2 {
        None
    } else {
        Some(1)
    }
}

/// The tree circuit that a worker of this radix starts with.
pub open spec fn tree_circuit(radix: usize) -> CircuitKey {
    if radix == 2 {
        CircuitKey::BinaryNode
    } else {
        CircuitKey::Node { level: 2 }
    }
}

fn holds(built: &Vec<CircuitKey>, key: CircuitKey) -> (r: bool)
    ensures
        r == built@.contains(key),
{
    let mut i: usize = 0;
    while i < built.len()
        invariant
            i <= built@.len(),
            forall|j: int| 0 <= j < i ==> built@[j] != key,
        decreases built@.len() - i,
    {
        if built[i] == key {
            return true;
        }
        i = i + 1;
    }
    false
}

/// Whether the circuits that are built are those a worker needs.
pub fn circuit_registry_is_primed(
    built: &Vec<CircuitKey>,
    radix: usize,
    tx_per_proof: usize,
) -> (r: bool)
    ensures
        r == is_primed(built@, radix, tx_per_proof),
{
    let tree: CircuitKey = if radix == 2 {
        CircuitKey::BinaryNode
    } else {
        CircuitKey::Node { level: 2 }
    };
    holds(built, CircuitKey::PreExec) && holds(built, CircuitKey::BlockTx { tx_per_proof }) && holds(
        built,
        CircuitKey::BatchLeaf,
    ) && holds(built, tree)
}

/// Whether `built` holds every circuit that a worker needs.
pub open spec fn is_primed(built: Seq<CircuitKey>, radix: usize, tx_per_proof: usize) -> bool {
    &&& built.contains(CircuitKey::PreExec)
    &&& built.contains(CircuitKey::BlockTx { tx_per_proof })
    &&& built.contains(CircuitKey::BatchLeaf)
    &&& built.contains(tree_circuit(radix))
}

/// A worker that built its prewarm plan is primed.
pub proof fn prewarming_primes(built: Seq<CircuitKey>, radix: usize, tx_per_proof: usize)
    requires
        built == seq![
            CircuitKey::PreExec,
            CircuitKey::BlockTx { tx_per_proof },
            CircuitKey::BatchLeaf,
            tree_circuit(radix),
        ],
    ensures
        is_primed(built, radix, tx_per_proof),
{
    assert(built[0] == CircuitKey::PreExec);
    assert(built[1] == CircuitKey::BlockTx { tx_per_proof });
    assert(built[2] == CircuitKey::BatchLeaf);
    assert(built[3] == tree_circuit(radix));
}

/// The child circuit of a node circuit, and whether it is recursive itself: the
/// verifying keys chain from level to level down to the leaf.
pub fn child_circuit(key: CircuitKey) -> (r: Option<(CircuitKey, bool)>)
    requires
        key matches CircuitKey::Node { level } ==> level >= 1,
        key matches CircuitKey::ReductionNode { level } ==> level >= 1,
    ensures
        r == match key {
            CircuitKey::Node { level } => if level == 1 {
                Some((CircuitKey::BatchLeaf, false))
            } else {
                Some((CircuitKey::Node { level: (level - 1) as usize }, true))
            },
            CircuitKey::ReductionNode { level } => if level == 1 {
                Some((CircuitKey::BatchLeaf, false))
            } else {
                Some((CircuitKey::ReductionNode { level: (level - 1) as usize }, true))
            },
            CircuitKey::BinaryNode => Some((CircuitKey::BatchLeaf, false)),
            _ => None,
        },
{
    match key {
        CircuitKey::Node { level } => {
            if level == 1 {
                Some((CircuitKey::BatchLeaf, false))
            } else {
                Some((CircuitKey::Node { level: level - 1 }, true))
            }
        },
        CircuitKey::ReductionNode { level } => {
            if level == 1 {
                Some((CircuitKey::BatchLeaf, false))
            } else {
                Some((CircuitKey::ReductionNode { level: level - 1 }, true))
            }
        },
        CircuitKey::BinaryNode => Some((CircuitKey::BatchLeaf, false)),
        _ => None,
    }
}

/// A fold reads exactly the proofs of the nodes below whose parent it is.
pub proof fn fold_reads_its_own_children(
    leaf_count: int,
    radix: int,
    level: nat,
    node_idx: int,
    child: int,
)
    requires
        leaf_count >= 1,
        radix >= 2,
        level >= 1,
        node_idx >= 0,
        0 <= child < node_count(leaf_count, radix, (level - 1) as nat),
    ensures
        child / radix == node_idx <==> 0 <= child - node_idx * radix < child_count(
            leaf_count,
            radix,
            level,
            node_idx,
        ),
{
    every_child_has_one_parent(leaf_count, radix, level, child, node_idx);
}

/// The numbers from `a` up to, but without, `b`.
pub open spec fn span(a: int, b: int) -> Seq<int> {
    Seq::new(
        if a < b {
            (b - a) as nat
        } else {
            0
        },
        |i: int| a + i,
    )
}

/// The smaller of two numbers.
pub open spec fn lesser(a: int, b: int) -> int {
    if a < b {
        a
    } else {
        b
    }
}

/// The leaves that the children of a pair cover, in the order in which they are read.
pub open spec fn pair_covers(plan: PairPlan) -> Seq<int> {
    child_covers(plan.left) + match plan.right {
        Some(right) => child_covers(right),
        None => Seq::empty(),
    }
}

/// The leaves that a proof of a same-height reduction is named for: a leaf for
/// itself, and an interval for all from its first to its last.
pub open spec fn child_covers(child: ChildProof) -> Seq<int> {
    match child {
        ChildProof::Leaf { idx } => seq![idx as int],
        ChildProof::Interval { lo, hi } => span(lo as int, hi + 1),
        ChildProof::Node { .. } => Seq::empty(),
    }
}

/// The children of a pair cover its interval, each leaf once and in order. Where no
/// right child is read, they cover the left half, and no leaf lies in the other.
pub proof fn pairs_cover_their_interval(level: usize, lo: usize, hi: usize, leaf_count: int)
    requires
        foldable(level, lo, hi),
    ensures
        ({
            let plan = pair_plan(level, lo as int, hi as int, leaf_count);
            let half = (hi - lo + 1) / 2;
            &&& plan.right is Some ==> pair_covers(plan) == span(lo as int, hi + 1)
            &&& plan.right is None ==> pair_covers(plan) == span(lo as int, lo + half)
                && leaf_count <= lo + half
            &&& child_covers(plan.left) == span(lo as int, lo + half)
        }),
{
    pair_halves_are_equal(level, lo, hi);
    lemma_pow2_unfold(level as nat);
    lemma_pow2_pos((level - 1) as nat);
    lemma2_to64();
    let plan = pair_plan(level, lo as int, hi as int, leaf_count);
    let mid = middle(lo as int, hi as int);
    if level == 1 {
        assert(pow2(1) == 2 && pow2(0) == 1);
        assert(mid == lo && hi == lo + 1);
    }
    assert(child_covers(plan.left) =~= span(lo as int, mid + 1));
    match plan.right {
        Some(right) => {
            assert(child_covers(right) =~= span(mid + 1, hi + 1));
            assert(pair_covers(plan) =~= span(lo as int, hi + 1));
        },
        None => {
            assert(pair_covers(plan) =~= span(lo as int, mid + 1));
        },
    }
}

/// The leaves that enter the proof of the interval `lo..=hi` through the folds below
/// it, in order.
pub open spec fn reduced_leaves(level: nat, lo: int, hi: int, leaf_count: int) -> Seq<int>
    decreases level, 0nat,
{
    if level == 0 {
        seq![lo]
    } else {
        let plan = pair_plan(level as usize, lo, hi, leaf_count);
        let below = (level - 1) as nat;
        entering(plan.left, below, leaf_count) + match plan.right {
            Some(right) => entering(right, below, leaf_count),
            None => Seq::empty(),
        }
    }
}

/// The leaves that enter a fold through the proof `child` of the level `level`.
pub open spec fn entering(child: ChildProof, level: nat, leaf_count: int) -> Seq<int>
    decreases level, 1nat,
{
    match child {
        ChildProof::Leaf { idx } => seq![idx as int],
        ChildProof::Interval { lo, hi } => if level > 0 {
            reduced_leaves(level, lo as int, hi as int, leaf_count)
        } else {
            Seq::empty()
        },
        ChildProof::Node { .. } => Seq::empty(),
    }
}

/// Every leaf enters a reduction exactly once, and in order: the proof of an interval
/// rests on the leaves of the interval, as far as there are any.
pub proof fn reductions_take_every_leaf_once(level: usize, lo: usize, hi: usize, leaf_count: int)
    requires
        lo < leaf_count,
        level == 0 ==> lo == hi,
        level > 0 ==> foldable(level, lo, hi),
    ensures
        reduced_leaves(level as nat, lo as int, hi as int, leaf_count) == span(
            lo as int,
            lesser(hi + 1, leaf_count),
        ),
    decreases level,
{
    let all = reduced_leaves(level as nat, lo as int, hi as int, leaf_count);
    if level == 0 {
        assert(all =~= span(lo as int, lesser(hi + 1, leaf_count)));
    } else {
        pair_halves_are_equal(level, lo, hi);
        lemma_pow2_unfold(level as nat);
        lemma_pow2_pos((level - 1) as nat);
        lemma2_to64();
        let mid = middle(lo as int, hi as int);
        let below = (level - 1) as usize;
        if level == 1 {
            assert(pow2(1) == 2 && pow2(0) == 1);
        } else {
            reductions_take_every_leaf_once(below, lo, mid as usize, leaf_count);
            if mid + 1 < leaf_count {
                reductions_take_every_leaf_once(below, (mid + 1) as usize, hi, leaf_count);
            }
        }
        assert(all =~= span(lo as int, lesser(hi + 1, leaf_count)));
    }
}

/// The root of a reduction rests on every leaf once, in order.
pub proof fn reduction_roots_take_every_leaf_once(level: usize, leaf_count: int)
    requires
        1 <= leaf_count <= pow2(level as nat) <= usize::MAX,
    ensures
        reduced_leaves(level as nat, 0, pow2(level as nat) - 1, leaf_count) == span(0, leaf_count),
{
    lemma2_to64();
    reductions_take_every_leaf_once(
        level,
        0,
        (pow2(level as nat) - 1) as usize,
        leaf_count,
    );
}

/// The leaves below a proof of the wide tree: a leaf's own, and those of a node's
/// slice of `radix^level`, as far as there are any.
pub open spec fn leaves_below(child: ChildProof, radix: int, leaf_count: int) -> Seq<int> {
    match child {
        ChildProof::Leaf { idx } => seq![idx as int],
        ChildProof::Node { level, node_idx } => span(
            node_idx * pow(radix, level as nat),
            lesser((node_idx + 1) * pow(radix, level as nat), leaf_count),
        ),
        ChildProof::Interval { .. } => Seq::empty(),
    }
}

/// The leaves below proofs, one proof after the other.
pub open spec fn all_leaves_below(children: Seq<ChildProof>, radix: int, leaf_count: int) -> Seq<int>
    decreases children.len(),
{
    if children.len() == 0 {
        Seq::empty()
    } else {
        all_leaves_below(children.drop_last(), radix, leaf_count) + leaves_below(
            children.last(),
            radix,
            leaf_count,
        )
    }
}

/// A node of the wide tree reads the proofs of the leaves below it, each leaf once
/// and in order. The one-level binary circuit always reads two leaves.
pub proof fn nodes_read_their_leaves(
    level: usize,
    node_idx: usize,
    radix: usize,
    leaf_count: usize,
    depth: nat,
    plan: NodePlan,
)
    requires
        leaf_count >= 1,
        level >= 1,
        radix >= 2,
        node_idx < node_count(leaf_count as int, radix as int, level as nat),
        is_depth(leaf_count as int, radix as int, depth),
        node_planned(level, node_idx as int, radix as int, leaf_count as int, depth, plan),
        radix == 2 && level == 1 && depth <= 1 ==> leaf_count == 2,
    ensures
        all_leaves_below(plan.children@, radix as int, leaf_count as int) == span(
            node_idx * pow(radix as int, level as nat),
            lesser((node_idx + 1) * pow(radix as int, level as nat), leaf_count as int),
        ),
{
    let (n, r) = (leaf_count as int, radix as int);
    let q = pow(r, level as nat);
    let p = pow(r, (level - 1) as nat);
    assert(q == r * p) by {
        reveal(pow);
    }
    lemma_pow_positive(r, (level - 1) as nat);
    every_node_has_a_child(n, r, level as nat, node_idx as int);
    if radix == 2 && level == 1 && depth <= 1 {
        assert(pow(2, 0) == 1 && pow(2, 1) == 2) by {
            reveal_with_fuel(pow, 2);
        }
        assert(ceil_div(2, 2) == 1);
        assert(node_idx == 0);
        let c = plan.children@;
        assert(c.drop_last().drop_last() =~= Seq::<ChildProof>::empty());
        reveal_with_fuel(all_leaves_below, 3);
        assert(all_leaves_below(c, r, n) =~= span(0, 2));
        assert(0 * q == 0 && 1 * q == 2);
    } else {
        lemma_first_child_exists(leaf_count, radix, level, node_idx);
        let first = node_idx * r;
        let below = node_count(n, r, (level - 1) as nat);
        let kids = plan.children@;
        lemma_children_read(level, node_idx as int, r, n, kids, kids.len());
        assert(kids.take(kids.len() as int) =~= kids);
        let end = first + kids.len();
        assert(all_leaves_below(kids, r, n) == span(first * p, lesser(end * p, n)));
        assert(first * p == node_idx * q) by (nonlinear_arith)
            requires
                first == node_idx * r,
                q == r * p,
        ;
        if kids.len() == r {
            assert((first + r) * p == (node_idx + 1) * q) by (nonlinear_arith)
                requires
                    first == node_idx * r,
                    q == r * p,
            ;
        } else {
            assert(end == below);
            lemma_nodes_reach(n, r, (level - 1) as nat);
            assert((node_idx + 1) * q >= below * p) by (nonlinear_arith)
                requires
                    below <= node_idx * r + r,
                    q == r * p,
                    p >= 1,
            ;
            assert(lesser(end * p, n) == n);
        }
        assert(lesser(end * p, n) == lesser((node_idx + 1) * q, n));
    }
}

/// The nodes of a level reach past the last leaf, and the last of them does not
/// begin past it.
proof fn lemma_nodes_reach(n: int, radix: int, level: nat)
    requires
        n >= 1,
        radix >= 2,
    ensures
        node_count(n, radix, level) * pow(radix, level) >= n,
        (node_count(n, radix, level) - 1) * pow(radix, level) < n,
{
    let p = pow(radix, level);
    lemma_pow_positive(radix, level);
    if level == 0 {
        assert(p == 1) by {
            reveal(pow);
        }
    } else {
        let c = ceil_div(n, p);
        vstd::arithmetic::div_mod::lemma_fundamental_div_mod(n + p - 1, p);
        vstd::arithmetic::div_mod::lemma_mod_bound(n + p - 1, p);
        assert(c * p == p * c) by (nonlinear_arith);
        assert((c - 1) * p == c * p - p) by (nonlinear_arith);
        if c < 1 {
            assert(c * p <= 0) by (nonlinear_arith)
                requires
                    c < 1,
                    p >= 1,
            ;
        }
    }
}

proof fn lemma_children_read(
    level: usize,
    node_idx: int,
    radix: int,
    n: int,
    kids: Seq<ChildProof>,
    count: nat,
)
    requires
        n >= 1,
        radix >= 2,
        level >= 1,
        node_idx >= 0,
        1 <= count <= kids.len(),
        kids == Seq::new(
            child_count(n, radix, level as nat, node_idx) as nat,
            |c: int| child_at(level, (node_idx * radix + c) as usize),
        ),
        node_count(n, radix, (level - 1) as nat) <= usize::MAX,
    ensures
        all_leaves_below(kids.take(count as int), radix, n) == span(
            node_idx * radix * pow(radix, (level - 1) as nat),
            lesser((node_idx * radix + count) * pow(radix, (level - 1) as nat), n),
        ),
    decreases count,
{
    let l = (level - 1) as nat;
    let p = pow(radix, l);
    let first = node_idx * radix;
    let below = node_count(n, radix, l);
    lemma_pow_positive(radix, l);
    lemma_nodes_reach(n, radix, l);
    assert(first >= 0) by (nonlinear_arith)
        requires
            first == node_idx * radix,
            node_idx >= 0,
            radix >= 2,
    ;
    let k = first + count - 1;
    assert(k < below);
    let some = kids.take(count as int);
    assert(some.last() == child_at(level, k as usize));
    assert(some.drop_last() =~= kids.take(count - 1));
    assert(k * p <= (below - 1) * p) by (nonlinear_arith)
        requires
            k <= below - 1,
            p >= 1,
    ;
    assert((k + 1) * p == k * p + p) by (nonlinear_arith);
    assert(first * p <= k * p) by (nonlinear_arith)
        requires
            first <= k,
            p >= 1,
    ;
    if level == 1 {
        assert(p == 1) by {
            reveal(pow);
        }
    }
    let front = all_leaves_below(kids.take(count - 1), radix, n);
    if count > 1 {
        lemma_children_read(level, node_idx, radix, n, kids, (count - 1) as nat);
        assert(front == span(first * p, k * p));
    } else {
        assert(kids.take(0) =~= Seq::<ChildProof>::empty());
        assert(front =~= span(first * p, k * p));
    }
    assert((k as usize) as int == k);
    if level == 1 {
        assert(k * p == k && (k + 1) * p == k + 1) by (nonlinear_arith)
            requires
                p == 1,
        ;
        assert(k < n);
        assert(leaves_below(some.last(), radix, n) =~= seq![k]);
    }
    assert(leaves_below(some.last(), radix, n) =~= span(k * p, lesser((k + 1) * p, n)));
    assert(all_leaves_below(some, radix, n) =~= span(first * p, lesser((k + 1) * p, n)));
}

/// A fold reads proofs of the level right below its circuit, and fills up with a base
/// proof of the circuit that its children are proofs of, or with dummies where they
/// are leaves.
pub proof fn folds_match_their_children(
    level: usize,
    node_idx: int,
    radix: int,
    leaf_count: int,
    depth: nat,
    plan: NodePlan,
    i: int,
)
    requires
        level >= 1,
        node_planned(level, node_idx, radix, leaf_count, depth, plan),
        0 <= i < plan.children@.len(),
    ensures
        match plan.children@[i] {
            ChildProof::Leaf { .. } => plan.circuit == CircuitKey::BinaryNode && plan.padding
                == Padding::NotNeeded || plan.circuit == (CircuitKey::Node { level: 1 })
                && plan.padding == Padding::Dummy,
            ChildProof::Node { level: below, .. } => plan.circuit == (CircuitKey::Node {
                level: (below + 1) as usize,
            }) && plan.padding == (Padding::Base { level: below }),
            ChildProof::Interval { .. } => false,
        },
        plan.circuit == CircuitKey::BinaryNode ==> plan.children@.len() == 2,
{
}

/// A node is refused exactly where it does not exist, or cannot be folded: it has no
/// level, the fan-in is out of range, the level is past the root, or the level has
/// fewer nodes; a node over no leaves is folded by pairs only.
pub proof fn nodes_that_exist_are_folded(
    level: usize,
    node_idx: usize,
    radix: usize,
    leaf_count: usize,
    depth: nat,
)
    ensures
        node_fault(level, node_idx, radix, leaf_count, depth) is None <==> {
            &&& level >= 1
            &&& 2 <= radix <= 16
            &&& level <= depth || level == 1
            &&& node_idx < node_count(leaf_count as int, radix as int, level as nat)
            &&& leaf_count > 0 || radix == 2
        },
{
}

/// A primed worker has every circuit that its work asks for; trees that fold pairs have
/// one of their own.
pub proof fn primed_workers_have_every_circuit(
    built: Seq<CircuitKey>,
    radix: usize,
    tx_per_proof: usize,
    wanted: Seq<CircuitKey>,
)
    requires
        wanted == seq![
            CircuitKey::PreExec,
            CircuitKey::BlockTx { tx_per_proof },
            CircuitKey::BatchLeaf,
            if radix == 2 {
                CircuitKey::BinaryNode
            } else {
                CircuitKey::Node { level: 2 }
            },
        ],
    ensures
        is_primed(built, radix, tx_per_proof) <==> forall|key: CircuitKey| #[trigger]
            wanted.contains(key) ==> built.contains(key),
{
    assert(wanted.contains(wanted[0]) && wanted.contains(wanted[1]));
    assert(wanted.contains(wanted[2]) && wanted.contains(wanted[3]));
}

} // verus!
