//! Work descriptors: one unit of proving work, and the proof it produces.

use crate::prover_node::locations::{
    leaf_file, leaf_file_name, reduction_file, reduction_file_name, tree_file, tree_file_name,
};
use crate::text::{dec, lemma_cut_at, lemma_dec, lemma_dec_injective};
use vstd::prelude::*;
use vstd::string::*;

verus! {

/// The kind of work that a descriptor asks for.
#[derive(Clone, Copy, Debug, PartialEq, Eq, Structural)]
pub enum WorkRole {
    /// Prove one chunk of transactions.
    Leaf,
    /// Fold the children of a tree node.
    TreeNode,
    /// Fold two adjacent intervals of equal span.
    ReductionFold,
    /// Harvest and verify the root.
    RootCoordinator,
}

/// Which reduction tree a run folds with.
#[derive(Clone, Copy, Debug, PartialEq, Eq, Structural)]
pub enum FoldStrategy {
    /// Up to sixteen children per node.
    Hex,
    /// Pairs of intervals of equal span.
    Reduction,
}

/// Which backend carries the work.
#[derive(Clone, Copy, Debug, PartialEq, Eq, Structural)]
pub enum TransportKind {
    /// Queue and store of this process.
    Local,
    /// A message queue and an object store.
    Pubsub,
}

/// Whether a commit created its output or found it there.
#[derive(Clone, Copy, Debug, PartialEq, Eq, Structural)]
pub enum CommitOutcome {
    Committed,
    AlreadyExists,
}

/// One unit of work.
#[derive(Clone, Copy, Debug, PartialEq, Eq, Structural)]
pub struct WorkDescriptor {
    pub role: WorkRole,
    pub fold_strategy: FoldStrategy,
    /// The chunk that a leaf proves.
    pub chunk_idx: usize,
    /// The level of a fold; leaves are level 0.
    pub level: usize,
    /// The position of a tree node in its level.
    pub node_idx: usize,
    /// First and last leaf that the output covers, for a reduction.
    pub lo: usize,
    pub hi: usize,
    pub radix: usize,
    pub leaf_count: usize,
    pub tx_per_proof: usize,
}

/// The file name of a descriptor's output.
pub open spec fn output_file(d: WorkDescriptor) -> Seq<char> {
    match d.role {
        WorkRole::Leaf => leaf_file(d.chunk_idx as nat),
        WorkRole::TreeNode => tree_file(d.level as nat, d.node_idx as nat),
        WorkRole::ReductionFold => reduction_file(d.lo as nat, d.hi as nat),
        WorkRole::RootCoordinator => tree_file(d.level as nat, d.node_idx as nat),
    }
}

impl WorkDescriptor {
    /// The leaf for chunk `chunk_idx`.
    pub fn leaf(chunk_idx: usize, radix: usize, leaf_count: usize, tx_per_proof: usize) -> (r: Self)
        ensures
            r == leaf_descriptor(chunk_idx, radix, leaf_count, tx_per_proof),
    {
        WorkDescriptor {
            role: WorkRole::Leaf,
            fold_strategy: FoldStrategy::Hex,
            chunk_idx,
            level: 0,
            node_idx: 0,
            lo: chunk_idx,
            hi: chunk_idx,
            radix,
            leaf_count,
            tx_per_proof,
        }
    }

    /// The fold of node `node_idx` at `level`.
    pub fn tree_node(
        level: usize,
        node_idx: usize,
        radix: usize,
        leaf_count: usize,
        tx_per_proof: usize,
    ) -> (r: Self)
        ensures
            r.role == WorkRole::TreeNode,
            r.fold_strategy == FoldStrategy::Hex,
            r.level == level,
            r.node_idx == node_idx,
            r.radix == radix,
            r.leaf_count == leaf_count,
            r.tx_per_proof == tx_per_proof,
    {
        WorkDescriptor {
            role: WorkRole::TreeNode,
            fold_strategy: FoldStrategy::Hex,
            chunk_idx: 0,
            level,
            node_idx,
            lo: 0,
            hi: 0,
            radix,
            leaf_count,
            tx_per_proof,
        }
    }

    /// The reduction fold of the leaves `lo..=hi` at `level`.
    pub fn reduction_fold(
        level: usize,
        lo: usize,
        hi: usize,
        leaf_count: usize,
        tx_per_proof: usize,
    ) -> (r: Self)
        ensures
            r.role == WorkRole::ReductionFold,
            r.fold_strategy == FoldStrategy::Reduction,
            r.level == level,
            r.lo == lo,
            r.hi == hi,
            r.radix == 2,
            r.leaf_count == leaf_count,
            r.tx_per_proof == tx_per_proof,
    {
        WorkDescriptor {
            role: WorkRole::ReductionFold,
            fold_strategy: FoldStrategy::Reduction,
            chunk_idx: 0,
            level,
            node_idx: 0,
            lo,
            hi,
            radix: 2,
            leaf_count,
            tx_per_proof,
        }
    }

    /// The file name under which the output is committed.
    pub fn output_key(&self) -> (r: String)
        ensures
            r@ == output_file(*self),
    {
        match self.role {
            WorkRole::Leaf => leaf_file_name(self.chunk_idx),
            WorkRole::TreeNode => tree_file_name(self.level, self.node_idx),
            WorkRole::ReductionFold => reduction_file_name(self.lo, self.hi),
            WorkRole::RootCoordinator => tree_file_name(self.level, self.node_idx),
        }
    }
}

/// The descriptor of a leaf: level 0, covering the interval of its own chunk.
pub open spec fn leaf_descriptor(
    chunk_idx: usize,
    radix: usize,
    leaf_count: usize,
    tx_per_proof: usize,
) -> WorkDescriptor {
    WorkDescriptor {
        role: WorkRole::Leaf,
        fold_strategy: FoldStrategy::Hex,
        chunk_idx,
        level: 0,
        node_idx: 0,
        lo: chunk_idx,
        hi: chunk_idx,
        radix,
        leaf_count,
        tx_per_proof,
    }
}

/// The leaves of a tree, in order: what a run is seeded with.
pub fn seed_leaf_descriptors(radix: usize, leaf_count: usize, tx_per_proof: usize) -> (r: Vec<
    WorkDescriptor,
>)
    ensures
        r@ == leaf_seeds(radix, leaf_count, tx_per_proof),
        r@ == Seq::new(
            leaf_count as nat,
            |i: int| leaf_descriptor(i as usize, radix, leaf_count, tx_per_proof),
        ),
{
    let mut r: Vec<WorkDescriptor> = Vec::new();
    let mut i: usize = 0;
    while i < leaf_count
        invariant
            i <= leaf_count,
            r@.len() == i,
            forall|j: int|
                0 <= j < i ==> #[trigger] r@[j] == leaf_descriptor(
                    j as usize,
                    radix,
                    leaf_count,
                    tx_per_proof,
                ),
        decreases leaf_count - i,
    {
        r.push(WorkDescriptor::leaf(i, radix, leaf_count, tx_per_proof));
        i = i + 1;
    }
    assert(r@ =~= Seq::new(
        leaf_count as nat,
        |i: int| leaf_descriptor(i as usize, radix, leaf_count, tx_per_proof),
    ));
    r
}

/// Whether two descriptors stand for the same proof.
pub open spec fn same_output(a: WorkDescriptor, b: WorkDescriptor) -> bool {
    match (a.role, b.role) {
        (WorkRole::Leaf, WorkRole::Leaf) => a.chunk_idx == b.chunk_idx,
        (WorkRole::ReductionFold, WorkRole::ReductionFold) => a.lo == b.lo && a.hi == b.hi,
        (WorkRole::Leaf, _) => false,
        (_, WorkRole::Leaf) => false,
        (WorkRole::ReductionFold, _) => false,
        (_, WorkRole::ReductionFold) => false,
        _ => a.level == b.level && a.node_idx == b.node_idx,
    }
}

/// Two descriptors commit under the same key only if they stand for the same
/// proof, so committing twice is harmless and no proof replaces another.
pub proof fn output_keys_are_distinct(a: WorkDescriptor, b: WorkDescriptor)
    requires
        output_file(a) == output_file(b),
    ensures
        same_output(a, b),
{
    reveal_strlit("leaf_");
    reveal_strlit("tree_L");
    reveal_strlit("reduction_");
    reveal_strlit(".proof");
    reveal_strlit("_N");
    reveal_strlit("_");
    let (fa, fb) = (output_file(a), output_file(b));
    match (a.role, b.role) {
        (WorkRole::Leaf, WorkRole::Leaf) => {
            let (x, y) = (a.chunk_idx as nat, b.chunk_idx as nat);
            assert(fa.subrange(5, fa.len() as int) =~= dec(x) + ".proof"@);
            assert(fb.subrange(5, fb.len() as int) =~= dec(y) + ".proof"@);
            lemma_dec(x);
            lemma_dec(y);
            lemma_cut_at(dec(x), ".proof"@, dec(y), ".proof"@, '.');
            lemma_dec_injective(x, y);
        },
        (WorkRole::ReductionFold, WorkRole::ReductionFold) => {
            lemma_two_numerals(
                "reduction_"@,
                "_"@,
                ".proof"@,
                a.lo as nat,
                a.hi as nat,
                b.lo as nat,
                b.hi as nat,
            );
        },
        (WorkRole::Leaf, _) => {
            assert(fa[0] == 'l');
            assert(fb[0] != 'l');
        },
        (_, WorkRole::Leaf) => {
            assert(fb[0] == 'l');
            assert(fa[0] != 'l');
        },
        (WorkRole::ReductionFold, _) => {
            assert(fa[0] == 'r');
            assert(fb[0] == 't');
        },
        (_, WorkRole::ReductionFold) => {
            assert(fb[0] == 'r');
            assert(fa[0] == 't');
        },
        _ => {
            lemma_two_numerals(
                "tree_L"@,
                "_N"@,
                ".proof"@,
                a.level as nat,
                a.node_idx as nat,
                b.level as nat,
                b.node_idx as nat,
            );
        },
    }
}

proof fn lemma_two_numerals(
    head: Seq<char>,
    mid: Seq<char>,
    tail: Seq<char>,
    x1: nat,
    y1: nat,
    x2: nat,
    y2: nat,
)
    requires
        mid.len() > 0,
        tail.len() > 0,
        mid[0] == '_',
        tail[0] == '.',
        head + dec(x1) + mid + dec(y1) + tail == head + dec(x2) + mid + dec(y2) + tail,
    ensures
        x1 == x2,
        y1 == y2,
{
    lemma_dec(x1);
    lemma_dec(x2);
    lemma_dec(y1);
    lemma_dec(y2);
    let s1 = head + dec(x1) + mid + dec(y1) + tail;
    let s2 = head + dec(x2) + mid + dec(y2) + tail;
    let r1 = mid + (dec(y1) + tail);
    let r2 = mid + (dec(y2) + tail);
    assert(dec(x1) + r1 =~= s1.subrange(head.len() as int, s1.len() as int));
    assert(dec(x2) + r2 =~= s2.subrange(head.len() as int, s2.len() as int));
    lemma_cut_at(dec(x1), r1, dec(x2), r2, '_');
    assert(dec(y1) + tail =~= r1.subrange(mid.len() as int, r1.len() as int));
    assert(dec(y2) + tail =~= r2.subrange(mid.len() as int, r2.len() as int));
    lemma_cut_at(dec(y1), tail, dec(y2), tail, '.');
    lemma_dec_injective(x1, x2);
    lemma_dec_injective(y1, y2);
}

/// The descriptors of all leaves of a tree.
pub open spec fn leaf_seeds(radix: usize, leaf_count: usize, tx_per_proof: usize) -> Seq<
    WorkDescriptor,
> {
    Seq::new(
        leaf_count as nat,
        |i: int| leaf_descriptor(i as usize, radix, leaf_count, tx_per_proof),
    )
}

/// Seeding asks for every leaf once: for each chunk there is one descriptor, which
/// asks for that leaf, with the geometry of the run.
pub proof fn every_leaf_is_seeded_once(radix: usize, leaf_count: usize, tx_per_proof: usize, i: int)
    requires
        0 <= i < leaf_count,
    ensures
        ({
            let s = leaf_seeds(radix, leaf_count, tx_per_proof);
            &&& s.len() == leaf_count
            &&& s[i].role == WorkRole::Leaf
            &&& s[i].chunk_idx == i
            &&& s[i].radix == radix
            &&& s[i].leaf_count == leaf_count
            &&& s[i].tx_per_proof == tx_per_proof
            &&& forall|j: int|
                0 <= j < s.len() && j != i ==> (#[trigger] s[j]).chunk_idx != s[i].chunk_idx
        }),
{
}

/// Work that is delivered twice commits under the same key: descriptors of the same
/// proof have the same file.
pub proof fn equal_outputs_have_equal_keys(a: WorkDescriptor, b: WorkDescriptor)
    requires
        same_output(a, b),
    ensures
        output_file(a) == output_file(b),
{
}

} // verus!
