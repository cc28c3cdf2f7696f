use bench::account_family_tree::{
    empty_sibling, empty_siblings, fold_path, AccountFamilyTree, PathHarvester,
};
use bench::hash::HashOut;
use bench::prestate::{ACCOUNT_MERKLE_LEVELS, MARKET_MERKLE_LEVELS};

fn two(a: HashOut, b: HashOut) -> HashOut {
    let mut h = HashOut { e0: 1, e1: 2, e2: 3, e3: 4 };
    for x in [a.e0, a.e1, a.e2, a.e3, b.e0, b.e1, b.e2, b.e3] {
        h.e0 = h.e0.wrapping_mul(0x9e37_79b9_7f4a_7c15).wrapping_add(x);
        h.e1 = (h.e1 ^ h.e0).rotate_left(13);
        h.e2 = h.e2.wrapping_add(h.e1 ^ x);
        h.e3 = h.e3.wrapping_mul(31).wrapping_add(h.e2);
    }
    h
}

fn mk_leaf(seed: u64) -> HashOut {
    HashOut { e0: seed + 1, e1: 0, e2: 0, e3: 0 }
}

#[test]
fn empty_tree_root_matches_account_delta_empty_root() {
    let tree = AccountFamilyTree::<ACCOUNT_MERKLE_LEVELS>::new(&two);
    let mut h = HashOut::zero();
    for _ in 0..ACCOUNT_MERKLE_LEVELS {
        h = two(h, h);
    }
    assert_eq!(tree.root(), h);
    assert_eq!(empty_sibling(ACCOUNT_MERKLE_LEVELS, &two), h);
    let all = empty_siblings(2, &two);
    assert_eq!(all.len(), 3);
    assert_eq!(all[0], HashOut::zero());
    assert_eq!(all[1], two(all[0], all[0]));
    assert_eq!(all[2], two(all[1], all[1]));
}

#[test]
fn empty_proof_folds_to_empty_root() {
    let tree = AccountFamilyTree::<ACCOUNT_MERKLE_LEVELS>::new(&two);
    let root = tree.root();
    for &idx in &[0u128, 1, 2, 7, 100, (1u128 << 20) + 3] {
        let path = tree.leaf_proof(idx);
        let folded = AccountFamilyTree::<ACCOUNT_MERKLE_LEVELS>::fold(
            idx,
            HashOut::zero(),
            &path,
            &two,
        );
        assert_eq!(folded, root, "empty proof for index {idx} must fold to root");
        assert_eq!(fold_path(idx, HashOut::zero(), &path, &two), root);
    }
}

#[test]
fn inserted_leaf_proof_round_trips() {
    let mut tree = AccountFamilyTree::<ACCOUNT_MERKLE_LEVELS>::new(&two);
    let inserts: &[(u128, u64)] = &[(0, 10), (1, 20), (5, 30), (1234, 40), (1u128 << 30, 50)];
    for &(idx, seed) in inserts {
        tree.insert_leaf(idx, mk_leaf(seed), &two);
    }
    let root = tree.root();
    for &(idx, seed) in inserts {
        let path = tree.leaf_proof(idx);
        let folded =
            AccountFamilyTree::<ACCOUNT_MERKLE_LEVELS>::fold(idx, mk_leaf(seed), &path, &two);
        assert_eq!(folded, root, "leaf {idx} proof must fold to current root");
    }
    let path2 = tree.leaf_proof(2);
    let folded2 =
        AccountFamilyTree::<ACCOUNT_MERKLE_LEVELS>::fold(2, HashOut::zero(), &path2, &two);
    assert_eq!(folded2, root, "empty index-2 proof must fold to current root");
}

#[test]
fn overwriting_a_leaf_updates_root_and_proof() {
    let mut tree = AccountFamilyTree::<ACCOUNT_MERKLE_LEVELS>::new(&two);
    tree.insert_leaf(2, mk_leaf(1), &two);
    let r1 = tree.root();
    tree.insert_leaf(2, mk_leaf(2), &two);
    let r2 = tree.root();
    assert_ne!(r1, r2, "overwriting a leaf must change the root");
    let path = tree.leaf_proof(2);
    let folded = AccountFamilyTree::<ACCOUNT_MERKLE_LEVELS>::fold(2, mk_leaf(2), &path, &two);
    assert_eq!(folded, r2);
}

#[test]
fn the_order_of_insertions_does_not_matter() {
    let mut a = AccountFamilyTree::<MARKET_MERKLE_LEVELS>::new(&two);
    let mut b = AccountFamilyTree::<MARKET_MERKLE_LEVELS>::new(&two);
    a.insert_leaf(3, mk_leaf(1), &two);
    a.insert_leaf(9, mk_leaf(2), &two);
    b.insert_leaf(9, mk_leaf(5), &two);
    b.insert_leaf(9, mk_leaf(2), &two);
    b.insert_leaf(3, mk_leaf(1), &two);
    assert_eq!(a.root(), b.root());
}

#[test]
fn harvester_reconstructs_target_path_from_other_leaves_proofs() {
    let mut truth = AccountFamilyTree::<ACCOUNT_MERKLE_LEVELS>::new(&two);
    let residents: &[(u128, u64)] =
        &[(0, 1), (1, 2), (3, 3), (6, 4), (7, 5), (130, 6), (1u128 << 20, 7)];
    for &(idx, seed) in residents {
        truth.insert_leaf(idx, mk_leaf(seed), &two);
    }
    let truth_root = truth.root();

    let mut harvester = PathHarvester::<ACCOUNT_MERKLE_LEVELS>::new(&two);
    for &(idx, seed) in residents {
        let proof = truth.leaf_proof(idx);
        harvester
            .record_proof_strict(idx, mk_leaf(seed), &proof, &two)
            .expect("coherent proofs record without conflict");
    }
    assert_eq!(harvester.harvested_root(), truth_root);

    let path2 = harvester.path(2);
    let folded =
        PathHarvester::<ACCOUNT_MERKLE_LEVELS>::fold(2, HashOut::zero(), &path2, &two);
    assert_eq!(folded, truth_root);
    let truth_path2 = truth.leaf_proof(2);
    assert_eq!(path2, truth_path2, "harvested index-2 path must match truth");

    harvester.reset();
    assert_ne!(harvester.harvested_root(), truth_root);
}

#[test]
fn harvester_detects_incoherent_proofs() {
    let mut tree = AccountFamilyTree::<ACCOUNT_MERKLE_LEVELS>::new(&two);
    tree.insert_leaf(0, mk_leaf(1), &two);
    tree.insert_leaf(1, mk_leaf(2), &two);
    let proof0 = tree.leaf_proof(0);

    let mut harvester = PathHarvester::<ACCOUNT_MERKLE_LEVELS>::new(&two);
    harvester.record_proof_strict(0, mk_leaf(1), &proof0, &two).unwrap();
    let err = harvester.record_proof_strict(0, mk_leaf(999), &proof0, &two).unwrap_err();
    assert!(err.contains("conflict"), "incoherence must be a loud error: {err}");
    harvester.record_proof(0, mk_leaf(999), &proof0, &two);
    assert_eq!(harvester.harvested_root(), fold_path(0, mk_leaf(999), &proof0, &two));
}

#[test]
fn refused_proofs_leave_what_is_known() {
    let mut tree = AccountFamilyTree::<MARKET_MERKLE_LEVELS>::new(&two);
    tree.insert_leaf(0, mk_leaf(1), &two);
    tree.insert_leaf(6, mk_leaf(2), &two);
    let mut harvester = PathHarvester::<MARKET_MERKLE_LEVELS>::new(&two);
    harvester.record_proof_strict(0, mk_leaf(1), &tree.leaf_proof(0), &two).unwrap();
    let before = harvester.clone();
    let mut wrong = tree.clone();
    wrong.insert_leaf(6, mk_leaf(3), &two);
    assert!(harvester.record_proof_strict(6, mk_leaf(3), &wrong.leaf_proof(6), &two).is_err());
    assert_eq!(harvester.harvested_root(), before.harvested_root());
    assert_eq!(harvester.path(1), before.path(1));
    // What the proof named before the contradiction is recorded.
    assert_eq!(harvester.path(7)[0], mk_leaf(3));
    assert_eq!(before.path(7)[0], HashOut::zero());
}

#[test]
fn market_depth_tree_round_trips() {
    let mut tree = AccountFamilyTree::<MARKET_MERKLE_LEVELS>::new(&two);
    tree.insert_leaf(3, mk_leaf(7), &two);
    tree.insert_leaf(255, mk_leaf(8), &two);
    let root = tree.root();
    let path = tree.leaf_proof(3);
    let folded = AccountFamilyTree::<MARKET_MERKLE_LEVELS>::fold(3, mk_leaf(7), &path, &two);
    assert_eq!(folded, root);
}
