//! Laws relating the three components: building a tree, generating an
//! inclusion proof, and verifying it against the root.

use vstd::prelude::*;

use crate::merkle::{
    build_ops, entry_at, fold_proof, next_level_spec, parent_digest, proof_from, proof_spec,
    sibling_exists, tree_levels_spec, combine, lemma_tree_shape, MerkleTree, SiblingSide,
};

verus! {

/// Whether the walk from the node at `idx` of level `k` up to the root meets
/// a recorded sibling at every level: no level on the path pairs the walked
/// node with itself.
pub open spec fn no_skips_from(levels: Seq<Seq<Seq<u8>>>, k: int, idx: int) -> bool
    decreases levels.len() - k,
{
    if k < 0 || k >= levels.len() - 1 {
        true
    } else {
        sibling_exists(levels[k], idx) && no_skips_from(levels, k + 1, idx / 2)
    }
}

/// Folding the proof gathered from level `k` upward, starting from the node
/// the walk stands on, reaches the root — provided every level on the path
/// records a sibling.
proof fn lemma_fold_from(levels: Seq<Seq<Seq<u8>>>, k: int, idx: int)
    requires
        0 <= k < levels.len(),
        0 <= idx < levels[k].len(),
        levels.last().len() == 1,
        forall|j: int|
            0 <= j < levels.len() - 1 ==> levels[j + 1] == next_level_spec(#[trigger] levels[j]),
        no_skips_from(levels, k, idx),
    ensures
        fold_proof(levels[k][idx], proof_from(levels, k, idx)) == levels.last()[0],
    decreases levels.len() - k,
{
    if k == levels.len() - 1 {
        assert(proof_from(levels, k, idx) =~= Seq::<(Seq<u8>, SiblingSide)>::empty());
        assert(levels[k] == levels.last());
        assert(idx == 0);
    } else {
        let level = levels[k];
        let e = entry_at(level, idx);
        let rest = proof_from(levels, k + 1, idx / 2);
        assert(sibling_exists(level, idx));
        assert(e.len() == 1);
        assert(proof_from(levels, k, idx) == e + rest);
        let x = level[idx];
        assert((e + rest)[0] == e[0]);
        assert((e + rest).drop_first() =~= rest);
        assert(fold_proof(x, e + rest) == fold_proof(combine(x, e[0]), rest));
        assert(levels[k + 1] == next_level_spec(level));
        assert(0 <= idx / 2 < levels[k + 1].len());
        assert(combine(x, e[0]) == parent_digest(level, idx / 2)) by {
            if idx % 2 == 0 {
                assert(2 * (idx / 2) == idx);
            } else {
                assert(2 * (idx / 2) == idx - 1);
            }
        }
        assert(levels[k + 1][idx / 2] == parent_digest(level, idx / 2));
        lemma_fold_from(levels, k + 1, idx / 2);
    }
}

/// For every well-formed tree and every valid leaf index whose path upward
/// meets a recorded sibling at every level, verifying the generated proof
/// recomputes exactly the tree's root: the verifier's fold of the generated
/// proof, started at the leaf, equals the root digest. (On a path that hits
/// a self-paired node the proof omits an entry and the fold does not
/// recompute the duplication, so such indices are excluded.)
pub proof fn lemma_proof_round_trip(tree: MerkleTree, idx: int)
    requires
        tree.well_formed(),
        0 <= idx < tree.spec_leaf_count(),
        no_skips_from(tree@, 0, idx),
    ensures
        fold_proof(tree.leaves()[idx], proof_spec(tree@, idx)) == tree.spec_root(),
{
    lemma_tree_shape(tree@[0]);
    lemma_fold_from(tree@, 0, idx);
}

/// A single-leaf tree has exactly one level, whose single entry — the leaf
/// itself, unhashed — is the root; its build performs zero hash operations;
/// the proof for its leaf is empty; and folding an empty proof returns the
/// leaf unchanged, so verification against that root matches.
pub proof fn lemma_single_leaf(leaf: Seq<u8>)
    ensures
        tree_levels_spec(seq![leaf]) == seq![seq![leaf]],
        tree_levels_spec(seq![leaf]).last()[0] == leaf,
        build_ops(1) == 0,
        proof_spec(seq![seq![leaf]], 0) == Seq::<(Seq<u8>, SiblingSide)>::empty(),
        fold_proof(leaf, Seq::<(Seq<u8>, SiblingSide)>::empty()) == leaf,
{
    assert(tree_levels_spec(seq![leaf]) =~= seq![seq![leaf]]);
    assert(proof_spec(seq![seq![leaf]], 0) =~= Seq::<(Seq<u8>, SiblingSide)>::empty());
}

/// Each level above the leaves holds exactly one entry per pair of the level
/// below it, the unpaired tail counting as a pair: `ceil(len / 2)` entries.
pub proof fn lemma_level_lengths(tree: MerkleTree, k: int)
    requires
        tree.well_formed(),
        0 <= k < tree@.len() - 1,
    ensures
        tree@[k + 1].len() == (tree@[k].len() + 1) / 2,
{
    lemma_tree_shape(tree@[0]);
    assert(tree@[k + 1] == next_level_spec(tree@[k]));
}

proof fn lemma_proof_from_len(levels: Seq<Seq<Seq<u8>>>, k: int, idx: int)
    requires
        0 <= k <= levels.len() - 1,
    ensures
        proof_from(levels, k, idx).len() <= levels.len() - 1 - k,
        no_skips_from(levels, k, idx) ==> proof_from(levels, k, idx).len() == levels.len() - 1
            - k,
    decreases levels.len() - k,
{
    if k < levels.len() - 1 {
        lemma_proof_from_len(levels, k + 1, idx / 2);
    }
}

/// A proof holds one entry per tree level below the root, except the levels
/// where the walked node was paired with itself: its length is the tree
/// height less one when no level on the path is skipped, and smaller
/// otherwise.
pub proof fn lemma_proof_length(tree: MerkleTree, idx: int)
    requires
        tree.well_formed(),
        0 <= idx < tree.spec_leaf_count(),
    ensures
        proof_spec(tree@, idx).len() <= tree@.len() - 1,
        no_skips_from(tree@, 0, idx) ==> proof_spec(tree@, idx).len() == tree@.len() - 1,
{
    lemma_proof_from_len(tree@, 0, idx);
}

/// Prepending a level shifts the path predicate by one level.
proof fn lemma_no_skips_shift(first: Seq<Seq<u8>>, rest: Seq<Seq<Seq<u8>>>, k: int, idx: int)
    requires
        k >= 0,
    ensures
        no_skips_from(seq![first] + rest, k + 1, idx) == no_skips_from(rest, k, idx),
    decreases rest.len() - k,
{
    let levels = seq![first] + rest;
    if k < rest.len() - 1 {
        assert(levels[k + 1] == rest[k]);
        lemma_no_skips_shift(first, rest, k + 1, idx / 2);
    }
}

/// Two raised to the power `e`.
pub open spec fn pow2(e: nat) -> nat
    decreases e,
{
    if e == 0 {
        1
    } else {
        2 * pow2((e - 1) as nat)
    }
}

/// Whether `n` is a power of two.
pub open spec fn is_power_of_two(n: nat) -> bool {
    exists|e: nat| n == pow2(e)
}

proof fn lemma_pow2_pos(e: nat)
    ensures
        pow2(e) >= 1,
    decreases e,
{
    if e > 0 {
        lemma_pow2_pos((e - 1) as nat);
    }
}

proof fn lemma_build_ops_pow2(e: nat)
    ensures
        build_ops(pow2(e)) == pow2(e) - 1,
    decreases e,
{
    lemma_pow2_pos(e);
    if e > 0 {
        let p = pow2((e - 1) as nat);
        lemma_pow2_pos((e - 1) as nat);
        assert(pow2(e) == 2 * p);
        assert((2 * p + 1) / 2 == p);
        lemma_build_ops_pow2((e - 1) as nat);
    }
}

proof fn lemma_pow2_no_skips_helper(leaves: Seq<Seq<u8>>, idx: int, e: nat)
    requires
        leaves.len() == pow2(e),
        0 <= idx < leaves.len(),
    ensures
        no_skips_from(tree_levels_spec(leaves), 0, idx),
    decreases e,
{
    lemma_pow2_pos(e);
    if e == 0 {
        assert(tree_levels_spec(leaves).len() == 1);
    } else {
        let p = pow2((e - 1) as nat);
        lemma_pow2_pos((e - 1) as nat);
        assert(leaves.len() == 2 * p);
        let next = next_level_spec(leaves);
        assert(next.len() == (2 * p + 1) / 2 == p);
        assert(sibling_exists(leaves, idx)) by {
            if idx % 2 == 0 {
                assert(idx < 2 * p - 1);
            }
        }
        assert(0 <= idx / 2 < p);
        lemma_pow2_no_skips_helper(next, idx / 2, (e - 1) as nat);
        let levels = tree_levels_spec(leaves);
        assert(levels == seq![leaves] + tree_levels_spec(next));
        lemma_tree_shape(next);
        assert(levels.len() >= 2);
        assert(levels[0] == leaves);
        lemma_no_skips_shift(leaves, tree_levels_spec(next), 0, idx / 2);
    }
}

/// On a tree over a power-of-two leaf count no path ever hits a self-paired
/// node: every valid leaf index meets the premise of the round-trip law, so
/// every generated proof verifies against the root.
pub proof fn lemma_power_of_two_no_skips(leaves: Seq<Seq<u8>>, idx: int)
    requires
        is_power_of_two(leaves.len()),
        0 <= idx < leaves.len(),
    ensures
        no_skips_from(tree_levels_spec(leaves), 0, idx),
{
    let e = choose|e: nat| leaves.len() == pow2(e);
    lemma_pow2_no_skips_helper(leaves, idx, e);
}

/// On a tree over a power-of-two leaf count the round trip holds with no
/// proviso: for every valid leaf index, folding the generated proof from the
/// leaf recomputes exactly the root.
pub proof fn lemma_round_trip_power_of_two(tree: MerkleTree, idx: int)
    requires
        tree.well_formed(),
        is_power_of_two(tree.spec_leaf_count()),
        0 <= idx < tree.spec_leaf_count(),
    ensures
        fold_proof(tree.leaves()[idx], proof_spec(tree@, idx)) == tree.spec_root(),
{
    lemma_power_of_two_no_skips(tree.leaves(), idx);
    lemma_proof_round_trip(tree, idx);
}

/// Building over a leaf count that is a power of two performs exactly one
/// hash operation less than the leaf count: the internal-node count of a
/// balanced binary tree.
pub proof fn lemma_build_ops_power_of_two(n: nat)
    requires
        is_power_of_two(n),
    ensures
        n >= 1,
        build_ops(n) == n - 1,
{
    let e = choose|e: nat| n == pow2(e);
    lemma_pow2_pos(e);
    lemma_build_ops_pow2(e);
}

} // verus!
