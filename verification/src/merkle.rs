//! The Merkle-tree engine: building the level-by-level tree, generating an
//! inclusion proof for a leaf, and verifying a proof against a root.

use vstd::prelude::*;

use crate::hashing::{bytes_eq, copy_bytes, hash_pair, sha256_of};

verus! {

/// A precondition violation reported by the engine.
#[derive(Clone, Copy, Debug, PartialEq, Eq, Structural)]
pub enum MerkleError {
    /// Tree building was invoked with zero leaves.
    EmptyInput,
    /// Proof generation was invoked with a leaf index at or past the leaf count.
    IndexOutOfRange,
    /// A root digest of a length other than 32 bytes reached the fixed-width
    /// output boundary.
    MalformedRoot,
}

/// Which side of the current node the recorded sibling sits on. During
/// verification the accumulated value is hashed as the left operand when the
/// sibling is on the right, and as the right operand when the sibling is on
/// the left. Both ends of the proof round trip share this exact meaning.
#[derive(Clone, Copy, Debug, PartialEq, Eq, Structural)]
pub enum SiblingSide {
    /// The sibling came from an odd index: it is hashed as the left operand.
    Left,
    /// The sibling came from an even index: it is hashed as the right operand.
    Right,
}

/// One proof entry: a sibling digest and the side it is hashed on.
#[derive(Debug)]
pub struct ProofStep {
    pub sibling: Vec<u8>,
    pub side: SiblingSide,
}

impl ProofStep {
    /// The mathematical content of the step: the sibling's bytes and its side.
    pub open spec fn view_step(self) -> (Seq<u8>, SiblingSide) {
        (self.sibling@, self.side)
    }
}

/// The mathematical content of a whole proof, in order.
pub open spec fn steps_view(steps: Seq<ProofStep>) -> Seq<(Seq<u8>, SiblingSide)> {
    steps.map_values(|s: ProofStep| s.view_step())
}

/// The digest at position `j` of the level above `level`: the hash of the
/// concatenation of the pair at `2j` and `2j + 1`, the last unpaired node
/// being paired with itself.
pub open spec fn parent_digest(level: Seq<Seq<u8>>, j: int) -> Seq<u8> {
    let left = level[2 * j];
    let right = if 2 * j + 1 < level.len() {
        level[2 * j + 1]
    } else {
        level[2 * j]
    };
    sha256_of(left + right)
}

/// The level above `level`: `ceil(len / 2)` parent digests in pair order.
pub open spec fn next_level_spec(level: Seq<Seq<u8>>) -> Seq<Seq<u8>> {
    Seq::new(((level.len() + 1) / 2) as nat, |j: int| parent_digest(level, j))
}

/// All levels of the tree over `leaves`, bottom-up: level 0 is the leaves
/// verbatim, each further level halves the one below, and the last level has
/// a single entry, the root.
pub open spec fn tree_levels_spec(leaves: Seq<Seq<u8>>) -> Seq<Seq<Seq<u8>>>
    decreases leaves.len(),
{
    if leaves.len() <= 1 {
        seq![leaves]
    } else {
        seq![leaves] + tree_levels_spec(next_level_spec(leaves))
    }
}

/// The number of hash operations performed while building a tree over
/// `count` leaves: one per parent digest produced.
pub open spec fn build_ops(count: nat) -> nat
    decreases count,
{
    if count <= 1 {
        0
    } else {
        (count + 1) / 2 + build_ops((count + 1) / 2)
    }
}

/// A built tree: an ordered sequence of levels, level 0 the leaves, the last
/// level the single root. Produced once by `build_merkle_tree` and never
/// mutated afterwards.
#[derive(Debug)]
pub struct MerkleTree {
    pub levels: Vec<Vec<Vec<u8>>>,
}

impl View for MerkleTree {
    type V = Seq<Seq<Seq<u8>>>;

    open spec fn view(&self) -> Seq<Seq<Seq<u8>>> {
        self.levels.deep_view()
    }
}

impl MerkleTree {
    /// The tree is exactly the level stack that building from its own level 0
    /// produces, over at least one leaf.
    pub open spec fn well_formed(self) -> bool {
        &&& self@.len() >= 1
        &&& self@[0].len() >= 1
        &&& self@ == tree_levels_spec(self@[0])
    }

    /// The leaves the tree was built over.
    pub open spec fn leaves(self) -> Seq<Seq<u8>> {
        self@[0]
    }

    /// The number of leaves.
    pub open spec fn spec_leaf_count(self) -> nat {
        self@[0].len()
    }

    /// The root digest: the single entry of the last level.
    pub open spec fn spec_root(self) -> Seq<u8> {
        self@.last()[0]
    }
}

/// Whether the node at `idx` of a level has a recorded sibling: a node at an
/// odd index always has one at `idx - 1`; a node at an even index has one
/// only when `idx + 1` is still within the level (otherwise the node is
/// paired with itself during the build and the proof records nothing).
pub open spec fn sibling_exists(level: Seq<Seq<u8>>, idx: int) -> bool {
    idx % 2 == 1 || idx + 1 < level.len()
}

/// The proof entries contributed by one level for the node at `idx`: one
/// entry naming the sibling digest and its side, or none in the self-paired
/// case.
pub open spec fn entry_at(level: Seq<Seq<u8>>, idx: int) -> Seq<(Seq<u8>, SiblingSide)> {
    if idx % 2 == 0 {
        if idx + 1 < level.len() {
            seq![(level[idx + 1], SiblingSide::Right)]
        } else {
            Seq::empty()
        }
    } else {
        seq![(level[idx - 1], SiblingSide::Left)]
    }
}

/// The proof entries gathered from level `k` upward for the node at `idx` of
/// level `k`, the walked index halving at each level, the root level
/// contributing nothing.
pub open spec fn proof_from(levels: Seq<Seq<Seq<u8>>>, k: int, idx: int) -> Seq<
    (Seq<u8>, SiblingSide),
>
    decreases levels.len() - k,
{
    if k < 0 || k >= levels.len() - 1 {
        Seq::empty()
    } else {
        entry_at(levels[k], idx) + proof_from(levels, k + 1, idx / 2)
    }
}

/// The whole inclusion proof for the leaf at `idx`: the entries gathered
/// from level 0 upward.
pub open spec fn proof_spec(levels: Seq<Seq<Seq<u8>>>, idx: int) -> Seq<(Seq<u8>, SiblingSide)> {
    proof_from(levels, 0, idx)
}

/// One verification step: the accumulated value is hashed as the left
/// operand when the sibling is on the right, and as the right operand when
/// the sibling is on the left.
pub open spec fn combine(current: Seq<u8>, entry: (Seq<u8>, SiblingSide)) -> Seq<u8> {
    match entry.1 {
        SiblingSide::Right => sha256_of(current + entry.0),
        SiblingSide::Left => sha256_of(entry.0 + current),
    }
}

/// The value a verifier accumulates from `leaf` after consuming all proof
/// entries in order.
pub open spec fn fold_proof(leaf: Seq<u8>, entries: Seq<(Seq<u8>, SiblingSide)>) -> Seq<u8>
    decreases entries.len(),
{
    if entries.len() == 0 {
        leaf
    } else {
        fold_proof(combine(leaf, entries[0]), entries.drop_first())
    }
}

/// For byte vectors the deep view coincides with the plain view.
proof fn lemma_bytes_deep_view(v: Vec<u8>)
    ensures
        v.deep_view() == v@,
{
    assert(v.deep_view() =~= v@);
}

/// The levels of a tree over at least one leaf: level 0 is the leaves, every
/// level below the top has at least two entries and is followed by exactly
/// the level that `next_level_spec` gives, every level is non-empty, and the
/// top level has a single entry.
pub proof fn lemma_tree_shape(leaves: Seq<Seq<u8>>)
    requires
        leaves.len() >= 1,
    ensures
        tree_levels_spec(leaves).len() >= 1,
        tree_levels_spec(leaves)[0] == leaves,
        tree_levels_spec(leaves).last().len() == 1,
        forall|k: int|
            0 <= k < tree_levels_spec(leaves).len() - 1 ==> (#[trigger] tree_levels_spec(
                leaves,
            )[k]).len() >= 2,
        forall|k: int|
            0 <= k < tree_levels_spec(leaves).len() - 1 ==> tree_levels_spec(leaves)[k + 1]
                == next_level_spec(#[trigger] tree_levels_spec(leaves)[k]),
        forall|k: int|
            0 <= k < tree_levels_spec(leaves).len() ==> (#[trigger] tree_levels_spec(
                leaves,
            )[k]).len() >= 1,
    decreases leaves.len(),
{
    let levels = tree_levels_spec(leaves);
    if leaves.len() <= 1 {
        assert(levels =~= seq![leaves]);
    } else {
        let next = next_level_spec(leaves);
        assert(next.len() == (leaves.len() + 1) / 2);
        assert(1 <= next.len() < leaves.len());
        lemma_tree_shape(next);
        let rest = tree_levels_spec(next);
        assert(levels =~= seq![leaves] + rest);
        assert(levels.last() == rest.last());
        assert forall|k: int| 0 <= k < levels.len() - 1 implies (#[trigger] levels[k]).len()
            >= 2 by {
            if k >= 1 {
                assert(levels[k] == rest[k - 1]);
            }
        }
        assert forall|k: int| 0 <= k < levels.len() - 1 implies levels[k + 1] == next_level_spec(
            #[trigger] levels[k],
        ) by {
            if k == 0 {
                assert(levels[1] == rest[0]);
                assert(rest[0] == next);
            } else {
                assert(levels[k] == rest[k - 1]);
                assert(levels[k + 1] == rest[k]);
            }
        }
        assert forall|k: int| 0 <= k < levels.len() implies (#[trigger] levels[k]).len() >= 1 by {
            if k >= 1 {
                assert(levels[k] == rest[k - 1]);
            }
        }
    }
}

/// The hash-operation count of a build never exceeds twice the leaf count
/// less two.
pub proof fn lemma_build_ops_bound(count: nat)
    requires
        count >= 1,
    ensures
        build_ops(count) <= 2 * count - 2,
    decreases count,
{
    if count > 1 {
        let half = ((count + 1) / 2) as nat;
        assert(1 <= half < count);
        lemma_build_ops_bound(half);
    }
}

/// Build the complete hash tree over `leaves`, bottom-up, and count one hash
/// operation per parent digest produced. Level 0 is the leaves verbatim and
/// is never hashed; a single-leaf input yields a one-level tree and a count
/// of zero. Zero leaves are rejected with `EmptyInput`.
pub fn build_merkle_tree(leaves: &Vec<Vec<u8>>) -> (result: Result<(MerkleTree, usize), MerkleError>)
    requires
        2 * leaves@.len() <= usize::MAX,
    ensures
        match result {
            Ok(r) => {
                &&& leaves@.len() >= 1
                &&& r.0.well_formed()
                &&& r.0.leaves() == leaves.deep_view()
                &&& r.0@ == tree_levels_spec(leaves.deep_view())
                &&& r.1 == build_ops(leaves@.len() as nat)
            },
            Err(e) => {
                &&& e == MerkleError::EmptyInput
                &&& leaves@.len() == 0
            },
        },
{
    broadcast use vstd::std_specs::vec::vec_clone_deep_view_proof;

    if leaves.len() == 0 {
        return Err(MerkleError::EmptyInput);
    }
    let ghost ldv: Seq<Seq<u8>> = leaves.deep_view();
    let ghost n: nat = ldv.len();
    proof {
        lemma_build_ops_bound(n);
    }
    let mut levels: Vec<Vec<Vec<u8>>> = Vec::new();
    let first: Vec<Vec<u8>> = leaves.clone();
    assert(first.deep_view() == ldv);
    levels.push(first);
    proof {
        assert(levels.deep_view() =~= seq![ldv]);
        assert(levels.deep_view().drop_last() + tree_levels_spec(ldv) =~= tree_levels_spec(ldv));
    }
    let mut count: usize = 0;
    while levels[levels.len() - 1].len() > 1
        invariant
            2 * n <= usize::MAX,
            n == ldv.len(),
            n >= 1,
            levels@.len() >= 1,
            levels.deep_view()[0] == ldv,
            levels.deep_view().last().len() >= 1,
            levels.deep_view().last().len() <= n,
            tree_levels_spec(ldv) == levels.deep_view().drop_last() + tree_levels_spec(
                levels.deep_view().last(),
            ),
            count + build_ops(levels.deep_view().last().len()) == build_ops(n),
        decreases levels.deep_view().last().len(),
    {
        let li: usize = levels.len() - 1;
        let cur_len: usize = levels[li].len();
        let ghost cur: Seq<Seq<u8>> = levels.deep_view().last();
        proof {
            assert(cur == levels@[li as int].deep_view());
            assert(cur.len() == levels@[li as int]@.len());
            lemma_build_ops_bound(n);
        }
        let mut next: Vec<Vec<u8>> = Vec::new();
        let mut i: usize = 0;
        while i < cur_len
            invariant
                2 * n <= usize::MAX,
                cur_len == cur.len(),
                2 <= cur_len <= n,
                li < levels@.len(),
                cur == levels@[li as int].deep_view(),
                cur_len == levels@[li as int]@.len(),
                i % 2 == 0,
                i <= cur_len + 1,
                next.deep_view() == next_level_spec(cur).take(i as int / 2),
                count + (cur_len + 1) / 2 - i / 2 + build_ops(((cur_len + 1) / 2) as nat)
                    == build_ops(n),
                build_ops(n) <= 2 * n - 2,
            decreases cur_len + 1 - i,
        {
            let ri: usize = if i + 1 < cur_len {
                i + 1
            } else {
                i
            };
            let digest = hash_pair(&levels[li][i], &levels[li][ri]);
            proof {
                lemma_bytes_deep_view(levels@[li as int]@[i as int]);
                lemma_bytes_deep_view(levels@[li as int]@[ri as int]);
                assert(cur[i as int] == levels@[li as int]@[i as int]@);
                assert(cur[ri as int] == levels@[li as int]@[ri as int]@);
                assert(digest@ == parent_digest(cur, i as int / 2));
            }
            let ghost next_before = next.deep_view();
            next.push(digest);
            proof {
                lemma_bytes_deep_view(digest);
                assert(next.deep_view() =~= next_before.push(digest@));
                assert(next.deep_view() =~= next_level_spec(cur).take(i as int / 2 + 1));
            }
            count = count + 1;
            i = i + 2;
        }
        proof {
            assert(i as int / 2 == (cur_len + 1) as int / 2);
            assert(next.deep_view() =~= next_level_spec(cur));
        }
        let ghost levels_before = levels.deep_view();
        proof {
            assert(cur.len() >= 2);
            assert(tree_levels_spec(cur) == seq![cur] + tree_levels_spec(next_level_spec(cur)));
        }
        levels.push(next);
        proof {
            assert(levels.deep_view() =~= levels_before.push(next_level_spec(cur)));
            assert(levels.deep_view().last() == next_level_spec(cur));
            assert(levels.deep_view().drop_last() =~= levels_before);
            assert(levels_before.drop_last() + tree_levels_spec(cur) =~= levels_before.drop_last()
                + seq![cur] + tree_levels_spec(next_level_spec(cur)));
            assert(levels_before.drop_last() + seq![cur] =~= levels_before);
            assert(tree_levels_spec(ldv) == levels.deep_view().drop_last() + tree_levels_spec(
                levels.deep_view().last(),
            ));
        }
    }
    proof {
        let dv = levels.deep_view();
        assert(dv.last().len() == 1);
        assert(tree_levels_spec(dv.last()) == seq![dv.last()]);
        assert(dv.drop_last() + seq![dv.last()] =~= dv);
        assert(tree_levels_spec(ldv) == dv);
    }
    let tree = MerkleTree { levels };
    Ok((tree, count))
}

/// Appending one step extends a proof's mathematical content by the step's.
proof fn lemma_steps_view_push(steps: Seq<ProofStep>, s: ProofStep)
    ensures
        steps_view(steps.push(s)) == steps_view(steps) + seq![s.view_step()],
{
    assert(steps_view(steps.push(s)) =~= steps_view(steps) + seq![s.view_step()]);
}

/// Gathering proof entries from level `k` prepends that level's entry to the
/// gathering from level `k + 1`, also after a common prefix.
proof fn lemma_proof_from_step(
    levels: Seq<Seq<Seq<u8>>>,
    k: int,
    idx: int,
    before: Seq<(Seq<u8>, SiblingSide)>,
)
    requires
        0 <= k < levels.len() - 1,
    ensures
        before + proof_from(levels, k, idx) == (before + entry_at(levels[k], idx)) + proof_from(
            levels,
            k + 1,
            idx / 2,
        ),
{
    assert(before + proof_from(levels, k, idx) =~= (before + entry_at(levels[k], idx))
        + proof_from(levels, k + 1, idx / 2));
}

/// In a well-formed tree each level below the top is followed by exactly the
/// level that `next_level_spec` gives, and a walked index stays in bounds
/// when halved.
proof fn lemma_tree_step(tree: MerkleTree, k: int, idx: int)
    requires
        tree.well_formed(),
        0 <= k < tree@.len() - 1,
        0 <= idx < tree@[k].len(),
    ensures
        tree@[k + 1] == next_level_spec(tree@[k]),
        0 <= idx / 2 < tree@[k + 1].len(),
{
    lemma_tree_shape(tree@[0]);
}

/// Generate the inclusion proof for the leaf at `leaf_index`: walking from
/// level 0 up to (but excluding) the root level, record the sibling digest
/// and its side at each level, skipping the levels where the walked node was
/// paired with itself, and halve the index. An index at or past the leaf
/// count is rejected with `IndexOutOfRange`.
#[verifier::rlimit(100)]
pub fn generate_proof(tree: &MerkleTree, leaf_index: usize) -> (result: Result<
    Vec<ProofStep>,
    MerkleError,
>)
    requires
        tree.well_formed(),
    ensures
        match result {
            Ok(p) => {
                &&& leaf_index < tree.spec_leaf_count()
                &&& steps_view(p@) == proof_spec(tree@, leaf_index as int)
            },
            Err(e) => {
                &&& e == MerkleError::IndexOutOfRange
                &&& leaf_index >= tree.spec_leaf_count()
            },
        },
{
    proof {
        lemma_tree_shape(tree@[0]);
    }
    if leaf_index >= tree.levels[0].len() {
        return Err(MerkleError::IndexOutOfRange);
    }
    let height: usize = tree.levels.len();
    let mut steps: Vec<ProofStep> = Vec::new();
    let mut cur: usize = leaf_index;
    let mut k: usize = 0;
    proof {
        assert(steps_view(steps@) =~= Seq::<(Seq<u8>, SiblingSide)>::empty());
        assert(steps_view(steps@) + proof_from(tree@, 0, leaf_index as int) =~= proof_spec(
            tree@,
            leaf_index as int,
        ));
    }
    while k < height - 1
        invariant
            tree.well_formed(),
            height == tree@.len(),
            k < height,
            cur < tree@[k as int].len(),
            steps_view(steps@) + proof_from(tree@, k as int, cur as int) == proof_spec(
                tree@,
                leaf_index as int,
            ),
        decreases height - k,
    {
        let ghost level_spec: Seq<Seq<u8>> = tree@[k as int];
        let ghost before: Seq<(Seq<u8>, SiblingSide)> = steps_view(steps@);
        proof {
            lemma_tree_step(*tree, k as int, cur as int);
            assert(level_spec == tree.levels@[k as int].deep_view());
        }
        let level = &tree.levels[k];
        if cur % 2 == 0 {
            if cur + 1 < level.len() {
                let ghost pre = steps@;
                let step = ProofStep {
                    sibling: copy_bytes(&level[cur + 1]),
                    side: SiblingSide::Right,
                };
                proof {
                    lemma_bytes_deep_view(level@[cur + 1]);
                }
                steps.push(step);
                proof {
                    lemma_steps_view_push(pre, step);
                    assert(entry_at(level_spec, cur as int) =~= seq![step.view_step()]);
                }
            } else {
                proof {
                    assert(before + entry_at(level_spec, cur as int) =~= before);
                }
            }
        } else {
            let ghost pre = steps@;
            let step = ProofStep {
                sibling: copy_bytes(&level[cur - 1]),
                side: SiblingSide::Left,
            };
            proof {
                lemma_bytes_deep_view(level@[cur as int - 1]);
            }
            steps.push(step);
            proof {
                lemma_steps_view_push(pre, step);
                assert(entry_at(level_spec, cur as int) =~= seq![step.view_step()]);
            }
        }
        proof {
            assert(steps_view(steps@) == before + entry_at(level_spec, cur as int));
            lemma_proof_from_step(tree@, k as int, cur as int, before);
        }
        cur = cur / 2;
        k = k + 1;
    }
    proof {
        assert(proof_from(tree@, k as int, cur as int) =~= Seq::<(Seq<u8>, SiblingSide)>::empty());
        assert(steps_view(steps@) + proof_from(tree@, k as int, cur as int) =~= steps_view(steps@));
    }
    Ok(steps)
}

/// Recompute the path from `leaf` through `proof` and compare the result to
/// `root`, reporting the byte-for-byte match and the number of hash
/// operations performed (one per proof entry).
pub fn verify_proof(leaf: &Vec<u8>, proof: &Vec<ProofStep>, root: &Vec<u8>) -> (r: (bool, usize))
    ensures
        r.0 == (fold_proof(leaf@, steps_view(proof@)) == root@),
        r.1 == proof@.len(),
{
    let mut current = copy_bytes(leaf);
    let mut ops: usize = 0;
    let mut k: usize = 0;
    proof {
        assert(steps_view(proof@).skip(0) =~= steps_view(proof@));
    }
    while k < proof.len()
        invariant
            k <= proof@.len(),
            ops == k,
            fold_proof(current@, steps_view(proof@).skip(k as int)) == fold_proof(
                leaf@,
                steps_view(proof@),
            ),
        decreases proof@.len() - k,
    {
        let step = &proof[k];
        let next = match step.side {
            SiblingSide::Right => hash_pair(&current, &step.sibling),
            SiblingSide::Left => hash_pair(&step.sibling, &current),
        };
        proof {
            let entries = steps_view(proof@);
            assert(entries[k as int] == (step.sibling@, step.side));
            assert(entries.skip(k as int)[0] == entries[k as int]);
            assert(entries.skip(k as int).drop_first() =~= entries.skip(k as int + 1));
            assert(next@ == combine(current@, entries[k as int]));
        }
        current = next;
        ops = ops + 1;
        k = k + 1;
    }
    proof {
        assert(steps_view(proof@).skip(proof@.len() as int) =~= Seq::<(Seq<u8>, SiblingSide)>::empty());
    }
    let matches = bytes_eq(&current, root);
    (matches, ops)
}

impl MerkleTree {
    /// The root digest of a built tree: the single entry of its last level.
    pub fn root(&self) -> (r: &Vec<u8>)
        requires
            self.well_formed(),
        ensures
            r@ == self.spec_root(),
    {
        proof {
            lemma_tree_shape(self@[0]);
            assert(self@.last() == self.levels@[self@.len() - 1].deep_view());
        }
        let li: usize = self.levels.len() - 1;
        proof {
            lemma_bytes_deep_view(self.levels@[li as int]@[0]);
        }
        &self.levels[li][0]
    }
}

/// Coerce a root digest to the fixed 32-byte form the output-packaging
/// boundary needs. A digest of any other length is rejected with
/// `MalformedRoot` instead of being padded or truncated.
pub fn root_bytes32(root: &Vec<u8>) -> (result: Result<[u8; 32], MerkleError>)
    ensures
        match result {
            Ok(out) => {
                &&& root@.len() == 32
                &&& out@ == root@
            },
            Err(e) => {
                &&& e == MerkleError::MalformedRoot
                &&& root@.len() != 32
            },
        },
{
    broadcast use vstd::array::group_array_axioms;

    if root.len() != 32 {
        return Err(MerkleError::MalformedRoot);
    }
    let mut out: [u8; 32] = [0; 32];
    let mut i: usize = 0;
    while i < 32
        invariant
            root@.len() == 32,
            i <= 32,
            forall|j: int| 0 <= j < i ==> out@[j] == root@[j],
        decreases 32 - i,
    {
        out[i] = root[i];
        i = i + 1;
    }
    proof {
        assert(out@ =~= root@);
    }
    Ok(out)
}

} // verus!
