//! The Merkle tree itself: construction from data blocks, proof
//! generation, proof verification, and append.

use crate::hashing::{concat_digests, digests_equal, hash, hash_block, pair_hash, sha3_of, HashedData};
use crate::model::{
    build_levels, climb, digests_view, leaf_hashes, lemma_build_levels_shape, lemma_level_index_step,
    lemma_path_recomputes_root, lemma_proof_entry, lemma_proof_len, level_index, levels_view,
    parent_level, proof_digests, proof_positions, root_of, sibling_index,
};
use vstd::prelude::*;

verus! {

/// The ways an operation can fail: construction from no blocks at all,
/// and a proof request for a block whose digest is not among the leaves.
#[derive(Clone, Copy, Debug, PartialEq, Eq, Structural)]
pub enum MerkleError {
    EmptyInputError,
    NotFoundError,
}

/// This struct contains the MerkleTree. This is a tree that has n levels:
/// the first level contains the digests of the original data blocks,
/// whilst every other level contains the combined digests of consecutive
/// pairs of the level below it. A digest without a right neighbour is
/// combined with itself.
#[derive(Debug)]
pub struct MerkleTree {
    leaves: Vec<Vec<HashedData>>,
}

impl View for MerkleTree {
    type V = Seq<Seq<Seq<u8>>>;

    closed spec fn view(&self) -> Seq<Seq<Seq<u8>>> {
        levels_view(self.leaves@)
    }
}

/// Combines two child digests into their parent digest.
fn combine(left: &HashedData, right: &HashedData) -> (r: HashedData)
    ensures
        r@ == pair_hash(left@, right@),
{
    let mut pair: Vec<HashedData> = Vec::new();
    pair.push(*left);
    pair.push(*right);
    let r = hash(pair.as_slice());
    proof {
        assert(pair@ =~= seq![*left, *right]);
        assert(pair@.drop_first() =~= seq![*right]);
        assert(pair@.drop_first().drop_first() =~= Seq::<HashedData>::empty());
        assert(concat_digests(pair@.drop_first().drop_first()) == Seq::<u8>::empty());
        assert(concat_digests(pair@.drop_first()) == right@ + Seq::<u8>::empty());
        assert(concat_digests(pair@) =~= left@ + right@);
    }
    r
}

/// Finds the position of the first digest in a level that equals the
/// target, scanning left to right.
fn find_first(level: &Vec<HashedData>, target: &HashedData) -> (position: Option<usize>)
    ensures
        position is Some <==> exists|i: int|
            0 <= i < level@.len() && digests_view(level@)[i] == target@,
        position matches Some(i) ==> i < level@.len() && digests_view(level@)[i as int] == target@
            && forall|j: int| 0 <= j < i ==> digests_view(level@)[j] != target@,
{
    let mut i: usize = 0;
    while i < level.len()
        invariant
            i <= level@.len(),
            forall|j: int| 0 <= j < i ==> digests_view(level@)[j] != target@,
        decreases level@.len() - i,
    {
        if digests_equal(&level[i], target) {
            proof {
                assert(digests_view(level@)[i as int] == target@);
            }
            return Some(i);
        }
        i += 1;
    }
    None
}

impl MerkleTree {
    /// A well-formed tree: at least one leaf digest, and exactly the
    /// levels that the construction algorithm stacks over its leaf level.
    pub open spec fn wf(self) -> bool {
        &&& self@.len() >= 1
        &&& self@[0].len() >= 1
        &&& self@ == build_levels(self@[0])
    }

    /// This auxiliary function is used to generate MerkleTree's internal
    /// structure given a vector of hashed blocks. These blocks will serve
    /// as the foundation of the MerkleTree: they remain in the bottom
    /// vector, and levels are stacked above them until one holds a single
    /// digest.
    pub fn generate_tree(initial_hashes: Vec<HashedData>) -> (tree: Vec<Vec<HashedData>>)
        requires
            initial_hashes@.len() >= 1,
        ensures
            levels_view(tree@) == build_levels(digests_view(initial_hashes@)),
    {
        let ghost leaves0 = digests_view(initial_hashes@);
        let mut tree: Vec<Vec<HashedData>> = Vec::new();
        tree.push(initial_hashes);
        proof {
            assert(levels_view(tree@).drop_last() =~= Seq::<Seq<Seq<u8>>>::empty());
            assert(digests_view(tree@.last()@) =~= leaves0);
            assert(levels_view(tree@).drop_last() + build_levels(digests_view(tree@.last()@))
                =~= build_levels(leaves0));
        }
        while tree[tree.len() - 1].len() > 1
            invariant
                tree@.len() >= 1,
                tree@.last()@.len() >= 1,
                levels_view(tree@).drop_last() + build_levels(digests_view(tree@.last()@))
                    == build_levels(leaves0),
            decreases tree@.last()@.len(),
        {
            let n = tree.len();
            let cur_len = tree[n - 1].len();
            let ghost cur = digests_view(tree@.last()@);
            assert(cur.len() == cur_len);
            let half = cur_len / 2;
            let mut next: Vec<HashedData> = Vec::new();
            let mut i: usize = 0;
            while i < half
                invariant
                    tree@.len() == n >= 1,
                    cur == digests_view(tree@.last()@),
                    cur_len == cur.len(),
                    half == cur_len / 2,
                    i <= half,
                    next@.len() == i,
                    forall|p: int| 0 <= p < i ==> #[trigger] next@[p]@ == parent_level(cur)[p],
                decreases half - i,
            {
                let left = tree[n - 1][2 * i];
                let right = tree[n - 1][2 * i + 1];
                let h = combine(&left, &right);
                proof {
                    assert(left@ == cur[2 * i]);
                    assert(right@ == cur[2 * i + 1]);
                    assert(parent_level(cur)[i as int] == pair_hash(cur[2 * i], cur[2 * i + 1]));
                }
                next.push(h);
                i += 1;
            }
            if cur_len % 2 == 1 {
                let last = tree[n - 1][cur_len - 1];
                let h = combine(&last, &last);
                proof {
                    assert(last@ == cur[cur_len - 1]);
                    assert(2 * (half as int) == cur_len - 1);
                    assert(parent_level(cur)[half as int] == pair_hash(
                        cur[cur_len - 1],
                        cur[cur_len - 1],
                    ));
                }
                next.push(h);
            }
            proof {
                assert(next@.len() == (cur.len() + 1) / 2);
                assert(digests_view(next@) =~= parent_level(cur));
            }
            let ghost pre = tree@;
            tree.push(next);
            proof {
                assert(tree@ == pre.push(next));
                assert(tree@.last() == next);
                assert(levels_view(tree@).drop_last() =~= levels_view(pre));
                assert(levels_view(pre) =~= levels_view(pre).drop_last() + seq![cur]);
                assert(cur.len() >= 2);
                assert(build_levels(cur) == seq![cur] + build_levels(parent_level(cur)));
                assert(levels_view(tree@).drop_last() + build_levels(digests_view(tree@.last()@))
                    =~= (levels_view(pre).drop_last() + seq![cur]) + build_levels(
                    parent_level(cur),
                ));
                assert((levels_view(pre).drop_last() + seq![cur]) + build_levels(
                    parent_level(cur),
                ) =~= levels_view(pre).drop_last() + (seq![cur] + build_levels(
                    parent_level(cur),
                )));
                assert(levels_view(tree@).drop_last() + build_levels(digests_view(tree@.last()@))
                    == build_levels(leaves0));
            }
        }
        proof {
            let cur = digests_view(tree@.last()@);
            assert(cur.len() == 1);
            assert(build_levels(cur) == seq![cur]);
            assert(levels_view(tree@) =~= levels_view(tree@).drop_last() + seq![cur]);
        }
        tree
    }

    /// This function creates the entire MerkleTree over the given data
    /// blocks. A tree over no blocks at all is refused.
    pub fn new(data: &Vec<Vec<u8>>) -> (result: Result<MerkleTree, MerkleError>)
        ensures
            result is Ok <==> data@.len() >= 1,
            result matches Err(e) ==> e == MerkleError::EmptyInputError,
            result matches Ok(tree) ==> tree.wf() && tree@[0] == leaf_hashes(data@) && tree@
                == build_levels(leaf_hashes(data@)),
    {
        if data.len() == 0 {
            return Err(MerkleError::EmptyInputError);
        }
        let mut initial_blocks: Vec<HashedData> = Vec::new();
        let mut i: usize = 0;
        while i < data.len()
            invariant
                i <= data@.len(),
                initial_blocks@.len() == i,
                forall|j: int| 0 <= j < i ==> #[trigger] initial_blocks@[j]@ == sha3_of(data@[j]@),
            decreases data@.len() - i,
        {
            let h = hash_block(&data[i]);
            initial_blocks.push(h);
            i += 1;
        }
        proof {
            assert(digests_view(initial_blocks@) =~= leaf_hashes(data@));
        }
        let tree = Self::generate_tree(initial_blocks);
        let result = MerkleTree { leaves: tree };
        proof {
            lemma_build_levels_shape(leaf_hashes(data@));
            assert(result@[0] == leaf_hashes(data@));
        }
        Ok(result)
    }

    /// The root digest: the single digest of the top level, committing to
    /// the entire data set.
    pub fn get_root(&self) -> (root: HashedData)
        requires
            self.wf(),
        ensures
            root@ == root_of(self@),
    {
        proof {
            lemma_build_levels_shape(self@[0]);
            assert(self@.last().len() == 1);
            assert(self@.last() == digests_view(self.leaves@.last()@));
        }
        self.leaves[self.leaves.len() - 1][0]
    }

    /// This function generates a proof for a given element of the
    /// MerkleTree. If the element is not present in the MerkleTree it
    /// will return `NotFoundError`. The returned vector contains both the
    /// position of each sibling in its respective level and the actual
    /// digest; the position can always be ignored with `(_, digest)`.
    pub fn generate_proof_internal(&self, elem: &Vec<u8>) -> (result: Result<
        (usize, Vec<(usize, HashedData)>),
        MerkleError,
    >)
        requires
            self.wf(),
        ensures
            result is Ok <==> exists|i: int|
                0 <= i < self@[0].len() && self@[0][i] == sha3_of(elem@),
            result matches Err(e) ==> e == MerkleError::NotFoundError,
            result matches Ok((index, entries)) ==> {
                &&& index < self@[0].len()
                &&& self@[0][index as int] == sha3_of(elem@)
                &&& forall|j: int| 0 <= j < index ==> self@[0][j] != sha3_of(elem@)
                &&& entries@.len() == self@.len() - 1
                &&& Seq::new(entries@.len(), |j: int| entries@[j].0 as int) == proof_positions(
                    self@,
                    index as int,
                )
                &&& Seq::new(entries@.len(), |j: int| entries@[j].1@) == proof_digests(
                    self@,
                    index as int,
                )
            },
    {
        let target = hash_block(elem);
        proof {
            assert(digests_view(self.leaves@[0]@) == self@[0]);
        }
        let position = find_first(&self.leaves[0], &target);
        match position {
            None => Err(MerkleError::NotFoundError),
            Some(og_index) => {
                let num_levels = self.leaves.len();
                proof {
                    lemma_build_levels_shape(self@[0]);
                    lemma_proof_len(self@, og_index as int);
                }
                let mut entries: Vec<(usize, HashedData)> = Vec::new();
                let mut index = og_index;
                let mut j: usize = 0;
                while j < num_levels - 1
                    invariant
                        self.wf(),
                        num_levels == self@.len(),
                        j <= num_levels - 1,
                        index as int == level_index(og_index as int, j as int),
                        index < self@[j as int].len(),
                        entries@.len() == j,
                        forall|p: int|
                            0 <= p < j ==> (#[trigger] entries@[p]).0 as int == sibling_index(
                                level_index(og_index as int, p),
                                self@[p].len() as int,
                            ),
                        forall|p: int|
                            0 <= p < j ==> (#[trigger] entries@[p]).1@ == self@[p][sibling_index(
                                level_index(og_index as int, p),
                                self@[p].len() as int,
                            )],
                    decreases num_levels - 1 - j,
                {
                    proof {
                        lemma_build_levels_shape(self@[0]);
                        assert(self@[j as int] == digests_view(self.leaves@[j as int]@));
                    }
                    let level_len = self.leaves[j].len();
                    if index % 2 == 0 {
                        if index + 1 < level_len {
                            entries.push((index + 1, self.leaves[j][index + 1]));
                        } else {
                            entries.push((index, self.leaves[j][index]));
                        }
                    } else {
                        entries.push((index - 1, self.leaves[j][index - 1]));
                    }
                    proof {
                        lemma_level_index_step(og_index as int, j as int);
                        assert(self@[j as int + 1] == parent_level(self@[j as int]));
                        assert(self@[j as int + 1].len() == (self@[j as int].len() + 1) / 2);
                    }
                    index = index / 2;
                    j += 1;
                }
                proof {
                    assert forall|p: int| 0 <= p < entries@.len() implies (
                    #[trigger] entries@[p]).0 as int == proof_positions(self@, og_index as int)[p]
                        && entries@[p].1@ == proof_digests(self@, og_index as int)[p] by {
                        lemma_proof_entry(self@, og_index as int, p);
                    }
                    assert(Seq::new(entries@.len(), |j: int| entries@[j].0 as int)
                        =~= proof_positions(self@, og_index as int));
                    assert(Seq::new(entries@.len(), |j: int| entries@[j].1@) =~= proof_digests(
                        self@,
                        og_index as int,
                    ));
                }
                Ok((og_index, entries))
            },
        }
    }

    /// This function is a wrapper over
    /// [`MerkleTree::generate_proof_internal()`] to make calling the
    /// function more convenient. This filters out the positions kept for
    /// debugging and returns the sibling digests alone, together with the
    /// element's index in the leaf level.
    pub fn generate_proof(&self, elem: &Vec<u8>) -> (result: Result<
        (usize, Vec<HashedData>),
        MerkleError,
    >)
        requires
            self.wf(),
        ensures
            result is Ok <==> exists|i: int|
                0 <= i < self@[0].len() && self@[0][i] == sha3_of(elem@),
            result matches Err(e) ==> e == MerkleError::NotFoundError,
            result matches Ok((index, proof)) ==> {
                &&& index < self@[0].len()
                &&& self@[0][index as int] == sha3_of(elem@)
                &&& forall|j: int| 0 <= j < index ==> self@[0][j] != sha3_of(elem@)
                &&& proof@.len() == self@.len() - 1
                &&& digests_view(proof@) == proof_digests(self@, index as int)
            },
    {
        match self.generate_proof_internal(elem) {
            Err(e) => Err(e),
            Ok((index, entries)) => {
                let mut proof: Vec<HashedData> = Vec::new();
                let mut i: usize = 0;
                while i < entries.len()
                    invariant
                        i <= entries@.len(),
                        proof@.len() == i,
                        forall|p: int| 0 <= p < i ==> #[trigger] proof@[p] == entries@[p].1,
                    decreases entries@.len() - i,
                {
                    let entry = entries[i];
                    proof.push(entry.1);
                    i += 1;
                }
                proof {
                    assert(digests_view(proof@) =~= Seq::new(
                        entries@.len(),
                        |j: int| entries@[j].1@,
                    ));
                }
                Ok((index, proof))
            },
        }
    }

    /// This function receives a proof (generated by
    /// [`MerkleTree::generate_proof()`] for example), the raw bytes of
    /// the candidate block, the leaf's claimed index and a trusted root
    /// digest, and states whether the proof recomputes that root. The
    /// root is an explicit parameter so that verification needs no tree
    /// instance, only a previously recorded root.
    pub fn verify(proof: Vec<HashedData>, check: &Vec<u8>, index: usize, root: HashedData) -> (valid:
        bool)
        ensures
            valid == (climb(digests_view(proof@), sha3_of(check@), index as int) == root@),
    {
        let mut accumulated_hash = hash_block(check);
        let mut element_index = index;
        let ghost path = digests_view(proof@);
        let mut i: usize = 0;
        proof {
            assert(path.skip(0) =~= path);
        }
        while i < proof.len()
            invariant
                i <= proof@.len(),
                path == digests_view(proof@),
                climb(path, sha3_of(check@), index as int) == climb(
                    path.skip(i as int),
                    accumulated_hash@,
                    element_index as int,
                ),
            decreases proof@.len() - i,
        {
            let sibling = proof[i];
            proof {
                assert(path.skip(i as int)[0] == sibling@);
                assert(path.skip(i as int).drop_first() =~= path.skip(i as int + 1));
            }
            if element_index % 2 == 0 {
                accumulated_hash = combine(&accumulated_hash, &sibling);
            } else {
                accumulated_hash = combine(&sibling, &accumulated_hash);
            }
            element_index = element_index / 2;
            i += 1;
        }
        proof {
            assert(path.skip(proof@.len() as int) =~= Seq::<Seq<u8>>::empty());
        }
        digests_equal(&accumulated_hash, &root)
    }

    /// This function adds an element to the MerkleTree. Its digest is
    /// appended at the rightmost position of the leaf level, and every
    /// level above is rebuilt from scratch.
    pub fn add_element(&mut self, new_val: &Vec<u8>)
        requires
            old(self).wf(),
        ensures
            final(self).wf(),
            final(self)@[0] == old(self)@[0].push(sha3_of(new_val@)),
            final(self)@ == build_levels(old(self)@[0].push(sha3_of(new_val@))),
    {
        let ghost old_leaves = self@[0];
        proof {
            assert(old_leaves == digests_view(self.leaves@[0]@));
        }
        let new_value = hash_block(new_val);
        let first_level_len = self.leaves[0].len();
        let mut initial_blocks: Vec<HashedData> = Vec::new();
        let mut i: usize = 0;
        while i < first_level_len
            invariant
                first_level_len == old_leaves.len(),
                old_leaves == digests_view(self.leaves@[0]@),
                self.leaves@.len() >= 1,
                i <= first_level_len,
                initial_blocks@.len() == i,
                forall|j: int|
                    0 <= j < i ==> #[trigger] initial_blocks@[j]@ == old_leaves[j],
            decreases first_level_len - i,
        {
            let block = self.leaves[0][i];
            initial_blocks.push(block);
            i += 1;
        }
        initial_blocks.push(new_value);
        proof {
            assert(digests_view(initial_blocks@) =~= old_leaves.push(sha3_of(new_val@)));
        }
        let new_tree = Self::generate_tree(initial_blocks);
        self.leaves = new_tree;
        proof {
            lemma_build_levels_shape(old_leaves.push(sha3_of(new_val@)));
        }
    }

    /// How many levels the tree holds, leaf level and root level included.
    pub fn num_levels(&self) -> (n: usize)
        ensures
            n == self@.len(),
    {
        self.leaves.len()
    }
}

/// Generated proofs are sound for the tree that produced them: climbing
/// from the leaf digest at any position of the leaf level, with the
/// sibling path the tree yields for that position, recomputes the tree's
/// root. Together with the contracts of `generate_proof`, `get_root` and
/// `verify`, this says that `verify` accepts every proof that
/// `generate_proof` returns for a block whose digest stands in the tree.
pub proof fn lemma_generated_proof_verifies(tree: MerkleTree, k: int)
    requires
        tree.wf(),
        0 <= k < tree@[0].len(),
    ensures
        climb(proof_digests(tree@, k), tree@[0][k], k) == root_of(tree@),
{
    lemma_path_recomputes_root(tree@[0], k);
}

/// Root determinism: two well-formed trees over the same leaf level are
/// the same tree, level for level, root included.
pub proof fn lemma_root_determinism(a: MerkleTree, b: MerkleTree)
    requires
        a.wf(),
        b.wf(),
        a@[0] == b@[0],
    ensures
        a@ == b@,
        root_of(a@) == root_of(b@),
{
}

/// Append correctness: a well-formed tree whose leaf level is the old
/// leaf level extended with one digest holds that digest at its rightmost
/// leaf position, and the sibling path from any leaf position holding
/// that digest recomputes the new tree's root — so a freshly generated
/// proof for the appended block verifies against the new root.
pub proof fn lemma_append_proof_verifies(
    old_tree: MerkleTree,
    new_tree: MerkleTree,
    appended: Seq<u8>,
    k: int,
)
    requires
        old_tree.wf(),
        new_tree.wf(),
        new_tree@[0] == old_tree@[0].push(appended),
        0 <= k < new_tree@[0].len(),
        new_tree@[0][k] == appended,
    ensures
        new_tree@[0].last() == appended,
        climb(proof_digests(new_tree@, k), appended, k) == root_of(new_tree@),
{
    lemma_generated_proof_verifies(new_tree, k);
}

} // verus!
