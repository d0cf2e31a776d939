//! The mathematical model of the tree: levels as sequences of byte
//! sequences, the level-combination step, the sibling path of a leaf, and
//! the fold that recomputes a root from a leaf and such a path.

use crate::hashing::{pair_hash, sha3_of, HashedData};
use vstd::prelude::*;

verus! {

/// A sequence of digests, each viewed as its byte sequence.
pub open spec fn digests_view(digests: Seq<HashedData>) -> Seq<Seq<u8>> {
    Seq::new(digests.len(), |i: int| digests[i]@)
}

/// The levels of a tree held as vectors, each viewed mathematically.
pub open spec fn levels_view(levels: Seq<Vec<HashedData>>) -> Seq<Seq<Seq<u8>>> {
    Seq::new(levels.len(), |i: int| digests_view(levels[i]@))
}

/// The leaf digests of a sequence of data blocks, in order.
pub open spec fn leaf_hashes(blocks: Seq<Vec<u8>>) -> Seq<Seq<u8>> {
    Seq::new(blocks.len(), |i: int| sha3_of(blocks[i]@))
}

/// The level above `level`: consecutive pairs combined left to right, and
/// an odd trailing digest paired with itself.
pub open spec fn parent_level(level: Seq<Seq<u8>>) -> Seq<Seq<u8>> {
    Seq::new(
        (level.len() + 1) / 2,
        |i: int|
            if 2 * i + 1 < level.len() {
                pair_hash(level[2 * i], level[2 * i + 1])
            } else {
                pair_hash(level[2 * i], level[2 * i])
            },
    )
}

/// All levels of the tree over the given leaf level, bottom first: levels
/// are stacked until one holds a single digest, and a leaf level that is
/// already that short stands alone.
pub open spec fn build_levels(leaves: Seq<Seq<u8>>) -> Seq<Seq<Seq<u8>>>
    decreases leaves.len(),
{
    if leaves.len() <= 1 {
        seq![leaves]
    } else {
        seq![leaves] + build_levels(parent_level(leaves))
    }
}

/// The root: the single digest of the top level.
pub open spec fn root_of(levels: Seq<Seq<Seq<u8>>>) -> Seq<u8> {
    levels.last()[0]
}

/// The position of the sibling of position `i` in a level of length
/// `len`: the right neighbour for an even position, the position itself
/// when that neighbour does not exist, and the left neighbour for an odd
/// position.
pub open spec fn sibling_index(i: int, len: int) -> int {
    if i % 2 == 0 {
        if i + 1 < len {
            i + 1
        } else {
            i
        }
    } else {
        i - 1
    }
}

/// The sibling digests along the path from position `k` of the bottom
/// level to the root, bottom first; the root level contributes no entry.
pub open spec fn proof_digests(levels: Seq<Seq<Seq<u8>>>, k: int) -> Seq<Seq<u8>>
    decreases levels.len(),
{
    if levels.len() <= 1 {
        Seq::empty()
    } else {
        seq![levels[0][sibling_index(k, levels[0].len() as int)]] + proof_digests(
            levels.drop_first(),
            k / 2,
        )
    }
}

/// The positions of those siblings, level by level.
pub open spec fn proof_positions(levels: Seq<Seq<Seq<u8>>>, k: int) -> Seq<int>
    decreases levels.len(),
{
    if levels.len() <= 1 {
        Seq::empty()
    } else {
        seq![sibling_index(k, levels[0].len() as int)] + proof_positions(
            levels.drop_first(),
            k / 2,
        )
    }
}

/// The digest recomputed from a claimed leaf digest, its claimed position
/// and a sibling path: at each step the accumulated digest is combined
/// with the next path entry, on the side that the position selects, and
/// the position is halved.
pub open spec fn climb(path: Seq<Seq<u8>>, acc: Seq<u8>, k: int) -> Seq<u8>
    decreases path.len(),
{
    if path.len() == 0 {
        acc
    } else {
        climb(
            path.drop_first(),
            if k % 2 == 0 {
                pair_hash(acc, path[0])
            } else {
                pair_hash(path[0], acc)
            },
            k / 2,
        )
    }
}

/// The position, in level `j`, of the ancestor of bottom position `k`.
pub open spec fn level_index(k: int, j: int) -> int
    decreases j,
{
    if j <= 0 {
        k
    } else {
        level_index(k / 2, j - 1)
    }
}

/// The shape that `build_levels` guarantees: the bottom level is the
/// given leaf level, the top level holds a single digest, every level is
/// non-empty, and each level above the bottom combines the one below it.
pub proof fn lemma_build_levels_shape(leaves: Seq<Seq<u8>>)
    requires
        leaves.len() >= 1,
    ensures
        build_levels(leaves).len() >= 1,
        build_levels(leaves)[0] == leaves,
        build_levels(leaves).last().len() == 1,
        forall|i: int|
            0 <= i < build_levels(leaves).len() ==> #[trigger] build_levels(leaves)[i].len() >= 1,
        forall|i: int|
            0 <= i < build_levels(leaves).len() - 1 ==> (#[trigger] build_levels(leaves)[i]).len()
                >= 2 && build_levels(leaves)[i + 1] == parent_level(build_levels(leaves)[i]),
    decreases leaves.len(),
{
    if leaves.len() <= 1 {
        assert(build_levels(leaves) == seq![leaves]);
    } else {
        let parent = parent_level(leaves);
        assert(parent.len() == (leaves.len() + 1) / 2);
        lemma_build_levels_shape(parent);
        let rest = build_levels(parent);
        let levels = build_levels(leaves);
        assert(levels == seq![leaves] + rest);
        assert forall|i: int| 0 <= i < levels.len() - 1 implies (#[trigger] levels[i]).len() >= 2
            && levels[i + 1] == parent_level(levels[i]) by {
            if i == 0 {
                assert(levels[0] == leaves);
                assert(levels[1] == rest[0]);
            } else {
                assert(levels[i] == rest[i - 1]);
                assert(levels[i + 1] == rest[i]);
            }
        }
        assert(levels.last() == rest.last());
    }
}

/// A sibling path holds one entry for every level but the top one.
pub proof fn lemma_proof_len(levels: Seq<Seq<Seq<u8>>>, k: int)
    requires
        levels.len() >= 1,
    ensures
        proof_digests(levels, k).len() == levels.len() - 1,
        proof_positions(levels, k).len() == levels.len() - 1,
    decreases levels.len(),
{
    if levels.len() > 1 {
        lemma_proof_len(levels.drop_first(), k / 2);
    }
}

/// Halving the ancestor position steps it up one level.
pub proof fn lemma_level_index_step(k: int, j: int)
    requires
        j >= 0,
    ensures
        level_index(k, j + 1) == level_index(k, j) / 2,
    decreases j,
{
    assert(level_index(k, j + 1) == level_index(k / 2, j));
    if j > 0 {
        lemma_level_index_step(k / 2, j - 1);
        assert(level_index(k / 2, j) == level_index(k / 2, j - 1) / 2);
        assert(level_index(k, j) == level_index(k / 2, j - 1));
    } else {
        assert(level_index(k / 2, 0) == k / 2);
        assert(level_index(k, 0) == k);
    }
}

/// The entry of a sibling path at level `j`, in closed form: the digest
/// beside the ancestor of the bottom position, and that sibling's
/// position in its level.
pub proof fn lemma_proof_entry(levels: Seq<Seq<Seq<u8>>>, k: int, j: int)
    requires
        0 <= j < levels.len() - 1,
    ensures
        proof_digests(levels, k)[j] == levels[j][sibling_index(
            level_index(k, j),
            levels[j].len() as int,
        )],
        proof_positions(levels, k)[j] == sibling_index(level_index(k, j), levels[j].len() as int),
    decreases j,
{
    lemma_proof_len(levels, k);
    lemma_proof_len(levels.drop_first(), k / 2);
    if j > 0 {
        lemma_proof_entry(levels.drop_first(), k / 2, j - 1);
        assert(levels.drop_first()[j - 1] == levels[j]);
        assert(proof_digests(levels, k)[j] == proof_digests(levels.drop_first(), k / 2)[j - 1]);
        assert(proof_positions(levels, k)[j] == proof_positions(levels.drop_first(), k / 2)[j - 1]);
    }
}

/// One combination step: climbing one entry of the path from position `k`
/// of a level lands on the entry of the parent level at position `k / 2`.
proof fn lemma_climb_step(level: Seq<Seq<u8>>, k: int)
    requires
        0 <= k < level.len(),
    ensures
        parent_level(level)[k / 2] == (if k % 2 == 0 {
            pair_hash(level[k], level[sibling_index(k, level.len() as int)])
        } else {
            pair_hash(level[sibling_index(k, level.len() as int)], level[k])
        }),
{
    let len = level.len() as int;
    let p = k / 2;
    assert(k == 2 * p + k % 2);
    if k % 2 == 0 {
        assert(2 * p == k);
        if k + 1 < len {
            assert(sibling_index(k, len) == k + 1);
        } else {
            assert(sibling_index(k, len) == k);
        }
    } else {
        assert(2 * p == k - 1);
        assert(2 * p + 1 == k);
        assert(sibling_index(k, len) == k - 1);
    }
}

/// The central soundness fact: for every position of the leaf level,
/// climbing from the leaf digest there with the sibling path that the
/// tree itself yields recomputes the root of the tree.
pub proof fn lemma_path_recomputes_root(leaves: Seq<Seq<u8>>, k: int)
    requires
        leaves.len() >= 1,
        0 <= k < leaves.len(),
    ensures
        climb(proof_digests(build_levels(leaves), k), leaves[k], k) == root_of(
            build_levels(leaves),
        ),
    decreases leaves.len(),
{
    let levels = build_levels(leaves);
    lemma_build_levels_shape(leaves);
    if leaves.len() == 1 {
        assert(levels == seq![leaves]);
        assert(proof_digests(levels, k) =~= Seq::<Seq<u8>>::empty());
        assert(climb(proof_digests(levels, k), leaves[k], k) == leaves[0]);
    } else {
        let parent = parent_level(leaves);
        let rest = build_levels(parent);
        assert(levels == seq![leaves] + rest);
        assert(levels[0] == leaves);
        assert(levels.drop_first() =~= rest);
        let sib = leaves[sibling_index(k, leaves.len() as int)];
        let path = proof_digests(levels, k);
        assert(path == seq![sib] + proof_digests(rest, k / 2));
        assert(path.len() >= 1);
        assert(path[0] == sib);
        assert(path.drop_first() =~= proof_digests(rest, k / 2));
        let first = if k % 2 == 0 {
            pair_hash(leaves[k], sib)
        } else {
            pair_hash(sib, leaves[k])
        };
        assert(climb(path, leaves[k], k) == climb(path.drop_first(), first, k / 2));
        lemma_climb_step(leaves, k);
        assert(first == parent[k / 2]);
        assert(0 <= k / 2 < parent.len());
        lemma_path_recomputes_root(parent, k / 2);
        assert(climb(proof_digests(rest, k / 2), parent[k / 2], k / 2) == root_of(rest));
        assert(root_of(levels) == root_of(rest));
    }
}

} // verus!
