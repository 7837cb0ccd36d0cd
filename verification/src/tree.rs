//! The Merkle tree itself: an ordered collection of levels, level 0 holding
//! the leaf hashes (element hashes followed by pad values up to a
//! power-of-two capacity) and each further level the hash of each consecutive
//! pair below it, up to a single root node. A tree is built from an initial
//! sequence, answers membership-proof requests, and grows one element at a
//! time, doubling its capacity when full.

use crate::hashing::hash_pair;
use crate::hashing::hash_single;
use crate::hashing::spec_hash_single;
use crate::index::ancestor_index;
use crate::index::sibling_index;
use crate::membership::MerkleProof;
use crate::model::cap_of;
use crate::model::height_of;
use crate::model::leaf_level;
use crate::model::level_above;
use crate::model::level_at;
use crate::model::lemma_ancestor_in_row;
use crate::model::lemma_cap_height;
use crate::model::lemma_cap_of_bounds;
use crate::model::lemma_cap_of_least;
use crate::model::lemma_leaf_level_split;
use crate::model::lemma_level_above_concat;
use crate::model::lemma_level_at_push;
use crate::model::lemma_level_len;
use crate::model::lemma_proof_nodes_verify;
use crate::model::lemma_pow2_injective;
use crate::model::lemma_push_full;
use crate::model::lemma_push_not_full;
use crate::model::pad_row;
use crate::model::parent_level;
use crate::model::spec_proof_nodes;
use crate::model::spec_root;
use crate::model::PAD_HASH;
use vstd::arithmetic::power2::lemma_pow2_strictly_increases;
use vstd::arithmetic::power2::lemma_pow2_unfold;
use vstd::arithmetic::power2::lemma2_to64;
use vstd::arithmetic::power2::pow2;
use vstd::prelude::*;

verus! {

/// Base structure where merkle tree data is stored.
pub struct MerkleTree {
    levels: Vec<Vec<u64>>,
    capacity: usize,
    padding: usize,
    elems: Ghost<Seq<u64>>,
}

impl View for MerkleTree {
    type V = Seq<u64>;

    /// A tree abstracts to the sequence of elements it holds: every level,
    /// the capacity and the padding are functions of that sequence.
    closed spec fn view(&self) -> Seq<u64> {
        self.elems@
    }
}

impl MerkleTree {
    /// The tree's internal shape agrees with its elements: the capacity is
    /// the least covering power of two, the padding counts the free leaf
    /// slots, and every level holds exactly the hashes the model assigns it.
    pub closed spec fn wf(&self) -> bool {
        let n = self.elems@.len();
        &&& self.capacity == cap_of(n)
        &&& n <= self.capacity
        &&& self.padding == self.capacity - n
        &&& self.levels@.len() == height_of(n)
        &&& forall|i: int|
            0 <= i < self.levels@.len() ==> self.levels@[i]@ == level_at(
                self.elems@,
                self.capacity as nat,
                i as nat,
            )
    }

    /// Returns the height of the tree.
    pub fn height(&self) -> (r: usize)
        requires
            self.wf(),
        ensures
            r == height_of(self@.len()),
    {
        self.levels.len()
    }

    /// Returns the capacity of the tree: the number of leaf slots it has
    /// allocated, which may exceed the number of elements it holds.
    pub fn capacity(&self) -> (r: usize)
        requires
            self.wf(),
        ensures
            r == cap_of(self@.len()),
    {
        self.capacity
    }

    /// Returns the length of the tree: the number of elements it holds,
    /// which may be less than its capacity.
    pub fn len(&self) -> (r: usize)
        requires
            self.wf(),
        ensures
            r == self@.len(),
    {
        if self.levels.len() == 0 {
            0
        } else {
            self.levels[0].len() - self.padding
        }
    }

    /// Returns whether the tree holds no elements.
    pub fn is_empty(&self) -> (r: bool)
        requires
            self.wf(),
        ensures
            r == (self@.len() == 0),
    {
        self.len() == 0
    }

    /// Returns whether the tree is at full capacity.
    pub fn is_full(&self) -> (r: bool)
        requires
            self.wf(),
        ensures
            r == (self@.len() == cap_of(self@.len())),
    {
        self.padding == 0
    }

    /// Returns the root of the tree, or `None` exactly when it is empty.
    pub fn root(&self) -> (r: Option<u64>)
        requires
            self.wf(),
        ensures
            r is Some <==> self@.len() > 0,
            r matches Some(root) ==> root == spec_root(self@),
    {
        if self.is_empty() {
            return None;
        }
        proof {
            let n = self.elems@.len();
            lemma_cap_height(n);
            lemma_level_len(
                leaf_level(self.elems@, self.capacity as nat),
                (height_of(n) - 1) as nat,
                (height_of(n) - 1) as nat,
            );
            lemma2_to64();
        }
        Some(self.levels[self.levels.len() - 1][0])
    }

    /// Constructs a `MerkleTree` holding the provided elements as its
    /// leaves: each element is hashed into level 0, pad values fill the
    /// remaining slots up to the least covering power of two, and each
    /// further level pairs up the one below it. Empty input yields a valid,
    /// root-less tree of capacity 0.
    pub fn build(elements: &[u64]) -> (tree: MerkleTree)
        requires
            cap_of(elements@.len()) <= usize::MAX,
        ensures
            tree.wf(),
            tree@ == elements@,
    {
        let element_count = elements.len();
        if element_count == 0 {
            return MerkleTree {
                levels: Vec::new(),
                capacity: 0,
                padding: 0,
                elems: Ghost(elements@),
            };
        }
        proof {
            lemma_cap_of_bounds(elements@.len());
            lemma_cap_height(elements@.len());
        }
        let capacity = next_power_of_two(element_count);
        let padding = capacity - element_count;

        // Level 0 hashes: the elements in order, then the pad values.
        let mut leaves: Vec<u64> = Vec::new();
        for i in 0..element_count
            invariant
                element_count == elements@.len(),
                leaves@.len() == i,
                forall|m: int| 0 <= m < i ==> leaves@[m] == spec_hash_single(elements@[m]),
        {
            let leaf = hash_single(elements[i]);
            leaves.push(leaf);
        }
        for p in 0..padding
            invariant
                element_count == elements@.len(),
                leaves@.len() == element_count + p,
                forall|m: int| 0 <= m < element_count ==> leaves@[m] == spec_hash_single(
                    elements@[m],
                ),
                forall|m: int| element_count <= m < element_count + p ==> leaves@[m] == PAD_HASH,
        {
            leaves.push(PAD_HASH);
        }
        proof {
            assert(leaves@ =~= leaf_level(elements@, capacity as nat));
        }

        let mut levels: Vec<Vec<u64>> = Vec::new();
        let ghost top = (height_of(elements@.len()) - 1) as nat;
        generate_tree_levels(&leaves, &mut levels, Ghost(top));

        MerkleTree { levels, capacity, padding, elems: Ghost(elements@) }
    }

    /// Creates a `MerkleProof` for a given index. Requesting a proof for an
    /// index that no element fills — in particular any index of an empty
    /// tree — yields `MerkleProof::Invalid` rather than an error. A proof
    /// for a filled index records that leaf's sibling path and the current
    /// root, and verifies the element standing at that index.
    pub fn get_proof(&self, index: usize) -> (p: MerkleProof)
        requires
            self.wf(),
        ensures
            p is Invalid <==> index >= self@.len(),
            p matches MerkleProof::Proof { index: pindex, nodes, root } ==> pindex == index
                && nodes@ == spec_proof_nodes(self@, index as nat) && root == spec_root(self@),
            index < self@.len() ==> p.spec_verify(self@[index as int]),
    {
        let is_invalid_index = index >= self.len();
        if is_invalid_index || self.is_empty() {
            return MerkleProof::Invalid;
        }
        let ghost n = self.elems@.len();
        let ghost cap = self.capacity as nat;
        let ghost top = (height_of(n) - 1) as nat;
        proof {
            lemma_cap_height(n);
            lemma2_to64();
            assert(index as nat / pow2(0) == index as nat) by {
                assert(index as nat / 1 == index as nat);
            }
        }

        let mut nodes: Vec<u64> = Vec::new();
        let mut position = index;
        let height = self.levels.len();
        for level_n in 0..height - 1
            invariant
                self.wf(),
                index < n,
                n == self.elems@.len(),
                cap == self.capacity as nat,
                cap == pow2(top),
                height == self.levels@.len(),
                height == top + 1,
                level_n <= top,
                position == index as nat / pow2(level_n as nat),
                nodes@.len() == level_n,
                forall|m: int| 0 <= m < level_n ==> nodes@[m] == spec_proof_nodes(
                    self.elems@,
                    index as nat,
                )[m],
        {
            proof {
                lemma_level_len(leaf_level(self.elems@, cap), top, level_n as nat);
                lemma_ancestor_in_row(
                    index as nat,
                    level_n as nat,
                    (top - level_n) as nat,
                );
                vstd::arithmetic::power2::lemma_pow2_adds(level_n as nat, (top - level_n) as nat);
                lemma_pow2_unfold((top - level_n) as nat);
            }
            let sibling = sibling_index(position);
            let node = self.levels[level_n][sibling];
            nodes.push(node);
            proof {
                crate::index::lemma_ancestor_halving(index as nat, level_n as nat);
            }
            position = position / 2;
        }
        proof {
            assert(nodes@ =~= spec_proof_nodes(self.elems@, index as nat));
            lemma_proof_nodes_verify(self.elems@, index as nat);
        }
        let root_value = self.root().unwrap();
        MerkleProof::Proof { nodes, index, root: root_value }
    }

    /// Doubles the capacity of the tree: a same-height subtree made entirely
    /// of pad values is laid beside the existing one, each of its levels
    /// appended to the corresponding existing level, and one new top level is
    /// formed by hashing the old root with the pad subtree's root, the old
    /// root as the left operand. A tree of capacity 0 steps to capacity 1.
    fn duplicate_capacity(&mut self)
        requires
            old(self).wf(),
            old(self).padding == 0,
            (if old(self).capacity == 0 {
                1int
            } else {
                2 * old(self).capacity as int
            }) <= usize::MAX as int,
        ensures
            final(self)@ == old(self)@,
            final(self).capacity as int == (if old(self).capacity == 0 {
                1int
            } else {
                2 * old(self).capacity as int
            }),
            final(self).padding == final(self).capacity - final(self)@.len(),
            final(self)@.len() < final(self).capacity,
            final(self).levels@.len() == old(self).levels@.len() + 1,
            final(self).capacity == pow2((final(self).levels@.len() - 1) as nat),
            forall|i: int|
                0 <= i < final(self).levels@.len() ==> final(self).levels@[i]@ == level_at(
                    final(self)@,
                    final(self).capacity as nat,
                    i as nat,
                ),
    {
        let ghost n = self.elems@.len();
        proof {
            lemma2_to64();
        }
        if self.capacity == 0 {
            let mut level0: Vec<u64> = Vec::new();
            level0.push(PAD_HASH);
            self.levels.push(level0);
            self.capacity = 1;
            self.padding = 1;
            proof {
                assert(n == 0);
                assert(self.levels@[0]@ =~= leaf_level(self.elems@, 1));
            }
            return;
        }
        let ghost old_cap = self.capacity as nat;
        let ghost top = (self.levels@.len() - 1) as nat;
        proof {
            lemma_cap_height(n);
            lemma_pow2_injective(top, (height_of(n) - 1) as nat);
        }

        // Build the pad subtree: a same-height hierarchy over pad leaves.
        let new_leaves = pad_leaves(self.capacity);
        let mut new_levels: Vec<Vec<u64>> = Vec::new();
        generate_tree_levels(&new_leaves, &mut new_levels, Ghost(top));

        // Lay the pad subtree beside the existing one, level by level.
        let level_count = self.levels.len();
        for level_n in 0..level_count
            invariant
                level_count == self.levels@.len(),
                level_count == top + 1,
                new_levels@.len() == top + 1,
                self.elems@ == old(self).elems@,
                n == self.elems@.len(),
                self.capacity == old(self).capacity,
                self.padding == old(self).padding,
                old_cap == self.capacity as nat,
                forall|i: int|
                    0 <= i < level_n ==> self.levels@[i]@ == level_at(self.elems@, old_cap, i as nat)
                        + level_above(pad_row(old_cap), i as nat),
                forall|i: int|
                    level_n <= i < level_count ==> self.levels@[i]@ == level_at(
                        self.elems@,
                        old_cap,
                        i as nat,
                    ),
                forall|i: int|
                    level_n <= i < level_count ==> new_levels@[i]@ == level_above(
                        pad_row(old_cap),
                        i as nat,
                    ),
        {
            self.levels[level_n].append(&mut new_levels[level_n]);
        }

        // Re-compute the root: the old root is the left child, the pad
        // subtree's root the right one.
        proof {
            lemma_level_len(leaf_level(self.elems@, old_cap), top, top);
            lemma_level_len(pad_row(old_cap), top, top);
        }
        let top_position = self.levels.len() - 1;
        let left = self.levels[top_position][0];
        let right = self.levels[top_position][1];
        let new_root = hash_pair(left, right);
        let mut new_top: Vec<u64> = Vec::new();
        new_top.push(new_root);
        self.levels.push(new_top);

        self.padding = self.padding + self.capacity;
        self.capacity = self.capacity * 2;

        proof {
            let new_cap = self.capacity as nat;
            lemma_leaf_level_split(self.elems@, old_cap);
            lemma_pow2_unfold(top + 1);
            assert forall|i: int| 0 <= i < self.levels@.len() implies self.levels@[i]@ == level_at(
                self.elems@,
                new_cap,
                i as nat,
            ) by {
                if i <= top {
                    lemma_level_above_concat(
                        leaf_level(self.elems@, old_cap),
                        pad_row(old_cap),
                        top,
                        i as nat,
                    );
                } else {
                    lemma_level_above_concat(
                        leaf_level(self.elems@, old_cap),
                        pad_row(old_cap),
                        top,
                        top,
                    );
                    let merged_top = level_at(self.elems@, new_cap, top);
                    assert(merged_top.len() == 2);
                    assert(merged_top[0] == left && merged_top[1] == right);
                    assert(level_at(self.elems@, new_cap, (top + 1) as nat) == parent_level(
                        merged_top,
                    ));
                    assert(self.levels@[i]@ =~= parent_level(merged_top)) by {
                        assert(2 * 0 == 0 && 2 * 0 + 1 == 1);
                    }
                }
            }
        }
    }

    /// Pushes an element into the tree, updating only the new leaf's
    /// ancestors. If the tree has no free leaf slot, its capacity is doubled
    /// first.
    pub fn push(&mut self, value: u64)
        requires
            old(self).wf(),
            cap_of(old(self)@.len() + 1) <= usize::MAX,
        ensures
            final(self).wf(),
            final(self)@ == old(self)@.push(value),
    {
        let ghost n = self.elems@.len();
        let ghost new_elems = self.elems@.push(value);
        proof {
            lemma2_to64();
            if n == cap_of(n) {
                lemma_push_full(n);
            } else {
                lemma_push_not_full(n);
            }
            lemma_cap_height(n + 1);
        }
        let index = self.len();
        if self.is_full() {
            self.duplicate_capacity();
        } else {
            proof {
                lemma_cap_height(n);
            }
        }
        let ghost cap = self.capacity as nat;
        let level_count = self.levels.len();
        let ghost k = (level_count - 1) as nat;
        proof {
            assert(cap == cap_of(n + 1));
            assert(cap == pow2(k));
            assert(n < cap);
            assert(index == n);
        }

        // Write the new leaf hash into the first unused slot.
        let leaf = hash_single(value);
        proof {
            lemma_level_len(leaf_level(self.elems@, cap), k, 0);
            assert(index < self.levels@[0]@.len()) by {
                assert(pow2(0) == 1);
                assert(cap / 1 == cap);
            }
        }
        let ghost elems_before = self.elems@;
        self.levels[0][index] = leaf;
        self.elems = Ghost(new_elems);
        proof {
            assert(self.levels@[0]@ =~= leaf_level(new_elems, cap));
        }

        // Walk upward, recomputing only the new leaf's ancestor at each
        // level; the slot's parity says whether it is the left operand.
        let mut position = index;
        proof {
            assert(position == n / pow2(0)) by {
                assert(n / 1 == n);
            }
        }
        for level_n in 1..level_count
            invariant
                1 <= level_n <= level_count,
                level_count == self.levels@.len(),
                level_count == k + 1,
                self.elems@ == new_elems,
                new_elems == elems_before.push(value),
                n == elems_before.len(),
                n < cap,
                n + 1 <= usize::MAX,
                cap == self.capacity as nat,
                cap == cap_of(n + 1),
                cap == pow2(k),
                self.padding == cap - n,
                position == n / pow2((level_n - 1) as nat),
                forall|i: int|
                    0 <= i < level_n ==> self.levels@[i]@ == level_at(new_elems, cap, i as nat),
                forall|i: int|
                    level_n <= i < level_count ==> self.levels@[i]@ == level_at(
                        elems_before,
                        cap,
                        i as nat,
                    ),
        {
            let ghost prev = (level_n - 1) as nat;
            proof {
                lemma2_to64();
                lemma_level_len(leaf_level(new_elems, cap), k, prev);
                lemma_level_len(leaf_level(elems_before, cap), k, prev);
                lemma_level_len(leaf_level(new_elems, cap), k, level_n as nat);
                lemma_level_len(leaf_level(elems_before, cap), k, level_n as nat);
                lemma_ancestor_in_row(n, prev, (k - prev) as nat);
                vstd::arithmetic::power2::lemma_pow2_adds(prev, (k - prev) as nat);
                lemma_pow2_unfold((k - prev) as nat);
            }
            let node = self.levels[level_n - 1][position];
            let sibling_position = sibling_index(position);
            let sibling_node = self.levels[level_n - 1][sibling_position];
            let parent_position = ancestor_index(position, 1);
            proof {
                assert(pow2(1) == 2);
                assert(parent_position == position / 2);
                crate::index::lemma_ancestor_halving(n, prev);
                assert(parent_position == n / pow2(level_n as nat));
                lemma_ancestor_in_row(n, level_n as nat, (k - level_n) as nat);
                vstd::arithmetic::power2::lemma_pow2_adds(level_n as nat, (k - level_n) as nat);
            }
            let new_node = if position % 2 == 0 {
                hash_pair(node, sibling_node)
            } else {
                hash_pair(sibling_node, node)
            };
            self.levels[level_n][parent_position] = new_node;
            proof {
                lemma_level_at_push(elems_before, value, cap, level_n as nat);
                let updated = level_at(new_elems, cap, level_n as nat);
                let prev_row = level_at(new_elems, cap, prev);
                assert(updated == parent_level(prev_row));
                assert(updated[parent_position as int] == new_node) by {
                    if position % 2 == 0 {
                        assert(2 * (parent_position as int) == position);
                        assert(prev_row[position as int + 1] == sibling_node);
                    } else {
                        assert(2 * (parent_position as int) == position - 1);
                        assert(prev_row[position as int - 1] == sibling_node);
                    }
                }
                assert(self.levels@[level_n as int]@ =~= updated);
            }
            position = parent_position;
        }
        self.padding = self.padding - 1;
        proof {
            lemma_cap_height(n + 1);
            lemma_pow2_injective(k, (height_of(n + 1) - 1) as nat);
        }
    }
}

/// Returns the least power of two that is at least `n`: the capacity a tree
/// with `n` elements allocates.
fn next_power_of_two(n: usize) -> (r: usize)
    requires
        n >= 1,
        cap_of(n as nat) <= usize::MAX,
    ensures
        r == cap_of(n as nat),
{
    proof {
        lemma2_to64();
        lemma_cap_height(n as nat);
        lemma_cap_of_bounds(n as nat);
    }
    let ghost top = (height_of(n as nat) - 1) as nat;
    let mut result: usize = 1;
    let ghost mut e: nat = 0;
    while result < n
        invariant
            n >= 1,
            n <= cap_of(n as nat),
            cap_of(n as nat) <= usize::MAX,
            cap_of(n as nat) == pow2(top),
            result >= 1,
            result == pow2(e),
            result <= cap_of(n as nat),
        decreases cap_of(n as nat) - result,
    {
        proof {
            if e >= top {
                if e > top {
                    lemma_pow2_strictly_increases(top, e);
                }
                assert(result >= cap_of(n as nat) >= n);
                assert(false);
            }
            if e + 1 < top {
                lemma_pow2_strictly_increases((e + 1) as nat, top);
            }
            lemma_pow2_unfold((e + 1) as nat);
            assert(2 * pow2(e) <= pow2(top));
        }
        result = result * 2;
        proof {
            e = e + 1;
        }
    }
    proof {
        lemma_cap_of_least(n as nat, e);
    }
    result
}

/// Returns a row of `count` pad values: the leaf level of a subtree holding
/// no elements.
fn pad_leaves(count: usize) -> (r: Vec<u64>)
    ensures
        r@ == pad_row(count as nat),
{
    let mut r: Vec<u64> = Vec::new();
    for i in 0..count
        invariant
            r@.len() == i,
            forall|m: int| 0 <= m < i ==> r@[m] == PAD_HASH,
    {
        r.push(PAD_HASH);
    }
    proof {
        assert(r@ =~= pad_row(count as nat));
    }
    r
}

/// Returns a fresh copy of one level's row of hashes.
fn clone_row(row: &Vec<u64>) -> (r: Vec<u64>)
    ensures
        r@ == row@,
{
    let r = row.clone();
    proof {
        assert forall|i: int| 0 <= i < row@.len() implies r@[i] == row@[i] by {
            assert(cloned::<u64>(row@[i], r@[i]));
        }
        assert(r@ =~= row@);
    }
    r
}

/// Given the leaves of a tree (its level 0), generates all the upper levels
/// by hashing each consecutive pair iteratively, stopping once a level holds
/// a single node. `leaves` must be a power-of-two row, `pow2(top)` long.
fn generate_tree_levels(leaves: &Vec<u64>, levels: &mut Vec<Vec<u64>>, Ghost(top): Ghost<nat>)
    requires
        old(levels)@.len() == 0,
        leaves@.len() == pow2(top),
    ensures
        final(levels)@.len() == top + 1,
        forall|i: int|
            0 <= i <= top ==> final(levels)@[i]@ == level_above(leaves@, i as nat),
{
    let mut current: Vec<u64> = clone_row(leaves);
    levels.push(clone_row(&current));

    let ghost mut j: nat = 0;
    while current.len() > 1
        invariant
            leaves@.len() == pow2(top),
            j <= top,
            current@ == level_above(leaves@, j),
            current@.len() == pow2((top - j) as nat),
            levels@.len() == j + 1,
            forall|i: int| 0 <= i <= j ==> levels@[i]@ == level_above(leaves@, i as nat),
        decreases current@.len(),
    {
        proof {
            lemma2_to64();
            if j == top {
                assert(false);
            }
            lemma_pow2_unfold((top - j) as nat);
        }
        let current_len = current.len();
        let half = current_len / 2;
        let mut next_level: Vec<u64> = Vec::new();
        for pair_n in 0..half
            invariant
                current_len == current@.len(),
                current_len % 2 == 0,
                half == current_len / 2,
                next_level@.len() == pair_n,
                forall|m: int| 0 <= m < pair_n ==> next_level@[m] == parent_level(current@)[m],
        {
            let combined = hash_pair(current[2 * pair_n], current[2 * pair_n + 1]);
            next_level.push(combined);
        }
        proof {
            assert(next_level@ =~= parent_level(current@));
        }
        current = next_level;
        levels.push(clone_row(&current));
        proof {
            j = j + 1;
        }
    }
    proof {
        vstd::arithmetic::power2::lemma_pow2_pos((top - j) as nat);
        if j < top {
            lemma2_to64();
            lemma_pow2_strictly_increases(0, (top - j) as nat);
            assert(false);
        }
    }
}

} // verus!
