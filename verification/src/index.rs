//! Index arithmetic shared by proof generation, verification and append, so
//! that all three agree on the tree's shape. Each level of the tree is an
//! indexable row of nodes; these functions map a node's position to its
//! ancestor's position some levels up, and to its sibling's position.

use vstd::arithmetic::div_mod::lemma_div_denominator;
use vstd::arithmetic::power2::lemma_pow2_pos;
use vstd::arithmetic::power2::lemma_pow2_unfold;
use vstd::arithmetic::power2::pow2;
use vstd::prelude::*;

verus! {

/// The position, `level` rows above a node at position `index`, of the
/// ancestor that the node descends from.
pub open spec fn spec_ancestor_index(index: nat, level: nat) -> nat {
    index / pow2(level)
}

/// The position, on the same row, of the node that shares `index`'s parent.
pub open spec fn spec_sibling_index(index: nat) -> nat {
    if index % 2 == 0 {
        index + 1
    } else {
        (index - 1) as nat
    }
}

/// Halving a position `level` times lands on the ancestor's position: one
/// more halving steps from the ancestor at `level` to the one at `level + 1`.
pub proof fn lemma_ancestor_halving(index: nat, level: nat)
    ensures
        spec_ancestor_index(index, level) / 2 == spec_ancestor_index(index, level + 1),
{
    lemma_pow2_pos(level);
    lemma_pow2_unfold(level + 1);
    lemma_div_denominator(index as int, pow2(level) as int, 2);
}

/// Returns the position of the ancestor `level` rows above a node at
/// position `index`. Rows shrink by half from one level to the next, so the
/// ancestor's position is the node's position halved once per level.
pub fn ancestor_index(index: usize, level: usize) -> (r: usize)
    ensures
        r == spec_ancestor_index(index as nat, level as nat),
{
    let mut current: usize = index;
    let mut step: usize = 0;
    proof {
        vstd::arithmetic::power2::lemma2_to64();
    }
    while step < level
        invariant
            step <= level,
            current == spec_ancestor_index(index as nat, step as nat),
        decreases level - step,
    {
        proof {
            lemma_ancestor_halving(index as nat, step as nat);
        }
        current = current / 2;
        step = step + 1;
    }
    current
}

/// Returns the position of a node's sibling: the next position for a left
/// child (even index), the previous one for a right child (odd index).
pub fn sibling_index(index: usize) -> (r: usize)
    requires
        index % 2 == 1 || index < usize::MAX,
    ensures
        r == spec_sibling_index(index as nat),
{
    if index % 2 == 0 {
        index + 1
    } else {
        index - 1
    }
}

} // verus!
