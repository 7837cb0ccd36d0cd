//! The mathematical model of a tree: what each level holds as a function of
//! the element sequence alone, which capacity and height a given number of
//! elements forces, and the lemmas relating them. The executable code in
//! `tree` and `membership` is specified entirely against this model.

use crate::hashing::spec_hash_pair;
use crate::hashing::spec_hash_single;
use crate::index::spec_sibling_index;
use vstd::arithmetic::power2::lemma_pow2_pos;
use vstd::arithmetic::power2::lemma_pow2_strictly_increases;
use vstd::arithmetic::power2::lemma_pow2_unfold;
use vstd::arithmetic::power2::lemma2_to64;
use vstd::arithmetic::power2::pow2;
use vstd::prelude::*;

verus! {

/// The reserved hash value held by every leaf slot that no element fills.
pub const PAD_HASH: u64 = 0;

/// Level 0 of a tree with the given elements and capacity: the hash of each
/// element in order, followed by pad values up to `cap`.
pub open spec fn leaf_level(elems: Seq<u64>, cap: nat) -> Seq<u64> {
    Seq::new(
        cap,
        |i: int|
            if i < elems.len() {
                spec_hash_single(elems[i])
            } else {
                PAD_HASH
            },
    )
}

/// The level above a given one: the hash of each consecutive pair of nodes.
pub open spec fn parent_level(level: Seq<u64>) -> Seq<u64> {
    Seq::new(level.len() / 2, |k: int| spec_hash_pair(level[2 * k], level[2 * k + 1]))
}

/// The level standing `i` rows above `base`.
pub open spec fn level_above(base: Seq<u64>, i: nat) -> Seq<u64>
    decreases i,
{
    if i == 0 {
        base
    } else {
        parent_level(level_above(base, (i - 1) as nat))
    }
}

/// Level `i` of the tree that holds `elems` at capacity `cap`.
pub open spec fn level_at(elems: Seq<u64>, cap: nat, i: nat) -> Seq<u64> {
    level_above(leaf_level(elems, cap), i)
}

/// The capacity a tree with `n` elements has: the least power of two that is
/// at least `n`, and 0 when the tree is empty.
pub open spec fn cap_of(n: nat) -> nat
    decreases n,
{
    if n == 0 {
        0
    } else if n == 1 {
        1
    } else {
        2 * cap_of(((n + 1) / 2) as nat)
    }
}

/// The number of levels a tree with `n` elements has.
pub open spec fn height_of(n: nat) -> nat
    decreases n,
{
    if n == 0 {
        0
    } else if n == 1 {
        1
    } else {
        1 + height_of(((n + 1) / 2) as nat)
    }
}

/// The root hash of a non-empty tree holding `elems`.
pub open spec fn spec_root(elems: Seq<u64>) -> u64
    recommends
        elems.len() > 0,
{
    level_at(elems, cap_of(elems.len()), (height_of(elems.len()) - 1) as nat)[0]
}

/// The sibling path for the leaf at `index`, in leaf-to-root order: at each
/// level below the root, the hash of the sibling of that leaf's ancestor.
pub open spec fn spec_proof_nodes(elems: Seq<u64>, index: nat) -> Seq<u64> {
    Seq::new(
        (height_of(elems.len()) - 1) as nat,
        |n: int|
            level_at(elems, cap_of(elems.len()), n as nat)[spec_sibling_index(
                index / pow2(n as nat),
            ) as int],
    )
}

/// A root recomputed from a leaf hash `acc` at leaf position `index` and a
/// sibling path: at each step the accumulator is the left operand when the
/// current position is even and the right operand when it is odd, and the
/// position halves.
pub open spec fn spec_climb(index: nat, nodes: Seq<u64>, acc: u64) -> u64
    decreases nodes.len(),
{
    if nodes.len() == 0 {
        acc
    } else {
        spec_climb(
            index / 2,
            nodes.drop_first(),
            if index % 2 == 0 {
                spec_hash_pair(acc, nodes[0])
            } else {
                spec_hash_pair(nodes[0], acc)
            },
        )
    }
}

/// The capacity of a non-empty tree is a power of two, and the height says
/// which one: capacity is 2 to the power of height minus 1.
pub proof fn lemma_cap_height(n: nat)
    requires
        n > 0,
    ensures
        height_of(n) > 0,
        cap_of(n) == pow2((height_of(n) - 1) as nat),
    decreases n,
{
    lemma2_to64();
    if n > 1 {
        lemma_cap_height(((n + 1) / 2) as nat);
        lemma_pow2_unfold((height_of(n) - 1) as nat);
    }
}

/// A non-empty tree's capacity covers its elements and no more than twice
/// over: `n <= cap_of(n) < 2 * n`.
pub proof fn lemma_cap_of_bounds(n: nat)
    requires
        n > 0,
    ensures
        n <= cap_of(n),
        cap_of(n) < 2 * n,
    decreases n,
{
    if n > 1 {
        lemma_cap_of_bounds(((n + 1) / 2) as nat);
    }
}

/// Powers of two are injective: equal powers come from equal exponents.
pub proof fn lemma_pow2_injective(e1: nat, e2: nat)
    requires
        pow2(e1) == pow2(e2),
    ensures
        e1 == e2,
{
    if e1 < e2 {
        lemma_pow2_strictly_increases(e1, e2);
    }
    if e2 < e1 {
        lemma_pow2_strictly_increases(e2, e1);
    }
}

/// A row of `cap` pad values: the leaf level of a tree holding no elements.
pub open spec fn pad_row(cap: nat) -> Seq<u64> {
    Seq::new(cap, |i: int| PAD_HASH)
}

/// Rows halve in length from one level to the next, so the level `i` rows
/// above `base` holds the length of `base` divided by 2 to the `i`.
pub proof fn lemma_level_above_len(base: Seq<u64>, i: nat)
    ensures
        level_above(base, i).len() == base.len() / pow2(i),
    decreases i,
{
    lemma2_to64();
    if i > 0 {
        let pi = (i - 1) as nat;
        lemma_level_above_len(base, pi);
        lemma_pow2_pos(pi);
        lemma_pow2_unfold(i);
        assert(level_above(base, i).len() == level_above(base, pi).len() / 2);
        vstd::arithmetic::div_mod::lemma_div_denominator(
            base.len() as int,
            pow2(pi) as int,
            2,
        );
        assert((base.len() as int / pow2(pi) as int) / 2 == base.len() as int / (pow2(pi) as int
            * 2));
        assert(pow2(i) as int == pow2(pi) as int * 2);
        assert(level_above(base, i).len() == base.len() / pow2(i));
    } else {
        assert(level_above(base, 0) == base);
        assert(pow2(0) == 1);
        assert(base.len() / 1 == base.len());
    }
}

/// Over a base row whose length is the power of two `pow2(k)`, the row `i`
/// levels up has length `pow2(k - i)`.
pub proof fn lemma_level_len(base: Seq<u64>, k: nat, i: nat)
    requires
        base.len() == pow2(k),
        i <= k,
    ensures
        level_above(base, i).len() == pow2((k - i) as nat),
{
    lemma_level_above_len(base, i);
    vstd::arithmetic::power2::lemma_pow2_subtracts(i, k);
}

/// Levels built over two side-by-side rows of one power-of-two length are
/// the side-by-side levels built over each row alone: hashing pairs never
/// crosses from one half into the other.
pub proof fn lemma_level_above_concat(a: Seq<u64>, b: Seq<u64>, k: nat, i: nat)
    requires
        a.len() == pow2(k),
        b.len() == pow2(k),
        i <= k,
    ensures
        level_above(a + b, i) == level_above(a, i) + level_above(b, i),
    decreases i,
{
    if i > 0 {
        let pi = (i - 1) as nat;
        lemma_level_above_concat(a, b, k, pi);
        let la = level_above(a, pi);
        let lb = level_above(b, pi);
        lemma_level_len(a, k, pi);
        lemma_level_len(b, k, pi);
        lemma_pow2_pos((k - i) as nat);
        lemma_pow2_unfold((k - pi) as nat);
        assert(la.len() % 2 == 0);
        assert(level_above(a + b, i) =~= level_above(a, i) + level_above(b, i)) by {
            assert(level_above(a + b, i) == parent_level(la + lb));
            assert forall|j: int| 0 <= j < (la.len() + lb.len()) / 2 implies parent_level(
                la + lb,
            )[j] == (parent_level(la) + parent_level(lb))[j] by {
                if j < la.len() / 2 {
                    assert(2 * j + 1 < la.len());
                    assert((la + lb)[2 * j] == la[2 * j]);
                    assert((la + lb)[2 * j + 1] == la[2 * j + 1]);
                } else {
                    let j2 = j - la.len() / 2;
                    assert(2 * j >= la.len());
                    assert((la + lb)[2 * j] == lb[2 * j - la.len()]);
                    assert((la + lb)[2 * j + 1] == lb[2 * j + 1 - la.len()]);
                    assert(2 * j2 == 2 * j - la.len());
                    assert((parent_level(la) + parent_level(lb))[j] == parent_level(lb)[j2]);
                }
            }
        }
    }
}

/// Doubling the capacity of a tree splits its leaf level into the old leaf
/// level followed by a row of pads.
pub proof fn lemma_leaf_level_split(elems: Seq<u64>, cap: nat)
    requires
        elems.len() <= cap,
    ensures
        leaf_level(elems, 2 * cap) == leaf_level(elems, cap) + pad_row(cap),
{
    assert(leaf_level(elems, 2 * cap) =~= leaf_level(elems, cap) + pad_row(cap));
}

/// `cap_of(n)` is the least power of two at least `n`: any power of two that
/// covers `n` elements is at least the capacity.
pub proof fn lemma_cap_of_least(n: nat, e: nat)
    requires
        pow2(e) >= n,
    ensures
        pow2(e) >= cap_of(n),
    decreases n,
{
    if n > 1 {
        let m = ((n + 1) / 2) as nat;
        lemma2_to64();
        if e == 0 {
            assert(false);
        } else {
            lemma_pow2_unfold(e);
            assert(pow2((e - 1) as nat) >= m);
            lemma_cap_of_least(m, (e - 1) as nat);
        }
    }
}

/// A non-empty tree's capacity is the next power of two: at least the
/// element count, no larger than any power of two that covers the count, and
/// the tree's height is one more than that power's exponent.
pub proof fn lemma_capacity_next_power_of_two(n: nat)
    requires
        n > 0,
    ensures
        cap_of(n) >= n,
        cap_of(n) == pow2((height_of(n) - 1) as nat),
        forall|e: nat| #[trigger] pow2(e) >= n ==> cap_of(n) <= pow2(e),
{
    lemma_cap_of_bounds(n);
    lemma_cap_height(n);
    assert forall|e: nat| #[trigger] pow2(e) >= n implies cap_of(n) <= pow2(e) by {
        lemma_cap_of_least(n, e);
    }
}

/// Appending one element to a tree that is not yet full keeps both the
/// capacity and the height as they are.
pub proof fn lemma_push_not_full(n: nat)
    requires
        n < cap_of(n),
    ensures
        cap_of(n + 1) == cap_of(n),
        height_of(n + 1) == height_of(n),
{
    lemma_cap_height(n);
    lemma_cap_height(n + 1);
    lemma_cap_of_bounds(n + 1);
    let e = (height_of(n) - 1) as nat;
    let e1 = (height_of(n + 1) - 1) as nat;
    lemma_cap_of_least(n + 1, e);
    lemma_cap_of_least(n, e1);
    lemma_pow2_injective(e, e1);
}

/// Appending one element to a full tree doubles the capacity and grows the
/// height by one; a tree of capacity 0 steps to capacity 1 and height 1.
pub proof fn lemma_push_full(n: nat)
    requires
        n == cap_of(n),
    ensures
        cap_of(n + 1) == if n == 0 {
            1nat
        } else {
            2 * n
        },
        height_of(n + 1) == height_of(n) + 1,
{
    if n == 0 {
    } else {
        lemma_cap_height(n);
        lemma_cap_height(n + 1);
        lemma_cap_of_bounds(n + 1);
        let e = (height_of(n) - 1) as nat;
        let e1 = (height_of(n + 1) - 1) as nat;
        lemma_pow2_unfold(e + 1);
        lemma_cap_of_least(n + 1, e + 1);
        assert(pow2(e1) <= pow2(e + 1));
        assert(pow2(e1) >= n + 1 > pow2(e));
        if e1 <= e {
            if e1 < e {
                lemma_pow2_strictly_increases(e1, e);
            }
            assert(false);
        }
        if e1 > e + 1 {
            lemma_pow2_strictly_increases(e + 1, e1);
            assert(false);
        }
        assert(e1 == e + 1);
    }
}

/// Appending one element changes a level only at the position of the new
/// leaf's ancestor: every other node of the level keeps its hash.
pub proof fn lemma_level_at_push(elems: Seq<u64>, value: u64, cap: nat, l: nat)
    requires
        elems.len() < cap,
    ensures
        level_at(elems.push(value), cap, l).len() == level_at(elems, cap, l).len(),
        forall|j: int|
            0 <= j < level_at(elems, cap, l).len() && j != elems.len() / pow2(l) ==> level_at(
                elems.push(value),
                cap,
                l,
            )[j] == level_at(elems, cap, l)[j],
    decreases l,
{
    lemma2_to64();
    let n = elems.len();
    let old_level = level_at(elems, cap, l);
    let new_level = level_at(elems.push(value), cap, l);
    lemma_level_above_len(leaf_level(elems, cap), l);
    lemma_level_above_len(leaf_level(elems.push(value), cap), l);
    if l == 0 {
        assert(forall|j: int|
            0 <= j < old_level.len() && j != n ==> new_level[j] == old_level[j]);
    } else {
        let pl = (l - 1) as nat;
        lemma_level_at_push(elems, value, cap, pl);
        let old_prev = level_at(elems, cap, pl);
        let new_prev = level_at(elems.push(value), cap, pl);
        assert(old_level == parent_level(old_prev));
        assert(new_level == parent_level(new_prev));
        let target_prev = n / pow2(pl);
        let target = n / pow2(l);
        crate::index::lemma_ancestor_halving(n, pl);
        assert(target_prev / 2 == target);
        assert forall|j: int| 0 <= j < old_level.len() && j != target implies new_level[j]
            == old_level[j] by {
            assert(2 * j + 1 < old_prev.len());
            assert(2 * j != target_prev) by {
                if 2 * j == target_prev {
                    assert(target_prev % 2 == 0);
                    assert(j == target_prev / 2);
                }
            }
            assert(2 * j + 1 != target_prev) by {
                if 2 * j + 1 == target_prev {
                    assert(target_prev % 2 == 1);
                    assert(j == target_prev / 2);
                }
            }
            assert(new_prev[2 * j] == old_prev[2 * j]);
            assert(new_prev[2 * j + 1] == old_prev[2 * j + 1]);
        }
    }
}

/// The sibling path above a node, over the levels `l` and higher of the rows
/// built over `base`: at each step the sibling of the node's ancestor.
pub open spec fn path_above(base: Seq<u64>, k: nat, l: nat, j: nat) -> Seq<u64> {
    Seq::new(
        (k - l) as nat,
        |n: int| level_above(base, (l + n) as nat)[spec_sibling_index(j / pow2(n as nat)) as int],
    )
}

/// Climbing from any node along its sibling path recomputes the root: the
/// verifier's fold, started at node `j` of the level `l` rows above `base`,
/// ends in the single node of the top row.
pub proof fn lemma_climb_to_root(base: Seq<u64>, k: nat, l: nat, j: nat)
    requires
        base.len() == pow2(k),
        l <= k,
        j < pow2((k - l) as nat),
    ensures
        spec_climb(j, path_above(base, k, l, j), level_above(base, l)[j as int]) == level_above(
            base,
            k,
        )[0],
    decreases k - l,
{
    lemma2_to64();
    let path = path_above(base, k, l, j);
    if l == k {
        assert(j == 0);
        assert(path.len() == 0);
    } else {
        let cur = level_above(base, l);
        let up = level_above(base, (l + 1) as nat);
        lemma_level_len(base, k, l);
        lemma_level_len(base, k, (l + 1) as nat);
        lemma_pow2_unfold((k - l) as nat);
        assert(cur.len() == pow2((k - l) as nat));
        assert(cur.len() == 2 * pow2((k - l - 1) as nat));
        assert(path[0] == cur[spec_sibling_index(j) as int]) by {
            assert(pow2(0) == 1);
            assert(j / 1 == j);
            assert((l + 0) as nat == l);
        }
        let acc = cur[j as int];
        let next_acc = if j % 2 == 0 {
            spec_hash_pair(acc, path[0])
        } else {
            spec_hash_pair(path[0], acc)
        };
        assert(up == parent_level(cur));
        assert(next_acc == up[(j / 2) as int]) by {
            if j % 2 == 0 {
                assert(2 * ((j / 2) as int) == j);
                assert(path[0] == cur[j as int + 1]);
            } else {
                assert(2 * ((j / 2) as int) == j - 1);
                assert(path[0] == cur[j as int - 1]);
            }
        }
        assert(path.drop_first() =~= path_above(base, k, (l + 1) as nat, j / 2)) by {
            assert forall|n: int| 0 <= n < (k - l - 1) implies path.drop_first()[n] == path_above(
                base,
                k,
                (l + 1) as nat,
                j / 2,
            )[n] by {
                lemma_pow2_pos(n as nat);
                lemma_pow2_unfold((n + 1) as nat);
                vstd::arithmetic::div_mod::lemma_div_denominator(j as int, 2, pow2(n as nat) as int);
                assert((j / 2) / pow2(n as nat) == j / pow2((n + 1) as nat));
            }
        }
        assert(j / 2 < pow2((k - l - 1) as nat));
        lemma_climb_to_root(base, k, (l + 1) as nat, j / 2);
        assert(spec_climb(j, path, acc) == spec_climb(
            j / 2,
            path.drop_first(),
            next_acc,
        ));
    }
}

/// A position below `pow2(a + b)` has its ancestor `a` levels up standing
/// below `pow2(b)`: halving a position keeps it inside the shrinking rows.
pub proof fn lemma_ancestor_in_row(x: nat, a: nat, b: nat)
    requires
        x < pow2(a + b),
    ensures
        x / pow2(a) < pow2(b),
{
    vstd::arithmetic::power2::lemma_pow2_adds(a, b);
    lemma_pow2_pos(a);
    vstd::arithmetic::div_mod::lemma_multiply_divide_lt(
        x as int,
        pow2(a) as int,
        pow2(b) as int,
    );
}

/// A fresh proof verifies its own element: climbing from the hash of the
/// element at `index` along that leaf's sibling path recomputes the root.
pub proof fn lemma_proof_nodes_verify(elems: Seq<u64>, index: nat)
    requires
        index < elems.len(),
    ensures
        spec_climb(index, spec_proof_nodes(elems, index), spec_hash_single(elems[index as int]))
            == spec_root(elems),
{
    let n = elems.len();
    let cap = cap_of(n);
    lemma_cap_height(n);
    lemma_cap_of_bounds(n);
    let k = (height_of(n) - 1) as nat;
    let base = leaf_level(elems, cap);
    assert(base.len() == pow2(k));
    assert(spec_proof_nodes(elems, index) =~= path_above(base, k, 0, index));
    lemma_climb_to_root(base, k, 0, index);
    assert(level_above(base, 0)[index as int] == spec_hash_single(elems[index as int]));
}

/// No two distinct ordered pairs share a pair hash. False of any real hash
/// function somewhere, but overwhelmingly likely on any run; the claims that
/// a proof rejects wrong values hold barring such a collision.
pub open spec fn pair_hash_collision_free() -> bool {
    forall|x1: u64, y1: u64, x2: u64, y2: u64|
        #![trigger spec_hash_pair(x1, y1), spec_hash_pair(x2, y2)]
        spec_hash_pair(x1, y1) == spec_hash_pair(x2, y2) ==> x1 == x2 && y1 == y2
}

/// No two distinct values share a single-value hash.
pub open spec fn single_hash_collision_free() -> bool {
    forall|a: u64, b: u64|
        #![trigger spec_hash_single(a), spec_hash_single(b)]
        spec_hash_single(a) == spec_hash_single(b) ==> a == b
}

/// Barring pair-hash collisions, a sibling path binds the recomputed root to
/// one starting hash: two climbs over the same path agree only if they
/// started from the same leaf hash.
pub proof fn lemma_climb_injective(index: nat, nodes: Seq<u64>, a: u64, b: u64)
    requires
        pair_hash_collision_free(),
        spec_climb(index, nodes, a) == spec_climb(index, nodes, b),
    ensures
        a == b,
    decreases nodes.len(),
{
    if nodes.len() > 0 {
        let next_a = if index % 2 == 0 {
            spec_hash_pair(a, nodes[0])
        } else {
            spec_hash_pair(nodes[0], a)
        };
        let next_b = if index % 2 == 0 {
            spec_hash_pair(b, nodes[0])
        } else {
            spec_hash_pair(nodes[0], b)
        };
        lemma_climb_injective(index / 2, nodes.drop_first(), next_a, next_b);
    }
}

/// A fresh proof for position `index` rejects every value other than the
/// element standing there, barring hash collisions.
pub proof fn lemma_proof_rejects_other_values(elems: Seq<u64>, index: nat, other: u64)
    requires
        pair_hash_collision_free(),
        single_hash_collision_free(),
        index < elems.len(),
        other != elems[index as int],
    ensures
        spec_climb(index, spec_proof_nodes(elems, index), spec_hash_single(other)) != spec_root(
            elems,
        ),
{
    lemma_proof_nodes_verify(elems, index);
    if spec_climb(index, spec_proof_nodes(elems, index), spec_hash_single(other)) == spec_root(
        elems,
    ) {
        lemma_climb_injective(
            index,
            spec_proof_nodes(elems, index),
            spec_hash_single(other),
            spec_hash_single(elems[index as int]),
        );
    }
}

} // verus!
