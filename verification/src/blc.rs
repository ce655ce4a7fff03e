//! The MQOM binary line commitment: seed trees, leaf commitments, their
//! openings and the evaluations that verification reconstructs from them.

use vstd::prelude::*;
use vstd::arithmetic::power2::{pow2, lemma_pow2_unfold, lemma_pow2_pos};
use crate::field::{Gf16, Gf256x2, gf16_values, gf256x2_add, gf256x2_mul, gf256x2_scale,
    pack_gf16, unpack_gf16, unpacked_nibble};
use crate::mq::{ext_values, sum_ext, lemma_sum_ext_step};
use crate::params;
use crate::prg::{self, Generator, SeedDeriver, seed_derive_spec, tweak_spec, xor_seq};
use crate::xof::{Shake128State, shake128_bytes};
use crate::keygen::{ct_eq_bytes, wipe};

verus! {

broadcast use crate::field::group_field_ops;

/// Length of a seed.
pub const SEED_SIZE: usize = 16;

/// Length of a commitment.
pub const COMMITMENT_SIZE: usize = 32;

/// Length of a packed base-field vector.
pub const BASE_VECTOR_SIZE: usize = 28;

/// Length of an encoded mask vector.
pub const MASK_VECTOR_SIZE: usize = 16;

/// Length of an expanded leaf: its seed, then generator output.
pub const EXPANDED_LEAF_SIZE: usize = 44;

/// Length of the generator output of a leaf.
pub const LEAF_PRG_SIZE: usize = 28;

/// Length of a partial delta.
pub const PARTIAL_DELTA_SIZE: usize = 12;

/// Length of the authentication path of one execution.
pub const PATH_SIZE_PER_EXECUTION: usize = 176;

/// Length of the authentication paths of all executions.
pub const PATHS_SIZE: usize = 2112;

/// Length of the hidden-leaf commitments of all executions.
pub const HIDDEN_COMMITMENTS_SIZE: usize = 384;

/// Offset of the partial deltas in an opening.
pub const PARTIAL_DELTAS_OFFSET: usize = 2496;

/// Number of nodes of a seed tree, including the unused index 0 and 1.
pub const FULL_TREE_SIZE: usize = 4096;

/// Index of the first leaf of a seed tree.
pub const LEAF_OFFSET: usize = 2048;

/// Length of the root seeds of all executions.
pub const ROOT_SEEDS_SIZE: usize = 192;

// ---------------------------------------------------------------------------
// Seed trees
// ---------------------------------------------------------------------------

/// The depth of node `i` of a heap-indexed tree: `floor(log2(i))`.
pub open spec fn node_depth(i: nat) -> nat
    decreases i,
{
    if i <= 1 {
        0
    } else {
        1 + node_depth(i / 2)
    }
}

/// The node `levels` levels above node `i`.
pub open spec fn ancestor(i: nat, levels: nat) -> nat {
    i / pow2(levels)
}

/// The key deriving the children of the nodes at `depth >= 1`.
pub open spec fn tree_key(salt: Seq<u8>, execution: u8, depth: nat) -> Seq<u8> {
    tweak_spec(salt, 2, execution, (depth - 1) as u16)
}

/// The seed of child `child` of node `parent` whose seed is `parent_seed`:
/// the left child is derived from the parent, the right child is the left
/// one xored with the parent.
pub open spec fn child_seed(
    salt: Seq<u8>,
    execution: u8,
    parent: nat,
    parent_seed: Seq<u8>,
    child: nat,
) -> Seq<u8> {
    let left = seed_derive_spec(tree_key(salt, execution, node_depth(parent)), parent_seed);
    if child % 2 == 0 {
        left
    } else {
        xor_seq(left, parent_seed)
    }
}

/// The seed of node `i >= 2` of the full tree of one execution: node 2 is the
/// root seed, node 3 the root seed xored with `delta`.
pub open spec fn full_node(salt: Seq<u8>, root: Seq<u8>, delta: Seq<u8>, execution: u8, i: nat) -> Seq<
    u8,
>
    decreases i,
{
    if i <= 2 {
        root
    } else if i == 3 {
        xor_seq(root, delta)
    } else {
        child_seed(salt, execution, i / 2, full_node(salt, root, delta, execution, i / 2), i)
    }
}

/// Nodes `start <= p < 2 start` with `start = 2^d` lie at depth `d`.
pub proof fn lemma_node_depth(p: nat, d: nat)
    requires
        pow2(d) <= p < pow2(d + 1),
    ensures
        node_depth(p) == d,
    decreases d,
{
    lemma_pow2_unfold(d + 1);
    if d == 0 {
        assert(pow2(0) == 1) by {
            vstd::arithmetic::power2::lemma2_to64();
        }
    } else {
        lemma_pow2_unfold(d);
        lemma_node_depth(p / 2, (d - 1) as nat);
    }
}

/// Expand the whole seed tree of one execution from its root seed and
/// `delta`: node 2 holds the root seed, node 3 the root seed xored with
/// `delta`, and every node below depth 11 its two children.
pub fn fully_expand_tree(salt: &[u8; 16], root_seed: &[u8; 16], delta: &[u8; 16], execution: u8) -> (r:
    Vec<[u8; 16]>)
    ensures
        r@.len() == FULL_TREE_SIZE,
        forall|i: int|
            2 <= i < FULL_TREE_SIZE ==> #[trigger] r@[i]@ == full_node(
                salt@,
                root_seed@,
                delta@,
                execution,
                i as nat,
            ),
{
    let mut nodes: Vec<[u8; 16]> = vec![[0u8; 16]; FULL_TREE_SIZE];
    nodes.set(2, *root_seed);
    let mut right = [0u8; 16];
    let mut k: usize = 0;
    while k < 16
        invariant
            k <= 16,
            forall|j: int| 0 <= j < k ==> #[trigger] right@[j] == root_seed@[j] ^ delta@[j],
        decreases 16 - k,
    {
        right[k] = root_seed[k] ^ delta[k];
        k += 1;
    }
    assert(right@ =~= xor_seq(root_seed@, delta@));
    nodes.set(3, right);
    let mut depth: usize = 1;
    let mut start: usize = 2;
    proof {
        vstd::arithmetic::power2::lemma2_to64();
    }
    while depth < params::NB_EVALS_LOG
        invariant
            1 <= depth <= 11,
            start == pow2(depth as nat),
            nodes@.len() == FULL_TREE_SIZE,
            forall|i: int|
                2 <= i < 2 * start ==> #[trigger] nodes@[i]@ == full_node(
                    salt@,
                    root_seed@,
                    delta@,
                    execution,
                    i as nat,
                ),
        decreases 11 - depth,
    {
        proof {
            vstd::arithmetic::power2::lemma2_to64();
            vstd::arithmetic::power2::lemma_pow2_strictly_increases(depth as nat, 11);
            lemma_pow2_unfold(depth as nat + 1);
        }
        let key = prg::tweak_salt_with_selector(salt, 2, execution, (depth - 1) as u16);
        let deriver = SeedDeriver::new(&key);
        let mut parent = start;
        while parent < 2 * start
            invariant
                1 <= depth < 11,
                start == pow2(depth as nat),
                start <= 1024,
                start <= parent <= 2 * start,
                nodes@.len() == FULL_TREE_SIZE,
                deriver@ == tree_key(salt@, execution, depth as nat),
                forall|i: int|
                    2 <= i < 2 * parent ==> #[trigger] nodes@[i]@ == full_node(
                        salt@,
                        root_seed@,
                        delta@,
                        execution,
                        i as nat,
                    ),
            decreases 2 * start - parent,
        {
            proof {
                lemma_pow2_unfold(depth as nat + 1);
                lemma_node_depth(parent as nat, depth as nat);
            }
            let parent_seed = nodes[parent];
            let left = deriver.derive(&parent_seed);
            let mut right = left;
            let mut k: usize = 0;
            while k < 16
                invariant
                    k <= 16,
                    forall|j: int| 0 <= j < k ==> #[trigger] right@[j] == left@[j] ^ parent_seed@[j],
                    forall|j: int| k <= j < 16 ==> #[trigger] right@[j] == left@[j],
                decreases 16 - k,
            {
                right[k] = right[k] ^ parent_seed[k];
                k += 1;
            }
            assert(right@ =~= xor_seq(left@, parent_seed@));
            nodes.set(2 * parent, left);
            nodes.set(2 * parent + 1, right);
            proof {
                assert((2 * parent) as nat / 2 == parent as nat);
                assert((2 * parent + 1) as nat / 2 == parent as nat);
            }
            parent += 1;
        }
        depth += 1;
        start = 2 * start;
        proof {
            lemma_pow2_unfold(depth as nat);
        }
    }
    nodes
}

/// Nodes below `2^(d+1)` lie at depth at most `d`.
pub proof fn lemma_depth_below(i: nat, d: nat)
    requires
        i < pow2(d + 1),
    ensures
        node_depth(i) <= d,
    decreases d,
{
    lemma_pow2_unfold(d + 1);
    if d > 0 && i > 1 {
        lemma_depth_below(i / 2, (d - 1) as nat);
    } else if i > 1 {
        vstd::arithmetic::power2::lemma2_to64();
    }
}

/// The other child of the parent of node `i`.
pub open spec fn sibling(i: nat) -> nat {
    if i % 2 == 0 {
        i + 1
    } else {
        (i - 1) as nat
    }
}

/// The ancestors of a leaf `h` lie at the expected depths.
pub proof fn lemma_ancestor(h: nat, l: nat)
    requires
        2048 <= h < 4096,
        l <= 11,
    ensures
        pow2((11 - l) as nat) <= ancestor(h, l) < pow2((12 - l) as nat),
        node_depth(ancestor(h, l)) == 11 - l,
        l < 11 ==> ancestor(h, l + 1) == ancestor(h, l) / 2,
        l == 0 ==> ancestor(h, l) == h,
    decreases l,
{
    vstd::arithmetic::power2::lemma2_to64();
    lemma_pow2_pos(l);
    lemma_pow2_unfold(l + 1);
    vstd::arithmetic::div_mod::lemma_div_denominator(h as int, pow2(l) as int, 2);
    if l == 0 {
        assert(pow2(0) == 1);
        assert(h / 1 == h);
    } else {
        lemma_ancestor(h, (l - 1) as nat);
        lemma_pow2_unfold((12 - l) as nat);
        if l < 11 {
            lemma_pow2_unfold((11 - l) as nat);
        }
    }
    lemma_node_depth(ancestor(h, l), (11 - l) as nat);
}

/// A node and its sibling share their parent and depth.
pub proof fn lemma_sibling(i: nat)
    requires
        i >= 2,
    ensures
        sibling(i) / 2 == i / 2,
        sibling(i) >= 2,
        node_depth(sibling(i)) == node_depth(i),
        sibling(sibling(i)) == i,
        sibling(i) != i,
{
}

/// Fill `path` with the seeds of the siblings of the ancestors of leaf
/// `hidden_index`, from the leaf up, and return the seed of that leaf; the
/// tree is the full tree of `root_seed` and `delta`, derived on the way down.
pub fn opening_path(
    salt: &[u8; 16],
    root_seed: &[u8; 16],
    delta: &[u8; 16],
    execution: u8,
    hidden_index: usize,
    path: &mut [u8],
) -> (r: Option<[u8; 16]>)
    ensures
        final(path)@.len() == old(path)@.len(),
        r is Some <==> hidden_index < params::NB_EVALS && old(path)@.len()
            == PATH_SIZE_PER_EXECUTION,
        r is None ==> final(path)@ == old(path)@,
        r matches Some(leaf) ==> leaf@ == full_node(
            salt@,
            root_seed@,
            delta@,
            execution,
            (LEAF_OFFSET + hidden_index) as nat,
        ) && forall|l: int|
            0 <= l < 11 ==> #[trigger] final(path)@.subrange(16 * l, 16 * l + 16) == full_node(
                salt@,
                root_seed@,
                delta@,
                execution,
                sibling(ancestor((LEAF_OFFSET + hidden_index) as nat, l as nat)),
            ),
{
    if hidden_index >= params::NB_EVALS || path.len() != PATH_SIZE_PER_EXECUTION {
        return None;
    }
    let ghost h = (LEAF_OFFSET + hidden_index) as nat;
    let ghost full = |i: nat| full_node(salt@, root_seed@, delta@, execution, i);
    let mut parent = *delta;
    let leaf_index = LEAF_OFFSET + hidden_index;
    let mut depth: usize = 0;
    while depth < params::NB_EVALS_LOG
        invariant
            depth <= 11,
            h == leaf_index,
            2048 <= h < 4096,
            path@.len() == PATH_SIZE_PER_EXECUTION,
            full == (|i: nat| full_node(salt@, root_seed@, delta@, execution, i)),
            depth == 0 ==> parent@ == delta@,
            depth > 0 ==> parent@ == full(ancestor(h, (11 - depth) as nat)),
            forall|l: int|
                11 - depth <= l < 11 ==> #[trigger] path@.subrange(16 * l, 16 * l + 16) == full(
                    sibling(ancestor(h, l as nat)),
                ),
        decreases 11 - depth,
    {
        let ghost a = ancestor(h, (11 - depth) as nat);
        let ghost c = ancestor(h, (10 - depth) as nat);
        proof {
            lemma_ancestor(h, (10 - depth) as nat);
            lemma_ancestor(h, (11 - depth) as nat);
            vstd::arithmetic::power2::lemma2_to64();
            if depth > 0 {
                lemma_node_depth(a, depth as nat);
            }
        }
        let left = if depth == 0 {
            *root_seed
        } else {
            let key = prg::tweak_salt_with_selector(salt, 2, execution, (depth - 1) as u16);
            SeedDeriver::new(&key).derive(&parent)
        };
        let mut right = left;
        let mut k: usize = 0;
        while k < 16
            invariant
                k <= 16,
                forall|j: int| 0 <= j < k ==> #[trigger] right@[j] == left@[j] ^ parent@[j],
                forall|j: int| k <= j < 16 ==> #[trigger] right@[j] == left@[j],
            decreases 16 - k,
        {
            right[k] = right[k] ^ parent[k];
            k += 1;
        }
        assert(right@ =~= xor_seq(left@, parent@));
        let shifted = leaf_index >> (10 - depth);
        let bit = shifted & 1;
        proof {
            vstd::bits::lemma_usize_shr_is_div(leaf_index, (10 - depth) as usize);
            assert(shifted == c);
            assert(shifted & 1 == shifted % 2) by (bit_vector);
            assert(c / 2 == a);
            assert(left@ == full(2 * a));
            assert(right@ == full(2 * a + 1));
        }
        let (selected, sibling_seed) = if bit == 0 {
            (left, right)
        } else {
            (right, left)
        };
        let path_index = 10 - depth;
        let ghost before = path@;
        let mut k: usize = 0;
        while k < 16
            invariant
                k <= 16,
                path_index == 10 - depth,
                depth < 11,
                path@.len() == PATH_SIZE_PER_EXECUTION,
                forall|j: int| 0 <= j < k ==> #[trigger] path@[16 * path_index + j] == sibling_seed@[j],
                forall|j: int|
                    0 <= j < PATH_SIZE_PER_EXECUTION && !(16 * path_index <= j < 16 * path_index + k)
                        ==> #[trigger] path@[j] == before[j],
            decreases 16 - k,
        {
            path[16 * path_index + k] = sibling_seed[k];
            k += 1;
        }
        proof {
            assert forall|j: int| 0 <= j < 16 implies #[trigger] path@.subrange(
                16 * path_index,
                16 * path_index + 16,
            )[j] == sibling_seed@[j] by {
                assert(path@[16 * path_index + j] == sibling_seed@[j]);
            }
            assert(path@.subrange(16 * path_index, 16 * path_index + 16) =~= sibling_seed@);
            assert(sibling(c) == if c % 2 == 0 { c + 1 } else { (c - 1) as nat });
            assert(sibling_seed@ == full(sibling(c)));
            assert(selected@ == full(c));
            assert forall|l: int| 10 - depth < l < 11 implies #[trigger] path@.subrange(
                16 * l,
                16 * l + 16,
            ) == before.subrange(16 * l, 16 * l + 16) by {
                assert(path@.subrange(16 * l, 16 * l + 16) =~= before.subrange(16 * l, 16 * l + 16));
            }
        }
        parent = selected;
        depth += 1;
    }
    proof {
        lemma_ancestor(h, 0);
    }
    Some(parent)
}

/// Whether node `i` is an ancestor of (or is) the leaf `h`.
pub open spec fn on_path(h: nat, i: nat) -> bool {
    ancestor(h, (11 - node_depth(i)) as nat) == i
}

/// Whether node `i` is the sibling of an ancestor of (or of) the leaf `h`.
pub open spec fn beside_path(h: nat, i: nat) -> bool {
    ancestor(h, (11 - node_depth(i)) as nat) == sibling(i)
}

/// Chunk `l` of an authentication path.
pub open spec fn path_chunk(path: Seq<u8>, l: nat) -> Seq<u8> {
    path.subrange(16 * l as int, 16 * l as int + 16)
}

/// Sixteen zero bytes.
pub open spec fn zero_seed() -> Seq<u8> {
    Seq::new(16, |k: int| 0u8)
}

/// The seed of node `i` of a tree reconstructed from the authentication path
/// of the hidden leaf `h`: the path gives the siblings of the ancestors of
/// `h`, every other node not on the path is derived from its parent, and the
/// nodes on the path stay zero.
pub open spec fn partial_node(salt: Seq<u8>, path: Seq<u8>, execution: u8, h: nat, i: nat) -> Seq<
    u8,
>
    decreases i,
{
    if i < 2 || node_depth(i) > 11 {
        zero_seed()
    } else if beside_path(h, i) {
        path_chunk(path, (11 - node_depth(i)) as nat)
    } else if on_path(h, i) || i < 4 {
        zero_seed()
    } else {
        child_seed(salt, execution, i / 2, partial_node(salt, path, execution, h, i / 2), i)
    }
}

/// For the children `c` of a node `p` at depth below 11: whether they lie on
/// or beside the path follows from `p`.
proof fn lemma_children_on_path(h: nat, p: nat, c: nat)
    requires
        2048 <= h < 4096,
        2 <= p,
        1 <= node_depth(p) <= 10,
        c / 2 == p,
    ensures
        node_depth(c) == node_depth(p) + 1,
        !on_path(h, p) ==> !on_path(h, c) && !beside_path(h, c),
        on_path(h, p) ==> (beside_path(h, c) == !on_path(h, c)),
{
    let l = (11 - node_depth(p)) as nat;
    lemma_ancestor(h, (l - 1) as nat);
    assert(node_depth(c) == 1 + node_depth(c / 2));
    let a = ancestor(h, (l - 1) as nat);
    assert(ancestor(h, l) == a / 2);
    lemma_sibling(c);
}

/// Reconstruct the leaves of one execution's tree from the authentication
/// path of leaf `hidden_index`; the hidden leaf itself stays zero.
///
/// Returns `None` unless the path has the length of one execution's path
/// and the index is that of a leaf.
pub fn partially_expand_tree(salt: &[u8; 16], path: &[u8], execution: u8, hidden_index: usize) -> (r:
    Option<Vec<[u8; 16]>>)
    ensures
        r is Some <==> path@.len() == PATH_SIZE_PER_EXECUTION && hidden_index < params::NB_EVALS,
        r matches Some(leaves) ==> leaves@.len() == params::NB_EVALS && forall|j: int|
            0 <= j < params::NB_EVALS ==> #[trigger] leaves@[j]@ == partial_node(
                salt@,
                path@,
                execution,
                (LEAF_OFFSET + hidden_index) as nat,
                (LEAF_OFFSET + j) as nat,
            ),
{
    if path.len() != PATH_SIZE_PER_EXECUTION || hidden_index >= params::NB_EVALS {
        return None;
    }
    let ghost h = (LEAF_OFFSET + hidden_index) as nat;
    let ghost pn = |i: nat| partial_node(salt@, path@, execution, h, i);
    let zero = [0u8; 16];
    assert(zero@ =~= zero_seed());
    let mut nodes: Vec<[u8; 16]> = vec![zero; FULL_TREE_SIZE];
    let mut present: Vec<bool> = vec![false; FULL_TREE_SIZE];
    let mut node_index = LEAF_OFFSET + hidden_index;
    let mut level: usize = 0;
    proof {
        lemma_ancestor(h, 0);
        vstd::arithmetic::power2::lemma2_to64();
        assert forall|i: int| 2 <= i < FULL_TREE_SIZE implies #[trigger] node_depth(i as nat) <= 11 by {
            lemma_depth_below(i as nat, 11);
        }
    }
    while level < params::NB_EVALS_LOG
        invariant
            level <= 11,
            path@.len() == PATH_SIZE_PER_EXECUTION,
            2048 <= h < 4096,
            node_index == ancestor(h, level as nat),
            nodes@.len() == FULL_TREE_SIZE,
            present@.len() == FULL_TREE_SIZE,
            pn == (|i: nat| partial_node(salt@, path@, execution, h, i)),
            !present@[0] && !present@[1],
            forall|i: int| 2 <= i < FULL_TREE_SIZE ==> #[trigger] node_depth(i as nat) <= 11,
            forall|i: int|
                2 <= i < FULL_TREE_SIZE ==> #[trigger] present@[i] == (beside_path(h, i as nat) && 11
                    - node_depth(i as nat) < level),
            forall|i: int|
                0 <= i < FULL_TREE_SIZE ==> (#[trigger] present@[i] ==> nodes@[i]@ == pn(i as nat))
                    && (!present@[i] ==> nodes@[i]@ == zero_seed()),
        decreases 11 - level,
    {
        proof {
            lemma_ancestor(h, level as nat);
            vstd::arithmetic::power2::lemma2_to64();
            vstd::arithmetic::power2::lemma_pow2_strictly_increases((11 - level) as nat, 12);
            if level < 10 {
                vstd::arithmetic::power2::lemma_pow2_strictly_increases(1, (11 - level) as nat);
            }
        }
        let sibling_index = node_index ^ 1;
        proof {
            assert(sibling_index == if node_index % 2 == 0 { (node_index + 1) as usize } else { (
            node_index - 1) as usize }) by (bit_vector)
                requires
                    sibling_index == node_index ^ 1,
                    node_index >= 2,
            ;
            lemma_sibling(node_index as nat);
        }
        let mut chunk = [0u8; 16];
        let mut k: usize = 0;
        while k < 16
            invariant
                k <= 16,
                level < 11,
                path@.len() == PATH_SIZE_PER_EXECUTION,
                forall|j: int| 0 <= j < k ==> #[trigger] chunk@[j] == path@[16 * level + j],
            decreases 16 - k,
        {
            chunk[k] = path[16 * level + k];
            k += 1;
        }
        assert(chunk@ =~= path_chunk(path@, level as nat));
        nodes.set(sibling_index, chunk);
        present.set(sibling_index, true);
        proof {
            let si = sibling_index as nat;
            assert(node_depth(si) == 11 - level);
            assert(beside_path(h, si));
            assert(pn(si) == path_chunk(path@, level as nat));
            assert forall|i: int| 2 <= i < FULL_TREE_SIZE implies #[trigger] present@[i] == (
            beside_path(h, i as nat) && 11 - node_depth(i as nat) < level + 1) by {
                if i != sibling_index && beside_path(h, i as nat) && 11 - node_depth(i as nat)
                    == level {
                    lemma_sibling(i as nat);
                    assert(sibling(i as nat) == node_index);
                    assert(false);
                }
            }
        }
        node_index = node_index / 2;
        level += 1;
        proof {
            lemma_ancestor(h, (level - 1) as nat);
        }
    }
    proof {
        lemma_ancestor(h, 10);
        lemma_ancestor(h, 11);
        vstd::arithmetic::power2::lemma2_to64();
        assert forall|i: int| 2 <= i < 4 implies #[trigger] present@[i] == !on_path(h, i as nat) by {
            assert(node_depth(i as nat) == 1);
            lemma_sibling(i as nat);
        }
    }
    let mut depth: usize = 1;
    let mut start: usize = 2;
    while depth < params::NB_EVALS_LOG
        invariant
            1 <= depth <= 11,
            start == pow2(depth as nat),
            2048 <= h < 4096,
            path@.len() == PATH_SIZE_PER_EXECUTION,
            nodes@.len() == FULL_TREE_SIZE,
            present@.len() == FULL_TREE_SIZE,
            pn == (|i: nat| partial_node(salt@, path@, execution, h, i)),
            forall|i: int|
                2 <= i < FULL_TREE_SIZE ==> #[trigger] present@[i] == (if i < 2 * start {
                    !on_path(h, i as nat)
                } else {
                    beside_path(h, i as nat)
                }),
            forall|i: int|
                0 <= i < FULL_TREE_SIZE ==> (#[trigger] present@[i] ==> nodes@[i]@ == pn(i as nat))
                    && (!present@[i] ==> nodes@[i]@ == zero_seed()),
        decreases 11 - depth,
    {
        proof {
            vstd::arithmetic::power2::lemma2_to64();
            vstd::arithmetic::power2::lemma_pow2_strictly_increases(depth as nat, 11);
            lemma_pow2_unfold(depth as nat + 1);
        }
        let key = prg::tweak_salt_with_selector(salt, 2, execution, (depth - 1) as u16);
        let deriver = SeedDeriver::new(&key);
        let mut parent = start;
        while parent < 2 * start
            invariant
                1 <= depth < 11,
                start == pow2(depth as nat),
                start <= 1024,
                start <= parent <= 2 * start,
                2048 <= h < 4096,
                nodes@.len() == FULL_TREE_SIZE,
                present@.len() == FULL_TREE_SIZE,
                deriver@ == tree_key(salt@, execution, depth as nat),
                pn == (|i: nat| partial_node(salt@, path@, execution, h, i)),
                forall|i: int|
                    2 <= i < FULL_TREE_SIZE ==> #[trigger] present@[i] == (if i < 2 * parent {
                        !on_path(h, i as nat)
                    } else {
                        beside_path(h, i as nat)
                    }),
                forall|i: int|
                    0 <= i < FULL_TREE_SIZE ==> (#[trigger] present@[i] ==> nodes@[i]@ == pn(
                        i as nat,
                    )) && (!present@[i] ==> nodes@[i]@ == zero_seed()),
            decreases 2 * start - parent,
        {
            proof {
                lemma_pow2_unfold(depth as nat + 1);
                lemma_node_depth(parent as nat, depth as nat);
                lemma_children_on_path(h, parent as nat, (2 * parent) as nat);
                lemma_children_on_path(h, parent as nat, (2 * parent + 1) as nat);
            }
            if present[parent] {
                let parent_seed = nodes[parent];
                let left = deriver.derive(&parent_seed);
                let mut right = left;
                let mut k: usize = 0;
                while k < 16
                    invariant
                        k <= 16,
                        forall|j: int|
                            0 <= j < k ==> #[trigger] right@[j] == left@[j] ^ parent_seed@[j],
                        forall|j: int| k <= j < 16 ==> #[trigger] right@[j] == left@[j],
                    decreases 16 - k,
                {
                    right[k] = right[k] ^ parent_seed[k];
                    k += 1;
                }
                assert(right@ =~= xor_seq(left@, parent_seed@));
                proof {
                    assert((2 * parent) as nat / 2 == parent as nat);
                    assert((2 * parent + 1) as nat / 2 == parent as nat);
                    assert(pn((2 * parent) as nat) == left@);
                    assert(pn((2 * parent + 1) as nat) == right@);
                }
                nodes.set(2 * parent, left);
                nodes.set(2 * parent + 1, right);
                present.set(2 * parent, true);
                present.set(2 * parent + 1, true);
            }
            parent += 1;
        }
        depth += 1;
        start = 2 * start;
        proof {
            lemma_pow2_unfold(depth as nat);
        }
    }
    proof {
        vstd::arithmetic::power2::lemma2_to64();
        lemma_ancestor(h, 0);
    }
    let mut index: usize = 0;
    while index < params::NB_EVALS
        invariant
            index <= 2048,
            2048 <= h < 4096,
            h == LEAF_OFFSET + hidden_index,
            present@.len() == FULL_TREE_SIZE,
            forall|i: int| 2 <= i < FULL_TREE_SIZE ==> #[trigger] present@[i] == !on_path(h, i as nat),
        decreases 2048 - index,
    {
        let is_present = present[LEAF_OFFSET + index];
        proof {
            let leaf = (LEAF_OFFSET + index) as nat;
            vstd::arithmetic::power2::lemma2_to64();
            lemma_node_depth(leaf, 11);
            assert(ancestor(h, 0) == h);
        }
        if is_present == (index == hidden_index) {
            return None;
        }
        index += 1;
    }
    let mut leaves: Vec<[u8; 16]> = Vec::new();
    let mut index: usize = 0;
    while index < params::NB_EVALS
        invariant
            index <= 2048,
            nodes@.len() == FULL_TREE_SIZE,
            present@.len() == FULL_TREE_SIZE,
            leaves@.len() == index,
            pn == (|i: nat| partial_node(salt@, path@, execution, h, i)),
            forall|i: int|
                0 <= i < FULL_TREE_SIZE ==> (#[trigger] present@[i] ==> nodes@[i]@ == pn(i as nat))
                    && (!present@[i] ==> nodes@[i]@ == zero_seed()),
            forall|i: int|
                2 <= i < FULL_TREE_SIZE ==> #[trigger] present@[i] == !on_path(h, i as nat),
            2048 <= h < 4096,
            forall|j: int| 0 <= j < index ==> #[trigger] leaves@[j]@ == pn((LEAF_OFFSET + j) as nat),
        decreases 2048 - index,
    {
        proof {
            let leaf = (LEAF_OFFSET + index) as nat;
            vstd::arithmetic::power2::lemma2_to64();
            lemma_node_depth(leaf, 11);
            if !present@[leaf as int] {
                assert(on_path(h, leaf));
                assert(!beside_path(h, leaf)) by {
                    lemma_sibling(leaf);
                }
                assert(pn(leaf) == zero_seed());
            }
        }
        leaves.push(nodes[LEAF_OFFSET + index]);
        index += 1;
    }
    Some(leaves)
}

// ---------------------------------------------------------------------------
// Leaf commitments
// ---------------------------------------------------------------------------

/// The first key of the leaf commitments of `execution`.
pub open spec fn commit_key_first(salt: Seq<u8>, execution: u8) -> Seq<u8> {
    tweak_spec(salt, 0, execution, 0)
}

/// The second key of the leaf commitments: the first with the low bit of
/// byte 0 flipped.
pub open spec fn commit_key_second(salt: Seq<u8>, execution: u8) -> Seq<u8> {
    let first = commit_key_first(salt, execution);
    first.update(0, first[0] ^ 1)
}

/// The commitment to a leaf seed: its derivations under both keys.
pub open spec fn leaf_commitment(salt: Seq<u8>, execution: u8, seed: Seq<u8>) -> Seq<u8> {
    seed_derive_spec(commit_key_first(salt, execution), seed) + seed_derive_spec(
        commit_key_second(salt, execution),
        seed,
    )
}

/// Commits to the leaf seeds of one execution.
pub struct SeedCommitter {
    first: SeedDeriver,
    second: SeedDeriver,
}

impl SeedCommitter {
    /// The salt and execution the committer was made for.
    pub closed spec fn keys(&self) -> (Seq<u8>, Seq<u8>) {
        (self.first@, self.second@)
    }

    /// The committer of `execution` under `salt`.
    pub fn new(salt: &[u8; 16], execution: u8) -> (r: Self)
        ensures
            r.keys() == (commit_key_first(salt@, execution), commit_key_second(salt@, execution)),
    {
        let first_key = prg::tweak_salt_with_selector(salt, 0, execution, 0);
        let mut second_key = first_key;
        second_key[0] = second_key[0] ^ 1;
        assert(second_key@ =~= commit_key_second(salt@, execution));
        SeedCommitter { first: SeedDeriver::new(&first_key), second: SeedDeriver::new(&second_key) }
    }

    /// The commitment to `seed`.
    pub fn commit(&self, seed: &[u8; 16]) -> (r: [u8; 32])
        ensures
            r@ == seed_derive_spec(self.keys().0, seed@) + seed_derive_spec(self.keys().1, seed@),
    {
        let first = self.first.derive(seed);
        let second = self.second.derive(seed);
        let mut commitment = [0u8; 32];
        let mut k: usize = 0;
        while k < 16
            invariant
                k <= 16,
                forall|j: int| 0 <= j < k ==> #[trigger] commitment@[j] == first@[j],
                forall|j: int| 16 <= j < 16 + k ==> #[trigger] commitment@[j] == second@[j - 16],
            decreases 16 - k,
        {
            commitment[k] = first[k];
            commitment[16 + k] = second[k];
            k += 1;
        }
        assert(commitment@ =~= first@ + second@);
        commitment
    }
}

// ---------------------------------------------------------------------------
// Gray code
// ---------------------------------------------------------------------------

/// The reflected binary Gray code of `index`.
pub open spec fn gray_spec(index: u16) -> u16 {
    index ^ (index >> 1u16)
}

/// The Gray code following that of `index` in the cycle of the 2048 leaves.
pub open spec fn gray_next_spec(index: int) -> u16 {
    if index + 1 < 2048 {
        gray_spec((index + 1) as u16)
    } else {
        0
    }
}

/// The bit in which the Gray codes of `index` and of the next leaf differ.
pub open spec fn gray_position_spec(index: int) -> int {
    vstd::std_specs::bits::u16_trailing_zeros(gray_spec(index as u16) ^ gray_next_spec(index))
        as int
}

/// Consecutive leaves of the Gray-code cycle differ in exactly one of the
/// eleven bits of a leaf index.
pub proof fn lemma_gray_position(index: int)
    requires
        0 <= index < 2048,
    ensures
        0 <= gray_position_spec(index) < 11,
        gray_spec(index as u16) ^ gray_next_spec(index) == 1u16 << (gray_position_spec(index) as u16),
{
    let i = index as u16;
    let n = gray_next_spec(index);
    let x = gray_spec(i) ^ n;
    vstd::std_specs::bits::axiom_u16_trailing_zeros(x);
    assert(n == if i + 1 < 2048 { gray_spec((i + 1) as u16) } else { 0u16 });
    assert(x != 0 && x & ((x - 1) as u16) == 0 && x < 2048) by (bit_vector)
        requires
            i < 2048,
            x == i ^ (i >> 1u16) ^ n,
            n == if i + 1 < 2048 { ((i + 1) as u16) ^ (((i + 1) as u16) >> 1u16) } else { 0u16 },
    ;
    let t = vstd::std_specs::bits::u16_trailing_zeros(x) as u16;
    assert(t < 11 && x == 1u16 << t) by (bit_vector)
        requires
            x != 0,
            x & ((x - 1) as u16) == 0,
            x < 2048,
            t < 16,
            (x >> t) & 1u16 == 1u16,
    ;
}

/// The Gray code of `index`, if it fits 16 bits.
pub fn gray_code(index: usize) -> (r: Option<u16>)
    ensures
        r is Some <==> index <= u16::MAX,
        r matches Some(g) ==> g == gray_spec(index as u16),
{
    if index > 0xffff {
        return None;
    }
    let index = index as u16;
    Some(index ^ (index >> 1))
}

/// The bit that changes from the Gray code of leaf `index` to that of the
/// next leaf of the cycle, if it is one of the eleven bits of a leaf index.
pub fn gray_code_bit_position(index: usize) -> (r: Option<usize>)
    ensures
        r == (if index <= u16::MAX && 0 <= gray_position_spec(index as int) < 11 {
            Some(gray_position_spec(index as int) as usize)
        } else {
            None::<usize>
        }),
        index < params::NB_EVALS ==> (r matches Some(p) && p < 11 && gray_spec(index as u16)
            ^ gray_next_spec(index as int) == 1u16 << (p as u16)),
{
    let current = match gray_code(index) {
        Some(value) => value,
        None => {
            return None;
        },
    };
    let next = if index + 1 < params::NB_EVALS {
        match gray_code(index + 1) {
            Some(value) => value,
            None => {
                return None;
            },
        }
    } else {
        0
    };
    let x = current ^ next;
    let position = x.trailing_zeros() as usize;
    proof {
        if index < 2048 {
            lemma_gray_position(index as int);
        }
    }
    if position < params::NB_EVALS_LOG {
        Some(position)
    } else {
        None
    }
}

/// Xor `source` into `destination`; `None`, leaving it unchanged, unless
/// both have the same length.
pub fn xor_bytes(destination: &mut [u8], source: &[u8]) -> (r: Option<()>)
    ensures
        r is Some <==> old(destination)@.len() == source@.len(),
        r is Some ==> final(destination)@ == xor_seq(old(destination)@, source@),
        r is None ==> final(destination)@ == old(destination)@,
{
    if destination.len() != source.len() {
        return None;
    }
    let ghost before = destination@;
    let mut k: usize = 0;
    while k < destination.len()
        invariant
            k <= destination@.len(),
            destination@.len() == before.len(),
            source@.len() == before.len(),
            forall|j: int| 0 <= j < k ==> #[trigger] destination@[j] == before[j] ^ source@[j],
            forall|j: int| k <= j < before.len() ==> #[trigger] destination@[j] == before[j],
        decreases before.len() - k,
    {
        destination[k] = destination[k] ^ source[k];
        k += 1;
    }
    assert(destination@ =~= xor_seq(before, source@));
    Some(())
}

/// The extension-field elements encoded little-endian in `bytes`.
pub open spec fn decode_ext_vector(bytes: Seq<u8>) -> Seq<(u8, u8)> {
    Seq::new(bytes.len() / 2, |k: int| (bytes[2 * k], bytes[2 * k + 1]))
}

/// Decode exactly `N` extension-field elements, little-endian.
pub fn parse_extension_vector<const N: usize>(bytes: &[u8]) -> (r: Option<[Gf256x2; N]>)
    ensures
        r is Some <==> bytes@.len() == 2 * N,
        r matches Some(v) ==> ext_values(v@) == decode_ext_vector(bytes@),
{
    let length = bytes.len();
    if N > usize::MAX / 2 {
        assert(2 * N > usize::MAX);
        assert(length <= usize::MAX);
        return None;
    }
    if bytes.len() != N * 2 {
        return None;
    }
    let mut output = [Gf256x2::zero(); N];
    let mut k: usize = 0;
    while k < N
        invariant
            k <= N,
            bytes@.len() == 2 * N,
            2 * N <= usize::MAX,
            forall|j: int| 0 <= j < k ==> #[trigger] output@[j]@ == (bytes@[2 * j], bytes@[2 * j + 1]),
        decreases N - k,
    {
        output[k] = Gf256x2::from_bytes([bytes[2 * k], bytes[2 * k + 1]]);
        k += 1;
    }
    assert(ext_values(output@) =~= decode_ext_vector(bytes@));
    Some(output)
}

// ---------------------------------------------------------------------------
// Leaf expansion and folding
// ---------------------------------------------------------------------------

/// `n` zero bytes.
pub open spec fn zeros(n: nat) -> Seq<u8> {
    Seq::new(n, |k: int| 0u8)
}

/// The byte strings of a sequence of 16-byte seeds.
pub open spec fn seed_values(seeds: Seq<[u8; 16]>) -> Seq<Seq<u8>> {
    seeds.map_values(|s: [u8; 16]| s@)
}

/// The expansion of a leaf seed: the seed, then 28 generator bytes.
pub open spec fn leaf_expansion(salt: Seq<u8>, execution: u8, seed: Seq<u8>) -> Seq<u8> {
    seed + prg::prg_stream(salt, execution, seed, LEAF_PRG_SIZE as nat)
}

/// The expanded leaves of one execution; the hidden leaf, if any, is zero.
pub open spec fn expanded_leaves(
    salt: Seq<u8>,
    execution: u8,
    leaves: Seq<Seq<u8>>,
    hidden: Option<usize>,
) -> Seq<Seq<u8>> {
    Seq::new(
        params::NB_EVALS as nat,
        |j: int|
            if hidden == Some(j as usize) {
                zeros(EXPANDED_LEAF_SIZE as nat)
            } else {
                leaf_expansion(salt, execution, leaves[j])
            },
    )
}

/// The leaf commitments of one execution; the hidden leaf, if any, has the
/// commitment `hidden_commitment` carried by the opening.
pub open spec fn leaf_commitments(
    salt: Seq<u8>,
    execution: u8,
    leaves: Seq<Seq<u8>>,
    hidden: Option<usize>,
    hidden_commitment: Seq<u8>,
) -> Seq<Seq<u8>> {
    Seq::new(
        params::NB_EVALS as nat,
        |j: int|
            if hidden == Some(j as usize) {
                hidden_commitment
            } else {
                leaf_commitment(salt, execution, leaves[j])
            },
    )
}

/// The digest of the leaf commitments of one execution.
pub open spec fn leaves_digest(commitments: Seq<Seq<u8>>) -> Seq<u8> {
    shake128_bytes(seq![6u8] + commitments.flatten(), COMMITMENT_SIZE as nat)
}

/// The exclusive or of the first `n` expanded leaves.
pub open spec fn prefix_xor(terms: Seq<Seq<u8>>, n: int) -> Seq<u8>
    decreases n,
{
    if n <= 0 {
        zeros(EXPANDED_LEAF_SIZE as nat)
    } else {
        xor_seq(prefix_xor(terms, n - 1), terms[n - 1])
    }
}

/// The folded sums after `n` leaves: the running sum after leaf `j` is
/// added to slot `f` when the Gray code changes in bit `f` after `j`.
pub open spec fn folding_spec(terms: Seq<Seq<u8>>, n: int) -> Seq<Seq<u8>>
    decreases n,
{
    if n <= 0 {
        Seq::new(params::NB_EVALS_LOG as nat, |f: int| zeros(EXPANDED_LEAF_SIZE as nat))
    } else {
        let previous = folding_spec(terms, n - 1);
        let f = gray_position_spec(n - 1);
        previous.update(f, xor_seq(previous[f], prefix_xor(terms, n)))
    }
}

/// The folding slots have 44 bytes each.
pub proof fn lemma_folding_lengths(terms: Seq<Seq<u8>>, n: int)
    requires
        0 <= n <= 2048,
    ensures
        prefix_xor(terms, n).len() == 44,
        folding_spec(terms, n).len() == 11,
        forall|f: int| 0 <= f < 11 ==> (#[trigger] folding_spec(terms, n)[f]).len() == 44,
    decreases n,
{
    if n > 0 {
        lemma_folding_lengths(terms, n - 1);
        lemma_gray_position(n - 1);
    }
}

/// The byte strings of the folding slots.
pub open spec fn folding_values(folding: Seq<[u8; 44]>) -> Seq<Seq<u8>> {
    folding.map_values(|f: [u8; 44]| f@)
}

/// Expand, commit and fold the leaves of one execution.
///
/// Each leaf is committed and expanded, except the hidden one whose
/// commitment is `hidden_commitment` and whose expansion is zero. Returns
/// the digest of the commitments, the sum of the expansions and the folded
/// sums.
pub fn commit_leaves(
    salt: &[u8; 16],
    execution: u8,
    leaves: &[[u8; 16]],
    hidden: Option<usize>,
    hidden_commitment: &[u8],
) -> (r: ([u8; 32], [u8; 44], [[u8; 44]; 11]))
    requires
        leaves@.len() == params::NB_EVALS,
    ensures
        ({
            let expanded = expanded_leaves(salt@, execution, seed_values(leaves@), hidden);
            &&& r.0@ == leaves_digest(
                leaf_commitments(
                    salt@,
                    execution,
                    seed_values(leaves@),
                    hidden,
                    hidden_commitment@,
                ),
            )
            &&& r.1@ == prefix_xor(expanded, 2048)
            &&& folding_values(r.2@) == folding_spec(expanded, 2048)
        }),
{
    let ghost seeds = seed_values(leaves@);
    let ghost expanded = expanded_leaves(salt@, execution, seeds, hidden);
    let ghost commitments = leaf_commitments(
        salt@,
        execution,
        seeds,
        hidden,
        hidden_commitment@,
    );
    let committer = SeedCommitter::new(salt, execution);
    let generator = match Generator::new(salt, execution, LEAF_PRG_SIZE) {
        Some(generator) => generator,
        None => {
            proof {
                vstd::arithmetic::power2::lemma2_to64();
            }
            assert(false);
            return ([0u8; 32], [0u8; 44], [[0u8; 44]; 11]);
        },
    };
    let mut digest_state = Shake128State::new();
    let tag = [6u8];
    digest_state.absorb(&tag);
    let mut accumulator = [0u8; 44];
    let mut folding = [[0u8; 44]; 11];
    proof {
        assert(tag@ =~= seq![6u8]);
        assert(commitments.take(0) =~= Seq::<Seq<u8>>::empty());
        assert(commitments.take(0).flatten() =~= Seq::<u8>::empty());
        assert(digest_state@ =~= seq![6u8] + commitments.take(0).flatten());
        assert(accumulator@ =~= prefix_xor(expanded, 0));
        assert(folding_values(folding@) =~= folding_spec(expanded, 0));
    }
    let mut leaf_index: usize = 0;
    while leaf_index < params::NB_EVALS
        invariant
            leaf_index <= 2048,
            leaves@.len() == 2048,
            seeds == seed_values(leaves@),
            expanded == expanded_leaves(salt@, execution, seeds, hidden),
            commitments == leaf_commitments(
                salt@,
                execution,
                seeds,
                hidden,
                hidden_commitment@,
            ),
            committer.keys() == (commit_key_first(salt@, execution), commit_key_second(
                salt@,
                execution,
            )),
            generator.parameters() == (salt@, execution, LEAF_PRG_SIZE as nat),
            prg::prg_len_ok(LEAF_PRG_SIZE as nat),
            digest_state@ == seq![6u8] + commitments.take(leaf_index as int).flatten(),
            accumulator@ == prefix_xor(expanded, leaf_index as int),
            folding_values(folding@) == folding_spec(expanded, leaf_index as int),
        decreases 2048 - leaf_index,
    {
        let leaf_seed = leaves[leaf_index];
        let mut expansion = [0u8; 44];
        let is_hidden = match hidden {
            Some(index) => index == leaf_index,
            None => false,
        };
        if is_hidden {
            digest_state.absorb(hidden_commitment);
            assert(expansion@ =~= zeros(44));
        } else {
            let commitment = committer.commit(&leaf_seed);
            digest_state.absorb(&commitment);
            let mut stream = [0u8; 28];
            let filled = generator.fill(&leaf_seed, &mut stream);
            let mut k: usize = 0;
            while k < 16
                invariant
                    k <= 16,
                    forall|j: int| 0 <= j < k ==> #[trigger] expansion@[j] == leaf_seed@[j],
                decreases 16 - k,
            {
                expansion[k] = leaf_seed[k];
                k += 1;
            }
            let mut k: usize = 0;
            while k < 28
                invariant
                    k <= 28,
                    forall|j: int| 0 <= j < 16 ==> #[trigger] expansion@[j] == leaf_seed@[j],
                    forall|j: int| 16 <= j < 16 + k ==> #[trigger] expansion@[j] == stream@[j - 16],
                decreases 28 - k,
            {
                expansion[16 + k] = stream[k];
                k += 1;
            }
            assert(expansion@ =~= leaf_seed@ + stream@);
            assert(leaves@[leaf_index as int]@ == seeds[leaf_index as int]);
        }
        proof {
            let j = leaf_index as int;
            assert(expansion@ == expanded[j]);
            let prev = commitments.take(j);
            assert(commitments.take(j + 1) =~= prev.push(commitments[j]));
            prev.lemma_flatten_push(commitments[j]);
            assert(digest_state@ =~= seq![6u8] + commitments.take(j + 1).flatten());
            lemma_folding_lengths(expanded, j);
        }
        let _ = xor_bytes(&mut accumulator, &expansion);
        let position = match gray_code_bit_position(leaf_index) {
            Some(position) => position,
            None => {
                assert(false);
                return ([0u8; 32], [0u8; 44], [[0u8; 44]; 11]);
            },
        };
        let mut slot = folding[position];
        let _ = xor_bytes(&mut slot, &accumulator);
        let ghost before = folding_values(folding@);
        folding[position] = slot;
        proof {
            let j = leaf_index as int;
            assert(accumulator@ == prefix_xor(expanded, j + 1));
            assert(folding_values(folding@) =~= before.update(
                position as int,
                xor_seq(before[position as int], prefix_xor(expanded, j + 1)),
            ));
        }
        leaf_index += 1;
    }
    let mut digest = [0u8; 32];
    digest_state.squeeze(&mut digest);
    proof {
        assert(commitments.take(2048) =~= commitments);
    }
    (digest, accumulator, folding)
}

/// The element of GF(256^2) whose 16-bit encoding is the power of two
/// `2^f`.
pub open spec fn basis_element(f: int) -> (u8, u8) {
    let v = 1u16 << (f as u16);
    ((v % 256) as u8, (v / 256) as u8)
}

/// The contributions of the folded sums to coordinate `k` of the base
/// vector: the nibble `k` of slot `f` scaled by the basis element `f`.
pub open spec fn fold_x_terms(folding: Seq<Seq<u8>>, k: int) -> Seq<(u8, u8)> {
    Seq::new(
        params::NB_EVALS_LOG as nat,
        |f: int| gf256x2_scale(unpacked_nibble(folding[f].take(28), k), basis_element(f)),
    )
}

/// The contributions of the folded sums to coordinate `c` of the mask.
pub open spec fn fold_u_terms(folding: Seq<Seq<u8>>, c: int) -> Seq<(u8, u8)> {
    Seq::new(
        params::NB_EVALS_LOG as nat,
        |f: int| gf256x2_mul(basis_element(f), decode_ext_vector(folding[f].subrange(28, 44))[c]),
    )
}

/// The base-vector evaluations carried by the folded sums.
pub open spec fn folded_x(folding: Seq<Seq<u8>>) -> Seq<(u8, u8)> {
    Seq::new(params::MQ_N as nat, |k: int| sum_ext(fold_x_terms(folding, k)))
}

/// The mask evaluations carried by the folded sums.
pub open spec fn folded_u(folding: Seq<Seq<u8>>) -> Seq<(u8, u8)> {
    Seq::new(params::ETA as nat, |c: int| sum_ext(fold_u_terms(folding, c)))
}

/// Combine the folded sums of one execution with the basis of GF(256^2)
/// into base-vector and mask evaluations.
pub fn fold_evaluations(folding: &[[u8; 44]; 11]) -> (r: ([Gf256x2; 56], [Gf256x2; 8]))
    ensures
        ext_values(r.0@) == folded_x(folding_values(folding@)),
        ext_values(r.1@) == folded_u(folding_values(folding@)),
{
    let ghost fv = folding_values(folding@);
    let mut x = [Gf256x2::zero(); 56];
    let mut u = [Gf256x2::zero(); 8];
    let mut folding_index: usize = 0;
    while folding_index < params::NB_EVALS_LOG
        invariant
            folding_index <= 11,
            fv == folding_values(folding@),
            forall|k: int|
                0 <= k < 56 ==> #[trigger] x@[k]@ == sum_ext(
                    fold_x_terms(fv, k).take(folding_index as int),
                ),
            forall|c: int|
                0 <= c < 8 ==> #[trigger] u@[c]@ == sum_ext(
                    fold_u_terms(fv, c).take(folding_index as int),
                ),
        decreases 11 - folding_index,
    {
        let shift = folding_index as u16;
        let value: u16 = 1u16 << shift;
        let basis = Gf256x2::from_bytes([(value % 256) as u8, (value / 256) as u8]);
        let folded = folding[folding_index];
        let mut base_vector = [Gf16::zero(); 56];
        let _ = unpack_gf16(&folded[0..28], &mut base_vector);
        let ghost slot = fv[folding_index as int];
        assert(folded@.subrange(0, 28) == slot.take(28));
        let mut k: usize = 0;
        while k < 56
            invariant
                k <= 56,
                folding_index < 11,
                basis@ == basis_element(folding_index as int),
                fv == folding_values(folding@),
                slot == fv[folding_index as int],
                forall|i: int|
                    0 <= i < 56 ==> #[trigger] base_vector@[i]@ == unpacked_nibble(slot.take(28), i),
                forall|i: int|
                    0 <= i < k ==> #[trigger] x@[i]@ == sum_ext(
                        fold_x_terms(fv, i).take(folding_index + 1),
                    ),
                forall|i: int|
                    k <= i < 56 ==> #[trigger] x@[i]@ == sum_ext(
                        fold_x_terms(fv, i).take(folding_index as int),
                    ),
            decreases 56 - k,
        {
            proof {
                lemma_sum_ext_step(fold_x_terms(fv, k as int), folding_index as int);
            }
            x[k] = x[k] + base_vector[k] * basis;
            k += 1;
        }
        let mask_vector = match parse_extension_vector::<8>(&folded[28..44]) {
            Some(v) => v,
            None => {
                assert(false);
                return (x, u);
            },
        };
        assert(folded@.subrange(28, 44) == slot.subrange(28, 44));
        let mut c: usize = 0;
        while c < 8
            invariant
                c <= 8,
                folding_index < 11,
                basis@ == basis_element(folding_index as int),
                fv == folding_values(folding@),
                slot == fv[folding_index as int],
                ext_values(mask_vector@) == decode_ext_vector(slot.subrange(28, 44)),
                forall|i: int|
                    0 <= i < c ==> #[trigger] u@[i]@ == sum_ext(
                        fold_u_terms(fv, i).take(folding_index + 1),
                    ),
                forall|i: int|
                    c <= i < 8 ==> #[trigger] u@[i]@ == sum_ext(
                        fold_u_terms(fv, i).take(folding_index as int),
                    ),
            decreases 8 - c,
        {
            proof {
                lemma_sum_ext_step(fold_u_terms(fv, c as int), folding_index as int);
                assert(mask_vector@[c as int]@ == ext_values(mask_vector@)[c as int]);
            }
            u[c] = u[c] + basis * mask_vector[c];
            c += 1;
        }
        folding_index += 1;
    }
    proof {
        assert forall|k: int| 0 <= k < 56 implies fold_x_terms(fv, k).take(11) =~= fold_x_terms(
            fv,
            k,
        ) by {}
        assert forall|c: int| 0 <= c < 8 implies fold_u_terms(fv, c).take(11) =~= fold_u_terms(
            fv,
            c,
        ) by {}
        assert(ext_values(x@) =~= folded_x(fv));
        assert(ext_values(u@) =~= folded_u(fv));
    }
    (x, u)
}

// ---------------------------------------------------------------------------
// Commitment
// ---------------------------------------------------------------------------

/// The root seed of execution `e` generated from the master seed.
pub open spec fn root_seed_spec(master_seed: Seq<u8>, e: int) -> Seq<u8> {
    prg::prg_stream(crate::mq::zero_salt(), 0, master_seed, ROOT_SEEDS_SIZE as nat).subrange(
        16 * e,
        16 * e + 16,
    )
}

/// The leaf seeds of the full tree of one execution.
pub open spec fn tree_leaves(salt: Seq<u8>, root: Seq<u8>, delta: Seq<u8>, execution: u8) -> Seq<
    Seq<u8>,
> {
    Seq::new(
        params::NB_EVALS as nat,
        |j: int| full_node(salt, root, delta, execution, (LEAF_OFFSET + j) as nat),
    )
}

/// The leaf seeds of execution `e` of the signer.
pub open spec fn signer_leaves(salt: Seq<u8>, master_seed: Seq<u8>, x: Seq<u8>, e: int) -> Seq<
    Seq<u8>,
> {
    tree_leaves(salt, root_seed_spec(master_seed, e), crate::field::pack_spec(x).take(16), e as u8)
}

/// The expanded leaves of execution `e` of the signer.
pub open spec fn signer_expanded(salt: Seq<u8>, master_seed: Seq<u8>, x: Seq<u8>, e: int) -> Seq<
    Seq<u8>,
> {
    expanded_leaves(salt, e as u8, signer_leaves(salt, master_seed, x, e), None)
}

/// The partial delta of execution `e`: the bytes of the packed secret past
/// the first seed, masked by the accumulated expansions.
pub open spec fn signer_partial_delta(salt: Seq<u8>, master_seed: Seq<u8>, x: Seq<u8>, e: int) -> Seq<
    u8,
> {
    xor_seq(
        crate::field::pack_spec(x).subrange(16, 28),
        prefix_xor(signer_expanded(salt, master_seed, x, e), 2048).subrange(16, 28),
    )
}

/// The digest of the leaf commitments of execution `e` of the signer.
pub open spec fn signer_leaf_digest(salt: Seq<u8>, master_seed: Seq<u8>, x: Seq<u8>, e: int) -> Seq<
    u8,
> {
    leaves_digest(
        leaf_commitments(
            salt,
            e as u8,
            signer_leaves(salt, master_seed, x, e),
            None,
            Seq::empty(),
        ),
    )
}

/// The commitment to the leaf digests and the partial deltas.
pub open spec fn commitment_spec(digests: Seq<Seq<u8>>, partial_deltas: Seq<u8>) -> Seq<u8> {
    shake128_bytes(seq![7u8] + digests.flatten() + partial_deltas, COMMITMENT_SIZE as nat)
}

/// The commitment of the signer.
pub open spec fn signer_commitment(salt: Seq<u8>, master_seed: Seq<u8>, x: Seq<u8>) -> Seq<u8> {
    commitment_spec(
        Seq::new(params::TAU as nat, |e: int| signer_leaf_digest(salt, master_seed, x, e)),
        Seq::new(params::TAU as nat, |e: int| signer_partial_delta(salt, master_seed, x, e)).flatten(),
    )
}

/// The signer's state after committing: the commitment, the evaluations at
/// zero and the linear coefficients of the masks, and what the opening
/// needs.
pub struct SigningCommitment {
    /// The commitment.
    pub commitment: [u8; 32],
    /// The base-vector evaluations of each execution.
    pub x_zero: [[Gf256x2; 56]; 12],
    /// The mask evaluations of each execution.
    pub u_zero: [[Gf256x2; 8]; 12],
    /// The accumulated masks of each execution.
    pub u_one: [[Gf256x2; 8]; 12],
    /// The salt of the signature.
    pub salt: [u8; 16],
    /// The first 16 bytes of the packed secret vector.
    pub delta: [u8; 16],
    /// The root seeds of the executions' trees.
    pub root_seeds: [[u8; 16]; 12],
    /// The partial deltas of the executions.
    pub partial_deltas: [[u8; 12]; 12],
}

impl SigningCommitment {
    /// The salt, delta, root seeds and partial deltas kept for the opening.
    pub open spec fn secrets(&self) -> (Seq<u8>, Seq<u8>, Seq<Seq<u8>>, Seq<Seq<u8>>) {
        (
            self.salt@,
            self.delta@,
            self.root_seeds@.map_values(|r: [u8; 16]| r@),
            self.partial_deltas@.map_values(|p: [u8; 12]| p@),
        )
    }

    /// Whether this is the commitment of the signer with `master_seed`,
    /// `salt` and secret vector `x`.
    pub open spec fn is_commitment_of(&self, master_seed: Seq<u8>, salt: Seq<u8>, x: Seq<u8>) -> bool {
        &&& self.commitment@ == signer_commitment(salt, master_seed, x)
        &&& forall|e: int|
            0 <= e < 12 ==> {
                let fold = folding_spec(signer_expanded(salt, master_seed, x, e), 2048);
                &&& ext_values((#[trigger] self.x_zero@[e])@) == folded_x(fold)
                &&& ext_values(self.u_zero@[e]@) == folded_u(fold)
                &&& ext_values(self.u_one@[e]@) == decode_ext_vector(
                    prefix_xor(signer_expanded(salt, master_seed, x, e), 2048).subrange(28, 44),
                )
            }
        &&& self.secrets().0 == salt
        &&& self.secrets().1 == crate::field::pack_spec(x).take(16)
        &&& forall|e: int|
            0 <= e < 12 ==> #[trigger] self.secrets().2[e] == root_seed_spec(master_seed, e)
        &&& forall|e: int|
            0 <= e < 12 ==> #[trigger] self.secrets().3[e] == signer_partial_delta(
                salt,
                master_seed,
                x,
                e,
            )
    }

    /// Clear the secrets that the commitment holds: the evaluations are
    /// overwritten with zero, and the delta, the root seeds and the partial
    /// deltas are cleared through `wipe`. The commitment and the salt stay.
    pub fn wipe(&mut self)
        ensures
            final(self).commitment == old(self).commitment,
            final(self).salt == old(self).salt,
            final(self).delta@ == zeros(16),
            forall|e: int|
                0 <= e < 12 ==> (#[trigger] final(self).root_seeds@[e])@ == zeros(16)
                    && final(self).partial_deltas@[e]@ == zeros(12),
            forall|e: int, k: int|
                0 <= e < 12 && 0 <= k < 56 ==> (#[trigger] final(self).x_zero@[e]@[k])@ == (
                    0u8,
                    0u8,
                ),
            forall|e: int, c: int|
                0 <= e < 12 && 0 <= c < 8 ==> (#[trigger] final(self).u_zero@[e]@[c])@ == (0u8, 0u8)
                    && final(self).u_one@[e]@[c]@ == (0u8, 0u8),
    {
        wipe(&mut self.delta);
        let zero_row_x = [Gf256x2::zero(); 56];
        let zero_row_u = [Gf256x2::zero(); 8];
        let mut e: usize = 0;
        while e < params::TAU
            invariant
                e <= 12,
                self.commitment == old(self).commitment,
                self.salt == old(self).salt,
                self.delta@ == zeros(16),
                forall|k: int| 0 <= k < 56 ==> (#[trigger] zero_row_x@[k])@ == (0u8, 0u8),
                forall|c: int| 0 <= c < 8 ==> (#[trigger] zero_row_u@[c])@ == (0u8, 0u8),
                forall|i: int|
                    0 <= i < e ==> (#[trigger] self.root_seeds@[i])@ == zeros(16)
                        && self.partial_deltas@[i]@ == zeros(12),
                forall|i: int, k: int|
                    0 <= i < e && 0 <= k < 56 ==> (#[trigger] self.x_zero@[i]@[k])@ == (
                        0u8,
                        0u8,
                    ),
                forall|i: int, c: int|
                    0 <= i < e && 0 <= c < 8 ==> (#[trigger] self.u_zero@[i]@[c])@ == (0u8, 0u8)
                        && self.u_one@[i]@[c]@ == (0u8, 0u8),
            decreases 12 - e,
        {
            wipe(&mut self.root_seeds[e]);
            wipe(&mut self.partial_deltas[e]);
            self.x_zero[e] = zero_row_x;
            self.u_zero[e] = zero_row_u;
            self.u_one[e] = zero_row_u;
            proof {
                assert(self.root_seeds@[e as int]@ =~= zeros(16));
                assert(self.partial_deltas@[e as int]@ =~= zeros(12));
                assert forall|c: int| 0 <= c < 8 implies (#[trigger] self.u_zero@[e as int]@[c])@
                    == (0u8, 0u8) && self.u_one@[e as int]@[c]@ == (0u8, 0u8) by {
                    assert(zero_row_u@[c]@ == (0u8, 0u8));
                }
            }
            e += 1;
        }
    }
}

/// Whether `opening` holds, for every execution `e` with hidden leaf
/// `hidden[e]`, the authentication path of that leaf in the full tree of
/// `roots[e]` and `delta`, the commitment to that leaf, and the partial delta
/// `partial_deltas[e]`.
pub open spec fn is_opening_of(
    opening: Seq<u8>,
    salt: Seq<u8>,
    delta: Seq<u8>,
    roots: Seq<Seq<u8>>,
    partial_deltas: Seq<Seq<u8>>,
    hidden: Seq<u16>,
) -> bool {
    &&& opening.len() == params::OPENING_SIZE
    &&& forall|e: int, l: int|
        0 <= e < 12 && 0 <= l < 11 ==> #[trigger] opening.subrange(
            176 * e + 16 * l,
            176 * e + 16 * l + 16,
        ) == full_node(
            salt,
            roots[e],
            delta,
            e as u8,
            sibling(ancestor((LEAF_OFFSET + hidden[e]) as nat, l as nat)),
        )
    &&& forall|e: int|
        0 <= e < 12 ==> #[trigger] opening.subrange(2112 + 32 * e, 2112 + 32 * e + 32)
            == leaf_commitment(
            salt,
            e as u8,
            full_node(salt, roots[e], delta, e as u8, (LEAF_OFFSET + hidden[e]) as nat),
        )
    &&& forall|e: int|
        0 <= e < 12 ==> #[trigger] opening.subrange(2496 + 12 * e, 2496 + 12 * e + 12)
            == partial_deltas[e]
}

/// An opening is determined by what it opens: two openings of the same
/// trees, commitments and partial deltas at the same hidden leaves are equal.
pub proof fn lemma_opening_unique(
    first: Seq<u8>,
    second: Seq<u8>,
    salt: Seq<u8>,
    delta: Seq<u8>,
    roots: Seq<Seq<u8>>,
    partial_deltas: Seq<Seq<u8>>,
    hidden: Seq<u16>,
)
    requires
        is_opening_of(first, salt, delta, roots, partial_deltas, hidden),
        is_opening_of(second, salt, delta, roots, partial_deltas, hidden),
    ensures
        first == second,
{
    assert forall|k: int| 0 <= k < params::OPENING_SIZE implies first[k] == second[k] by {
        if k < 2112 {
            let e = k / 176;
            let l = (k % 176) / 16;
            let start = 176 * e + 16 * l;
            assert(first.subrange(start, start + 16) == second.subrange(start, start + 16));
            assert(first.subrange(start, start + 16)[k - start] == first[k]);
            assert(second.subrange(start, start + 16)[k - start] == second[k]);
        } else if k < 2496 {
            let e = (k - 2112) / 32;
            let start = 2112 + 32 * e;
            assert(first.subrange(start, start + 32) == second.subrange(start, start + 32));
            assert(first.subrange(start, start + 32)[k - start] == first[k]);
            assert(second.subrange(start, start + 32)[k - start] == second[k]);
        } else {
            let e = (k - 2496) / 12;
            let start = 2496 + 12 * e;
            assert(first.subrange(start, start + 12) == second.subrange(start, start + 12));
            assert(first.subrange(start, start + 12)[k - start] == first[k]);
            assert(second.subrange(start, start + 12)[k - start] == second[k]);
        }
    }
    assert(first =~= second);
}

impl SigningCommitment {
    /// Open the commitment at the hidden leaves `hidden_indices`: `None`
    /// unless every index is that of a leaf.
    pub fn open(&self, hidden_indices: &[u16; 12]) -> (r: Option<[u8; 2640]>)
        ensures
            r is Some <==> forall|e: int| 0 <= e < 12 ==> #[trigger] hidden_indices@[e] < 2048,
            r matches Some(opening) ==> is_opening_of(
                opening@,
                self.secrets().0,
                self.secrets().1,
                self.secrets().2,
                self.secrets().3,
                hidden_indices@,
            ),
    {
        let mut opening = [0u8; 2640];
        let ghost (salt, delta, roots, pds) = self.secrets();
        let mut execution: usize = 0;
        while execution < params::TAU
            invariant
                execution <= 12,
                (salt, delta, roots, pds) == self.secrets(),
                forall|e: int| 0 <= e < execution ==> #[trigger] hidden_indices@[e] < 2048,
                forall|e: int, l: int|
                    0 <= e < execution && 0 <= l < 11 ==> #[trigger] opening@.subrange(
                        176 * e + 16 * l,
                        176 * e + 16 * l + 16,
                    ) == full_node(
                        salt,
                        roots[e],
                        delta,
                        e as u8,
                        sibling(ancestor((LEAF_OFFSET + hidden_indices@[e]) as nat, l as nat)),
                    ),
                forall|e: int|
                    0 <= e < execution ==> #[trigger] opening@.subrange(
                        2112 + 32 * e,
                        2112 + 32 * e + 32,
                    ) == leaf_commitment(
                        salt,
                        e as u8,
                        full_node(
                            salt,
                            roots[e],
                            delta,
                            e as u8,
                            (LEAF_OFFSET + hidden_indices@[e]) as nat,
                        ),
                    ),
                forall|e: int|
                    0 <= e < execution ==> #[trigger] opening@.subrange(
                        2496 + 12 * e,
                        2496 + 12 * e + 12,
                    ) == pds[e],
            decreases 12 - execution,
        {
            let e8 = execution as u8;
            let hidden_index = hidden_indices[execution] as usize;
            let mut path = [0u8; 176];
            let hidden_seed = match opening_path(
                &self.salt,
                &self.root_seeds[execution],
                &self.delta,
                e8,
                hidden_index,
                &mut path,
            ) {
                Some(seed) => seed,
                None => {
                    return None;
                },
            };
            let hidden_commitment = SeedCommitter::new(&self.salt, e8).commit(&hidden_seed);
            let ghost before = opening@;
            let ghost e = execution as int;
            let mut k: usize = 0;
            while k < 176
                invariant
                    k <= 176,
                    e == execution,
                    execution < 12,
                    forall|j: int| 0 <= j < k ==> #[trigger] opening@[176 * e + j] == path@[j],
                    forall|j: int|
                        0 <= j < 2640 && !(176 * e <= j < 176 * e + k) ==> #[trigger] opening@[j]
                            == before[j],
                decreases 176 - k,
            {
                opening[176 * execution + k] = path[k];
                k += 1;
            }
            let mut k: usize = 0;
            while k < 32
                invariant
                    k <= 32,
                    e == execution,
                    execution < 12,
                    forall|j: int| 0 <= j < 176 ==> #[trigger] opening@[176 * e + j] == path@[j],
                    forall|j: int|
                        0 <= j < k ==> #[trigger] opening@[2112 + 32 * e + j] == hidden_commitment@[j],
                    forall|j: int|
                        0 <= j < 2640 && !(176 * e <= j < 176 * e + 176) && !(2112 + 32 * e <= j < 2112
                            + 32 * e + k) ==> #[trigger] opening@[j] == before[j],
                decreases 32 - k,
            {
                opening[2112 + 32 * execution + k] = hidden_commitment[k];
                k += 1;
            }
            let mut k: usize = 0;
            while k < 12
                invariant
                    k <= 12,
                    e == execution,
                    execution < 12,
                    forall|j: int| 0 <= j < 176 ==> #[trigger] opening@[176 * e + j] == path@[j],
                    forall|j: int|
                        0 <= j < 32 ==> #[trigger] opening@[2112 + 32 * e + j] == hidden_commitment@[j],
                    forall|j: int|
                        0 <= j < k ==> #[trigger] opening@[2496 + 12 * e + j]
                            == self.partial_deltas@[e]@[j],
                    forall|j: int|
                        0 <= j < 2640 && !(176 * e <= j < 176 * e + 176) && !(2112 + 32 * e <= j < 2112
                            + 32 * e + 32) && !(2496 + 12 * e <= j < 2496 + 12 * e + k)
                            ==> #[trigger] opening@[j] == before[j],
                decreases 12 - k,
            {
                opening[2496 + 12 * execution + k] = self.partial_deltas[execution][k];
                k += 1;
            }
            proof {
                assert forall|e2: int, l: int|
                    0 <= e2 < execution + 1 && 0 <= l < 11 implies #[trigger] opening@.subrange(
                    176 * e2 + 16 * l,
                    176 * e2 + 16 * l + 16,
                ) == full_node(
                    salt,
                    roots[e2],
                    delta,
                    e2 as u8,
                    sibling(ancestor((LEAF_OFFSET + hidden_indices@[e2]) as nat, l as nat)),
                ) by {
                    if e2 == e {
                        assert forall|m: int| 0 <= m < 16 implies #[trigger] opening@.subrange(
                            176 * e2 + 16 * l,
                            176 * e2 + 16 * l + 16,
                        )[m] == path@.subrange(16 * l, 16 * l + 16)[m] by {
                            let j = 16 * l + m;
                            assert(opening@[176 * e + j] == path@[j]);
                        }
                        assert(opening@.subrange(176 * e2 + 16 * l, 176 * e2 + 16 * l + 16)
                            =~= path@.subrange(16 * l, 16 * l + 16));
                    } else {
                        assert(opening@.subrange(176 * e2 + 16 * l, 176 * e2 + 16 * l + 16)
                            =~= before.subrange(176 * e2 + 16 * l, 176 * e2 + 16 * l + 16));
                    }
                }
                assert forall|e2: int| 0 <= e2 < execution + 1 implies #[trigger] opening@.subrange(
                    2112 + 32 * e2,
                    2112 + 32 * e2 + 32,
                ) == leaf_commitment(
                    salt,
                    e2 as u8,
                    full_node(
                        salt,
                        roots[e2],
                        delta,
                        e2 as u8,
                        (LEAF_OFFSET + hidden_indices@[e2]) as nat,
                    ),
                ) by {
                    if e2 == e {
                        assert forall|m: int| 0 <= m < 32 implies #[trigger] opening@.subrange(
                            2112 + 32 * e2,
                            2112 + 32 * e2 + 32,
                        )[m] == hidden_commitment@[m] by {
                            assert(opening@[2112 + 32 * e + m] == hidden_commitment@[m]);
                        }
                        assert(opening@.subrange(2112 + 32 * e2, 2112 + 32 * e2 + 32)
                            =~= hidden_commitment@);
                    } else {
                        assert(opening@.subrange(2112 + 32 * e2, 2112 + 32 * e2 + 32)
                            =~= before.subrange(2112 + 32 * e2, 2112 + 32 * e2 + 32));
                    }
                }
                assert forall|e2: int| 0 <= e2 < execution + 1 implies #[trigger] opening@.subrange(
                    2496 + 12 * e2,
                    2496 + 12 * e2 + 12,
                ) == pds[e2] by {
                    if e2 == e {
                        assert forall|m: int| 0 <= m < 12 implies #[trigger] opening@.subrange(
                            2496 + 12 * e2,
                            2496 + 12 * e2 + 12,
                        )[m] == self.partial_deltas@[e]@[m] by {
                            assert(opening@[2496 + 12 * e + m] == self.partial_deltas@[e]@[m]);
                        }
                        assert(opening@.subrange(2496 + 12 * e2, 2496 + 12 * e2 + 12)
                            =~= self.partial_deltas@[e]@);
                    } else {
                        assert(opening@.subrange(2496 + 12 * e2, 2496 + 12 * e2 + 12)
                            =~= before.subrange(2496 + 12 * e2, 2496 + 12 * e2 + 12));
                    }
                }
            }
            execution += 1;
        }
        Some(opening)
    }
}

/// Clear the seeds of an expanded tree.
fn wipe_nodes(nodes: &mut Vec<[u8; 16]>)
    ensures
        final(nodes)@.len() == old(nodes)@.len(),
        forall|i: int| 0 <= i < old(nodes)@.len() ==> #[trigger] final(nodes)@[i]@ == zeros(16),
{
    let mut i: usize = 0;
    while i < nodes.len()
        invariant
            i <= nodes@.len(),
            nodes@.len() == old(nodes)@.len(),
            forall|j: int| 0 <= j < i ==> #[trigger] nodes@[j]@ == zeros(16),
        decreases nodes@.len() - i,
    {
        wipe(&mut nodes[i]);
        assert(nodes@[i as int]@ =~= zeros(16));
        i += 1;
    }
}

/// Commit to the secret vector `secret` with the signing randomness
/// `master_seed` and `salt`.
pub fn commit(master_seed: &[u8; 16], salt: &[u8; 16], secret: &[Gf16; 56]) -> (r: Option<
    SigningCommitment,
>)
    ensures
        r matches Some(c) && c.is_commitment_of(master_seed@, salt@, gf16_values(secret@)),
{
    let ghost x = gf16_values(secret@);
    let mut serialized_secret = [0u8; 28];
    if !pack_gf16(secret, &mut serialized_secret) {
        return None;
    }
    let mut delta = [0u8; 16];
    let mut k: usize = 0;
    while k < 16
        invariant
            k <= 16,
            forall|j: int| 0 <= j < k ==> #[trigger] delta@[j] == serialized_secret@[j],
        decreases 16 - k,
    {
        delta[k] = serialized_secret[k];
        k += 1;
    }
    assert(delta@ =~= crate::field::pack_spec(x).take(16));
    let zero_salt = [0u8; 16];
    let mut root_seed_stream = [0u8; 192];
    proof {
        vstd::arithmetic::power2::lemma2_to64();
    }
    if !prg::fill(&zero_salt, 0, master_seed, &mut root_seed_stream) {
        return None;
    }
    assert(zero_salt@ =~= crate::mq::zero_salt());
    let mut root_seeds = [[0u8; 16]; 12];
    let mut e: usize = 0;
    while e < params::TAU
        invariant
            e <= 12,
            root_seed_stream@ == prg::prg_stream(crate::mq::zero_salt(), 0, master_seed@, 192),
            forall|i: int| 0 <= i < e ==> #[trigger] root_seeds@[i]@ == root_seed_spec(master_seed@, i),
        decreases 12 - e,
    {
        let mut seed = [0u8; 16];
        let mut k: usize = 0;
        while k < 16
            invariant
                k <= 16,
                e < 12,
                forall|j: int| 0 <= j < k ==> #[trigger] seed@[j] == root_seed_stream@[16 * e + j],
            decreases 16 - k,
        {
            seed[k] = root_seed_stream[16 * e + k];
            k += 1;
        }
        assert(seed@ =~= root_seed_spec(master_seed@, e as int));
        root_seeds[e] = seed;
        e += 1;
    }
    let mut x_zero = [[Gf256x2::zero(); 56]; 12];
    let mut u_zero = [[Gf256x2::zero(); 8]; 12];
    let mut u_one = [[Gf256x2::zero(); 8]; 12];
    let mut partial_deltas = [[0u8; 12]; 12];
    let mut leaf_digests = [[0u8; 32]; 12];
    let mut execution: usize = 0;
    while execution < params::TAU
        invariant
            execution <= 12,
            x == gf16_values(secret@),
            serialized_secret@ == crate::field::pack_spec(x),
            delta@ == crate::field::pack_spec(x).take(16),
            forall|i: int| 0 <= i < 12 ==> #[trigger] root_seeds@[i]@ == root_seed_spec(master_seed@, i),
            forall|i: int|
                0 <= i < execution ==> ext_values((#[trigger] x_zero@[i])@) == folded_x(
                    folding_spec(signer_expanded(salt@, master_seed@, x, i), 2048),
                ),
            forall|i: int|
                0 <= i < execution ==> ext_values((#[trigger] u_zero@[i])@) == folded_u(
                    folding_spec(signer_expanded(salt@, master_seed@, x, i), 2048),
                ),
            forall|i: int|
                0 <= i < execution ==> ext_values((#[trigger] u_one@[i])@) == decode_ext_vector(
                    prefix_xor(signer_expanded(salt@, master_seed@, x, i), 2048).subrange(28, 44),
                ),
            forall|i: int|
                0 <= i < execution ==> (#[trigger] partial_deltas@[i])@ == signer_partial_delta(
                    salt@,
                    master_seed@,
                    x,
                    i,
                ),
            forall|i: int|
                0 <= i < execution ==> (#[trigger] leaf_digests@[i])@ == signer_leaf_digest(
                    salt@,
                    master_seed@,
                    x,
                    i,
                ),
        decreases 12 - execution,
    {
        let e8 = execution as u8;
        let mut nodes = fully_expand_tree(salt, &root_seeds[execution], &delta, e8);
        let leaves = &nodes.as_slice()[2048..4096];
        let ghost sl = signer_leaves(salt@, master_seed@, x, execution as int);
        assert(seed_values(leaves@) =~= sl);
        let empty: [u8; 0] = [];
        let (digest, accumulator, folding) = commit_leaves(salt, e8, leaves, None, &empty);
        wipe_nodes(&mut nodes);
        let (x_values, u_values) = fold_evaluations(&folding);
        let ghost expanded = signer_expanded(salt@, master_seed@, x, execution as int);
        proof {
            lemma_folding_lengths(expanded, 2048);
            assert(empty@ =~= Seq::<u8>::empty());
        }
        let mask = match parse_extension_vector::<8>(&accumulator[28..44]) {
            Some(v) => v,
            None => {
                return None;
            },
        };
        let mut partial_delta = [0u8; 12];
        let mut k: usize = 0;
        while k < 12
            invariant
                k <= 12,
                forall|j: int|
                    0 <= j < k ==> #[trigger] partial_delta@[j] == serialized_secret@[16 + j]
                        ^ accumulator@[16 + j],
            decreases 12 - k,
        {
            partial_delta[k] = serialized_secret[16 + k] ^ accumulator[16 + k];
            k += 1;
        }
        assert(partial_delta@ =~= signer_partial_delta(salt@, master_seed@, x, execution as int));
        proof {
            let fold = folding_spec(expanded, 2048);
            assert(ext_values(x_values@) == folded_x(fold));
            assert(ext_values(u_values@) == folded_u(fold));
            assert(ext_values(mask@) == decode_ext_vector(prefix_xor(expanded, 2048).subrange(28, 44)));
            assert(digest@ == signer_leaf_digest(salt@, master_seed@, x, execution as int));
        }
        x_zero[execution] = x_values;
        u_zero[execution] = u_values;
        u_one[execution] = mask;
        partial_deltas[execution] = partial_delta;
        leaf_digests[execution] = digest;
        execution += 1;
    }
    let mut state = Shake128State::new();
    let tag = [7u8];
    state.absorb(&tag);
    let ghost digests = Seq::new(12, |e: int| signer_leaf_digest(salt@, master_seed@, x, e));
    let ghost deltas = Seq::new(12, |e: int| signer_partial_delta(salt@, master_seed@, x, e));
    assert(tag@ =~= seq![7u8]);
    assert(digests.take(0).flatten() =~= Seq::<u8>::empty());
    let mut e: usize = 0;
    while e < params::TAU
        invariant
            e <= 12,
            digests == Seq::new(12, |e: int| signer_leaf_digest(salt@, master_seed@, x, e)),
            forall|i: int| 0 <= i < 12 ==> #[trigger] leaf_digests@[i]@ == digests[i],
            state@ == seq![7u8] + digests.take(e as int).flatten(),
        decreases 12 - e,
    {
        state.absorb(&leaf_digests[e]);
        proof {
            assert(digests.take(e + 1) =~= digests.take(e as int).push(digests[e as int]));
            digests.take(e as int).lemma_flatten_push(digests[e as int]);
        }
        e += 1;
    }
    assert(digests.take(12) =~= digests);
    let ghost prefix = state@;
    assert(deltas.take(0).flatten() =~= Seq::<u8>::empty());
    let mut e: usize = 0;
    while e < params::TAU
        invariant
            e <= 12,
            deltas == Seq::new(12, |e: int| signer_partial_delta(salt@, master_seed@, x, e)),
            forall|i: int| 0 <= i < 12 ==> #[trigger] partial_deltas@[i]@ == deltas[i],
            state@ == prefix + deltas.take(e as int).flatten(),
        decreases 12 - e,
    {
        state.absorb(&partial_deltas[e]);
        proof {
            assert(deltas.take(e + 1) =~= deltas.take(e as int).push(deltas[e as int]));
            deltas.take(e as int).lemma_flatten_push(deltas[e as int]);
        }
        e += 1;
    }
    assert(deltas.take(12) =~= deltas);
    let mut commitment = [0u8; 32];
    state.squeeze(&mut commitment);
    wipe(&mut serialized_secret);
    wipe(&mut root_seed_stream);
    let result = SigningCommitment {
        commitment,
        x_zero,
        u_zero,
        u_one,
        salt: *salt,
        delta,
        root_seeds,
        partial_deltas,
    };
    proof {
        assert(result.secrets().2 =~= result.secrets().2);
    }
    Some(result)
}

// ---------------------------------------------------------------------------
// Verification of an opening
// ---------------------------------------------------------------------------

/// The base-vector and mask evaluations that verification reconstructs at
/// the hidden points.
pub struct OpenedEvaluations {
    /// The base-vector evaluations of each execution.
    pub x: [[Gf256x2; 56]; 12],
    /// The mask evaluations of each execution.
    pub u: [[Gf256x2; 8]; 12],
}

/// The authentication path of execution `e` in an opening.
pub open spec fn opening_path_of(opening: Seq<u8>, e: int) -> Seq<u8> {
    opening.subrange(176 * e, 176 * e + 176)
}

/// The hidden-leaf commitment of execution `e` in an opening.
pub open spec fn opening_commitment_of(opening: Seq<u8>, e: int) -> Seq<u8> {
    opening.subrange(2112 + 32 * e, 2112 + 32 * e + 32)
}

/// The partial delta of execution `e` in an opening.
pub open spec fn opening_partial_delta_of(opening: Seq<u8>, e: int) -> Seq<u8> {
    opening.subrange(2496 + 12 * e, 2496 + 12 * e + 12)
}

/// The leaves of execution `e` reconstructed from an opening.
pub open spec fn verifier_leaves(salt: Seq<u8>, opening: Seq<u8>, hidden: Seq<u16>, e: int) -> Seq<
    Seq<u8>,
> {
    Seq::new(
        params::NB_EVALS as nat,
        |j: int|
            partial_node(
                salt,
                opening_path_of(opening, e),
                e as u8,
                (LEAF_OFFSET + hidden[e]) as nat,
                (LEAF_OFFSET + j) as nat,
            ),
    )
}

/// The expanded leaves of execution `e` reconstructed from an opening.
pub open spec fn verifier_expanded(salt: Seq<u8>, opening: Seq<u8>, hidden: Seq<u16>, e: int) -> Seq<
    Seq<u8>,
> {
    expanded_leaves(
        salt,
        e as u8,
        verifier_leaves(salt, opening, hidden, e),
        Some(hidden[e] as usize),
    )
}

/// The digest of the leaf commitments of execution `e` reconstructed from
/// an opening.
pub open spec fn verifier_leaf_digest(salt: Seq<u8>, opening: Seq<u8>, hidden: Seq<u16>, e: int) -> Seq<
    u8,
> {
    leaves_digest(
        leaf_commitments(
            salt,
            e as u8,
            verifier_leaves(salt, opening, hidden, e),
            Some(hidden[e] as usize),
            opening_commitment_of(opening, e),
        ),
    )
}

/// The commitment that an opening reproduces.
pub open spec fn observed_commitment(salt: Seq<u8>, opening: Seq<u8>, hidden: Seq<u16>) -> Seq<u8> {
    commitment_spec(
        Seq::new(params::TAU as nat, |e: int| verifier_leaf_digest(salt, opening, hidden, e)),
        opening.subrange(PARTIAL_DELTAS_OFFSET as int, params::OPENING_SIZE as int),
    )
}

/// The evaluation point of the hidden leaf: the element whose encoding is
/// its Gray code.
pub open spec fn evaluation_point_spec(hidden: u16) -> (u8, u8) {
    let g = gray_spec(hidden);
    ((g % 256) as u8, (g / 256) as u8)
}

/// The packed base vector of the accumulated expansions with the partial
/// delta restored.
pub open spec fn adjusted_base(accumulator: Seq<u8>, partial_delta: Seq<u8>) -> Seq<u8> {
    Seq::new(
        28,
        |k: int|
            if k < 16 {
                accumulator[k]
            } else {
                accumulator[k] ^ partial_delta[k - 16]
            },
    )
}

/// The base-vector evaluations of execution `e` at its hidden point.
pub open spec fn opened_x(salt: Seq<u8>, opening: Seq<u8>, hidden: Seq<u16>, e: int) -> Seq<(u8, u8)> {
    let expanded = verifier_expanded(salt, opening, hidden, e);
    let folded = folded_x(folding_spec(expanded, 2048));
    let base = adjusted_base(prefix_xor(expanded, 2048), opening_partial_delta_of(opening, e));
    Seq::new(
        params::MQ_N as nat,
        |k: int|
            gf256x2_add(
                folded[k],
                gf256x2_scale(unpacked_nibble(base, k), evaluation_point_spec(hidden[e])),
            ),
    )
}

/// The mask evaluations of execution `e` at its hidden point.
pub open spec fn opened_u(salt: Seq<u8>, opening: Seq<u8>, hidden: Seq<u16>, e: int) -> Seq<(u8, u8)> {
    let expanded = verifier_expanded(salt, opening, hidden, e);
    let folded = folded_u(folding_spec(expanded, 2048));
    let mask = decode_ext_vector(prefix_xor(expanded, 2048).subrange(28, 44));
    Seq::new(
        params::ETA as nat,
        |c: int| gf256x2_add(folded[c], gf256x2_mul(evaluation_point_spec(hidden[e]), mask[c])),
    )
}

/// Check an opening against the commitment `expected_commitment` and
/// reconstruct the evaluations at the hidden leaves `hidden_indices`.
///
/// Returns `None` unless the opening has its exact length, every hidden
/// index is that of a leaf, and the reconstructed commitment equals the
/// expected one.
pub fn evaluate_opening(
    salt: &[u8; 16],
    expected_commitment: &[u8; 32],
    opening: &[u8],
    hidden_indices: &[u16; 12],
) -> (r: Option<OpenedEvaluations>)
    ensures
        r is Some <==> opening@.len() == params::OPENING_SIZE && (forall|e: int|
            0 <= e < 12 ==> #[trigger] hidden_indices@[e] < 2048) && observed_commitment(
            salt@,
            opening@,
            hidden_indices@,
        ) == expected_commitment@,
        r matches Some(ev) ==> forall|e: int|
            0 <= e < 12 ==> ext_values((#[trigger] ev.x@[e])@) == opened_x(
                salt@,
                opening@,
                hidden_indices@,
                e,
            ) && ext_values(ev.u@[e]@) == opened_u(salt@, opening@, hidden_indices@, e),
{
    if opening.len() != params::OPENING_SIZE {
        return None;
    }
    let ghost op = opening@;
    let ghost hid = hidden_indices@;
    let mut x_evaluations = [[Gf256x2::zero(); 56]; 12];
    let mut u_evaluations = [[Gf256x2::zero(); 8]; 12];
    let mut leaf_digests = [[0u8; 32]; 12];
    let mut execution: usize = 0;
    while execution < params::TAU
        invariant
            execution <= 12,
            op == opening@,
            hid == hidden_indices@,
            op.len() == params::OPENING_SIZE,
            forall|e: int| 0 <= e < execution ==> #[trigger] hid[e] < 2048,
            forall|e: int|
                0 <= e < execution ==> ext_values((#[trigger] x_evaluations@[e])@) == opened_x(
                    salt@,
                    op,
                    hid,
                    e,
                ),
            forall|e: int|
                0 <= e < execution ==> ext_values((#[trigger] u_evaluations@[e])@) == opened_u(
                    salt@,
                    op,
                    hid,
                    e,
                ),
            forall|e: int|
                0 <= e < execution ==> (#[trigger] leaf_digests@[e])@ == verifier_leaf_digest(
                    salt@,
                    op,
                    hid,
                    e,
                ),
        decreases 12 - execution,
    {
        let e8 = execution as u8;
        let hidden_index = hidden_indices[execution] as usize;
        if hidden_index >= params::NB_EVALS {
            return None;
        }
        let path = &opening[176 * execution..176 * execution + 176];
        let leaves = match partially_expand_tree(salt, path, e8, hidden_index) {
            Some(leaves) => leaves,
            None => {
                return None;
            },
        };
        let ghost e = execution as int;
        assert(seed_values(leaves@) =~= verifier_leaves(salt@, op, hid, e));
        let hidden_commitment = &opening[2112 + 32 * execution..2112 + 32 * execution + 32];
        let partial_delta = &opening[2496 + 12 * execution..2496 + 12 * execution + 12];
        let (digest, accumulator, folding) = commit_leaves(
            salt,
            e8,
            leaves.as_slice(),
            Some(hidden_index),
            hidden_commitment,
        );
        let ghost expanded = verifier_expanded(salt@, op, hid, e);
        proof {
            lemma_folding_lengths(expanded, 2048);
        }
        let (folded_x_values, folded_u_values) = fold_evaluations(&folding);
        let point_code = match gray_code(hidden_index) {
            Some(g) => g,
            None => {
                return None;
            },
        };
        let point = Gf256x2::from_bytes([(point_code % 256) as u8, (point_code / 256) as u8]);
        let mut adjusted = [0u8; 28];
        let mut k: usize = 0;
        while k < 28
            invariant
                k <= 28,
                partial_delta@.len() == 12,
                forall|j: int|
                    0 <= j < k ==> #[trigger] adjusted@[j] == adjusted_base(accumulator@, partial_delta@)[j],
            decreases 28 - k,
        {
            adjusted[k] = if k < 16 {
                accumulator[k]
            } else {
                accumulator[k] ^ partial_delta[k - 16]
            };
            k += 1;
        }
        assert(adjusted@ =~= adjusted_base(accumulator@, partial_delta@));
        let mut adjusted_vector = [Gf16::zero(); 56];
        let _ = unpack_gf16(&adjusted, &mut adjusted_vector);
        let mask = match parse_extension_vector::<8>(&accumulator[28..44]) {
            Some(v) => v,
            None => {
                return None;
            },
        };
        let mut x_values = folded_x_values;
        let mut k: usize = 0;
        while k < 56
            invariant
                k <= 56,
                forall|j: int|
                    0 <= j < 56 ==> #[trigger] adjusted_vector@[j]@ == unpacked_nibble(adjusted@, j),
                forall|j: int|
                    0 <= j < k ==> #[trigger] x_values@[j]@ == gf256x2_add(
                        folded_x_values@[j]@,
                        gf256x2_scale(adjusted_vector@[j]@, point@),
                    ),
                forall|j: int| k <= j < 56 ==> #[trigger] x_values@[j]@ == folded_x_values@[j]@,
            decreases 56 - k,
        {
            x_values[k] = x_values[k] + adjusted_vector[k] * point;
            k += 1;
        }
        let mut u_values = folded_u_values;
        let mut c: usize = 0;
        while c < 8
            invariant
                c <= 8,
                forall|j: int|
                    0 <= j < c ==> #[trigger] u_values@[j]@ == gf256x2_add(
                        folded_u_values@[j]@,
                        gf256x2_mul(point@, mask@[j]@),
                    ),
                forall|j: int| c <= j < 8 ==> #[trigger] u_values@[j]@ == folded_u_values@[j]@,
            decreases 8 - c,
        {
            u_values[c] = u_values[c] + point * mask[c];
            c += 1;
        }
        proof {
            assert(point@ == evaluation_point_spec(hid[e]));
            assert(partial_delta@ == opening_partial_delta_of(op, e));
            assert(hidden_commitment@ == opening_commitment_of(op, e));
            assert(ext_values(x_values@) =~= opened_x(salt@, op, hid, e));
            assert forall|j: int| 0 <= j < 8 implies mask@[j]@ == decode_ext_vector(
                prefix_xor(expanded, 2048).subrange(28, 44),
            )[j] by {
                assert(mask@[j]@ == ext_values(mask@)[j]);
            }
            assert(ext_values(u_values@) =~= opened_u(salt@, op, hid, e));
            assert(digest@ == verifier_leaf_digest(salt@, op, hid, e));
        }
        x_evaluations[execution] = x_values;
        u_evaluations[execution] = u_values;
        leaf_digests[execution] = digest;
        execution += 1;
    }
    let mut state = Shake128State::new();
    let tag = [7u8];
    state.absorb(&tag);
    let ghost digests = Seq::new(12, |e: int| verifier_leaf_digest(salt@, op, hid, e));
    assert(tag@ =~= seq![7u8]);
    assert(digests.take(0).flatten() =~= Seq::<u8>::empty());
    let mut e: usize = 0;
    while e < params::TAU
        invariant
            e <= 12,
            digests == Seq::new(12, |e: int| verifier_leaf_digest(salt@, op, hid, e)),
            forall|i: int| 0 <= i < 12 ==> #[trigger] leaf_digests@[i]@ == digests[i],
            state@ == seq![7u8] + digests.take(e as int).flatten(),
        decreases 12 - e,
    {
        state.absorb(&leaf_digests[e]);
        proof {
            assert(digests.take(e + 1) =~= digests.take(e as int).push(digests[e as int]));
            digests.take(e as int).lemma_flatten_push(digests[e as int]);
        }
        e += 1;
    }
    assert(digests.take(12) =~= digests);
    state.absorb(&opening[PARTIAL_DELTAS_OFFSET..params::OPENING_SIZE]);
    let mut observed = [0u8; 32];
    state.squeeze(&mut observed);
    assert(observed@ == observed_commitment(salt@, op, hid));
    if !ct_eq_bytes(&observed, expected_commitment) {
        return None;
    }
    Some(OpenedEvaluations { x: x_evaluations, u: u_evaluations })
}

// ---------------------------------------------------------------------------
// Honest openings
// ---------------------------------------------------------------------------

/// Reconstruction from an authentication path: given the path of the full
/// tree at leaf `h`, every node of depth 1 to 11 that is not an ancestor of
/// `h` gets the seed it has in the full tree.
pub proof fn lemma_partial_node_is_full(
    salt: Seq<u8>,
    path: Seq<u8>,
    root: Seq<u8>,
    delta: Seq<u8>,
    execution: u8,
    h: nat,
    i: nat,
)
    requires
        2048 <= h < 4096,
        forall|l: nat|
            l < 11 ==> #[trigger] path_chunk(path, l) == full_node(
                salt,
                root,
                delta,
                execution,
                sibling(ancestor(h, l)),
            ),
        2 <= i < 4096,
        !on_path(h, i),
    ensures
        partial_node(salt, path, execution, h, i) == full_node(salt, root, delta, execution, i),
    decreases i,
{
    vstd::arithmetic::power2::lemma2_to64();
    lemma_depth_below(i, 11);
    let d = node_depth(i);
    assert(d >= 1);
    let l = (11 - d) as nat;
    lemma_ancestor(h, l);
    lemma_sibling(i);
    if beside_path(h, i) {
        assert(path_chunk(path, l) == full_node(salt, root, delta, execution, sibling(ancestor(h, l))));
    } else if i < 4 {
        assert(i / 2 == 1 && node_depth(1) == 0);
        assert(d == 1);
        assert(false);
    } else {
        let p = i / 2;
        assert(node_depth(i) == 1 + node_depth(p));
        lemma_children_on_path(h, p, i);
        lemma_partial_node_is_full(salt, path, root, delta, execution, h, p);
    }
}

/// The leaves that verification reconstructs from an honest opening of
/// execution `e` are those of the full tree, but for the hidden one.
pub proof fn lemma_honest_leaves(
    salt: Seq<u8>,
    delta: Seq<u8>,
    roots: Seq<Seq<u8>>,
    partial_deltas: Seq<Seq<u8>>,
    hidden: Seq<u16>,
    opening: Seq<u8>,
    e: int,
    j: int,
)
    requires
        is_opening_of(opening, salt, delta, roots, partial_deltas, hidden),
        0 <= e < 12,
        0 <= j < 2048,
        hidden[e] < 2048,
        j != hidden[e],
    ensures
        verifier_leaves(salt, opening, hidden, e)[j] == tree_leaves(salt, roots[e], delta, e as u8)[j],
{
    vstd::arithmetic::power2::lemma2_to64();
    let h = (LEAF_OFFSET + hidden[e]) as nat;
    let path = opening_path_of(opening, e);
    assert forall|l: nat| l < 11 implies #[trigger] path_chunk(path, l) == full_node(
        salt,
        roots[e],
        delta,
        e as u8,
        sibling(ancestor(h, l)),
    ) by {
        assert(path_chunk(path, l) =~= opening.subrange(176 * e + 16 * l, 176 * e + 16 * l + 16));
        assert(opening.subrange(176 * e + 16 * (l as int), 176 * e + 16 * (l as int) + 16)
            == full_node(salt, roots[e], delta, e as u8, sibling(ancestor(h, l))));
    }
    let i = (LEAF_OFFSET + j) as nat;
    lemma_ancestor(h, 0);
    lemma_node_depth(i, 11);
    assert(!on_path(h, i));
    lemma_partial_node_is_full(salt, path, roots[e], delta, e as u8, h, i);
}

/// The leaf digest that verification reconstructs from an honest opening of
/// execution `e` is that of the full tree.
pub proof fn lemma_honest_leaf_digest(
    salt: Seq<u8>,
    delta: Seq<u8>,
    roots: Seq<Seq<u8>>,
    partial_deltas: Seq<Seq<u8>>,
    hidden: Seq<u16>,
    opening: Seq<u8>,
    e: int,
)
    requires
        is_opening_of(opening, salt, delta, roots, partial_deltas, hidden),
        0 <= e < 12,
        hidden[e] < 2048,
    ensures
        verifier_leaf_digest(salt, opening, hidden, e) == leaves_digest(
            leaf_commitments(salt, e as u8, tree_leaves(salt, roots[e], delta, e as u8), None, Seq::empty()),
        ),
{
    let reconstructed = leaf_commitments(
        salt,
        e as u8,
        verifier_leaves(salt, opening, hidden, e),
        Some(hidden[e] as usize),
        opening_commitment_of(opening, e),
    );
    let full = leaf_commitments(
        salt,
        e as u8,
        tree_leaves(salt, roots[e], delta, e as u8),
        None,
        Seq::empty(),
    );
    assert forall|j: int| 0 <= j < 2048 implies reconstructed[j] == full[j] by {
        if j == hidden[e] {
            assert(opening.subrange(2112 + 32 * e, 2112 + 32 * e + 32) == leaf_commitment(
                salt,
                e as u8,
                full_node(salt, roots[e], delta, e as u8, (LEAF_OFFSET + hidden[e]) as nat),
            ));
        } else {
            lemma_honest_leaves(salt, delta, roots, partial_deltas, hidden, opening, e, j);
        }
    }
    assert(reconstructed =~= full);
}

/// The partial deltas of an opening, in order, are its last bytes.
proof fn lemma_opening_partial_deltas(
    opening: Seq<u8>,
    salt: Seq<u8>,
    delta: Seq<u8>,
    roots: Seq<Seq<u8>>,
    partial_deltas: Seq<Seq<u8>>,
    hidden: Seq<u16>,
    n: int,
)
    requires
        is_opening_of(opening, salt, delta, roots, partial_deltas, hidden),
        partial_deltas.len() == 12,
        0 <= n <= 12,
    ensures
        partial_deltas.take(n).flatten() == opening.subrange(2496, 2496 + 12 * n),
    decreases n,
{
    if n == 0 {
        assert(partial_deltas.take(0) =~= Seq::<Seq<u8>>::empty());
        assert(opening.subrange(2496, 2496) =~= Seq::<u8>::empty());
    } else {
        lemma_opening_partial_deltas(opening, salt, delta, roots, partial_deltas, hidden, n - 1);
        assert(partial_deltas.take(n) =~= partial_deltas.take(n - 1).push(partial_deltas[n - 1]));
        partial_deltas.take(n - 1).lemma_flatten_push(partial_deltas[n - 1]);
        assert(opening.subrange(2496 + 12 * (n - 1), 2496 + 12 * (n - 1) + 12)
            == partial_deltas[n - 1]);
        assert(opening.subrange(2496, 2496 + 12 * n) =~= opening.subrange(2496, 2496 + 12 * (n - 1))
            + opening.subrange(2496 + 12 * (n - 1), 2496 + 12 * n));
    }
}

/// An honest opening of the signer's commitment, at any hidden leaves,
/// reproduces the commitment: verification of the opening succeeds.
pub proof fn lemma_honest_opening_reproduces_commitment(
    master_seed: Seq<u8>,
    salt: Seq<u8>,
    x: Seq<u8>,
    hidden: Seq<u16>,
    opening: Seq<u8>,
)
    requires
        hidden.len() == 12,
        forall|e: int| 0 <= e < 12 ==> #[trigger] hidden[e] < 2048,
        is_opening_of(
            opening,
            salt,
            crate::field::pack_spec(x).take(16),
            Seq::new(params::TAU as nat, |e: int| root_seed_spec(master_seed, e)),
            Seq::new(params::TAU as nat, |e: int| signer_partial_delta(salt, master_seed, x, e)),
            hidden,
        ),
    ensures
        observed_commitment(salt, opening, hidden) == signer_commitment(salt, master_seed, x),
{
    let delta = crate::field::pack_spec(x).take(16);
    let roots = Seq::new(params::TAU as nat, |e: int| root_seed_spec(master_seed, e));
    let partial_deltas = Seq::new(
        params::TAU as nat,
        |e: int| signer_partial_delta(salt, master_seed, x, e),
    );
    assert forall|e: int| 0 <= e < 12 implies verifier_leaf_digest(salt, opening, hidden, e)
        == #[trigger] signer_leaf_digest(salt, master_seed, x, e) by {
        lemma_honest_leaf_digest(salt, delta, roots, partial_deltas, hidden, opening, e);
    }
    assert(Seq::new(params::TAU as nat, |e: int| verifier_leaf_digest(salt, opening, hidden, e))
        =~= Seq::new(params::TAU as nat, |e: int| signer_leaf_digest(salt, master_seed, x, e)));
    lemma_opening_partial_deltas(opening, salt, delta, roots, partial_deltas, hidden, 12);
    assert(partial_deltas.take(12) =~= partial_deltas);
}

/// Committing, opening at any hidden leaves, and checking the opening
/// against the commitment succeeds: the opening that [`SigningCommitment::open`]
/// produces for a commitment made by [`commit`] reproduces that commitment.
pub proof fn lemma_commit_open_roundtrip(
    commitment: SigningCommitment,
    master_seed: Seq<u8>,
    salt: Seq<u8>,
    x: Seq<u8>,
    hidden: Seq<u16>,
    opening: Seq<u8>,
)
    requires
        commitment.is_commitment_of(master_seed, salt, x),
        hidden.len() == 12,
        forall|e: int| 0 <= e < 12 ==> #[trigger] hidden[e] < 2048,
        is_opening_of(
            opening,
            commitment.secrets().0,
            commitment.secrets().1,
            commitment.secrets().2,
            commitment.secrets().3,
            hidden,
        ),
    ensures
        observed_commitment(salt, opening, hidden) == commitment.commitment@,
{
    assert(commitment.secrets().2 =~= Seq::new(
        params::TAU as nat,
        |e: int| root_seed_spec(master_seed, e),
    ));
    assert(commitment.secrets().3 =~= Seq::new(
        params::TAU as nat,
        |e: int| signer_partial_delta(salt, master_seed, x, e),
    ));
    lemma_honest_opening_reproduces_commitment(master_seed, salt, x, hidden, opening);
}


// ---------------------------------------------------------------------------
// Keys, selectors and domain bytes
// ---------------------------------------------------------------------------

/// The root seed of execution `e` is the generator block `e` of the master
/// seed under the all-zero salt and execution index 0: the seed derivation
/// of the master seed under `tweak(0^16, 3, 0, e)`.
pub proof fn lemma_root_seeds(master_seed: Seq<u8>, e: int)
    requires
        0 <= e < 12,
    ensures
        root_seed_spec(master_seed, e) == seed_derive_spec(
            tweak_spec(Seq::new(16, |i: int| 0u8), 3, 0, e as u16),
            master_seed,
        ),
        root_seed_spec(master_seed, e) == prg::prg_block(
            Seq::new(16, |i: int| 0u8),
            0,
            master_seed,
            e,
        ),
{
    let expected = seed_derive_spec(tweak_spec(Seq::new(16, |i: int| 0u8), 3, 0, e as u16), master_seed);
    assert(crate::mq::zero_salt() =~= Seq::new(16, |i: int| 0u8));
    assert forall|j: int| 0 <= j < 16 implies #[trigger] root_seed_spec(master_seed, e)[j]
        == expected[j] by {
        let k = 16 * e + j;
        assert(k / 16 == e && k % 16 == j) by (nonlinear_arith)
            requires
                k == 16 * e + j,
                0 <= j < 16,
        ;
        prg::lemma_prg_stream_blocks(crate::mq::zero_salt(), 0, master_seed, 192, k);
    }
    assert(root_seed_spec(master_seed, e) =~= expected);
}

/// The two keys of the leaf commitments of `execution`: the first is the
/// salt with `4 execution` (selector 0, index 0) xored into byte 0, and the
/// second differs from it only in the lowest bit of byte 0. A leaf
/// commitment is the seed's derivation under the first key followed by its
/// derivation under the second.
pub proof fn lemma_commitment_keys(salt: Seq<u8>, execution: u8, seed: Seq<u8>)
    requires
        salt.len() == 16,
    ensures
        commit_key_first(salt, execution) == salt.update(
            0,
            salt[0] ^ ((4 * execution) % 256) as u8,
        ),
        commit_key_second(salt, execution).len() == 16,
        commit_key_second(salt, execution)[0] == commit_key_first(salt, execution)[0] ^ 1u8,
        forall|k: int|
            1 <= k < 16 ==> #[trigger] commit_key_second(salt, execution)[k] == salt[k],
        leaf_commitment(salt, execution, seed) == seed_derive_spec(
            salt.update(0, salt[0] ^ ((4 * execution) % 256) as u8),
            seed,
        ) + seed_derive_spec(
            salt.update(0, (salt[0] ^ ((4 * execution) % 256) as u8) ^ 1u8),
            seed,
        ),
{
    crate::field::lemma_xor_u8(salt[1], 0, 0);
    crate::field::lemma_xor_u8(salt[2], 0, 0);
    assert(vstd::wrapping::u8_specs::wrapping_add(
        0,
        vstd::wrapping::u8_specs::wrapping_mul(execution, 4),
    ) == ((4 * execution) % 256) as u8);
    assert(commit_key_first(salt, execution) =~= salt.update(
        0,
        salt[0] ^ ((4 * execution) % 256) as u8,
    ));
    let first = salt.update(0, salt[0] ^ ((4 * execution) % 256) as u8);
    assert(commit_key_second(salt, execution) =~= salt.update(
        0,
        (salt[0] ^ ((4 * execution) % 256) as u8) ^ 1u8,
    ));
}

/// The children of a node `p` of depth `d >= 1` of the full tree: the left
/// one is the derivation of the node's seed under `tweak(salt, 2,
/// execution, d - 1)` (selector 2, one index per depth), and the two
/// children sum to the node.
pub proof fn lemma_tree_children(
    salt: Seq<u8>,
    root: Seq<u8>,
    delta: Seq<u8>,
    execution: u8,
    p: nat,
)
    requires
        p >= 2,
    ensures
        node_depth(p) >= 1,
        full_node(salt, root, delta, execution, 2 * p) == seed_derive_spec(
            tweak_spec(salt, 2, execution, (node_depth(p) - 1) as u16),
            full_node(salt, root, delta, execution, p),
        ),
        full_node(salt, root, delta, execution, 2 * p + 1) == xor_seq(
            full_node(salt, root, delta, execution, 2 * p),
            full_node(salt, root, delta, execution, p),
        ),
{
    assert(node_depth(p) == 1 + node_depth(p / 2));
    assert((2 * p) / 2 == p && (2 * p + 1) / 2 == p && (2 * p) % 2 == 0 && (2 * p + 1) % 2 == 1);
}

/// The digests: the leaf digest of an execution is `SHAKE128(0x06 || leaf
/// commitments)` and the first commitment `SHAKE128(0x07 || leaf digests ||
/// partial deltas)`, 32 bytes each.
pub proof fn lemma_commitment_domains(
    commitments: Seq<Seq<u8>>,
    digests: Seq<Seq<u8>>,
    partial_deltas: Seq<u8>,
)
    ensures
        leaves_digest(commitments) == shake128_bytes(seq![6u8] + commitments.flatten(), 32),
        commitment_spec(digests, partial_deltas) == shake128_bytes(
            seq![7u8] + digests.flatten() + partial_deltas,
            32,
        ),
{
}

} // verus!
