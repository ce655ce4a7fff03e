//! What verification reconstructs at the hidden leaf of an honest opening:
//! the evaluations of the signer's line at the hidden point.

use vstd::prelude::*;
use crate::algebra::{
    ext_add_terms, lemma_ext_mul_distributes, lemma_ext_mul_zero, lemma_scale_additive,
    lemma_sum_ext_add, lemma_sum_ext_mul, lemma_sum_ext_scale, lemma_xor_rearrange,
};
use crate::blc::{
    LEAF_OFFSET, SigningCommitment, adjusted_base, basis_element, child_seed, decode_ext_vector,
    evaluation_point_spec, fold_u_terms, fold_x_terms, folded_u, folded_x, folding_spec,
    full_node, gray_next_spec, gray_position_spec, gray_spec, is_opening_of,
    lemma_folding_lengths, lemma_gray_position, lemma_honest_leaves, leaf_expansion, opened_u,
    opened_x, prefix_xor, root_seed_spec, signer_partial_delta, signer_expanded, tree_leaves, verifier_expanded, zeros,
};
use crate::field::{
    gf256x2_add, gf256x2_mul, gf256x2_scale, lemma_unpack_pack, lemma_xor_u8, pack_spec,
    unpacked_nibble,
};
use crate::mq::{ext_values, sum_ext};
use crate::prg::xor_seq;

verus! {

// ---------------------------------------------------------------------------
// Exclusive or on byte strings
// ---------------------------------------------------------------------------

/// Exclusive or on byte strings of one length is associative and
/// commutative, has the zero string as identity, and every string as its own
/// inverse.
pub proof fn lemma_xor_seq(a: Seq<u8>, b: Seq<u8>, c: Seq<u8>)
    requires
        a.len() == b.len(),
        b.len() == c.len(),
    ensures
        xor_seq(xor_seq(a, b), c) == xor_seq(a, xor_seq(b, c)),
        xor_seq(a, b) == xor_seq(b, a),
        xor_seq(a, zeros(a.len())) == a,
        xor_seq(a, a) == zeros(a.len()),
{
    assert forall|i: int| 0 <= i < a.len() implies (a[i] ^ b[i]) ^ c[i] == a[i] ^ (b[i] ^ c[i])
        && a[i] ^ b[i] == b[i] ^ a[i] && a[i] ^ 0 == a[i] && a[i] ^ a[i] == 0 by {
        lemma_xor_u8(a[i], b[i], c[i]);
    }
    assert(xor_seq(xor_seq(a, b), c) =~= xor_seq(a, xor_seq(b, c)));
    assert(xor_seq(a, b) =~= xor_seq(b, a));
    assert(xor_seq(a, zeros(a.len())) =~= a);
    assert(xor_seq(a, a) =~= zeros(a.len()));
}

// ---------------------------------------------------------------------------
// Folding with a hidden leaf
// ---------------------------------------------------------------------------

/// The Gray code at position `n` of the cycle of the leaves, which returns to
/// zero after the last leaf.
pub open spec fn cycle_code(n: int) -> u16 {
    if n < 2048 {
        gray_spec(n as u16)
    } else {
        0u16
    }
}

/// Bit `f` of the Gray code at position `n` of the cycle.
pub open spec fn cycle_bit(n: int, f: int) -> bool {
    (cycle_code(n) >> (f as u16)) & 1u16 == 1u16
}

proof fn lemma_single_bit_change(x: u16, y: u16, t: u16, f: u16)
    by (bit_vector)
    requires
        x ^ y == 1u16 << t,
        t < 11,
        f < 11,
    ensures
        (((x >> f) & 1u16 == 1u16) != ((y >> f) & 1u16 == 1u16)) == (f == t),
{
}

/// From one leaf to the next, the Gray code changes in the folding slot of
/// that leaf and in no other.
proof fn lemma_cycle_step(n: int, f: int)
    requires
        0 <= n < 2048,
        0 <= f < 11,
    ensures
        (cycle_bit(n, f) != cycle_bit(n + 1, f)) == (f == gray_position_spec(n)),
{
    lemma_gray_position(n);
    assert(gray_next_spec(n) == cycle_code(n + 1));
    lemma_single_bit_change(
        cycle_code(n),
        cycle_code(n + 1),
        gray_position_spec(n) as u16,
        f as u16,
    );
}

/// The expansions that verification folds: those of the signer, with the
/// hidden one zero.
pub open spec fn with_hidden_zero(terms: Seq<Seq<u8>>, hidden: int) -> Seq<Seq<u8>> {
    Seq::new(
        terms.len(),
        |j: int|
            if j == hidden {
                zeros(44)
            } else {
                terms[j]
            },
    )
}

/// What the hidden expansion contributes to folding slot `f` after `n`
/// leaves: itself when its Gray code differs from the current one in bit
/// `f`, else nothing.
pub open spec fn hidden_contribution(terms: Seq<Seq<u8>>, hidden: int, n: int, f: int) -> Seq<u8> {
    if hidden < n && cycle_bit(hidden, f) != cycle_bit(n, f) {
        terms[hidden]
    } else {
        zeros(44)
    }
}

/// Zeroing the hidden expansion changes the running sum by that expansion,
/// and each folding slot by its contribution.
pub proof fn lemma_folding_without_hidden(terms: Seq<Seq<u8>>, hidden: int, n: int)
    requires
        terms.len() == 2048,
        forall|j: int| 0 <= j < 2048 ==> (#[trigger] terms[j]).len() == 44,
        0 <= hidden < 2048,
        0 <= n <= 2048,
    ensures
        prefix_xor(with_hidden_zero(terms, hidden), n) == xor_seq(
            prefix_xor(terms, n),
            if hidden < n {
                terms[hidden]
            } else {
                zeros(44)
            },
        ),
        forall|f: int|
            0 <= f < 11 ==> #[trigger] folding_spec(with_hidden_zero(terms, hidden), n)[f]
                == xor_seq(folding_spec(terms, n)[f], hidden_contribution(terms, hidden, n, f)),
    decreases n,
{
    let zeroed = with_hidden_zero(terms, hidden);
    assert forall|j: int| 0 <= j < 2048 implies (#[trigger] zeroed[j]).len() == 44 by {}
    lemma_folding_lengths(terms, n);
    lemma_folding_lengths(zeroed, n);
    if n == 0 {
        lemma_xor_seq(zeros(44), zeros(44), zeros(44));
        assert forall|f: int|
            0 <= f < 11 implies #[trigger] folding_spec(zeroed, 0)[f] == xor_seq(
            folding_spec(terms, 0)[f],
            hidden_contribution(terms, hidden, 0, f),
        ) by {}
    } else {
        let m = n - 1;
        lemma_folding_without_hidden(terms, hidden, m);
        lemma_folding_lengths(terms, m);
        lemma_folding_lengths(zeroed, m);
        let ps = prefix_xor(terms, m);
        let p_before = if hidden < m {
            terms[hidden]
        } else {
            zeros(44)
        };
        let p_after = if hidden < n {
            terms[hidden]
        } else {
            zeros(44)
        };
        // The running sums.
        if m == hidden {
            lemma_xor_seq(ps, zeros(44), zeros(44));
            lemma_xor_seq(ps, terms[m], terms[m]);
            lemma_xor_seq(terms[m], terms[m], zeros(44));
            assert(prefix_xor(zeroed, n) == xor_seq(prefix_xor(zeroed, m), zeros(44)));
            assert(prefix_xor(zeroed, n) == prefix_xor(terms, m));
            assert(xor_seq(prefix_xor(terms, n), p_after) == xor_seq(xor_seq(ps, terms[m]), terms[m]));
        } else {
            lemma_xor_seq(ps, p_before, terms[m]);
            lemma_xor_seq(ps, terms[m], p_before);
            lemma_xor_seq(p_before, terms[m], zeros(44));
            assert(zeroed[m] == terms[m]);
            assert(p_before == p_after);
        }
        // The folding slots.
        let position = gray_position_spec(m);
        lemma_gray_position(m);
        assert forall|f: int|
            0 <= f < 11 implies #[trigger] folding_spec(zeroed, n)[f] == xor_seq(
            folding_spec(terms, n)[f],
            hidden_contribution(terms, hidden, n, f),
        ) by {
            lemma_cycle_step(m, f);
            let fs = folding_spec(terms, m)[f];
            let c_before = hidden_contribution(terms, hidden, m, f);
            let c_after = hidden_contribution(terms, hidden, n, f);
            if f != position {
                assert(c_before == c_after);
            } else {
                let pn = prefix_xor(terms, n);
                lemma_xor_seq(fs, c_before, xor_seq(pn, p_after));
                lemma_xor_seq(c_before, pn, p_after);
                lemma_xor_seq(pn, c_before, p_after);
                lemma_xor_seq(fs, pn, xor_seq(c_before, p_after));
                if hidden < m {
                    lemma_xor_seq(terms[hidden], terms[hidden], zeros(44));
                    lemma_xor_seq(zeros(44), terms[hidden], zeros(44));
                    lemma_xor_seq(terms[hidden], zeros(44), zeros(44));
                    assert(xor_seq(c_before, p_after) == c_after);
                } else if hidden == m {
                    lemma_xor_seq(zeros(44), terms[hidden], zeros(44));
                    lemma_xor_seq(terms[hidden], zeros(44), zeros(44));
                    assert(xor_seq(c_before, p_after) == c_after);
                } else {
                    lemma_xor_seq(zeros(44), zeros(44), zeros(44));
                    assert(xor_seq(c_before, p_after) == c_after);
                }
            }
        }
    }
}

// ---------------------------------------------------------------------------
// The evaluation point as a sum of basis elements
// ---------------------------------------------------------------------------

/// The element of GF(256^2) whose little-endian encoding is `v`.
pub open spec fn as_pair(v: u16) -> (u8, u8) {
    ((v % 256) as u8, (v / 256) as u8)
}

/// The low `n` bits of `g`.
pub open spec fn low_bits(g: u16, n: u16) -> u16 {
    g & (((1u16 << n) - 1) as u16)
}

/// Bit `f` of `g`.
pub open spec fn code_bit(g: u16, f: int) -> bool {
    (g >> (f as u16)) & 1u16 == 1u16
}

/// The basis elements of GF(256^2) selected by the bits of `g`.
pub open spec fn point_terms(g: u16) -> Seq<(u8, u8)> {
    Seq::new(
        11,
        |f: int|
            if code_bit(g, f) {
                basis_element(f)
            } else {
                (0u8, 0u8)
            },
    )
}

proof fn lemma_low_bits(g: u16, n: u16)
    by (bit_vector)
    requires
        n < 11,
    ensures
        ((low_bits(g, (n + 1) as u16) % 256) as u8) == ((low_bits(g, n) % 256) as u8) ^ (if (g >> n)
            & 1u16 == 1u16 {
            ((1u16 << n) % 256) as u8
        } else {
            0u8
        }),
        ((low_bits(g, (n + 1) as u16) / 256) as u8) == ((low_bits(g, n) / 256) as u8) ^ (if (g >> n)
            & 1u16 == 1u16 {
            ((1u16 << n) / 256) as u8
        } else {
            0u8
        }),
        low_bits(g, 0u16) == 0u16,
        g < 2048 ==> low_bits(g, 11u16) == g,
        g < 2048 ==> (g ^ (g >> 1u16)) < 2048,
        (0u16 >> n) & 1u16 != 1u16,
{
}

/// The first `n` selected basis elements sum to the low `n` bits of `g`.
proof fn lemma_point_terms_prefix(g: u16, n: int)
    requires
        0 <= n <= 11,
    ensures
        sum_ext(point_terms(g).take(n)) == as_pair(low_bits(g, n as u16)),
    decreases n,
{
    if n == 0 {
        lemma_low_bits(g, 0);
        assert(point_terms(g).take(0).len() == 0);
    } else {
        let m = n - 1;
        lemma_point_terms_prefix(g, m);
        lemma_low_bits(g, m as u16);
        assert(point_terms(g).take(n).drop_last() =~= point_terms(g).take(m));
        assert(((m as u16) + 1) as u16 == n as u16);
    }
}

/// The selected basis elements of a code of eleven bits sum to the element
/// that the code encodes.
pub proof fn lemma_point_terms(g: u16)
    requires
        g < 2048,
    ensures
        sum_ext(point_terms(g)) == as_pair(g),
{
    lemma_point_terms_prefix(g, 11);
    lemma_low_bits(g, 0);
    assert(point_terms(g).take(11) =~= point_terms(g));
}

// ---------------------------------------------------------------------------
// The folded evaluations without the hidden expansion
// ---------------------------------------------------------------------------

/// Nibbles of exclusive ors, of zero, and their bound.
pub proof fn lemma_nibble_bits(x: u8, y: u8)
    by (bit_vector)
    ensures
        (x ^ y) & 0x0fu8 == (x & 0x0fu8) ^ (y & 0x0fu8),
        ((x ^ y) >> 4u8) & 0x0fu8 == ((x >> 4u8) & 0x0fu8) ^ ((y >> 4u8) & 0x0fu8),
        0u8 & 0x0fu8 == 0u8,
        (0u8 >> 4u8) & 0x0fu8 == 0u8,
        x & 0x0fu8 < 16,
        (x >> 4u8) & 0x0fu8 < 16,
{
}

/// Unpacked nibbles are below 16.
pub proof fn lemma_nibble_bound(bytes: Seq<u8>, k: int)
    requires
        0 <= k / 2 < bytes.len(),
    ensures
        unpacked_nibble(bytes, k) < 16,
{
    lemma_nibble_bits(bytes[k / 2], 0);
}

/// Unpacking a nibble commutes with exclusive or.
pub proof fn lemma_nibble_xor(a: Seq<u8>, b: Seq<u8>, k: int)
    requires
        a.len() == b.len(),
        a.len() >= 28,
        0 <= k < 56,
    ensures
        unpacked_nibble(xor_seq(a, b).take(28), k) == unpacked_nibble(a.take(28), k)
            ^ unpacked_nibble(b.take(28), k),
        unpacked_nibble(zeros(a.len()).take(28), k) == 0u8,
{
    lemma_nibble_bits(a[k / 2], b[k / 2]);
}

/// Decoding the mask bytes commutes with exclusive or.
pub proof fn lemma_decode_xor(a: Seq<u8>, b: Seq<u8>, c: int)
    requires
        a.len() == 44,
        b.len() == 44,
        0 <= c < 8,
    ensures
        decode_ext_vector(xor_seq(a, b).subrange(28, 44))[c] == gf256x2_add(
            decode_ext_vector(a.subrange(28, 44))[c],
            decode_ext_vector(b.subrange(28, 44))[c],
        ),
        decode_ext_vector(zeros(44).subrange(28, 44))[c] == (0u8, 0u8),
{
}

/// In the cycle of the leaves, the folding slots of leaf `hidden < 2048`
/// that differ from those after the last leaf are the set bits of its Gray
/// code.
proof fn lemma_hidden_slots(terms: Seq<Seq<u8>>, hidden: int, f: int)
    requires
        0 <= hidden < 2048,
        0 <= f < 11,
    ensures
        hidden_contribution(terms, hidden, 2048, f) == if code_bit(gray_spec(hidden as u16), f) {
            terms[hidden]
        } else {
            zeros(44)
        },
{
    lemma_low_bits(gray_spec(hidden as u16), f as u16);
}

/// Without the hidden expansion, the folded mask evaluations lose the
/// hidden mask times the evaluation point of the hidden leaf.
pub proof fn lemma_hidden_fold_u(terms: Seq<Seq<u8>>, hidden: int, c: int)
    requires
        terms.len() == 2048,
        forall|j: int| 0 <= j < 2048 ==> (#[trigger] terms[j]).len() == 44,
        0 <= hidden < 2048,
        0 <= c < 8,
    ensures
        folded_u(folding_spec(with_hidden_zero(terms, hidden), 2048))[c] == gf256x2_add(
            folded_u(folding_spec(terms, 2048))[c],
            gf256x2_mul(
                evaluation_point_spec(hidden as u16),
                decode_ext_vector(terms[hidden].subrange(28, 44))[c],
            ),
        ),
{
    let zeroed = with_hidden_zero(terms, hidden);
    lemma_folding_without_hidden(terms, hidden, 2048);
    lemma_folding_lengths(terms, 2048);
    let fs = folding_spec(terms, 2048);
    let fz = folding_spec(zeroed, 2048);
    let g = gray_spec(hidden as u16);
    lemma_low_bits(g, 0);
    lemma_low_bits(hidden as u16, 0);
    let m = decode_ext_vector(terms[hidden].subrange(28, 44))[c];
    let a = fold_u_terms(fs, c);
    let pt = point_terms(g);
    let b = Seq::new(pt.len(), |f: int| gf256x2_mul(pt[f], m));
    assert forall|f: int| 0 <= f < 11 implies #[trigger] fold_u_terms(fz, c)[f] == gf256x2_add(
        a[f],
        b[f],
    ) by {
        lemma_hidden_slots(terms, hidden, f);
        let contribution = hidden_contribution(terms, hidden, 2048, f);
        lemma_decode_xor(fs[f], contribution, c);
        let da = decode_ext_vector(fs[f].subrange(28, 44))[c];
        let db = decode_ext_vector(contribution.subrange(28, 44))[c];
        lemma_ext_mul_distributes(da, db, basis_element(f));
        lemma_ext_mul_zero(m);
        lemma_ext_mul_zero(basis_element(f));
    }
    assert(fold_u_terms(fz, c) =~= ext_add_terms(a, b));
    lemma_sum_ext_add(a, b);
    lemma_sum_ext_mul(pt, m);
    lemma_point_terms(g);
}

/// Without the hidden expansion, the folded base-vector evaluations lose
/// the hidden nibbles scaled by the evaluation point of the hidden leaf.
pub proof fn lemma_hidden_fold_x(terms: Seq<Seq<u8>>, hidden: int, k: int)
    requires
        terms.len() == 2048,
        forall|j: int| 0 <= j < 2048 ==> (#[trigger] terms[j]).len() == 44,
        0 <= hidden < 2048,
        0 <= k < 56,
    ensures
        folded_x(folding_spec(with_hidden_zero(terms, hidden), 2048))[k] == gf256x2_add(
            folded_x(folding_spec(terms, 2048))[k],
            gf256x2_scale(
                unpacked_nibble(terms[hidden].take(28), k),
                evaluation_point_spec(hidden as u16),
            ),
        ),
{
    let zeroed = with_hidden_zero(terms, hidden);
    lemma_folding_without_hidden(terms, hidden, 2048);
    lemma_folding_lengths(terms, 2048);
    let fs = folding_spec(terms, 2048);
    let fz = folding_spec(zeroed, 2048);
    let g = gray_spec(hidden as u16);
    lemma_low_bits(g, 0);
    lemma_low_bits(hidden as u16, 0);
    let v = unpacked_nibble(terms[hidden].take(28), k);
    let a = fold_x_terms(fs, k);
    let pt = point_terms(g);
    let b = Seq::new(pt.len(), |f: int| gf256x2_scale(v, pt[f]));
    assert forall|f: int| 0 <= f < 11 implies #[trigger] fold_x_terms(fz, k)[f] == gf256x2_add(
        a[f],
        b[f],
    ) by {
        lemma_hidden_slots(terms, hidden, f);
        let contribution = hidden_contribution(terms, hidden, 2048, f);
        lemma_nibble_xor(fs[f], contribution, k);
        let na = unpacked_nibble(fs[f].take(28), k);
        let nb = unpacked_nibble(contribution.take(28), k);
        lemma_scale_additive(na, nb, basis_element(f), basis_element(f));
        lemma_scale_additive(v, 0, (0u8, 0u8), (0u8, 0u8));
    }
    assert(fold_x_terms(fz, k) =~= ext_add_terms(a, b));
    lemma_sum_ext_add(a, b);
    lemma_sum_ext_scale(v, pt);
    lemma_point_terms(g);
}

// ---------------------------------------------------------------------------
// The leaf seeds of a tree sum to its delta
// ---------------------------------------------------------------------------

/// Every node of a tree with a 16-byte root seed has a 16-byte seed.
pub proof fn lemma_full_node_len(salt: Seq<u8>, root: Seq<u8>, delta: Seq<u8>, execution: u8, i: nat)
    requires
        root.len() == 16,
    ensures
        full_node(salt, root, delta, execution, i).len() == 16,
    decreases i,
{
    if i > 3 {
        lemma_full_node_len(salt, root, delta, execution, i / 2);
    }
}

/// The two children of a node sum to the node.
proof fn lemma_children_sum(salt: Seq<u8>, root: Seq<u8>, delta: Seq<u8>, execution: u8, p: nat)
    requires
        root.len() == 16,
        p >= 2,
    ensures
        xor_seq(full_node(salt, root, delta, execution, 2 * p), full_node(salt, root, delta, execution, 2 * p + 1))
            == full_node(salt, root, delta, execution, p),
{
    let parent = full_node(salt, root, delta, execution, p);
    lemma_full_node_len(salt, root, delta, execution, p);
    assert((2 * p) / 2 == p && (2 * p + 1) / 2 == p && (2 * p) % 2 == 0 && (2 * p + 1) % 2 == 1);
    let left = full_node(salt, root, delta, execution, 2 * p);
    assert(left == child_seed(salt, execution, p, parent, 2 * p));
    assert(full_node(salt, root, delta, execution, 2 * p + 1) == xor_seq(left, parent));
    lemma_xor_seq(left, left, parent);
    lemma_xor_seq(parent, zeros(16), zeros(16));
    lemma_xor_seq(zeros(16), parent, parent);
}

/// The sum of the seeds of the `k` nodes from node `start`.
pub open spec fn node_run_xor(
    salt: Seq<u8>,
    root: Seq<u8>,
    delta: Seq<u8>,
    execution: u8,
    start: nat,
    k: nat,
) -> Seq<u8>
    decreases k,
{
    if k == 0 {
        zeros(16)
    } else {
        xor_seq(
            node_run_xor(salt, root, delta, execution, start, (k - 1) as nat),
            full_node(salt, root, delta, execution, (start + k - 1) as nat),
        )
    }
}

/// A run of seeds has 16 bytes.
proof fn lemma_node_run_len(salt: Seq<u8>, root: Seq<u8>, delta: Seq<u8>, execution: u8, start: nat, k: nat)
    ensures
        node_run_xor(salt, root, delta, execution, start, k).len() == 16,
    decreases k,
{
    if k > 0 {
        lemma_node_run_len(salt, root, delta, execution, start, (k - 1) as nat);
    }
}

/// The `2k` children of the `k` nodes from node `s` sum to those nodes.
proof fn lemma_run_halving(salt: Seq<u8>, root: Seq<u8>, delta: Seq<u8>, execution: u8, s: nat, k: nat)
    requires
        root.len() == 16,
        s >= 2,
    ensures
        node_run_xor(salt, root, delta, execution, 2 * s, 2 * k) == node_run_xor(
            salt,
            root,
            delta,
            execution,
            s,
            k,
        ),
    decreases k,
{
    if k > 0 {
        let m = (k - 1) as nat;
        lemma_run_halving(salt, root, delta, execution, s, m);
        let run = node_run_xor(salt, root, delta, execution, s, m);
        lemma_node_run_len(salt, root, delta, execution, s, m);
        let p = (s + m) as nat;
        let a = full_node(salt, root, delta, execution, 2 * p);
        let b = full_node(salt, root, delta, execution, 2 * p + 1);
        lemma_full_node_len(salt, root, delta, execution, 2 * p);
        lemma_full_node_len(salt, root, delta, execution, 2 * p + 1);
        lemma_children_sum(salt, root, delta, execution, p);
        assert(node_run_xor(salt, root, delta, execution, 2 * s, (2 * m + 1) as nat) == xor_seq(
            run,
            a,
        ));
        assert((2 * s + 2 * k - 1) as nat == 2 * p + 1);
        lemma_xor_seq(run, a, b);
    }
}

/// The leaf seeds of a tree sum to its delta.
pub proof fn lemma_leaf_seeds_sum(salt: Seq<u8>, root: Seq<u8>, delta: Seq<u8>, execution: u8)
    requires
        root.len() == 16,
        delta.len() == 16,
    ensures
        node_run_xor(salt, root, delta, execution, 2048, 2048) == delta,
{
    lemma_run_halving(salt, root, delta, execution, 1024, 1024);
    lemma_run_halving(salt, root, delta, execution, 512, 512);
    lemma_run_halving(salt, root, delta, execution, 256, 256);
    lemma_run_halving(salt, root, delta, execution, 128, 128);
    lemma_run_halving(salt, root, delta, execution, 64, 64);
    lemma_run_halving(salt, root, delta, execution, 32, 32);
    lemma_run_halving(salt, root, delta, execution, 16, 16);
    lemma_run_halving(salt, root, delta, execution, 8, 8);
    lemma_run_halving(salt, root, delta, execution, 4, 4);
    lemma_run_halving(salt, root, delta, execution, 2, 2);
    // The two nodes of depth one: the root seed, and the root seed plus delta.
    assert(node_run_xor(salt, root, delta, execution, 2, 0) == zeros(16));
    assert(node_run_xor(salt, root, delta, execution, 2, 1) == xor_seq(zeros(16), root));
    assert(node_run_xor(salt, root, delta, execution, 2, 2) == xor_seq(
        xor_seq(zeros(16), root),
        xor_seq(root, delta),
    ));
    lemma_xor_seq(root, zeros(16), zeros(16));
    lemma_xor_seq(zeros(16), root, root);
    lemma_xor_seq(root, root, delta);
    lemma_xor_seq(delta, zeros(16), zeros(16));
    lemma_xor_seq(zeros(16), delta, delta);
}

// ---------------------------------------------------------------------------
// The signer's expansions and those that verification rebuilds
// ---------------------------------------------------------------------------

/// The running sum of expansions that start with the seeds of a run of
/// nodes starts with the sum of those seeds.
proof fn lemma_prefix_seeds(terms: Seq<Seq<u8>>, salt: Seq<u8>, root: Seq<u8>, delta: Seq<u8>, execution: u8, n: int)
    requires
        root.len() == 16,
        0 <= n <= 2048,
        terms.len() == 2048,
        forall|j: int| 0 <= j < 2048 ==> (#[trigger] terms[j]).len() == 44,
        forall|j: int|
            0 <= j < 2048 ==> (#[trigger] terms[j]).take(16) == full_node(
                salt,
                root,
                delta,
                execution,
                (LEAF_OFFSET + j) as nat,
            ),
    ensures
        prefix_xor(terms, n).take(16) == node_run_xor(salt, root, delta, execution, 2048, n as nat),
    decreases n,
{
    lemma_folding_lengths(terms, n);
    if n == 0 {
        assert(zeros(44).take(16) =~= zeros(16));
    } else {
        lemma_prefix_seeds(terms, salt, root, delta, execution, n - 1);
        lemma_folding_lengths(terms, n - 1);
        let previous = prefix_xor(terms, n - 1);
        assert(xor_seq(previous, terms[n - 1]).take(16) =~= xor_seq(
            previous.take(16),
            terms[n - 1].take(16),
        ));
        assert((2048 + (n as nat) - 1) as nat == (LEAF_OFFSET + (n - 1)) as nat);
    }
}

/// The signer's expansions of execution `e`: 2048 of 44 bytes, each
/// starting with its leaf seed; their sum starts with the first 16 bytes of
/// the packed secret vector.
pub proof fn lemma_signer_expanded(salt: Seq<u8>, master_seed: Seq<u8>, x: Seq<u8>, e: int)
    requires
        x.len() == 56,
        0 <= e < 12,
    ensures
        signer_expanded(salt, master_seed, x, e).len() == 2048,
        forall|j: int|
            0 <= j < 2048 ==> (#[trigger] signer_expanded(salt, master_seed, x, e)[j]).len() == 44,
        prefix_xor(signer_expanded(salt, master_seed, x, e), 2048).take(16) == pack_spec(x).take(16),
{
    let root = root_seed_spec(master_seed, e);
    let delta = pack_spec(x).take(16);
    let terms = signer_expanded(salt, master_seed, x, e);
    assert(root.len() == 16);
    assert(delta.len() == 16);
    assert forall|j: int| 0 <= j < 2048 implies (#[trigger] terms[j]).len() == 44 && terms[j].take(16)
        == full_node(salt, root, delta, e as u8, (LEAF_OFFSET + j) as nat) by {
        let seed = full_node(salt, root, delta, e as u8, (LEAF_OFFSET + j) as nat);
        lemma_full_node_len(salt, root, delta, e as u8, (LEAF_OFFSET + j) as nat);
        assert(terms[j] == leaf_expansion(salt, e as u8, seed));
        assert(terms[j].take(16) =~= seed);
    }
    lemma_prefix_seeds(terms, salt, root, delta, e as u8, 2048);
    lemma_leaf_seeds_sum(salt, root, delta, e as u8);
}

/// From an honest opening of the signer's trees, verification rebuilds the
/// signer's expansions of execution `e` with the hidden one zero.
pub proof fn lemma_verifier_expanded(
    master_seed: Seq<u8>,
    salt: Seq<u8>,
    x: Seq<u8>,
    partial_deltas: Seq<Seq<u8>>,
    hidden: Seq<u16>,
    opening: Seq<u8>,
    e: int,
)
    requires
        x.len() == 56,
        0 <= e < 12,
        hidden[e] < 2048,
        is_opening_of(
            opening,
            salt,
            pack_spec(x).take(16),
            Seq::new(12, |i: int| root_seed_spec(master_seed, i)),
            partial_deltas,
            hidden,
        ),
    ensures
        verifier_expanded(salt, opening, hidden, e) == with_hidden_zero(
            signer_expanded(salt, master_seed, x, e),
            hidden[e] as int,
        ),
{
    let roots = Seq::new(12, |i: int| root_seed_spec(master_seed, i));
    let delta = pack_spec(x).take(16);
    let rebuilt = verifier_expanded(salt, opening, hidden, e);
    let expected = with_hidden_zero(signer_expanded(salt, master_seed, x, e), hidden[e] as int);
    assert forall|j: int| 0 <= j < 2048 implies rebuilt[j] == expected[j] by {
        if j != hidden[e] {
            lemma_honest_leaves(salt, delta, roots, partial_deltas, hidden, opening, e, j);
            assert(tree_leaves(salt, roots[e], delta, e as u8)[j] == tree_leaves(
                salt,
                root_seed_spec(master_seed, e),
                delta,
                e as u8,
            )[j]);
        }
    }
    assert(rebuilt =~= expected);
}

// ---------------------------------------------------------------------------
// The law
// ---------------------------------------------------------------------------

/// An honest opening of the signer's trees reveals the signer's lines at
/// the hidden point: at hidden leaf `h` of execution `e`, whose evaluation
/// point is `r`, the base-vector evaluations that verification reconstructs
/// are `x_zero + x r` and the mask evaluations `u_zero + u_one r`, where
/// `x_zero`, `u_zero` and `u_one` are the folded base vector, the folded
/// masks and the accumulated masks of the signer's expansions.
pub proof fn lemma_honest_opening_line(
    master_seed: Seq<u8>,
    salt: Seq<u8>,
    x: Seq<u8>,
    hidden: Seq<u16>,
    opening: Seq<u8>,
    e: int,
)
    requires
        x.len() == 56,
        forall|i: int| 0 <= i < 56 ==> #[trigger] x[i] < 16,
        hidden.len() == 12,
        forall|i: int| 0 <= i < 12 ==> #[trigger] hidden[i] < 2048,
        is_opening_of(
            opening,
            salt,
            pack_spec(x).take(16),
            Seq::new(12, |i: int| root_seed_spec(master_seed, i)),
            Seq::new(12, |i: int| signer_partial_delta(salt, master_seed, x, i)),
            hidden,
        ),
        0 <= e < 12,
    ensures
        forall|k: int|
            0 <= k < 56 ==> #[trigger] opened_x(salt, opening, hidden, e)[k] == gf256x2_add(
                folded_x(folding_spec(signer_expanded(salt, master_seed, x, e), 2048))[k],
                gf256x2_scale(x[k], evaluation_point_spec(hidden[e])),
            ),
        forall|c: int|
            0 <= c < 8 ==> #[trigger] opened_u(salt, opening, hidden, e)[c] == gf256x2_add(
                folded_u(folding_spec(signer_expanded(salt, master_seed, x, e), 2048))[c],
                gf256x2_mul(evaluation_point_spec(hidden[e]), decode_ext_vector(prefix_xor(signer_expanded(salt, master_seed, x, e), 2048).subrange(28, 44))[c]),
            ),
{
    let h = hidden[e] as int;
    let r = evaluation_point_spec(hidden[e]);
    let terms = signer_expanded(salt, master_seed, x, e);
    let zeroed = with_hidden_zero(terms, h);
    lemma_signer_expanded(salt, master_seed, x, e);
    lemma_verifier_expanded(master_seed, salt, x, Seq::new(12, |i: int| signer_partial_delta(salt, master_seed, x, i)), hidden, opening, e);
    lemma_folding_without_hidden(terms, h, 2048);
    lemma_folding_lengths(terms, 2048);
    let sum = prefix_xor(terms, 2048);
    let hidden_term = terms[h];
    assert(prefix_xor(zeroed, 2048) == xor_seq(sum, hidden_term));
    let fold = folding_spec(terms, 2048);
    assert(folded_x(folding_spec(signer_expanded(salt, master_seed, x, e), 2048)) == folded_x(fold));
    assert(folded_u(folding_spec(signer_expanded(salt, master_seed, x, e), 2048)) == folded_u(fold));
    assert(decode_ext_vector(prefix_xor(signer_expanded(salt, master_seed, x, e), 2048).subrange(28, 44)) == decode_ext_vector(sum.subrange(28, 44)));
    assert(verifier_expanded(salt, opening, hidden, e) == zeroed);
    // The masks.
    assert forall|c: int| 0 <= c < 8 implies #[trigger] opened_u(salt, opening, hidden, e)[c]
        == gf256x2_add(
        folded_u(folding_spec(signer_expanded(salt, master_seed, x, e), 2048))[c],
        gf256x2_mul(r, decode_ext_vector(prefix_xor(signer_expanded(salt, master_seed, x, e), 2048).subrange(28, 44))[c]),
    ) by {
        let m = decode_ext_vector(hidden_term.subrange(28, 44))[c];
        let u0 = folded_u(folding_spec(signer_expanded(salt, master_seed, x, e), 2048))[c];
        let u1 = decode_ext_vector(prefix_xor(signer_expanded(salt, master_seed, x, e), 2048).subrange(28, 44))[c];
        lemma_hidden_fold_u(terms, h, c);
        lemma_decode_xor(sum, hidden_term, c);
        lemma_ext_mul_distributes(u1, m, r);
        let rm = gf256x2_mul(r, m);
        let ru = gf256x2_mul(r, u1);
        lemma_xor_rearrange(u0.0, rm.0, ru.0, 0, 0, 0);
        lemma_xor_rearrange(u0.1, rm.1, ru.1, 0, 0, 0);
    }
    // The base vector.
    let pd = Seq::new(12, |i: int| signer_partial_delta(salt, master_seed, x, i))[e];
    let packed = pack_spec(x);
    lemma_unpack_pack(x);
    let adjusted = adjusted_base(xor_seq(sum, hidden_term), pd);
    assert forall|b: int| 0 <= b < 28 implies #[trigger] adjusted[b] == packed[b] ^ hidden_term[b] by {
        if b < 16 {
            assert(sum.take(16)[b] == packed.take(16)[b]);
            lemma_xor_u8(packed[b], hidden_term[b], 0);
        } else {
            lemma_xor_rearrange(sum[b], hidden_term[b], packed[b], sum[b], 0, 0);
            lemma_xor_u8(hidden_term[b], packed[b], 0);
            assert(pd[b - 16] == packed[b] ^ sum[b]);
            lemma_xor_u8(sum[b] ^ hidden_term[b], packed[b], sum[b]);
            lemma_xor_u8(sum[b], hidden_term[b], packed[b] ^ sum[b]);
            lemma_xor_u8(hidden_term[b], packed[b], sum[b]);
            lemma_xor_u8(sum[b], packed[b] ^ hidden_term[b], sum[b]);
            lemma_xor_rearrange(packed[b] ^ hidden_term[b], sum[b], 0, 0, 0, 0);
            lemma_xor_u8(sum[b], sum[b], packed[b] ^ hidden_term[b]);
        }
    }
    assert forall|k: int| 0 <= k < 56 implies #[trigger] opened_x(salt, opening, hidden, e)[k]
        == gf256x2_add(
        folded_x(folding_spec(signer_expanded(salt, master_seed, x, e), 2048))[k],
        gf256x2_scale(x[k], r),
    ) by {
        let v = unpacked_nibble(hidden_term.take(28), k);
        let x0 = folded_x(folding_spec(signer_expanded(salt, master_seed, x, e), 2048))[k];
        lemma_hidden_fold_x(terms, h, k);
        lemma_nibble_bits(packed[k / 2], hidden_term[k / 2]);
        assert(unpacked_nibble(packed, k) == x[k]);
        assert(adjusted[k / 2] == packed[k / 2] ^ hidden_term[k / 2]);
        assert(hidden_term.take(28)[k / 2] == hidden_term[k / 2]);
        assert(unpacked_nibble(adjusted, k) == x[k] ^ v);
        lemma_scale_additive(x[k], v, r, r);
        let sv = gf256x2_scale(v, r);
        let sx = gf256x2_scale(x[k], r);
        lemma_xor_rearrange(x0.0, sv.0, sx.0, 0, 0, 0);
        lemma_xor_rearrange(x0.1, sv.1, sx.1, 0, 0, 0);
        lemma_xor_u8(x0.0 ^ sv.0, sx.0, sv.0);
        lemma_xor_u8(x0.1 ^ sv.1, sx.1, sv.1);
        lemma_xor_u8(sx.0, sv.0, 0);
        lemma_xor_u8(sx.1, sv.1, 0);
    }
}

/// An honest opening reveals the signer's lines at the hidden point: at
/// hidden leaf `h` of execution `e`, whose evaluation point is `r`, the
/// base-vector evaluations that verification reconstructs are
/// `x_zero + x r` and the mask evaluations `u_zero + u_one r`.
pub proof fn lemma_honest_opening_evaluations(
    commitment: SigningCommitment,
    master_seed: Seq<u8>,
    salt: Seq<u8>,
    x: Seq<u8>,
    hidden: Seq<u16>,
    opening: Seq<u8>,
    e: int,
)
    requires
        commitment.is_commitment_of(master_seed, salt, x),
        x.len() == 56,
        forall|i: int| 0 <= i < 56 ==> #[trigger] x[i] < 16,
        hidden.len() == 12,
        forall|i: int| 0 <= i < 12 ==> #[trigger] hidden[i] < 2048,
        is_opening_of(
            opening,
            commitment.secrets().0,
            commitment.secrets().1,
            commitment.secrets().2,
            commitment.secrets().3,
            hidden,
        ),
        0 <= e < 12,
    ensures
        forall|k: int|
            0 <= k < 56 ==> #[trigger] opened_x(salt, opening, hidden, e)[k] == gf256x2_add(
                ext_values(commitment.x_zero@[e]@)[k],
                gf256x2_scale(x[k], evaluation_point_spec(hidden[e])),
            ),
        forall|c: int|
            0 <= c < 8 ==> #[trigger] opened_u(salt, opening, hidden, e)[c] == gf256x2_add(
                ext_values(commitment.u_zero@[e]@)[c],
                gf256x2_mul(evaluation_point_spec(hidden[e]), ext_values(commitment.u_one@[e]@)[c]),
            ),
{
    assert(commitment.secrets().2 =~= Seq::new(12, |i: int| root_seed_spec(master_seed, i)));
    assert(commitment.secrets().3 =~= Seq::new(
        12,
        |i: int| signer_partial_delta(salt, master_seed, x, i),
    ));
    assert(ext_values(commitment.x_zero@[e]@) == folded_x(
        folding_spec(signer_expanded(salt, master_seed, x, e), 2048),
    ));
    lemma_honest_opening_line(master_seed, salt, x, hidden, opening, e);
}

} // verus!
