//! Completeness: along the line through the masked vector, each equation of
//! the system is the line of its constant and linear coefficients, so the
//! evaluations that verification recomputes at a hidden point are those
//! that the signer committed to, and every signature that the signer
//! assembles verifies.

use vstd::prelude::*;
use crate::algebra::{
    ext_add_terms, lemma_ext_mul_associates, lemma_ext_mul_commutes, lemma_ext_mul_distributes,
    lemma_scale_additive, lemma_scale_is_mul, lemma_sum_ext_add, lemma_sum_ext_concat,
    lemma_sum_ext_mul_left, lemma_sum_ext_pairs, lemma_xor_rearrange, pair_sums,
};
use crate::field::{gf16_embed, gf256x2_add, gf256x2_mul, gf256x2_scale};
use crate::mq::{
    base_row_terms, evaluate_base_spec, evaluate_terms, ext_row_terms, multiply_base_spec,
    multiply_extension_spec, sum_ext,
};
use crate::mq::{expanded_linear, expanded_quadratic};
use crate::sign::{
    scaled_terms, signer_alpha_one, signer_alpha_zero, signer_t_one, signer_z_one, signer_z_zero,
    signer_zs_one, signer_zs_zero,
};
use crate::verify::{
    batched_sum, batching_row, inner_terms, opened_t, opened_z, opened_zs, recomputed_alpha_zero,
};
use crate::blc::{
    decode_ext_vector, evaluation_point_spec, folded_u, folded_x, folding_spec,
    lemma_honest_opening_reproduces_commitment, observed_commitment, opened_u, opened_x,
    prefix_xor, root_seed_spec, signer_commitment, signer_expanded, signer_partial_delta,
};
use crate::field::pack_spec;
use crate::hidden_point::{lemma_honest_opening_line, lemma_nibble_bound};
use crate::keygen::{equation_value, public_output_spec, secret_key_consistent_spec};
use crate::params;
use crate::sign::{
    is_assembled_signature, is_first_valid_nonce, le32, secret_vector_of, signer_alphas,
    signer_u_one, signer_u_zero, signer_x_zero,
};
use crate::verify::{
    alpha_one_of, batching_stream_spec, challenge_indices, challenge_stream_spec, encode_alphas,
    fiat_shamir_spec, message_hash_spec, second_commitment_spec, verify_spec,
};

verus! {

// ---------------------------------------------------------------------------
// One equation along a line
// ---------------------------------------------------------------------------

/// The point `x0 + x r` of the line through `x0` in the direction of the
/// base-field vector `x`.
pub open spec fn line_point(x0: Seq<(u8, u8)>, x: Seq<u8>, r: (u8, u8)) -> Seq<(u8, u8)> {
    Seq::new(56, |k: int| gf256x2_add(x0[k], gf256x2_scale(x[k], r)))
}

/// The sum of two elements of GF(256^2), added in any grouping.
proof fn lemma_ext_add_regroup(a: (u8, u8), b: (u8, u8), c: (u8, u8), d: (u8, u8))
    ensures
        gf256x2_add(gf256x2_add(a, b), gf256x2_add(c, d)) == gf256x2_add(
            gf256x2_add(a, gf256x2_add(b, c)),
            d,
        ),
        gf256x2_add(gf256x2_add(a, b), c) == gf256x2_add(a, gf256x2_add(b, c)),
        gf256x2_add(gf256x2_add(a, b), b) == a,
        gf256x2_add(gf256x2_add(gf256x2_add(a, b), gf256x2_add(c, d)), gf256x2_add(b, d))
            == gf256x2_add(a, c),
{
    lemma_xor_rearrange(a.0, b.0, c.0, d.0, 0, 0);
    lemma_xor_rearrange(a.1, b.1, c.1, d.1, 0, 0);
}

/// `q (s r) = r (s q)` for `s` in GF(16) and `q`, `r` in GF(256^2).
pub proof fn lemma_mul_scale_swap(q: (u8, u8), s: u8, r: (u8, u8))
    ensures
        gf256x2_mul(q, gf256x2_scale(s, r)) == gf256x2_mul(r, gf256x2_scale(s, q)),
{
    let e = (gf16_embed(s), 0u8);
    lemma_scale_is_mul(s, r);
    lemma_scale_is_mul(s, q);
    lemma_ext_mul_associates(q, e, r);
    lemma_ext_mul_commutes(gf256x2_mul(q, e), r);
    lemma_ext_mul_commutes(q, e);
}

/// Row `i` of `A (x0 + x r)` is row `i` of `A x0` plus `r` times row `i` of
/// `A x`.
pub proof fn lemma_row_on_line(q: Seq<(u8, u8)>, x0: Seq<(u8, u8)>, x: Seq<u8>, r: (u8, u8), i: int)
    requires
        0 <= i < 56,
    ensures
        multiply_extension_spec(q, line_point(x0, x, r))[i] == gf256x2_add(
            multiply_extension_spec(q, x0)[i],
            gf256x2_mul(r, multiply_base_spec(q, x)[i]),
        ),
{
    let lp = line_point(x0, x, r);
    let a = ext_row_terms(q, x0, i);
    let base = base_row_terms(q, x, i);
    let b = Seq::new(base.len(), |j: int| gf256x2_mul(r, base[j]));
    assert forall|j: int| 0 <= j <= i implies #[trigger] ext_row_terms(q, lp, i)[j] == gf256x2_add(
        a[j],
        b[j],
    ) by {
        let qj = q[crate::mq::tri(i as nat) + j];
        lemma_ext_mul_distributes(x0[j], gf256x2_scale(x[j], r), qj);
        lemma_mul_scale_swap(qj, x[j], r);
    }
    assert(ext_row_terms(q, lp, i) =~= ext_add_terms(a, b));
    lemma_sum_ext_add(a, b);
    lemma_sum_ext_mul_left(r, base);
}

/// `A (x0 + x r) + r b = A x0 + r (A x + b)`.
pub proof fn lemma_t_on_line(
    q: Seq<(u8, u8)>,
    linear: Seq<(u8, u8)>,
    x0: Seq<(u8, u8)>,
    x: Seq<u8>,
    r: (u8, u8),
    k: int,
)
    requires
        0 <= k < 56,
    ensures
        opened_t(q, linear, line_point(x0, x, r), r)[k] == gf256x2_add(
            multiply_extension_spec(q, x0)[k],
            gf256x2_mul(r, signer_t_one(q, linear, x)[k]),
        ),
{
    lemma_row_on_line(q, x0, x, r, k);
    let ax = multiply_base_spec(q, x)[k];
    lemma_ext_mul_distributes(ax, linear[k], r);
    lemma_ext_add_regroup(
        multiply_extension_spec(q, x0)[k],
        gf256x2_mul(r, ax),
        gf256x2_mul(r, linear[k]),
        (0u8, 0u8),
    );
}

/// One term of the inner product along the line:
/// `(a + r t) (y + s r) = a y + r (s a + t y) + r^2 (s t)`.
pub proof fn lemma_term_on_line(a: (u8, u8), t: (u8, u8), y: (u8, u8), s: u8, r: (u8, u8))
    ensures
        gf256x2_mul(gf256x2_add(a, gf256x2_mul(r, t)), gf256x2_add(y, gf256x2_scale(s, r)))
            == gf256x2_add(
            gf256x2_add(
                gf256x2_mul(a, y),
                gf256x2_mul(r, gf256x2_add(gf256x2_scale(s, a), gf256x2_mul(t, y))),
            ),
            gf256x2_mul(gf256x2_mul(r, r), gf256x2_scale(s, t)),
        ),
{
    let rt = gf256x2_mul(r, t);
    let sr = gf256x2_scale(s, r);
    lemma_ext_mul_distributes(a, rt, gf256x2_add(y, sr));
    lemma_ext_mul_distributes(y, sr, a);
    lemma_ext_mul_distributes(y, sr, rt);
    lemma_mul_scale_swap(a, s, r);
    lemma_ext_mul_associates(r, t, y);
    lemma_ext_mul_associates(r, t, sr);
    lemma_mul_scale_swap(t, s, r);
    lemma_ext_mul_associates(r, r, gf256x2_scale(s, t));
    lemma_ext_mul_distributes(gf256x2_scale(s, a), gf256x2_mul(t, y), r);
    lemma_ext_add_regroup(
        gf256x2_mul(a, y),
        gf256x2_mul(r, gf256x2_scale(s, a)),
        gf256x2_mul(r, gf256x2_mul(t, y)),
        gf256x2_mul(gf256x2_mul(r, r), gf256x2_scale(s, t)),
    );
}

/// `x^T A x + b^T x` as the inner product of `x` with `A x + b`.
proof fn lemma_value_as_inner(q: Seq<(u8, u8)>, linear: Seq<(u8, u8)>, x: Seq<u8>)
    ensures
        evaluate_base_spec(q, linear, x) == sum_ext(
            Seq::new(56, |k: int| gf256x2_scale(x[k], signer_t_one(q, linear, x)[k])),
        ),
{
    let terms = evaluate_terms(q, linear, x);
    lemma_sum_ext_pairs(terms, 56);
    let t1 = signer_t_one(q, linear, x);
    assert forall|k: int| 0 <= k < 56 implies #[trigger] pair_sums(terms, 56)[k] == gf256x2_scale(
        x[k],
        t1[k],
    ) by {
        assert((2 * k) % 2 == 0 && (2 * k) / 2 == k);
        assert((2 * k + 1) % 2 == 1 && (2 * k + 1) / 2 == k);
        lemma_scale_additive(
            x[k],
            0,
            multiply_base_spec(q, x)[k],
            linear[k],
        );
    }
    assert(pair_sums(terms, 56) =~= Seq::new(
        56,
        |k: int| gf256x2_scale(x[k], t1[k]),
    ));
}

/// Along the line `x0 + x r` through the masked vector, the homogenized
/// equation `(A, b)` with output `y = x^T A x + b^T x` is the line
/// `z0 + z1 r` of its constant and linear coefficients.
pub proof fn lemma_equation_on_line(
    q: Seq<(u8, u8)>,
    linear: Seq<(u8, u8)>,
    x0: Seq<(u8, u8)>,
    x: Seq<u8>,
    r: (u8, u8),
)
    ensures
        opened_z(q, linear, line_point(x0, x, r), r, evaluate_base_spec(q, linear, x))
            == gf256x2_add(
            signer_z_zero(q, x0),
            gf256x2_mul(r, signer_z_one(q, linear, x, x0)),
        ),
{
    let lp = line_point(x0, x, r);
    let t = opened_t(q, linear, lp, r);
    let ax0 = multiply_extension_spec(q, x0);
    let t1 = signer_t_one(q, linear, x);
    let rr = gf256x2_mul(r, r);
    let p = inner_terms(ax0, x0);
    let w = Seq::new(
        56,
        |k: int| gf256x2_add(gf256x2_scale(x[k], ax0[k]), gf256x2_mul(t1[k], x0[k])),
    );
    let sq = Seq::new(56, |k: int| gf256x2_scale(x[k], t1[k]));
    let rw = Seq::new(56, |k: int| gf256x2_mul(r, w[k]));
    let rrs = Seq::new(56, |k: int| gf256x2_mul(rr, sq[k]));
    assert forall|k: int| 0 <= k < 56 implies #[trigger] inner_terms(t, lp)[k] == gf256x2_add(
        gf256x2_add(p[k], rw[k]),
        rrs[k],
    ) by {
        lemma_t_on_line(q, linear, x0, x, r, k);
        lemma_term_on_line(ax0[k], t1[k], x0[k], x[k], r);
    }
    assert(inner_terms(t, lp) =~= ext_add_terms(ext_add_terms(p, rw), rrs));
    lemma_sum_ext_add(ext_add_terms(p, rw), rrs);
    lemma_sum_ext_add(p, rw);
    lemma_sum_ext_mul_left(r, w);
    lemma_sum_ext_mul_left(rr, sq);
    // The linear coefficient.
    let st = scaled_terms(ax0, x);
    let it = inner_terms(t1, x0);
    assert(w =~= ext_add_terms(st, it));
    lemma_sum_ext_add(st, it);
    lemma_sum_ext_concat(st, it);
    // The quadratic coefficient is the output.
    lemma_value_as_inner(q, linear, x);
    let y = evaluate_base_spec(q, linear, x);
    lemma_ext_add_regroup(
        gf256x2_add(sum_ext(p), gf256x2_mul(r, sum_ext(w))),
        gf256x2_mul(rr, y),
        (0u8, 0u8),
        (0u8, 0u8),
    );
}


// ---------------------------------------------------------------------------
// The batched evaluations
// ---------------------------------------------------------------------------

/// A batched combination of values on lines is the line of the batched
/// combinations.
proof fn lemma_batched_line(
    coefficients: Seq<(u8, u8)>,
    zs0: Seq<(u8, u8)>,
    zs1: Seq<(u8, u8)>,
    r: (u8, u8),
)
    ensures
        batched_sum(
            coefficients,
            Seq::new(14, |i: int| gf256x2_add(zs0[i], gf256x2_mul(r, zs1[i]))),
        ) == gf256x2_add(batched_sum(coefficients, zs0), gf256x2_mul(r, batched_sum(coefficients, zs1))),
{
    let values = Seq::new(14, |i: int| gf256x2_add(zs0[i], gf256x2_mul(r, zs1[i])));
    let a = Seq::new(14, |i: int| gf256x2_mul(coefficients[i], zs0[i]));
    let b = Seq::new(14, |i: int| gf256x2_mul(coefficients[i], zs1[i]));
    let rb = Seq::new(14, |i: int| gf256x2_mul(r, b[i]));
    assert forall|i: int| 0 <= i < 14 implies #[trigger] gf256x2_mul(coefficients[i], values[i])
        == gf256x2_add(a[i], rb[i]) by {
        let g = coefficients[i];
        lemma_ext_mul_distributes(zs0[i], gf256x2_mul(r, zs1[i]), g);
        lemma_ext_mul_associates(g, r, zs1[i]);
        lemma_ext_mul_commutes(g, r);
        lemma_ext_mul_associates(r, g, zs1[i]);
    }
    assert(Seq::new(14, |i: int| gf256x2_mul(coefficients[i], values[i])) =~= ext_add_terms(a, rb));
    lemma_sum_ext_add(a, rb);
    lemma_sum_ext_mul_left(r, b);
}

/// At the point `x0 + x r` of the line through the masked vector, with the
/// outputs of the system at the secret vector `x`, the masks `u0 + u1 r`,
/// and the signer's linear coefficients, verification recomputes the
/// signer's constant coefficients.
pub proof fn lemma_recomputed_alpha_zero(
    batching: Seq<u8>,
    master_seed: Seq<u8>,
    outputs: Seq<(u8, u8)>,
    hidden: u16,
    x: Seq<u8>,
    x0: Seq<(u8, u8)>,
    u: Seq<(u8, u8)>,
    u0: Seq<(u8, u8)>,
    u1: Seq<(u8, u8)>,
)
    requires
        forall|i: int|
            0 <= i < 14 ==> #[trigger] outputs[i] == evaluate_base_spec(
                expanded_quadratic(master_seed, i as u16),
                expanded_linear(master_seed, i as u16),
                x,
            ),
        forall|c: int|
            0 <= c < 8 ==> #[trigger] u[c] == gf256x2_add(
                u0[c],
                gf256x2_mul(evaluation_point_spec(hidden), u1[c]),
            ),
    ensures
        recomputed_alpha_zero(
            batching,
            master_seed,
            outputs,
            hidden,
            line_point(x0, x, evaluation_point_spec(hidden)),
            u,
            signer_alpha_one(batching, master_seed, x, x0, u1),
        ) == signer_alpha_zero(batching, master_seed, x0, u0),
{
    let r = evaluation_point_spec(hidden);
    let lp = line_point(x0, x, r);
    let zs0 = signer_zs_zero(master_seed, x0);
    let zs1 = signer_zs_one(master_seed, x, x0);
    let zs = opened_zs(master_seed, outputs, lp, r);
    assert forall|i: int| 0 <= i < 14 implies #[trigger] zs[i] == gf256x2_add(
        zs0[i],
        gf256x2_mul(r, zs1[i]),
    ) by {
        lemma_equation_on_line(
            expanded_quadratic(master_seed, i as u16),
            expanded_linear(master_seed, i as u16),
            x0,
            x,
            r,
        );
    }
    assert(zs =~= Seq::new(14, |i: int| gf256x2_add(zs0[i], gf256x2_mul(r, zs1[i]))));
    let alpha_one = signer_alpha_one(batching, master_seed, x, x0, u1);
    let recomputed = recomputed_alpha_zero(batching, master_seed, outputs, hidden, lp, u, alpha_one);
    let expected = signer_alpha_zero(batching, master_seed, x0, u0);
    assert forall|c: int| 0 <= c < 8 implies #[trigger] recomputed[c] == expected[c] by {
        let row = batching_row(batching, c);
        lemma_batched_line(row, zs0, zs1, r);
        let b0 = batched_sum(row, zs0);
        let b1 = batched_sum(row, zs1);
        lemma_ext_mul_distributes(u1[c], b1, r);
        lemma_ext_add_regroup(u0[c], gf256x2_mul(r, u1[c]), b0, gf256x2_mul(r, b1));
    }
    assert(recomputed =~= expected);
}


// ---------------------------------------------------------------------------
// Signatures that the signer assembles verify
// ---------------------------------------------------------------------------

/// Decoding row `e` of encoded rows of eight elements gives the row back.
proof fn lemma_alpha_rows_round_trip(rows: Seq<Seq<(u8, u8)>>, e: int)
    requires
        0 <= e < 12,
        rows[e].len() == 8,
    ensures
        alpha_one_of(encode_alphas(rows), e) == rows[e],
{
    let encoded = encode_alphas(rows);
    let decoded = alpha_one_of(encoded, e);
    assert forall|c: int| 0 <= c < 8 implies #[trigger] decoded[c] == rows[e][c] by {
        let k = 16 * e + 2 * c;
        assert(k / 16 == e && (k % 16) / 2 == c && k % 2 == 0) by (nonlinear_arith)
            requires
                k == 16 * e + 2 * c,
                0 <= c < 8,
                0 <= e,
        ;
        assert((k + 1) / 16 == e && ((k + 1) % 16) / 2 == c && (k + 1) % 2 == 1) by (nonlinear_arith)
            requires
                k == 16 * e + 2 * c,
                0 <= c < 8,
                0 <= e,
        ;
    }
    assert(decoded =~= rows[e]);
}

/// The outputs in the public key of a consistent secret key are the values
/// of its system at its secret vector.
proof fn lemma_public_outputs(secret_key: Seq<u8>, i: int)
    requires
        secret_key.len() == 88,
        secret_key_consistent_spec(secret_key),
        0 <= i < 14,
    ensures
        decode_ext_vector(secret_key.take(60).subrange(32, 60))[i] == evaluate_base_spec(
            expanded_quadratic(secret_key.take(32), i as u16),
            expanded_linear(secret_key.take(32), i as u16),
            secret_vector_of(secret_key),
        ),
{
    let x = secret_vector_of(secret_key);
    let output = public_output_spec(secret_key.take(32), x);
    assert(secret_key.take(60).subrange(32, 60) =~= secret_key.subrange(32, 60));
    assert((2 * i) % 2 == 0 && (2 * i) / 2 == i);
    assert((2 * i + 1) % 2 == 1 && (2 * i + 1) / 2 == i);
    assert(output[2 * i] == equation_value(secret_key.take(32), i, x).0);
    assert(output[2 * i + 1] == equation_value(secret_key.take(32), i, x).1);
}

/// A signature that the signer assembles with a consistent secret key
/// verifies under the public key embedded in that secret key.
pub proof fn lemma_assembled_signature_verifies(
    secret_key: Seq<u8>,
    message: Seq<u8>,
    master_seed: Seq<u8>,
    salt: Seq<u8>,
    signature: Seq<u8>,
)
    requires
        secret_key.len() == 88,
        secret_key_consistent_spec(secret_key),
        is_assembled_signature(secret_key, message, master_seed, salt, signature),
    ensures
        verify_spec(secret_key.take(60), message, signature),
{
    params::lemma_sizes();
    let public_key = secret_key.take(60);
    let x = secret_vector_of(secret_key);
    assert forall|i: int| 0 <= i < 56 implies #[trigger] x[i] < 16 by {
        lemma_nibble_bound(secret_key.subrange(60, 88), i);
    }
    let seed = secret_key.take(32);
    assert(public_key.take(32) =~= seed);
    let first_commitment = signer_commitment(salt, master_seed, x);
    let alphas = signer_alphas(secret_key, master_seed, salt);
    let alpha_one = encode_alphas(alphas.1);
    let second_commitment = second_commitment_spec(alphas.0, alpha_one);
    let hash = fiat_shamir_spec(
        public_key,
        first_commitment,
        second_commitment,
        message_hash_spec(message),
    );
    let nonce = signature.subrange(2912, 2916);
    let n = choose|n: u32| #[trigger] is_first_valid_nonce(hash, n) && nonce == le32(n);
    let stream = challenge_stream_spec(hash, nonce);
    let hidden = challenge_indices(stream);
    let opening = signature.subrange(272, 2912);
    assert forall|e: int| 0 <= e < 12 implies #[trigger] hidden[e] < 2048 by {}
    // The first commitment.
    lemma_honest_opening_reproduces_commitment(master_seed, salt, x, hidden, opening);
    // The second commitment.
    let batching = batching_stream_spec(first_commitment);
    let outputs = decode_ext_vector(public_key.subrange(32, 60));
    assert forall|i: int| 0 <= i < 14 implies #[trigger] outputs[i] == evaluate_base_spec(
        expanded_quadratic(seed, i as u16),
        expanded_linear(seed, i as u16),
        x,
    ) by {
        lemma_public_outputs(secret_key, i);
    }
    let recomputed = Seq::new(
        params::TAU as nat,
        |e: int|
            recomputed_alpha_zero(
                batching,
                seed,
                outputs,
                hidden[e],
                opened_x(salt, opening, hidden, e),
                opened_u(salt, opening, hidden, e),
                alpha_one_of(alpha_one, e),
            ),
    );
    assert forall|e: int| 0 <= e < 12 implies #[trigger] recomputed[e] == alphas.0[e] by {
        let r = evaluation_point_spec(hidden[e]);
        let x0 = signer_x_zero(salt, master_seed, x, e);
        let u0 = signer_u_zero(salt, master_seed, x, e);
        let u1 = signer_u_one(salt, master_seed, x, e);
        lemma_honest_opening_line(master_seed, salt, x, hidden, opening, e);
        assert(opened_x(salt, opening, hidden, e) =~= line_point(x0, x, r));
        lemma_alpha_rows_round_trip(alphas.1, e);
        lemma_recomputed_alpha_zero(
            batching,
            seed,
            outputs,
            hidden[e],
            x,
            x0,
            opened_u(salt, opening, hidden, e),
            u0,
            u1,
        );
    }
    assert(recomputed =~= alphas.0);
}

} // verus!
