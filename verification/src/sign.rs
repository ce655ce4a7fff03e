//! Randomized signing: the evaluations of the signer, the grinding search for
//! a challenge, and the assembly of the signature.

use vstd::prelude::*;
use crate::blc::{self, decode_ext_vector, folded_u, folded_x, folding_spec, is_opening_of,
    lemma_opening_unique, prefix_xor, root_seed_spec, signer_commitment, signer_expanded,
    signer_partial_delta};
use crate::field::{Gf16, Gf256x2, gf16_values, gf256x2_add, gf256x2_scale, pack_spec, unpack_gf16};
use crate::keygen::{secret_key_consistent_spec, unpack_spec};
use crate::mq::{self, PackedEquation, expanded_linear, expanded_quadratic, ext_values,
    lemma_sum_ext_step, multiply_base_spec, multiply_extension_spec, sum_ext};
use crate::params::{self, lemma_sizes};
use crate::verify::{self, batched_sum, batching_matrix, batching_row, batching_stream_spec,
    bytes_at, challenge_indices, challenge_stream_spec, encode_alpha_rows, encode_alphas,
    expand_equations, fiat_shamir_spec, grinding_ok, inner_terms, lemma_layout, message_hash_spec,
    parse_challenge, second_commitment_spec, verify_spec};
use crate::xof::Shake128State;

verus! {

broadcast use crate::field::group_field_ops;

// ---------------------------------------------------------------------------
// The evaluations of the signer
// ---------------------------------------------------------------------------

/// The secret vector packed in a secret key.
pub open spec fn secret_vector_of(secret_key: Seq<u8>) -> Seq<u8> {
    unpack_spec(secret_key.subrange(60, 88))
}

/// `A x + b`: the equation `(A, b)` applied to the secret vector `x`.
pub open spec fn signer_t_one(quadratic: Seq<(u8, u8)>, linear: Seq<(u8, u8)>, x: Seq<u8>) -> Seq<
    (u8, u8),
> {
    let ax = multiply_base_spec(quadratic, x);
    Seq::new(params::MQ_N as nat, |k: int| gf256x2_add(ax[k], linear[k]))
}

/// The products `x[k] t[k]` of a base-field vector with an extension-field
/// vector.
pub open spec fn scaled_terms(t: Seq<(u8, u8)>, x: Seq<u8>) -> Seq<(u8, u8)> {
    Seq::new(params::MQ_N as nat, |k: int| gf256x2_scale(x[k], t[k]))
}

/// `<A x0, x0>`: the constant coefficient of the equation along the line
/// through the masked vector `x0`.
pub open spec fn signer_z_zero(quadratic: Seq<(u8, u8)>, x0: Seq<(u8, u8)>) -> (u8, u8) {
    sum_ext(inner_terms(multiply_extension_spec(quadratic, x0), x0))
}

/// `<A x0, x> + <A x + b, x0>`: the linear coefficient, accumulated in that
/// order.
pub open spec fn signer_z_one(
    quadratic: Seq<(u8, u8)>,
    linear: Seq<(u8, u8)>,
    x: Seq<u8>,
    x0: Seq<(u8, u8)>,
) -> (u8, u8) {
    sum_ext(
        scaled_terms(multiply_extension_spec(quadratic, x0), x) + inner_terms(
            signer_t_one(quadratic, linear, x),
            x0,
        ),
    )
}

/// The constant coefficients of all equations of the system of
/// `master_seed`.
pub open spec fn signer_zs_zero(master_seed: Seq<u8>, x0: Seq<(u8, u8)>) -> Seq<(u8, u8)> {
    Seq::new(
        mq::EQUATION_COUNT as nat,
        |i: int| signer_z_zero(expanded_quadratic(master_seed, i as u16), x0),
    )
}

/// The linear coefficients of all equations of the system of `master_seed`.
pub open spec fn signer_zs_one(master_seed: Seq<u8>, x: Seq<u8>, x0: Seq<(u8, u8)>) -> Seq<
    (u8, u8),
> {
    Seq::new(
        mq::EQUATION_COUNT as nat,
        |i: int|
            signer_z_one(
                expanded_quadratic(master_seed, i as u16),
                expanded_linear(master_seed, i as u16),
                x,
                x0,
            ),
    )
}

/// The batched constant coefficients of one execution: `u0[c] + sum_i
/// gamma[c][i] z0_i`.
pub open spec fn signer_alpha_zero(
    batching: Seq<u8>,
    master_seed: Seq<u8>,
    x0: Seq<(u8, u8)>,
    u0: Seq<(u8, u8)>,
) -> Seq<(u8, u8)> {
    Seq::new(
        params::ETA as nat,
        |c: int|
            gf256x2_add(
                u0[c],
                batched_sum(batching_row(batching, c), signer_zs_zero(master_seed, x0)),
            ),
    )
}

/// The batched linear coefficients of one execution: `u1[c] + sum_i
/// gamma[c][i] z1_i`.
pub open spec fn signer_alpha_one(
    batching: Seq<u8>,
    master_seed: Seq<u8>,
    x: Seq<u8>,
    x0: Seq<(u8, u8)>,
    u1: Seq<(u8, u8)>,
) -> Seq<(u8, u8)> {
    Seq::new(
        params::ETA as nat,
        |c: int|
            gf256x2_add(
                u1[c],
                batched_sum(batching_row(batching, c), signer_zs_one(master_seed, x, x0)),
            ),
    )
}

/// The masked vector of execution `e` of the signer.
pub open spec fn signer_x_zero(salt: Seq<u8>, master_seed: Seq<u8>, x: Seq<u8>, e: int) -> Seq<
    (u8, u8),
> {
    folded_x(folding_spec(signer_expanded(salt, master_seed, x, e), 2048))
}

/// The mask evaluations of execution `e` of the signer.
pub open spec fn signer_u_zero(salt: Seq<u8>, master_seed: Seq<u8>, x: Seq<u8>, e: int) -> Seq<
    (u8, u8),
> {
    folded_u(folding_spec(signer_expanded(salt, master_seed, x, e), 2048))
}

/// The accumulated masks of execution `e` of the signer.
pub open spec fn signer_u_one(salt: Seq<u8>, master_seed: Seq<u8>, x: Seq<u8>, e: int) -> Seq<
    (u8, u8),
> {
    decode_ext_vector(prefix_xor(signer_expanded(salt, master_seed, x, e), 2048).subrange(28, 44))
}

/// The batched constant and linear coefficients of all executions of the
/// signer with secret key `secret_key` and randomness `master_seed`, `salt`.
pub open spec fn signer_alphas(secret_key: Seq<u8>, master_seed: Seq<u8>, salt: Seq<u8>) -> (
    Seq<Seq<(u8, u8)>>,
    Seq<Seq<(u8, u8)>>,
) {
    let x = secret_vector_of(secret_key);
    let equation_seed = secret_key.take(32);
    let batching = batching_stream_spec(signer_commitment(salt, master_seed, x));
    (
        Seq::new(
            params::TAU as nat,
            |e: int|
                signer_alpha_zero(
                    batching,
                    equation_seed,
                    signer_x_zero(salt, master_seed, x, e),
                    signer_u_zero(salt, master_seed, x, e),
                ),
        ),
        Seq::new(
            params::TAU as nat,
            |e: int|
                signer_alpha_one(
                    batching,
                    equation_seed,
                    x,
                    signer_x_zero(salt, master_seed, x, e),
                    signer_u_one(salt, master_seed, x, e),
                ),
        ),
    )
}

// ---------------------------------------------------------------------------
// The grinding search
// ---------------------------------------------------------------------------

/// The little-endian encoding of a 32-bit value.
pub open spec fn le32(value: u32) -> Seq<u8> {
    seq![
        (value % 256) as u8,
        ((value / 256) % 256) as u8,
        ((value / 65536) % 256) as u8,
        (value / 16777216) as u8,
    ]
}

/// Whether the nonce `value` makes the challenge of `hash` meet the grinding
/// condition.
pub open spec fn nonce_grinds(hash: Seq<u8>, value: u32) -> bool {
    grinding_ok(challenge_stream_spec(hash, le32(value)))
}

/// Whether `value` is the least nonce that meets the grinding condition for
/// `hash`.
pub open spec fn is_first_valid_nonce(hash: Seq<u8>, value: u32) -> bool {
    nonce_grinds(hash, value) && forall|m: u32| m < value ==> !#[trigger] nonce_grinds(hash, m)
}

/// Search the nonces in increasing order for the first whose challenge meets
/// the grinding condition, and return that challenge and nonce; `None` when
/// no 32-bit nonce does.
pub fn sample_challenge(hash: &[u8; 32]) -> (r: Option<([u16; 12], [u8; 4])>)
    ensures
        r is None <==> forall|m: u32| !#[trigger] nonce_grinds(hash@, m),
        r matches Some((indices, nonce)) ==> (exists|n: u32|
            #[trigger] is_first_valid_nonce(hash@, n) && nonce@ == le32(n)) && indices@
            == challenge_indices(challenge_stream_spec(hash@, nonce@)),
{
    let mut value: u64 = 0;
    while value <= 0xffff_ffff
        invariant
            value <= 0x1_0000_0000,
            forall|m: u32| m < value ==> !#[trigger] nonce_grinds(hash@, m),
        decreases 0x1_0000_0000 - value,
    {
        let v = value as u32;
        let nonce = [
            (v % 256) as u8,
            ((v / 256) % 256) as u8,
            ((v / 65536) % 256) as u8,
            (v / 16777216) as u8,
        ];
        assert(nonce@ =~= le32(v));
        match parse_challenge(hash, nonce) {
            Some(indices) => {
                assert(is_first_valid_nonce(hash@, v));
                return Some((indices, nonce));
            },
            None => {},
        }
        value += 1;
    }
    None
}

/// The least nonce that meets the grinding condition is unique.
pub proof fn lemma_first_valid_nonce_unique(hash: Seq<u8>, a: u32, b: u32)
    requires
        is_first_valid_nonce(hash, a),
        is_first_valid_nonce(hash, b),
    ensures
        a == b,
{
    if a < b {
        assert(!nonce_grinds(hash, a));
    }
    if b < a {
        assert(!nonce_grinds(hash, b));
    }
}

// ---------------------------------------------------------------------------
// Executable signer
// ---------------------------------------------------------------------------

/// `A x + b` for one equation at the secret vector.
fn signer_t_one_row(equation: &PackedEquation, secret: &[Gf16; 56]) -> (r: [Gf256x2; 56])
    ensures
        ext_values(r@) == signer_t_one(
            equation.quadratic_spec(),
            equation.linear_spec(),
            gf16_values(secret@),
        ),
{
    let ghost target = signer_t_one(
        equation.quadratic_spec(),
        equation.linear_spec(),
        gf16_values(secret@),
    );
    let mut row = equation.multiply_base(secret);
    let ghost ax = ext_values(row@);
    let linear = equation.linear();
    let mut k: usize = 0;
    while k < params::MQ_N
        invariant
            k <= 56,
            ax == multiply_base_spec(equation.quadratic_spec(), gf16_values(secret@)),
            ext_values(linear@) == equation.linear_spec(),
            target == signer_t_one(
                equation.quadratic_spec(),
                equation.linear_spec(),
                gf16_values(secret@),
            ),
            forall|j: int| 0 <= j < k ==> (#[trigger] row@[j])@ == target[j],
            forall|j: int| k <= j < 56 ==> (#[trigger] row@[j])@ == ax[j],
        decreases 56 - k,
    {
        proof {
            assert(ext_values(linear@)[k as int] == linear@[k as int]@);
        }
        row[k] = row[k] + linear[k];
        k += 1;
    }
    assert(ext_values(row@) =~= target);
    row
}

/// The constant and linear coefficients of one equation along the line
/// through the masked vector `x_zero`.
fn signer_z(
    equation: &PackedEquation,
    t_one: &[Gf256x2; 56],
    secret: &[Gf16; 56],
    x_zero: &[Gf256x2; 56],
) -> (r: (Gf256x2, Gf256x2))
    requires
        ext_values(t_one@) == signer_t_one(
            equation.quadratic_spec(),
            equation.linear_spec(),
            gf16_values(secret@),
        ),
    ensures
        r.0@ == signer_z_zero(equation.quadratic_spec(), ext_values(x_zero@)),
        r.1@ == signer_z_one(
            equation.quadratic_spec(),
            equation.linear_spec(),
            gf16_values(secret@),
            ext_values(x_zero@),
        ),
{
    let ghost x = gf16_values(secret@);
    let ghost x0 = ext_values(x_zero@);
    let t_zero = equation.multiply_extension(x_zero);
    let ghost ts = ext_values(t_zero@);
    let ghost zero_terms = inner_terms(ts, x0);
    let ghost one_terms = scaled_terms(ts, x) + inner_terms(ext_values(t_one@), x0);
    let mut z_zero = Gf256x2::zero();
    let mut z_one = Gf256x2::zero();
    let mut k: usize = 0;
    while k < params::MQ_N
        invariant
            k <= 56,
            x == gf16_values(secret@),
            x0 == ext_values(x_zero@),
            ts == ext_values(t_zero@),
            zero_terms == inner_terms(ts, x0),
            one_terms == scaled_terms(ts, x) + inner_terms(ext_values(t_one@), x0),
            z_zero@ == sum_ext(zero_terms.take(k as int)),
            z_one@ == sum_ext(one_terms.take(k as int)),
        decreases 56 - k,
    {
        proof {
            lemma_sum_ext_step(zero_terms, k as int);
            lemma_sum_ext_step(one_terms, k as int);
            assert(ts[k as int] == t_zero@[k as int]@);
            assert(x0[k as int] == x_zero@[k as int]@);
            assert(x[k as int] == secret@[k as int]@);
        }
        z_zero = z_zero + t_zero[k] * x_zero[k];
        z_one = z_one + t_zero[k] * secret[k];
        k += 1;
    }
    let mut k: usize = 0;
    while k < params::MQ_N
        invariant
            k <= 56,
            x0 == ext_values(x_zero@),
            one_terms == scaled_terms(ts, x) + inner_terms(ext_values(t_one@), x0),
            z_one@ == sum_ext(one_terms.take(56 + k)),
        decreases 56 - k,
    {
        proof {
            lemma_sum_ext_step(one_terms, 56 + k);
            assert(ext_values(t_one@)[k as int] == t_one@[k as int]@);
            assert(x0[k as int] == x_zero@[k as int]@);
        }
        z_one = z_one + t_one[k] * x_zero[k];
        k += 1;
    }
    proof {
        assert(zero_terms.take(56) =~= zero_terms);
        assert(one_terms.take(112) =~= one_terms);
    }
    (z_zero, z_one)
}

/// The batched constant and linear coefficients of one execution.
fn execution_alphas(
    batching: &[[Gf256x2; 14]; 8],
    equations: &Vec<PackedEquation>,
    t_ones: &Vec<[Gf256x2; 56]>,
    secret: &[Gf16; 56],
    x_zero: &[Gf256x2; 56],
    u_zero: &[Gf256x2; 8],
    u_one: &[Gf256x2; 8],
    Ghost(master_seed): Ghost<Seq<u8>>,
    Ghost(batching_stream): Ghost<Seq<u8>>,
) -> (r: ([Gf256x2; 8], [Gf256x2; 8]))
    requires
        equations@.len() == 14,
        t_ones@.len() == 14,
        forall|i: int|
            0 <= i < 14 ==> (#[trigger] equations@[i]).quadratic_spec() == expanded_quadratic(
                master_seed,
                i as u16,
            ) && equations@[i].linear_spec() == expanded_linear(master_seed, i as u16),
        forall|i: int|
            0 <= i < 14 ==> ext_values((#[trigger] t_ones@[i])@) == signer_t_one(
                equations@[i].quadratic_spec(),
                equations@[i].linear_spec(),
                gf16_values(secret@),
            ),
        forall|c: int| 0 <= c < 8 ==> ext_values((#[trigger] batching@[c])@) == batching_row(
            batching_stream,
            c,
        ),
    ensures
        ext_values(r.0@) == signer_alpha_zero(
            batching_stream,
            master_seed,
            ext_values(x_zero@),
            ext_values(u_zero@),
        ),
        ext_values(r.1@) == signer_alpha_one(
            batching_stream,
            master_seed,
            gf16_values(secret@),
            ext_values(x_zero@),
            ext_values(u_one@),
        ),
{
    let ghost x = gf16_values(secret@);
    let ghost x0 = ext_values(x_zero@);
    let ghost zs_zero_spec = signer_zs_zero(master_seed, x0);
    let ghost zs_one_spec = signer_zs_one(master_seed, x, x0);
    let mut zs_zero = [Gf256x2::zero(); 14];
    let mut zs_one = [Gf256x2::zero(); 14];
    let mut i: usize = 0;
    while i < mq::EQUATION_COUNT
        invariant
            i <= 14,
            equations@.len() == 14,
            t_ones@.len() == 14,
            forall|j: int|
                0 <= j < 14 ==> (#[trigger] equations@[j]).quadratic_spec() == expanded_quadratic(
                    master_seed,
                    j as u16,
                ) && equations@[j].linear_spec() == expanded_linear(master_seed, j as u16),
            forall|j: int|
                0 <= j < 14 ==> ext_values((#[trigger] t_ones@[j])@) == signer_t_one(
                    equations@[j].quadratic_spec(),
                    equations@[j].linear_spec(),
                    gf16_values(secret@),
                ),
            x == gf16_values(secret@),
            x0 == ext_values(x_zero@),
            zs_zero_spec == signer_zs_zero(master_seed, x0),
            zs_one_spec == signer_zs_one(master_seed, x, x0),
            forall|j: int| 0 <= j < i ==> (#[trigger] zs_zero@[j])@ == zs_zero_spec[j],
            forall|j: int| 0 <= j < i ==> (#[trigger] zs_one@[j])@ == zs_one_spec[j],
        decreases 14 - i,
    {
        let (z_zero, z_one) = signer_z(&equations[i], &t_ones[i], secret, x_zero);
        zs_zero[i] = z_zero;
        zs_one[i] = z_one;
        i += 1;
    }
    assert(ext_values(zs_zero@) =~= zs_zero_spec);
    assert(ext_values(zs_one@) =~= zs_one_spec);
    let ghost target_zero = signer_alpha_zero(batching_stream, master_seed, x0, ext_values(u_zero@));
    let ghost target_one = signer_alpha_one(
        batching_stream,
        master_seed,
        x,
        x0,
        ext_values(u_one@),
    );
    let mut alpha_zero = [Gf256x2::zero(); 8];
    let mut alpha_one = [Gf256x2::zero(); 8];
    let mut c: usize = 0;
    while c < params::ETA
        invariant
            c <= 8,
            ext_values(zs_zero@) == zs_zero_spec,
            ext_values(zs_one@) == zs_one_spec,
            zs_zero_spec == signer_zs_zero(master_seed, x0),
            zs_one_spec == signer_zs_one(master_seed, x, x0),
            forall|d: int| 0 <= d < 8 ==> ext_values((#[trigger] batching@[d])@) == batching_row(
                batching_stream,
                d,
            ),
            target_zero == signer_alpha_zero(batching_stream, master_seed, x0, ext_values(u_zero@)),
            target_one == signer_alpha_one(
                batching_stream,
                master_seed,
                x,
                x0,
                ext_values(u_one@),
            ),
            forall|d: int| 0 <= d < c ==> (#[trigger] alpha_zero@[d])@ == target_zero[d],
            forall|d: int| 0 <= d < c ==> (#[trigger] alpha_one@[d])@ == target_one[d],
        decreases 8 - c,
    {
        let row = &batching[c];
        let ghost coefficients = batching_row(batching_stream, c as int);
        let ghost terms_zero = Seq::new(
            14,
            |i: int| crate::field::gf256x2_mul(coefficients[i], zs_zero_spec[i]),
        );
        let ghost terms_one = Seq::new(
            14,
            |i: int| crate::field::gf256x2_mul(coefficients[i], zs_one_spec[i]),
        );
        let mut sum_zero = Gf256x2::zero();
        let mut sum_one = Gf256x2::zero();
        let mut i: usize = 0;
        while i < mq::EQUATION_COUNT
            invariant
                i <= 14,
                ext_values(row@) == coefficients,
                ext_values(zs_zero@) == zs_zero_spec,
                ext_values(zs_one@) == zs_one_spec,
                terms_zero == Seq::new(
                    14,
                    |i: int| crate::field::gf256x2_mul(coefficients[i], zs_zero_spec[i]),
                ),
                terms_one == Seq::new(
                    14,
                    |i: int| crate::field::gf256x2_mul(coefficients[i], zs_one_spec[i]),
                ),
                sum_zero@ == sum_ext(terms_zero.take(i as int)),
                sum_one@ == sum_ext(terms_one.take(i as int)),
            decreases 14 - i,
        {
            proof {
                lemma_sum_ext_step(terms_zero, i as int);
                lemma_sum_ext_step(terms_one, i as int);
                assert(ext_values(row@)[i as int] == row@[i as int]@);
                assert(ext_values(zs_zero@)[i as int] == zs_zero@[i as int]@);
                assert(ext_values(zs_one@)[i as int] == zs_one@[i as int]@);
            }
            sum_zero = sum_zero + row[i] * zs_zero[i];
            sum_one = sum_one + row[i] * zs_one[i];
            i += 1;
        }
        proof {
            assert(terms_zero.take(14) =~= terms_zero);
            assert(terms_one.take(14) =~= terms_one);
            assert(ext_values(u_zero@)[c as int] == u_zero@[c as int]@);
            assert(ext_values(u_one@)[c as int] == u_one@[c as int]@);
        }
        alpha_zero[c] = u_zero[c] + sum_zero;
        alpha_one[c] = u_one[c] + sum_one;
        c += 1;
    }
    assert(ext_values(alpha_zero@) =~= target_zero);
    assert(ext_values(alpha_one@) =~= target_one);
    (alpha_zero, alpha_one)
}

/// The batched constant and linear coefficients of every execution of the
/// signer, from the first commitment, the signer's state, the secret vector
/// and the master seed of the MQ system.
fn compute_alpha(
    first_commitment: &[u8; 32],
    commitment: &blc::SigningCommitment,
    secret: &[Gf16; 56],
    master_seed: &[u8; 32],
) -> (r: Option<([[Gf256x2; 8]; 12], [[Gf256x2; 8]; 12])>)
    ensures
        r matches Some((alpha_zero, alpha_one)) && forall|e: int|
            0 <= e < 12 ==> ext_values((#[trigger] alpha_zero@[e])@) == signer_alpha_zero(
                batching_stream_spec(first_commitment@),
                master_seed@,
                ext_values(commitment.x_zero@[e]@),
                ext_values(commitment.u_zero@[e]@),
            ) && ext_values(alpha_one@[e]@) == signer_alpha_one(
                batching_stream_spec(first_commitment@),
                master_seed@,
                gf16_values(secret@),
                ext_values(commitment.x_zero@[e]@),
                ext_values(commitment.u_one@[e]@),
            ),
{
    let batching = match batching_matrix(first_commitment) {
        Some(batching) => batching,
        None => {
            return None;
        },
    };
    let ghost stream = batching_stream_spec(first_commitment@);
    let equations = match expand_equations(master_seed) {
        Some(equations) => equations,
        None => {
            return None;
        },
    };
    let mut t_ones: Vec<[Gf256x2; 56]> = Vec::new();
    let mut i: usize = 0;
    while i < mq::EQUATION_COUNT
        invariant
            i <= 14,
            equations@.len() == 14,
            t_ones@.len() == i,
            forall|j: int|
                0 <= j < i ==> ext_values((#[trigger] t_ones@[j])@) == signer_t_one(
                    equations@[j].quadratic_spec(),
                    equations@[j].linear_spec(),
                    gf16_values(secret@),
                ),
        decreases 14 - i,
    {
        t_ones.push(signer_t_one_row(&equations[i], secret));
        i += 1;
    }
    let mut alpha_zero = [[Gf256x2::zero(); 8]; 12];
    let mut alpha_one = [[Gf256x2::zero(); 8]; 12];
    let mut e: usize = 0;
    while e < params::TAU
        invariant
            e <= 12,
            equations@.len() == 14,
            t_ones@.len() == 14,
            forall|j: int|
                0 <= j < 14 ==> (#[trigger] equations@[j]).quadratic_spec() == expanded_quadratic(
                    master_seed@,
                    j as u16,
                ) && equations@[j].linear_spec() == expanded_linear(master_seed@, j as u16),
            forall|j: int|
                0 <= j < 14 ==> ext_values((#[trigger] t_ones@[j])@) == signer_t_one(
                    equations@[j].quadratic_spec(),
                    equations@[j].linear_spec(),
                    gf16_values(secret@),
                ),
            forall|d: int| 0 <= d < 8 ==> ext_values((#[trigger] batching@[d])@) == batching_row(
                stream,
                d,
            ),
            stream == batching_stream_spec(first_commitment@),
            forall|j: int|
                0 <= j < e ==> ext_values((#[trigger] alpha_zero@[j])@) == signer_alpha_zero(
                    stream,
                    master_seed@,
                    ext_values(commitment.x_zero@[j]@),
                    ext_values(commitment.u_zero@[j]@),
                ) && ext_values(alpha_one@[j]@) == signer_alpha_one(
                    stream,
                    master_seed@,
                    gf16_values(secret@),
                    ext_values(commitment.x_zero@[j]@),
                    ext_values(commitment.u_one@[j]@),
                ),
        decreases 12 - e,
    {
        let (zero, one) = execution_alphas(
            &batching,
            &equations,
            &t_ones,
            secret,
            &commitment.x_zero[e],
            &commitment.u_zero[e],
            &commitment.u_one[e],
            Ghost(master_seed@),
            Ghost(stream),
        );
        alpha_zero[e] = zero;
        alpha_one[e] = one;
        e += 1;
    }
    Some((alpha_zero, alpha_one))
}

/// Whether `signature` is the signature that the signer with `secret_key`
/// assembles for `message` from the randomness `master_seed` and `salt`: the
/// salt, the first commitment, the second commitment, the linear
/// coefficients, the opening at the challenge of the least nonce that meets
/// the grinding condition, and that nonce.
pub open spec fn is_assembled_signature(
    secret_key: Seq<u8>,
    message: Seq<u8>,
    master_seed: Seq<u8>,
    salt: Seq<u8>,
    signature: Seq<u8>,
) -> bool {
    let x = secret_vector_of(secret_key);
    let first_commitment = signer_commitment(salt, master_seed, x);
    let alphas = signer_alphas(secret_key, master_seed, salt);
    let alpha_one = encode_alphas(alphas.1);
    let second_commitment = second_commitment_spec(alphas.0, alpha_one);
    let hash = fiat_shamir_spec(
        secret_key.take(60),
        first_commitment,
        second_commitment,
        message_hash_spec(message),
    );
    let nonce = signature.subrange(2912, 2916);
    &&& signature.len() == params::SIGNATURE_SIZE
    &&& signature.subrange(0, 16) == salt
    &&& signature.subrange(16, 48) == first_commitment
    &&& signature.subrange(48, 80) == second_commitment
    &&& signature.subrange(80, 272) == alpha_one
    &&& exists|n: u32| #[trigger] is_first_valid_nonce(hash, n) && nonce == le32(n)
    &&& is_opening_of(
        signature.subrange(272, 2912),
        salt,
        pack_spec(x).take(16),
        Seq::new(params::TAU as nat, |e: int| root_seed_spec(master_seed, e)),
        Seq::new(params::TAU as nat, |e: int| signer_partial_delta(salt, master_seed, x, e)),
        challenge_indices(challenge_stream_spec(hash, nonce)),
    )
}

/// The signer's inputs determine the assembled signature.
pub proof fn lemma_assembled_signature_unique(
    secret_key: Seq<u8>,
    message: Seq<u8>,
    master_seed: Seq<u8>,
    salt: Seq<u8>,
    first: Seq<u8>,
    second: Seq<u8>,
)
    requires
        is_assembled_signature(secret_key, message, master_seed, salt, first),
        is_assembled_signature(secret_key, message, master_seed, salt, second),
    ensures
        first == second,
{
    let x = secret_vector_of(secret_key);
    let first_commitment = signer_commitment(salt, master_seed, x);
    let alphas = signer_alphas(secret_key, master_seed, salt);
    let alpha_one = encode_alphas(alphas.1);
    let second_commitment = second_commitment_spec(alphas.0, alpha_one);
    let hash = fiat_shamir_spec(
        secret_key.take(60),
        first_commitment,
        second_commitment,
        message_hash_spec(message),
    );
    let n1 = choose|n: u32| #[trigger] is_first_valid_nonce(hash, n) && first.subrange(2912, 2916)
        == le32(n);
    let n2 = choose|n: u32| #[trigger] is_first_valid_nonce(hash, n) && second.subrange(2912, 2916)
        == le32(n);
    lemma_first_valid_nonce_unique(hash, n1, n2);
    let hidden = challenge_indices(challenge_stream_spec(hash, le32(n1)));
    lemma_opening_unique(
        first.subrange(272, 2912),
        second.subrange(272, 2912),
        salt,
        pack_spec(x).take(16),
        Seq::new(params::TAU as nat, |e: int| root_seed_spec(master_seed, e)),
        Seq::new(params::TAU as nat, |e: int| signer_partial_delta(salt, master_seed, x, e)),
        hidden,
    );
    assert forall|k: int| 0 <= k < 2916 implies first[k] == second[k] by {
        if k < 16 {
            assert(first.subrange(0, 16)[k] == second.subrange(0, 16)[k]);
        } else if k < 48 {
            assert(first.subrange(16, 48)[k - 16] == second.subrange(16, 48)[k - 16]);
        } else if k < 80 {
            assert(first.subrange(48, 80)[k - 48] == second.subrange(48, 80)[k - 48]);
        } else if k < 272 {
            assert(first.subrange(80, 272)[k - 80] == second.subrange(80, 272)[k - 80]);
        } else if k < 2912 {
            assert(first.subrange(272, 2912)[k - 272] == second.subrange(272, 2912)[k - 272]);
        } else {
            assert(first.subrange(2912, 2916)[k - 2912] == second.subrange(2912, 2916)[k
                - 2912]);
        }
    }
    assert(first =~= second);
}

/// The signature with the given parts, in signature order.
fn assemble(
    salt: &[u8; 16],
    first_commitment: &[u8; 32],
    second_commitment: &[u8; 32],
    alpha_one: &[u8; 192],
    opening: &[u8; 2640],
    nonce: &[u8; 4],
) -> (r: [u8; 2916])
    ensures
        r@ == salt@ + first_commitment@ + second_commitment@ + alpha_one@ + opening@ + nonce@,
{
    let ghost whole = salt@ + first_commitment@ + second_commitment@ + alpha_one@ + opening@
        + nonce@;
    let mut signature = [0u8; 2916];
    let mut k: usize = 0;
    while k < 2916
        invariant
            k <= 2916,
            whole == salt@ + first_commitment@ + second_commitment@ + alpha_one@ + opening@
                + nonce@,
            forall|j: int| 0 <= j < k ==> #[trigger] signature@[j] == whole[j],
        decreases 2916 - k,
    {
        signature[k] = if k < 16 {
            salt[k]
        } else if k < 48 {
            first_commitment[k - 16]
        } else if k < 80 {
            second_commitment[k - 48]
        } else if k < 272 {
            alpha_one[k - 80]
        } else if k < 2912 {
            opening[k - 272]
        } else {
            nonce[k - 2912]
        };
        k += 1;
    }
    assert(signature@ =~= whole);
    signature
}

/// Sign `message` with `secret_key` and the signing randomness `master_seed`
/// and `salt`.
///
/// Returns the assembled signature when it verifies under the public key
/// embedded in `secret_key`, and `None` otherwise (no nonce meets the
/// grinding condition, or the assembled signature does not verify, as for an
/// inconsistent secret key).
pub fn sign(secret_key: &[u8; 88], message: &[u8], master_seed: &[u8; 16], salt: &[u8; 16]) -> (r:
    Option<[u8; 2916]>)
    ensures
        r matches Some(signature) ==> is_assembled_signature(
            secret_key@,
            message@,
            master_seed@,
            salt@,
            signature@,
        ) && verify_spec(secret_key@.take(60), message@, signature@),
        r is None <==> forall|s: Seq<u8>|
            #[trigger] is_assembled_signature(secret_key@, message@, master_seed@, salt@, s)
                ==> !verify_spec(secret_key@.take(60), message@, s),
        secret_key_consistent_spec(secret_key@) ==> (r is None <==> forall|s: Seq<u8>|
            !#[trigger] is_assembled_signature(secret_key@, message@, master_seed@, salt@, s)),
{
    proof {
        lemma_layout();
        lemma_sizes();
        assert forall|s: Seq<u8>|
            secret_key_consistent_spec(secret_key@) && #[trigger] is_assembled_signature(
                secret_key@,
                message@,
                master_seed@,
                salt@,
                s,
            ) implies verify_spec(secret_key@.take(60), message@, s) by {
            crate::completeness::lemma_assembled_signature_verifies(
                secret_key@,
                message@,
                master_seed@,
                salt@,
                s,
            );
        }
    }
    let ghost sk = secret_key@;
    let public_key = &secret_key[0..60];
    let equation_seed: [u8; 32] = bytes_at(secret_key, 0);
    let mut secret = [Gf16::zero(); 56];
    if !unpack_gf16(&secret_key[60..88], &mut secret) {
        return None;
    }
    let ghost x = gf16_values(secret@);
    assert(x =~= secret_vector_of(sk));
    assert(equation_seed@ =~= sk.take(32));

    let mut commitment = match blc::commit(master_seed, salt, &secret) {
        Some(commitment) => commitment,
        None => {
            return None;
        },
    };
    let first_commitment = commitment.commitment;
    let (alpha_zero, alpha_one) = match compute_alpha(
        &first_commitment,
        &commitment,
        &secret,
        &equation_seed,
    ) {
        Some(alphas) => alphas,
        None => {
            commitment.wipe();
            return None;
        },
    };
    let ghost alphas = signer_alphas(sk, master_seed@, salt@);
    proof {
        assert(Seq::new(12, |e: int| ext_values(alpha_zero@[e]@)) =~= alphas.0);
        assert forall|e: int| 0 <= e < 12 implies #[trigger] ext_values(alpha_one@[e]@)
            == alphas.1[e] by {
            assert(ext_values(alpha_zero@[e]@) == alphas.0[e]);
            assert(ext_values(commitment.x_zero@[e]@) == signer_x_zero(salt@, master_seed@, x, e));
            assert(ext_values(commitment.u_one@[e]@) == signer_u_one(salt@, master_seed@, x, e));
        }
        assert(Seq::new(12, |e: int| ext_values(alpha_one@[e]@)) =~= alphas.1);
    }
    let encoded_alpha_one = encode_alpha_rows(&alpha_one);
    let encoded_alpha_zero = encode_alpha_rows(&alpha_zero);

    let commitment_prefix = [3u8];
    let mut commitment_state = Shake128State::new();
    commitment_state.absorb(&commitment_prefix);
    commitment_state.absorb(&encoded_alpha_zero);
    commitment_state.absorb(&encoded_alpha_one);
    let mut second_commitment = [0u8; 32];
    commitment_state.squeeze(&mut second_commitment);
    proof {
        assert(commitment_prefix@ =~= seq![3u8]);
        assert(commitment_state@ =~= seq![3u8] + encode_alphas(alphas.0) + encode_alphas(
            alphas.1,
        ));
    }

    let message_prefix = [2u8];
    let mut message_state = Shake128State::new();
    message_state.absorb(&message_prefix);
    message_state.absorb(message);
    let mut message_hash = [0u8; 32];
    message_state.squeeze(&mut message_hash);
    proof {
        assert(message_prefix@ =~= seq![2u8]);
        assert(message_state@ =~= seq![2u8] + message@);
    }

    let transcript_prefix = [4u8];
    let mut transcript = Shake128State::new();
    transcript.absorb(&transcript_prefix);
    transcript.absorb(public_key);
    transcript.absorb(&first_commitment);
    transcript.absorb(&second_commitment);
    transcript.absorb(&message_hash);
    let mut fiat_shamir_hash = [0u8; 32];
    transcript.squeeze(&mut fiat_shamir_hash);
    proof {
        assert(transcript_prefix@ =~= seq![4u8]);
        assert(transcript@ =~= seq![4u8] + sk.take(60) + first_commitment@ + second_commitment@
            + message_hash@);
    }

    let (hidden_indices, nonce) = match sample_challenge(&fiat_shamir_hash) {
        Some(challenge) => challenge,
        None => {
            proof {
                assert forall|s: Seq<u8>|
                    #[trigger] is_assembled_signature(
                        sk,
                        message@,
                        master_seed@,
                        salt@,
                        s,
                    ) implies !verify_spec(sk.take(60), message@, s) by {
                    let n = choose|n: u32|
                        #[trigger] is_first_valid_nonce(fiat_shamir_hash@, n) && s.subrange(
                            2912,
                            2916,
                        ) == le32(n);
                    assert(!nonce_grinds(fiat_shamir_hash@, n));
                }
            }
            commitment.wipe();
            return None;
        },
    };
    proof {
        assert forall|e: int| 0 <= e < 12 implies #[trigger] hidden_indices@[e] < 2048 by {
            assert(hidden_indices@[e] == challenge_indices(
                challenge_stream_spec(fiat_shamir_hash@, nonce@),
            )[e]);
        }
    }
    let opening = match commitment.open(&hidden_indices) {
        Some(opening) => opening,
        None => {
            commitment.wipe();
            return None;
        },
    };
    let signature = assemble(
        salt,
        &first_commitment,
        &second_commitment,
        &encoded_alpha_one,
        &opening,
        &nonce,
    );
    proof {
        let sig = signature@;
        assert(sig.subrange(0, 16) =~= salt@);
        assert(sig.subrange(16, 48) =~= first_commitment@);
        assert(sig.subrange(48, 80) =~= second_commitment@);
        assert(sig.subrange(80, 272) =~= encoded_alpha_one@);
        assert(sig.subrange(272, 2912) =~= opening@);
        assert(sig.subrange(2912, 2916) =~= nonce@);
        let (s_salt, s_delta, s_roots, s_pds) = commitment.secrets();
        assert(s_roots =~= Seq::new(12, |e: int| root_seed_spec(master_seed@, e)));
        assert(s_pds =~= Seq::new(12, |e: int| signer_partial_delta(salt@, master_seed@, x, e)));
        assert(is_assembled_signature(sk, message@, master_seed@, salt@, sig));
    }
    commitment.wipe();
    if verify::verify(public_key, message, &signature) {
        Some(signature)
    } else {
        proof {
            assert forall|s: Seq<u8>|
                #[trigger] is_assembled_signature(
                    sk,
                    message@,
                    master_seed@,
                    salt@,
                    s,
                ) implies !verify_spec(sk.take(60), message@, s) by {
                lemma_assembled_signature_unique(
                    sk,
                    message@,
                    master_seed@,
                    salt@,
                    s,
                    signature@,
                );
            }
        }
        None
    }
}

} // verus!
