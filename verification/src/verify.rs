//! Verification of MQOM signatures: the transcript, the challenge, and the
//! recomputation of the second commitment from an opening.

use vstd::prelude::*;
use crate::blc::{self, OpenedEvaluations, decode_ext_vector, evaluation_point_spec,
    observed_commitment, opened_u, opened_x, parse_extension_vector};
use crate::field::{Gf256x2, gf256x2_add, gf256x2_mul};
use crate::keygen::ct_eq_bytes;
use crate::mq::{self, PackedEquation, decode_ext_at, expanded_linear, expanded_quadratic,
    ext_values, lemma_sum_ext_step, multiply_extension_spec, sum_ext};
use crate::params::{self, lemma_sizes};
use crate::xof::{Shake128State, shake128_bytes};

verus! {

broadcast use crate::field::group_field_ops;

/// Offset of the salt in a signature.
pub const SALT_OFFSET: usize = 0;

/// Offset of the first commitment in a signature.
pub const FIRST_COMMITMENT_OFFSET: usize = SALT_OFFSET + params::SALT_SIZE;

/// Offset of the second commitment in a signature.
pub const SECOND_COMMITMENT_OFFSET: usize = FIRST_COMMITMENT_OFFSET + params::DIGEST_SIZE;

/// Offset of the serialized linear coefficients in a signature.
pub const ALPHA_ONE_OFFSET: usize = SECOND_COMMITMENT_OFFSET + params::DIGEST_SIZE;

/// Byte length of the serialized linear coefficients.
pub const ALPHA_ONE_SIZE: usize = params::TAU * params::ETA * Gf256x2::ENCODED_LEN;

/// Offset of the opening in a signature.
pub const OPENING_OFFSET: usize = ALPHA_ONE_OFFSET + ALPHA_ONE_SIZE;

/// Byte length of the grinding nonce.
pub const NONCE_SIZE: usize = 4;

/// Offset of the grinding nonce in a signature.
pub const NONCE_OFFSET: usize = params::SIGNATURE_SIZE - NONCE_SIZE;

/// Byte length of the stream from which the challenge is read.
pub const CHALLENGE_STREAM_SIZE: usize = 2 * params::TAU + 2;

/// Byte length of the master seed of the MQ system in a public key.
pub const PUBLIC_SEED_SIZE: usize = 2 * params::SEED_SIZE;

/// Byte length of the batching stream.
pub const BATCHING_STREAM_SIZE: usize = params::ETA * mq::EQUATION_COUNT * Gf256x2::ENCODED_LEN;

/// The mask that reduces a 16-bit value to a leaf index.
pub const EVALUATION_MASK: u16 = 2047;

/// The mask of the grinding bits.
pub const GRINDING_MASK: u16 = 255;

/// The layout of a signature.
pub proof fn lemma_layout()
    ensures
        FIRST_COMMITMENT_OFFSET == 16,
        SECOND_COMMITMENT_OFFSET == 48,
        ALPHA_ONE_OFFSET == 80,
        ALPHA_ONE_SIZE == 192,
        OPENING_OFFSET == 272,
        OPENING_OFFSET + params::OPENING_SIZE == NONCE_OFFSET,
        NONCE_OFFSET == 2912,
        CHALLENGE_STREAM_SIZE == 26,
        PUBLIC_SEED_SIZE == 32,
        BATCHING_STREAM_SIZE == 224,
{
    lemma_sizes();
}

// ---------------------------------------------------------------------------
// Transcript
// ---------------------------------------------------------------------------

/// `SHAKE128(0x02 || message)`: the digest of the message.
pub open spec fn message_hash_spec(message: Seq<u8>) -> Seq<u8> {
    shake128_bytes(seq![2u8] + message, 32)
}

/// `SHAKE128(0x04 || public key || first commitment || second commitment ||
/// message digest)`: the Fiat-Shamir digest.
pub open spec fn fiat_shamir_spec(
    public_key: Seq<u8>,
    first_commitment: Seq<u8>,
    second_commitment: Seq<u8>,
    message_hash: Seq<u8>,
) -> Seq<u8> {
    shake128_bytes(
        seq![4u8] + public_key + first_commitment + second_commitment + message_hash,
        32,
    )
}

/// `SHAKE128(0x05 || digest || nonce)`: the stream of the challenge.
pub open spec fn challenge_stream_spec(hash: Seq<u8>, nonce: Seq<u8>) -> Seq<u8> {
    shake128_bytes(seq![5u8] + hash + nonce, 26)
}

/// The little-endian 16-bit value at `offset` of `bytes`.
pub open spec fn le16_at(bytes: Seq<u8>, offset: int) -> int {
    bytes[offset] + 256 * bytes[offset + 1]
}

/// Whether a challenge stream meets the grinding condition: the low
/// `GRINDING_BITS` bits of its last 16-bit value are zero.
pub open spec fn grinding_ok(stream: Seq<u8>) -> bool {
    le16_at(stream, 24) % 256 == 0
}

/// The hidden leaves selected by a challenge stream: its first twelve 16-bit
/// values, each reduced to a leaf index.
pub open spec fn challenge_indices(stream: Seq<u8>) -> Seq<u16> {
    Seq::new(params::TAU as nat, |e: int| (le16_at(stream, 2 * e) % 2048) as u16)
}

/// `SHAKE128(0x08 || first commitment)`: the stream of the batching
/// coefficients.
pub open spec fn batching_stream_spec(first_commitment: Seq<u8>) -> Seq<u8> {
    shake128_bytes(seq![8u8] + first_commitment, 224)
}

/// The batching coefficients of component `c`, one per equation.
pub open spec fn batching_row(stream: Seq<u8>, c: int) -> Seq<(u8, u8)> {
    Seq::new(mq::EQUATION_COUNT as nat, |i: int| decode_ext_at(stream, 14 * c + i))
}

/// The batched combination `sum_i coefficients[i] * values[i]`.
pub open spec fn batched_sum(coefficients: Seq<(u8, u8)>, values: Seq<(u8, u8)>) -> (u8, u8) {
    sum_ext(
        Seq::new(mq::EQUATION_COUNT as nat, |i: int| gf256x2_mul(coefficients[i], values[i])),
    )
}

/// The canonical encoding of twelve rows of eight extension-field elements,
/// row by row, each element little-endian.
pub open spec fn encode_alphas(alphas: Seq<Seq<(u8, u8)>>) -> Seq<u8> {
    Seq::new(
        192,
        |k: int|
            if k % 2 == 0 {
                alphas[k / 16][(k % 16) / 2].0
            } else {
                alphas[k / 16][(k % 16) / 2].1
            },
    )
}

/// `SHAKE128(0x03 || encoded evaluations at the hidden points || encoded
/// linear coefficients)`: the second commitment.
pub open spec fn second_commitment_spec(alpha_zero: Seq<Seq<(u8, u8)>>, alpha_one: Seq<u8>) -> Seq<
    u8,
> {
    shake128_bytes(seq![3u8] + encode_alphas(alpha_zero) + alpha_one, 32)
}

/// The transcript hashes and their domain bytes: the message digest is
/// `SHAKE128(0x02 || message)`, the second commitment
/// `SHAKE128(0x03 || ...)`, the Fiat-Shamir digest
/// `SHAKE128(0x04 || public key || first commitment || second commitment ||
/// message digest)`, the challenge stream `SHAKE128(0x05 || digest ||
/// nonce)` and the batching stream `SHAKE128(0x08 || first commitment)`,
/// with 32, 32, 32, 26 and 224 bytes.
pub proof fn lemma_transcript_domains(
    public_key: Seq<u8>,
    message: Seq<u8>,
    first_commitment: Seq<u8>,
    second_commitment: Seq<u8>,
    alpha_zero: Seq<Seq<(u8, u8)>>,
    alpha_one: Seq<u8>,
    digest: Seq<u8>,
    nonce: Seq<u8>,
)
    ensures
        message_hash_spec(message) == shake128_bytes(seq![2u8] + message, 32),
        second_commitment_spec(alpha_zero, alpha_one) == shake128_bytes(
            seq![3u8] + encode_alphas(alpha_zero) + alpha_one,
            32,
        ),
        fiat_shamir_spec(public_key, first_commitment, second_commitment, digest) == shake128_bytes(
            seq![4u8] + public_key + first_commitment + second_commitment + digest,
            32,
        ),
        challenge_stream_spec(digest, nonce) == shake128_bytes(seq![5u8] + digest + nonce, 26),
        batching_stream_spec(first_commitment) == shake128_bytes(seq![8u8] + first_commitment, 224),
{
}

/// A signature verifies only if the challenge stream, drawn from the
/// Fiat-Shamir digest of the public key, both commitments and
/// `SHAKE128(0x02 || message)`, and from the nonce, meets the grinding
/// condition: verification binds the message and the public key.
pub proof fn lemma_verification_binds_message(
    public_key: Seq<u8>,
    message: Seq<u8>,
    signature: Seq<u8>,
)
    requires
        verify_spec(public_key, message, signature),
    ensures
        grinding_ok(
            shake128_bytes(
                seq![5u8] + shake128_bytes(
                    seq![4u8] + public_key + signature.subrange(16, 48) + signature.subrange(48, 80)
                        + shake128_bytes(seq![2u8] + message, 32),
                    32,
                ) + signature.subrange(2912, 2916),
                26,
            ),
        ),
{
}

// ---------------------------------------------------------------------------
// Recomputation at the hidden point
// ---------------------------------------------------------------------------

/// `t = A x + r b` for the equation `(A, b)` at the opened vector `x` and
/// the evaluation point `r`.
pub open spec fn opened_t(
    quadratic: Seq<(u8, u8)>,
    linear: Seq<(u8, u8)>,
    x: Seq<(u8, u8)>,
    point: (u8, u8),
) -> Seq<(u8, u8)> {
    let ax = multiply_extension_spec(quadratic, x);
    Seq::new(params::MQ_N as nat, |k: int| gf256x2_add(ax[k], gf256x2_mul(point, linear[k])))
}

/// The products `t[k] * x[k]`.
pub open spec fn inner_terms(t: Seq<(u8, u8)>, x: Seq<(u8, u8)>) -> Seq<(u8, u8)> {
    Seq::new(params::MQ_N as nat, |k: int| gf256x2_mul(t[k], x[k]))
}

/// `z = <t, x> + r^2 y`: the equation `(A, b)` with public output `y`,
/// homogenized at the evaluation point `r`.
pub open spec fn opened_z(
    quadratic: Seq<(u8, u8)>,
    linear: Seq<(u8, u8)>,
    x: Seq<(u8, u8)>,
    point: (u8, u8),
    output: (u8, u8),
) -> (u8, u8) {
    gf256x2_add(
        sum_ext(inner_terms(opened_t(quadratic, linear, x, point), x)),
        gf256x2_mul(gf256x2_mul(point, point), output),
    )
}

/// The homogenized values of all equations of the system of `master_seed`
/// at the opened vector `x` and the point `r`.
pub open spec fn opened_zs(
    master_seed: Seq<u8>,
    outputs: Seq<(u8, u8)>,
    x: Seq<(u8, u8)>,
    point: (u8, u8),
) -> Seq<(u8, u8)> {
    Seq::new(
        mq::EQUATION_COUNT as nat,
        |i: int|
            opened_z(
                expanded_quadratic(master_seed, i as u16),
                expanded_linear(master_seed, i as u16),
                x,
                point,
                outputs[i],
            ),
    )
}

/// The evaluations at the hidden point that verification recomputes for one
/// execution: `u[c] + sum_i gamma[c][i] z_i + r alpha_one[c]`.
pub open spec fn recomputed_alpha_zero(
    batching: Seq<u8>,
    master_seed: Seq<u8>,
    outputs: Seq<(u8, u8)>,
    hidden: u16,
    x: Seq<(u8, u8)>,
    u: Seq<(u8, u8)>,
    alpha_one: Seq<(u8, u8)>,
) -> Seq<(u8, u8)> {
    let point = evaluation_point_spec(hidden);
    let zs = opened_zs(master_seed, outputs, x, point);
    Seq::new(
        params::ETA as nat,
        |c: int|
            gf256x2_add(
                gf256x2_add(u[c], batched_sum(batching_row(batching, c), zs)),
                gf256x2_mul(point, alpha_one[c]),
            ),
    )
}

/// The linear coefficients of execution `e` in the serialized coefficients.
pub open spec fn alpha_one_of(serialized: Seq<u8>, e: int) -> Seq<(u8, u8)> {
    decode_ext_vector(serialized.subrange(16 * e, 16 * e + 16))
}

/// Whether `signature` is a valid signature of `message` under
/// `public_key`: both have their exact lengths, the challenge read with the
/// nonce meets the grinding condition, the opening reproduces the first
/// commitment, and the evaluations recomputed at the hidden points reproduce
/// the second commitment.
pub open spec fn verify_spec(public_key: Seq<u8>, message: Seq<u8>, signature: Seq<u8>) -> bool {
    &&& public_key.len() == 60
    &&& signature.len() == 2916
    &&& {
        let salt = signature.subrange(0, 16);
        let first_commitment = signature.subrange(16, 48);
        let second_commitment = signature.subrange(48, 80);
        let alpha_one = signature.subrange(80, 272);
        let opening = signature.subrange(272, 2912);
        let nonce = signature.subrange(2912, 2916);
        let hash = fiat_shamir_spec(
            public_key,
            first_commitment,
            second_commitment,
            message_hash_spec(message),
        );
        let stream = challenge_stream_spec(hash, nonce);
        let hidden = challenge_indices(stream);
        &&& grinding_ok(stream)
        &&& observed_commitment(salt, opening, hidden) == first_commitment
        &&& second_commitment_spec(
            Seq::new(
                params::TAU as nat,
                |e: int|
                    recomputed_alpha_zero(
                        batching_stream_spec(first_commitment),
                        public_key.take(32),
                        decode_ext_vector(public_key.subrange(32, 60)),
                        hidden[e],
                        opened_x(salt, opening, hidden, e),
                        opened_u(salt, opening, hidden, e),
                        alpha_one_of(alpha_one, e),
                    ),
            ),
            alpha_one,
        ) == second_commitment
    }
}

// ---------------------------------------------------------------------------
// Executable verification
// ---------------------------------------------------------------------------

/// The `N` bytes of `bytes` from `offset`.
pub fn bytes_at<const N: usize>(bytes: &[u8], offset: usize) -> (r: [u8; N])
    requires
        offset + N <= bytes@.len(),
    ensures
        r@ == bytes@.subrange(offset as int, offset + N),
{
    let mut r = [0u8; N];
    let mut k: usize = 0;
    while k < N
        invariant
            k <= N,
            offset + N <= bytes.len(),
            forall|j: int| 0 <= j < k ==> #[trigger] r@[j] == bytes@[offset + j],
        decreases N - k,
    {
        r[k] = bytes[offset + k];
        k += 1;
    }
    assert(r@ =~= bytes@.subrange(offset as int, offset + N));
    r
}

/// The evaluation point of hidden leaf `index`: the element whose encoding is
/// the Gray code of the index.
pub fn evaluation_point(index: u16) -> (r: Gf256x2)
    ensures
        r@ == evaluation_point_spec(index),
{
    let gray = index ^ (index >> 1u16);
    Gf256x2::from_bytes([(gray % 256) as u8, (gray / 256) as u8])
}

proof fn lemma_low_bits(v: u16)
    ensures
        v & 2047u16 == v % 2048,
        v & 255u16 == v % 256,
{
    assert(v & 2047u16 == v % 2048 && v & 255u16 == v % 256) by (bit_vector);
}

/// The hidden leaves that a challenge stream selects, or `None` when it does
/// not meet the grinding condition.
pub fn challenge_from_stream(stream: &[u8; 26]) -> (r: Option<[u16; 12]>)
    ensures
        r is Some <==> grinding_ok(stream@),
        r matches Some(indices) ==> indices@ == challenge_indices(stream@),
{
    let grinding: u16 = stream[24] as u16 + 256 * (stream[25] as u16);
    proof {
        lemma_low_bits(grinding);
    }
    if grinding & GRINDING_MASK != 0 {
        return None;
    }
    let mut indices = [0u16; 12];
    let mut e: usize = 0;
    while e < params::TAU
        invariant
            e <= 12,
            forall|j: int| 0 <= j < e ==> #[trigger] indices@[j] == challenge_indices(stream@)[j],
        decreases 12 - e,
    {
        let value: u16 = stream[2 * e] as u16 + 256 * (stream[2 * e + 1] as u16);
        proof {
            lemma_low_bits(value);
        }
        indices[e] = value & EVALUATION_MASK;
        e += 1;
    }
    assert(indices@ =~= challenge_indices(stream@));
    Some(indices)
}

/// Read the challenge for the digest `hash` and the grinding nonce `nonce`:
/// `None` when the challenge stream does not meet the grinding condition.
pub fn parse_challenge(hash: &[u8; 32], nonce: [u8; 4]) -> (r: Option<[u16; 12]>)
    ensures
        r is Some <==> grinding_ok(challenge_stream_spec(hash@, nonce@)),
        r matches Some(indices) ==> indices@ == challenge_indices(
            challenge_stream_spec(hash@, nonce@),
        ),
{
    let prefix = [5u8];
    let mut state = Shake128State::new();
    state.absorb(&prefix);
    state.absorb(hash);
    state.absorb(&nonce);
    let mut stream = [0u8; 26];
    state.squeeze(&mut stream);
    proof {
        assert(prefix@ =~= seq![5u8]);
        assert(state@ =~= seq![5u8] + hash@ + nonce@);
    }
    challenge_from_stream(&stream)
}

/// Expand the fourteen equations of the MQ system of `master_seed`.
pub fn expand_equations(master_seed: &[u8; 32]) -> (r: Option<Vec<PackedEquation>>)
    ensures
        r matches Some(equations) && equations@.len() == mq::EQUATION_COUNT && forall|i: int|
            0 <= i < mq::EQUATION_COUNT ==> (#[trigger] equations@[i]).quadratic_spec()
                == expanded_quadratic(master_seed@, i as u16) && equations@[i].linear_spec()
                == expanded_linear(master_seed@, i as u16),
{
    let mut equations: Vec<PackedEquation> = Vec::new();
    let mut index: usize = 0;
    while index < mq::EQUATION_COUNT
        invariant
            index <= mq::EQUATION_COUNT,
            equations@.len() == index,
            forall|i: int|
                0 <= i < index ==> (#[trigger] equations@[i]).quadratic_spec()
                    == expanded_quadratic(master_seed@, i as u16) && equations@[i].linear_spec()
                    == expanded_linear(master_seed@, i as u16),
        decreases mq::EQUATION_COUNT - index,
    {
        match mq::expand_equation(master_seed, index) {
            Some(equation) => equations.push(equation),
            None => {
                return None;
            },
        }
        index += 1;
    }
    Some(equations)
}

/// The homogenized value of one equation at the opened vector `x` and the
/// point `point`, with public output `output`.
fn opened_z_evaluation(
    equation: &PackedEquation,
    x: &[Gf256x2; 56],
    point: Gf256x2,
    point_squared: Gf256x2,
    output: Gf256x2,
) -> (r: Gf256x2)
    requires
        point_squared@ == gf256x2_mul(point@, point@),
    ensures
        r@ == opened_z(
            equation.quadratic_spec(),
            equation.linear_spec(),
            ext_values(x@),
            point@,
            output@,
        ),
{
    let ghost xs = ext_values(x@);
    let ghost t_spec = opened_t(equation.quadratic_spec(), equation.linear_spec(), xs, point@);
    let mut t = equation.multiply_extension(x);
    let ghost ax = ext_values(t@);
    let linear = equation.linear();
    let mut k: usize = 0;
    while k < params::MQ_N
        invariant
            k <= 56,
            ax == multiply_extension_spec(equation.quadratic_spec(), xs),
            ext_values(linear@) == equation.linear_spec(),
            t_spec == opened_t(equation.quadratic_spec(), equation.linear_spec(), xs, point@),
            forall|j: int| 0 <= j < k ==> (#[trigger] t@[j])@ == t_spec[j],
            forall|j: int| k <= j < 56 ==> (#[trigger] t@[j])@ == ax[j],
        decreases 56 - k,
    {
        proof {
            assert(ext_values(linear@)[k as int] == linear@[k as int]@);
        }
        t[k] = t[k] + point * linear[k];
        k += 1;
    }
    let ghost terms = inner_terms(t_spec, xs);
    let mut z = Gf256x2::zero();
    let mut k: usize = 0;
    while k < params::MQ_N
        invariant
            k <= 56,
            terms == inner_terms(t_spec, xs),
            xs == ext_values(x@),
            forall|j: int| 0 <= j < 56 ==> (#[trigger] t@[j])@ == t_spec[j],
            z@ == sum_ext(terms.take(k as int)),
        decreases 56 - k,
    {
        proof {
            lemma_sum_ext_step(terms, k as int);
            assert(xs[k as int] == x@[k as int]@);
        }
        z = z + t[k] * x[k];
        k += 1;
    }
    proof {
        assert(terms.take(56) =~= terms);
    }
    z + point_squared * output
}

/// The evaluations at the hidden point of one execution.
fn execution_alpha_zero(
    batching: &[[Gf256x2; 14]; 8],
    equations: &Vec<PackedEquation>,
    public_output: &[Gf256x2; 14],
    hidden_index: u16,
    x: &[Gf256x2; 56],
    u: &[Gf256x2; 8],
    alpha_one: &[Gf256x2; 8],
    Ghost(master_seed): Ghost<Seq<u8>>,
    Ghost(batching_stream): Ghost<Seq<u8>>,
) -> (r: [Gf256x2; 8])
    requires
        equations@.len() == 14,
        forall|i: int|
            0 <= i < 14 ==> (#[trigger] equations@[i]).quadratic_spec() == expanded_quadratic(
                master_seed,
                i as u16,
            ) && equations@[i].linear_spec() == expanded_linear(master_seed, i as u16),
        forall|c: int| 0 <= c < 8 ==> ext_values((#[trigger] batching@[c])@) == batching_row(
            batching_stream,
            c,
        ),
    ensures
        ext_values(r@) == recomputed_alpha_zero(
            batching_stream,
            master_seed,
            ext_values(public_output@),
            hidden_index,
            ext_values(x@),
            ext_values(u@),
            ext_values(alpha_one@),
        ),
{
    let ghost outputs = ext_values(public_output@);
    let ghost xs = ext_values(x@);
    let point = evaluation_point(hidden_index);
    let point_squared = point.square();
    let ghost zs_spec = opened_zs(master_seed, outputs, xs, point@);
    let mut zs = [Gf256x2::zero(); 14];
    let mut i: usize = 0;
    while i < mq::EQUATION_COUNT
        invariant
            i <= 14,
            equations@.len() == 14,
            forall|j: int|
                0 <= j < 14 ==> (#[trigger] equations@[j]).quadratic_spec() == expanded_quadratic(
                    master_seed,
                    j as u16,
                ) && equations@[j].linear_spec() == expanded_linear(master_seed, j as u16),
            point_squared@ == gf256x2_mul(point@, point@),
            outputs == ext_values(public_output@),
            xs == ext_values(x@),
            zs_spec == opened_zs(master_seed, outputs, xs, point@),
            forall|j: int| 0 <= j < i ==> (#[trigger] zs@[j])@ == zs_spec[j],
        decreases 14 - i,
    {
        proof {
            assert(outputs[i as int] == public_output@[i as int]@);
        }
        zs[i] = opened_z_evaluation(&equations[i], x, point, point_squared, public_output[i]);
        i += 1;
    }
    assert(ext_values(zs@) =~= zs_spec);
    let ghost target = recomputed_alpha_zero(
        batching_stream,
        master_seed,
        outputs,
        hidden_index,
        xs,
        ext_values(u@),
        ext_values(alpha_one@),
    );
    let mut alpha_zero = [Gf256x2::zero(); 8];
    let mut c: usize = 0;
    while c < params::ETA
        invariant
            c <= 8,
            ext_values(zs@) == zs_spec,
            zs_spec == opened_zs(master_seed, outputs, xs, point@),
            point@ == evaluation_point_spec(hidden_index),
            outputs == ext_values(public_output@),
            xs == ext_values(x@),
            forall|d: int| 0 <= d < 8 ==> ext_values((#[trigger] batching@[d])@) == batching_row(
                batching_stream,
                d,
            ),
            target == recomputed_alpha_zero(
                batching_stream,
                master_seed,
                outputs,
                hidden_index,
                xs,
                ext_values(u@),
                ext_values(alpha_one@),
            ),
            forall|d: int| 0 <= d < c ==> (#[trigger] alpha_zero@[d])@ == target[d],
        decreases 8 - c,
    {
        let row = &batching[c];
        let ghost terms = Seq::new(
            14,
            |i: int| gf256x2_mul(batching_row(batching_stream, c as int)[i], zs_spec[i]),
        );
        let mut sum = Gf256x2::zero();
        let mut i: usize = 0;
        while i < mq::EQUATION_COUNT
            invariant
                i <= 14,
                ext_values(row@) == batching_row(batching_stream, c as int),
                ext_values(zs@) == zs_spec,
                terms == Seq::new(
                    14,
                    |i: int| gf256x2_mul(batching_row(batching_stream, c as int)[i], zs_spec[i]),
                ),
                sum@ == sum_ext(terms.take(i as int)),
            decreases 14 - i,
        {
            proof {
                lemma_sum_ext_step(terms, i as int);
                assert(ext_values(row@)[i as int] == row@[i as int]@);
                assert(ext_values(zs@)[i as int] == zs@[i as int]@);
            }
            sum = sum + row[i] * zs[i];
            i += 1;
        }
        proof {
            assert(terms.take(14) =~= terms);
            assert(ext_values(u@)[c as int] == u@[c as int]@);
            assert(ext_values(alpha_one@)[c as int] == alpha_one@[c as int]@);
        }
        alpha_zero[c] = (u[c] + sum) + point * alpha_one[c];
        c += 1;
    }
    assert(ext_values(alpha_zero@) =~= target);
    alpha_zero
}

/// The batching coefficients derived from the first commitment, one row of
/// fourteen per component.
pub fn batching_matrix(first_commitment: &[u8; 32]) -> (r: Option<[[Gf256x2; 14]; 8]>)
    ensures
        r matches Some(batching) && forall|c: int|
            0 <= c < 8 ==> ext_values((#[trigger] batching@[c])@) == batching_row(
                batching_stream_spec(first_commitment@),
                c,
            ),
{
    let prefix = [8u8];
    let mut state = Shake128State::new();
    state.absorb(&prefix);
    state.absorb(first_commitment);
    let mut batching_stream = [0u8; 224];
    state.squeeze(&mut batching_stream);
    let ghost stream = batching_stream_spec(first_commitment@);
    proof {
        assert(prefix@ =~= seq![8u8]);
        assert(state@ =~= seq![8u8] + first_commitment@);
    }
    let mut batching = [[Gf256x2::zero(); 14]; 8];
    let mut c: usize = 0;
    while c < params::ETA
        invariant
            c <= 8,
            batching_stream@ == stream,
            forall|d: int| 0 <= d < c ==> ext_values((#[trigger] batching@[d])@) == batching_row(
                stream,
                d,
            ),
        decreases 8 - c,
    {
        let row = match parse_extension_vector::<14>(&batching_stream[28 * c..28 * c + 28]) {
            Some(row) => row,
            None => {
                return None;
            },
        };
        assert(decode_ext_vector(batching_stream@.subrange(28 * c, 28 * c + 28)) =~= batching_row(
            stream,
            c as int,
        ));
        batching[c] = row;
        c += 1;
    }
    Some(batching)
}

/// Recompute, for every execution, the evaluations at the hidden point from
/// the opened evaluations, the linear coefficients and the public key.
pub fn recompute_alpha_zero(
    first_commitment: &[u8; 32],
    alpha_one: &[[Gf256x2; 8]; 12],
    hidden_indices: &[u16; 12],
    opened: &OpenedEvaluations,
    master_seed: &[u8; 32],
    public_output: &[Gf256x2; 14],
) -> (r: Option<[[Gf256x2; 8]; 12]>)
    ensures
        r matches Some(alpha_zero) && forall|e: int|
            0 <= e < 12 ==> ext_values((#[trigger] alpha_zero@[e])@) == recomputed_alpha_zero(
                batching_stream_spec(first_commitment@),
                master_seed@,
                ext_values(public_output@),
                hidden_indices@[e],
                ext_values(opened.x@[e]@),
                ext_values(opened.u@[e]@),
                ext_values(alpha_one@[e]@),
            ),
{
    let batching = match batching_matrix(first_commitment) {
        Some(batching) => batching,
        None => {
            return None;
        },
    };
    let ghost stream = batching_stream_spec(first_commitment@);
    let equations = match expand_equations(master_seed) {
        Some(equations) => equations,
        None => {
            return None;
        },
    };
    let mut alpha_zero = [[Gf256x2::zero(); 8]; 12];
    let mut e: usize = 0;
    while e < params::TAU
        invariant
            e <= 12,
            equations@.len() == 14,
            forall|i: int|
                0 <= i < 14 ==> (#[trigger] equations@[i]).quadratic_spec() == expanded_quadratic(
                    master_seed@,
                    i as u16,
                ) && equations@[i].linear_spec() == expanded_linear(master_seed@, i as u16),
            forall|d: int| 0 <= d < 8 ==> ext_values((#[trigger] batching@[d])@) == batching_row(
                stream,
                d,
            ),
            stream == batching_stream_spec(first_commitment@),
            forall|j: int|
                0 <= j < e ==> ext_values((#[trigger] alpha_zero@[j])@) == recomputed_alpha_zero(
                    stream,
                    master_seed@,
                    ext_values(public_output@),
                    hidden_indices@[j],
                    ext_values(opened.x@[j]@),
                    ext_values(opened.u@[j]@),
                    ext_values(alpha_one@[j]@),
                ),
        decreases 12 - e,
    {
        alpha_zero[e] = execution_alpha_zero(
            &batching,
            &equations,
            public_output,
            hidden_indices[e],
            &opened.x[e],
            &opened.u[e],
            &alpha_one[e],
            Ghost(master_seed@),
            Ghost(stream),
        );
        e += 1;
    }
    Some(alpha_zero)
}

/// The canonical encoding of twelve rows of eight elements.
pub fn encode_alpha_rows(alphas: &[[Gf256x2; 8]; 12]) -> (r: [u8; 192])
    ensures
        r@ == encode_alphas(Seq::new(12, |e: int| ext_values(alphas@[e]@))),
{
    let ghost values = Seq::new(12, |e: int| ext_values(alphas@[e]@));
    let ghost encoded = encode_alphas(values);
    let mut bytes = [0u8; 192];
    let mut e: usize = 0;
    while e < params::TAU
        invariant
            e <= 12,
            values == Seq::new(12, |e: int| ext_values(alphas@[e]@)),
            encoded == encode_alphas(values),
            forall|j: int| 0 <= j < 16 * e ==> #[trigger] bytes@[j] == encoded[j],
        decreases 12 - e,
    {
        let mut c: usize = 0;
        while c < params::ETA
            invariant
                e < 12,
                c <= 8,
                values == Seq::new(12, |e: int| ext_values(alphas@[e]@)),
                encoded == encode_alphas(values),
                forall|j: int| 0 <= j < 16 * e + 2 * c ==> #[trigger] bytes@[j] == encoded[j],
            decreases 8 - c,
        {
            let pair = alphas[e][c].to_bytes();
            let k = 16 * e + 2 * c;
            bytes[k] = pair[0];
            bytes[k + 1] = pair[1];
            proof {
                let k = k as int;
                assert(k / 16 == e as int && (k % 16) / 2 == c as int && k % 2 == 0);
                assert((k + 1) / 16 == e as int && ((k + 1) % 16) / 2 == c as int && (k + 1) % 2
                    == 1);
                assert(values[e as int][c as int] == alphas@[e as int][c as int]@);
            }
            c += 1;
        }
        e += 1;
    }
    assert(bytes@ =~= encoded);
    bytes
}

fn verify_inner(public_key: &[u8], message: &[u8], signature: &[u8]) -> (r: Option<()>)
    ensures
        r is Some <==> verify_spec(public_key@, message@, signature@),
{
    proof {
        lemma_layout();
        lemma_sizes();
    }
    if public_key.len() != params::PUBLIC_KEY_SIZE || signature.len() != params::SIGNATURE_SIZE {
        return None;
    }
    let master_seed: [u8; 32] = bytes_at(public_key, 0);
    let public_output = match parse_extension_vector::<14>(&public_key[32..60]) {
        Some(output) => output,
        None => {
            return None;
        },
    };
    let salt: [u8; 16] = bytes_at(signature, SALT_OFFSET);
    let first_commitment: [u8; 32] = bytes_at(signature, FIRST_COMMITMENT_OFFSET);
    let second_commitment: [u8; 32] = bytes_at(signature, SECOND_COMMITMENT_OFFSET);
    let serialized_alpha_one = &signature[ALPHA_ONE_OFFSET..OPENING_OFFSET];
    let opening = &signature[OPENING_OFFSET..NONCE_OFFSET];
    let nonce: [u8; 4] = bytes_at(signature, NONCE_OFFSET);

    let message_prefix = [2u8];
    let mut message_state = Shake128State::new();
    message_state.absorb(&message_prefix);
    message_state.absorb(message);
    let mut message_hash = [0u8; 32];
    message_state.squeeze(&mut message_hash);
    proof {
        assert(message_prefix@ =~= seq![2u8]);
        assert(message_state@ =~= seq![2u8] + message@);
    }

    let transcript_prefix = [4u8];
    let mut transcript = Shake128State::new();
    transcript.absorb(&transcript_prefix);
    transcript.absorb(public_key);
    transcript.absorb(&first_commitment);
    transcript.absorb(&second_commitment);
    transcript.absorb(&message_hash);
    let mut fiat_shamir_hash = [0u8; 32];
    transcript.squeeze(&mut fiat_shamir_hash);
    proof {
        assert(transcript_prefix@ =~= seq![4u8]);
        assert(transcript@ =~= seq![4u8] + public_key@ + first_commitment@ + second_commitment@
            + message_hash@);
    }

    let hidden_indices = match parse_challenge(&fiat_shamir_hash, nonce) {
        Some(indices) => indices,
        None => {
            return None;
        },
    };
    proof {
        assert forall|e: int| 0 <= e < 12 implies #[trigger] hidden_indices@[e] < 2048 by {
            assert(hidden_indices@[e] == challenge_indices(
                challenge_stream_spec(fiat_shamir_hash@, nonce@),
            )[e]);
        }
    }
    let opened = match blc::evaluate_opening(&salt, &first_commitment, opening, &hidden_indices) {
        Some(opened) => opened,
        None => {
            return None;
        },
    };

    let mut alpha_one = [[Gf256x2::zero(); 8]; 12];
    let mut e: usize = 0;
    while e < params::TAU
        invariant
            e <= 12,
            serialized_alpha_one@.len() == 192,
            forall|j: int|
                0 <= j < e ==> ext_values((#[trigger] alpha_one@[j])@) == alpha_one_of(
                    serialized_alpha_one@,
                    j,
                ),
        decreases 12 - e,
    {
        let row = match parse_extension_vector::<8>(&serialized_alpha_one[16 * e..16 * e + 16]) {
            Some(row) => row,
            None => {
                return None;
            },
        };
        alpha_one[e] = row;
        e += 1;
    }
    let alpha_zero = match recompute_alpha_zero(
        &first_commitment,
        &alpha_one,
        &hidden_indices,
        &opened,
        &master_seed,
        &public_output,
    ) {
        Some(alpha_zero) => alpha_zero,
        None => {
            return None;
        },
    };

    let commitment_prefix = [3u8];
    let mut commitment_state = Shake128State::new();
    commitment_state.absorb(&commitment_prefix);
    let encoded_alpha_zero = encode_alpha_rows(&alpha_zero);
    commitment_state.absorb(&encoded_alpha_zero);
    commitment_state.absorb(serialized_alpha_one);
    let mut observed_second_commitment = [0u8; 32];
    commitment_state.squeeze(&mut observed_second_commitment);
    let matches = ct_eq_bytes(&observed_second_commitment, &second_commitment);
    proof {
        let pk = public_key@;
        let sig = signature@;
        let hidden = hidden_indices@;
        assert(commitment_prefix@ =~= seq![3u8]);
        let expected_rows = Seq::new(
            params::TAU as nat,
            |e: int|
                recomputed_alpha_zero(
                    batching_stream_spec(first_commitment@),
                    pk.take(32),
                    decode_ext_vector(pk.subrange(32, 60)),
                    hidden[e],
                    opened_x(salt@, opening@, hidden, e),
                    opened_u(salt@, opening@, hidden, e),
                    alpha_one_of(serialized_alpha_one@, e),
                ),
        );
        assert(master_seed@ =~= pk.take(32));
        assert(Seq::new(12, |e: int| ext_values(alpha_zero@[e]@)) =~= expected_rows);
        assert(commitment_state@ =~= seq![3u8] + encode_alphas(expected_rows)
            + serialized_alpha_one@);
        assert(salt@ =~= sig.subrange(0, 16));
        assert(first_commitment@ =~= sig.subrange(16, 48));
        assert(second_commitment@ =~= sig.subrange(48, 80));
        assert(nonce@ =~= sig.subrange(2912, 2916));
    }
    if matches {
        Some(())
    } else {
        None
    }
}

/// Verify the signature `signature` of `message` under `public_key`.
pub fn verify(public_key: &[u8], message: &[u8], signature: &[u8]) -> (r: bool)
    ensures
        r == verify_spec(public_key@, message@, signature@),
{
    verify_inner(public_key, message, signature).is_some()
}

} // verus!
