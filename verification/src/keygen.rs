//! Deterministic core of MQOM key generation and the consistency check of
//! imported secret keys.

use vstd::prelude::*;
use crate::field::{Gf16, unpack_gf16, unpacked_nibble, gf16_values};
use crate::mq;
use crate::params;
use crate::xof;
use subtle::ConstantTimeEq;
use zeroize::Zeroize;

verus! {

/// Byte length of the key-generation seed.
pub const KEYGEN_SEED_SIZE: usize = 32;

/// Byte length of the packed secret vector.
pub const SECRET_VECTOR_SIZE: usize = 28;

/// Byte length of the expansion of the key-generation seed.
pub const EXPANSION_SIZE: usize = 60;

/// Constant-time equality of two byte strings (subtle's `ConstantTimeEq` for
/// slices): true exactly when they have the same length and the same bytes.
#[verifier::external_body]
pub fn ct_eq_bytes(a: &[u8], b: &[u8]) -> (r: bool)
    ensures
        r == (a@ == b@),
{
    bool::from(a.ct_eq(b))
}

/// Clear a buffer that held secret material (zeroize's `Zeroize::zeroize`
/// for byte slices, whose volatile writes the optimizer keeps): every byte
/// becomes zero, and the call does not panic.
#[verifier::external_body]
pub fn wipe(bytes: &mut [u8])
    requires
        old(bytes)@.len() <= isize::MAX,
    ensures
        final(bytes)@ == Seq::new(old(bytes)@.len(), |i: int| 0u8),
    no_unwind
{
    bytes.zeroize()
}

/// Clear a secret-key encoding.
pub fn wipe_secret_key(bytes: &mut [u8; 88])
    ensures
        final(bytes)@ == Seq::new(88, |i: int| 0u8),
    no_unwind
{
    wipe(bytes);
}

/// The secret vector packed in `bytes`.
pub open spec fn unpack_spec(bytes: Seq<u8>) -> Seq<u8> {
    Seq::new(params::MQ_N as nat, |i: int| unpacked_nibble(bytes, i))
}

/// The value of equation `index` of the system of `master_seed` at `x`.
pub open spec fn equation_value(master_seed: Seq<u8>, index: int, x: Seq<u8>) -> (u8, u8) {
    mq::evaluate_base_spec(
        mq::expanded_quadratic(master_seed, index as u16),
        mq::expanded_linear(master_seed, index as u16),
        x,
    )
}

/// The encoded values of all equations of the system of `master_seed` at
/// `x`, little-endian, equation by equation.
pub open spec fn public_output_spec(master_seed: Seq<u8>, x: Seq<u8>) -> Seq<u8> {
    Seq::new(
        2 * mq::EQUATION_COUNT as nat,
        |k: int|
            if k % 2 == 0 {
                equation_value(master_seed, k / 2, x).0
            } else {
                equation_value(master_seed, k / 2, x).1
            },
    )
}

/// `SHAKE128(0x00 || seed)`, 60 bytes: the packed secret vector then the
/// master seed of the MQ system.
pub open spec fn expansion_spec(seed: Seq<u8>) -> Seq<u8> {
    xof::shake128_bytes(seq![0u8] + seed, EXPANSION_SIZE as nat)
}

/// The public key generated from `seed`: the master seed then the public
/// output at the secret vector.
pub open spec fn public_key_spec(seed: Seq<u8>) -> Seq<u8> {
    let expansion = expansion_spec(seed);
    let master_seed = expansion.subrange(28, 60);
    master_seed + public_output_spec(master_seed, unpack_spec(expansion.take(28)))
}

/// The secret key generated from `seed`: the public key then the packed
/// secret vector.
pub open spec fn secret_key_spec(seed: Seq<u8>) -> Seq<u8> {
    public_key_spec(seed) + expansion_spec(seed).take(28)
}

/// Whether the public output embedded in a secret key is the value of its
/// MQ system at its secret vector.
pub open spec fn secret_key_consistent_spec(secret_key: Seq<u8>) -> bool {
    secret_key.subrange(32, 60) == public_output_spec(
        secret_key.take(32),
        unpack_spec(secret_key.subrange(60, 88)),
    )
}

/// Evaluate all equations of the system of `master_seed` at `secret_vector`
/// and write their encodings to `output`.
fn public_output(master_seed: &[u8; 32], secret_vector: &[Gf16; 56], output: &mut [u8; 28]) -> (r:
    bool)
    ensures
        r,
        final(output)@ == public_output_spec(master_seed@, gf16_values(secret_vector@)),
{
    let ghost x = gf16_values(secret_vector@);
    let mut equation_index: usize = 0;
    while equation_index < mq::EQUATION_COUNT
        invariant
            equation_index <= mq::EQUATION_COUNT,
            x == gf16_values(secret_vector@),
            forall|k: int|
                0 <= k < 2 * equation_index ==> #[trigger] output@[k] == public_output_spec(
                    master_seed@,
                    x,
                )[k],
        decreases mq::EQUATION_COUNT - equation_index,
    {
        let equation = match mq::expand_equation(master_seed, equation_index) {
            Some(equation) => equation,
            None => {
                return false;
            },
        };
        let encoded = equation.evaluate_base(secret_vector).to_bytes();
        output[2 * equation_index] = encoded[0];
        output[2 * equation_index + 1] = encoded[1];
        proof {
            let i = equation_index as int;
            assert((2 * i) / 2 == i && (2 * i + 1) / 2 == i && (2 * i) % 2 == 0 && (2 * i + 1) % 2
                == 1);
        }
        equation_index += 1;
    }
    assert(output@ =~= public_output_spec(master_seed@, x));
    true
}

/// Derive the secret and public key from a 32-byte seed.
pub fn keypair_from_seed(seed: &[u8; 32]) -> (r: Option<([u8; 88], [u8; 60])>)
    ensures
        r matches Some(keys) && keys.0@ == secret_key_spec(seed@) && keys.1@ == public_key_spec(
            seed@,
        ),
        r matches Some(keys) ==> keys.1@.take(32) == xof::shake128_bytes(seq![0u8] + seed@, 60).subrange(
            28,
            60,
        ) && keys.0@.subrange(60, 88) == xof::shake128_bytes(seq![0u8] + seed@, 60).take(28)
            && keys.0@.take(60) == keys.1@,
{
    proof {
        lemma_key_generation_expansion(seed@);
    }
    let mut expansion = [0u8; 60];
    let prefix = [0u8];
    let p0 = prefix.as_slice();
    let p1 = seed.as_slice();
    let parts = [p0, p1];
    proof {
        let views = parts@.map_values(|p: &[u8]| p@);
        assert(views =~= seq![p0@, p1@]);
        assert(seq![p0@, p1@].drop_first() =~= seq![p1@]);
        assert(seq![p1@].drop_first() =~= Seq::<Seq<u8>>::empty());
        reveal_with_fuel(Seq::flatten, 3);
        assert(views.flatten() =~= p0@ + p1@);
        assert(prefix@ =~= seq![0u8]);
    }
    xof::shake128(parts.as_slice(), &mut expansion);
    let ghost e = expansion@;
    assert(e == expansion_spec(seed@));
    let mut packed_secret = [0u8; 28];
    let mut master_seed = [0u8; 32];
    let mut k: usize = 0;
    while k < 28
        invariant
            k <= 28,
            expansion@ == e,
            forall|i: int| 0 <= i < k ==> #[trigger] packed_secret@[i] == e[i],
        decreases 28 - k,
    {
        packed_secret[k] = expansion[k];
        k += 1;
    }
    let mut k: usize = 0;
    while k < 32
        invariant
            k <= 32,
            expansion@ == e,
            forall|i: int| 0 <= i < k ==> #[trigger] master_seed@[i] == e[28 + i],
            e.len() == 60,
        decreases 32 - k,
    {
        master_seed[k] = expansion[28 + k];
        k += 1;
    }
    assert(packed_secret@ =~= e.take(28));
    assert(master_seed@ =~= e.subrange(28, 60));
    let mut secret_vector = [Gf16::zero(); 56];
    if !unpack_gf16(&packed_secret, &mut secret_vector) {
        return None;
    }
    assert(gf16_values(secret_vector@) =~= unpack_spec(e.take(28)));
    let mut output = [0u8; 28];
    if !public_output(&master_seed, &secret_vector, &mut output) {
        return None;
    }
    let mut public_key = [0u8; 60];
    let mut secret_key = [0u8; 88];
    let mut k: usize = 0;
    while k < 32
        invariant
            k <= 32,
            forall|i: int| 0 <= i < k ==> #[trigger] public_key@[i] == master_seed@[i],
        decreases 32 - k,
    {
        public_key[k] = master_seed[k];
        k += 1;
    }
    let mut k: usize = 0;
    while k < 28
        invariant
            k <= 28,
            forall|i: int| 0 <= i < 32 ==> #[trigger] public_key@[i] == master_seed@[i],
            forall|i: int| 32 <= i < 32 + k ==> #[trigger] public_key@[i] == output@[i - 32],
        decreases 28 - k,
    {
        public_key[32 + k] = output[k];
        k += 1;
    }
    assert(public_key@ =~= master_seed@ + output@);
    let mut k: usize = 0;
    while k < 60
        invariant
            k <= 60,
            forall|i: int| 0 <= i < k ==> #[trigger] secret_key@[i] == public_key@[i],
        decreases 60 - k,
    {
        secret_key[k] = public_key[k];
        k += 1;
    }
    let mut k: usize = 0;
    while k < 28
        invariant
            k <= 28,
            forall|i: int| 0 <= i < 60 ==> #[trigger] secret_key@[i] == public_key@[i],
            forall|i: int| 60 <= i < 60 + k ==> #[trigger] secret_key@[i] == packed_secret@[i - 60],
        decreases 28 - k,
    {
        secret_key[60 + k] = packed_secret[k];
        k += 1;
    }
    assert(secret_key@ =~= public_key@ + packed_secret@);
    wipe(&mut expansion);
    wipe(&mut packed_secret);
    Some((secret_key, public_key))
}

/// Whether the public key embedded in `secret_key` is the value of its MQ
/// system at its secret vector.
pub fn secret_key_is_consistent(secret_key: &[u8; 88]) -> (r: bool)
    ensures
        r == secret_key_consistent_spec(secret_key@),
{
    let mut master_seed = [0u8; 32];
    let mut packed_secret = [0u8; 28];
    let mut observed = [0u8; 28];
    let mut k: usize = 0;
    while k < 32
        invariant
            k <= 32,
            forall|i: int| 0 <= i < k ==> #[trigger] master_seed@[i] == secret_key@[i],
        decreases 32 - k,
    {
        master_seed[k] = secret_key[k];
        k += 1;
    }
    let mut k: usize = 0;
    while k < 28
        invariant
            k <= 28,
            forall|i: int| 0 <= i < k ==> #[trigger] packed_secret@[i] == secret_key@[60 + i],
            forall|i: int| 0 <= i < k ==> #[trigger] observed@[i] == secret_key@[32 + i],
        decreases 28 - k,
    {
        packed_secret[k] = secret_key[60 + k];
        observed[k] = secret_key[32 + k];
        k += 1;
    }
    assert(master_seed@ =~= secret_key@.take(32));
    assert(packed_secret@ =~= secret_key@.subrange(60, 88));
    assert(observed@ =~= secret_key@.subrange(32, 60));
    let mut secret_vector = [Gf16::zero(); 56];
    if !unpack_gf16(&packed_secret, &mut secret_vector) {
        return false;
    }
    assert(gf16_values(secret_vector@) =~= unpack_spec(packed_secret@));
    let mut expected = [0u8; 28];
    if !public_output(&master_seed, &secret_vector, &mut expected) {
        return false;
    }
    ct_eq_bytes(&expected, &observed)
}

/// Every generated secret key passes the consistency check of imported keys.
pub proof fn lemma_generated_keys_are_consistent(seed: Seq<u8>)
    ensures
        secret_key_consistent_spec(secret_key_spec(seed)),
        secret_key_spec(seed).take(60) == public_key_spec(seed),
{
    let e = expansion_spec(seed);
    let sk = secret_key_spec(seed);
    let master_seed = e.subrange(28, 60);
    assert(sk.take(32) =~= master_seed);
    assert(sk.subrange(60, 88) =~= e.take(28));
    assert(sk.subrange(32, 60) =~= public_output_spec(master_seed, unpack_spec(e.take(28))));
    assert(sk.take(60) =~= public_key_spec(seed));
}


/// The all-zero secret key is consistent: its secret vector is zero, and
/// every equation is zero at zero.
pub proof fn lemma_zero_key_is_consistent()
    ensures
        secret_key_consistent_spec(Seq::new(88, |i: int| 0u8)),
{
    let key = Seq::new(88, |i: int| 0u8);
    let master_seed = key.take(32);
    let x = unpack_spec(key.subrange(60, 88));
    crate::hidden_point::lemma_nibble_bits(0, 0);
    assert forall|i: int| 0 <= i < 56 implies #[trigger] x[i] == 0u8 by {}
    assert forall|i: int| 0 <= i < 14 implies #[trigger] equation_value(master_seed, i, x) == (
        0u8,
        0u8,
    ) by {
        let q = mq::expanded_quadratic(master_seed, i as u16);
        let b = mq::expanded_linear(master_seed, i as u16);
        let terms = mq::evaluate_terms(q, b, x);
        assert forall|k: int| 0 <= k < terms.len() implies #[trigger] terms[k] == (0u8, 0u8) by {
            assert(x[k / 2] == 0u8);
            crate::algebra::lemma_scale_additive(0, 0, mq::multiply_base_spec(q, x)[k / 2], b[k / 2]);
            crate::algebra::lemma_scale_additive(0, 0, b[k / 2], b[k / 2]);
        }
        crate::algebra::lemma_sum_ext_zero(terms);
    }
    assert(key.subrange(32, 60) =~= public_output_spec(master_seed, x));
}


/// Key generation expands the seed by SHAKE128 with domain byte 0: of
/// `SHAKE128(0x00 || seed)`, the first 28 bytes are the packed secret
/// vector, which ends the secret key, and the next 32 the master seed of the
/// MQ system, which opens both keys; the public key then holds the outputs of
/// that system at that secret vector, and the secret key starts with the
/// public key.
pub proof fn lemma_key_generation_expansion(seed: Seq<u8>)
    ensures
        ({
            let expansion = xof::shake128_bytes(seq![0u8] + seed, 60);
            let master_seed = expansion.subrange(28, 60);
            &&& public_key_spec(seed).len() == 60
            &&& secret_key_spec(seed).len() == 88
            &&& public_key_spec(seed).take(32) == master_seed
            &&& public_key_spec(seed).subrange(32, 60) == public_output_spec(
                master_seed,
                unpack_spec(expansion.take(28)),
            )
            &&& secret_key_spec(seed).take(60) == public_key_spec(seed)
            &&& secret_key_spec(seed).subrange(60, 88) == expansion.take(28)
        }),
{
    let expansion = xof::shake128_bytes(seq![0u8] + seed, 60);
    assert(expansion_spec(seed) == expansion);
    let pk = public_key_spec(seed);
    let sk = secret_key_spec(seed);
    assert(pk.take(32) =~= expansion.subrange(28, 60));
    assert(pk.subrange(32, 60) =~= public_output_spec(
        expansion.subrange(28, 60),
        unpack_spec(expansion.take(28)),
    ));
    assert(sk.take(60) =~= pk);
    assert(sk.subrange(60, 88) =~= expansion.take(28));
}

} // verus!
