//! Parameters fixed by MQOM v2.1.1 for the first supported profile.

use vstd::prelude::*;

verus! {

/// Target security level in bits.
pub const SECURITY_BITS: usize = 128;

/// Length of a seed in bytes.
pub const SEED_SIZE: usize = SECURITY_BITS / 8;

/// Length of a salt in bytes.
pub const SALT_SIZE: usize = SECURITY_BITS / 8;

/// Length of a digest in bytes.
pub const DIGEST_SIZE: usize = 2 * SECURITY_BITS / 8;

/// Number of variables of the MQ system.
pub const MQ_N: usize = 56;

/// Number of equations of the MQ system over the base field.
pub const MQ_M: usize = 56;

/// Bit width of the base field GF(16).
pub const BASE_FIELD_BITS: usize = 4;

/// Bit width of the extension field GF(256^2).
pub const EXT_FIELD_BITS: usize = 16;

/// Degree of the extension field over the base field.
pub const MU: usize = EXT_FIELD_BITS / BASE_FIELD_BITS;

/// Number of parallel executions.
pub const TAU: usize = 12;

/// Depth of each seed tree.
pub const NB_EVALS_LOG: usize = 11;

/// Number of leaves of each seed tree.
pub const NB_EVALS: usize = 2048;

/// Number of zero bits required by the challenge grinding.
pub const GRINDING_BITS: usize = 8;

/// Number of extension-field elements in each batching vector.
pub const ETA: usize = SECURITY_BITS / EXT_FIELD_BITS;

/// Encoded public-key length in bytes.
pub const PUBLIC_KEY_SIZE: usize = 2 * SEED_SIZE + (MQ_M / MU) * EXT_FIELD_BITS / 8;

/// Encoded secret-key length in bytes.
pub const SECRET_KEY_SIZE: usize = PUBLIC_KEY_SIZE + MQ_N * BASE_FIELD_BITS / 8;

/// Length of the seed-tree opening carried by a signature.
pub const OPENING_SIZE: usize = TAU * (MQ_N * BASE_FIELD_BITS / 8 - SEED_SIZE + NB_EVALS_LOG
    * SEED_SIZE + DIGEST_SIZE);

/// Encoded signature length in bytes.
pub const SIGNATURE_SIZE: usize = 4 + TAU * (ETA * MU) * BASE_FIELD_BITS / 8 + SALT_SIZE + 2
    * DIGEST_SIZE + OPENING_SIZE;

/// The derived sizes of the profile.
pub proof fn lemma_sizes()
    ensures
        SEED_SIZE == 16,
        SALT_SIZE == 16,
        DIGEST_SIZE == 32,
        MU == 4,
        ETA == 8,
        NB_EVALS == 2048,
        PUBLIC_KEY_SIZE == 60,
        SECRET_KEY_SIZE == 88,
        OPENING_SIZE == 2640,
        SIGNATURE_SIZE == 2916,
{
}

} // verus!
