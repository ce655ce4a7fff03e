//! Types for the `MQOM2-L1-gf16-short-r5` parameter set: canonical encodings
//! of keys and signatures, key generation from a seed, signing with
//! caller-supplied randomness, and verification.

use vstd::prelude::*;
use crate::keygen::{self, lemma_generated_keys_are_consistent, secret_key_consistent_spec,
    secret_key_spec};
use crate::params::{self, lemma_sizes};
use crate::sign::{self, is_assembled_signature};
use crate::verify::{self, bytes_at, verify_spec};

verus! {

/// Canonical profile label from MQOM v2.1.1.
pub const PARAMETER_SET: &'static str = "MQOM2-L1-gf16-short-r5";

/// Encoded public-key length in bytes.
pub const PUBLIC_KEY_SIZE: usize = params::PUBLIC_KEY_SIZE;

/// Encoded secret-key length in bytes.
pub const SECRET_KEY_SIZE: usize = params::SECRET_KEY_SIZE;

/// Encoded signature length in bytes.
pub const SIGNATURE_SIZE: usize = params::SIGNATURE_SIZE;

/// The opaque error of the `signature` crate.
#[verifier::external_type_specification]
#[verifier::external_body]
pub struct ExSignatureError(signature::Error);

/// A fresh opaque error (signature's `Error::new`, an error without a
/// source); nothing is claimed of the value.
#[verifier::external_body]
fn signature_error() -> signature::Error {
    signature::Error::new()
}

/// An encoding error for a profile value.
#[derive(Clone, Copy, Debug, PartialEq, Eq, Structural)]
pub struct EncodingError {
    expected: usize,
    actual: usize,
}

impl View for EncodingError {
    type V = (usize, usize);

    /// The expected and the actual length.
    closed spec fn view(&self) -> (usize, usize) {
        (self.expected, self.actual)
    }
}

impl EncodingError {
    /// Expected byte length.
    pub fn expected(self) -> (r: usize)
        ensures
            r == self@.0,
    {
        self.expected
    }

    /// Actual byte length.
    pub fn actual(self) -> (r: usize)
        ensures
            r == self@.1,
    {
        self.actual
    }
}

/// An error encountered while importing a signing key.
#[derive(Clone, Copy, Debug, PartialEq, Eq, Structural)]
pub enum SigningKeyError {
    /// The byte encoding has the wrong length.
    InvalidLength(EncodingError),
    /// The embedded public key does not match the secret vector.
    Inconsistent,
}

/// An MQOM verification key.
#[derive(Clone, Debug, PartialEq, Eq)]
pub struct VerifyingKey([u8; 60]);

impl View for VerifyingKey {
    type V = Seq<u8>;

    /// The canonical encoding.
    closed spec fn view(&self) -> Seq<u8> {
        self.0@
    }
}

impl VerifyingKey {
    /// Parse an exact-length canonical byte encoding.
    ///
    /// Returns [`EncodingError`] when `bytes` is not exactly
    /// [`PUBLIC_KEY_SIZE`] bytes long.
    pub fn from_slice(bytes: &[u8]) -> (r: Result<Self, EncodingError>)
        ensures
            r is Ok <==> bytes@.len() == PUBLIC_KEY_SIZE,
            r matches Ok(key) ==> key@ == bytes@,
            r matches Err(error) ==> error@ == (PUBLIC_KEY_SIZE, bytes@.len() as usize),
    {
        proof {
            lemma_sizes();
        }
        if bytes.len() != PUBLIC_KEY_SIZE {
            return Err(EncodingError { expected: PUBLIC_KEY_SIZE, actual: bytes.len() });
        }
        let encoded: [u8; 60] = bytes_at(bytes, 0);
        assert(encoded@ =~= bytes@);
        Ok(VerifyingKey(encoded))
    }

    /// Return the canonical byte encoding.
    pub fn to_bytes(&self) -> (r: [u8; 60])
        ensures
            r@ == self@,
    {
        self.0
    }

    /// The canonical byte encoding.
    pub fn as_slice(&self) -> (r: &[u8])
        ensures
            r@ == self@,
    {
        self.0.as_slice()
    }

    /// Verify an MQOM signature over `message`.
    ///
    /// Returns an opaque signature error if any transcript, opening, or proof
    /// check fails.
    pub fn verify(&self, message: &[u8], signature: &Signature) -> (r: Result<(), signature::Error>)
        ensures
            r is Ok <==> verify_spec(self@, message@, signature@),
    {
        if verify::verify(&self.0, message, &signature.0) {
            Ok(())
        } else {
            Err(signature_error())
        }
    }
}

/// An MQOM signature.
#[derive(Clone, PartialEq, Eq)]
pub struct Signature([u8; 2916]);

impl View for Signature {
    type V = Seq<u8>;

    /// The canonical encoding.
    closed spec fn view(&self) -> Seq<u8> {
        self.0@
    }
}

impl Signature {
    /// Parse an exact-length canonical byte encoding.
    ///
    /// Returns [`EncodingError`] when `bytes` is not exactly
    /// [`SIGNATURE_SIZE`] bytes long.
    pub fn from_slice(bytes: &[u8]) -> (r: Result<Self, EncodingError>)
        ensures
            r is Ok <==> bytes@.len() == SIGNATURE_SIZE,
            r matches Ok(signature) ==> signature@ == bytes@,
            r matches Err(error) ==> error@ == (SIGNATURE_SIZE, bytes@.len() as usize),
    {
        proof {
            lemma_sizes();
        }
        if bytes.len() != SIGNATURE_SIZE {
            return Err(EncodingError { expected: SIGNATURE_SIZE, actual: bytes.len() });
        }
        let encoded: [u8; 2916] = bytes_at(bytes, 0);
        assert(encoded@ =~= bytes@);
        Ok(Signature(encoded))
    }

    /// Return the canonical byte encoding.
    pub fn to_bytes(&self) -> (r: [u8; 2916])
        ensures
            r@ == self@,
    {
        self.0
    }

    /// The canonical byte encoding.
    pub fn as_slice(&self) -> (r: &[u8])
        ensures
            r@ == self@,
    {
        self.0.as_slice()
    }
}

/// A secret-key byte encoding.
pub struct SecretKeyBytes([u8; 88]);

impl View for SecretKeyBytes {
    type V = Seq<u8>;

    /// The encoding.
    closed spec fn view(&self) -> Seq<u8> {
        self.0@
    }
}

impl SecretKeyBytes {
    /// Borrow the secret bytes.
    pub fn as_bytes(&self) -> (r: &[u8; 88])
        ensures
            r@ == self@,
    {
        &self.0
    }

    /// The secret bytes as a slice.
    pub fn as_slice(&self) -> (r: &[u8])
        ensures
            r@ == self@,
    {
        self.0.as_slice()
    }

    /// Clear the secret bytes.
    pub fn wipe(&mut self)
        ensures
            final(self)@ == Seq::new(88, |i: int| 0u8),
    {
        keygen::wipe_secret_key(&mut self.0);
    }
}

/// An MQOM signing key: a secret-key encoding whose embedded public output
/// is the value of its MQ system at its secret vector.
pub struct SigningKey([u8; 88]);

impl View for SigningKey {
    type V = Seq<u8>;

    /// The canonical secret-key encoding.
    closed spec fn view(&self) -> Seq<u8> {
        self.0@
    }
}

impl SigningKey {
    /// Every signing key is consistent.
    #[verifier::type_invariant]
    spec fn consistent(self) -> bool {
        secret_key_consistent_spec(self.0@)
    }

    /// The signing key generated from the key-generation seed `seed`.
    ///
    /// Returns an opaque error if the fixed profile cannot be expanded.
    pub fn from_seed(seed: &[u8; 32]) -> (r: Result<Self, signature::Error>)
        ensures
            r matches Ok(key) && key@ == secret_key_spec(seed@),
    {
        match keygen::keypair_from_seed(seed) {
            Some((secret_key, _)) => {
                proof {
                    lemma_generated_keys_are_consistent(seed@);
                }
                Ok(SigningKey(secret_key))
            },
            None => Err(signature_error()),
        }
    }

    /// Sign `message` with the signing randomness `master_seed` and `salt`.
    ///
    /// Returns the signature assembled from this key, the randomness and the
    /// message, which verifies under the embedded public key; an opaque
    /// error when no signature can be assembled (no 32-bit nonce meets the
    /// grinding condition).
    pub fn sign_with_randomness(
        &self,
        master_seed: &[u8; 16],
        salt: &[u8; 16],
        message: &[u8],
    ) -> (r: Result<Signature, signature::Error>)
        ensures
            r matches Ok(signature) ==> is_assembled_signature(
                self@,
                message@,
                master_seed@,
                salt@,
                signature@,
            ) && verify_spec(self@.take(60), message@, signature@),
            r is Err <==> forall|s: Seq<u8>|
                !#[trigger] is_assembled_signature(self@, message@, master_seed@, salt@, s),
    {
        proof {
            use_type_invariant(self);
        }
        match sign::sign(&self.0, message, master_seed, salt) {
            Some(signature) => {
                assert(self@ == self.0@);
                assert(is_assembled_signature(self@, message@, master_seed@, salt@, signature@));
                Ok(Signature(signature))
            },
            None => Err(signature_error()),
        }
    }

    /// Parse and validate a canonical secret-key encoding.
    ///
    /// Returns [`SigningKeyError`] when the length is wrong or the embedded
    /// public key is inconsistent with the secret vector.
    pub fn from_slice(bytes: &[u8]) -> (r: Result<Self, SigningKeyError>)
        ensures
            r matches Ok(key) ==> key@ == bytes@,
            r matches Err(SigningKeyError::InvalidLength(error)) ==> bytes@.len()
                != SECRET_KEY_SIZE && error@ == (SECRET_KEY_SIZE, bytes@.len() as usize),
            r matches Err(SigningKeyError::Inconsistent) ==> bytes@.len() == SECRET_KEY_SIZE
                && !secret_key_consistent_spec(bytes@),
            r is Ok <==> bytes@.len() == SECRET_KEY_SIZE && secret_key_consistent_spec(bytes@),
    {
        proof {
            lemma_sizes();
        }
        if bytes.len() != SECRET_KEY_SIZE {
            return Err(
                SigningKeyError::InvalidLength(
                    EncodingError { expected: SECRET_KEY_SIZE, actual: bytes.len() },
                ),
            );
        }
        let encoded: [u8; 88] = bytes_at(bytes, 0);
        assert(encoded@ =~= bytes@);
        if !keygen::secret_key_is_consistent(&encoded) {
            return Err(SigningKeyError::Inconsistent);
        }
        Ok(SigningKey(encoded))
    }

    /// Return the public component embedded in the MQOM secret-key encoding.
    pub fn verifying_key(&self) -> (r: VerifyingKey)
        ensures
            r@ == self@.take(60),
    {
        let encoded: [u8; 60] = bytes_at(&self.0, 0);
        assert(encoded@ =~= self@.take(60));
        VerifyingKey(encoded)
    }

    /// Export the key encoding.
    pub fn to_bytes(&self) -> (r: SecretKeyBytes)
        ensures
            r@ == self@,
    {
        SecretKeyBytes(self.0)
    }

    /// Another signing key with the same encoding.
    pub fn duplicate(&self) -> (r: Self)
        ensures
            r@ == self@,
    {
        proof {
            use_type_invariant(self);
        }
        SigningKey(self.0)
    }

    /// Clear the key, leaving the all-zero key, which is consistent.
    pub fn wipe(&mut self)
        ensures
            final(self)@ == Seq::new(88, |i: int| 0u8),
    {
        proof {
            keygen::lemma_zero_key_is_consistent();
        }
        keygen::wipe_secret_key(&mut self.0);
    }
}

impl AsRef<[u8]> for VerifyingKey {
    fn as_ref(&self) -> (r: &[u8])
        ensures
            r@ == self@,
    {
        self.0.as_slice()
    }
}

impl AsRef<[u8]> for Signature {
    fn as_ref(&self) -> (r: &[u8])
        ensures
            r@ == self@,
    {
        self.0.as_slice()
    }
}

impl AsRef<[u8]> for SecretKeyBytes {
    fn as_ref(&self) -> (r: &[u8])
        ensures
            r@ == self@,
    {
        self.0.as_slice()
    }
}

} // verus!
