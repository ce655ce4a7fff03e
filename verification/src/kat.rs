//! Known-answer tests: the AES-256 CTR DRBG that seeds them, hexadecimal and
//! decimal fields, and the parsing and checking of response files.

use vstd::prelude::*;
use vstd::seq_lib::lemma_concat_associative;
use aes::cipher::{Array, BlockCipherEncrypt, KeyInit};
use crate::keygen::secret_key_spec;
use crate::mqom2_l1_gf16_short_r5::{Signature, SigningKey, VerifyingKey};
use crate::sign::is_assembled_signature;
use crate::verify::verify_spec;

verus! {

// ---------------------------------------------------------------------------
// The CTR DRBG of the known-answer tests
// ---------------------------------------------------------------------------

/// AES-256 encryption of `block` under `key`.
pub uninterp spec fn aes256_encrypt(key: Seq<u8>, block: Seq<u8>) -> Seq<u8>;

/// AES-256 encryption of one block (aes's `Aes256::new` key schedule, then
/// `BlockCipherEncrypt::encrypt_block`); the contract claims that the result
/// depends on the key and the block alone.
#[verifier::external_body]
fn aes256_encrypt_block(key: &[u8; 32], block: &[u8; 16]) -> (r: [u8; 16])
    ensures
        r@ == aes256_encrypt(key@, block@),
{
    let cipher = aes::Aes256::new(&Array::from(*key));
    let mut encrypted = Array::from(*block);
    cipher.encrypt_block(&mut encrypted);
    encrypted.into()
}

/// The big-endian counter `value` plus one, wrapping around.
pub open spec fn increment_spec(value: Seq<u8>) -> Seq<u8>
    decreases value.len(),
{
    if value.len() == 0 {
        value
    } else if value.last() < 255 {
        value.drop_last().push((value.last() + 1) as u8)
    } else {
        increment_spec(value.drop_last()).push(0u8)
    }
}

/// The counter `value` after `n` increments.
pub open spec fn counter_after(value: Seq<u8>, n: nat) -> Seq<u8>
    decreases n,
{
    if n == 0 {
        value
    } else {
        increment_spec(counter_after(value, (n - 1) as nat))
    }
}

/// The first `len` bytes of the CTR keystream: block `i` is the encryption of
/// the counter after `i + 1` increments.
pub open spec fn ctr_stream(key: Seq<u8>, value: Seq<u8>, len: nat) -> Seq<u8> {
    Seq::new(
        len,
        |k: int| aes256_encrypt(key, counter_after(value, (k / 16 + 1) as nat))[k % 16],
    )
}

/// The key and counter after an update of the state `(key, value)` with the
/// optional 48 bytes `provided`.
pub open spec fn drbg_update_spec(key: Seq<u8>, value: Seq<u8>, provided: Option<Seq<u8>>) -> (
    Seq<u8>,
    Seq<u8>,
) {
    let stream = ctr_stream(key, value, 48);
    let temporary = match provided {
        Some(p) => Seq::new(48, |k: int| stream[k] ^ p[k]),
        None => stream,
    };
    (temporary.take(32), temporary.subrange(32, 48))
}

/// The number of keystream blocks that `len` output bytes take.
pub open spec fn drbg_blocks(len: nat) -> nat {
    ((len + 15) / 16) as nat
}

/// `n` zero bytes.
pub open spec fn zero_bytes(n: nat) -> Seq<u8> {
    Seq::new(n, |k: int| 0u8)
}

/// Incrementing a counter whose bytes from `i` on are all `0xff` carries into
/// the first `i` bytes and clears the others.
proof fn lemma_increment_carry(value: Seq<u8>, i: int)
    requires
        0 <= i <= value.len(),
        forall|j: int| i <= j < value.len() ==> value[j] == 255,
    ensures
        increment_spec(value) == increment_spec(value.take(i)) + zero_bytes((value.len() - i) as nat),
    decreases value.len() - i,
{
    if i == value.len() {
        assert(value.take(i) =~= value);
        assert(increment_spec(value) + zero_bytes(0) =~= increment_spec(value));
    } else {
        let prefix = value.drop_last();
        assert(prefix.take(i) =~= value.take(i));
        lemma_increment_carry(prefix, i);
        assert(increment_spec(value.take(i)) + zero_bytes((value.len() - i) as nat) =~= (
        increment_spec(value.take(i)) + zero_bytes((prefix.len() - i) as nat)).push(0u8));
    }
}

/// The state of the AES-256 CTR DRBG that generates the randomness of the
/// known-answer tests.
pub struct KatDrbg {
    key: [u8; 32],
    value: [u8; 16],
}

impl View for KatDrbg {
    type V = (Seq<u8>, Seq<u8>);

    /// The key and the counter.
    closed spec fn view(&self) -> (Seq<u8>, Seq<u8>) {
        (self.key@, self.value@)
    }
}

impl KatDrbg {
    /// The generator instantiated with the 48-byte `seed`: an update of the
    /// all-zero state with the seed.
    pub fn new(seed: &[u8; 48]) -> (r: Self)
        ensures
            r@ == drbg_update_spec(zero_bytes(32), zero_bytes(16), Some(seed@)),
    {
        let mut state = KatDrbg { key: [0u8; 32], value: [0u8; 16] };
        assert(state.key@ =~= zero_bytes(32));
        assert(state.value@ =~= zero_bytes(16));
        state.update(Some(seed));
        state
    }

    fn increment_value(&mut self)
        ensures
            final(self)@ == (old(self)@.0, increment_spec(old(self)@.1)),
    {
        let ghost before = self.value@;
        let mut i: usize = 16;
        while i > 0
            invariant
                i <= 16,
                self.key@ == old(self)@.0,
                before == old(self)@.1,
                forall|j: int| i <= j < 16 ==> #[trigger] before[j] == 255,
                self.value@ == before.take(i as int) + zero_bytes((16 - i) as nat),
            decreases i,
        {
            let byte = self.value[i - 1];
            if byte < 255 {
                self.value[i - 1] = byte + 1;
                proof {
                    lemma_increment_carry(before, i as int);
                    let prefix = before.take(i as int);
                    assert(prefix.drop_last() =~= before.take(i - 1));
                    assert(self.value@ =~= increment_spec(prefix) + zero_bytes((16 - i) as nat));
                }
                return;
            }
            self.value[i - 1] = 0;
            i -= 1;
            proof {
                assert(self.value@ =~= before.take(i as int) + zero_bytes((16 - i) as nat));
            }
        }
        proof {
            lemma_increment_carry(before, 0);
            assert(before.take(0) =~= Seq::<u8>::empty());
        }
    }

    fn update(&mut self, provided: Option<&[u8; 48]>)
        ensures
            final(self)@ == drbg_update_spec(
                old(self)@.0,
                old(self)@.1,
                match provided {
                    Some(p) => Some(p@),
                    None => None,
                },
            ),
    {
        let ghost (key, value) = self@;
        let ghost stream = ctr_stream(key, value, 48);
        let mut temporary = [0u8; 48];
        let mut block: usize = 0;
        while block < 3
            invariant
                block <= 3,
                self.key@ == key,
                self.value@ == counter_after(value, block as nat),
                stream == ctr_stream(key, value, 48),
                forall|k: int| 0 <= k < 16 * block ==> #[trigger] temporary@[k] == stream[k],
            decreases 3 - block,
        {
            self.increment_value();
            let encrypted = aes256_encrypt_block(&self.key, &self.value);
            let mut i: usize = 0;
            while i < 16
                invariant
                    block < 3,
                    i <= 16,
                    self.key@ == key,
                    self.value@ == counter_after(value, (block + 1) as nat),
                    encrypted@ == aes256_encrypt(key, counter_after(value, (block + 1) as nat)),
                    stream == ctr_stream(key, value, 48),
                    forall|k: int| 0 <= k < 16 * block + i ==> #[trigger] temporary@[k] == stream[k],
                decreases 16 - i,
            {
                temporary[16 * block + i] = encrypted[i];
                proof {
                    let k = 16 * block + i;
                    assert(k / 16 == block as int && k % 16 == i as int);
                }
                i += 1;
            }
            block += 1;
        }
        let ghost before_xor = temporary@;
        assert(before_xor =~= stream);
        match provided {
            Some(p) => {
                let mut k: usize = 0;
                while k < 48
                    invariant
                        k <= 48,
                        forall|j: int| 0 <= j < k ==> #[trigger] temporary@[j] == stream[j] ^ p@[j],
                        forall|j: int| k <= j < 48 ==> #[trigger] temporary@[j] == stream[j],
                    decreases 48 - k,
                {
                    temporary[k] = temporary[k] ^ p[k];
                    k += 1;
                }
            },
            None => {},
        }
        let ghost expected = drbg_update_spec(
            key,
            value,
            match provided {
                Some(p) => Some(p@),
                None => None,
            },
        );
        let mut k: usize = 0;
        while k < 32
            invariant
                k <= 32,
                forall|j: int| 0 <= j < k ==> #[trigger] self.key@[j] == temporary@[j],
            decreases 32 - k,
        {
            self.key[k] = temporary[k];
            k += 1;
        }
        let mut k: usize = 0;
        while k < 16
            invariant
                k <= 16,
                forall|j: int| 0 <= j < 32 ==> #[trigger] self.key@[j] == temporary@[j],
                forall|j: int| 0 <= j < k ==> #[trigger] self.value@[j] == temporary@[32 + j],
            decreases 16 - k,
        {
            self.value[k] = temporary[32 + k];
            k += 1;
        }
        assert(self.key@ =~= expected.0);
        assert(self.value@ =~= expected.1);
    }

    /// Fill `output` with the keystream, then update the state without
    /// provided data.
    pub fn generate(&mut self, output: &mut [u8])
        ensures
            final(output)@ == ctr_stream(old(self)@.0, old(self)@.1, old(output)@.len() as nat),
            final(self)@ == drbg_update_spec(
                old(self)@.0,
                counter_after(old(self)@.1, drbg_blocks(old(output)@.len() as nat)),
                None,
            ),
    {
        let ghost (key, value) = self@;
        let len = output.len();
        let ghost stream = ctr_stream(key, value, len as nat);
        let mut start: usize = 0;
        let ghost mut block: nat = 0;
        while start < len
            invariant
                len == output@.len(),
                start <= len,
                start < len ==> start == 16 * block,
                start == len ==> block == drbg_blocks(len as nat),
                start < len ==> block < drbg_blocks(len as nat),
                self.key@ == key,
                self.value@ == counter_after(value, block),
                stream == ctr_stream(key, value, len as nat),
                forall|k: int| 0 <= k < start ==> #[trigger] output@[k] == stream[k],
            decreases len - start,
        {
            self.increment_value();
            let encrypted = aes256_encrypt_block(&self.key, &self.value);
            let take = if len - start < 16 {
                len - start
            } else {
                16
            };
            let mut i: usize = 0;
            while i < take
                invariant
                    take <= 16,
                    start + take <= len,
                    len == output@.len(),
                    start == 16 * block,
                    i <= take,
                    encrypted@ == aes256_encrypt(key, counter_after(value, block + 1)),
                    stream == ctr_stream(key, value, len as nat),
                    forall|k: int| 0 <= k < start + i ==> #[trigger] output@[k] == stream[k],
                decreases take - i,
            {
                output[start + i] = encrypted[i];
                proof {
                    let k = start + i;
                    assert(k / 16 == block && k % 16 == i as int);
                }
                i += 1;
            }
            proof {
                if take < 16 {
                    assert(drbg_blocks(len as nat) == block + 1);
                } else if start + 16 < len {
                    assert(block + 1 < drbg_blocks(len as nat));
                } else {
                    assert(drbg_blocks(len as nat) == block + 1);
                }
                block = block + 1;
            }
            start = start + take;
        }
        proof {
            if len == 0 {
                assert(drbg_blocks(0) == 0);
            }
        }
        assert(output@ =~= stream);
        self.update(None);
    }
}

// ---------------------------------------------------------------------------
// Hexadecimal and decimal fields
// ---------------------------------------------------------------------------

/// A decimal field of a known-answer-test case.
#[derive(Clone, Copy, Debug, PartialEq, Eq, Structural)]
pub enum DecimalField {
    /// `count`.
    Count,
    /// `mlen`.
    MessageLength,
    /// `smlen`.
    SignedMessageLength,
}

/// A field that a known-answer-test case must have.
#[derive(Clone, Copy, Debug, PartialEq, Eq, Structural)]
pub enum KatField {
    /// `mlen`.
    MessageLength,
    /// `msg`.
    Message,
    /// `seed`.
    Seed,
    /// `pk`.
    PublicKey,
    /// `sk`.
    SecretKey,
    /// `smlen`.
    SignedMessageLength,
    /// `sm`.
    SignedMessage,
}

/// An error in a known-answer-test response or in checking one of its cases.
/// Positions are byte offsets into the response.
#[derive(Clone, Copy, Debug, PartialEq, Eq, Structural)]
pub enum KatError {
    /// A hexadecimal value of odd length.
    OddHexLength,
    /// A byte that is not a hexadecimal digit.
    InvalidHexDigit(u8),
    /// A hexadecimal value that decodes to the wrong number of bytes.
    WrongDecodedLength {
        /// The number of bytes required.
        expected: usize,
        /// The number of bytes decoded.
        found: usize,
    },
    /// A line that is neither blank, a comment, nor `name = value`; the
    /// trimmed line spans `start..end`.
    MalformedLine {
        /// Start of the trimmed line.
        start: usize,
        /// End of the trimmed line.
        end: usize,
    },
    /// A decimal field whose value, at `start..end`, does not parse.
    InvalidDecimal {
        /// The field.
        name: DecimalField,
        /// Start of the value.
        start: usize,
        /// End of the value.
        end: usize,
        /// Why it does not parse.
        kind: DecimalError,
    },
    /// A case without `count`.
    MissingCount,
    /// Case `count` lacks `field`.
    MissingField {
        /// The case.
        count: usize,
        /// The missing field.
        field: KatField,
    },
    /// The message, signed message and their lengths of case `0` disagree.
    InconsistentLengths(usize),
    /// The public key of a case has the wrong length.
    PublicKeyEncoding {
        /// The case.
        count: usize,
        /// The length required.
        expected: usize,
        /// The length found.
        actual: usize,
    },
    /// Key generation from the case's seed failed.
    KeyGenerationFailed(usize),
    /// The generated keys differ from those of the case.
    KeyGenerationDiffers(usize),
    /// Signing the case's message failed.
    SigningFailed(usize),
    /// The generated signature differs from that of the case.
    SignatureDiffers {
        /// The case.
        count: usize,
        /// The first byte at which they differ, within both lengths.
        first_difference: Option<usize>,
    },
    /// The signature of a case has the wrong length.
    SignatureEncoding {
        /// The case.
        count: usize,
        /// The length required.
        expected: usize,
        /// The length found.
        actual: usize,
    },
    /// The signature of a case does not verify.
    VerificationFailed(usize),
    /// A mutated encoding of a case has the wrong length.
    MutationEncoding {
        /// The case.
        count: usize,
        /// The length required.
        expected: usize,
        /// The length found.
        actual: usize,
    },
    /// A signature with one flipped bit at `position` verified.
    AcceptedSignatureMutation {
        /// The case.
        count: usize,
        /// The byte whose low bit was flipped.
        position: usize,
    },
    /// The message of a case is empty, so it cannot be mutated.
    EmptyMessage(usize),
    /// The signature verified for a mutated message.
    AcceptedMessageMutation(usize),
    /// The public key of a case is empty, so it cannot be mutated.
    EmptyPublicKey(usize),
    /// The signature verified under a mutated public key.
    AcceptedKeyMutation(usize),
    /// The response does not hold exactly one hundred cases.
    CaseCount(usize),
}

/// The value of a hexadecimal digit, in either case.
pub open spec fn hex_digit_value(byte: u8) -> Option<u8> {
    if 48 <= byte <= 57 {
        Some((byte - 48) as u8)
    } else if 97 <= byte <= 102 {
        Some((byte - 87) as u8)
    } else if 65 <= byte <= 70 {
        Some((byte - 55) as u8)
    } else {
        None
    }
}

/// Whether `byte` is a hexadecimal digit.
pub open spec fn is_hex_digit(byte: u8) -> bool {
    hex_digit_value(byte) is Some
}

/// The bytes that the hexadecimal digits `encoded` spell, high digit first.
pub open spec fn hex_decode_spec(encoded: Seq<u8>) -> Seq<u8> {
    Seq::new(
        encoded.len() / 2,
        |i: int|
            (16 * hex_digit_value(encoded[2 * i])->0 + hex_digit_value(encoded[2 * i + 1])->0) as u8,
    )
}

/// The upper-case hexadecimal digit of a value below 16.
pub open spec fn hex_digit_char(value: u8) -> u8 {
    if value < 10 {
        (48 + value) as u8
    } else {
        (55 + value) as u8
    }
}

/// The upper-case hexadecimal encoding of `bytes`, high digit first.
pub open spec fn hex_encode_spec(bytes: Seq<u8>) -> Seq<u8> {
    Seq::new(
        2 * bytes.len(),
        |k: int|
            if k % 2 == 0 {
                hex_digit_char(bytes[k / 2] / 16)
            } else {
                hex_digit_char(bytes[k / 2] % 16)
            },
    )
}

/// The value of one hexadecimal digit.
pub fn decode_nibble(byte: u8) -> (r: Result<u8, KatError>)
    ensures
        match hex_digit_value(byte) {
            Some(value) => r == Ok::<u8, KatError>(value),
            None => r == Err::<u8, KatError>(KatError::InvalidHexDigit(byte)),
        },
{
    if 48 <= byte && byte <= 57 {
        Ok(byte - 48)
    } else if 97 <= byte && byte <= 102 {
        Ok(byte - 87)
    } else if 65 <= byte && byte <= 70 {
        Ok(byte - 55)
    } else {
        Err(KatError::InvalidHexDigit(byte))
    }
}

/// Decode a hexadecimal value: an error for an odd length, else for the
/// first byte that is not a digit.
pub fn decode_hex(encoded: &[u8]) -> (r: Result<Vec<u8>, KatError>)
    ensures
        encoded@.len() % 2 == 1 ==> r == Err::<Vec<u8>, KatError>(KatError::OddHexLength),
        encoded@.len() % 2 == 0 && (forall|k: int|
            0 <= k < encoded@.len() ==> #[trigger] is_hex_digit(encoded@[k])) ==> (r matches Ok(
            decoded) && decoded@ == hex_decode_spec(encoded@)),
        encoded@.len() % 2 == 0 && !(forall|k: int|
            0 <= k < encoded@.len() ==> #[trigger] is_hex_digit(encoded@[k])) ==> exists|k: int|
            0 <= k < encoded@.len() && !is_hex_digit(#[trigger] encoded@[k]) && (forall|j: int|
                0 <= j < k ==> is_hex_digit(#[trigger] encoded@[j])) && r == Err::<
                Vec<u8>,
                KatError,
            >(KatError::InvalidHexDigit(encoded@[k])),
        match decode_hex_result(encoded@) {
            Ok(decoded) => (r matches Ok(v) && v@ == decoded),
            Err(error) => r == Err::<Vec<u8>, KatError>(error),
        },
{
    if encoded.len() % 2 != 0 {
        return Err(KatError::OddHexLength);
    }
    let mut decoded: Vec<u8> = Vec::new();
    let mut i: usize = 0;
    while i < encoded.len() / 2
        invariant
            encoded@.len() % 2 == 0,
            i <= encoded@.len() / 2,
            decoded@.len() == i,
            forall|j: int| 0 <= j < 2 * i ==> #[trigger] is_hex_digit(encoded@[j]),
            forall|j: int| 0 <= j < i ==> #[trigger] decoded@[j] == hex_decode_spec(encoded@)[j],
        decreases encoded@.len() / 2 - i,
    {
        let high = match decode_nibble(encoded[2 * i]) {
            Ok(value) => value,
            Err(error) => {
                assert(!is_hex_digit(encoded@[2 * i as int]));
                proof {
                    lemma_first_invalid_digit(encoded@, 2 * i as int);
                }
                return Err(error);
            },
        };
        let low = match decode_nibble(encoded[2 * i + 1]) {
            Ok(value) => value,
            Err(error) => {
                assert(!is_hex_digit(encoded@[2 * i + 1]));
                assert(is_hex_digit(encoded@[2 * i as int]));
                proof {
                    lemma_first_invalid_digit(encoded@, 2 * i + 1);
                }
                return Err(error);
            },
        };
        decoded.push(16 * high + low);
        i += 1;
    }
    assert(decoded@ =~= hex_decode_spec(encoded@));
    Ok(decoded)
}

/// Decode a hexadecimal value of exactly `N` bytes.
pub fn decode_fixed_hex<const N: usize>(encoded: &[u8]) -> (r: Result<[u8; N], KatError>)
    ensures
        match decode_hex_result(encoded@) {
            Ok(decoded) => if decoded.len() == N {
                (r matches Ok(value) && value@ == decoded)
            } else {
                r == Err::<[u8; N], KatError>(
                    KatError::WrongDecodedLength { expected: N, found: decoded.len() as usize },
                )
            },
            Err(error) => r == Err::<[u8; N], KatError>(error),
        },
{
    let decoded = match decode_hex(encoded) {
        Ok(decoded) => decoded,
        Err(error) => {
            return Err(error);
        },
    };
    if decoded.len() != N {
        return Err(KatError::WrongDecodedLength { expected: N, found: decoded.len() });
    }
    let mut value = [0u8; N];
    let mut k: usize = 0;
    while k < N
        invariant
            k <= N,
            decoded@.len() == N,
            forall|j: int| 0 <= j < k ==> #[trigger] value@[j] == decoded@[j],
        decreases N - k,
    {
        value[k] = decoded[k];
        k += 1;
    }
    assert(value@ =~= decoded@);
    Ok(value)
}

/// The first byte that is not a hexadecimal digit is the one that
/// [`decode_hex_result`] reports.
proof fn lemma_first_invalid_digit(encoded: Seq<u8>, j: int)
    requires
        encoded.len() % 2 == 0,
        0 <= j < encoded.len(),
        !is_hex_digit(encoded[j]),
        forall|i: int| 0 <= i < j ==> #[trigger] is_hex_digit(encoded[i]),
    ensures
        decode_hex_result(encoded) == Err::<Seq<u8>, KatError>(KatError::InvalidHexDigit(encoded[j])),
{
    assert(!(forall|k: int| 0 <= k < encoded.len() ==> #[trigger] is_hex_digit(encoded[k])));
    let k = choose|k: int|
        0 <= k < encoded.len() && !is_hex_digit(#[trigger] encoded[k]) && (forall|i: int|
            0 <= i < k ==> is_hex_digit(#[trigger] encoded[i]));
    assert(0 <= j < encoded.len() && !is_hex_digit(encoded[j]) && (forall|i: int|
        0 <= i < j ==> is_hex_digit(#[trigger] encoded[i])));
    if k < j {
        assert(is_hex_digit(encoded[k]));
    }
    if j < k {
        assert(is_hex_digit(encoded[j]));
    }
}

/// What [`decode_hex`] gives for `encoded`, as a value: the decoded bytes, or
/// the error for an odd length or for the first non-digit.
pub open spec fn decode_hex_result(encoded: Seq<u8>) -> Result<Seq<u8>, KatError> {
    if encoded.len() % 2 == 1 {
        Err(KatError::OddHexLength)
    } else if forall|k: int| 0 <= k < encoded.len() ==> #[trigger] is_hex_digit(encoded[k]) {
        Ok(hex_decode_spec(encoded))
    } else {
        let k = choose|k: int|
            0 <= k < encoded.len() && !is_hex_digit(#[trigger] encoded[k]) && (forall|j: int|
                0 <= j < k ==> is_hex_digit(#[trigger] encoded[j]));
        Err(KatError::InvalidHexDigit(encoded[k]))
    }
}

/// Append the upper-case hexadecimal encoding of `bytes` to `output`.
pub fn append_hex(output: &mut Vec<u8>, bytes: &[u8])
    ensures
        final(output)@ == old(output)@ + hex_encode_spec(bytes@),
{
    let ghost before = output@;
    let mut i: usize = 0;
    while i < bytes.len()
        invariant
            i <= bytes@.len(),
            output@ == before + hex_encode_spec(bytes@).take(2 * i),
        decreases bytes@.len() - i,
    {
        let byte = bytes[i];
        let high = byte / 16;
        let low = byte % 16;
        output.push(if high < 10 { 48 + high } else { 55 + high });
        output.push(if low < 10 { 48 + low } else { 55 + low });
        proof {
            let k = 2 * i as int;
            assert(k / 2 == i as int && (k + 1) / 2 == i as int && k % 2 == 0 && (k + 1) % 2 == 1);
            assert(hex_encode_spec(bytes@).take(2 * i + 2) =~= hex_encode_spec(bytes@).take(
                2 * i as int,
            ).push(hex_digit_char(byte / 16)).push(hex_digit_char(byte % 16)));
        }
        i += 1;
    }
    assert(hex_encode_spec(bytes@).take(2 * bytes@.len() as int) =~= hex_encode_spec(bytes@));
}

/// Append `name = ` and the hexadecimal encoding of `bytes`, then a line
/// break, to `output`.
pub fn append_hex_line(output: &mut Vec<u8>, name: &[u8], bytes: &[u8])
    ensures
        final(output)@ == old(output)@ + hex_line(name@, bytes@),
{
    let ghost before = output@;
    append_bytes(output, name);
    output.push(32);
    output.push(61);
    output.push(32);
    append_hex(output, bytes);
    output.push(10);
    assert(output@ =~= before + hex_line(name@, bytes@));
}

/// Append `bytes` to `output`.
pub fn append_bytes(output: &mut Vec<u8>, bytes: &[u8])
    ensures
        final(output)@ == old(output)@ + bytes@,
{
    let ghost before = output@;
    let mut i: usize = 0;
    while i < bytes.len()
        invariant
            i <= bytes@.len(),
            output@ == before + bytes@.take(i as int),
        decreases bytes@.len() - i,
    {
        output.push(bytes[i]);
        i += 1;
        assert(bytes@.take(i as int) =~= bytes@.take(i - 1).push(bytes@[i - 1]));
    }
    assert(bytes@.take(bytes@.len() as int) =~= bytes@);
}

/// Decoding the hexadecimal encoding of any bytes gives them back.
pub proof fn lemma_hex_round_trip(bytes: Seq<u8>)
    ensures
        decode_hex_result(hex_encode_spec(bytes)) == Ok::<Seq<u8>, KatError>(bytes),
{
    let encoded = hex_encode_spec(bytes);
    assert forall|k: int| 0 <= k < encoded.len() implies #[trigger] is_hex_digit(encoded[k]) by {
        assert(bytes[k / 2] / 16 < 16 && bytes[k / 2] % 16 < 16);
    }
    assert forall|i: int| 0 <= i < bytes.len() implies hex_decode_spec(encoded)[i] == bytes[i] by {
        assert((2 * i) / 2 == i && (2 * i + 1) / 2 == i && (2 * i) % 2 == 0 && (2 * i + 1) % 2 == 1);
        assert(16 * (bytes[i] / 16) + bytes[i] % 16 == bytes[i]);
    }
    assert(hex_decode_spec(encoded) =~= bytes);
}

/// Why a decimal field does not parse as a `usize`.
#[derive(Clone, Copy, Debug, PartialEq, Eq, Structural)]
pub enum DecimalError {
    /// The field is empty.
    Empty,
    /// A byte is not a decimal digit (after an optional leading `+`).
    InvalidDigit,
    /// The value does not fit a `usize`.
    Overflow,
}

/// The value of the decimal digits `digits`.
pub open spec fn decimal_value(digits: Seq<u8>) -> int
    decreases digits.len(),
{
    if digits.len() == 0 {
        0
    } else {
        10 * decimal_value(digits.drop_last()) + (digits.last() - 48)
    }
}

/// Whether every byte of `bytes` is a decimal digit.
pub open spec fn all_decimal_digits(bytes: Seq<u8>) -> bool {
    forall|k: int| 0 <= k < bytes.len() ==> 48 <= #[trigger] bytes[k] <= 57
}

/// The digits of a decimal field: the field without a leading `+` that is
/// followed by more.
pub open spec fn decimal_digits_of(field: Seq<u8>) -> Seq<u8> {
    if field.len() > 1 && field[0] == 43 {
        field.drop_first()
    } else {
        field
    }
}

/// What a decimal field parses to as a `usize`, as `str::parse` does it.
pub open spec fn parse_decimal_spec(field: Seq<u8>) -> Result<usize, DecimalError> {
    let digits = decimal_digits_of(field);
    if field.len() == 0 {
        Err(DecimalError::Empty)
    } else if !all_decimal_digits(digits) {
        Err(DecimalError::InvalidDigit)
    } else if decimal_value(digits) > usize::MAX {
        Err(DecimalError::Overflow)
    } else {
        Ok(decimal_value(digits) as usize)
    }
}

proof fn lemma_decimal_value_step(digits: Seq<u8>, i: int)
    requires
        0 <= i < digits.len(),
    ensures
        decimal_value(digits.take(i + 1)) == 10 * decimal_value(digits.take(i)) + (digits[i] - 48),
{
    assert(digits.take(i + 1).drop_last() =~= digits.take(i));
}

proof fn lemma_decimal_value_nonnegative(digits: Seq<u8>, i: int)
    requires
        0 <= i <= digits.len(),
        all_decimal_digits(digits),
    ensures
        decimal_value(digits.take(i)) >= 0,
    decreases i,
{
    if i == 0 {
        assert(digits.take(0) =~= Seq::<u8>::empty());
    } else {
        lemma_decimal_value_nonnegative(digits, i - 1);
        lemma_decimal_value_step(digits, i - 1);
    }
}

proof fn lemma_decimal_value_monotone(digits: Seq<u8>, i: int, j: int)
    requires
        0 <= i <= j <= digits.len(),
        all_decimal_digits(digits),
    ensures
        decimal_value(digits.take(i)) <= decimal_value(digits.take(j)),
    decreases j - i,
{
    if i < j {
        lemma_decimal_value_monotone(digits, i, j - 1);
        lemma_decimal_value_step(digits, j - 1);
        lemma_decimal_value_nonnegative(digits, j - 1);
        assert(10 * decimal_value(digits.take(j - 1)) >= decimal_value(digits.take(j - 1)));
    }
}

/// Parse a decimal field as a `usize`, with the rules of `str::parse`.
pub fn parse_decimal(field: &[u8]) -> (r: Result<usize, DecimalError>)
    ensures
        r == parse_decimal_spec(field@),
{
    if field.len() == 0 {
        return Err(DecimalError::Empty);
    }
    let start: usize = if field.len() > 1 && field[0] == 43 {
        1
    } else {
        0
    };
    let ghost digits = decimal_digits_of(field@);
    assert(digits =~= field@.subrange(start as int, field@.len() as int));
    let mut k: usize = start;
    while k < field.len()
        invariant
            start <= k <= field@.len(),
            field@.len() > 0,
            digits == decimal_digits_of(field@),
            digits == field@.subrange(start as int, field@.len() as int),
            forall|j: int| start <= j < k ==> 48 <= #[trigger] field@[j] <= 57,
        decreases field@.len() - k,
    {
        if field[k] < 48 || field[k] > 57 {
            assert(!(48 <= digits[k - start] <= 57));
            assert(!all_decimal_digits(digits));
            return Err(DecimalError::InvalidDigit);
        }
        k += 1;
    }
    assert(all_decimal_digits(digits));
    let mut value: usize = 0;
    let mut k: usize = start;
    while k < field.len()
        invariant
            start <= k <= field@.len(),
            field@.len() > 0,
            digits == decimal_digits_of(field@),
            digits == field@.subrange(start as int, field@.len() as int),
            all_decimal_digits(digits),
            value == decimal_value(digits.take(k - start)),
        decreases field@.len() - k,
    {
        proof {
            lemma_decimal_value_step(digits, k - start);
        }
        let digit = (field[k] - 48) as usize;
        let scaled = match value.checked_mul(10) {
            Some(scaled) => scaled,
            None => {
                proof {
                    lemma_decimal_value_nonnegative(digits, k - start);
                    assert(decimal_value(digits.take(k - start + 1)) > usize::MAX);
                    lemma_decimal_value_monotone(digits, k - start + 1, digits.len() as int);
                    assert(digits.take(digits.len() as int) =~= digits);
                }
                return Err(DecimalError::Overflow);
            },
        };
        value = match scaled.checked_add(digit) {
            Some(next) => next,
            None => {
                proof {
                    assert(decimal_value(digits.take(k - start + 1)) > usize::MAX);
                    lemma_decimal_value_monotone(digits, k - start + 1, digits.len() as int);
                    assert(digits.take(digits.len() as int) =~= digits);
                }
                return Err(DecimalError::Overflow);
            },
        };
        k += 1;
    }
    assert(digits.take(digits.len() as int) =~= digits);
    Ok(value)
}

// ---------------------------------------------------------------------------
// Lines of a response
// ---------------------------------------------------------------------------

/// The position of the first line feed at or after `from`, or the length of
/// `s` when there is none.
pub open spec fn newline_position(s: Seq<u8>, from: int) -> int
    decreases s.len() - from,
{
    if from >= s.len() {
        s.len() as int
    } else if s[from] == 10 {
        from
    } else {
        newline_position(s, from + 1)
    }
}

/// The line that starts at `from`, as a range, and where the next line
/// starts: a line ends before a line feed, and before a carriage return that
/// precedes it; the last line may lack the line feed and then keeps a
/// carriage return.
pub open spec fn line_at(s: Seq<u8>, from: int) -> ((int, int), int) {
    let e = newline_position(s, from);
    if e < s.len() {
        if e > from && s[e - 1] == 13 {
            ((from, e - 1), e + 1)
        } else {
            ((from, e), e + 1)
        }
    } else {
        ((from, s.len() as int), s.len() as int)
    }
}

/// The ranges of the lines of `s` from `from` on, as `str::lines` splits them.
pub open spec fn line_ranges(s: Seq<u8>, from: int) -> Seq<(int, int)>
    decreases s.len() - from,
{
    if from < 0 || from >= s.len() {
        Seq::empty()
    } else {
        let (range, next) = line_at(s, from);
        if next <= from {
            Seq::empty()
        } else {
            seq![range] + line_ranges(s, next)
        }
    }
}

proof fn lemma_newline_position(s: Seq<u8>, from: int)
    requires
        0 <= from <= s.len(),
    ensures
        from <= newline_position(s, from) <= s.len(),
        newline_position(s, from) < s.len() ==> s[newline_position(s, from)] == 10,
        forall|k: int| from <= k < newline_position(s, from) ==> s[k] != 10,
    decreases s.len() - from,
{
    if from < s.len() && s[from] != 10 {
        lemma_newline_position(s, from + 1);
    }
}

/// Whether three bytes encode a Unicode white-space character of three bytes
/// in UTF-8.
pub open spec fn is_wide_space(x: u8, y: u8, z: u8) -> bool {
    ||| (x == 0xe1 && y == 0x9a && z == 0x80)
    ||| (x == 0xe2 && y == 0x80 && ((0x80 <= z <= 0x8a) || z == 0xa8 || z == 0xa9 || z == 0xaf))
    ||| (x == 0xe2 && y == 0x81 && z == 0x9f)
    ||| (x == 0xe3 && y == 0x80 && z == 0x80)
}

/// Whether a byte is an ASCII white-space character.
pub open spec fn is_ascii_space(x: u8) -> bool {
    (9 <= x <= 13) || x == 32
}

/// The length of the UTF-8 encoding of a Unicode white-space character at
/// the start of `s[a..b]`, or zero.
pub open spec fn space_at_start(s: Seq<u8>, a: int, b: int) -> int {
    if a < b && is_ascii_space(s[a]) {
        1
    } else if a + 1 < b && s[a] == 0xc2 && (s[a + 1] == 0x85 || s[a + 1] == 0xa0) {
        2
    } else if a + 2 < b && is_wide_space(s[a], s[a + 1], s[a + 2]) {
        3
    } else {
        0
    }
}

/// The length of the UTF-8 encoding of a Unicode white-space character at
/// the end of `s[a..b]`, or zero.
pub open spec fn space_at_end(s: Seq<u8>, a: int, b: int) -> int {
    if a < b && is_ascii_space(s[b - 1]) {
        1
    } else if a + 1 < b && s[b - 2] == 0xc2 && (s[b - 1] == 0x85 || s[b - 1] == 0xa0) {
        2
    } else if a + 2 < b && is_wide_space(s[b - 3], s[b - 2], s[b - 1]) {
        3
    } else {
        0
    }
}

/// The start of `s[a..b]` without its leading white space.
pub open spec fn trim_start(s: Seq<u8>, a: int, b: int) -> int
    decreases b - a,
{
    if a < b && space_at_start(s, a, b) > 0 {
        trim_start(s, a + space_at_start(s, a, b), b)
    } else {
        a
    }
}

/// The end of `s[a..b]` without its trailing white space.
pub open spec fn trim_end(s: Seq<u8>, a: int, b: int) -> int
    decreases b - a,
{
    if a < b && space_at_end(s, a, b) > 0 {
        trim_end(s, a, b - space_at_end(s, a, b))
    } else {
        b
    }
}

/// The range of `s[a..b]` without white space at either end, as `str::trim`
/// takes it on UTF-8 text.
pub open spec fn trimmed(s: Seq<u8>, a: int, b: int) -> (int, int) {
    let start = trim_start(s, a, b);
    (start, trim_end(s, start, b))
}

proof fn lemma_trim_bounds(s: Seq<u8>, a: int, b: int)
    requires
        0 <= a <= b <= s.len(),
    ensures
        a <= trim_start(s, a, b) <= b,
        a <= trim_end(s, a, b) <= b,
    decreases b - a,
{
    if a < b && space_at_start(s, a, b) > 0 {
        lemma_trim_bounds(s, a + space_at_start(s, a, b), b);
    }
    if a < b && space_at_end(s, a, b) > 0 {
        lemma_trim_bounds(s, a, b - space_at_end(s, a, b));
    }
}

/// The position of the first ` = ` in `s[a..b]`, or `b` when there is none.
pub open spec fn separator_position(s: Seq<u8>, a: int, b: int) -> int
    decreases b - a,
{
    if a + 3 > b {
        b
    } else if s[a] == 32 && s[a + 1] == 61 && s[a + 2] == 32 {
        a
    } else {
        separator_position(s, a + 1, b)
    }
}

proof fn lemma_separator_bounds(s: Seq<u8>, a: int, b: int)
    requires
        0 <= a <= b <= s.len(),
    ensures
        a <= separator_position(s, a, b) <= b,
        separator_position(s, a, b) < b ==> separator_position(s, a, b) + 3 <= b,
    decreases b - a,
{
    if a + 3 <= b && !(s[a] == 32 && s[a + 1] == 61 && s[a + 2] == 32) {
        lemma_separator_bounds(s, a + 1, b);
    }
}

fn find_newline(s: &[u8], from: usize) -> (r: usize)
    requires
        from <= s@.len(),
    ensures
        r == newline_position(s@, from as int),
{
    let mut k = from;
    while k < s.len() && s[k] != 10
        invariant
            from <= k <= s@.len(),
            newline_position(s@, k as int) == newline_position(s@, from as int),
        decreases s@.len() - k,
    {
        k += 1;
    }
    k
}

fn space_length_at_start(s: &[u8], a: usize, b: usize) -> (r: usize)
    requires
        a <= b <= s@.len(),
    ensures
        r == space_at_start(s@, a as int, b as int),
{
    if a < b && ((9 <= s[a] && s[a] <= 13) || s[a] == 32) {
        1
    } else if b - a > 1 && s[a] == 0xc2 && (s[a + 1] == 0x85 || s[a + 1] == 0xa0) {
        2
    } else if b - a > 2 && wide_space(s[a], s[a + 1], s[a + 2]) {
        3
    } else {
        0
    }
}

fn space_length_at_end(s: &[u8], a: usize, b: usize) -> (r: usize)
    requires
        a <= b <= s@.len(),
    ensures
        r == space_at_end(s@, a as int, b as int),
{
    if a < b && ((9 <= s[b - 1] && s[b - 1] <= 13) || s[b - 1] == 32) {
        1
    } else if b - a > 1 && s[b - 2] == 0xc2 && (s[b - 1] == 0x85 || s[b - 1] == 0xa0) {
        2
    } else if b - a > 2 && wide_space(s[b - 3], s[b - 2], s[b - 1]) {
        3
    } else {
        0
    }
}

fn wide_space(x: u8, y: u8, z: u8) -> (r: bool)
    ensures
        r == is_wide_space(x, y, z),
{
    (x == 0xe1 && y == 0x9a && z == 0x80) || (x == 0xe2 && y == 0x80 && ((0x80 <= z && z <= 0x8a)
        || z == 0xa8 || z == 0xa9 || z == 0xaf)) || (x == 0xe2 && y == 0x81 && z == 0x9f) || (x
        == 0xe3 && y == 0x80 && z == 0x80)
}

/// The range of `s[a..b]` without white space at either end.
pub fn trim_range(s: &[u8], a: usize, b: usize) -> (r: (usize, usize))
    requires
        a <= b <= s@.len(),
    ensures
        (r.0 as int, r.1 as int) == trimmed(s@, a as int, b as int),
        a <= r.0 <= r.1 <= b,
{
    let mut start = a;
    while start < b && space_length_at_start(s, start, b) > 0
        invariant
            a <= start <= b <= s@.len(),
            trim_start(s@, start as int, b as int) == trim_start(s@, a as int, b as int),
        decreases b - start,
    {
        start = start + space_length_at_start(s, start, b);
    }
    let mut end = b;
    while start < end && space_length_at_end(s, start, end) > 0
        invariant
            start <= end <= b <= s@.len(),
            trim_end(s@, start as int, end as int) == trim_end(s@, start as int, b as int),
        decreases end - start,
    {
        end = end - space_length_at_end(s, start, end);
    }
    (start, end)
}

fn find_separator(s: &[u8], a: usize, b: usize) -> (r: usize)
    requires
        a <= b <= s@.len(),
    ensures
        r == separator_position(s@, a as int, b as int),
{
    let mut k = a;
    while b - k >= 3 && !(s[k] == 32 && s[k + 1] == 61 && s[k + 2] == 32)
        invariant
            a <= k <= b <= s@.len(),
            separator_position(s@, k as int, b as int) == separator_position(s@, a as int, b as int),
        decreases b - k,
    {
        k += 1;
    }
    if b - k < 3 {
        b
    } else {
        k
    }
}

// ---------------------------------------------------------------------------
// Cases of a response
// ---------------------------------------------------------------------------

/// The fields of one known-answer-test case, as read from a response.
pub struct KatCase {
    /// `count`.
    pub count: Option<usize>,
    /// `seed`, hexadecimal.
    pub seed: Option<Vec<u8>>,
    /// `mlen`.
    pub message_len: Option<usize>,
    /// `msg`, hexadecimal.
    pub message: Option<Vec<u8>>,
    /// `pk`, hexadecimal.
    pub public_key: Option<Vec<u8>>,
    /// `sk`, hexadecimal.
    pub secret_key: Option<Vec<u8>>,
    /// `smlen`.
    pub signed_message_len: Option<usize>,
    /// `sm`, hexadecimal.
    pub signed_message: Option<Vec<u8>>,
}

/// The fields of a case as values.
pub struct KatCaseView {
    /// `count`.
    pub count: Option<usize>,
    /// `seed`.
    pub seed: Option<Seq<u8>>,
    /// `mlen`.
    pub message_len: Option<usize>,
    /// `msg`.
    pub message: Option<Seq<u8>>,
    /// `pk`.
    pub public_key: Option<Seq<u8>>,
    /// `sk`.
    pub secret_key: Option<Seq<u8>>,
    /// `smlen`.
    pub signed_message_len: Option<usize>,
    /// `sm`.
    pub signed_message: Option<Seq<u8>>,
}

/// The bytes of an optional field.
pub open spec fn bytes_view(field: Option<Vec<u8>>) -> Option<Seq<u8>> {
    match field {
        Some(v) => Some(v@),
        None => None,
    }
}

impl View for KatCase {
    type V = KatCaseView;

    open spec fn view(&self) -> KatCaseView {
        KatCaseView {
            count: self.count,
            seed: bytes_view(self.seed),
            message_len: self.message_len,
            message: bytes_view(self.message),
            public_key: bytes_view(self.public_key),
            secret_key: bytes_view(self.secret_key),
            signed_message_len: self.signed_message_len,
            signed_message: bytes_view(self.signed_message),
        }
    }
}

/// A case with no field.
pub open spec fn empty_case() -> KatCaseView {
    KatCaseView {
        count: None,
        seed: None,
        message_len: None,
        message: None,
        public_key: None,
        secret_key: None,
        signed_message_len: None,
        signed_message: None,
    }
}

/// The field name `count`.
pub open spec fn count_name() -> Seq<u8> {
    seq![99u8, 111u8, 117u8, 110u8, 116u8]
}

/// The field name `seed`.
pub open spec fn seed_name() -> Seq<u8> {
    seq![115u8, 101u8, 101u8, 100u8]
}

/// The field name `mlen`.
pub open spec fn mlen_name() -> Seq<u8> {
    seq![109u8, 108u8, 101u8, 110u8]
}

/// The field name `msg`.
pub open spec fn msg_name() -> Seq<u8> {
    seq![109u8, 115u8, 103u8]
}

/// The field name `pk`.
pub open spec fn pk_name() -> Seq<u8> {
    seq![112u8, 107u8]
}

/// The field name `sk`.
pub open spec fn sk_name() -> Seq<u8> {
    seq![115u8, 107u8]
}

/// The field name `smlen`.
pub open spec fn smlen_name() -> Seq<u8> {
    seq![115u8, 109u8, 108u8, 101u8, 110u8]
}

/// The field name `sm`.
pub open spec fn sm_name() -> Seq<u8> {
    seq![115u8, 109u8]
}

/// The case after its field `name = value`, with the value at `s[a..b]`:
/// a known field is set (decimal ones parsed), any other is ignored.
pub open spec fn apply_field(case: KatCaseView, name: Seq<u8>, s: Seq<u8>, a: int, b: int) -> Result<
    KatCaseView,
    KatError,
> {
    let value = s.subrange(a, b);
    if name == count_name() {
        match parse_decimal_spec(value) {
            Ok(n) => Ok(KatCaseView { count: Some(n), ..case }),
            Err(kind) => Err(
                KatError::InvalidDecimal {
                    name: DecimalField::Count,
                    start: a as usize,
                    end: b as usize,
                    kind,
                },
            ),
        }
    } else if name == seed_name() {
        Ok(KatCaseView { seed: Some(value), ..case })
    } else if name == mlen_name() {
        match parse_decimal_spec(value) {
            Ok(n) => Ok(KatCaseView { message_len: Some(n), ..case }),
            Err(kind) => Err(
                KatError::InvalidDecimal {
                    name: DecimalField::MessageLength,
                    start: a as usize,
                    end: b as usize,
                    kind,
                },
            ),
        }
    } else if name == msg_name() {
        Ok(KatCaseView { message: Some(value), ..case })
    } else if name == pk_name() {
        Ok(KatCaseView { public_key: Some(value), ..case })
    } else if name == sk_name() {
        Ok(KatCaseView { secret_key: Some(value), ..case })
    } else if name == smlen_name() {
        match parse_decimal_spec(value) {
            Ok(n) => Ok(KatCaseView { signed_message_len: Some(n), ..case }),
            Err(kind) => Err(
                KatError::InvalidDecimal {
                    name: DecimalField::SignedMessageLength,
                    start: a as usize,
                    end: b as usize,
                    kind,
                },
            ),
        }
    } else if name == sm_name() {
        Ok(KatCaseView { signed_message: Some(value), ..case })
    } else {
        Ok(case)
    }
}

/// The state of reading a response: the completed cases, the case being
/// read, and the first error.
pub struct ParseState {
    /// The completed cases.
    pub cases: Seq<KatCaseView>,
    /// The case being read.
    pub current: KatCaseView,
    /// The first error.
    pub error: Option<KatError>,
}

/// The state after the line `s[line.0..line.1]`: after an error nothing
/// changes; a blank line completes a case that has a count; a comment is
/// skipped; any other line must read `name = value`.
pub open spec fn parse_line(state: ParseState, s: Seq<u8>, line: (int, int)) -> ParseState {
    if state.error is Some {
        state
    } else {
        let (a, b) = trimmed(s, line.0, line.1);
        if a == b {
            if state.current.count is Some {
                ParseState { cases: state.cases.push(state.current), current: empty_case(), error: None }
            } else {
                state
            }
        } else if s[a] == 35 {
            state
        } else {
            let separator = separator_position(s, a, b);
            if separator == b {
                ParseState {
                    error: Some(KatError::MalformedLine { start: a as usize, end: b as usize }),
                    ..state
                }
            } else {
                match apply_field(state.current, s.subrange(a, separator), s, separator + 3, b) {
                    Ok(case) => ParseState { current: case, ..state },
                    Err(error) => ParseState { error: Some(error), ..state },
                }
            }
        }
    }
}

/// The state after the lines `lines` of `s`.
pub open spec fn parse_lines(s: Seq<u8>, lines: Seq<(int, int)>) -> ParseState
    decreases lines.len(),
{
    if lines.len() == 0 {
        ParseState { cases: Seq::empty(), current: empty_case(), error: None }
    } else {
        parse_line(parse_lines(s, lines.drop_last()), s, lines.last())
    }
}

/// The cases of a response and its first error: its lines, then one more
/// blank line.
pub open spec fn parse_response_spec(s: Seq<u8>) -> ParseState {
    parse_line(parse_lines(s, line_ranges(s, 0)), s, (s.len() as int, s.len() as int))
}

proof fn lemma_parse_error_sticks(s: Seq<u8>, done: Seq<(int, int)>, rest: Seq<(int, int)>)
    requires
        parse_lines(s, done).error is Some,
    ensures
        parse_lines(s, done + rest) == parse_lines(s, done),
    decreases rest.len(),
{
    if rest.len() > 0 {
        lemma_parse_error_sticks(s, done, rest.drop_last());
        assert((done + rest).drop_last() =~= done + rest.drop_last());
    } else {
        assert(done + rest =~= done);
    }
}

proof fn lemma_line_ranges_step(s: Seq<u8>, from: int)
    requires
        0 <= from < s.len(),
    ensures
        from < line_at(s, from).1 <= s.len(),
        line_ranges(s, from) == seq![line_at(s, from).0] + line_ranges(s, line_at(s, from).1),
        from <= line_at(s, from).0.0 <= line_at(s, from).0.1 <= s.len(),
{
    lemma_newline_position(s, from);
}

fn copy_range(s: &[u8], a: usize, b: usize) -> (r: Vec<u8>)
    requires
        a <= b <= s@.len(),
    ensures
        r@ == s@.subrange(a as int, b as int),
{
    let mut r: Vec<u8> = Vec::new();
    let mut k = a;
    while k < b
        invariant
            a <= k <= b <= s@.len(),
            r@ == s@.subrange(a as int, k as int),
        decreases b - k,
    {
        r.push(s[k]);
        k += 1;
        assert(r@ =~= s@.subrange(a as int, k as int));
    }
    r
}

fn range_equals(s: &[u8], a: usize, b: usize, name: &[u8]) -> (r: bool)
    requires
        a <= b <= s@.len(),
    ensures
        r == (s@.subrange(a as int, b as int) == name@),
{
    if b - a != name.len() {
        return false;
    }
    let mut k: usize = 0;
    while k < name.len()
        invariant
            b - a == name@.len(),
            a <= b <= s@.len(),
            k <= name@.len(),
            forall|j: int| 0 <= j < k ==> s@[a + j] == name@[j],
        decreases name@.len() - k,
    {
        if s[a + k] != name[k] {
            assert(s@.subrange(a as int, b as int)[k as int] != name@[k as int]);
            return false;
        }
        k += 1;
    }
    assert(s@.subrange(a as int, b as int) =~= name@);
    true
}

fn decimal_field(s: &[u8], a: usize, b: usize, name: DecimalField) -> (r: Result<usize, KatError>)
    requires
        a <= b <= s@.len(),
    ensures
        match parse_decimal_spec(s@.subrange(a as int, b as int)) {
            Ok(n) => r == Ok::<usize, KatError>(n),
            Err(kind) => r == Err::<usize, KatError>(
                KatError::InvalidDecimal { name, start: a, end: b, kind },
            ),
        },
{
    let value = copy_range(s, a, b);
    match parse_decimal(value.as_slice()) {
        Ok(n) => Ok(n),
        Err(kind) => Err(KatError::InvalidDecimal { name, start: a, end: b, kind }),
    }
}

fn apply_field_exec(case: &mut KatCase, s: &[u8], name_start: usize, name_end: usize, a: usize, b: usize) -> (r: Option<KatError>)
    requires
        name_start <= name_end <= s@.len(),
        a <= b <= s@.len(),
    ensures
        match apply_field(old(case)@, s@.subrange(name_start as int, name_end as int), s@, a as int, b as int) {
            Ok(next) => r is None && final(case)@ == next,
            Err(error) => r == Some(error),
        },
{
    let count_bytes: [u8; 5] = [99, 111, 117, 110, 116];
    let seed_bytes: [u8; 4] = [115, 101, 101, 100];
    let mlen_bytes: [u8; 4] = [109, 108, 101, 110];
    let msg_bytes: [u8; 3] = [109, 115, 103];
    let pk_bytes: [u8; 2] = [112, 107];
    let sk_bytes: [u8; 2] = [115, 107];
    let smlen_bytes: [u8; 5] = [115, 109, 108, 101, 110];
    let sm_bytes: [u8; 2] = [115, 109];
    proof {
        assert(count_bytes@ =~= count_name());
        assert(seed_bytes@ =~= seed_name());
        assert(mlen_bytes@ =~= mlen_name());
        assert(msg_bytes@ =~= msg_name());
        assert(pk_bytes@ =~= pk_name());
        assert(sk_bytes@ =~= sk_name());
        assert(smlen_bytes@ =~= smlen_name());
        assert(sm_bytes@ =~= sm_name());
    }
    if range_equals(s, name_start, name_end, &count_bytes) {
        match decimal_field(s, a, b, DecimalField::Count) {
            Ok(n) => case.count = Some(n),
            Err(error) => {
                return Some(error);
            },
        }
    } else if range_equals(s, name_start, name_end, &seed_bytes) {
        case.seed = Some(copy_range(s, a, b));
    } else if range_equals(s, name_start, name_end, &mlen_bytes) {
        match decimal_field(s, a, b, DecimalField::MessageLength) {
            Ok(n) => case.message_len = Some(n),
            Err(error) => {
                return Some(error);
            },
        }
    } else if range_equals(s, name_start, name_end, &msg_bytes) {
        case.message = Some(copy_range(s, a, b));
    } else if range_equals(s, name_start, name_end, &pk_bytes) {
        case.public_key = Some(copy_range(s, a, b));
    } else if range_equals(s, name_start, name_end, &sk_bytes) {
        case.secret_key = Some(copy_range(s, a, b));
    } else if range_equals(s, name_start, name_end, &smlen_bytes) {
        match decimal_field(s, a, b, DecimalField::SignedMessageLength) {
            Ok(n) => case.signed_message_len = Some(n),
            Err(error) => {
                return Some(error);
            },
        }
    } else if range_equals(s, name_start, name_end, &sm_bytes) {
        case.signed_message = Some(copy_range(s, a, b));
    }
    None
}

fn empty_kat_case() -> (r: KatCase)
    ensures
        r@ == empty_case(),
{
    KatCase {
        count: None,
        seed: None,
        message_len: None,
        message: None,
        public_key: None,
        secret_key: None,
        signed_message_len: None,
        signed_message: None,
    }
}

/// The views of a sequence of cases.
pub open spec fn case_views(cases: Seq<KatCase>) -> Seq<KatCaseView> {
    cases.map_values(|c: KatCase| c@)
}

fn parse_line_exec(
    cases: &mut Vec<KatCase>,
    current: &mut KatCase,
    s: &[u8],
    line_start: usize,
    line_end: usize,
) -> (r: Option<KatError>)
    requires
        line_start <= line_end <= s@.len(),
    ensures
        ({
            let next = parse_line(
                ParseState { cases: case_views(old(cases)@), current: old(current)@, error: None },
                s@,
                (line_start as int, line_end as int),
            );
            &&& r == next.error
            &&& r is None ==> case_views(final(cases)@) == next.cases && final(current)@ == next.current
            &&& r is Some ==> final(cases)@ == old(cases)@
        }),
{
    let (a, b) = trim_range(s, line_start, line_end);
    if a == b {
        if current.count.is_some() {
            let mut completed = empty_kat_case();
            core::mem::swap(&mut completed, current);
            let ghost before = case_views(cases@);
            cases.push(completed);
            assert(case_views(cases@) =~= before.push(completed@));
        }
        return None;
    }
    if s[a] == 35 {
        return None;
    }
    let separator = find_separator(s, a, b);
    proof {
        lemma_separator_bounds(s@, a as int, b as int);
    }
    if separator == b {
        return Some(KatError::MalformedLine { start: a, end: b });
    }
    apply_field_exec(current, s, a, separator, separator + 3, b)
}

/// Read the cases of a response: its lines, split as `str::lines` splits
/// them and trimmed, then one more blank line. Returns the completed cases
/// and the first error, before which they were completed.
pub fn parse_response(contents: &[u8]) -> (r: (Vec<KatCase>, Option<KatError>))
    ensures
        case_views(r.0@) == parse_response_spec(contents@).cases,
        r.1 == parse_response_spec(contents@).error,
{
    let ghost s = contents@;
    let mut cases: Vec<KatCase> = Vec::new();
    let mut current = empty_kat_case();
    let mut position: usize = 0;
    let ghost mut done: Seq<(int, int)> = Seq::empty();
    assert(case_views(cases@) =~= Seq::<KatCaseView>::empty());
    while position < contents.len()
        invariant
            s == contents@,
            position <= s.len(),
            line_ranges(s, 0) == done + line_ranges(s, position as int),
            parse_lines(s, done).error is None,
            case_views(cases@) == parse_lines(s, done).cases,
            current@ == parse_lines(s, done).current,
        decreases s.len() - position,
    {
        proof {
            lemma_line_ranges_step(s, position as int);
        }
        let end = find_newline(contents, position);
        let (line_start, line_end, next) = if end < contents.len() {
            if end > position && contents[end - 1] == 13 {
                (position, end - 1, end + 1)
            } else {
                (position, end, end + 1)
            }
        } else {
            (position, contents.len(), contents.len())
        };
        let ghost line = (line_start as int, line_end as int);
        assert(line == line_at(s, position as int).0);
        assert(next as int == line_at(s, position as int).1);
        let ghost previous = done;
        proof {
            done = done.push(line);
            assert(done.drop_last() =~= previous);
            assert(line_ranges(s, 0) =~= done + line_ranges(s, next as int));
        }
        let error = parse_line_exec(&mut cases, &mut current, contents, line_start, line_end);
        match error {
            Some(error) => {
                proof {
                    lemma_parse_error_sticks(s, done, line_ranges(s, next as int));
                }
                return (cases, Some(error));
            },
            None => {},
        }
        position = next;
    }
    proof {
        assert(line_ranges(s, position as int) =~= Seq::<(int, int)>::empty());
        assert(done + Seq::<(int, int)>::empty() =~= done);
    }
    let error = parse_line_exec(&mut cases, &mut current, contents, contents.len(), contents.len());
    (cases, error)
}

// ---------------------------------------------------------------------------
// Checking the cases of a response
// ---------------------------------------------------------------------------

/// `len` bytes of the DRBG in state `state`, and the state after.
pub open spec fn drbg_generate_spec(state: (Seq<u8>, Seq<u8>), len: nat) -> (
    Seq<u8>,
    (Seq<u8>, Seq<u8>),
) {
    (
        ctr_stream(state.0, state.1, len),
        drbg_update_spec(state.0, counter_after(state.1, drbg_blocks(len)), None),
    )
}

/// The randomness that a case's seed gives, in the order the signer draws
/// it: the key-generation seed, then the master seed and the salt of the
/// signature.
pub open spec fn kat_randomness(seed: Seq<u8>) -> (Seq<u8>, Seq<u8>, Seq<u8>) {
    let initial = drbg_update_spec(zero_bytes(32), zero_bytes(16), Some(seed));
    let (keygen_seed, after_keygen) = drbg_generate_spec(initial, 32);
    let (master_seed, after_master_seed) = drbg_generate_spec(after_keygen, 16);
    let (salt, _) = drbg_generate_spec(after_master_seed, 16);
    (keygen_seed, master_seed, salt)
}

/// The decimal text of `n`, without leading zeros.
pub open spec fn decimal_text(n: nat) -> Seq<u8>
    decreases n,
{
    if n < 10 {
        seq![(48 + n) as u8]
    } else {
        decimal_text(n / 10).push((48 + n % 10) as u8)
    }
}

/// Append the decimal text of `value` to `output`.
pub fn append_decimal(output: &mut Vec<u8>, value: usize)
    ensures
        final(output)@ == old(output)@ + decimal_text(value as nat),
    decreases value,
{
    let ghost before = output@;
    if value >= 10 {
        append_decimal(output, value / 10);
    }
    output.push(48 + (value % 10) as u8);
    assert(output@ =~= before + decimal_text(value as nat));
}

/// ` = `.
pub open spec fn separator_text() -> Seq<u8> {
    seq![32u8, 61u8, 32u8]
}

/// `name = ` and the hexadecimal encoding of `bytes`, then a line break.
pub open spec fn hex_line(name: Seq<u8>, bytes: Seq<u8>) -> Seq<u8> {
    name + separator_text() + hex_encode_spec(bytes) + seq![10u8]
}

/// `name = ` and the decimal text of `n`, then a line break.
pub open spec fn decimal_line(name: Seq<u8>, n: nat) -> Seq<u8> {
    name + separator_text() + decimal_text(n) + seq![10u8]
}

/// The response text of a reproduced case.
pub open spec fn case_response(
    count: nat,
    seed: Seq<u8>,
    message: Seq<u8>,
    public_key: Seq<u8>,
    secret_key: Seq<u8>,
    signature: Seq<u8>,
) -> Seq<u8> {
    decimal_line(count_name(), count) + hex_line(seed_name(), seed) + decimal_line(
        mlen_name(),
        message.len(),
    ) + hex_line(msg_name(), message) + hex_line(pk_name(), public_key) + hex_line(
        sk_name(),
        secret_key,
    ) + decimal_line(smlen_name(), message.len() + signature.len()) + sm_name() + separator_text()
        + hex_encode_spec(message) + hex_encode_spec(signature) + seq![10u8, 10u8]
}

/// The header of a response.
pub open spec fn response_header() -> Seq<u8> {
    seq![
        35u8, 32u8, 77u8, 81u8, 79u8, 77u8, 50u8, 45u8, 76u8, 49u8, 45u8, 103u8, 102u8, 49u8,
        54u8, 45u8, 115u8, 104u8, 111u8, 114u8, 116u8, 45u8, 114u8, 53u8, 10u8, 10u8,
    ]
}

/// The decoded inputs of a case: its count, message, seed, public key,
/// secret key and detached signature; an error for a missing field, a bad
/// encoding, or inconsistent lengths.
#[verifier::opaque]
pub open spec fn case_inputs(case: KatCaseView) -> Result<
    (usize, Seq<u8>, Seq<u8>, Seq<u8>, Seq<u8>, Seq<u8>),
    KatError,
> {
    match case.count {
        None => Err(KatError::MissingCount),
        Some(count) => match case.message_len {
            None => Err(KatError::MissingField { count, field: KatField::MessageLength }),
            Some(message_len) => match case.message {
                None => Err(KatError::MissingField { count, field: KatField::Message }),
                Some(message_hex) => match decode_hex_result(message_hex) {
                    Err(error) => Err(error),
                    Ok(message) => match case.seed {
                        None => Err(KatError::MissingField { count, field: KatField::Seed }),
                        Some(seed_hex) => match decode_hex_result(seed_hex) {
                            Err(error) => Err(error),
                            Ok(seed) => if seed.len() != 48 {
                                Err(
                                    KatError::WrongDecodedLength {
                                        expected: 48,
                                        found: seed.len() as usize,
                                    },
                                )
                            } else {
                                match case.public_key {
                                    None => Err(
                                        KatError::MissingField { count, field: KatField::PublicKey },
                                    ),
                                    Some(public_key_hex) => match decode_hex_result(public_key_hex) {
                                        Err(error) => Err(error),
                                        Ok(public_key) => match case.secret_key {
                                            None => Err(
                                                KatError::MissingField {
                                                    count,
                                                    field: KatField::SecretKey,
                                                },
                                            ),
                                            Some(secret_key_hex) => match decode_hex_result(
                                                secret_key_hex,
                                            ) {
                                                Err(error) => Err(error),
                                                Ok(secret_key) => match case.signed_message_len {
                                                    None => Err(
                                                        KatError::MissingField {
                                                            count,
                                                            field: KatField::SignedMessageLength,
                                                        },
                                                    ),
                                                    Some(signed_message_len) => match case.signed_message {
                                                        None => Err(
                                                            KatError::MissingField {
                                                                count,
                                                                field: KatField::SignedMessage,
                                                            },
                                                        ),
                                                        Some(signed_message_hex) => match decode_hex_result(
                                                            signed_message_hex,
                                                        ) {
                                                            Err(error) => Err(error),
                                                            Ok(signed_message) => if message.len()
                                                                != message_len
                                                                || signed_message.len()
                                                                != signed_message_len || !(
                                                            message_len <= signed_message.len()
                                                                && signed_message.take(
                                                                message_len as int,
                                                            ) == message) {
                                                                Err(KatError::InconsistentLengths(count))
                                                            } else {
                                                                Ok(
                                                                    (
                                                                        count,
                                                                        message,
                                                                        seed,
                                                                        public_key,
                                                                        secret_key,
                                                                        signed_message.skip(
                                                                            message_len as int,
                                                                        ),
                                                                    ),
                                                                )
                                                            },
                                                        },
                                                    },
                                                },
                                            },
                                        },
                                    },
                                }
                            },
                        },
                    },
                },
            },
        },
    }
}

/// Whether the signer with `secret_key` and the randomness `master_seed`,
/// `salt` issues a signature of `message` that verifies.
pub open spec fn signing_succeeds(
    secret_key: Seq<u8>,
    message: Seq<u8>,
    master_seed: Seq<u8>,
    salt: Seq<u8>,
) -> bool {
    exists|s: Seq<u8>|
        #[trigger] is_assembled_signature(secret_key, message, master_seed, salt, s) && verify_spec(
            secret_key.take(60),
            message,
            s,
        )
}

/// The signature that the signer with `secret_key` and the randomness
/// `master_seed`, `salt` issues for `message`, when one verifies.
pub open spec fn issued_signature(
    secret_key: Seq<u8>,
    message: Seq<u8>,
    master_seed: Seq<u8>,
    salt: Seq<u8>,
) -> Seq<u8> {
    choose|s: Seq<u8>|
        #[trigger] is_assembled_signature(secret_key, message, master_seed, salt, s) && verify_spec(
            secret_key.take(60),
            message,
            s,
        )
}

/// The first position, from `i` on and within both lengths, at which `a`
/// and `b` differ.
pub open spec fn first_difference(a: Seq<u8>, b: Seq<u8>, i: int) -> Option<usize>
    decreases a.len() - i,
{
    if i < 0 || i >= a.len() || i >= b.len() {
        None
    } else if a[i] != b[i] {
        Some(i as usize)
    } else {
        first_difference(a, b, i + 1)
    }
}

/// `s` with the low bit of byte `position` flipped.
pub open spec fn flip_low_bit(s: Seq<u8>, position: int) -> Seq<u8> {
    s.update(position, s[position] ^ 1)
}

/// The signature bytes whose low bit the mutation check flips, from `i` on.
pub open spec fn mutation_position(len: int, i: int) -> int {
    if i == 0 {
        0
    } else if i == 1 {
        16
    } else if i == 2 {
        80
    } else if i == 3 {
        272
    } else {
        len - 1
    }
}

/// The signature mutations, from the `i`-th on, that verification must
/// reject.
pub open spec fn signature_mutations_check(
    count: usize,
    public_key: Seq<u8>,
    message: Seq<u8>,
    signature: Seq<u8>,
    i: int,
) -> Result<(), KatError>
    decreases 5 - i,
{
    if i >= 5 {
        Ok(())
    } else if signature.len() != 2916 {
        Err(
            KatError::MutationEncoding {
                count,
                expected: 2916,
                actual: signature.len() as usize,
            },
        )
    } else if public_key.len() != 60 {
        Err(KatError::MutationEncoding { count, expected: 60, actual: public_key.len() as usize })
    } else if verify_spec(
        public_key,
        message,
        flip_low_bit(signature, mutation_position(signature.len() as int, i)),
    ) {
        Err(
            KatError::AcceptedSignatureMutation {
                count,
                position: mutation_position(signature.len() as int, i) as usize,
            },
        )
    } else {
        signature_mutations_check(count, public_key, message, signature, i + 1)
    }
}

/// The targeted mutations that verification must reject: five one-bit
/// changes of the signature, one of the message, one of the public key.
pub open spec fn mutations_check(
    count: usize,
    public_key: Seq<u8>,
    message: Seq<u8>,
    signature: Seq<u8>,
) -> Result<(), KatError> {
    match signature_mutations_check(count, public_key, message, signature, 0) {
        Err(error) => Err(error),
        Ok(_) => if message.len() == 0 {
            Err(KatError::EmptyMessage(count))
        } else if verify_spec(public_key, flip_low_bit(message, 0), signature) {
            Err(KatError::AcceptedMessageMutation(count))
        } else if verify_spec(flip_low_bit(public_key, 59), message, signature) {
            Err(KatError::AcceptedKeyMutation(count))
        } else {
            Ok(())
        },
    }
}

/// The result of checking one case, and the response text appended: the
/// keys generated from the case's seed and the signature issued with the
/// randomness that follows must equal those of the case, and its signature
/// must verify (and, when `test_mutations`, reject the targeted mutations).
#[verifier::opaque]
pub open spec fn case_check_spec(case: KatCaseView, test_mutations: bool) -> (
    Result<(), KatError>,
    Seq<u8>,
) {
    match case_inputs(case) {
        Err(error) => (Err(error), Seq::empty()),
        Ok((count, message, seed, public_key, secret_key, signature)) => if public_key.len() != 60 {
            (
                Err(
                    KatError::PublicKeyEncoding {
                        count,
                        expected: 60,
                        actual: public_key.len() as usize,
                    },
                ),
                Seq::empty(),
            )
        } else {
            let (keygen_seed, master_seed, salt) = kat_randomness(seed);
            let generated_secret_key = secret_key_spec(keygen_seed);
            let generated_public_key = generated_secret_key.take(60);
            if generated_public_key != public_key || generated_secret_key != secret_key {
                (Err(KatError::KeyGenerationDiffers(count)), Seq::empty())
            } else if !signing_succeeds(generated_secret_key, message, master_seed, salt) {
                (Err(KatError::SigningFailed(count)), Seq::empty())
            } else {
                let generated = issued_signature(generated_secret_key, message, master_seed, salt);
                if generated != signature {
                    (
                        Err(
                            KatError::SignatureDiffers {
                                count,
                                first_difference: first_difference(generated, signature, 0),
                            },
                        ),
                        Seq::empty(),
                    )
                } else {
                    let text = case_response(
                        count as nat,
                        seed,
                        message,
                        generated_public_key,
                        generated_secret_key,
                        generated,
                    );
                    if !verify_spec(public_key, message, signature) {
                        (Err(KatError::VerificationFailed(count)), text)
                    } else if test_mutations {
                        (mutations_check(count, public_key, message, signature), text)
                    } else {
                        (Ok(()), text)
                    }
                }
            }
        },
    }
}

/// The result of checking the cases in order, the first with the mutation
/// check, and the response text of those reproduced.
pub open spec fn cases_check_spec(cases: Seq<KatCaseView>) -> (Result<(), KatError>, Seq<u8>)
    decreases cases.len(),
{
    if cases.len() == 0 {
        (Ok(()), Seq::empty())
    } else {
        let (previous, text) = cases_check_spec(cases.drop_last());
        if previous is Err {
            (previous, text)
        } else {
            let (result, more) = case_check_spec(cases.last(), cases.len() == 1);
            (result, text + more)
        }
    }
}

fn bytes_equal(a: &[u8], b: &[u8]) -> (r: bool)
    ensures
        r == (a@ == b@),
{
    if a.len() != b.len() {
        return false;
    }
    let mut k: usize = 0;
    while k < a.len()
        invariant
            a@.len() == b@.len(),
            k <= a@.len(),
            forall|j: int| 0 <= j < k ==> a@[j] == b@[j],
        decreases a@.len() - k,
    {
        if a[k] != b[k] {
            return false;
        }
        k += 1;
    }
    assert(a@ =~= b@);
    true
}

fn find_first_difference(a: &[u8], b: &[u8]) -> (r: Option<usize>)
    ensures
        r == first_difference(a@, b@, 0),
{
    let mut k: usize = 0;
    while k < a.len() && k < b.len() && a[k] == b[k]
        invariant
            k <= a@.len(),
            k <= b@.len(),
            first_difference(a@, b@, k as int) == first_difference(a@, b@, 0),
        decreases a@.len() - k,
    {
        k += 1;
    }
    if k < a.len() && k < b.len() {
        Some(k)
    } else {
        None
    }
}

fn flipped(bytes: &[u8], position: usize) -> (r: Vec<u8>)
    requires
        position < bytes@.len(),
    ensures
        r@ == flip_low_bit(bytes@, position as int),
{
    let mut r = copy_range(bytes, 0, bytes.len());
    r.set(position, r[position] ^ 1);
    assert(r@ =~= flip_low_bit(bytes@, position as int));
    r
}

/// Check that verification rejects the targeted mutations of a case's
/// signature, message and public key.
pub fn reject_targeted_mutations(
    count: usize,
    public_key: &[u8],
    message: &[u8],
    signature: &[u8],
) -> (r: Result<(), KatError>)
    requires
        signature@.len() > 272,
    ensures
        r == mutations_check(count, public_key@, message@, signature@),
{
    proof {
        crate::params::lemma_sizes();
    }
    let mut i: usize = 0;
    while i < 5
        invariant
            i <= 5,
            signature@.len() > 272,
            crate::params::SIGNATURE_SIZE == 2916,
            crate::params::PUBLIC_KEY_SIZE == 60,
            signature_mutations_check(count, public_key@, message@, signature@, i as int)
                == signature_mutations_check(count, public_key@, message@, signature@, 0),
        decreases 5 - i,
    {
        let position = if i == 0 {
            0
        } else if i == 1 {
            16
        } else if i == 2 {
            80
        } else if i == 3 {
            272
        } else {
            signature.len() - 1
        };
        assert(position as int == mutation_position(signature@.len() as int, i as int));
        let mutated = flipped(signature, position);
        let parsed = match Signature::from_slice(mutated.as_slice()) {
            Ok(parsed) => parsed,
            Err(error) => {
                return Err(
                    KatError::MutationEncoding {
                        count,
                        expected: error.expected(),
                        actual: error.actual(),
                    },
                );
            },
        };
        let key = match VerifyingKey::from_slice(public_key) {
            Ok(key) => key,
            Err(error) => {
                return Err(
                    KatError::MutationEncoding {
                        count,
                        expected: error.expected(),
                        actual: error.actual(),
                    },
                );
            },
        };
        if key.verify(message, &parsed).is_ok() {
            return Err(KatError::AcceptedSignatureMutation { count, position });
        }
        i += 1;
    }
    if message.len() == 0 {
        return Err(KatError::EmptyMessage(count));
    }
    let key = match VerifyingKey::from_slice(public_key) {
        Ok(key) => key,
        Err(error) => {
            return Err(
                KatError::MutationEncoding { count, expected: error.expected(), actual: error.actual() },
            );
        },
    };
    let parsed = match Signature::from_slice(signature) {
        Ok(parsed) => parsed,
        Err(error) => {
            return Err(
                KatError::MutationEncoding { count, expected: error.expected(), actual: error.actual() },
            );
        },
    };
    let mutated_message = flipped(message, 0);
    if key.verify(mutated_message.as_slice(), &parsed).is_ok() {
        return Err(KatError::AcceptedMessageMutation(count));
    }
    if public_key.len() == 0 {
        return Err(KatError::EmptyPublicKey(count));
    }
    let mutated_key = flipped(public_key, public_key.len() - 1);
    let key = match VerifyingKey::from_slice(mutated_key.as_slice()) {
        Ok(key) => key,
        Err(error) => {
            return Err(
                KatError::MutationEncoding { count, expected: error.expected(), actual: error.actual() },
            );
        },
    };
    if key.verify(message, &parsed).is_ok() {
        return Err(KatError::AcceptedKeyMutation(count));
    }
    Ok(())
}

fn append_name(output: &mut Vec<u8>, name: &[u8])
    ensures
        final(output)@ == old(output)@ + name@ + separator_text(),
{
    let ghost before = output@;
    append_bytes(output, name);
    output.push(32);
    output.push(61);
    output.push(32);
    assert(output@ =~= before + name@ + separator_text());
}

fn append_decimal_line(output: &mut Vec<u8>, name: &[u8], value: usize)
    ensures
        final(output)@ == old(output)@ + decimal_line(name@, value as nat),
{
    let ghost before = output@;
    append_name(output, name);
    append_decimal(output, value);
    output.push(10);
    assert(output@ =~= before + decimal_line(name@, value as nat));
}

fn required_hex(
    field: &Option<Vec<u8>>,
    count: usize,
    name: KatField,
) -> (r: Result<Vec<u8>, KatError>)
    ensures
        match bytes_view(*field) {
            None => r == Err::<Vec<u8>, KatError>(KatError::MissingField { count, field: name }),
            Some(encoded) => match decode_hex_result(encoded) {
                Ok(decoded) => (r matches Ok(v) && v@ == decoded),
                Err(error) => r == Err::<Vec<u8>, KatError>(error),
            },
        },
{
    match field {
        Some(encoded) => decode_hex(encoded.as_slice()),
        None => Err(KatError::MissingField { count, field: name }),
    }
}

fn read_case_inputs(case: &KatCase) -> (r: Result<
    (usize, Vec<u8>, [u8; 48], Vec<u8>, Vec<u8>, Vec<u8>),
    KatError,
>)
    ensures
        match case_inputs(case@) {
            Ok((count, message, seed, public_key, secret_key, signature)) => (r matches Ok(
                inputs,
            ) && inputs.0 == count && inputs.1@ == message && inputs.2@ == seed && inputs.3@
                == public_key && inputs.4@ == secret_key && inputs.5@ == signature),
            Err(error) => r == Err::<(usize, Vec<u8>, [u8; 48], Vec<u8>, Vec<u8>, Vec<u8>), KatError>(
                error,
            ),
        },
        r matches Ok(inputs) ==> inputs.1@.len() + inputs.5@.len() <= usize::MAX,
{
    proof {
        reveal(case_inputs);
    }
    let count = match case.count {
        Some(count) => count,
        None => {
            return Err(KatError::MissingCount);
        },
    };
    let message_len = match case.message_len {
        Some(length) => length,
        None => {
            return Err(KatError::MissingField { count, field: KatField::MessageLength });
        },
    };
    let message = match required_hex(&case.message, count, KatField::Message) {
        Ok(message) => message,
        Err(error) => {
            return Err(error);
        },
    };
    let seed: [u8; 48] = match &case.seed {
        Some(encoded) => match decode_fixed_hex::<48>(encoded.as_slice()) {
            Ok(seed) => seed,
            Err(error) => {
                return Err(error);
            },
        },
        None => {
            return Err(KatError::MissingField { count, field: KatField::Seed });
        },
    };
    let public_key_bytes = match required_hex(&case.public_key, count, KatField::PublicKey) {
        Ok(bytes) => bytes,
        Err(error) => {
            return Err(error);
        },
    };
    let secret_key_bytes = match required_hex(&case.secret_key, count, KatField::SecretKey) {
        Ok(bytes) => bytes,
        Err(error) => {
            return Err(error);
        },
    };
    let signed_message_len = match case.signed_message_len {
        Some(length) => length,
        None => {
            return Err(KatError::MissingField { count, field: KatField::SignedMessageLength });
        },
    };
    let signed_message = match required_hex(&case.signed_message, count, KatField::SignedMessage) {
        Ok(bytes) => bytes,
        Err(error) => {
            return Err(error);
        },
    };
    if message.len() != message_len || signed_message.len() != signed_message_len || !(message_len
        <= signed_message.len() && bytes_equal(
        &signed_message.as_slice()[0..message_len],
        message.as_slice(),
    )) {
        return Err(KatError::InconsistentLengths(count));
    }
    let signature = copy_range(signed_message.as_slice(), message_len, signed_message.len());
    assert(signature@ =~= signed_message@.skip(message_len as int));
    Ok((count, message, seed, public_key_bytes, secret_key_bytes, signature))
}

fn case_keys(seed: &[u8; 48]) -> (r: Option<(SigningKey, [u8; 16], [u8; 16])>)
    ensures
        r matches Some(generated) && generated.0@ == secret_key_spec(kat_randomness(seed@).0)
            && generated.1@ == kat_randomness(seed@).1 && generated.2@ == kat_randomness(seed@).2,
{
    let ghost randomness = kat_randomness(seed@);
    let mut drbg = KatDrbg::new(seed);
    let mut keygen_seed = [0u8; 32];
    drbg.generate(&mut keygen_seed);
    let generated_key = match SigningKey::from_seed(&keygen_seed) {
        Ok(key) => key,
        Err(_) => {
            return None;
        },
    };
    assert(keygen_seed@ == randomness.0);
    let mut master_seed = [0u8; 16];
    drbg.generate(&mut master_seed);
    let mut salt = [0u8; 16];
    drbg.generate(&mut salt);
    assert(master_seed@ == randomness.1);
    assert(salt@ == randomness.2);
    Some((generated_key, master_seed, salt))
}

fn issue_signature(key: &SigningKey, master_seed: &[u8; 16], salt: &[u8; 16], message: &[u8]) -> (r:
    Option<Signature>)
    ensures
        r is Some <==> signing_succeeds(key@, message@, master_seed@, salt@),
        r matches Some(signature) ==> signature@ == issued_signature(
            key@,
            message@,
            master_seed@,
            salt@,
        ),
{
    match key.sign_with_randomness(master_seed, salt, message) {
        Ok(signature) => {
            proof {
                let issued = issued_signature(key@, message@, master_seed@, salt@);
                assert(is_assembled_signature(key@, message@, master_seed@, salt@, signature@));
                assert(signing_succeeds(key@, message@, master_seed@, salt@));
                crate::sign::lemma_assembled_signature_unique(
                    key@,
                    message@,
                    master_seed@,
                    salt@,
                    issued,
                    signature@,
                );
            }
            Some(signature)
        },
        Err(_) => None,
    }
}

fn append_case_response(
    response: &mut Vec<u8>,
    count: usize,
    seed: &[u8; 48],
    message: &[u8],
    public_key: &[u8],
    secret_key: &[u8],
    signature: &[u8],
)
    requires
        message@.len() + signature@.len() <= usize::MAX,
    ensures
        final(response)@ == old(response)@ + case_response(
            count as nat,
            seed@,
            message@,
            public_key@,
            secret_key@,
            signature@,
        ),
{
    let ghost before = response@;
    let count_bytes: [u8; 5] = [99, 111, 117, 110, 116];
    let seed_bytes: [u8; 4] = [115, 101, 101, 100];
    let mlen_bytes: [u8; 4] = [109, 108, 101, 110];
    let msg_bytes: [u8; 3] = [109, 115, 103];
    let pk_bytes: [u8; 2] = [112, 107];
    let sk_bytes: [u8; 2] = [115, 107];
    let smlen_bytes: [u8; 5] = [115, 109, 108, 101, 110];
    let sm_bytes: [u8; 2] = [115, 109];
    proof {
        assert(count_bytes@ =~= count_name());
        assert(seed_bytes@ =~= seed_name());
        assert(mlen_bytes@ =~= mlen_name());
        assert(msg_bytes@ =~= msg_name());
        assert(pk_bytes@ =~= pk_name());
        assert(sk_bytes@ =~= sk_name());
        assert(smlen_bytes@ =~= smlen_name());
        assert(sm_bytes@ =~= sm_name());
    }
    append_decimal_line(response, &count_bytes, count);
    let ghost mut text = decimal_line(count_name(), count as nat);
    append_hex_line(response, &seed_bytes, seed);
    proof {
        lemma_concat_associative(before, text, hex_line(seed_name(), seed@));
        text = text + hex_line(seed_name(), seed@);
    }
    append_decimal_line(response, &mlen_bytes, message.len());
    proof {
        lemma_concat_associative(before, text, decimal_line(mlen_name(), message@.len()));
        text = text + decimal_line(mlen_name(), message@.len());
    }
    append_hex_line(response, &msg_bytes, message);
    proof {
        lemma_concat_associative(before, text, hex_line(msg_name(), message@));
        text = text + hex_line(msg_name(), message@);
    }
    append_hex_line(response, &pk_bytes, public_key);
    proof {
        lemma_concat_associative(before, text, hex_line(pk_name(), public_key@));
        text = text + hex_line(pk_name(), public_key@);
    }
    append_hex_line(response, &sk_bytes, secret_key);
    proof {
        lemma_concat_associative(before, text, hex_line(sk_name(), secret_key@));
        text = text + hex_line(sk_name(), secret_key@);
    }
    append_decimal_line(response, &smlen_bytes, message.len() + signature.len());
    proof {
        lemma_concat_associative(
            before,
            text,
            decimal_line(smlen_name(), message@.len() + signature@.len()),
        );
        text = text + decimal_line(smlen_name(), message@.len() + signature@.len());
    }
    append_bytes(response, &sm_bytes);
    proof {
        lemma_concat_associative(before, text, sm_name());
        text = text + sm_name();
    }
    let separator: [u8; 3] = [32, 61, 32];
    assert(separator@ =~= separator_text());
    append_bytes(response, &separator);
    proof {
        lemma_concat_associative(before, text, separator_text());
        text = text + separator_text();
    }
    append_hex(response, message);
    proof {
        lemma_concat_associative(before, text, hex_encode_spec(message@));
        text = text + hex_encode_spec(message@);
    }
    append_hex(response, signature);
    proof {
        lemma_concat_associative(before, text, hex_encode_spec(signature@));
        text = text + hex_encode_spec(signature@);
    }
    let ghost before_breaks = response@;
    response.push(10);
    response.push(10);
    proof {
        assert(response@ =~= before_breaks + seq![10u8, 10u8]);
        lemma_concat_associative(before, text, seq![10u8, 10u8]);
        text = text + seq![10u8, 10u8];
        assert(text == case_response(
            count as nat,
            seed@,
            message@,
            public_key@,
            secret_key@,
            signature@,
        ));
    }
}

/// Check one case of a response: reproduce its keys from its seed and its
/// signature with the randomness that follows, verify its signature, and,
/// when `test_mutations`, check that verification rejects the targeted
/// mutations; append the response text of the reproduced case to `response`.
pub fn check_case(case: &KatCase, test_mutations: bool, response: &mut Vec<u8>) -> (r: Result<
    (),
    KatError,
>)
    ensures
        r == case_check_spec(case@, test_mutations).0,
        final(response)@ == old(response)@ + case_check_spec(case@, test_mutations).1,
{
    proof {
        crate::params::lemma_sizes();
        reveal(case_check_spec);
    }
    let ghost before = response@;
    let (count, message, seed, public_key_bytes, secret_key_bytes, signature) = match read_case_inputs(
        case,
    ) {
        Ok(inputs) => inputs,
        Err(error) => {
            return Err(error);
        },
    };
    let signature_bytes = signature.as_slice();
    let public_key = match VerifyingKey::from_slice(public_key_bytes.as_slice()) {
        Ok(key) => key,
        Err(error) => {
            return Err(
                KatError::PublicKeyEncoding { count, expected: error.expected(), actual: error.actual() },
            );
        },
    };
    let (generated_key, master_seed, salt) = match case_keys(&seed) {
        Some(generated) => generated,
        None => {
            return Err(KatError::KeyGenerationFailed(count));
        },
    };
    let generated_public_key = generated_key.verifying_key();
    let generated_secret_key = generated_key.to_bytes();
    if !bytes_equal(generated_public_key.as_slice(), public_key_bytes.as_slice()) || !bytes_equal(
        generated_secret_key.as_slice(),
        secret_key_bytes.as_slice(),
    ) {
        return Err(KatError::KeyGenerationDiffers(count));
    }
    let generated_signature = match issue_signature(&generated_key, &master_seed, &salt, message.as_slice()) {
        Some(signature) => signature,
        None => {
            return Err(KatError::SigningFailed(count));
        },
    };
    if !bytes_equal(generated_signature.as_slice(), signature_bytes) {
        return Err(
            KatError::SignatureDiffers {
                count,
                first_difference: find_first_difference(generated_signature.as_slice(), signature_bytes),
            },
        );
    }
    append_case_response(
        response,
        count,
        &seed,
        message.as_slice(),
        generated_public_key.as_slice(),
        generated_secret_key.as_slice(),
        generated_signature.as_slice(),
    );
    let signature = match Signature::from_slice(signature_bytes) {
        Ok(signature) => signature,
        Err(error) => {
            return Err(
                KatError::SignatureEncoding { count, expected: error.expected(), actual: error.actual() },
            );
        },
    };
    if public_key.verify(message.as_slice(), &signature).is_err() {
        return Err(KatError::VerificationFailed(count));
    }
    if test_mutations {
        match reject_targeted_mutations(
            count,
            public_key_bytes.as_slice(),
            message.as_slice(),
            signature_bytes,
        ) {
            Ok(()) => {},
            Err(error) => {
                return Err(error);
            },
        }
    }
    Ok(())
}

/// The bytes `count = ` that open the first line of a case.
pub open spec fn case_prefix() -> Seq<u8> {
    seq![99u8, 111u8, 117u8, 110u8, 116u8, 32u8, 61u8, 32u8]
}

/// Whether the line `range` of `s` starts with `count = `.
pub open spec fn starts_case(s: Seq<u8>, range: (int, int)) -> bool {
    range.1 - range.0 >= 8 && s.subrange(range.0, range.0 + 8) == case_prefix()
}

/// The number of the lines `lines` of `s` that start with `count = `.
pub open spec fn case_line_count(s: Seq<u8>, lines: Seq<(int, int)>) -> nat
    decreases lines.len(),
{
    if lines.len() == 0 {
        0
    } else {
        case_line_count(s, lines.drop_last()) + if starts_case(s, lines.last()) {
            1nat
        } else {
            0nat
        }
    }
}

/// Count the lines of a response, split as `str::lines` splits them, that
/// start with `count = `.
pub fn count_case_lines(contents: &[u8]) -> (r: usize)
    ensures
        r == case_line_count(contents@, line_ranges(contents@, 0)),
{
    let ghost s = contents@;
    let prefix: [u8; 8] = [99, 111, 117, 110, 116, 32, 61, 32];
    assert(prefix@ =~= case_prefix());
    let mut count: usize = 0;
    let mut position: usize = 0;
    let ghost mut done: Seq<(int, int)> = Seq::empty();
    while position < contents.len()
        invariant
            s == contents@,
            prefix@ == case_prefix(),
            position <= s.len(),
            done.len() <= position,
            line_ranges(s, 0) == done + line_ranges(s, position as int),
            count == case_line_count(s, done),
            count <= done.len(),
        decreases s.len() - position,
    {
        proof {
            lemma_line_ranges_step(s, position as int);
        }
        let end = find_newline(contents, position);
        let (line_start, line_end, next) = if end < contents.len() {
            if end > position && contents[end - 1] == 13 {
                (position, end - 1, end + 1)
            } else {
                (position, end, end + 1)
            }
        } else {
            (position, contents.len(), contents.len())
        };
        let ghost line = (line_start as int, line_end as int);
        assert(line == line_at(s, position as int).0);
        assert(next as int == line_at(s, position as int).1);
        let mut matches = line_end - line_start >= 8;
        let mut k: usize = 0;
        while matches && k < 8
            invariant
                s == contents@,
                prefix@ == case_prefix(),
                line_start <= line_end <= s.len(),
                k <= 8,
                matches ==> line_end - line_start >= 8,
                matches ==> forall|i: int| 0 <= i < k ==> s[line_start + i] == prefix@[i],
                !matches ==> !starts_case(s, line),
                line == (line_start as int, line_end as int),
            decreases 8 - k,
        {
            if contents[line_start + k] != prefix[k] {
                assert(s.subrange(line_start as int, line_start + 8)[k as int] != case_prefix()[k as int]);
                matches = false;
            }
            k += 1;
        }
        if matches {
            assert(s.subrange(line_start as int, line_start + 8) =~= case_prefix());
        }
        let ghost previous = done;
        proof {
            done = done.push(line);
            assert(done.drop_last() =~= previous);
            assert(line_ranges(s, 0) =~= done + line_ranges(s, next as int));
        }
        if matches {
            count = count + 1;
        }
        position = next;
    }
    proof {
        assert(line_ranges(s, position as int) =~= Seq::<(int, int)>::empty());
        assert(done + Seq::<(int, int)>::empty() =~= done);
    }
    count
}

/// Check every case of a known-answer-test response in order, the first
/// one with the targeted mutations, and return the number of cases and the
/// response text that reproduces them; an error for the first case that
/// fails, else for the first malformed line, else when the response does
/// not hold exactly one hundred cases.
pub fn verify_response(contents: &[u8]) -> (r: Result<(usize, Vec<u8>), KatError>)
    ensures
        ({
            let parsed = parse_response_spec(contents@);
            let (checked, text) = cases_check_spec(parsed.cases);
            match checked {
                Err(error) => r == Err::<(usize, Vec<u8>), KatError>(error),
                Ok(_) => match parsed.error {
                    Some(error) => r == Err::<(usize, Vec<u8>), KatError>(error),
                    None => if parsed.cases.len() != 100 {
                        r == Err::<(usize, Vec<u8>), KatError>(
                            KatError::CaseCount(parsed.cases.len() as usize),
                        )
                    } else {
                        (r matches Ok((n, t)) && n == 100 && t@ == response_header() + text)
                    },
                },
            }
        }),
{
    let (cases, parse_error) = parse_response(contents);
    let ghost parsed = parse_response_spec(contents@);
    let ghost views = case_views(cases@);
    let header: [u8; 26] = [
        35, 32, 77, 81, 79, 77, 50, 45, 76, 49, 45, 103, 102, 49, 54, 45, 115, 104, 111, 114, 116,
        45, 114, 53, 10, 10,
    ];
    let mut response: Vec<u8> = Vec::new();
    append_bytes(&mut response, &header);
    assert(header@ =~= response_header());
    assert(response@ =~= response_header());
    let mut i: usize = 0;
    while i < cases.len()
        invariant
            i <= cases@.len(),
            views == case_views(cases@),
            parsed == parse_response_spec(contents@),
            views == parsed.cases,
            cases_check_spec(views.take(i as int)).0 is Ok,
            response@ == response_header() + cases_check_spec(views.take(i as int)).1,
        decreases cases@.len() - i,
    {
        proof {
            lemma_cases_check_step(views, i as int);
            assert(views[i as int] == cases@[i as int]@);
        }
        let checked = check_case(&cases[i], i == 0, &mut response);
        match checked {
            Ok(()) => {},
            Err(error) => {
                proof {
                    lemma_cases_check_error_sticks(views, i as int + 1);
                }
                return Err(error);
            },
        }
        proof {
            lemma_concat_associative(
                response_header(),
                cases_check_spec(views.take(i as int)).1,
                case_check_spec(views[i as int], i == 0).1,
            );
        }
        i += 1;
    }
    proof {
        assert(views.take(views.len() as int) =~= views);
    }
    match parse_error {
        Some(error) => {
            return Err(error);
        },
        None => {},
    }
    if cases.len() != 100 {
        return Err(KatError::CaseCount(cases.len()));
    }
    Ok((cases.len(), response))
}

proof fn lemma_cases_check_step(cases: Seq<KatCaseView>, i: int)
    requires
        0 <= i < cases.len(),
        cases_check_spec(cases.take(i)).0 is Ok,
    ensures
        cases_check_spec(cases.take(i + 1)) == (
            case_check_spec(cases[i], i == 0).0,
            cases_check_spec(cases.take(i)).1 + case_check_spec(cases[i], i == 0).1,
        ),
{
    assert(cases.take(i + 1).drop_last() =~= cases.take(i));
    assert(cases.take(i + 1).last() == cases[i]);
}

/// Once a case fails, the result of checking more cases is that failure.
proof fn lemma_cases_check_error_sticks(cases: Seq<KatCaseView>, n: int)
    requires
        0 <= n <= cases.len(),
        cases_check_spec(cases.take(n)).0 is Err,
    ensures
        cases_check_spec(cases).0 == cases_check_spec(cases.take(n)).0,
    decreases cases.len() - n,
{
    if n < cases.len() {
        assert(cases.take(n + 1).drop_last() =~= cases.take(n));
        lemma_cases_check_error_sticks(cases, n + 1);
    } else {
        assert(cases.take(n) =~= cases);
    }
}

/// The decimal text of any `usize` parses back to it.
pub proof fn lemma_decimal_round_trip(n: usize)
    ensures
        parse_decimal_spec(decimal_text(n as nat)) == Ok::<usize, DecimalError>(n),
{
    lemma_decimal_text_value(n as nat);
    assert(decimal_digits_of(decimal_text(n as nat)) == decimal_text(n as nat));
}

proof fn lemma_decimal_text_value(n: nat)
    ensures
        decimal_text(n).len() >= 1,
        all_decimal_digits(decimal_text(n)),
        decimal_value(decimal_text(n)) == n,
        48 <= decimal_text(n)[0] <= 57,
    decreases n,
{
    if n >= 10 {
        lemma_decimal_text_value(n / 10);
        let prefix = decimal_text(n / 10);
        let text = decimal_text(n);
        assert(text.drop_last() =~= prefix);
        assert(text.last() == (48 + n % 10) as u8);
        assert(((48 + n % 10) as u8) as int == 48 + n % 10);
        assert(text.len() == prefix.len() + 1);
        assert(decimal_value(text) == 10 * decimal_value(text.drop_last()) + (text.last() - 48));
        assert(decimal_value(text) == 10 * (n / 10) + n % 10);
        assert(10 * (n / 10) + n % 10 == n);
        assert(text[0] == prefix[0]);
        assert forall|k: int| 0 <= k < text.len() implies 48 <= #[trigger] text[k] <= 57 by {
            if k < prefix.len() {
                assert(text[k] == prefix[k]);
            }
        }
    } else {
        assert(decimal_text(n).drop_last() =~= Seq::<u8>::empty());
        assert(((48 + n) as u8) as int == 48 + n);
        assert(decimal_text(n).last() == (48 + n) as u8);
        assert(decimal_value(decimal_text(n)) == 10 * decimal_value(decimal_text(n).drop_last()) + (
        decimal_text(n).last() - 48));
        assert(decimal_value(Seq::<u8>::empty()) == 0);
    }
}

} // verus!
