//! The AES-based seed derivation and pseudorandom generator of MQOM v2.1.1.

use vstd::prelude::*;
use crate::keygen::wipe;
use aes::cipher::{Array, BlockCipherEncrypt, KeyInit};

verus! {

/// Length of an AES block, of a seed and of a salt.
pub const BLOCK_SIZE: usize = 16;

/// Domain selector of the pseudorandom generator.
pub const PRG_SELECTOR: u8 = 3;

/// AES-128 encryption of `block` under `key`.
pub uninterp spec fn aes128_encrypt(key: Seq<u8>, block: Seq<u8>) -> Seq<u8>;

/// AES-128 encryption of one block (aes's `Aes128::new` key schedule, then
/// `BlockCipherEncrypt::encrypt_block`); the contract claims that the result
/// depends on the key and the block alone.
#[verifier::external_body]
fn aes128_encrypt_block(key: &[u8; 16], block: &[u8; 16]) -> (r: [u8; 16])
    ensures
        r@ == aes128_encrypt(key@, block@),
{
    let cipher = aes::Aes128::new(&Array::from(*key));
    let mut encrypted = Array::from(*block);
    cipher.encrypt_block(&mut encrypted);
    encrypted.into()
}

/// The linear orthomorphism `(L, R) -> (L xor R, L)` on the two halves of a
/// 16-byte block.
pub open spec fn linear_orthomorphism_spec(seed: Seq<u8>) -> Seq<u8> {
    Seq::new(
        16,
        |i: int|
            if i < 8 {
                seed[i + 8] ^ seed[i]
            } else {
                seed[i - 8]
            },
    )
}

/// Byte-wise exclusive or of two sequences of the same length.
pub open spec fn xor_seq(a: Seq<u8>, b: Seq<u8>) -> Seq<u8> {
    Seq::new(a.len(), |i: int| a[i] ^ b[i])
}

/// The domain-separated key: `salt` with `selector + 4 * execution` xored
/// into byte 0 and the little-endian `index` into bytes 1 and 2.
pub open spec fn tweak_spec(salt: Seq<u8>, selector: u8, execution: u8, index: u16) -> Seq<u8> {
    salt.update(
        0,
        salt[0] ^ vstd::wrapping::u8_specs::wrapping_add(
            selector,
            vstd::wrapping::u8_specs::wrapping_mul(execution, 4),
        ),
    ).update(1, salt[1] ^ (index % 256) as u8).update(2, salt[2] ^ (index / 256) as u8)
}

/// The seed derivation `AES_key(seed) xor L(seed)`, a 16-byte block.
pub open spec fn seed_derive_spec(key: Seq<u8>, seed: Seq<u8>) -> Seq<u8> {
    Seq::new(16, |i: int| aes128_encrypt(key, seed)[i] ^ linear_orthomorphism_spec(seed)[i])
}

/// Block `index` of the generator stream.
pub open spec fn prg_block(salt: Seq<u8>, execution: u8, seed: Seq<u8>, index: int) -> Seq<u8> {
    seed_derive_spec(tweak_spec(salt, PRG_SELECTOR, execution, index as u16), seed)
}

/// The first `len` bytes of the generator stream.
pub open spec fn prg_stream(salt: Seq<u8>, execution: u8, seed: Seq<u8>, len: nat) -> Seq<u8> {
    Seq::new(len, |k: int| prg_block(salt, execution, seed, k / 16)[k % 16])
}

/// Whether a stream of `len` bytes fits the 16-bit block index of the tweak.
pub open spec fn prg_len_ok(len: nat) -> bool {
    len + 15 <= usize::MAX && (len + 15) / 16 <= 65536
}

/// `(L, R) -> (L xor R, L)` on the two halves of a block.
pub fn linear_orthomorphism(seed: &[u8; 16]) -> (r: [u8; 16])
    ensures
        r@ == linear_orthomorphism_spec(seed@),
{
    let mut image = [0u8; 16];
    let mut i: usize = 0;
    while i < 8
        invariant
            i <= 8,
            forall|k: int| 0 <= k < i ==> #[trigger] image@[k] == seed@[k + 8] ^ seed@[k],
            forall|k: int| 8 <= k < 8 + i ==> #[trigger] image@[k] == seed@[k - 8],
        decreases 8 - i,
    {
        image[i] = seed[i + 8] ^ seed[i];
        image[i + 8] = seed[i];
        i += 1;
    }
    assert(image@ =~= linear_orthomorphism_spec(seed@));
    image
}

/// The key for `selector`, `execution` and `index` derived from `salt`.
pub fn tweak_salt_with_selector(salt: &[u8; 16], selector: u8, execution: u8, index: u16) -> (r: [u8;
    16])
    ensures
        r@ == tweak_spec(salt@, selector, execution, index),
{
    let mut tweaked = *salt;
    tweaked[0] ^= selector.wrapping_add(execution.wrapping_mul(4));
    tweaked[1] ^= (index % 256) as u8;
    tweaked[2] ^= (index / 256) as u8;
    assert(tweaked@ =~= tweak_spec(salt@, selector, execution, index));
    tweaked
}

/// The generator key for `execution` and block `block_index`.
pub fn tweak_salt(salt: &[u8; 16], execution: u8, block_index: u16) -> (r: [u8; 16])
    ensures
        r@ == tweak_spec(salt@, PRG_SELECTOR, execution, block_index),
{
    tweak_salt_with_selector(salt, PRG_SELECTOR, execution, block_index)
}

/// Seed derivation under a fixed key.
pub struct SeedDeriver {
    key: [u8; 16],
}

impl View for SeedDeriver {
    type V = Seq<u8>;

    closed spec fn view(&self) -> Seq<u8> {
        self.key@
    }
}

impl SeedDeriver {
    /// A deriver keyed by `key`.
    pub fn new(key: &[u8; 16]) -> (r: Self)
        ensures
            r@ == key@,
    {
        SeedDeriver { key: *key }
    }

    /// `AES_key(seed) xor L(seed)`.
    pub fn derive(&self, seed: &[u8; 16]) -> (r: [u8; 16])
        ensures
            r@ == seed_derive_spec(self@, seed@),
    {
        let mut block = aes128_encrypt_block(&self.key, seed);
        let image = linear_orthomorphism(seed);
        let ghost encrypted = block@;
        let mut i: usize = 0;
        while i < 16
            invariant
                i <= 16,
                forall|k: int| 0 <= k < i ==> #[trigger] block@[k] == encrypted[k] ^ image@[k],
                forall|k: int| i <= k < 16 ==> #[trigger] block@[k] == encrypted[k],
            decreases 16 - i,
        {
            block[i] = block[i] ^ image[i];
            i += 1;
        }
        assert(block@ =~= seed_derive_spec(self@, seed@));
        block
    }
}

/// Fill `output` with the MQOM generator stream for `salt`, `execution` and
/// `seed`.
///
/// Returns `false`, leaving `output` unchanged, if the request would require
/// a block index outside the 16-bit tweak encoding.
pub fn fill(salt: &[u8; 16], execution: u8, seed: &[u8; 16], output: &mut [u8]) -> (r: bool)
    ensures
        final(output)@.len() == old(output)@.len(),
        r == prg_len_ok(old(output)@.len() as nat),
        r ==> final(output)@ == prg_stream(salt@, execution, seed@, old(output)@.len() as nat),
        !r ==> final(output)@ == old(output)@,
{
    let len = output.len();
    let block_count = match len.checked_add(BLOCK_SIZE - 1) {
        Some(n) => n / BLOCK_SIZE,
        None => {
            return false;
        },
    };
    if block_count > 65536 {
        return false;
    }
    let mut linear_image = linear_orthomorphism(seed);
    let mut block_index: usize = 0;
    while block_index < block_count
        invariant
            len == output@.len(),
            block_count == (len + 15) / 16,
            block_count <= 65536,
            block_index <= block_count,
            linear_image@ == linear_orthomorphism_spec(seed@),
            forall|k: int|
                0 <= k < len && k < 16 * block_index ==> #[trigger] output@[k] == prg_stream(
                    salt@,
                    execution,
                    seed@,
                    len as nat,
                )[k],
        decreases block_count - block_index,
    {
        let mut key = tweak_salt(salt, execution, block_index as u16);
        let mut encrypted = aes128_encrypt_block(&key, seed);
        let start = block_index * BLOCK_SIZE;
        let mut i: usize = 0;
        while i < BLOCK_SIZE && start + i < len
            invariant
                len == output@.len(),
                block_count == (len + 15) / 16,
                block_index < block_count,
                block_count <= 65536,
                start == 16 * block_index,
                i <= 16,
                key@ == tweak_spec(salt@, PRG_SELECTOR, execution, block_index as u16),
                encrypted@ == aes128_encrypt(key@, seed@),
                linear_image@ == linear_orthomorphism_spec(seed@),
                forall|k: int|
                    0 <= k < len && k < start + i ==> #[trigger] output@[k] == prg_stream(
                        salt@,
                        execution,
                        seed@,
                        len as nat,
                    )[k],
            decreases 16 - i,
        {
            output[start + i] = encrypted[i] ^ linear_image[i];
            proof {
                let k = start + i;
                assert(k / 16 == block_index as int) by (nonlinear_arith)
                    requires
                        k == 16 * block_index + i,
                        i < 16,
                ;
                assert(k % 16 == i as int) by (nonlinear_arith)
                    requires
                        k == 16 * block_index + i,
                        i < 16,
                ;
            }
            i += 1;
        }
        wipe(&mut encrypted);
        wipe(&mut key);
        block_index += 1;
    }
    wipe(&mut linear_image);
    proof {
        assert(len <= 16 * block_count) by (nonlinear_arith)
            requires
                block_count == (len + 15) / 16,
        ;
        assert(output@ =~= prg_stream(salt@, execution, seed@, len as nat));
    }
    true
}

/// The generator of one execution, producing streams of a fixed length.
pub struct Generator {
    salt: [u8; 16],
    execution: u8,
    size: usize,
}

impl Generator {
    /// The salt, execution and stream length of the generator.
    pub closed spec fn parameters(&self) -> (Seq<u8>, u8, nat) {
        (self.salt@, self.execution, self.size as nat)
    }

    /// A generator for `execution` under `salt` producing `size` bytes, if
    /// such a stream fits the tweak encoding.
    pub fn new(salt: &[u8; 16], execution: u8, size: usize) -> (r: Option<Self>)
        ensures
            r is Some <==> prg_len_ok(size as nat),
            r matches Some(g) ==> g.parameters() == (salt@, execution, size as nat),
    {
        if size > usize::MAX - 15 || (size + 15) / 16 > 65536 {
            None
        } else {
            Some(Generator { salt: *salt, execution, size })
        }
    }

    /// Fill `output` with the stream of `seed`; returns `false`, leaving it
    /// unchanged, unless `output` has the generator's length.
    pub fn fill(&self, seed: &[u8; 16], output: &mut [u8]) -> (r: bool)
        requires
            prg_len_ok(self.parameters().2),
        ensures
            final(output)@.len() == old(output)@.len(),
            r == (old(output)@.len() == self.parameters().2),
            r ==> final(output)@ == prg_stream(
                self.parameters().0,
                self.parameters().1,
                seed@,
                old(output)@.len() as nat,
            ),
            !r ==> final(output)@ == old(output)@,
    {
        if output.len() != self.size {
            return false;
        }
        fill(&self.salt, self.execution, seed, output)
    }
}


/// Byte `k` of the generator stream is byte `k mod 16` of the seed
/// derivation of `seed` under the key `tweak(salt, 3, execution, k / 16)`:
/// the generator uses selector 3 and one block index per 16 bytes.
pub proof fn lemma_prg_stream_blocks(salt: Seq<u8>, execution: u8, seed: Seq<u8>, len: nat, k: int)
    requires
        0 <= k < len,
    ensures
        prg_stream(salt, execution, seed, len).len() == len,
        prg_stream(salt, execution, seed, len)[k] == seed_derive_spec(
            tweak_spec(salt, 3, execution, (k / 16) as u16),
            seed,
        )[k % 16],
{
}

} // verus!
