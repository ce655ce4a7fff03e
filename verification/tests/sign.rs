use mqom::keygen::keypair_from_seed;
use mqom::params;
use mqom::sign::{sample_challenge, sign};
use mqom::verify::{CHALLENGE_STREAM_SIZE, verify};
use mqom::xof::shake128;

#[test]
fn challenge_sampler_finds_the_first_valid_nonce() {
    let hash = [0u8; params::DIGEST_SIZE];
    let (indices, nonce) = sample_challenge(&hash).unwrap();
    assert!(
        indices
            .iter()
            .all(|index| usize::from(*index) < params::NB_EVALS)
    );

    let nonce_value = u32::from_le_bytes(nonce);
    for earlier in 0..nonce_value {
        let earlier = earlier.to_le_bytes();
        let mut stream = [0u8; CHALLENGE_STREAM_SIZE];
        shake128(&[&[0x05], &hash, &earlier], &mut stream);
        let grinding =
            u16::from_le_bytes([stream[2 * params::TAU], stream[2 * params::TAU + 1]]);
        assert_ne!(grinding & 0xff, 0);
    }
}

#[test]
fn signatures_verify_and_bind_the_message() {
    let seed: [u8; 32] = core::array::from_fn(|index| u8::try_from(index).unwrap());
    let (secret_key, public_key) = keypair_from_seed(&seed).unwrap();
    let master_seed = [7u8; 16];
    let salt = [9u8; 16];
    let signature = sign(&secret_key, b"message", &master_seed, &salt).unwrap();
    assert_eq!(&signature[..16], &salt);
    assert!(verify(&public_key, b"message", &signature));
    assert!(!verify(&public_key, b"massage", &signature));
    assert_eq!(sign(&secret_key, b"message", &master_seed, &salt), Some(signature));
}

#[test]
fn inconsistent_keys_do_not_sign() {
    let seed = [3u8; 32];
    let (mut secret_key, _) = keypair_from_seed(&seed).unwrap();
    secret_key[70] ^= 0x01;
    assert!(sign(&secret_key, b"message", &[1u8; 16], &[2u8; 16]).is_none());
}
