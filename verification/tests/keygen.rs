use mqom::field::{Gf16, Gf256x2, unpack_gf16};
use mqom::keygen::{KEYGEN_SEED_SIZE, ct_eq_bytes, keypair_from_seed, secret_key_is_consistent, wipe};
use mqom::{mq, params};

#[test]
fn generated_public_output_matches_secret_vector() {
    let seed = core::array::from_fn(|index| u8::try_from(index).unwrap());
    let (secret_key, public_key) = keypair_from_seed(&seed).unwrap();
    assert_eq!(&secret_key[..params::PUBLIC_KEY_SIZE], &public_key);

    let mut secret_vector = [Gf16::zero(); params::MQ_N];
    assert!(unpack_gf16(
        &secret_key[params::PUBLIC_KEY_SIZE..],
        &mut secret_vector
    ));
    let master_seed: &[u8; KEYGEN_SEED_SIZE] = public_key[..KEYGEN_SEED_SIZE].try_into().unwrap();
    for equation_index in 0..mq::EQUATION_COUNT {
        let expected = mq::expand_equation(master_seed, equation_index)
            .unwrap()
            .evaluate_base(&secret_vector);
        let offset = KEYGEN_SEED_SIZE + equation_index * 2;
        let observed = Gf256x2::from_bytes([public_key[offset], public_key[offset + 1]]);
        assert!(bool::from(expected.ct_eq(&observed)));
    }
}

#[test]
fn generated_keys_are_consistent_and_corruption_is_detected() {
    let seed = [0xabu8; 32];
    let (secret_key, _) = keypair_from_seed(&seed).unwrap();
    assert!(secret_key_is_consistent(&secret_key));
    let mut corrupted = secret_key;
    corrupted[40] ^= 0x01;
    assert!(!secret_key_is_consistent(&corrupted));
    let mut corrupted = secret_key;
    corrupted[87] ^= 0x10;
    assert!(!secret_key_is_consistent(&corrupted));
    let (other, _) = keypair_from_seed(&[0xacu8; 32]).unwrap();
    assert_ne!(other, secret_key);
}

#[test]
fn byte_comparison_and_wiping() {
    assert!(ct_eq_bytes(b"abc", b"abc"));
    assert!(!ct_eq_bytes(b"abc", b"abd"));
    assert!(!ct_eq_bytes(b"abc", b"ab"));
    let mut buffer = [0x5au8; 9];
    wipe(&mut buffer);
    assert_eq!(buffer, [0u8; 9]);
}
