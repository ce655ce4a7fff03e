use mqom::mqom2_l1_gf16_short_r5::{
    PARAMETER_SET, PUBLIC_KEY_SIZE, SECRET_KEY_SIZE, SIGNATURE_SIZE, Signature, SigningKey,
    SigningKeyError, VerifyingKey,
};

fn test_signing_key() -> SigningKey {
    let seed = core::array::from_fn(|index| u8::try_from(index).unwrap());
    let (encoded, _) = mqom::keygen::keypair_from_seed(&seed).unwrap();
    SigningKey::from_slice(&encoded).unwrap()
}

#[test]
fn sizes_match_v2_1_1() {
    assert_eq!(PUBLIC_KEY_SIZE, 60);
    assert_eq!(SECRET_KEY_SIZE, 88);
    assert_eq!(SIGNATURE_SIZE, 2916);
}

#[test]
fn exact_lengths_are_enforced() {
    assert!(VerifyingKey::from_slice(&[0u8; PUBLIC_KEY_SIZE]).is_ok());
    assert!(VerifyingKey::from_slice(&[0u8; PUBLIC_KEY_SIZE - 1]).is_err());
    assert!(Signature::from_slice(&[0u8; SIGNATURE_SIZE]).is_ok());
    assert!(Signature::from_slice(&[0u8; SIGNATURE_SIZE + 1]).is_err());
    assert!(SigningKey::from_slice(&[0u8; SECRET_KEY_SIZE - 1]).is_err());
    assert!(SigningKey::from_slice(test_signing_key().to_bytes().as_ref()).is_ok());
}

#[test]
fn public_component_is_embedded_at_the_start_of_secret_key() {
    let key = test_signing_key();
    let encoded = key.to_bytes();
    assert_eq!(
        key.verifying_key().as_ref(),
        &encoded.as_ref()[..PUBLIC_KEY_SIZE]
    );
}

#[test]
fn inconsistent_secret_keys_are_rejected() {
    let key = test_signing_key();
    let mut encoded = *key.to_bytes().as_bytes();
    encoded[PUBLIC_KEY_SIZE] ^= 1;
    assert_eq!(
        SigningKey::from_slice(&encoded).err(),
        Some(SigningKeyError::Inconsistent)
    );
}

#[test]
fn generated_keys_sign_verify_and_reject_mutations() {
    let randomness: [u8; 64] = core::array::from_fn(|index| u8::try_from(index).unwrap());
    let seed: [u8; 32] = randomness[..32].try_into().unwrap();
    let master_seed: [u8; 16] = randomness[32..48].try_into().unwrap();
    let salt: [u8; 16] = randomness[48..].try_into().unwrap();
    let key = SigningKey::from_seed(&seed).unwrap();
    let verifying_key = key.verifying_key();
    let message = b"native MQOM";
    let signature = key.sign_with_randomness(&master_seed, &salt, message).unwrap();
    verifying_key.verify(message, &signature).unwrap();

    for position in [0, 16, 48, 80, 272, SIGNATURE_SIZE - 1] {
        let mut encoded = signature.to_bytes();
        encoded[position] ^= 1;
        let mutated = Signature::from_slice(&encoded).unwrap();
        assert!(verifying_key.verify(message, &mutated).is_err());
    }

    let mut mutated_message = *message;
    mutated_message[0] ^= 1;
    assert!(verifying_key.verify(&mutated_message, &signature).is_err());

    let mut mutated_key = verifying_key.to_bytes();
    mutated_key[PUBLIC_KEY_SIZE - 1] ^= 1;
    assert!(
        VerifyingKey::from_slice(&mutated_key)
            .unwrap()
            .verify(message, &signature)
            .is_err()
    );
}

#[test]
fn encoding_errors_report_both_lengths() {
    let error = VerifyingKey::from_slice(&[0u8; 7]).unwrap_err();
    assert_eq!(error.expected(), PUBLIC_KEY_SIZE);
    assert_eq!(error.actual(), 7);
    let error = Signature::from_slice(&[]).err().unwrap();
    assert_eq!((error.expected(), error.actual()), (SIGNATURE_SIZE, 0));
    match SigningKey::from_slice(&[0u8; SECRET_KEY_SIZE + 2]).err() {
        Some(SigningKeyError::InvalidLength(error)) => {
            assert_eq!((error.expected(), error.actual()), (SECRET_KEY_SIZE, SECRET_KEY_SIZE + 2));
        },
        _ => panic!("a wrong length must be reported as such"),
    }
    assert_eq!(PARAMETER_SET, "MQOM2-L1-gf16-short-r5");
}

#[test]
fn encodings_round_trip() {
    let key = test_signing_key();
    let verifying_key = key.verifying_key();
    let reparsed = VerifyingKey::from_slice(&verifying_key.to_bytes()).unwrap();
    assert_eq!(reparsed, verifying_key);
    assert_eq!(reparsed.as_slice(), verifying_key.as_ref());
    let bytes = [0x5au8; SIGNATURE_SIZE];
    let signature = Signature::from_slice(&bytes).unwrap();
    assert_eq!(signature.to_bytes(), bytes);
    assert_eq!(signature.as_slice(), signature.as_ref());
    let exported = key.to_bytes();
    assert_eq!(exported.as_slice(), &exported.as_bytes()[..]);
    assert!(SigningKey::from_seed(&[5u8; 32]).is_ok());
}

#[test]
fn wiping_leaves_the_consistent_zero_key() {
    let seed: [u8; 32] = core::array::from_fn(|index| u8::try_from(index * 7 % 256).unwrap());
    let mut key = SigningKey::from_seed(&seed).unwrap();
    let mut exported = key.to_bytes();
    assert!(exported.as_bytes().iter().any(|&byte| byte != 0));
    exported.wipe();
    assert_eq!(exported.as_bytes(), &[0u8; 88]);
    let copy = key.duplicate();
    key.wipe();
    assert_eq!(key.to_bytes().as_bytes(), &[0u8; 88]);
    assert!(copy.to_bytes().as_bytes().iter().any(|&byte| byte != 0));
    assert!(SigningKey::from_slice(&[0u8; 88]).is_ok());
}
