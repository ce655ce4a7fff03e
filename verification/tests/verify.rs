use mqom::params;
use mqom::verify::{
    CHALLENGE_STREAM_SIZE, NONCE_SIZE, bytes_at, challenge_from_stream, evaluation_point,
    parse_challenge, verify,
};
use mqom::xof::shake128;

#[test]
fn grinding_failure_is_rejected() {
    let hash = [0u8; params::DIGEST_SIZE];
    let nonce = [0u8; NONCE_SIZE];
    let mut stream = [0u8; CHALLENGE_STREAM_SIZE];
    shake128(&[&[0x05], &hash, &nonce], &mut stream);
    let grinding = u16::from_le_bytes([stream[2 * params::TAU], stream[2 * params::TAU + 1]]);
    assert_ne!(grinding & 0xff, 0);
    assert!(parse_challenge(&hash, nonce).is_none());
}

#[test]
fn wrong_lengths_are_rejected() {
    assert!(!verify(
        &[0u8; params::PUBLIC_KEY_SIZE - 1],
        b"",
        &[0u8; params::SIGNATURE_SIZE]
    ));
    assert!(!verify(
        &[0u8; params::PUBLIC_KEY_SIZE],
        b"",
        &[0u8; params::SIGNATURE_SIZE - 1]
    ));
}

#[test]
fn challenge_streams_select_leaf_indices() {
    let mut stream = [0u8; 26];
    for (index, byte) in stream.iter_mut().enumerate() {
        *byte = u8::try_from(index * 37 % 256).unwrap();
    }
    stream[24] = 0;
    stream[25] = 0xff;
    let indices = challenge_from_stream(&stream).unwrap();
    for execution in 0..12 {
        let value = u16::from_le_bytes([stream[2 * execution], stream[2 * execution + 1]]);
        assert_eq!(indices[execution], value & 0x7ff);
    }
    stream[24] = 1;
    assert!(challenge_from_stream(&stream).is_none());
}

#[test]
fn evaluation_points_are_gray_codes() {
    assert_eq!(evaluation_point(0).value(), 0);
    assert_eq!(evaluation_point(2).value(), 3);
    assert_eq!(evaluation_point(2047).value(), 1024);
}

#[test]
fn random_signatures_are_rejected() {
    let public_key = [0x11u8; params::PUBLIC_KEY_SIZE];
    let signature = [0x22u8; params::SIGNATURE_SIZE];
    assert!(!verify(&public_key, b"message", &signature));
}

#[test]
fn fixed_width_reads() {
    let bytes = [1u8, 2, 3, 4, 5];
    let read: [u8; 3] = bytes_at(&bytes, 2);
    assert_eq!(read, [3, 4, 5]);
}
