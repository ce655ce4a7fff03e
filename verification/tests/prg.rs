use mqom::prg::{
    BLOCK_SIZE, Generator, SeedDeriver, fill, linear_orthomorphism, tweak_salt,
    tweak_salt_with_selector,
};

#[test]
fn linear_map_matches_definition() {
    let seed = [
        0x00, 0x01, 0x02, 0x03, 0x04, 0x05, 0x06, 0x07, 0x08, 0x09, 0x0a, 0x0b, 0x0c, 0x0d, 0x0e,
        0x0f,
    ];
    assert_eq!(
        linear_orthomorphism(&seed),
        [
            0x08, 0x08, 0x08, 0x08, 0x08, 0x08, 0x08, 0x08, 0x00, 0x01, 0x02, 0x03, 0x04, 0x05,
            0x06, 0x07,
        ]
    );
}

#[test]
fn tweak_is_little_endian_and_domain_separated() {
    let salt = [0x55; BLOCK_SIZE];
    let tweaked = tweak_salt(&salt, 2, 0x1234);
    assert_eq!(tweaked[0], 0x55 ^ 0x0b);
    assert_eq!(tweaked[1], 0x55 ^ 0x34);
    assert_eq!(tweaked[2], 0x55 ^ 0x12);
    assert_eq!(&tweaked[3..], &[0x55; BLOCK_SIZE - 3]);
}

#[test]
fn partial_output_is_a_prefix_of_full_blocks() {
    let salt = [0x33; BLOCK_SIZE];
    let seed = [0xa5; BLOCK_SIZE];
    let mut short = [0u8; BLOCK_SIZE + 3];
    let mut full = [0u8; 2 * BLOCK_SIZE];
    assert!(fill(&salt, 7, &seed, &mut short));
    assert!(fill(&salt, 7, &seed, &mut full));
    assert_eq!(short, full[..short.len()]);
}

#[test]
fn stream_matches_v2_1_1_oracle() {
    let salt = core::array::from_fn(|index| u8::try_from(index).unwrap());
    let seed = core::array::from_fn(|index| 0xf0 + u8::try_from(index).unwrap());
    let mut output = [0u8; 35];
    assert!(fill(&salt, 2, &seed, &mut output));
    assert_eq!(
        output,
        [
            0xb5, 0xf7, 0x35, 0x5f, 0xe7, 0xd1, 0xa8, 0xa0, 0x0e, 0xd2, 0xcc, 0x1d, 0x9a, 0xf0, 0x41,
            0x10, 0x1e, 0x33, 0x2e, 0x1b, 0x53, 0x44, 0x8e, 0x0c, 0x09, 0x8b, 0x23, 0xb6, 0x63, 0x7e,
            0x8b, 0xc8, 0xc2, 0x21, 0xbf,
        ]
    );
}

#[test]
fn selectors_separate_the_tweaks() {
    let salt = [0u8; BLOCK_SIZE];
    let tree = tweak_salt_with_selector(&salt, 2, 1, 7);
    assert_eq!(tree[0], 2 + 4);
    assert_eq!(tree[1], 7);
    assert_eq!(tweak_salt(&salt, 1, 7)[0], 3 + 4);
    assert_eq!(tweak_salt_with_selector(&salt, 3, 64, 0)[0], 3);
}

#[test]
fn seed_derivation_depends_on_key_and_seed() {
    let deriver = SeedDeriver::new(&[1u8; 16]);
    let other = SeedDeriver::new(&[2u8; 16]);
    let seed = [0x5au8; 16];
    let derived = deriver.derive(&seed);
    assert_eq!(derived, deriver.derive(&seed));
    assert_ne!(derived, other.derive(&seed));
    assert_ne!(derived, seed);
}

#[test]
fn generators_fill_exactly_their_length() {
    let salt = [0x33; BLOCK_SIZE];
    let seed = [0xa5; BLOCK_SIZE];
    let generator = Generator::new(&salt, 7, 19).unwrap();
    let mut output = [0u8; 19];
    assert!(generator.fill(&seed, &mut output));
    let mut expected = [0u8; 19];
    assert!(fill(&salt, 7, &seed, &mut expected));
    assert_eq!(output, expected);
    let mut wrong = [9u8; 20];
    assert!(!generator.fill(&seed, &mut wrong));
    assert_eq!(wrong, [9u8; 20]);
    assert!(Generator::new(&salt, 7, 16 * 65536).is_some());
    assert!(Generator::new(&salt, 7, 16 * 65536 + 1).is_none());
}
