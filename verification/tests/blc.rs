use mqom::blc::{
    SeedCommitter, commit, evaluate_opening, fully_expand_tree, gray_code, gray_code_bit_position,
    opening_path, parse_extension_vector, partially_expand_tree, xor_bytes,
};
use mqom::field::{Gf16, Gf256x2};
use mqom::params;

#[test]
fn gray_code_cycle_has_one_bit_transitions() {
    for index in 0..params::NB_EVALS {
        let position = gray_code_bit_position(index).unwrap();
        assert!(position < params::NB_EVALS_LOG);
        let current = gray_code(index).unwrap();
        let next = if index + 1 < params::NB_EVALS {
            gray_code(index + 1).unwrap()
        } else {
            0
        };
        assert_eq!(current ^ next, 1 << position);
    }
}

#[test]
fn malformed_opening_is_rejected_before_expansion() {
    assert!(
        evaluate_opening(
            &[0u8; params::SALT_SIZE],
            &[0u8; params::DIGEST_SIZE],
            &[0u8; params::OPENING_SIZE - 1],
            &[0u16; params::TAU],
        )
        .is_none()
    );
}

#[test]
fn gray_codes_of_small_indices() {
    assert_eq!(gray_code(0), Some(0));
    assert_eq!(gray_code(1), Some(1));
    assert_eq!(gray_code(2), Some(3));
    assert_eq!(gray_code(3), Some(2));
    assert_eq!(gray_code(0x1_0000), None);
    assert_eq!(gray_code_bit_position(0), Some(0));
    assert_eq!(gray_code_bit_position(1), Some(1));
    assert_eq!(gray_code_bit_position(2047), Some(10));
    assert_eq!(gray_code_bit_position(2048), Some(10));
    assert_eq!(gray_code_bit_position(4096), None);
    assert_eq!(gray_code_bit_position(0x1_0000), None);
}

#[test]
fn partial_expansion_reproduces_every_leaf_but_the_hidden_one() {
    let salt = [0x11u8; 16];
    let root = [0x22u8; 16];
    let delta = [0x33u8; 16];
    let execution = 5;
    let hidden = 1234usize;
    let tree = fully_expand_tree(&salt, &root, &delta, execution);
    let mut path = [0u8; 176];
    let leaf = opening_path(&salt, &root, &delta, execution, hidden, &mut path).unwrap();
    assert_eq!(leaf, tree[2048 + hidden]);
    let leaves = partially_expand_tree(&salt, &path, execution, hidden).unwrap();
    assert_eq!(leaves.len(), 2048);
    for j in 0..2048 {
        if j == hidden {
            assert_eq!(leaves[j], [0u8; 16]);
        } else {
            assert_eq!(leaves[j], tree[2048 + j]);
        }
    }
    assert_eq!(tree[3], core::array::from_fn(|k| tree[2][k] ^ delta[k]));
}

#[test]
fn tree_requests_out_of_range_are_rejected() {
    let salt = [0u8; 16];
    let mut path = [7u8; 176];
    assert!(opening_path(&salt, &salt, &salt, 0, 2048, &mut path).is_none());
    assert_eq!(path, [7u8; 176]);
    let mut short = [0u8; 175];
    assert!(opening_path(&salt, &salt, &salt, 0, 0, &mut short).is_none());
    assert!(partially_expand_tree(&salt, &path, 0, 2048).is_none());
    assert!(partially_expand_tree(&salt, &short, 0, 0).is_none());
}

fn secret_vector() -> [Gf16; 56] {
    core::array::from_fn(|index| Gf16::new(u8::try_from(index % 16).unwrap()))
}

#[test]
fn honest_openings_reproduce_the_commitment() {
    let master_seed = [0x42u8; 16];
    let salt = [0x24u8; 16];
    let commitment = commit(&master_seed, &salt, &secret_vector()).unwrap();
    let hidden: [u16; 12] = core::array::from_fn(|e| u16::try_from(e * 170 + 3).unwrap());
    let opening = commitment.open(&hidden).unwrap();
    assert!(evaluate_opening(&salt, &commitment.commitment, &opening, &hidden).is_some());

    let mut tampered = opening;
    tampered[2500] ^= 1;
    assert!(evaluate_opening(&salt, &commitment.commitment, &tampered, &hidden).is_none());
    let mut other_hidden = hidden;
    other_hidden[0] ^= 1;
    assert!(evaluate_opening(&salt, &commitment.commitment, &opening, &other_hidden).is_none());
    let mut out_of_range = hidden;
    out_of_range[11] = 2048;
    assert!(commitment.open(&out_of_range).is_none());
    assert!(evaluate_opening(&salt, &commitment.commitment, &opening, &out_of_range).is_none());
}

#[test]
fn seed_commitments_bind_the_seed_and_the_execution() {
    let salt = [9u8; 16];
    let first = SeedCommitter::new(&salt, 0);
    let second = SeedCommitter::new(&salt, 1);
    let seed = [1u8; 16];
    let mut other_seed = seed;
    other_seed[15] ^= 0x80;
    assert_eq!(first.commit(&seed), first.commit(&seed));
    assert_ne!(first.commit(&seed), first.commit(&other_seed));
    assert_ne!(first.commit(&seed), second.commit(&seed));
}

#[test]
fn xor_and_parsing_reject_mismatched_lengths() {
    let mut destination = [0x0fu8, 0xf0];
    assert!(xor_bytes(&mut destination, &[0xff]).is_none());
    assert_eq!(destination, [0x0f, 0xf0]);
    assert!(xor_bytes(&mut destination, &[0xff, 0xff]).is_some());
    assert_eq!(destination, [0xf0, 0x0f]);

    assert!(parse_extension_vector::<2>(&[1, 2, 3]).is_none());
    let parsed = parse_extension_vector::<2>(&[0x34, 0x12, 0x78, 0x56]).unwrap();
    assert_eq!(parsed[0].value(), 0x1234);
    assert_eq!(parsed[1].value(), 0x5678);
}

#[test]
fn honest_openings_reveal_the_lines_at_the_hidden_points() {
    let master_seed = [0x17u8; 16];
    let salt = [0x71u8; 16];
    let secret = secret_vector();
    let commitment = commit(&master_seed, &salt, &secret).unwrap();
    let hidden: [u16; 12] = core::array::from_fn(|e| u16::try_from(e * 131 + 5).unwrap());
    let opening = commitment.open(&hidden).unwrap();
    let evaluations = evaluate_opening(&salt, &commitment.commitment, &opening, &hidden).unwrap();
    for e in 0..12 {
        let point = Gf256x2::from_bytes(gray_code(usize::from(hidden[e])).unwrap().to_le_bytes());
        for k in 0..56 {
            let expected = commitment.x_zero[e][k] + secret[k] * point;
            assert_eq!(evaluations.x[e][k].to_bytes(), expected.to_bytes());
        }
        for c in 0..8 {
            let expected = commitment.u_zero[e][c] + point * commitment.u_one[e][c];
            assert_eq!(evaluations.u[e][c].to_bytes(), expected.to_bytes());
        }
    }
}
