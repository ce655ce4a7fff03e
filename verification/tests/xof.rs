use mqom::xof::{Shake128State, shake128};

#[test]
fn empty_input_matches_fips_202() {
    let mut output = [0u8; 32];
    shake128(&[], &mut output);
    assert_eq!(
        output,
        [
            0x7f, 0x9c, 0x2b, 0xa4, 0xe8, 0x8f, 0x82, 0x7d, 0x61, 0x60, 0x45, 0x50, 0x76, 0x05, 0x85,
            0x3e, 0xd7, 0x3b, 0x80, 0x93, 0xf6, 0xef, 0xbc, 0x88, 0xeb, 0x1a, 0x6e, 0xac, 0xfa, 0x66,
            0xef, 0x26,
        ]
    );
}

#[test]
fn updates_are_stream_equivalent() {
    let mut joined = [0u8; 64];
    let mut split = [0u8; 64];
    shake128(&[b"mqom-rs"], &mut joined);
    shake128(&[b"mqom", b"-", b"rs"], &mut split);
    assert_eq!(joined, split);
}

#[test]
fn incremental_transcripts_match_one_shot_hashing() {
    let mut state = Shake128State::new();
    state.absorb(b"mq");
    state.absorb(b"");
    state.absorb(b"om");
    let mut incremental = [0u8; 40];
    state.squeeze(&mut incremental);
    let mut one_shot = [0u8; 40];
    shake128(&[b"mqom"], &mut one_shot);
    assert_eq!(incremental, one_shot);

    let mut shorter = [0u8; 8];
    state.squeeze(&mut shorter);
    assert_eq!(shorter, incremental[..8]);
    let mut different = [0u8; 8];
    shake128(&[b"mqon"], &mut different);
    assert_ne!(different, shorter);
}
