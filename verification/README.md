# mqom

A Verus library for the MQOM v2 post-quantum signature scheme, profile
`MQOM2-L1-gf16-short-r5` (release v2.1.1): its field arithmetic, seed trees,
commitments, transcripts, encodings, key generation, signing and
verification, each stated by a contract and proved.

## Layout

- `src/field.rs`: GF(16), GF(256) and GF(256^2), packing of GF(16) vectors.
- `src/algebra.rs`: ring laws of the fields (commutativity, associativity,
  distributivity, inverses in GF(256^2)) and linearity of sums.
- `src/params.rs`, `src/xof.rs`, `src/prg.rs`, `src/mq.rs`: parameters,
  SHAKE128, the AES-based generator, and the MQ system.
- `src/blc.rs`: seed trees, Gray-code folding, commitment and opening.
- `src/hidden_point.rs`: what an honest opening reveals at the hidden leaf.
- `src/keygen.rs`, `src/sign.rs`, `src/verify.rs`: the scheme.
- `src/completeness.rs`: every signature the signer assembles verifies.
- `src/kat.rs`: the known-answer-test DRBG and response checker.
- `src/mqom2_l1_gf16_short_r5/`: the public key, signature and signing-key
  types.
- `tests/`: executable tests of the library.
- `app/`: the parts that need I/O or outside traits: random-number
  generators, formatting, and the command that builds the upstream
  known-answer-test generator and checks its responses.

Outside crates are reached through a few trusted wrappers: `aes` (AES-128
and AES-256 block encryption), `sha3` (SHAKE128), `subtle` (constant-time
equality), `zeroize` (wiping buffers) and `signature` (its error type).
