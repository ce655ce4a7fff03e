//! SHAKE128, the extendable-output function of the category-I transcript.

use vstd::prelude::*;
use sha3::digest::ExtendableOutput;

verus! {

/// The first `len` bytes of SHAKE128 on `input`.
pub uninterp spec fn shake128_output(input: Seq<u8>, len: nat) -> Seq<u8>;

/// The first `len` bytes of SHAKE128 on `input`, as a sequence of exactly
/// `len` bytes.
pub open spec fn shake128_bytes(input: Seq<u8>, len: nat) -> Seq<u8> {
    Seq::new(len, |i: int| shake128_output(input, len)[i])
}

/// SHAKE128 of `input`, filling `output` (sha3's `ExtendableOutput::digest_xof`
/// for `Shake128`); the contract claims that the bytes written are the first
/// `output.len()` bytes of the function's output, which depend on `input` and
/// that length alone.
#[verifier::external_body]
fn shake128_digest(input: &[u8], output: &mut [u8])
    ensures
        final(output)@.len() == old(output)@.len(),
        final(output)@ == shake128_output(input@, old(output)@.len() as nat),
{
    sha3::Shake128::digest_xof(input, output)
}

/// The concatenation of the views of a sequence of byte strings.
pub open spec fn concat_parts(parts: Seq<&[u8]>) -> Seq<u8> {
    parts.map_values(|p: &[u8]| p@).flatten()
}

/// An incremental SHAKE128 transcript.
pub struct Shake128State {
    absorbed: Vec<u8>,
}

impl View for Shake128State {
    type V = Seq<u8>;

    /// Everything absorbed so far.
    closed spec fn view(&self) -> Seq<u8> {
        self.absorbed@
    }
}

impl Shake128State {
    /// A transcript that has absorbed nothing.
    pub fn new() -> (r: Self)
        ensures
            r@ == Seq::<u8>::empty(),
    {
        Shake128State { absorbed: Vec::new() }
    }

    /// Append `data` to the transcript.
    pub fn absorb(&mut self, data: &[u8])
        ensures
            final(self)@ == old(self)@ + data@,
    {
        let ghost before = self.absorbed@;
        let mut i: usize = 0;
        while i < data.len()
            invariant
                i <= data@.len(),
                self.absorbed@ == before + data@.take(i as int),
            decreases data@.len() - i,
        {
            self.absorbed.push(data[i]);
            i += 1;
            proof {
                assert(data@.take(i as int) =~= data@.take(i - 1).push(data@[i - 1]));
            }
        }
        proof {
            assert(data@.take(data@.len() as int) =~= data@);
        }
    }

    /// Fill `output` with the SHAKE128 output of the transcript.
    pub fn squeeze(&self, output: &mut [u8])
        ensures
            final(output)@ == shake128_bytes(self@, old(output)@.len() as nat),
    {
        shake128_digest(self.absorbed.as_slice(), output);
        assert(output@ =~= shake128_bytes(self@, output@.len() as nat));
    }
}

/// SHAKE128 over the concatenation of `parts`, filling `output`.
pub fn shake128(parts: &[&[u8]], output: &mut [u8])
    ensures
        final(output)@ == shake128_bytes(concat_parts(parts@), old(output)@.len() as nat),
{
    let mut state = Shake128State::new();
    let mut i: usize = 0;
    while i < parts.len()
        invariant
            i <= parts@.len(),
            state@ == concat_parts(parts@.take(i as int)),
        decreases parts@.len() - i,
    {
        state.absorb(parts[i]);
        proof {
            let before = parts@.take(i as int).map_values(|p: &[u8]| p@);
            assert(parts@.take(i + 1).map_values(|p: &[u8]| p@) =~= before.push(parts@[i as int]@));
            before.lemma_flatten_push(parts@[i as int]@);
        }
        i += 1;
    }
    proof {
        assert(parts@.take(parts@.len() as int) =~= parts@);
    }
    state.squeeze(output);
}

} // verus!
