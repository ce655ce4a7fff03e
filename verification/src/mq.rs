//! Expansion and arithmetic for the packed MQ system.

use vstd::prelude::*;
use crate::field::{Gf16, Gf256x2, gf16_values, gf256x2_add, gf256x2_mul, gf256x2_scale};
use crate::params;
use crate::prg;
use crate::xof;

verus! {

broadcast use crate::field::group_field_ops;

/// Number of equations over the extension field.
pub const EQUATION_COUNT: usize = 14;

/// Number of coefficients of a lower-triangular `MQ_N x MQ_N` matrix.
pub const TRIANGULAR_ELEMENT_COUNT: usize = 1596;

/// Number of coefficients of one equation.
pub const EQUATION_ELEMENT_COUNT: usize = 1652;

/// Byte length of the generator stream of one equation.
pub const EQUATION_BYTE_COUNT: usize = 3304;

/// Byte length of the master seed of the MQ system.
pub const MASTER_SEED_SIZE: usize = 32;

/// The triangular number `0 + 1 + ... + i`, the offset of row `i` in a packed
/// lower-triangular matrix.
pub open spec fn tri(i: nat) -> nat
    decreases i,
{
    if i == 0 {
        0
    } else {
        tri((i - 1) as nat) + i
    }
}

/// The triangular numbers have their closed form and grow with `i`.
pub proof fn lemma_tri(i: nat, j: nat)
    ensures
        2 * tri(i) == i * (i + 1),
        i <= j ==> tri(i) + i <= tri(j) + j,
    decreases i + j,
{
    if i > 0 {
        lemma_tri((i - 1) as nat, 0);
        assert(2 * tri(i) == i * (i + 1)) by (nonlinear_arith)
            requires
                2 * tri((i - 1) as nat) == (i - 1) * i,
                tri(i) == tri((i - 1) as nat) + i,
        ;
    }
    if i < j {
        lemma_tri(i, (j - 1) as nat);
    }
}

/// The field values of a sequence of GF(256^2) elements.
pub open spec fn ext_values(elements: Seq<Gf256x2>) -> Seq<(u8, u8)> {
    elements.map_values(|e: Gf256x2| e@)
}

/// The sum of a sequence of GF(256^2) elements, accumulated from the first.
pub open spec fn sum_ext(terms: Seq<(u8, u8)>) -> (u8, u8)
    decreases terms.len(),
{
    if terms.len() == 0 {
        (0u8, 0u8)
    } else {
        gf256x2_add(sum_ext(terms.drop_last()), terms.last())
    }
}

/// The products of row `i` of the packed matrix `q` with a base-field vector.
pub open spec fn base_row_terms(q: Seq<(u8, u8)>, x: Seq<u8>, i: int) -> Seq<(u8, u8)> {
    Seq::new((i + 1) as nat, |j: int| gf256x2_scale(x[j], q[tri(i as nat) + j]))
}

/// The lower-triangular matrix `q` times a base-field vector.
pub open spec fn multiply_base_spec(q: Seq<(u8, u8)>, x: Seq<u8>) -> Seq<(u8, u8)> {
    Seq::new(params::MQ_N as nat, |i: int| sum_ext(base_row_terms(q, x, i)))
}

/// The products of row `i` of the packed matrix `q` with an extension-field
/// vector.
pub open spec fn ext_row_terms(q: Seq<(u8, u8)>, v: Seq<(u8, u8)>, i: int) -> Seq<(u8, u8)> {
    Seq::new((i + 1) as nat, |j: int| gf256x2_mul(q[tri(i as nat) + j], v[j]))
}

/// The lower-triangular matrix `q` times an extension-field vector.
pub open spec fn multiply_extension_spec(q: Seq<(u8, u8)>, v: Seq<(u8, u8)>) -> Seq<(u8, u8)> {
    Seq::new(params::MQ_N as nat, |i: int| sum_ext(ext_row_terms(q, v, i)))
}

/// The terms of `x^T A x + b^T x`: for each `i`, `x_i (A x)_i` then `x_i b_i`.
pub open spec fn evaluate_terms(q: Seq<(u8, u8)>, linear: Seq<(u8, u8)>, x: Seq<u8>) -> Seq<
    (u8, u8),
> {
    let ax = multiply_base_spec(q, x);
    Seq::new(
        2 * params::MQ_N as nat,
        |k: int|
            if k % 2 == 0 {
                gf256x2_scale(x[k / 2], ax[k / 2])
            } else {
                gf256x2_scale(x[k / 2], linear[k / 2])
            },
    )
}

/// The value `x^T A x + b^T x` of the equation `(A, b)` at `x`.
pub open spec fn evaluate_base_spec(q: Seq<(u8, u8)>, linear: Seq<(u8, u8)>, x: Seq<u8>) -> (
    u8,
    u8,
) {
    sum_ext(evaluate_terms(q, linear, x))
}

/// Adding the next term extends the running sum.
pub proof fn lemma_sum_ext_step(terms: Seq<(u8, u8)>, j: int)
    requires
        0 <= j < terms.len(),
    ensures
        sum_ext(terms.take(j + 1)) == gf256x2_add(sum_ext(terms.take(j)), terms[j]),
{
    assert(terms.take(j + 1).drop_last() =~= terms.take(j));
}

/// One lower-triangular packed quadratic equation and its linear vector.
pub struct PackedEquation {
    quadratic: Vec<Gf256x2>,
    linear: [Gf256x2; 56],
}

impl PackedEquation {
    #[verifier::type_invariant]
    spec fn well_formed(self) -> bool {
        self.quadratic@.len() == TRIANGULAR_ELEMENT_COUNT
    }

    /// The coefficients of the packed lower-triangular matrix, row by row.
    pub closed spec fn quadratic_spec(&self) -> Seq<(u8, u8)> {
        ext_values(self.quadratic@)
    }

    /// The coefficients of the linear part.
    pub closed spec fn linear_spec(&self) -> Seq<(u8, u8)> {
        ext_values(self.linear@)
    }

    /// The equation with the given packed matrix and linear vector, if the
    /// matrix has exactly the lower-triangular number of coefficients.
    pub fn new(quadratic: Vec<Gf256x2>, linear: [Gf256x2; 56]) -> (r: Option<Self>)
        ensures
            r is Some <==> quadratic@.len() == TRIANGULAR_ELEMENT_COUNT,
            r matches Some(e) ==> e.quadratic_spec() == ext_values(quadratic@)
                && e.linear_spec() == ext_values(linear@),
    {
        if quadratic.len() != TRIANGULAR_ELEMENT_COUNT {
            return None;
        }
        Some(PackedEquation { quadratic, linear })
    }

    /// The packed lower-triangular matrix.
    pub fn quadratic(&self) -> (r: &[Gf256x2])
        ensures
            ext_values(r@) == self.quadratic_spec(),
            r@.len() == TRIANGULAR_ELEMENT_COUNT,
    {
        proof {
            use_type_invariant(self);
        }
        self.quadratic.as_slice()
    }

    /// The linear vector.
    pub fn linear(&self) -> (r: &[Gf256x2; 56])
        ensures
            ext_values(r@) == self.linear_spec(),
    {
        &self.linear
    }

    /// Multiply the lower-triangular matrix by a base-field vector.
    pub fn multiply_base(&self, vector: &[Gf16; 56]) -> (r: [Gf256x2; 56])
        ensures
            ext_values(r@) == multiply_base_spec(self.quadratic_spec(), gf16_values(vector@)),
    {
        proof {
            use_type_invariant(self);
        }
        let ghost q = self.quadratic_spec();
        let ghost x = gf16_values(vector@);
        let mut output = [Gf256x2::zero(); 56];
        let mut offset: usize = 0;
        let mut row: usize = 0;
        while row < 56
            invariant
                row <= 56,
                offset == tri(row as nat),
                q == self.quadratic_spec(),
                x == gf16_values(vector@),
                self.quadratic@.len() == TRIANGULAR_ELEMENT_COUNT,
                forall|i: int|
                    0 <= i < row ==> #[trigger] output@[i]@ == sum_ext(base_row_terms(q, x, i)),
            decreases 56 - row,
        {
            proof {
                lemma_tri(row as nat, 55);
                lemma_tri(55, 0);
            }
            let mut acc = Gf256x2::zero();
            let mut j: usize = 0;
            let ghost terms = base_row_terms(q, x, row as int);
            while j <= row
                invariant
                    row < 56,
                    j <= row + 1,
                    offset == tri(row as nat),
                    offset + row < TRIANGULAR_ELEMENT_COUNT,
                    q == self.quadratic_spec(),
                    x == gf16_values(vector@),
                    self.quadratic@.len() == TRIANGULAR_ELEMENT_COUNT,
                    terms == base_row_terms(q, x, row as int),
                    acc@ == sum_ext(terms.take(j as int)),
                decreases row + 1 - j,
            {
                proof {
                    lemma_sum_ext_step(terms, j as int);
                }
                acc = acc + vector[j] * self.quadratic[offset + j];
                j += 1;
            }
            assert(terms.take(row + 1) =~= terms);
            output[row] = acc;
            offset += row + 1;
            row += 1;
        }
        assert(ext_values(output@) =~= multiply_base_spec(q, x));
        output
    }

    /// Multiply the lower-triangular matrix by an extension-field vector.
    pub fn multiply_extension(&self, vector: &[Gf256x2; 56]) -> (r: [Gf256x2; 56])
        ensures
            ext_values(r@) == multiply_extension_spec(self.quadratic_spec(), ext_values(vector@)),
    {
        proof {
            use_type_invariant(self);
        }
        let ghost q = self.quadratic_spec();
        let ghost v = ext_values(vector@);
        let mut output = [Gf256x2::zero(); 56];
        let mut offset: usize = 0;
        let mut row: usize = 0;
        while row < 56
            invariant
                row <= 56,
                offset == tri(row as nat),
                q == self.quadratic_spec(),
                v == ext_values(vector@),
                self.quadratic@.len() == TRIANGULAR_ELEMENT_COUNT,
                forall|i: int|
                    0 <= i < row ==> #[trigger] output@[i]@ == sum_ext(ext_row_terms(q, v, i)),
            decreases 56 - row,
        {
            proof {
                lemma_tri(row as nat, 55);
                lemma_tri(55, 0);
            }
            let mut acc = Gf256x2::zero();
            let mut j: usize = 0;
            let ghost terms = ext_row_terms(q, v, row as int);
            while j <= row
                invariant
                    row < 56,
                    j <= row + 1,
                    offset == tri(row as nat),
                    offset + row < TRIANGULAR_ELEMENT_COUNT,
                    q == self.quadratic_spec(),
                    v == ext_values(vector@),
                    self.quadratic@.len() == TRIANGULAR_ELEMENT_COUNT,
                    terms == ext_row_terms(q, v, row as int),
                    acc@ == sum_ext(terms.take(j as int)),
                decreases row + 1 - j,
            {
                proof {
                    lemma_sum_ext_step(terms, j as int);
                }
                acc = acc + self.quadratic[offset + j] * vector[j];
                j += 1;
            }
            assert(terms.take(row + 1) =~= terms);
            output[row] = acc;
            offset += row + 1;
            row += 1;
        }
        assert(ext_values(output@) =~= multiply_extension_spec(q, v));
        output
    }

    /// Evaluate `x^T A x + b^T x` for a base-field vector.
    pub fn evaluate_base(&self, vector: &[Gf16; 56]) -> (r: Gf256x2)
        ensures
            r@ == evaluate_base_spec(
                self.quadratic_spec(),
                self.linear_spec(),
                gf16_values(vector@),
            ),
    {
        let matrix_product = self.multiply_base(vector);
        let ghost terms = evaluate_terms(
            self.quadratic_spec(),
            self.linear_spec(),
            gf16_values(vector@),
        );
        let mut result = Gf256x2::zero();
        let mut i: usize = 0;
        while i < 56
            invariant
                i <= 56,
                terms == evaluate_terms(
                    self.quadratic_spec(),
                    self.linear_spec(),
                    gf16_values(vector@),
                ),
                ext_values(matrix_product@) == multiply_base_spec(
                    self.quadratic_spec(),
                    gf16_values(vector@),
                ),
                result@ == sum_ext(terms.take(2 * i)),
            decreases 56 - i,
        {
            proof {
                lemma_sum_ext_step(terms, 2 * i);
                lemma_sum_ext_step(terms, 2 * i + 1);
                assert((2 * i) / 2 == i && (2 * i + 1) / 2 == i && (2 * i) % 2 == 0 && (2 * i + 1)
                    % 2 == 1);
            }
            result = result + vector[i] * matrix_product[i];
            result = result + vector[i] * self.linear[i];
            i += 1;
        }
        assert(terms.take(112) =~= terms);
        result
    }
}

/// The 16-byte all-zero salt of the public expansion.
pub open spec fn zero_salt() -> Seq<u8> {
    Seq::new(16, |i: int| 0u8)
}

/// The little-endian encoding of a 16-bit value.
pub open spec fn le_u16(value: u16) -> Seq<u8> {
    seq![(value % 256) as u8, (value / 256) as u8]
}

/// The generator seed of equation `index`:
/// `SHAKE128(0x01 || master_seed || le16(index))` truncated to a seed.
pub open spec fn equation_seed_spec(master_seed: Seq<u8>, index: u16) -> Seq<u8> {
    xof::shake128_bytes(seq![1u8] + master_seed + le_u16(index), 16)
}

/// The generator stream from which equation `index` is decoded.
pub open spec fn equation_stream_spec(master_seed: Seq<u8>, index: u16) -> Seq<u8> {
    prg::prg_stream(zero_salt(), 0, equation_seed_spec(master_seed, index), 3304)
}

/// The element encoded little-endian at element offset `k` of `bytes`.
pub open spec fn decode_ext_at(bytes: Seq<u8>, k: int) -> (u8, u8) {
    (bytes[2 * k], bytes[2 * k + 1])
}

/// The packed matrix of equation `index`.
pub open spec fn expanded_quadratic(master_seed: Seq<u8>, index: u16) -> Seq<(u8, u8)> {
    Seq::new(
        1596,
        |k: int| decode_ext_at(equation_stream_spec(master_seed, index), k),
    )
}

/// The linear vector of equation `index`.
pub open spec fn expanded_linear(master_seed: Seq<u8>, index: u16) -> Seq<(u8, u8)> {
    Seq::new(
        56,
        |k: int| decode_ext_at(equation_stream_spec(master_seed, index), 1596 + k),
    )
}

/// The concatenation of three byte strings, as absorbed by the transcript.
pub proof fn lemma_concat3(parts: Seq<&[u8]>)
    requires
        parts.len() == 3,
    ensures
        xof::concat_parts(parts) == parts[0]@ + parts[1]@ + parts[2]@,
{
    let (a, b, c) = (parts[0], parts[1], parts[2]);
    let views = parts.map_values(|p: &[u8]| p@);
    assert(views =~= seq![a@, b@, c@]);
    assert(seq![a@, b@, c@].drop_first() =~= seq![b@, c@]);
    assert(seq![b@, c@].drop_first() =~= seq![c@]);
    assert(seq![c@].drop_first() =~= Seq::<Seq<u8>>::empty());
    reveal_with_fuel(Seq::flatten, 4);
    assert(views.flatten() =~= a@ + b@ + c@);
}

/// Expand equation `equation_index` of the MQ system of `master_seed`;
/// `None` unless the index is below the number of equations.
pub fn expand_equation(master_seed: &[u8; 32], equation_index: usize) -> (r: Option<PackedEquation>)
    ensures
        r is Some <==> equation_index < EQUATION_COUNT,
        r matches Some(e) ==> e.quadratic_spec() == expanded_quadratic(
            master_seed@,
            equation_index as u16,
        ) && e.linear_spec() == expanded_linear(master_seed@, equation_index as u16),
{
    if equation_index >= EQUATION_COUNT {
        return None;
    }
    let index = equation_index as u16;
    let prefix = [1u8];
    let index_bytes = [(index % 256) as u8, (index / 256) as u8];
    let mut equation_seed = [0u8; 16];
    let p0 = prefix.as_slice();
    let p1 = master_seed.as_slice();
    let p2 = index_bytes.as_slice();
    let parts = [p0, p1, p2];
    proof {
        lemma_concat3(parts@);
        assert(prefix@ =~= seq![1u8]);
        assert(index_bytes@ =~= le_u16(index));
    }
    xof::shake128(parts.as_slice(), &mut equation_seed);
    let salt = [0u8; 16];
    let mut stream = [0u8; 3304];
    let filled = prg::fill(&salt, 0, &equation_seed, &mut stream);
    proof {
        assert(salt@ =~= zero_salt());
    }
    if !filled {
        return None;
    }
    let ghost s = equation_stream_spec(master_seed@, index);
    assert(stream@ == s);
    let mut quadratic: Vec<Gf256x2> = Vec::new();
    let mut k: usize = 0;
    while k < TRIANGULAR_ELEMENT_COUNT
        invariant
            k <= TRIANGULAR_ELEMENT_COUNT,
            stream@ == s,
            quadratic@.len() == k,
            forall|i: int| 0 <= i < k ==> #[trigger] quadratic@[i]@ == decode_ext_at(s, i),
        decreases TRIANGULAR_ELEMENT_COUNT - k,
    {
        quadratic.push(Gf256x2::from_bytes([stream[2 * k], stream[2 * k + 1]]));
        k += 1;
    }
    let mut linear = [Gf256x2::zero(); 56];
    let mut k: usize = 0;
    while k < 56
        invariant
            k <= 56,
            stream@ == s,
            forall|i: int|
                0 <= i < k ==> #[trigger] linear@[i]@ == decode_ext_at(s, TRIANGULAR_ELEMENT_COUNT + i),
        decreases 56 - k,
    {
        let offset = 2 * (TRIANGULAR_ELEMENT_COUNT + k);
        linear[k] = Gf256x2::from_bytes([stream[offset], stream[offset + 1]]);
        k += 1;
    }
    assert(ext_values(quadratic@) =~= expanded_quadratic(master_seed@, index));
    assert(ext_values(linear@) =~= expanded_linear(master_seed@, index));
    PackedEquation::new(quadratic, linear)
}


/// Equation `index` of the system of `master_seed` is read from the
/// generator stream, under the all-zero salt and execution index 0, of the
/// seed `SHAKE128(0x01 || master_seed || le16(index))`: its matrix from the
/// first 3192 bytes and its linear vector from the next 112, each element
/// little-endian.
pub proof fn lemma_equation_expansion(master_seed: Seq<u8>, index: u16)
    ensures
        ({
            let stream = prg::prg_stream(
                Seq::new(16, |i: int| 0u8),
                0,
                xof::shake128_bytes(
                    seq![1u8] + master_seed + seq![(index % 256) as u8, (index / 256) as u8],
                    16,
                ),
                3304,
            );
            &&& expanded_quadratic(master_seed, index).len() == 1596
            &&& expanded_linear(master_seed, index).len() == 56
            &&& forall|k: int|
                0 <= k < 1596 ==> #[trigger] expanded_quadratic(master_seed, index)[k] == (
                    stream[2 * k],
                    stream[2 * k + 1],
                )
            &&& forall|k: int|
                0 <= k < 56 ==> #[trigger] expanded_linear(master_seed, index)[k] == (
                    stream[3192 + 2 * k],
                    stream[3192 + 2 * k + 1],
                )
        }),
{
    assert(zero_salt() =~= Seq::new(16, |i: int| 0u8));
    assert(le_u16(index) =~= seq![(index % 256) as u8, (index / 256) as u8]);
}

} // verus!
