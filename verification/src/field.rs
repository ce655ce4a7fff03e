//! Arithmetic in the fields used by the first profile: GF(16), GF(256) and
//! the quadratic extension GF(256^2), with the packed encoding of GF(16)
//! vectors.
//!
//! Every operation is written without secret-dependent branches or table
//! lookups; its contract gives the exact field value it computes.

use vstd::prelude::*;
use subtle::ConstantTimeEq;

verus! {

// ---------------------------------------------------------------------------
// Bit-level facts
// ---------------------------------------------------------------------------

/// Exclusive or on bytes is associative, commutative, has zero as identity
/// and every byte as its own inverse.
pub proof fn lemma_xor_u8(a: u8, b: u8, c: u8)
    ensures
        (a ^ b) ^ c == a ^ (b ^ c),
        a ^ b == b ^ a,
        a ^ 0 == a,
        0 ^ a == a,
        a ^ a == 0,
{
    assert((a ^ b) ^ c == a ^ (b ^ c) && a ^ b == b ^ a && a ^ 0 == a && 0 ^ a == a && a ^ a == 0)
        by (bit_vector);
}

proof fn lemma_mask_bit(v: u8)
    ensures
        v & 1 == 0 || v & 1 == 1,
        vstd::wrapping::u8_specs::wrapping_sub(0u8, v & 1) == (if v & 1 == 1 { 255u8 } else { 0u8 }),
{
    assert(v & 1 == 0 || v & 1 == 1) by (bit_vector);
}

/// Constant-time equality of two bytes (subtle's `ConstantTimeEq` for `u8`).
#[verifier::external_body]
fn ct_eq_u8(a: u8, b: u8) -> (r: bool)
    ensures
        r == (a == b),
{
    bool::from(a.ct_eq(&b))
}

// ---------------------------------------------------------------------------
// GF(16)
// ---------------------------------------------------------------------------

/// Multiplication by `x` in GF(16) = GF(2)[x] / (x^4 + x + 1).
pub open spec fn gf16_mulx(a: u8) -> u8 {
    if a & 8 != 0 {
        (((a << 1u8) & 0x0f) ^ 3) as u8
    } else {
        ((a << 1u8) & 0x0f) as u8
    }
}

/// `a * (b mod x^n)` in GF(16): the sum over the low `n` bits `b_i` of `b`
/// of `b_i * x^i * a`.
pub open spec fn gf16_mul_bits(a: u8, b: u8, n: nat) -> u8
    decreases n,
{
    if n == 0 {
        0
    } else {
        (if b & 1 == 1 { a } else { 0u8 }) ^ gf16_mul_bits(gf16_mulx(a), b >> 1u8, (n - 1) as nat)
    }
}

/// The product of two elements of GF(16) given by their 4-bit encodings.
pub open spec fn gf16_mul(a: u8, b: u8) -> u8 {
    gf16_mul_bits(a, b, 4)
}

/// `a^14`, the multiplicative inverse of a non-zero `a` in GF(16), computed
/// as `a^8 * a^4 * a^2`.
pub open spec fn gf16_inverse_chain(a: u8) -> u8 {
    let a2 = gf16_mul(a, a);
    let a4 = gf16_mul(a2, a2);
    let a8 = gf16_mul(a4, a4);
    gf16_mul(gf16_mul(a8, a4), a2)
}

/// The image of the polynomial basis `(1, x, x^2, x^3)` of GF(16) in GF(256)
/// is `(0x01, 0xe0, 0x5d, 0xb0)`; the embedding is linear.
pub open spec fn gf16_embed(a: u8) -> u8 {
    ((if a & 1 != 0 { 0x01u8 } else { 0u8 }) ^ (if a & 2 != 0 { 0xe0u8 } else { 0u8 }) ^ (if a & 4
        != 0 {
        0x5du8
    } else {
        0u8
    }) ^ (if a & 8 != 0 { 0xb0u8 } else { 0u8 })) as u8
}

/// An element of GF(16), represented in the polynomial basis modulo
/// `x^4 + x + 1`.
#[derive(Clone, Copy)]
pub struct Gf16(u8);

impl View for Gf16 {
    type V = u8;

    closed spec fn view(&self) -> u8 {
        self.0
    }
}

proof fn lemma_gf16_step(a: u8, b: u8, product: u8)
    requires
        a < 16,
        b < 16,
        product < 16,
    ensures
        product ^ (a & vstd::wrapping::u8_specs::wrapping_sub(0u8, b & 1)) == product ^ (if b & 1
            == 1 {
            a
        } else {
            0u8
        }),
        ((a << 1u8) & 0x0f) ^ (0x03 & vstd::wrapping::u8_specs::wrapping_sub(0u8, (a >> 3u8) & 1))
            == gf16_mulx(a),
        gf16_mulx(a) < 16,
        b >> 1u8 < 16,
        product ^ (if b & 1 == 1 { a } else { 0u8 }) < 16,
{
    lemma_mask_bit(b);
    lemma_mask_bit(a >> 3u8);
    assert(a & 255u8 == a && a & 0u8 == 0 && (((a >> 3u8) & 1 == 1) == (a & 8 != 0)) && 3u8 & 255u8
        == 3 && 3u8 & 0u8 == 0 && ((a << 1u8) & 0x0f) ^ 0u8 == (a << 1u8) & 0x0f && gf16_mulx(a) < 16
        && product ^ 0u8 == product) by (bit_vector);
    assert(b >> 1u8 < 16 && product ^ a < 16) by (bit_vector)
        requires
            a < 16,
            b < 16,
            product < 16,
    ;
}

/// Every product of elements of GF(16) is an element of GF(16).
pub proof fn lemma_gf16_mul_bounded(a: u8, b: u8)
    requires
        a < 16,
        b < 16,
    ensures
        gf16_mul(a, b) < 16,
{
    assert(gf16_mul(a, b) < 16) by (bit_vector)
        requires
            a < 16,
            b < 16,
    ;
}

impl Gf16 {
    /// The additive identity.
    pub fn zero() -> (r: Self)
        ensures
            r@ == 0,
    {
        Gf16(0)
    }

    /// The multiplicative identity.
    pub fn one() -> (r: Self)
        ensures
            r@ == 1,
    {
        Gf16(1)
    }

    #[verifier::type_invariant]
    spec fn well_formed(self) -> bool {
        self.0 < 16
    }

    /// The element whose encoding is the low nibble of `value`.
    pub fn new(value: u8) -> (r: Self)
        ensures
            r@ == value & 0x0f,
            r@ < 16,
    {
        assert(value & 0x0f < 16) by (bit_vector);
        Gf16(value & 0x0f)
    }

    /// The 4-bit encoding of the element.
    pub fn value(self) -> (r: u8)
        ensures
            r == self@,
            r < 16,
    {
        proof {
            use_type_invariant(self);
        }
        self.0
    }

    /// The square of the element.
    pub fn square(self) -> (r: Self)
        ensures
            r@ == gf16_mul(self@, self@),
    {
        broadcast use group_gf16_ops;

        self * self
    }

    /// The multiplicative inverse of a non-zero element; zero maps to zero.
    pub fn invert(self) -> (r: Self)
        ensures
            r@ == gf16_inverse_chain(self@),
            self@ != 0 ==> gf16_mul(self@, r@) == 1,
            self@ == 0 ==> r@ == 0,
    {
        broadcast use group_gf16_ops;

        proof {
            use_type_invariant(self);
            lemma_gf16_inverse(self@);
        }
        // a^-1 = a^14 = a^8 * a^4 * a^2 for non-zero a.
        let a2 = self.square();
        let a4 = a2.square();
        let a8 = a4.square();
        a8 * a4 * a2
    }

    /// Embed GF(16) into the GF(256) subfield used by the extension field.
    pub fn embed(self) -> (r: Gf256)
        ensures
            r@ == gf16_embed(self@),
    {
        proof {
            use_type_invariant(self);
        }
        let v = self.0;
        // Select each public basis image with an arithmetic mask so that the
        // input does not control memory access.
        let bit_0 = 0u8.wrapping_sub(v & 1);
        let bit_1 = 0u8.wrapping_sub((v >> 1) & 1);
        let bit_2 = 0u8.wrapping_sub((v >> 2) & 1);
        let bit_3 = 0u8.wrapping_sub((v >> 3) & 1);
        proof {
            lemma_mask_bit(v);
            lemma_mask_bit(v >> 1u8);
            lemma_mask_bit(v >> 2u8);
            lemma_mask_bit(v >> 3u8);
            assert((((v >> 1u8) & 1 == 1) == (v & 2 != 0)) && (((v >> 2u8) & 1 == 1) == (v & 4 != 0))
                && (((v >> 3u8) & 1 == 1) == (v & 8 != 0)) && ((v & 1 == 1) == (v & 1 != 0)))
                by (bit_vector);
            assert(forall|c: u8| #![auto] c & 255u8 == c && c & 0u8 == 0) by (bit_vector);
        }
        Gf256::new((0x01 & bit_0) ^ (0xe0 & bit_1) ^ (0x5d & bit_2) ^ (0xb0 & bit_3))
    }

    /// Constant-time equality.
    pub fn ct_eq(&self, other: &Self) -> (r: bool)
        ensures
            r == (self@ == other@),
    {
        ct_eq_u8(self.0, other.0)
    }
}

/// Every non-zero element of GF(16) has an inverse, and the inversion chain
/// gives it.
pub proof fn lemma_gf16_inverse(a: u8)
    requires
        a < 16,
    ensures
        a != 0 ==> gf16_mul(a, gf16_inverse_chain(a)) == 1,
        a == 0 ==> gf16_inverse_chain(a) == 0,
{
    let a2 = gf16_mul(a, a);
    let a4 = gf16_mul(a2, a2);
    let a8 = gf16_mul(a4, a4);
    let t = gf16_mul(a8, a4);
    let r = gf16_mul(t, a2);
    assert(a != 0 ==> gf16_mul(a, r) == 1) by (bit_vector)
        requires
            a < 16,
            a2 == gf16_mul(a, a),
            a4 == gf16_mul(a2, a2),
            a8 == gf16_mul(a4, a4),
            t == gf16_mul(a8, a4),
            r == gf16_mul(t, a2),
    ;
    assert(a == 0 ==> r == 0) by (bit_vector)
        requires
            a2 == gf16_mul(a, a),
            a4 == gf16_mul(a2, a2),
            a8 == gf16_mul(a4, a4),
            t == gf16_mul(a8, a4),
            r == gf16_mul(t, a2),
    ;
}

/// The embedding of GF(16) into GF(256) preserves addition and
/// multiplication.
pub proof fn lemma_gf16_embed_homomorphism(a: u8, b: u8)
    requires
        a < 16,
        b < 16,
    ensures
        gf16_embed(a ^ b) == gf16_embed(a) ^ gf16_embed(b),
        gf16_embed(gf16_mul(a, b)) == gf256_mul(gf16_embed(a), gf16_embed(b)),
{
    assert(gf16_embed(a ^ b) == gf16_embed(a) ^ gf16_embed(b)) by (bit_vector);
    let m = gf16_mul(a, b);
    let ea = gf16_embed(a);
    let eb = gf16_embed(b);
    let p = gf256_mul(ea, eb);
    assert(gf16_embed(m) == p) by (bit_vector)
        requires
            a < 16,
            b < 16,
            m == gf16_mul(a, b),
            ea == gf16_embed(a),
            eb == gf16_embed(b),
            p == gf256_mul(ea, eb),
    ;

}

impl core::ops::Add for Gf16 {
    type Output = Self;

    fn add(self, rhs: Self) -> (r: Self) {
        proof {
            use_type_invariant(self);
            use_type_invariant(rhs);
        }
        let x = self.0;
        let y = rhs.0;
        let v = x ^ y;
        assert(v < 16) by (bit_vector)
            requires
                v == x ^ y,
                x < 16,
                y < 16,
        ;
        // Addition in a binary extension field is XOR.
        Gf16(v)
    }
}

impl vstd::std_specs::ops::AddSpecImpl for Gf16 {
    open spec fn obeys_add_spec() -> bool {
        true
    }

    open spec fn add_req(self, rhs: Self) -> bool {
        true
    }

    closed spec fn add_spec(self, rhs: Self) -> Self {
        Gf16(self.0 ^ rhs.0)
    }
}

impl core::ops::Sub for Gf16 {
    type Output = Self;

    fn sub(self, rhs: Self) -> (r: Self) {
        proof {
            use_type_invariant(self);
            use_type_invariant(rhs);
        }
        let x = self.0;
        let y = rhs.0;
        let v = x ^ y;
        assert(v < 16) by (bit_vector)
            requires
                v == x ^ y,
                x < 16,
                y < 16,
        ;
        // Subtraction equals addition in characteristic two.
        Gf16(v)
    }
}

impl vstd::std_specs::ops::SubSpecImpl for Gf16 {
    open spec fn obeys_sub_spec() -> bool {
        true
    }

    open spec fn sub_req(self, rhs: Self) -> bool {
        true
    }

    closed spec fn sub_spec(self, rhs: Self) -> Self {
        Gf16(self.0 ^ rhs.0)
    }
}

impl core::ops::Mul for Gf16 {
    type Output = Self;

    fn mul(self, rhs: Self) -> (r: Self) {
        proof {
            use_type_invariant(self);
            use_type_invariant(rhs);
        }
        let mut a = self.0;
        let mut b = rhs.0;
        let mut product = 0u8;
        let mut i: usize = 0;
        proof {
            lemma_xor_u8(gf16_mul(a, b), 0, 0);
        }
        while i < 4
            invariant
                i <= 4,
                a < 16,
                b < 16,
                product < 16,
                product ^ gf16_mul_bits(a, b, (4 - i) as nat) == gf16_mul(self.0, rhs.0),
            decreases 4 - i,
        {
            proof {
                lemma_gf16_step(a, b, product);
                lemma_xor_u8(
                    product,
                    (if b & 1 == 1 { a } else { 0u8 }),
                    gf16_mul_bits(gf16_mulx(a), b >> 1u8, (4 - i - 1) as nat),
                );
            }
            let b_mask = 0u8.wrapping_sub(b & 1);
            product ^= a & b_mask;
            let high_mask = 0u8.wrapping_sub((a >> 3) & 1);
            a = ((a << 1) & 0x0f) ^ (0x03 & high_mask);
            b >>= 1;
            i += 1;
        }
        assert(product & 0x0f == product) by (bit_vector)
            requires
                product < 16,
        ;
        proof {
            lemma_xor_u8(product, 0, 0);
        }
        Gf16(product & 0x0f)
    }
}

impl vstd::std_specs::ops::MulSpecImpl for Gf16 {
    open spec fn obeys_mul_spec() -> bool {
        true
    }

    open spec fn mul_req(self, rhs: Self) -> bool {
        true
    }

    closed spec fn mul_spec(self, rhs: Self) -> Self {
        Gf16(gf16_mul(self.0, rhs.0))
    }
}

/// Addition in GF(16) is exclusive or.
pub broadcast proof fn lemma_gf16_add(a: Gf16, b: Gf16)
    ensures
        #[trigger] vstd::std_specs::ops::AddSpec::add_spec(a, b)@ == a@ ^ b@,
{
}

/// Subtraction in GF(16) is exclusive or.
pub broadcast proof fn lemma_gf16_sub(a: Gf16, b: Gf16)
    ensures
        #[trigger] vstd::std_specs::ops::SubSpec::sub_spec(a, b)@ == a@ ^ b@,
{
}

/// The product operator on GF(16) computes the field product.
pub broadcast proof fn lemma_gf16_mul(a: Gf16, b: Gf16)
    ensures
        #[trigger] vstd::std_specs::ops::MulSpec::mul_spec(a, b)@ == gf16_mul(a@, b@),
{
}

/// The operators of GF(16).
pub broadcast group group_gf16_ops {
    lemma_gf16_add,
    lemma_gf16_sub,
    lemma_gf16_mul,
}

// ---------------------------------------------------------------------------
// GF(256)
// ---------------------------------------------------------------------------

/// Multiplication by `x` in GF(256) = GF(2)[x] / (x^8 + x^4 + x^3 + x + 1).
pub open spec fn gf256_xtime(a: u8) -> u8 {
    if a & 0x80 != 0 {
        ((a << 1u8) ^ 0x1b) as u8
    } else {
        (a << 1u8) as u8
    }
}

/// `a * (b mod x^n)` in GF(256): the sum over the low `n` bits `b_i` of `b`
/// of `b_i * x^i * a`.
pub open spec fn gf256_mul_bits(a: u8, b: u8, n: nat) -> u8
    decreases n,
{
    if n == 0 {
        0
    } else {
        (if b & 1 == 1 { a } else { 0u8 }) ^ gf256_mul_bits(gf256_xtime(a), b >> 1u8, (n - 1) as nat)
    }
}

/// The product of two elements of GF(256).
pub open spec fn gf256_mul(a: u8, b: u8) -> u8 {
    gf256_mul_bits(a, b, 8)
}

/// `a^(2^(k+1) - 1)` computed by `k` square-and-multiply steps from `a`.
pub open spec fn gf256_ones_power(a: u8, k: nat) -> u8
    decreases k,
{
    if k == 0 {
        a
    } else {
        let p = gf256_ones_power(a, (k - 1) as nat);
        gf256_mul(gf256_mul(p, p), a)
    }
}

/// `a^254`, the multiplicative inverse of a non-zero `a` in GF(256).
pub open spec fn gf256_inverse_chain(a: u8) -> u8 {
    let p = gf256_ones_power(a, 6);
    gf256_mul(p, p)
}

proof fn lemma_gf256_step(a: u8, b: u8, product: u8)
    ensures
        product ^ (a & vstd::wrapping::u8_specs::wrapping_sub(0u8, b & 1)) == product ^ (if b & 1
            == 1 {
            a
        } else {
            0u8
        }),
        (a << 1u8) ^ (0x1b & vstd::wrapping::u8_specs::wrapping_sub(0u8, a >> 7u8)) == gf256_xtime(a),
{
    lemma_mask_bit(b);
    lemma_mask_bit(a >> 7u8);
    assert(a >> 7u8 == (a >> 7u8) & 1 && a & 255u8 == a && a & 0u8 == 0 && (((a >> 7u8) & 1 == 1)
        == (a & 0x80 != 0)) && 0x1bu8 & 255u8 == 0x1b && 0x1bu8 & 0u8 == 0 && (a << 1u8) ^ 0u8 == (a
        << 1u8) && product ^ 0u8 == product) by (bit_vector);
}

/// An element of GF(256), represented in the polynomial basis modulo
/// `x^8 + x^4 + x^3 + x + 1`.
#[derive(Clone, Copy)]
pub struct Gf256(u8);

impl View for Gf256 {
    type V = u8;

    closed spec fn view(&self) -> u8 {
        self.0
    }
}

impl Gf256 {
    /// The additive identity.
    pub fn zero() -> (r: Self)
        ensures
            r@ == 0,
    {
        Gf256(0)
    }

    /// The multiplicative identity.
    pub fn one() -> (r: Self)
        ensures
            r@ == 1,
    {
        Gf256(1)
    }

    /// The element with the given encoding.
    pub fn new(value: u8) -> (r: Self)
        ensures
            r@ == value,
    {
        Gf256(value)
    }

    /// The encoding of the element.
    pub fn value(self) -> (r: u8)
        ensures
            r == self@,
    {
        self.0
    }

    /// The square of the element.
    pub fn square(self) -> (r: Self)
        ensures
            r@ == gf256_mul(self@, self@),
    {
        broadcast use group_gf256_ops;

        self * self
    }

    /// The multiplicative inverse of a non-zero element; zero maps to zero.
    pub fn invert(self) -> (r: Self)
        ensures
            r@ == gf256_inverse_chain(self@),
            self@ != 0 ==> gf256_mul(self@, r@) == 1,
            self@ == 0 ==> r@ == 0,
    {
        broadcast use group_gf256_ops;

        proof {
            lemma_gf256_inverse(self@);
        }
        // Starting at a^(2^1 - 1), six square-and-multiply steps reach
        // a^(2^7 - 1); the final square gives a^254.
        let mut product = self;
        let mut i: usize = 0;
        while i < 6
            invariant
                i <= 6,
                product@ == gf256_ones_power(self@, i as nat),
            decreases 6 - i,
        {
            product = product.square() * self;
            i += 1;
        }
        product.square()
    }

    /// Constant-time equality.
    pub fn ct_eq(&self, other: &Self) -> (r: bool)
        ensures
            r == (self@ == other@),
    {
        ct_eq_u8(self.0, other.0)
    }
}

/// Every non-zero element of GF(256) has an inverse, and the inversion chain
/// gives it.
#[verifier::rlimit(100)]
pub proof fn lemma_gf256_inverse(a: u8)
    ensures
        a != 0 ==> gf256_mul(a, gf256_inverse_chain(a)) == 1,
        a == 0 ==> gf256_inverse_chain(a) == 0,
{
    let p0 = a;
    let s1 = gf256_mul(p0, p0);
    let p1 = gf256_mul(s1, a);
    let s2 = gf256_mul(p1, p1);
    let p2 = gf256_mul(s2, a);
    let s3 = gf256_mul(p2, p2);
    let p3 = gf256_mul(s3, a);
    let s4 = gf256_mul(p3, p3);
    let p4 = gf256_mul(s4, a);
    let s5 = gf256_mul(p4, p4);
    let p5 = gf256_mul(s5, a);
    let s6 = gf256_mul(p5, p5);
    let p6 = gf256_mul(s6, a);
    let r = gf256_mul(p6, p6);
    reveal_with_fuel(gf256_ones_power, 7);
    assert(r == gf256_inverse_chain(a));
    assert((a != 0 ==> gf256_mul(a, r) == 1) && (a == 0 ==> r == 0)) by (bit_vector)
        requires
            s1 == gf256_mul(a, a),
            p1 == gf256_mul(s1, a),
            s2 == gf256_mul(p1, p1),
            p2 == gf256_mul(s2, a),
            s3 == gf256_mul(p2, p2),
            p3 == gf256_mul(s3, a),
            s4 == gf256_mul(p3, p3),
            p4 == gf256_mul(s4, a),
            s5 == gf256_mul(p4, p4),
            p5 == gf256_mul(s5, a),
            s6 == gf256_mul(p5, p5),
            p6 == gf256_mul(s6, a),
            r == gf256_mul(p6, p6),
    ;

}

impl core::ops::Add for Gf256 {
    type Output = Self;

    fn add(self, rhs: Self) -> (r: Self) {
        Gf256(self.0 ^ rhs.0)
    }
}

impl vstd::std_specs::ops::AddSpecImpl for Gf256 {
    open spec fn obeys_add_spec() -> bool {
        true
    }

    open spec fn add_req(self, rhs: Self) -> bool {
        true
    }

    closed spec fn add_spec(self, rhs: Self) -> Self {
        Gf256(self.0 ^ rhs.0)
    }
}

impl core::ops::Sub for Gf256 {
    type Output = Self;

    fn sub(self, rhs: Self) -> (r: Self) {
        Gf256(self.0 ^ rhs.0)
    }
}

impl vstd::std_specs::ops::SubSpecImpl for Gf256 {
    open spec fn obeys_sub_spec() -> bool {
        true
    }

    open spec fn sub_req(self, rhs: Self) -> bool {
        true
    }

    closed spec fn sub_spec(self, rhs: Self) -> Self {
        Gf256(self.0 ^ rhs.0)
    }
}

impl core::ops::Mul for Gf256 {
    type Output = Self;

    fn mul(self, rhs: Self) -> (r: Self) {
        let mut a = self.0;
        let mut b = rhs.0;
        let mut product = 0u8;
        let mut i: usize = 0;
        proof {
            lemma_xor_u8(gf256_mul(a, b), 0, 0);
        }
        while i < 8
            invariant
                i <= 8,
                product ^ gf256_mul_bits(a, b, (8 - i) as nat) == gf256_mul(self.0, rhs.0),
            decreases 8 - i,
        {
            proof {
                lemma_gf256_step(a, b, product);
                lemma_xor_u8(
                    product,
                    (if b & 1 == 1 { a } else { 0u8 }),
                    gf256_mul_bits(gf256_xtime(a), b >> 1u8, (8 - i - 1) as nat),
                );
            }
            let b_mask = 0u8.wrapping_sub(b & 1);
            product ^= a & b_mask;
            let high_mask = 0u8.wrapping_sub(a >> 7);
            a = (a << 1) ^ (0x1b & high_mask);
            b >>= 1;
            i += 1;
        }
        proof {
            lemma_xor_u8(product, 0, 0);
        }
        Gf256(product)
    }
}

impl vstd::std_specs::ops::MulSpecImpl for Gf256 {
    open spec fn obeys_mul_spec() -> bool {
        true
    }

    open spec fn mul_req(self, rhs: Self) -> bool {
        true
    }

    closed spec fn mul_spec(self, rhs: Self) -> Self {
        Gf256(gf256_mul(self.0, rhs.0))
    }
}

/// Addition in GF(256) is exclusive or.
pub broadcast proof fn lemma_gf256_add(a: Gf256, b: Gf256)
    ensures
        #[trigger] vstd::std_specs::ops::AddSpec::add_spec(a, b)@ == a@ ^ b@,
{
}

/// Subtraction in GF(256) is exclusive or.
pub broadcast proof fn lemma_gf256_sub(a: Gf256, b: Gf256)
    ensures
        #[trigger] vstd::std_specs::ops::SubSpec::sub_spec(a, b)@ == a@ ^ b@,
{
}

/// The product operator on GF(256) computes the field product.
pub broadcast proof fn lemma_gf256_mul(a: Gf256, b: Gf256)
    ensures
        #[trigger] vstd::std_specs::ops::MulSpec::mul_spec(a, b)@ == gf256_mul(a@, b@),
{
}

/// The operators of GF(256).
pub broadcast group group_gf256_ops {
    lemma_gf256_add,
    lemma_gf256_sub,
    lemma_gf256_mul,
}



/// Multiplication in GF(256) distributes over addition, on either side.
pub proof fn lemma_gf256_mul_distributes(a: u8, b: u8, c: u8)
    ensures
        gf256_mul(a, b ^ c) == gf256_mul(a, b) ^ gf256_mul(a, c),
        gf256_mul(a ^ b, c) == gf256_mul(a, c) ^ gf256_mul(b, c),
{
    lemma_gf256_mul_bits_right(a, b, c, 8);
    lemma_gf256_mul_bits_left(a, b, c, 8);
}

proof fn lemma_gf256_mul_bits_right(a: u8, b: u8, c: u8, n: nat)
    ensures
        gf256_mul_bits(a, b ^ c, n) == gf256_mul_bits(a, b, n) ^ gf256_mul_bits(a, c, n),
    decreases n,
{
    if n == 0 {
        lemma_xor_u8(0, 0, 0);
    } else {
        let m = (n - 1) as nat;
        lemma_gf256_mul_bits_right(gf256_xtime(a), b >> 1u8, c >> 1u8, m);
        assert((b ^ c) >> 1u8 == (b >> 1u8) ^ (c >> 1u8)) by (bit_vector);
        assert((if (b ^ c) & 1 == 1 { a } else { 0u8 }) == (if b & 1 == 1 { a } else { 0u8 }) ^ (
        if c & 1 == 1 {
            a
        } else {
            0u8
        })) by (bit_vector);
        let x = if b & 1 == 1 { a } else { 0u8 };
        let y = if c & 1 == 1 { a } else { 0u8 };
        let z = gf256_mul_bits(gf256_xtime(a), b >> 1u8, m);
        let w = gf256_mul_bits(gf256_xtime(a), c >> 1u8, m);
        assert((x ^ y) ^ (z ^ w) == (x ^ z) ^ (y ^ w)) by (bit_vector);
    }
}

proof fn lemma_gf256_mul_bits_left(a: u8, b: u8, c: u8, n: nat)
    ensures
        gf256_mul_bits(a ^ b, c, n) == gf256_mul_bits(a, c, n) ^ gf256_mul_bits(b, c, n),
    decreases n,
{
    if n == 0 {
        lemma_xor_u8(0, 0, 0);
    } else {
        let m = (n - 1) as nat;
        assert(gf256_xtime(a ^ b) == gf256_xtime(a) ^ gf256_xtime(b)) by (bit_vector);
        lemma_gf256_mul_bits_left(gf256_xtime(a), gf256_xtime(b), c >> 1u8, m);
        assert((if c & 1 == 1 { a ^ b } else { 0u8 }) == (if c & 1 == 1 { a } else { 0u8 }) ^ (
        if c & 1 == 1 {
            b
        } else {
            0u8
        })) by (bit_vector);
        let x = if c & 1 == 1 { a } else { 0u8 };
        let y = if c & 1 == 1 { b } else { 0u8 };
        let z = gf256_mul_bits(gf256_xtime(a), c >> 1u8, m);
        let w = gf256_mul_bits(gf256_xtime(b), c >> 1u8, m);
        assert((x ^ y) ^ (z ^ w) == (x ^ z) ^ (y ^ w)) by (bit_vector);
    }
}

// ---------------------------------------------------------------------------
// GF(256^2)
// ---------------------------------------------------------------------------

/// The sum of two elements of GF(256^2) given as coefficient pairs.
pub open spec fn gf256x2_add(a: (u8, u8), b: (u8, u8)) -> (u8, u8) {
    (a.0 ^ b.0, a.1 ^ b.1)
}

/// The product of `a0 + a1 X` and `b0 + b1 X` modulo `X^2 + X + 32`:
/// `(a0 b0 + 32 a1 b1) + (a0 b1 + a1 b0 + a1 b1) X`.
pub open spec fn gf256x2_mul(a: (u8, u8), b: (u8, u8)) -> (u8, u8) {
    (
        gf256_mul(a.0, b.0) ^ gf256_mul(gf256_mul(a.1, b.1), 32),
        (gf256_mul(a.0, b.1) ^ gf256_mul(a.1, b.0)) ^ gf256_mul(a.1, b.1),
    )
}

/// The product of an element of GF(16), embedded in GF(256), with an element
/// of GF(256^2).
pub open spec fn gf256x2_scale(s: u8, v: (u8, u8)) -> (u8, u8) {
    (gf256_mul(gf16_embed(s), v.0), gf256_mul(gf16_embed(s), v.1))
}

/// `a^(2^(k+1) - 1)` in GF(256^2), by `k` square-and-multiply steps.
pub open spec fn gf256x2_ones_power(a: (u8, u8), k: nat) -> (u8, u8)
    decreases k,
{
    if k == 0 {
        a
    } else {
        let p = gf256x2_ones_power(a, (k - 1) as nat);
        gf256x2_mul(gf256x2_mul(p, p), a)
    }
}

/// `a^65534`, the multiplicative inverse of a non-zero `a` in GF(256^2).
pub open spec fn gf256x2_inverse_chain(a: (u8, u8)) -> (u8, u8) {
    let p = gf256x2_ones_power(a, 14);
    gf256x2_mul(p, p)
}

/// The little-endian 16-bit value `c0 + 256 c1` of an element.
pub open spec fn gf256x2_value(a: (u8, u8)) -> u16 {
    (a.0 as int + 256 * (a.1 as int)) as u16
}

/// An element of GF(256^2), represented as `c0 + c1 * X` modulo
/// `X^2 + X + 32`.
#[derive(Clone, Copy)]
pub struct Gf256x2 {
    c0: Gf256,
    c1: Gf256,
}

impl View for Gf256x2 {
    type V = (u8, u8);

    closed spec fn view(&self) -> (u8, u8) {
        (self.c0@, self.c1@)
    }
}

impl Gf256x2 {
    /// Length of the canonical byte encoding.
    pub const ENCODED_LEN: usize = 2;

    /// The additive identity.
    pub fn zero() -> (r: Self)
        ensures
            r@ == (0u8, 0u8),
    {
        Gf256x2 { c0: Gf256::zero(), c1: Gf256::zero() }
    }

    /// The multiplicative identity.
    pub fn one() -> (r: Self)
        ensures
            r@ == (1u8, 0u8),
    {
        Gf256x2 { c0: Gf256::one(), c1: Gf256::zero() }
    }

    /// The element `c0 + c1 X`.
    pub fn new(c0: Gf256, c1: Gf256) -> (r: Self)
        ensures
            r@ == (c0@, c1@),
    {
        Gf256x2 { c0, c1 }
    }

    /// Decode the canonical little-endian encoding.
    pub fn from_bytes(bytes: [u8; 2]) -> (r: Self)
        ensures
            r@ == (bytes[0], bytes[1]),
    {
        Self::new(Gf256::new(bytes[0]), Gf256::new(bytes[1]))
    }

    /// The canonical little-endian encoding.
    pub fn to_bytes(self) -> (r: [u8; 2])
        ensures
            r@ == seq![self@.0, self@.1],
    {
        let r = [self.c0.value(), self.c1.value()];
        assert(r@ =~= seq![self@.0, self@.1]);
        r
    }

    /// The encoding as a little-endian 16-bit value.
    pub fn value(self) -> (r: u16)
        ensures
            r == gf256x2_value(self@),
            r as int == self@.0 as int + 256 * (self@.1 as int),
    {
        let low = self.c0.value() as u16;
        let high = self.c1.value() as u16;
        low + 256 * high
    }

    /// The square of the element.
    pub fn square(self) -> (r: Self)
        ensures
            r@ == gf256x2_mul(self@, self@),
    {
        broadcast use group_gf256x2_ops;

        self * self
    }

    /// `a^65534`, which is the multiplicative inverse of a non-zero element;
    /// zero maps to zero.
    pub fn invert(self) -> (r: Self)
        ensures
            r@ == gf256x2_inverse_chain(self@),
            self@ != (0u8, 0u8) ==> gf256x2_mul(self@, r@) == (1u8, 0u8),
            self@ == (0u8, 0u8) ==> r@ == (0u8, 0u8),
    {
        broadcast use group_gf256x2_ops;

        proof {
            crate::algebra::lemma_gf256x2_inverse(self@);
        }

        // Starting at a^(2^1 - 1), fourteen square-and-multiply steps reach
        // a^(2^15 - 1); the final square gives a^65534.
        let mut product = self;
        let mut i: usize = 0;
        while i < 14
            invariant
                i <= 14,
                product@ == gf256x2_ones_power(self@, i as nat),
            decreases 14 - i,
        {
            product = product.square() * self;
            i += 1;
        }
        product.square()
    }

    /// Constant-time equality.
    pub fn ct_eq(&self, other: &Self) -> (r: bool)
        ensures
            r == (self@ == other@),
    {
        let low = self.c0.ct_eq(&other.c0);
        let high = self.c1.ct_eq(&other.c1);
        low && high
    }
}

impl core::ops::Add for Gf256x2 {
    type Output = Self;

    fn add(self, rhs: Self) -> (r: Self) {
        broadcast use group_gf256_ops;

        Self::new(self.c0 + rhs.c0, self.c1 + rhs.c1)
    }
}

impl vstd::std_specs::ops::AddSpecImpl for Gf256x2 {
    open spec fn obeys_add_spec() -> bool {
        true
    }

    open spec fn add_req(self, rhs: Self) -> bool {
        true
    }

    closed spec fn add_spec(self, rhs: Self) -> Self {
        Gf256x2 { c0: Gf256(self.c0.0 ^ rhs.c0.0), c1: Gf256(self.c1.0 ^ rhs.c1.0) }
    }
}

impl core::ops::Sub for Gf256x2 {
    type Output = Self;

    fn sub(self, rhs: Self) -> (r: Self) {
        broadcast use group_gf256_ops;

        Self::new(self.c0 - rhs.c0, self.c1 - rhs.c1)
    }
}

impl vstd::std_specs::ops::SubSpecImpl for Gf256x2 {
    open spec fn obeys_sub_spec() -> bool {
        true
    }

    open spec fn sub_req(self, rhs: Self) -> bool {
        true
    }

    closed spec fn sub_spec(self, rhs: Self) -> Self {
        Gf256x2 { c0: Gf256(self.c0.0 ^ rhs.c0.0), c1: Gf256(self.c1.0 ^ rhs.c1.0) }
    }
}

impl core::ops::Mul for Gf256x2 {
    type Output = Self;

    fn mul(self, rhs: Self) -> (r: Self) {
        broadcast use group_gf256_ops;

        let high_product = self.c1 * rhs.c1;
        let low_product = self.c0 * rhs.c0;
        let c0 = low_product + high_product * Gf256::new(32);
        let c1 = low_product + (self.c0 + self.c1) * (rhs.c0 + rhs.c1);
        proof {
            let (a0, a1, b0, b1) = (self.c0@, self.c1@, rhs.c0@, rhs.c1@);
            lemma_gf256_mul_distributes(a0, a1, b0 ^ b1);
            lemma_gf256_mul_distributes(a0, b0, b1);
            lemma_gf256_mul_distributes(a1, b0, b1);
            let m00 = gf256_mul(a0, b0);
            let m01 = gf256_mul(a0, b1);
            let m10 = gf256_mul(a1, b0);
            let m11 = gf256_mul(a1, b1);
            assert(m00 ^ ((m00 ^ m01) ^ (m10 ^ m11)) == (m01 ^ m10) ^ m11) by (bit_vector);
        }
        Self::new(c0, c1)
    }
}

impl vstd::std_specs::ops::MulSpecImpl for Gf256x2 {
    open spec fn obeys_mul_spec() -> bool {
        true
    }

    open spec fn mul_req(self, rhs: Self) -> bool {
        true
    }

    closed spec fn mul_spec(self, rhs: Self) -> Self {
        let (c0, c1) = gf256x2_mul(self@, rhs@);
        Gf256x2 { c0: Gf256(c0), c1: Gf256(c1) }
    }
}

impl core::ops::Mul<Gf256x2> for Gf16 {
    type Output = Gf256x2;

    fn mul(self, rhs: Gf256x2) -> (r: Gf256x2) {
        broadcast use group_gf256_ops;

        let scalar = self.embed();
        Gf256x2::new(scalar * rhs.c0, scalar * rhs.c1)
    }
}

impl vstd::std_specs::ops::MulSpecImpl<Gf256x2> for Gf16 {
    open spec fn obeys_mul_spec() -> bool {
        true
    }

    open spec fn mul_req(self, rhs: Gf256x2) -> bool {
        true
    }

    closed spec fn mul_spec(self, rhs: Gf256x2) -> Gf256x2 {
        let (c0, c1) = gf256x2_scale(self.0, rhs@);
        Gf256x2 { c0: Gf256(c0), c1: Gf256(c1) }
    }
}

impl core::ops::Mul<Gf16> for Gf256x2 {
    type Output = Self;

    fn mul(self, rhs: Gf16) -> (r: Self) {
        broadcast use lemma_gf16_scale;

        rhs * self
    }
}

impl vstd::std_specs::ops::MulSpecImpl<Gf16> for Gf256x2 {
    open spec fn obeys_mul_spec() -> bool {
        true
    }

    open spec fn mul_req(self, rhs: Gf16) -> bool {
        true
    }

    closed spec fn mul_spec(self, rhs: Gf16) -> Self {
        let (c0, c1) = gf256x2_scale(rhs.0, self@);
        Gf256x2 { c0: Gf256(c0), c1: Gf256(c1) }
    }
}

/// Addition in GF(256^2) is coefficient-wise exclusive or.
pub broadcast proof fn lemma_gf256x2_add(a: Gf256x2, b: Gf256x2)
    ensures
        #[trigger] vstd::std_specs::ops::AddSpec::add_spec(a, b)@ == gf256x2_add(a@, b@),
{
}

/// Subtraction in GF(256^2) is coefficient-wise exclusive or.
pub broadcast proof fn lemma_gf256x2_sub(a: Gf256x2, b: Gf256x2)
    ensures
        #[trigger] vstd::std_specs::ops::SubSpec::sub_spec(a, b)@ == gf256x2_add(a@, b@),
{
}

/// The product operator on GF(256^2) computes the field product.
pub broadcast proof fn lemma_gf256x2_mul(a: Gf256x2, b: Gf256x2)
    ensures
        #[trigger] vstd::std_specs::ops::MulSpec::mul_spec(a, b)@ == gf256x2_mul(a@, b@),
{
}

/// A GF(16) scalar multiplies both coefficients of a GF(256^2) element by
/// its embedding.
pub broadcast proof fn lemma_gf16_scale(s: Gf16, v: Gf256x2)
    ensures
        #[trigger] vstd::std_specs::ops::MulSpec::mul_spec(s, v)@ == gf256x2_scale(s@, v@),
{
}

/// Scaling a GF(256^2) element by a GF(16) scalar gives the same result on
/// either side of the product.
pub broadcast proof fn lemma_scale_gf16(v: Gf256x2, s: Gf16)
    ensures
        #[trigger] vstd::std_specs::ops::MulSpec::mul_spec(v, s)@ == gf256x2_scale(s@, v@),
{
}

/// The operators of GF(256^2), including scaling by GF(16).
pub broadcast group group_gf256x2_ops {
    lemma_gf256x2_add,
    lemma_gf256x2_sub,
    lemma_gf256x2_mul,
    lemma_gf16_scale,
    lemma_scale_gf16,
}

// ---------------------------------------------------------------------------
// Packed GF(16) vectors
// ---------------------------------------------------------------------------

/// The element at position `i` of a packed GF(16) vector: two elements per
/// byte, the even position in the low nibble.
pub open spec fn unpacked_nibble(bytes: Seq<u8>, i: int) -> u8 {
    if i % 2 == 0 {
        bytes[i / 2] & 0x0f
    } else {
        (bytes[i / 2] >> 4u8) & 0x0f
    }
}

/// The encoding of element `k` of `elements`, or zero past its end.
pub open spec fn nibble_or_zero(elements: Seq<u8>, k: int) -> u8 {
    if 0 <= k < elements.len() {
        elements[k]
    } else {
        0
    }
}

/// Byte `j` of the packed encoding of `elements`.
pub open spec fn packed_byte(elements: Seq<u8>, j: int) -> u8 {
    nibble_or_zero(elements, 2 * j) | (nibble_or_zero(elements, 2 * j + 1) << 4u8)
}

/// The packed encoding of a vector of 4-bit values.
pub open spec fn pack_spec(elements: Seq<u8>) -> Seq<u8> {
    Seq::new(((elements.len() + 1) / 2) as nat, |j: int| packed_byte(elements, j))
}

/// The encodings of a sequence of GF(16) elements.
pub open spec fn gf16_values(elements: Seq<Gf16>) -> Seq<u8> {
    elements.map_values(|e: Gf16| e@)
}

/// Byte length of the packed encoding of `count` GF(16) elements.
pub open spec fn packed_len(count: nat) -> nat {
    (count + 1) / 2
}

/// Unpack `bytes`, two GF(16) elements per byte with the even position in
/// the low nibble, into `output`.
///
/// Returns `false`, leaving `output` unchanged, unless `bytes` holds exactly
/// the packed length of `output`.
pub fn unpack_gf16(bytes: &[u8], output: &mut [Gf16]) -> (r: bool)
    ensures
        final(output)@.len() == old(output)@.len(),
        r == (old(output)@.len() < usize::MAX && bytes@.len() == packed_len(
            old(output)@.len() as nat,
        )),
        r ==> forall|i: int|
            0 <= i < final(output)@.len() ==> #[trigger] final(output)@[i]@ == unpacked_nibble(
                bytes@,
                i,
            ),
        !r ==> final(output)@ == old(output)@,
{
    let len = output.len();
    let required = match len.checked_add(1) {
        Some(value) => value / 2,
        None => {
            return false;
        },
    };
    if bytes.len() != required {
        return false;
    }
    let mut index: usize = 0;
    while index < len
        invariant
            len == output@.len(),
            bytes@.len() == (len + 1) / 2,
            index <= len,
            forall|i: int| 0 <= i < index ==> #[trigger] output@[i]@ == unpacked_nibble(bytes@, i),
        decreases len - index,
    {
        let bit = index & 1;
        assert(bit < 2) by (bit_vector)
            requires
                bit == index & 1,
        ;
        let shift: u8 = 4 * (bit as u8);
        let byte = bytes[index / 2];
        proof {
            assert(index & 1 == index % 2) by (bit_vector);
            assert(byte >> 0u8 == byte) by (bit_vector);
            assert(byte >> 4u8 == byte >> 4u8);
        }
        output[index] = Gf16::new(byte >> shift);
        index += 1;
    }
    true
}

/// Pack GF(16) elements into `output`, two per byte with the even position
/// in the low nibble; a trailing odd element leaves the high nibble zero.
///
/// Returns `false`, leaving `output` unchanged, unless `output` has exactly
/// the packed length of `elements`.
pub fn pack_gf16(elements: &[Gf16], output: &mut [u8]) -> (r: bool)
    ensures
        final(output)@.len() == old(output)@.len(),
        r == (elements@.len() < usize::MAX && old(output)@.len() == packed_len(
            elements@.len() as nat,
        )),
        r ==> final(output)@ == pack_spec(gf16_values(elements@)),
        !r ==> final(output)@ == old(output)@,
{
    let len = elements.len();
    let required = match len.checked_add(1) {
        Some(value) => value / 2,
        None => {
            return false;
        },
    };
    if output.len() != required {
        return false;
    }
    let ghost values = gf16_values(elements@);
    let mut j: usize = 0;
    while j < required
        invariant
            required == output@.len(),
            forall|k: int| 0 <= k < j ==> #[trigger] output@[k] == 0,
            j <= required,
        decreases required - j,
    {
        output[j] = 0;
        j += 1;
    }
    let mut index: usize = 0;
    proof {
        assert(0u8 | (0u8 << 4u8) == 0) by (bit_vector);
        assert forall|k: int| 0 <= k < required implies #[trigger] output@[k] == packed_byte(
            values.take(0),
            k,
        ) by {
            assert(nibble_or_zero(values.take(0), 2 * k) == 0);
            assert(nibble_or_zero(values.take(0), 2 * k + 1) == 0);
        }
    }
    while index < len
        invariant
            len == elements@.len(),
            values == gf16_values(elements@),
            required == output@.len(),
            required == (len + 1) / 2,
            index <= len,
            forall|k: int|
                0 <= k < required ==> #[trigger] output@[k] == packed_byte(
                    values.take(index as int),
                    k,
                ),
        decreases len - index,
    {
        let value = elements[index].value();
        let bit = index & 1;
        assert(bit < 2) by (bit_vector)
            requires
                bit == index & 1,
        ;
        let shift: u8 = 4 * (bit as u8);
        let slot = index / 2;
        let old_byte = output[slot];
        output[slot] = old_byte | (value << shift);
        proof {
            assert(index & 1 == index % 2) by (bit_vector);
            assert(values.take(index + 1) =~= values.take(index as int).push(value));
            assert forall|k: int| 0 <= k < required implies #[trigger] output@[k] == packed_byte(
                values.take(index + 1),
                k,
            ) by {
                let before = values.take(index as int);
                let after = values.take(index + 1);
                if k == slot {
                    let lo = nibble_or_zero(before, 2 * k);
                    let hi = nibble_or_zero(before, 2 * k + 1);
                    if index % 2 == 0 {
                        assert(lo == 0 && hi == 0);
                        assert(nibble_or_zero(after, 2 * k) == value);
                        assert(nibble_or_zero(after, 2 * k + 1) == 0);
                        assert((0u8 | (0u8 << 4u8)) | (value << 0u8) == value | (0u8 << 4u8))
                            by (bit_vector);
                    } else {
                        assert(hi == 0);
                        assert(nibble_or_zero(after, 2 * k) == lo);
                        assert(nibble_or_zero(after, 2 * k + 1) == value);
                        assert((lo | (0u8 << 4u8)) | (value << 4u8) == lo | (value << 4u8))
                            by (bit_vector);
                    }
                } else {
                    assert(nibble_or_zero(after, 2 * k) == nibble_or_zero(before, 2 * k));
                    assert(nibble_or_zero(after, 2 * k + 1) == nibble_or_zero(before, 2 * k + 1));
                }
            }
        }
        index += 1;
    }
    proof {
        assert(values.take(len as int) =~= values);
        assert(output@ =~= pack_spec(values));
    }
    true
}

/// Unpacking a packed vector of 4-bit values gives the vector back.
pub proof fn lemma_unpack_pack(elements: Seq<u8>)
    requires
        forall|i: int| 0 <= i < elements.len() ==> #[trigger] elements[i] < 16,
    ensures
        pack_spec(elements).len() == packed_len(elements.len()),
        forall|i: int|
            0 <= i < elements.len() ==> #[trigger] unpacked_nibble(pack_spec(elements), i)
                == elements[i],
{
    assert forall|i: int| 0 <= i < elements.len() implies #[trigger] unpacked_nibble(
        pack_spec(elements),
        i,
    ) == elements[i] by {
        let j = i / 2;
        let lo = nibble_or_zero(elements, 2 * j);
        let hi = nibble_or_zero(elements, 2 * j + 1);
        assert(lo < 16 && hi < 16);
        assert((lo | (hi << 4u8)) & 0x0f == lo) by (bit_vector)
            requires
                lo < 16,
                hi < 16,
        ;
        assert(((lo | (hi << 4u8)) >> 4u8) & 0x0f == hi) by (bit_vector)
            requires
                lo < 16,
                hi < 16,
        ;
    }
}

/// All the field operators.
pub broadcast group group_field_ops {
    group_gf16_ops,
    group_gf256_ops,
    group_gf256x2_ops,
}

} // verus!
