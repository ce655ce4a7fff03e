//! Field laws: multiplication in GF(256) and GF(256^2) is commutative,
//! associative and distributes over addition; scaling by GF(16) is
//! multiplication by the embedding; sums in GF(256^2) are linear; and the
//! inversion chain of GF(256^2) gives the inverse of every non-zero element.

use vstd::prelude::*;
use crate::field::{
    gf16_embed, gf256_inverse_chain, gf256_mul, gf256_mul_bits, gf256_ones_power, gf256_xtime,
    gf256x2_add, gf256x2_inverse_chain, gf256x2_mul, gf256x2_ones_power, gf256x2_scale,
    lemma_gf256_inverse, lemma_gf256_mul_distributes, lemma_xor_u8,
};
use crate::mq::sum_ext;

verus! {

// ---------------------------------------------------------------------------
// Linearity of the field operations
// ---------------------------------------------------------------------------

/// Exclusive or on bytes regroups and reorders freely, and cancels.
pub proof fn lemma_xor_rearrange(a: u8, b: u8, c: u8, d: u8, e: u8, f: u8)
    by (bit_vector)
    ensures
        (a ^ b) ^ (c ^ d) == (a ^ c) ^ (b ^ d),
        ((a ^ b) ^ (c ^ d)) ^ (e ^ f) == ((a ^ c) ^ e) ^ ((b ^ d) ^ f),
        (a ^ b) ^ (c ^ b) == a ^ c,
        (a ^ b) ^ (c ^ d) == (a ^ (b ^ c)) ^ d,
        ((a ^ b) ^ (c ^ d)) ^ (b ^ d) == a ^ c,
        (a ^ b) ^ b == a,
        (a ^ b) ^ c == a ^ (b ^ c),
        a ^ a == 0u8,
        a ^ 0u8 == a,
        0u8 ^ a == a,
{
}

/// The embedding of GF(16) into GF(256) is additive.
pub proof fn lemma_embed_additive(a: u8, b: u8)
    by (bit_vector)
    ensures
        gf16_embed(a ^ b) == gf16_embed(a) ^ gf16_embed(b),
        gf16_embed(0u8) == 0u8,
{
}

/// Multiplication in GF(256^2) distributes over addition, on either side.
pub proof fn lemma_ext_mul_distributes(a: (u8, u8), b: (u8, u8), m: (u8, u8))
    ensures
        gf256x2_mul(gf256x2_add(a, b), m) == gf256x2_add(gf256x2_mul(a, m), gf256x2_mul(b, m)),
        gf256x2_mul(m, gf256x2_add(a, b)) == gf256x2_add(gf256x2_mul(m, a), gf256x2_mul(m, b)),
{
    lemma_gf256_mul_distributes(a.0, b.0, m.0);
    lemma_gf256_mul_distributes(a.1, b.1, m.1);
    lemma_gf256_mul_distributes(a.0, b.0, m.1);
    lemma_gf256_mul_distributes(a.1, b.1, m.0);
    lemma_gf256_mul_distributes(gf256_mul(a.1, m.1), gf256_mul(b.1, m.1), 32);
    lemma_gf256_mul_distributes(m.0, a.0, b.0);
    lemma_gf256_mul_distributes(m.1, a.1, b.1);
    lemma_gf256_mul_distributes(m.0, a.1, b.1);
    lemma_gf256_mul_distributes(m.1, a.0, b.0);
    lemma_gf256_mul_distributes(gf256_mul(m.1, a.1), gf256_mul(m.1, b.1), 32);
    lemma_xor_rearrange(
        gf256_mul(a.0, m.0),
        gf256_mul(b.0, m.0),
        gf256_mul(gf256_mul(a.1, m.1), 32),
        gf256_mul(gf256_mul(b.1, m.1), 32),
        0,
        0,
    );
    lemma_xor_rearrange(
        gf256_mul(a.0, m.1),
        gf256_mul(b.0, m.1),
        gf256_mul(a.1, m.0),
        gf256_mul(b.1, m.0),
        gf256_mul(a.1, m.1),
        gf256_mul(b.1, m.1),
    );
    lemma_xor_rearrange(
        gf256_mul(m.0, a.0),
        gf256_mul(m.0, b.0),
        gf256_mul(gf256_mul(m.1, a.1), 32),
        gf256_mul(gf256_mul(m.1, b.1), 32),
        0,
        0,
    );
    lemma_xor_rearrange(
        gf256_mul(m.0, a.1),
        gf256_mul(m.0, b.1),
        gf256_mul(m.1, a.0),
        gf256_mul(m.1, b.0),
        gf256_mul(m.1, a.1),
        gf256_mul(m.1, b.1),
    );
}

/// Zero absorbs multiplication in GF(256^2), on either side.
pub proof fn lemma_ext_mul_zero(m: (u8, u8))
    ensures
        gf256x2_mul((0u8, 0u8), m) == (0u8, 0u8),
        gf256x2_mul(m, (0u8, 0u8)) == (0u8, 0u8),
{
    let z = gf256x2_mul((0u8, 0u8), m);
    let w = gf256x2_mul(m, (0u8, 0u8));
    lemma_xor_rearrange(0, 0, 0, 0, 0, 0);
    assert(gf256x2_add((0u8, 0u8), (0u8, 0u8)) == (0u8, 0u8));
    lemma_ext_mul_distributes((0u8, 0u8), (0u8, 0u8), m);
    lemma_xor_rearrange(z.0, 0, 0, 0, 0, 0);
    lemma_xor_rearrange(z.1, 0, 0, 0, 0, 0);
    lemma_xor_rearrange(w.0, 0, 0, 0, 0, 0);
    lemma_xor_rearrange(w.1, 0, 0, 0, 0, 0);
}

/// Scaling by an element of GF(16) is additive in either argument, and
/// zero in either argument gives zero.
pub proof fn lemma_scale_additive(s: u8, t: u8, v: (u8, u8), w: (u8, u8))
    ensures
        gf256x2_scale(s ^ t, v) == gf256x2_add(gf256x2_scale(s, v), gf256x2_scale(t, v)),
        gf256x2_scale(s, gf256x2_add(v, w)) == gf256x2_add(gf256x2_scale(s, v), gf256x2_scale(s, w)),
        gf256x2_scale(0u8, v) == (0u8, 0u8),
        gf256x2_scale(s, (0u8, 0u8)) == (0u8, 0u8),
{
    lemma_embed_additive(s, t);
    lemma_gf256_mul_distributes(gf16_embed(s), gf16_embed(t), v.0);
    lemma_gf256_mul_distributes(gf16_embed(s), gf16_embed(t), v.1);
    lemma_gf256_mul_distributes(gf16_embed(s), v.0, w.0);
    lemma_gf256_mul_distributes(gf16_embed(s), v.1, w.1);
    // Zero in the first argument: embed(0) = 0 and 0 * c = (0 + 0) * c.
    lemma_xor_rearrange(0, 0, 0, 0, 0, 0);
    lemma_gf256_mul_distributes(0u8, 0u8, v.0);
    lemma_gf256_mul_distributes(0u8, 0u8, v.1);
    lemma_xor_rearrange(gf256_mul(0u8, v.0), 0, 0, 0, 0, 0);
    lemma_xor_rearrange(gf256_mul(0u8, v.1), 0, 0, 0, 0, 0);
    // Zero in the second argument.
    lemma_gf256_mul_distributes(gf16_embed(s), 0u8, 0u8);
    lemma_xor_rearrange(gf256_mul(gf16_embed(s), 0u8), 0, 0, 0, 0, 0);
}

// ---------------------------------------------------------------------------
// Sums in GF(256^2)
// ---------------------------------------------------------------------------

/// The termwise sums of two sequences of one length.
pub open spec fn ext_add_terms(a: Seq<(u8, u8)>, b: Seq<(u8, u8)>) -> Seq<(u8, u8)> {
    Seq::new(a.len(), |i: int| gf256x2_add(a[i], b[i]))
}

/// A sum of termwise sums is the sum of the two sums.
pub proof fn lemma_sum_ext_add(a: Seq<(u8, u8)>, b: Seq<(u8, u8)>)
    requires
        a.len() == b.len(),
    ensures
        sum_ext(ext_add_terms(a, b)) == gf256x2_add(sum_ext(a), sum_ext(b)),
    decreases a.len(),
{
    if a.len() == 0 {
        lemma_xor_rearrange(0, 0, 0, 0, 0, 0);
    } else {
        lemma_sum_ext_add(a.drop_last(), b.drop_last());
        assert(ext_add_terms(a, b).drop_last() =~= ext_add_terms(a.drop_last(), b.drop_last()));
        let sa = sum_ext(a.drop_last());
        let sb = sum_ext(b.drop_last());
        lemma_xor_rearrange(sa.0, sb.0, a.last().0, b.last().0, 0, 0);
        lemma_xor_rearrange(sa.1, sb.1, a.last().1, b.last().1, 0, 0);
    }
}

/// Scaling every term of a sum scales the sum.
pub proof fn lemma_sum_ext_scale(v: u8, cs: Seq<(u8, u8)>)
    ensures
        sum_ext(Seq::new(cs.len(), |i: int| gf256x2_scale(v, cs[i]))) == gf256x2_scale(
            v,
            sum_ext(cs),
        ),
    decreases cs.len(),
{
    lemma_scale_additive(v, 0, (0u8, 0u8), (0u8, 0u8));
    if cs.len() > 0 {
        let rest = cs.drop_last();
        lemma_sum_ext_scale(v, rest);
        assert(Seq::new(cs.len(), |i: int| gf256x2_scale(v, cs[i])).drop_last() =~= Seq::new(
            rest.len(),
            |i: int| gf256x2_scale(v, rest[i]),
        ));
        lemma_scale_additive(v, 0, sum_ext(rest), cs.last());
    }
}

/// Multiplying every term of a sum by `m` multiplies the sum by `m`.
pub proof fn lemma_sum_ext_mul(cs: Seq<(u8, u8)>, m: (u8, u8))
    ensures
        sum_ext(Seq::new(cs.len(), |i: int| gf256x2_mul(cs[i], m))) == gf256x2_mul(sum_ext(cs), m),
    decreases cs.len(),
{
    lemma_ext_mul_zero(m);
    if cs.len() > 0 {
        let rest = cs.drop_last();
        lemma_sum_ext_mul(rest, m);
        assert(Seq::new(cs.len(), |i: int| gf256x2_mul(cs[i], m)).drop_last() =~= Seq::new(
            rest.len(),
            |i: int| gf256x2_mul(rest[i], m),
        ));
        lemma_ext_mul_distributes(sum_ext(rest), cs.last(), m);
    }
}

// ---------------------------------------------------------------------------
// Commutativity and associativity in GF(256)
// ---------------------------------------------------------------------------

/// Powers of `x` commute in GF(256).
#[verifier::rlimit(100)]
proof fn lemma_gf256_basis_commute(i: u8, j: u8)
    by (bit_vector)
    requires
        i < 8,
        j < 8,
    ensures
        gf256_mul(1u8 << i, 1u8 << j) == gf256_mul(1u8 << j, 1u8 << i),
{
}

/// The low `n + 1` bits of a byte are its low `n` bits and bit `n`.
proof fn lemma_low_bits8(a: u8, n: u8)
    by (bit_vector)
    requires
        n < 8,
    ensures
        a & (((1u16 << ((n + 1) as u8)) - 1) as u8) == (a & (((1u16 << n) - 1) as u8)) ^ (a & (1u8
            << n)),
        (a & (1u8 << n)) == 0u8 || (a & (1u8 << n)) == 1u8 << n,
        a & (((1u16 << 0u8) - 1) as u8) == 0u8,
        a & (((1u16 << 8u8) - 1) as u8) == a,
{
}

/// Two additive maps on bytes that agree on the powers of two agree.
pub proof fn lemma_additive_agree(f: spec_fn(u8) -> u8, g: spec_fn(u8) -> u8, a: u8)
    requires
        forall|x: u8, y: u8| #[trigger] f(x ^ y) == f(x) ^ f(y),
        forall|x: u8, y: u8| #[trigger] g(x ^ y) == g(x) ^ g(y),
        forall|i: u8| i < 8 ==> #[trigger] f(1u8 << i) == g(1u8 << i),
    ensures
        f(a) == g(a),
{
    lemma_additive_agree_low(f, g, a, 8);
    lemma_low_bits8(a, 0);
}

proof fn lemma_additive_agree_low(f: spec_fn(u8) -> u8, g: spec_fn(u8) -> u8, a: u8, n: u8)
    requires
        forall|x: u8, y: u8| #[trigger] f(x ^ y) == f(x) ^ f(y),
        forall|x: u8, y: u8| #[trigger] g(x ^ y) == g(x) ^ g(y),
        forall|i: u8| i < 8 ==> #[trigger] f(1u8 << i) == g(1u8 << i),
        n <= 8,
    ensures
        f(a & (((1u16 << n) - 1) as u8)) == g(a & (((1u16 << n) - 1) as u8)),
    decreases n,
{
    lemma_xor_rearrange(0, 0, 0, 0, 0, 0);
    assert(f(0u8 ^ 0u8) == f(0u8) ^ f(0u8));
    assert(g(0u8 ^ 0u8) == g(0u8) ^ g(0u8));
    lemma_xor_rearrange(f(0u8), 0, 0, 0, 0, 0);
    lemma_xor_rearrange(g(0u8), 0, 0, 0, 0, 0);
    if n == 0 {
        lemma_low_bits8(a, 0);
    } else {
        let m = (n - 1) as u8;
        lemma_additive_agree_low(f, g, a, m);
        lemma_low_bits8(a, m);
        let low = a & (((1u16 << m) - 1) as u8);
        let t = a & (1u8 << m);
        assert(((m + 1) as u8) == n);
        assert(f(low ^ t) == f(low) ^ f(t));
        assert(g(low ^ t) == g(low) ^ g(t));
        if t != 0 {
            assert(f(1u8 << m) == g(1u8 << m));
        }
    }
}

/// Multiplication in GF(256) is commutative.
pub proof fn lemma_gf256_mul_commutes(a: u8, b: u8)
    ensures
        gf256_mul(a, b) == gf256_mul(b, a),
{
    assert forall|i: u8| i < 8 implies #[trigger] gf256_mul(1u8 << i, b) == gf256_mul(b, 1u8 << i) by {
        let f = |y: u8| gf256_mul(1u8 << i, y);
        let g = |y: u8| gf256_mul(y, 1u8 << i);
        assert forall|x: u8, y: u8| #[trigger] f(x ^ y) == f(x) ^ f(y) by {
            lemma_gf256_mul_distributes(1u8 << i, x, y);
        }
        assert forall|x: u8, y: u8| #[trigger] g(x ^ y) == g(x) ^ g(y) by {
            lemma_gf256_mul_distributes(x, y, 1u8 << i);
        }
        assert forall|j: u8| j < 8 implies #[trigger] f(1u8 << j) == g(1u8 << j) by {
            lemma_gf256_basis_commute(i, j);
        }
        lemma_additive_agree(f, g, b);
    }
    let f = |x: u8| gf256_mul(x, b);
    let g = |x: u8| gf256_mul(b, x);
    assert forall|x: u8, y: u8| #[trigger] f(x ^ y) == f(x) ^ f(y) by {
        lemma_gf256_mul_distributes(x, y, b);
    }
    assert forall|x: u8, y: u8| #[trigger] g(x ^ y) == g(x) ^ g(y) by {
        lemma_gf256_mul_distributes(b, x, y);
    }
    assert forall|i: u8| i < 8 implies #[trigger] f(1u8 << i) == g(1u8 << i) by {
        assert(gf256_mul(1u8 << i, b) == gf256_mul(b, 1u8 << i));
    }
    lemma_additive_agree(f, g, a);
}


proof fn lemma_xtime_bits(a: u8, b: u8, j: u8)
    by (bit_vector)
    requires
        j < 8,
    ensures
        gf256_xtime(a ^ b) == gf256_xtime(a) ^ gf256_xtime(b),
        gf256_xtime(0u8) == 0u8,
        ((1u8 << j) & 1u8 == 1u8) == (j == 0),
        j > 0 ==> (1u8 << j) >> 1u8 == 1u8 << ((j - 1) as u8),
        0u8 & 1u8 != 1u8,
        0u8 >> 1u8 == 0u8,
        (1u8 << 0u8) >> 1u8 == 0u8,
        (1u8 << 0u8) & 1u8 == 1u8,
        1u8 << 0u8 == 1u8,
{
}

/// `x^k a` in GF(256): `a` multiplied `k` times by `x`.
pub open spec fn xtime_power(a: u8, k: nat) -> u8
    decreases k,
{
    if k == 0 {
        a
    } else {
        gf256_xtime(xtime_power(a, (k - 1) as nat))
    }
}

proof fn lemma_xtime_power_shift(a: u8, k: nat)
    ensures
        xtime_power(gf256_xtime(a), k) == xtime_power(a, k + 1),
    decreases k,
{
    assert(xtime_power(a, k + 1) == gf256_xtime(xtime_power(a, k)));
    if k > 0 {
        lemma_xtime_power_shift(a, (k - 1) as nat);
        assert(xtime_power(gf256_xtime(a), k) == gf256_xtime(
            xtime_power(gf256_xtime(a), (k - 1) as nat),
        ));
    } else {
        assert(xtime_power(a, 1) == gf256_xtime(xtime_power(a, 0)));
    }
}

proof fn lemma_mul_bits_zero(a: u8, n: nat)
    ensures
        gf256_mul_bits(a, 0u8, n) == 0u8,
    decreases n,
{
    lemma_xtime_bits(0, 0, 0);
    lemma_xor_rearrange(0, 0, 0, 0, 0, 0);
    if n > 0 {
        lemma_mul_bits_zero(gf256_xtime(a), (n - 1) as nat);
    }
}

/// Multiplying by `x^j` is multiplying `j` times by `x`.
proof fn lemma_mul_bits_power(a: u8, j: u8, n: nat)
    requires
        j < 8,
        j < n,
    ensures
        gf256_mul_bits(a, 1u8 << j, n) == xtime_power(a, j as nat),
    decreases j,
{
    lemma_xtime_bits(0, 0, j);
    let m = (n - 1) as nat;
    let b = 1u8 << j;
    assert(gf256_mul_bits(a, b, n) == (if b & 1 == 1 { a } else { 0u8 }) ^ gf256_mul_bits(
        gf256_xtime(a),
        b >> 1u8,
        m,
    ));
    if j == 0 {
        assert(b == 1u8 << 0u8);
        lemma_mul_bits_zero(gf256_xtime(a), m);
        lemma_xor_rearrange(a, 0, 0, 0, 0, 0);
    } else {
        let i = (j - 1) as u8;
        lemma_mul_bits_power(gf256_xtime(a), i, m);
        lemma_xtime_power_shift(a, i as nat);
        assert(i as nat + 1 == j as nat);
        lemma_xor_rearrange(gf256_mul_bits(gf256_xtime(a), 1u8 << i, m), 0, 0, 0, 0, 0);
        lemma_xor_u8(0, gf256_mul_bits(gf256_xtime(a), 1u8 << i, m), 0);
    }
}

/// Multiplying a product by `x` multiplies its first factor by `x`.
proof fn lemma_xtime_mul_bits(a: u8, b: u8, n: nat)
    ensures
        gf256_xtime(gf256_mul_bits(a, b, n)) == gf256_mul_bits(gf256_xtime(a), b, n),
    decreases n,
{
    lemma_xtime_bits(0, 0, 0);
    if n > 0 {
        let m = (n - 1) as nat;
        lemma_xtime_mul_bits(gf256_xtime(a), b >> 1u8, m);
        let low = if b & 1 == 1 {
            a
        } else {
            0u8
        };
        lemma_xtime_bits(low, gf256_mul_bits(gf256_xtime(a), b >> 1u8, m), 0);
    }
}

/// Multiplication in GF(256) is associative.
pub proof fn lemma_gf256_mul_associates(a: u8, b: u8, c: u8)
    ensures
        gf256_mul(gf256_mul(a, b), c) == gf256_mul(a, gf256_mul(b, c)),
{
    let f = |z: u8| gf256_mul(gf256_mul(a, b), z);
    let g = |z: u8| gf256_mul(a, gf256_mul(b, z));
    assert forall|x: u8, y: u8| #[trigger] f(x ^ y) == f(x) ^ f(y) by {
        lemma_gf256_mul_distributes(gf256_mul(a, b), x, y);
    }
    assert forall|x: u8, y: u8| #[trigger] g(x ^ y) == g(x) ^ g(y) by {
        lemma_gf256_mul_distributes(b, x, y);
        lemma_gf256_mul_distributes(a, gf256_mul(b, x), gf256_mul(b, y));
    }
    assert forall|k: u8| k < 8 implies #[trigger] f(1u8 << k) == g(1u8 << k) by {
        lemma_mul_bits_power(gf256_mul(a, b), k, 8);
        lemma_mul_bits_power(b, k, 8);
        lemma_gf256_mul_commutes(a, b);
        lemma_gf256_mul_commutes(xtime_power(b, k as nat), a);
        lemma_xtime_power_first(b, a, k as nat);
    }
    lemma_additive_agree(f, g, c);
}

/// `x^k (b a) = (x^k b) a`.
proof fn lemma_xtime_power_first(b: u8, a: u8, k: nat)
    ensures
        xtime_power(gf256_mul(b, a), k) == gf256_mul(xtime_power(b, k), a),
    decreases k,
{
    if k > 0 {
        lemma_xtime_power_first(b, a, (k - 1) as nat);
        lemma_xtime_mul_bits(xtime_power(b, (k - 1) as nat), a, 8);
    }
}


// ---------------------------------------------------------------------------
// Commutativity and associativity in GF(256^2)
// ---------------------------------------------------------------------------

proof fn lemma_xor_permute(a: u8, b: u8, c: u8, d: u8, e: u8, f: u8, g: u8, h: u8)
    by (bit_vector)
    ensures
        (a ^ b) ^ ((c ^ d) ^ e) == (a ^ c) ^ ((d ^ b) ^ e),
        ((b ^ a) ^ ((c ^ d) ^ e)) ^ ((f ^ g) ^ h) == (((b ^ c) ^ f) ^ (d ^ a)) ^ ((g ^ e) ^ h),
        a ^ b == b ^ a,
{
}

/// Products in GF(256) regroup freely, and the constant 32 moves to the
/// outside.
proof fn lemma_gf256_regroup(x: u8, y: u8, z: u8)
    ensures
        gf256_mul(x, gf256_mul(y, z)) == gf256_mul(gf256_mul(x, y), z),
        gf256_mul(gf256_mul(x, 32), y) == gf256_mul(gf256_mul(x, y), 32),
        gf256_mul(y, gf256_mul(x, 32)) == gf256_mul(gf256_mul(y, x), 32),
{
    lemma_gf256_mul_associates(x, y, z);
    lemma_gf256_mul_associates(x, 32, y);
    lemma_gf256_mul_commutes(32, y);
    lemma_gf256_mul_associates(x, y, 32);
    lemma_gf256_mul_associates(y, x, 32);
}

/// Multiplication in GF(256^2) is commutative.
pub proof fn lemma_ext_mul_commutes(a: (u8, u8), b: (u8, u8))
    ensures
        gf256x2_mul(a, b) == gf256x2_mul(b, a),
{
    lemma_gf256_mul_commutes(a.0, b.0);
    lemma_gf256_mul_commutes(a.1, b.1);
    lemma_gf256_mul_commutes(a.0, b.1);
    lemma_gf256_mul_commutes(a.1, b.0);
    lemma_xor_permute(gf256_mul(a.0, b.1), gf256_mul(a.1, b.0), 0, 0, 0, 0, 0, 0);
}

/// Multiplication in GF(256^2) is associative.
pub proof fn lemma_ext_mul_associates(a: (u8, u8), b: (u8, u8), c: (u8, u8))
    ensures
        gf256x2_mul(gf256x2_mul(a, b), c) == gf256x2_mul(a, gf256x2_mul(b, c)),
{
    let ab = gf256x2_mul(a, b);
    let bc = gf256x2_mul(b, c);
    // The expansions of (a b) c.
    let p11 = gf256_mul(a.1, b.1);
    lemma_gf256_mul_distributes(gf256_mul(a.0, b.0), gf256_mul(p11, 32), c.0);
    lemma_gf256_mul_distributes(gf256_mul(a.0, b.0), gf256_mul(p11, 32), c.1);
    lemma_gf256_mul_distributes(gf256_mul(a.0, b.1), gf256_mul(a.1, b.0), c.0);
    lemma_gf256_mul_distributes(gf256_mul(a.0, b.1) ^ gf256_mul(a.1, b.0), p11, c.0);
    lemma_gf256_mul_distributes(gf256_mul(a.0, b.1), gf256_mul(a.1, b.0), c.1);
    lemma_gf256_mul_distributes(gf256_mul(a.0, b.1) ^ gf256_mul(a.1, b.0), p11, c.1);
    let m01 = gf256_mul(gf256_mul(a.0, b.1), c.1);
    let m10 = gf256_mul(gf256_mul(a.1, b.0), c.1);
    let m11 = gf256_mul(p11, c.1);
    lemma_gf256_mul_distributes(m01, m10, 32);
    lemma_gf256_mul_distributes(m01 ^ m10, m11, 32);
    lemma_gf256_regroup(p11, c.0, 0);
    lemma_gf256_regroup(p11, c.1, 0);
    // The expansions of a (b c).
    let q11 = gf256_mul(b.1, c.1);
    lemma_gf256_mul_distributes(a.0, gf256_mul(b.0, c.0), gf256_mul(q11, 32));
    lemma_gf256_mul_distributes(a.1, gf256_mul(b.0, c.0), gf256_mul(q11, 32));
    lemma_gf256_mul_distributes(a.0, gf256_mul(b.0, c.1), gf256_mul(b.1, c.0));
    lemma_gf256_mul_distributes(a.0, gf256_mul(b.0, c.1) ^ gf256_mul(b.1, c.0), q11);
    lemma_gf256_mul_distributes(a.1, gf256_mul(b.0, c.1), gf256_mul(b.1, c.0));
    lemma_gf256_mul_distributes(a.1, gf256_mul(b.0, c.1) ^ gf256_mul(b.1, c.0), q11);
    let n01 = gf256_mul(a.1, gf256_mul(b.0, c.1));
    let n10 = gf256_mul(a.1, gf256_mul(b.1, c.0));
    let n11 = gf256_mul(a.1, q11);
    lemma_gf256_mul_distributes(n01, n10, 32);
    lemma_gf256_mul_distributes(n01 ^ n10, n11, 32);
    lemma_gf256_regroup(q11, a.0, 0);
    lemma_gf256_regroup(q11, a.1, 0);
    // Every product of three coefficients, grouped to the left.
    lemma_gf256_regroup(a.0, b.0, c.0);
    lemma_gf256_regroup(a.0, b.0, c.1);
    lemma_gf256_regroup(a.0, b.1, c.0);
    lemma_gf256_regroup(a.0, b.1, c.1);
    lemma_gf256_regroup(a.1, b.0, c.0);
    lemma_gf256_regroup(a.1, b.0, c.1);
    lemma_gf256_regroup(a.1, b.1, c.0);
    lemma_gf256_regroup(a.1, b.1, c.1);
    let t_a = gf256_mul(gf256_mul(a.0, b.0), c.0);
    let t_b = gf256_mul(gf256_mul(gf256_mul(a.1, b.1), c.0), 32);
    let t_c = gf256_mul(gf256_mul(gf256_mul(a.0, b.1), c.1), 32);
    let t_d = gf256_mul(gf256_mul(gf256_mul(a.1, b.0), c.1), 32);
    let t_e = gf256_mul(gf256_mul(gf256_mul(a.1, b.1), c.1), 32);
    lemma_xor_permute(t_a, t_b, t_c, t_d, t_e, 0, 0, 0);
    let u_e = t_e;
    let u_f = gf256_mul(gf256_mul(a.0, b.0), c.1);
    let u_g = gf256_mul(gf256_mul(a.0, b.1), c.0);
    let u_h = gf256_mul(gf256_mul(a.1, b.0), c.0);
    let u_i = gf256_mul(gf256_mul(a.1, b.1), c.0);
    let u_j = gf256_mul(gf256_mul(a.0, b.1), c.1);
    let u_k = gf256_mul(gf256_mul(a.1, b.0), c.1);
    let u_l = gf256_mul(gf256_mul(a.1, b.1), c.1);
    lemma_xor_permute(u_e, u_f, u_g, u_h, u_i, u_j, u_k, u_l);
}

/// Scaling by an element of GF(16) is multiplying by its embedding.
pub proof fn lemma_scale_is_mul(s: u8, v: (u8, u8))
    ensures
        gf256x2_scale(s, v) == gf256x2_mul((gf16_embed(s), 0u8), v),
{
    lemma_gf256_mul_distributes(0u8, 0u8, v.0);
    lemma_gf256_mul_distributes(0u8, 0u8, v.1);
    lemma_gf256_mul_distributes(0u8, 0u8, 32);
    lemma_xor_rearrange(0, 0, 0, 0, 0, 0);
    lemma_xor_rearrange(gf256_mul(0u8, v.0), 0, 0, 0, 0, 0);
    lemma_xor_rearrange(gf256_mul(0u8, v.1), 0, 0, 0, 0, 0);
    lemma_xor_rearrange(gf256_mul(0u8, 32), 0, 0, 0, 0, 0);
    lemma_xor_rearrange(gf256_mul(gf16_embed(s), v.0), 0, 0, 0, 0, 0);
    lemma_xor_rearrange(gf256_mul(gf16_embed(s), v.1), 0, 0, 0, 0, 0);
}


/// Multiplying every term of a sum by `m` on the left multiplies the sum by
/// `m`.
pub proof fn lemma_sum_ext_mul_left(m: (u8, u8), cs: Seq<(u8, u8)>)
    ensures
        sum_ext(Seq::new(cs.len(), |i: int| gf256x2_mul(m, cs[i]))) == gf256x2_mul(m, sum_ext(cs)),
{
    lemma_sum_ext_mul(cs, m);
    assert forall|i: int| 0 <= i < cs.len() implies gf256x2_mul(m, cs[i]) == gf256x2_mul(cs[i], m) by {
        lemma_ext_mul_commutes(m, cs[i]);
    }
    assert(Seq::new(cs.len(), |i: int| gf256x2_mul(m, cs[i])) =~= Seq::new(
        cs.len(),
        |i: int| gf256x2_mul(cs[i], m),
    ));
    lemma_ext_mul_commutes(sum_ext(cs), m);
}

/// The sum of a concatenation is the sum of the two sums.
pub proof fn lemma_sum_ext_concat(a: Seq<(u8, u8)>, b: Seq<(u8, u8)>)
    ensures
        sum_ext(a + b) == gf256x2_add(sum_ext(a), sum_ext(b)),
    decreases b.len(),
{
    let s = sum_ext(a);
    if b.len() == 0 {
        assert(a + b =~= a);
        lemma_xor_rearrange(s.0, 0, 0, 0, 0, 0);
        lemma_xor_rearrange(s.1, 0, 0, 0, 0, 0);
    } else {
        lemma_sum_ext_concat(a, b.drop_last());
        assert((a + b).drop_last() =~= a + b.drop_last());
        let t = sum_ext(b.drop_last());
        lemma_xor_rearrange(s.0, t.0, b.last().0, 0, 0, 0);
        lemma_xor_rearrange(s.1, t.1, b.last().1, 0, 0, 0);
    }
}

/// The sums of consecutive pairs of terms.
pub open spec fn pair_sums(s: Seq<(u8, u8)>, n: nat) -> Seq<(u8, u8)> {
    Seq::new(n, |k: int| gf256x2_add(s[2 * k], s[2 * k + 1]))
}

/// A sum of `2 n` terms is the sum of the `n` sums of consecutive pairs.
pub proof fn lemma_sum_ext_pairs(s: Seq<(u8, u8)>, n: nat)
    requires
        s.len() == 2 * n,
    ensures
        sum_ext(s) == sum_ext(pair_sums(s, n)),
    decreases n,
{
    if n > 0 {
        let m = (n - 1) as nat;
        let rest = s.take(2 * m as int);
        lemma_sum_ext_pairs(rest, m);
        assert(pair_sums(rest, m) =~= pair_sums(s, n).drop_last());
        assert(s.drop_last().drop_last() =~= rest);
        let r = sum_ext(rest);
        let a = s[2 * m as int];
        let b = s[2 * m as int + 1];
        assert(sum_ext(s) == gf256x2_add(sum_ext(s.drop_last()), b));
        assert(sum_ext(s.drop_last()) == gf256x2_add(r, a));
        assert(sum_ext(pair_sums(s, n)) == gf256x2_add(
            sum_ext(pair_sums(s, n).drop_last()),
            gf256x2_add(a, b),
        ));
        lemma_xor_rearrange(r.0, a.0, b.0, 0, 0, 0);
        lemma_xor_rearrange(r.1, a.1, b.1, 0, 0, 0);
    }
}


// ---------------------------------------------------------------------------
// Inverses in GF(256^2)
// ---------------------------------------------------------------------------

/// One and zero in GF(256): `a 1 = 1 a = a` and `a 0 = 0 a = 0`.
pub proof fn lemma_gf256_one_zero(a: u8)
    ensures
        gf256_mul(a, 1) == a,
        gf256_mul(1, a) == a,
        gf256_mul(a, 0) == 0,
        gf256_mul(0, a) == 0,
{
    lemma_xtime_bits(0, 0, 0);
    lemma_mul_bits_power(a, 0, 8);
    lemma_gf256_mul_commutes(a, 1);
    lemma_gf256_mul_distributes(a, 0, 0);
    lemma_gf256_mul_distributes(0, 0, a);
    lemma_xor_rearrange(0, 0, 0, 0, 0, 0);
    lemma_xor_rearrange(gf256_mul(a, 0), 0, 0, 0, 0, 0);
    lemma_xor_rearrange(gf256_mul(0, a), 0, 0, 0, 0, 0);
}

/// One in GF(256^2) is neutral for multiplication, and elements of GF(256)
/// multiply within GF(256).
pub proof fn lemma_ext_one(a: (u8, u8), c: u8, d: u8)
    ensures
        gf256x2_mul((1u8, 0u8), a) == a,
        gf256x2_mul(a, (1u8, 0u8)) == a,
        gf256x2_mul((c, 0u8), (d, 0u8)) == (gf256_mul(c, d), 0u8),
{
    lemma_gf256_one_zero(a.0);
    lemma_gf256_one_zero(a.1);
    lemma_gf256_one_zero(c);
    lemma_gf256_one_zero(d);
    lemma_gf256_one_zero(0);
    lemma_gf256_one_zero(32);
    lemma_xor_rearrange(a.0, 0, 0, 0, 0, 0);
    lemma_xor_rearrange(a.1, 0, 0, 0, 0, 0);
    lemma_xor_rearrange(gf256_mul(c, d), 0, 0, 0, 0, 0);
    lemma_xor_rearrange(0, 0, 0, 0, 0, 0);
}

/// `a^n` in GF(256^2).
pub open spec fn ext_pow(a: (u8, u8), n: nat) -> (u8, u8)
    decreases n,
{
    if n == 0 {
        (1u8, 0u8)
    } else {
        gf256x2_mul(ext_pow(a, (n - 1) as nat), a)
    }
}

/// `a^(m + n) = a^m a^n`.
pub proof fn lemma_ext_pow_add(a: (u8, u8), m: nat, n: nat)
    ensures
        ext_pow(a, m + n) == gf256x2_mul(ext_pow(a, m), ext_pow(a, n)),
    decreases n,
{
    lemma_ext_one(ext_pow(a, m), 0, 0);
    if n > 0 {
        let k = (n - 1) as nat;
        lemma_ext_pow_add(a, m, k);
        assert(ext_pow(a, m + n) == gf256x2_mul(ext_pow(a, m + k), a));
        lemma_ext_mul_associates(ext_pow(a, m), ext_pow(a, k), a);
    }
}

/// `(a^m)^n = a^(m n)`.
pub proof fn lemma_ext_pow_pow(a: (u8, u8), m: nat, n: nat)
    ensures
        ext_pow(ext_pow(a, m), n) == ext_pow(a, m * n),
    decreases n,
{
    if n == 0 {
        assert(m * 0 == 0) by (nonlinear_arith);
    } else {
        let k = (n - 1) as nat;
        lemma_ext_pow_pow(a, m, k);
        lemma_ext_pow_add(a, m * k, m);
        assert(m * k + m == m * n) by (nonlinear_arith)
            requires
                k + 1 == n,
        ;
    }
}

/// `2^(k+1) - 1`: the exponent reached by `k` square-and-multiply steps.
pub open spec fn ones_exponent(k: nat) -> nat
    decreases k,
{
    if k == 0 {
        1
    } else {
        2 * ones_exponent((k - 1) as nat) + 1
    }
}

/// The square-and-multiply chain computes `a^(2^(k+1) - 1)`.
pub proof fn lemma_ext_ones_power(a: (u8, u8), k: nat)
    ensures
        gf256x2_ones_power(a, k) == ext_pow(a, ones_exponent(k)),
    decreases k,
{
    lemma_ext_one(a, 0, 0);
    assert(ext_pow(a, 1) == gf256x2_mul(ext_pow(a, 0), a));
    if k > 0 {
        let j = (k - 1) as nat;
        let e = ones_exponent(j);
        lemma_ext_ones_power(a, j);
        lemma_ext_pow_add(a, e, e);
        assert(ext_pow(a, e + e + 1) == gf256x2_mul(ext_pow(a, e + e), a));
    }
}

/// The square-and-multiply chain of GF(256) runs within GF(256^2).
proof fn lemma_embedded_ones_power(c: u8, k: nat)
    ensures
        gf256x2_ones_power((c, 0u8), k) == (gf256_ones_power(c, k), 0u8),
    decreases k,
{
    if k > 0 {
        let j = (k - 1) as nat;
        lemma_embedded_ones_power(c, j);
        let p = gf256_ones_power(c, j);
        lemma_ext_one((0u8, 0u8), p, p);
        lemma_ext_one((0u8, 0u8), gf256_mul(p, p), c);
    }
}

/// `c^255 = 1` for every non-zero `c` of GF(256), within GF(256^2).
proof fn lemma_embedded_fermat(c: u8)
    requires
        c != 0,
    ensures
        ext_pow((c, 0u8), 255) == (1u8, 0u8),
{
    let b = (c, 0u8);
    lemma_gf256_inverse(c);
    lemma_embedded_ones_power(c, 6);
    let p = gf256_ones_power(c, 6);
    lemma_ext_one((0u8, 0u8), p, p);
    lemma_ext_one((0u8, 0u8), c, gf256_mul(p, p));
    lemma_ext_ones_power(b, 6);
    reveal_with_fuel(ones_exponent, 7);
    assert(ones_exponent(6) == 127);
    lemma_ext_pow_add(b, 127, 127);
    lemma_ext_pow_add(b, 1, 254);
    lemma_ext_one(b, 0, 0);
    assert(ext_pow(b, 1) == gf256x2_mul(ext_pow(b, 0), b));
}


/// The coefficients of the square of `p + q X`.
pub open spec fn square_low(p: u8, q: u8) -> u8 {
    gf256_mul(p, p) ^ gf256_mul(gf256_mul(q, q), 32)
}

/// The coefficient of `X` in the square of `p + q X`.
pub open spec fn square_high(p: u8, q: u8) -> u8 {
    (gf256_mul(p, q) ^ gf256_mul(q, p)) ^ gf256_mul(q, q)
}

/// Eight squarings take `X` to `1 + X`, evaluated step by step.
proof fn lemma_x_squarings()
    by (bit_vector)
    ensures
        square_low(0, 1) == 32u8 && square_high(0, 1) == 1u8,
        square_low(32, 1) == 76u8 && square_high(32, 1) == 1u8,
        square_low(76, 1) == 219u8 && square_high(76, 1) == 1u8,
        square_low(219, 1) == 79u8 && square_high(219, 1) == 1u8,
        square_low(79, 1) == 222u8 && square_high(79, 1) == 1u8,
        square_low(222, 1) == 94u8 && square_high(222, 1) == 1u8,
        square_low(94, 1) == 196u8 && square_high(94, 1) == 1u8,
        square_low(196, 1) == 1u8 && square_high(196, 1) == 1u8,
{
}


/// Eight squarings fix every element `c` of GF(256), and `t^2 + t + 32` has
/// no root `t` in GF(256), so that `X^2 + X + 32` is irreducible.
proof fn lemma_gf256_frobenius(c: u8, t: u8, s1: u8, s2: u8, s3: u8, s4: u8, s5: u8, s6: u8, s7: u8, s8: u8)
    by (bit_vector)
    requires
        s1 == gf256_mul(c, c),
        s2 == gf256_mul(s1, s1),
        s3 == gf256_mul(s2, s2),
        s4 == gf256_mul(s3, s3),
        s5 == gf256_mul(s4, s4),
        s6 == gf256_mul(s5, s5),
        s7 == gf256_mul(s6, s6),
        s8 == gf256_mul(s7, s7),
    ensures
        s8 == c,
        gf256_mul(t, t) ^ t != 32u8,
{
}


/// `a` squared `k` times in GF(256^2).
pub open spec fn ext_square_iter(a: (u8, u8), k: nat) -> (u8, u8)
    decreases k,
{
    if k == 0 {
        a
    } else {
        let s = ext_square_iter(a, (k - 1) as nat);
        gf256x2_mul(s, s)
    }
}

/// `c` squared `k` times in GF(256).
pub open spec fn gf256_square_iter(c: u8, k: nat) -> u8
    decreases k,
{
    if k == 0 {
        c
    } else {
        let s = gf256_square_iter(c, (k - 1) as nat);
        gf256_mul(s, s)
    }
}

/// `2^k`.
pub open spec fn two_power(k: nat) -> nat
    decreases k,
{
    if k == 0 {
        1
    } else {
        2 * two_power((k - 1) as nat)
    }
}

/// `(p q) (r s) = (p r) (q s)` in GF(256^2).
pub proof fn lemma_ext_mul_swap_middle(p: (u8, u8), q: (u8, u8), r: (u8, u8), s: (u8, u8))
    ensures
        gf256x2_mul(gf256x2_mul(p, q), gf256x2_mul(r, s)) == gf256x2_mul(
            gf256x2_mul(p, r),
            gf256x2_mul(q, s),
        ),
{
    lemma_ext_mul_associates(p, q, gf256x2_mul(r, s));
    lemma_ext_mul_associates(q, r, s);
    lemma_ext_mul_commutes(q, r);
    lemma_ext_mul_associates(r, q, s);
    lemma_ext_mul_associates(p, r, gf256x2_mul(q, s));
}

/// Squaring in GF(256^2) is additive and multiplicative.
pub proof fn lemma_square_hom(a: (u8, u8), b: (u8, u8))
    ensures
        gf256x2_mul(gf256x2_add(a, b), gf256x2_add(a, b)) == gf256x2_add(
            gf256x2_mul(a, a),
            gf256x2_mul(b, b),
        ),
        gf256x2_mul(gf256x2_mul(a, b), gf256x2_mul(a, b)) == gf256x2_mul(
            gf256x2_mul(a, a),
            gf256x2_mul(b, b),
        ),
{
    let c = gf256x2_add(a, b);
    lemma_ext_mul_distributes(a, b, c);
    lemma_ext_mul_distributes(a, b, a);
    lemma_ext_mul_distributes(a, b, b);
    lemma_ext_mul_commutes(a, b);
    let aa = gf256x2_mul(a, a);
    let ab = gf256x2_mul(a, b);
    let bb = gf256x2_mul(b, b);
    lemma_xor_rearrange(aa.0, ab.0, ab.0, bb.0, 0, 0);
    lemma_xor_rearrange(aa.1, ab.1, ab.1, bb.1, 0, 0);
    lemma_xor_rearrange(ab.0, 0, 0, 0, 0, 0);
    lemma_xor_rearrange(ab.1, 0, 0, 0, 0, 0);
    lemma_xor_rearrange(aa.0, 0, 0, 0, 0, 0);
    lemma_xor_rearrange(aa.1, 0, 0, 0, 0, 0);
    lemma_ext_mul_swap_middle(a, b, a, b);
}

/// Iterated squaring is additive and multiplicative, and computes the
/// power `2^k`.
pub proof fn lemma_square_iter_hom(a: (u8, u8), b: (u8, u8), k: nat)
    ensures
        ext_square_iter(gf256x2_add(a, b), k) == gf256x2_add(
            ext_square_iter(a, k),
            ext_square_iter(b, k),
        ),
        ext_square_iter(gf256x2_mul(a, b), k) == gf256x2_mul(
            ext_square_iter(a, k),
            ext_square_iter(b, k),
        ),
        ext_square_iter(a, k) == ext_pow(a, two_power(k)),
    decreases k,
{
    if k == 0 {
        lemma_ext_one(a, 0, 0);
        assert(ext_pow(a, 1) == gf256x2_mul(ext_pow(a, 0), a));
    } else {
        let j = (k - 1) as nat;
        lemma_square_iter_hom(a, b, j);
        lemma_square_hom(ext_square_iter(a, j), ext_square_iter(b, j));
        lemma_ext_pow_add(a, two_power(j), two_power(j));
    }
}

/// Eight squarings fix the elements of GF(256) within GF(256^2).
proof fn lemma_square_iter_base(c: u8, k: nat)
    ensures
        ext_square_iter((c, 0u8), k) == (gf256_square_iter(c, k), 0u8),
    decreases k,
{
    if k > 0 {
        let j = (k - 1) as nat;
        lemma_square_iter_base(c, j);
        let s = gf256_square_iter(c, j);
        lemma_ext_one((0u8, 0u8), s, s);
    }
}

/// Eight squarings give the conjugate: `(a0 + a1 X)^256 = (a0 + a1) + a1 X`.
pub proof fn lemma_frobenius(a: (u8, u8))
    ensures
        ext_square_iter(a, 8) == (a.0 ^ a.1, a.1),
{
    let x = (0u8, 1u8);
    // X^256 = 1 + X.
    lemma_x_squarings();
    reveal_with_fuel(ext_square_iter, 9);
    assert(ext_square_iter(x, 1) == (32u8, 1u8));
    assert(ext_square_iter(x, 2) == (76u8, 1u8));
    assert(ext_square_iter(x, 3) == (219u8, 1u8));
    assert(ext_square_iter(x, 4) == (79u8, 1u8));
    assert(ext_square_iter(x, 5) == (222u8, 1u8));
    assert(ext_square_iter(x, 6) == (94u8, 1u8));
    assert(ext_square_iter(x, 7) == (196u8, 1u8));
    assert(ext_square_iter(x, 8) == (1u8, 1u8));
    // c^256 = c in GF(256).
    reveal_with_fuel(gf256_square_iter, 9);
    lemma_gf256_frobenius(
        a.0,
        0,
        gf256_square_iter(a.0, 1),
        gf256_square_iter(a.0, 2),
        gf256_square_iter(a.0, 3),
        gf256_square_iter(a.0, 4),
        gf256_square_iter(a.0, 5),
        gf256_square_iter(a.0, 6),
        gf256_square_iter(a.0, 7),
        gf256_square_iter(a.0, 8),
    );
    lemma_gf256_frobenius(
        a.1,
        0,
        gf256_square_iter(a.1, 1),
        gf256_square_iter(a.1, 2),
        gf256_square_iter(a.1, 3),
        gf256_square_iter(a.1, 4),
        gf256_square_iter(a.1, 5),
        gf256_square_iter(a.1, 6),
        gf256_square_iter(a.1, 7),
        gf256_square_iter(a.1, 8),
    );
    lemma_square_iter_base(a.0, 8);
    lemma_square_iter_base(a.1, 8);
    // a = a0 + a1 X.
    let low = (a.0, 0u8);
    let high = (a.1, 0u8);
    lemma_gf256_one_zero(a.0);
    lemma_gf256_one_zero(a.1);
    lemma_gf256_one_zero(0);
    lemma_gf256_one_zero(1);
    lemma_gf256_one_zero(32);
    lemma_xor_rearrange(0, 0, 0, 0, 0, 0);
    lemma_xor_rearrange(a.0, 0, 0, 0, 0, 0);
    lemma_xor_rearrange(a.1, 0, 0, 0, 0, 0);
    assert(gf256x2_mul(high, x) == (0u8, a.1));
    assert(gf256x2_add(low, gf256x2_mul(high, x)) == a);
    lemma_square_iter_hom(low, gf256x2_mul(high, x), 8);
    lemma_square_iter_hom(high, x, 8);
    assert(gf256x2_mul(high, (1u8, 1u8)) == (a.1, a.1));
}


/// `(p q) (r s) = (p r) (q s)` in GF(256).
proof fn lemma_gf256_swap_middle(p: u8, q: u8, r: u8, s: u8)
    ensures
        gf256_mul(gf256_mul(p, q), gf256_mul(r, s)) == gf256_mul(gf256_mul(p, r), gf256_mul(q, s)),
{
    lemma_gf256_mul_associates(p, q, gf256_mul(r, s));
    lemma_gf256_mul_associates(q, r, s);
    lemma_gf256_mul_commutes(q, r);
    lemma_gf256_mul_associates(r, q, s);
    lemma_gf256_mul_associates(p, r, gf256_mul(q, s));
}

/// The norm `a0^2 + a0 a1 + 32 a1^2` of `a0 + a1 X`.
pub open spec fn ext_norm(a: (u8, u8)) -> u8 {
    gf256_mul(a.0, a.0 ^ a.1) ^ gf256_mul(gf256_mul(a.1, a.1), 32)
}

/// An element times its conjugate is its norm, which is non-zero for a
/// non-zero element.
pub proof fn lemma_norm(a: (u8, u8))
    ensures
        gf256x2_mul(a, (a.0 ^ a.1, a.1)) == (ext_norm(a), 0u8),
        a != (0u8, 0u8) ==> ext_norm(a) != 0,
{
    let (a0, a1) = a;
    lemma_gf256_mul_distributes(a1, a0, a1);
    lemma_gf256_mul_commutes(a1, a0);
    let x = gf256_mul(a0, a1);
    let y = gf256_mul(a1, a1);
    lemma_xor_u8(x, x, y);
    lemma_xor_u8(y, y, 0);
    if a != (0u8, 0u8) {
        lemma_gf256_mul_distributes(a0, a0, a1);
        lemma_gf256_one_zero(0);
        lemma_gf256_one_zero(1);
        lemma_gf256_one_zero(32);
        let n = ext_norm(a);
        if a1 == 0 {
            lemma_xor_u8(a0, 0, 0);
            lemma_gf256_one_zero(a0);
            lemma_gf256_inverse(a0);
            let i = gf256_inverse_chain(a0);
            lemma_gf256_mul_associates(a0, a0, i);
            lemma_gf256_one_zero(i);
            lemma_xor_u8(gf256_mul(a0, a0), 0, 0);
        } else {
            lemma_gf256_inverse(a1);
            let i = gf256_inverse_chain(a1);
            let t = gf256_mul(a0, i);
            let ii = gf256_mul(i, i);
            let aa = gf256_mul(a0, a0);
            let bb = gf256_mul(gf256_mul(a1, a1), 32);
            lemma_gf256_mul_distributes(aa ^ x, bb, ii);
            lemma_gf256_mul_distributes(aa, x, ii);
            lemma_gf256_swap_middle(a0, a0, i, i);
            lemma_gf256_swap_middle(a0, a1, i, i);
            lemma_gf256_one_zero(t);
            lemma_gf256_regroup(gf256_mul(a1, a1), ii, 0);
            lemma_gf256_swap_middle(a1, a1, i, i);
            lemma_gf256_one_zero(ii);
            let u = gf256_mul(t, t) ^ t;
            reveal_with_fuel(gf256_square_iter, 9);
            lemma_gf256_frobenius(
                t,
                t,
                gf256_square_iter(t, 1),
                gf256_square_iter(t, 2),
                gf256_square_iter(t, 3),
                gf256_square_iter(t, 4),
                gf256_square_iter(t, 5),
                gf256_square_iter(t, 6),
                gf256_square_iter(t, 7),
                gf256_square_iter(t, 8),
            );
            lemma_xor_u8(u, 32, 32);
            lemma_xor_u8(32, 0, 0);
        }
    }
}

/// Every non-zero element of GF(256^2) has an inverse, and the inversion
/// chain `a^65534` gives it.
pub proof fn lemma_gf256x2_inverse(a: (u8, u8))
    ensures
        a != (0u8, 0u8) ==> gf256x2_mul(a, gf256x2_inverse_chain(a)) == (1u8, 0u8),
        a == (0u8, 0u8) ==> gf256x2_inverse_chain(a) == (0u8, 0u8),
{
    if a == (0u8, 0u8) {
        lemma_ones_power_zero(14);
        lemma_ext_mul_zero((0u8, 0u8));
    } else {
        lemma_ext_ones_power(a, 14);
        reveal_with_fuel(ones_exponent, 15);
        assert(ones_exponent(14) == 32767);
        lemma_ext_pow_add(a, 32767, 32767);
        lemma_ext_mul_commutes(a, ext_pow(a, 65534));
        assert(ext_pow(a, 65535) == gf256x2_mul(ext_pow(a, 65534), a));
        lemma_ext_pow_pow(a, 257, 255);
        lemma_square_iter_hom(a, a, 8);
        reveal_with_fuel(two_power, 9);
        assert(two_power(8) == 256);
        lemma_frobenius(a);
        assert(ext_pow(a, 257) == gf256x2_mul(ext_pow(a, 256), a));
        lemma_ext_mul_commutes((a.0 ^ a.1, a.1), a);
        lemma_norm(a);
        lemma_embedded_fermat(ext_norm(a));
    }
}

proof fn lemma_ones_power_zero(k: nat)
    ensures
        gf256x2_ones_power((0u8, 0u8), k) == (0u8, 0u8),
    decreases k,
{
    lemma_ext_mul_zero((0u8, 0u8));
    if k > 0 {
        lemma_ones_power_zero((k - 1) as nat);
    }
}


/// A sum of zeros is zero.
pub proof fn lemma_sum_ext_zero(terms: Seq<(u8, u8)>)
    requires
        forall|k: int| 0 <= k < terms.len() ==> #[trigger] terms[k] == (0u8, 0u8),
    ensures
        sum_ext(terms) == (0u8, 0u8),
    decreases terms.len(),
{
    lemma_xor_rearrange(0, 0, 0, 0, 0, 0);
    if terms.len() > 0 {
        lemma_sum_ext_zero(terms.drop_last());
    }
}

} // verus!
