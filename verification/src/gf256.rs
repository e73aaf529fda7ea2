//! Arithmetic in the field GF(2^8) with the AES reduction polynomial
//! x^8 + x^4 + x^3 + x + 1 (0x11b).
//!
//! Field elements are bytes. Addition and subtraction are XOR;
//! multiplication is carry-less multiplication interleaved with reduction,
//! computed by the shift-and-add (Russian peasant) scheme. The module proves
//! the field axioms: commutativity, associativity, distributivity, units,
//! absence of zero divisors, and the existence of inverses (by a
//! pigeonhole argument: multiplication by a non-zero element is injective).

use vstd::prelude::*;

verus! {

/// Addition in GF(2^8): bytewise XOR.
pub open spec fn gf_add(a: u8, b: u8) -> u8 {
    a ^ b
}

/// Multiplication by x (the element 0x02): shift left and reduce by 0x11b
/// when a high bit falls out.
pub open spec fn spec_gf_xtime(a: u8) -> u8 {
    if a & 0x80 == 0x80 {
        (a << 1u8) ^ 0x1b
    } else {
        a << 1u8
    }
}

/// Multiplication in GF(2^8), written out as the eight shift-and-add steps
/// so that the bit-vector solver can reason about it directly.
pub open spec fn spec_gf_mul(a: u8, b: u8) -> u8 {
    let a1 = spec_gf_xtime(a);
    let a2 = spec_gf_xtime(a1);
    let a3 = spec_gf_xtime(a2);
    let a4 = spec_gf_xtime(a3);
    let a5 = spec_gf_xtime(a4);
    let a6 = spec_gf_xtime(a5);
    let a7 = spec_gf_xtime(a6);
    (if b & 0x01 != 0 { a } else { 0 }) ^ (if b & 0x02 != 0 { a1 } else { 0 }) ^ (if b & 0x04 != 0 {
        a2
    } else {
        0
    }) ^ (if b & 0x08 != 0 { a3 } else { 0 }) ^ (if b & 0x10 != 0 { a4 } else { 0 }) ^ (if b & 0x20
        != 0 {
        a5
    } else {
        0
    }) ^ (if b & 0x40 != 0 { a6 } else { 0 }) ^ (if b & 0x80 != 0 { a7 } else { 0 })
}

/// Multiplication commutes.
#[verifier::rlimit(100)]
pub proof fn lemma_gf_mul_comm(a: u8, b: u8)
    ensures
        spec_gf_mul(a, b) == spec_gf_mul(b, a),
{
    assert(spec_gf_mul(a, b) == spec_gf_mul(b, a)) by (bit_vector);
}

/// Multiplication distributes over addition in the right argument.
#[verifier::rlimit(100)]
pub proof fn lemma_gf_mul_distrib(a: u8, b: u8, c: u8)
    ensures
        spec_gf_mul(a, b ^ c) == spec_gf_mul(a, b) ^ spec_gf_mul(a, c),
{
    assert(spec_gf_mul(a, b ^ c) == spec_gf_mul(a, b) ^ spec_gf_mul(a, c)) by (bit_vector);
}

/// Zero annihilates and one is the multiplicative identity.
pub proof fn lemma_gf_mul_unit_zero(a: u8)
    ensures
        spec_gf_mul(a, 0) == 0,
        spec_gf_mul(0, a) == 0,
        spec_gf_mul(a, 1) == a,
        spec_gf_mul(1, a) == a,
{
    assert(spec_gf_mul(a, 0) == 0) by (bit_vector);
    assert(spec_gf_mul(0, a) == 0) by (bit_vector);
    assert(spec_gf_mul(a, 1) == a) by (bit_vector);
    assert(spec_gf_mul(1, a) == a) by (bit_vector);
}

/// The field has no zero divisors: the reduction polynomial is irreducible.
#[verifier::rlimit(100)]
pub proof fn lemma_gf_no_zero_divisors(a: u8, b: u8)
    ensures
        spec_gf_mul(a, b) == 0 ==> a == 0 || b == 0,
{
    assert(spec_gf_mul(a, b) == 0 ==> a == 0 || b == 0) by (bit_vector);
}

/// Shift-and-add recursion: a product is the low-bit term plus x times the
/// product with the remaining bits of the right factor.
#[verifier::rlimit(100)]
proof fn lemma_gf_mul_step(a: u8, b: u8)
    ensures
        spec_gf_mul(a, b) == (if b & 1 != 0 {
            a
        } else {
            0
        }) ^ spec_gf_xtime(spec_gf_mul(a, b >> 1u8)),
{
    let m = spec_gf_mul(a, b >> 1u8);
    assert(spec_gf_mul(a, b) == (if b & 1 != 0 {
        a
    } else {
        0
    }) ^ spec_gf_xtime(m)) by (bit_vector)
        requires
            m == spec_gf_mul(a, b >> 1u8),
    ;
}

/// Multiplication by x slides through a product.
#[verifier::rlimit(100)]
proof fn lemma_gf_xtime_mul(a: u8, m: u8)
    ensures
        spec_gf_xtime(spec_gf_mul(a, m)) == spec_gf_mul(a, spec_gf_xtime(m)),
{
    let xm = spec_gf_xtime(m);
    assert(spec_gf_xtime(spec_gf_mul(a, m)) == spec_gf_mul(a, xm)) by (bit_vector)
        requires
            xm == spec_gf_xtime(m),
    ;
}

/// Multiplication is associative, by induction over the bits of the last
/// factor.
pub proof fn lemma_gf_mul_assoc(a: u8, b: u8, c: u8)
    ensures
        spec_gf_mul(spec_gf_mul(a, b), c) == spec_gf_mul(a, spec_gf_mul(b, c)),
    decreases c,
{
    let ab = spec_gf_mul(a, b);
    if c == 0 {
        lemma_gf_mul_unit_zero(ab);
        lemma_gf_mul_unit_zero(b);
        lemma_gf_mul_unit_zero(a);
    } else {
        let d = c >> 1u8;
        assert(d < c) by (bit_vector)
            requires
                c != 0 && d == c >> 1u8,
        ;
        lemma_gf_mul_assoc(a, b, d);
        let bd = spec_gf_mul(b, d);
        lemma_gf_mul_step(ab, c);
        lemma_gf_mul_step(b, c);
        lemma_gf_xtime_mul(a, bd);
        let sel_b: u8 = if c & 1 != 0 { b } else { 0 };
        lemma_gf_mul_distrib(a, sel_b, spec_gf_xtime(bd));
        lemma_gf_mul_unit_zero(a);
        assert(spec_gf_mul(ab, c) == spec_gf_mul(a, sel_b) ^ spec_gf_mul(a, spec_gf_xtime(bd)));
        assert(spec_gf_mul(b, c) == sel_b ^ spec_gf_xtime(bd));
    }
}

/// Basic facts about XOR, the field addition.
pub proof fn lemma_gf_add_basic(x: u8, y: u8, z: u8)
    ensures
        x ^ y == y ^ x,
        (x ^ y) ^ z == x ^ (y ^ z),
        x ^ 0 == x,
        0 ^ x == x,
        x ^ x == 0,
        (x ^ y == 0) <==> (x == y),
{
    assert(x ^ y == y ^ x) by (bit_vector);
    assert((x ^ y) ^ z == x ^ (y ^ z)) by (bit_vector);
    assert(x ^ 0 == x) by (bit_vector);
    assert(0 ^ x == x) by (bit_vector);
    assert(x ^ x == 0) by (bit_vector);
    assert((x ^ y == 0) <==> (x == y)) by (bit_vector);
}

/// Multiplication by a non-zero element is injective.
pub proof fn lemma_gf_mul_injective(a: u8, x: u8, y: u8)
    requires
        a != 0,
        x != y,
    ensures
        spec_gf_mul(a, x) != spec_gf_mul(a, y),
{
    lemma_gf_add_basic(x, y, 0);
    lemma_gf_mul_distrib(a, x, y);
    lemma_gf_no_zero_divisors(a, x ^ y);
    lemma_gf_add_basic(spec_gf_mul(a, x), spec_gf_mul(a, y), 0);
}

/// Every non-zero element has a multiplicative inverse: multiplication by a
/// non-zero element is injective, so its 256 products exhaust the field and
/// in particular reach one.
pub proof fn lemma_gf_inv_exists(a: u8)
    requires
        a != 0,
    ensures
        exists|b: u8| spec_gf_mul(a, b) == 1,
{
    let s = Seq::new(256, |i: int| spec_gf_mul(a, i as u8));
    assert forall|i: int, j: int| 0 <= i < s.len() && 0 <= j < s.len() && i != j implies s[i]
        != s[j] by {
        let x = i as u8;
        let y = j as u8;
        assert(x as int == i && y as int == j);
        lemma_gf_mul_injective(a, x, y);
        assert(s[i] == spec_gf_mul(a, x) && s[j] == spec_gf_mul(a, y));
    };
    assert(s.no_duplicates());
    s.unique_seq_to_set();
    let image = s.to_set();
    assert(image.len() == 256);
    vstd::set_lib::range_set_properties::<u8>(0u8, 255u8);
    let uni = Set::<u8>::range(0u8, 255u8).insert(255u8);
    assert(!Set::<u8>::range(0u8, 255u8).contains(255u8));
    assert(uni.len() == 256);
    assert(forall|v: u8| uni.contains(v));
    if !image.contains(1u8) {
        let smaller = uni.remove(1u8);
        assert(uni.contains(1u8));
        assert(smaller.len() == 255);
        assert(image.subset_of(smaller));
        vstd::set_lib::lemma_len_subset(image, smaller);
        assert(false);
    }
    assert(s.contains(1u8));
    let i = choose|i: int| 0 <= i < s.len() && s[i] == 1u8;
    assert(spec_gf_mul(a, i as u8) == 1);
}

/// The multiplicative inverse of a non-zero element, as the witness to
/// [`lemma_gf_inv_exists`]. Unspecified at zero.
pub open spec fn spec_gf_inv(a: u8) -> u8 {
    choose|b: u8| spec_gf_mul(a, b) == 1
}

/// A non-zero element times its inverse is one, and the inverse is non-zero.
pub proof fn lemma_gf_mul_inv(a: u8)
    requires
        a != 0,
    ensures
        spec_gf_mul(a, spec_gf_inv(a)) == 1,
        spec_gf_inv(a) != 0,
{
    lemma_gf_inv_exists(a);
    lemma_gf_mul_unit_zero(a);
}

/// The inverse of a non-zero element is unique.
pub proof fn lemma_gf_inv_unique(a: u8, c: u8)
    requires
        a != 0,
        spec_gf_mul(a, c) == 1,
    ensures
        c == spec_gf_inv(a),
{
    let w = spec_gf_inv(a);
    lemma_gf_mul_inv(a);
    if c != w {
        lemma_gf_mul_injective(a, c, w);
    }
}

/// The product of non-zero elements is non-zero.
pub proof fn lemma_gf_mul_nonzero(a: u8, b: u8)
    requires
        a != 0,
        b != 0,
    ensures
        spec_gf_mul(a, b) != 0,
{
    lemma_gf_no_zero_divisors(a, b);
}

/// Factors of a product of products can be regrouped pairwise.
pub proof fn lemma_gf_mul_shuffle4(a: u8, b: u8, c: u8, d: u8)
    ensures
        spec_gf_mul(spec_gf_mul(a, b), spec_gf_mul(c, d)) == spec_gf_mul(
            spec_gf_mul(a, c),
            spec_gf_mul(b, d),
        ),
{
    lemma_gf_mul_assoc(a, b, spec_gf_mul(c, d));
    lemma_gf_mul_assoc(b, c, d);
    lemma_gf_mul_comm(b, c);
    lemma_gf_mul_assoc(c, b, d);
    lemma_gf_mul_assoc(a, c, spec_gf_mul(b, d));
}

/// One is its own inverse.
pub proof fn lemma_gf_inv_one()
    ensures
        spec_gf_inv(1) == 1,
{
    lemma_gf_mul_unit_zero(1);
    lemma_gf_inv_unique(1, 1);
}

/// The inverse of a product is the product of the inverses.
pub proof fn lemma_gf_inv_mul(a: u8, b: u8)
    requires
        a != 0,
        b != 0,
    ensures
        spec_gf_mul(a, b) != 0,
        spec_gf_inv(spec_gf_mul(a, b)) == spec_gf_mul(spec_gf_inv(a), spec_gf_inv(b)),
{
    lemma_gf_mul_nonzero(a, b);
    lemma_gf_mul_inv(a);
    lemma_gf_mul_inv(b);
    lemma_gf_mul_shuffle4(a, b, spec_gf_inv(a), spec_gf_inv(b));
    lemma_gf_mul_unit_zero(1);
    lemma_gf_inv_unique(spec_gf_mul(a, b), spec_gf_mul(spec_gf_inv(a), spec_gf_inv(b)));
}

/// Division in GF(2^8): multiplication by the inverse of the divisor.
pub open spec fn spec_gf_div(a: u8, b: u8) -> u8 {
    spec_gf_mul(a, spec_gf_inv(b))
}

/// A quotient times its divisor gives back the dividend.
pub proof fn lemma_gf_div_mul_cancel(a: u8, b: u8)
    requires
        b != 0,
    ensures
        spec_gf_mul(spec_gf_div(a, b), b) == a,
{
    lemma_gf_mul_inv(b);
    lemma_gf_mul_assoc(a, spec_gf_inv(b), b);
    lemma_gf_mul_comm(spec_gf_inv(b), b);
    lemma_gf_mul_unit_zero(a);
    lemma_gf_mul_comm(a, 1);
}

/// Multiplication by x, executable form.
pub fn gf_xtime(a: u8) -> (r: u8)
    ensures
        r == spec_gf_xtime(a),
{
    if a & 0x80 == 0x80 {
        (a << 1u8) ^ 0x1b
    } else {
        a << 1u8
    }
}

/// Multiplication in GF(2^8), executable form.
#[verifier::when_used_as_spec(spec_gf_mul)]
pub fn gf_mul(a: u8, b: u8) -> (r: u8)
    ensures
        r == spec_gf_mul(a, b),
{
    let a1 = gf_xtime(a);
    let a2 = gf_xtime(a1);
    let a3 = gf_xtime(a2);
    let a4 = gf_xtime(a3);
    let a5 = gf_xtime(a4);
    let a6 = gf_xtime(a5);
    let a7 = gf_xtime(a6);
    (if b & 0x01 != 0 { a } else { 0 }) ^ (if b & 0x02 != 0 { a1 } else { 0 }) ^ (if b & 0x04 != 0 {
        a2
    } else {
        0
    }) ^ (if b & 0x08 != 0 { a3 } else { 0 }) ^ (if b & 0x10 != 0 { a4 } else { 0 }) ^ (if b & 0x20
        != 0 {
        a5
    } else {
        0
    }) ^ (if b & 0x40 != 0 { a6 } else { 0 }) ^ (if b & 0x80 != 0 { a7 } else { 0 })
}

/// The multiplicative inverse, found by exhaustive search.
#[verifier::when_used_as_spec(spec_gf_inv)]
pub fn gf_inv(a: u8) -> (r: u8)
    requires
        a != 0,
    ensures
        r == spec_gf_inv(a),
        spec_gf_mul(a, r) == 1,
{
    proof {
        lemma_gf_mul_inv(a);
    }
    let mut b: u16 = 0;
    while b < 256
        invariant
            b <= 256,
            a != 0,
            forall|c: u8| (c as u16) < b ==> spec_gf_mul(a, c) != 1,
        decreases 256 - b,
    {
        let c: u8 = b as u8;
        if gf_mul(a, c) == 1 {
            proof {
                lemma_gf_inv_unique(a, c);
            }
            return c;
        }
        b = b + 1;
    }
    proof {
        let w = spec_gf_inv(a);
        assert(spec_gf_mul(a, w) != 1);
        assert(false);
    }
    0
}

/// Division, executable form.
#[verifier::when_used_as_spec(spec_gf_div)]
pub fn gf_div(a: u8, b: u8) -> (r: u8)
    requires
        b != 0,
    ensures
        r == spec_gf_div(a, b),
{
    let binv = gf_inv(b);
    gf_mul(a, binv)
}

} // verus!
