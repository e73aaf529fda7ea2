//! Polynomials over GF(2^8).
//!
//! A polynomial is its coefficient sequence, low degree first. The module
//! gives the specification-level algebra (evaluation, addition, scaling,
//! multiplication, division by a linear factor) with the homomorphism lemmas
//! that the secret-sharing proofs rest on, and the executable [`Polynomial`]
//! type with random construction, Horner evaluation, and serialization as
//! the raw coefficient bytes.

use vstd::prelude::*;

use crate::gf256::gf_mul;
use crate::gf256::lemma_gf_add_basic;
use crate::gf256::lemma_gf_mul_assoc;
use crate::gf256::lemma_gf_mul_comm;
use crate::gf256::lemma_gf_mul_distrib;
use crate::gf256::lemma_gf_mul_unit_zero;
use crate::gf256::lemma_gf_no_zero_divisors;
use crate::gf256::spec_gf_mul;

verus! {

/// The value of the polynomial `p` at `x`: p[0] + x * (rest)(x).
pub open spec fn poly_eval(p: Seq<u8>, x: u8) -> u8
    decreases p.len(),
{
    if p.len() == 0 {
        0
    } else {
        p[0] ^ spec_gf_mul(x, poly_eval(p.drop_first(), x))
    }
}

/// The coefficient of x^i in `p`, zero beyond the end.
pub open spec fn poly_coeff(p: Seq<u8>, i: int) -> u8 {
    if 0 <= i < p.len() {
        p[i]
    } else {
        0
    }
}

/// The length of the sum of two polynomials.
pub open spec fn poly_max_len(p: Seq<u8>, q: Seq<u8>) -> nat {
    if p.len() >= q.len() {
        p.len()
    } else {
        q.len()
    }
}

/// The sum of two polynomials: coefficient-wise XOR.
pub open spec fn poly_add(p: Seq<u8>, q: Seq<u8>) -> Seq<u8> {
    Seq::new(poly_max_len(p, q), |i: int| poly_coeff(p, i) ^ poly_coeff(q, i))
}

/// A polynomial scaled by a field element.
pub open spec fn poly_scale(c: u8, p: Seq<u8>) -> Seq<u8> {
    Seq::new(p.len(), |i: int| spec_gf_mul(c, p[i]))
}

/// A polynomial multiplied by x: the coefficients slide up one place.
pub open spec fn poly_shift(p: Seq<u8>) -> Seq<u8> {
    seq![0u8] + p
}

/// The product of two polynomials.
pub open spec fn poly_mul(p: Seq<u8>, q: Seq<u8>) -> Seq<u8>
    decreases p.len(),
{
    if p.len() == 0 {
        Seq::empty()
    } else {
        poly_add(poly_scale(p[0], q), poly_shift(poly_mul(p.drop_first(), q)))
    }
}

/// The monic linear polynomial with root `r`: x + r (subtraction is XOR).
pub open spec fn poly_lin(r: u8) -> Seq<u8> {
    seq![r, 1u8]
}

/// Evaluation at zero returns the constant term.
pub proof fn lemma_poly_eval_at_zero(p: Seq<u8>)
    requires
        p.len() > 0,
    ensures
        poly_eval(p, 0) == p[0],
{
    lemma_gf_mul_unit_zero(poly_eval(p.drop_first(), 0));
    lemma_gf_add_basic(p[0], 0, 0);
}

/// Evaluating the all-zero polynomial gives zero.
pub proof fn lemma_poly_eval_zero_poly(p: Seq<u8>, x: u8)
    requires
        forall|i: int| 0 <= i < p.len() ==> p[i] == 0,
    ensures
        poly_eval(p, x) == 0,
    decreases p.len(),
{
    if p.len() > 0 {
        lemma_poly_eval_zero_poly(p.drop_first(), x);
        lemma_gf_mul_unit_zero(x);
        lemma_gf_add_basic(0, 0, 0);
    }
}

/// Evaluation is additive: (p + q)(x) == p(x) + q(x).
pub proof fn lemma_poly_eval_add(p: Seq<u8>, q: Seq<u8>, x: u8)
    ensures
        poly_eval(poly_add(p, q), x) == poly_eval(p, x) ^ poly_eval(q, x),
    decreases poly_max_len(p, q),
{
    let s = poly_add(p, q);
    if p.len() == 0 && q.len() == 0 {
        assert(s.len() == 0);
        lemma_gf_add_basic(0, 0, 0);
    } else if p.len() == 0 {
        assert(s =~= q) by {
            assert forall|i: int| 0 <= i < q.len() implies s[i] == q[i] by {
                lemma_gf_add_basic(q[i], 0, 0);
            }
        }
        lemma_gf_add_basic(poly_eval(q, x), 0, 0);
    } else if q.len() == 0 {
        assert(s =~= p) by {
            assert forall|i: int| 0 <= i < p.len() implies s[i] == p[i] by {
                lemma_gf_add_basic(p[i], 0, 0);
            }
        }
        lemma_gf_add_basic(poly_eval(p, x), 0, 0);
    } else {
        assert(s.drop_first() =~= poly_add(p.drop_first(), q.drop_first()));
        lemma_poly_eval_add(p.drop_first(), q.drop_first(), x);
        let ep = poly_eval(p.drop_first(), x);
        let eq = poly_eval(q.drop_first(), x);
        lemma_gf_mul_distrib(x, ep, eq);
        let a0 = p[0];
        let b0 = q[0];
        let mp = spec_gf_mul(x, ep);
        let mq = spec_gf_mul(x, eq);
        assert((a0 ^ b0) ^ (mp ^ mq) == (a0 ^ mp) ^ (b0 ^ mq)) by (bit_vector);
        assert(poly_eval(s, x) == (a0 ^ b0) ^ (mp ^ mq));
    }
}

/// Evaluation commutes with scaling: (c * p)(x) == c * p(x).
pub proof fn lemma_poly_eval_scale(c: u8, p: Seq<u8>, x: u8)
    ensures
        poly_eval(poly_scale(c, p), x) == spec_gf_mul(c, poly_eval(p, x)),
    decreases p.len(),
{
    if p.len() == 0 {
        lemma_gf_mul_unit_zero(c);
    } else {
        assert(poly_scale(c, p).drop_first() =~= poly_scale(c, p.drop_first()));
        lemma_poly_eval_scale(c, p.drop_first(), x);
        let e = poly_eval(p.drop_first(), x);
        // c * (p0 ^ x*e) == c*p0 ^ c*(x*e) == c*p0 ^ x*(c*e)
        lemma_gf_mul_distrib(c, p[0], spec_gf_mul(x, e));
        lemma_gf_mul_assoc(c, x, e);
        lemma_gf_mul_assoc(x, c, e);
        lemma_gf_mul_comm(c, x);
    }
}

/// Evaluation after a shift multiplies by the point: (x * p)(x) == x * p(x).
pub proof fn lemma_poly_eval_shift(p: Seq<u8>, x: u8)
    ensures
        poly_eval(poly_shift(p), x) == spec_gf_mul(x, poly_eval(p, x)),
{
    let s = poly_shift(p);
    assert(s.len() == p.len() + 1);
    assert(s[0] == 0);
    assert(s.drop_first() =~= p);
    lemma_gf_add_basic(spec_gf_mul(x, poly_eval(p, x)), 0, 0);
}

/// Evaluation is multiplicative: (p * q)(x) == p(x) * q(x).
pub proof fn lemma_poly_eval_mul(p: Seq<u8>, q: Seq<u8>, x: u8)
    ensures
        poly_eval(poly_mul(p, q), x) == spec_gf_mul(poly_eval(p, x), poly_eval(q, x)),
    decreases p.len(),
{
    let eq = poly_eval(q, x);
    if p.len() == 0 {
        lemma_gf_mul_unit_zero(eq);
    } else {
        lemma_poly_eval_mul(p.drop_first(), q, x);
        let et = poly_eval(p.drop_first(), x);
        lemma_poly_eval_add(poly_scale(p[0], q), poly_shift(poly_mul(p.drop_first(), q)), x);
        lemma_poly_eval_scale(p[0], q, x);
        lemma_poly_eval_shift(poly_mul(p.drop_first(), q), x);
        // left side is now p0*eq ^ x*(et*eq)
        // right side: (p0 ^ x*et) * eq == eq*(p0 ^ x*et) == eq*p0 ^ eq*(x*et)
        lemma_gf_mul_comm(p[0] ^ spec_gf_mul(x, et), eq);
        lemma_gf_mul_distrib(eq, p[0], spec_gf_mul(x, et));
        lemma_gf_mul_comm(eq, p[0]);
        lemma_gf_mul_comm(eq, spec_gf_mul(x, et));
        // x*(et*eq) == (x*et)*eq
        lemma_gf_mul_assoc(x, et, eq);
    }
}

/// The length of a polynomial product: deg(p*q) = deg(p) + deg(q).
pub proof fn lemma_poly_mul_len(p: Seq<u8>, q: Seq<u8>)
    requires
        q.len() > 0,
    ensures
        poly_mul(p, q).len() == if p.len() == 0 {
            0int
        } else {
            p.len() + q.len() - 1
        },
    decreases p.len(),
{
    if p.len() > 0 {
        lemma_poly_mul_len(p.drop_first(), q);
    }
}


/// The quotient of `p` by the linear factor (x + r), built from the low end:
/// p(x) == p(r) + (x + r) * quot(x).
pub open spec fn poly_div_quot(p: Seq<u8>, r: u8) -> Seq<u8>
    decreases p.len(),
{
    if p.len() <= 1 {
        Seq::empty()
    } else {
        seq![poly_eval(p.drop_first(), r)] + poly_div_quot(p.drop_first(), r)
    }
}

/// The quotient is one coefficient shorter than the dividend.
pub proof fn lemma_poly_div_quot_len(p: Seq<u8>, r: u8)
    ensures
        poly_div_quot(p, r).len() == if p.len() == 0 {
            0int
        } else {
            p.len() - 1
        },
    decreases p.len(),
{
    if p.len() > 1 {
        lemma_poly_div_quot_len(p.drop_first(), r);
    }
}

/// The division identity: p(x) == p(r) + (x + r) * quot(x), for every x.
pub proof fn lemma_poly_div(p: Seq<u8>, r: u8, x: u8)
    requires
        p.len() >= 1,
    ensures
        poly_eval(p, x) == poly_eval(p, r) ^ spec_gf_mul(
            x ^ r,
            poly_eval(poly_div_quot(p, r), x),
        ),
    decreases p.len(),
{
    if p.len() == 1 {
        lemma_gf_mul_unit_zero(x);
        lemma_gf_mul_unit_zero(r);
        lemma_gf_mul_unit_zero((x ^ r) as u8);
        lemma_gf_add_basic(p[0], 0, 0);
        assert(poly_eval(poly_div_quot(p, r), x) == 0);
        assert(poly_eval(p.drop_first(), x) == 0);
        assert(poly_eval(p.drop_first(), r) == 0);
        assert(poly_eval(p, x) == p[0] ^ spec_gf_mul(x, 0));
        assert(poly_eval(p, x) == p[0]);
        assert(poly_eval(p, r) == p[0]);
        assert(poly_eval(p, r) ^ spec_gf_mul((x ^ r) as u8, 0) == p[0]);
    } else {
        let t = p.drop_first();
        let qt = poly_div_quot(t, r);
        let q = poly_div_quot(p, r);
        assert(q.drop_first() =~= qt);
        assert(q[0] == poly_eval(t, r));
        lemma_poly_div(t, r, x);
        let tr = poly_eval(t, r);
        let e = poly_eval(qt, x);
        // left side: p0 ^ x*(tr ^ (x^r)*e) == p0 ^ (x*tr ^ x*((x^r)*e))
        lemma_gf_mul_distrib(x, tr, spec_gf_mul((x ^ r) as u8, e));
        // right side second factor: (x^r)*(tr ^ x*e) == (x^r)*tr ^ (x^r)*(x*e)
        lemma_gf_mul_distrib((x ^ r) as u8, tr, spec_gf_mul(x, e));
        // (x^r)*tr == x*tr ^ r*tr
        lemma_gf_mul_comm((x ^ r) as u8, tr);
        lemma_gf_mul_distrib(tr, x, r);
        lemma_gf_mul_comm(tr, x);
        lemma_gf_mul_comm(tr, r);
        // (x^r)*(x*e) == x*((x^r)*e)
        lemma_gf_mul_assoc((x ^ r) as u8, x, e);
        lemma_gf_mul_comm((x ^ r) as u8, x);
        lemma_gf_mul_assoc(x, (x ^ r) as u8, e);
        let u = p[0];
        let v = spec_gf_mul(x, tr);
        let w = spec_gf_mul(r, tr);
        let z = spec_gf_mul(x, spec_gf_mul((x ^ r) as u8, e));
        assert(u ^ (v ^ z) == (u ^ w) ^ ((v ^ w) ^ z)) by (bit_vector);
        assert(poly_eval(p, x) == u ^ (v ^ z));
        assert(poly_eval(p, r) == u ^ w);
        assert(spec_gf_mul((x ^ r) as u8, poly_eval(q, x)) == (v ^ w) ^ z);
        assert(poly_eval(p, x) == poly_eval(p, r) ^ spec_gf_mul((x ^ r) as u8, poly_eval(q, x)));
    }
}

/// A polynomial that vanishes on more distinct points than it has
/// coefficients vanishes everywhere.
pub proof fn lemma_poly_roots_zero(p: Seq<u8>, xs: Seq<u8>, y: u8)
    requires
        xs.no_duplicates(),
        p.len() <= xs.len(),
        forall|i: int| 0 <= i < xs.len() ==> poly_eval(p, #[trigger] xs[i]) == 0,
    ensures
        poly_eval(p, y) == 0,
    decreases p.len(),
{
    if p.len() > 0 {
        let r = xs[0];
        let q = poly_div_quot(p, r);
        lemma_poly_div_quot_len(p, r);
        let rest = xs.drop_first();
        assert(poly_eval(p, r) == 0);
        assert forall|i: int| 0 <= i < rest.len() implies poly_eval(q, #[trigger] rest[i])
            == 0 by {
            let xi = rest[i];
            assert(xi == xs[i + 1]);
            lemma_poly_div(p, r, xi);
            let m = spec_gf_mul((xi ^ r) as u8, poly_eval(q, xi));
            lemma_gf_add_basic(m, 0, 0);
            assert(m == 0);
            lemma_gf_add_basic(xi, r, 0);
            lemma_gf_no_zero_divisors((xi ^ r) as u8, poly_eval(q, xi));
        }
        lemma_poly_roots_zero(q, rest, y);
        lemma_poly_div(p, r, y);
        lemma_gf_mul_unit_zero((y ^ r) as u8);
        lemma_gf_add_basic(0, 0, 0);
    }
}

} // verus!

verus! {

/// Relies on rand::random: a uniformly random byte; nothing is assumed of
/// the value.
#[verifier::external_body]
fn random_byte() -> u8 {
    rand::random::<u8>()
}

/// A polynomial over GF(2^8), kept as its coefficients, low degree first.
///
/// Invariant of every constructed value: the coefficient sequence is
/// non-empty (length = degree + 1).
#[derive(Debug, PartialEq, Eq)]
pub struct Polynomial {
    /// The coefficients, where the byte at index i multiplies x^i.
    pub coefficients: Vec<u8>,
}

impl View for Polynomial {
    type V = Seq<u8>;

    open spec fn view(&self) -> Seq<u8> {
        self.coefficients@
    }
}

impl Clone for Polynomial {
    /// Cloning keeps the coefficients.
    fn clone(&self) -> (r: Self)
        ensures
            r@ == self@,
    {
        Polynomial { coefficients: self.coefficients.clone() }
    }
}

impl Polynomial {
    /// A polynomial of the given degree whose constant term is `secret` and
    /// whose remaining coefficients are fresh random bytes.
    pub fn new(degree: usize, secret: u8) -> (r: Self)
        requires
            degree < usize::MAX,
        ensures
            r@.len() == degree + 1,
            r@[0] == secret,
    {
        let mut coefficients: Vec<u8> = Vec::new();
        coefficients.push(secret);
        let mut k: usize = 0;
        while k < degree
            invariant
                k <= degree,
                coefficients@.len() == k + 1,
                coefficients@[0] == secret,
            decreases degree - k,
        {
            coefficients.push(random_byte());
            k = k + 1;
        }
        Polynomial { coefficients }
    }

    /// Horner-style evaluation at `x`, accumulating coefficient times the
    /// running power of `x`.
    pub fn evaluate(&self, x: u8) -> (r: u8)
        ensures
            r == poly_eval(self@, x),
    {
        let mut result: u8 = 0;
        let mut term: u8 = 1;
        let mut i: usize = 0;
        proof {
            lemma_gf_mul_unit_zero(poly_eval(self@, x));
            lemma_gf_add_basic(poly_eval(self@, x), 0, 0);
            assert(self@.skip(0) =~= self@);
        }
        while i < self.coefficients.len()
            invariant
                i <= self.coefficients.len(),
                self@.len() == self.coefficients.len(),
                poly_eval(self@, x) == result ^ spec_gf_mul(term, poly_eval(self@.skip(i as int), x)),
            decreases self.coefficients.len() - i,
        {
            let c = self.coefficients[i];
            proof {
                let tail = self@.skip(i as int);
                assert(tail[0] == self@[i as int]);
                assert(tail.drop_first() =~= self@.skip(i + 1));
                let e = poly_eval(self@.skip(i + 1), x);
                // term * (c ^ x*e) == term*c ^ (term*x)*e
                lemma_gf_mul_distrib(term, c, spec_gf_mul(x, e));
                lemma_gf_mul_assoc(term, x, e);
                lemma_gf_mul_comm(c, term);
                let res0 = result;
                let tc = spec_gf_mul(term, c);
                let te = spec_gf_mul(spec_gf_mul(term, x), e);
                assert(res0 ^ (tc ^ te) == (res0 ^ tc) ^ te) by (bit_vector);
            }
            result = result ^ gf_mul(c, term);
            term = gf_mul(term, x);
            i = i + 1;
        }
        proof {
            assert(self@.skip(self@.len() as int) =~= Seq::<u8>::empty());
            lemma_gf_mul_unit_zero(term);
            lemma_gf_add_basic(result, 0, 0);
        }
        result
    }

    /// Serialization: exactly the coefficient bytes, low index first.
    pub fn to_bytes(&self) -> (r: Vec<u8>)
        ensures
            r@ == self@,
    {
        vstd::slice::slice_to_vec(self.coefficients.as_slice())
    }

    /// Deserialization: the bytes become the coefficients, low index first.
    pub fn from_bytes(bytes: &[u8]) -> (r: Self)
        ensures
            r@ == bytes@,
    {
        Polynomial { coefficients: vstd::slice::slice_to_vec(bytes) }
    }
}

/// The round-trip law for polynomial serialization: writing a polynomial as
/// bytes and reading the bytes back yields the same polynomial. Since
/// [`Polynomial::to_bytes`] returns exactly the coefficient view and
/// [`Polynomial::from_bytes`] reconstructs a polynomial with that view, the
/// law is the statement that views pin polynomials down.
pub proof fn lemma_polynomial_round_trip(p: Polynomial, bytes: Seq<u8>, q: Polynomial)
    requires
        bytes == p@,
        q@ == bytes,
    ensures
        q@ == p@,
{
}

} // verus!

verus! {

/// The value of the linear factor (x + r) at x.
pub proof fn lemma_poly_eval_lin(r: u8, x: u8)
    ensures
        poly_eval(poly_lin(r), x) == (x ^ r),
{
    let lin = poly_lin(r);
    assert(lin.drop_first() =~= seq![1u8]);
    assert(seq![1u8].drop_first() =~= Seq::<u8>::empty());
    assert(poly_eval(Seq::<u8>::empty(), x) == 0);
    lemma_gf_mul_unit_zero(x);
    lemma_gf_add_basic(1, 0, 0);
    assert(poly_eval(seq![1u8], x) == 1);
    lemma_gf_add_basic(r, x, 0);
}

} // verus!
