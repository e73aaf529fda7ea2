//! Shamir's secret sharing over GF(2^8) with proactive refresh.
//!
//! A secret of L bytes is split into shares by choosing, for each byte, a
//! random polynomial of degree threshold - 1 whose constant term is that
//! byte, and evaluating it at the share indices 1..=n. Reconstruction is
//! Lagrange interpolation at zero. Refreshing adds evaluations of
//! zero-constant polynomials into the shares, which changes the share
//! material but not the interpolated secret.
//!
//! The module proves the central recovery theorem: interpolating at zero
//! through any set of distinct points that lie on a polynomial with at most
//! as many coefficients as there are points returns the polynomial's
//! constant term.

use vstd::prelude::*;

use crate::gf256::gf_div;
use crate::gf256::gf_mul;
use crate::gf256::lemma_gf_add_basic;
use crate::gf256::lemma_gf_div_mul_cancel;
use crate::gf256::lemma_gf_inv_mul;
use crate::gf256::lemma_gf_inv_one;
use crate::gf256::lemma_gf_mul_assoc;
use crate::gf256::lemma_gf_mul_comm;
use crate::gf256::lemma_gf_mul_nonzero;
use crate::gf256::lemma_gf_mul_shuffle4;
use crate::gf256::lemma_gf_mul_unit_zero;
use crate::gf256::spec_gf_div;
use crate::gf256::spec_gf_inv;
use crate::gf256::spec_gf_mul;
use crate::poly::lemma_poly_eval_add;
use crate::poly::lemma_poly_eval_at_zero;
use crate::poly::lemma_poly_eval_lin;
use crate::poly::lemma_poly_eval_mul;
use crate::poly::lemma_poly_eval_scale;
use crate::poly::lemma_poly_mul_len;
use crate::poly::lemma_poly_roots_zero;
use crate::poly::poly_add;
use crate::poly::poly_eval;
use crate::poly::poly_lin;
use crate::poly::poly_mul;
use crate::poly::poly_scale;
use crate::poly::Polynomial;

verus! {

/// The x coordinates of a point sequence.
pub open spec fn xs_of(points: Seq<(u8, u8)>) -> Seq<u8> {
    points.map_values(|pt: (u8, u8)| pt.0)
}

/// The y coordinates of a point sequence.
pub open spec fn ys_of(points: Seq<(u8, u8)>) -> Seq<u8> {
    points.map_values(|pt: (u8, u8)| pt.1)
}

/// The partial Lagrange weight of node `i` at `x`: the product over the
/// first `n` nodes j (j != i) of (x + xs[j]) / (xs[i] + xs[j]).
pub open spec fn lag_weight_upto(xs: Seq<u8>, i: int, x: u8, n: int) -> u8
    decreases n,
{
    if n <= 0 {
        1
    } else {
        let w = lag_weight_upto(xs, i, x, n - 1);
        if n - 1 == i {
            w
        } else {
            spec_gf_mul(w, spec_gf_div(x ^ xs[n - 1], xs[i] ^ xs[n - 1]))
        }
    }
}

/// The full Lagrange weight of node `i` at `x`.
pub open spec fn lag_weight(xs: Seq<u8>, i: int, x: u8) -> u8 {
    lag_weight_upto(xs, i, x, xs.len() as int)
}

/// The partial interpolation sum over the first `n` points.
pub open spec fn interp_upto(points: Seq<(u8, u8)>, x: u8, n: int) -> u8
    decreases n,
{
    if n <= 0 {
        0
    } else {
        interp_upto(points, x, n - 1) ^ spec_gf_mul(
            points[n - 1].1,
            lag_weight(xs_of(points), n - 1, x),
        )
    }
}

/// The Lagrange interpolation of `points` at `x`.
pub open spec fn interp_at(points: Seq<(u8, u8)>, x: u8) -> u8 {
    interp_upto(points, x, points.len() as int)
}

/// The partial Lagrange numerator polynomial of node `i`: the product over
/// the first `n` nodes j (j != i) of the linear factor (x + xs[j]).
spec fn lag_basis_upto(xs: Seq<u8>, i: int, n: int) -> Seq<u8>
    decreases n,
{
    if n <= 0 {
        seq![1u8]
    } else {
        let b = lag_basis_upto(xs, i, n - 1);
        if n - 1 == i {
            b
        } else {
            poly_mul(b, poly_lin(xs[n - 1]))
        }
    }
}

/// The partial Lagrange denominator of node `i`: the product over the first
/// `n` nodes j (j != i) of (xs[i] + xs[j]).
spec fn lag_denom_upto(xs: Seq<u8>, i: int, n: int) -> u8
    decreases n,
{
    if n <= 0 {
        1
    } else {
        let d = lag_denom_upto(xs, i, n - 1);
        if n - 1 == i {
            d
        } else {
            spec_gf_mul(d, xs[i] ^ xs[n - 1])
        }
    }
}

/// The partial Lagrange interpolation polynomial through the first `n`
/// points.
spec fn lag_poly_upto(xs: Seq<u8>, ys: Seq<u8>, n: int) -> Seq<u8>
    decreases n,
{
    if n <= 0 {
        Seq::empty()
    } else {
        poly_add(
            lag_poly_upto(xs, ys, n - 1),
            poly_scale(
                spec_gf_div(ys[n - 1], lag_denom_upto(xs, n - 1, xs.len() as int)),
                lag_basis_upto(xs, n - 1, xs.len() as int),
            ),
        )
    }
}

/// Lagrange denominators are non-zero when the nodes are distinct.
proof fn lemma_lag_denom_nonzero(xs: Seq<u8>, i: int, n: int)
    requires
        xs.no_duplicates(),
        0 <= i < xs.len(),
        n <= xs.len(),
    ensures
        lag_denom_upto(xs, i, n) != 0,
    decreases n,
{
    if n > 0 {
        lemma_lag_denom_nonzero(xs, i, n - 1);
        if n - 1 != i {
            lemma_gf_add_basic(xs[i], xs[n - 1], 0);
            lemma_gf_mul_nonzero(lag_denom_upto(xs, i, n - 1), (xs[i] ^ xs[n - 1]) as u8);
        }
    }
}

/// The numerator polynomial has one coefficient more than the number of
/// linear factors in it.
proof fn lemma_lag_basis_len(xs: Seq<u8>, i: int, n: int)
    requires
        0 <= n,
    ensures
        lag_basis_upto(xs, i, n).len() == if 0 <= i < n {
            n
        } else {
            n + 1
        },
    decreases n,
{
    if n > 0 {
        lemma_lag_basis_len(xs, i, n - 1);
        if n - 1 != i {
            lemma_poly_mul_len(lag_basis_upto(xs, i, n - 1), poly_lin(xs[n - 1]));
        }
    }
}

/// The Lagrange weight is the value of the numerator polynomial divided by
/// the denominator.
proof fn lemma_lag_weight_form(xs: Seq<u8>, i: int, x: u8, n: int)
    requires
        xs.no_duplicates(),
        0 <= i < xs.len(),
        0 <= n <= xs.len(),
    ensures
        lag_weight_upto(xs, i, x, n) == spec_gf_mul(
            poly_eval(lag_basis_upto(xs, i, n), x),
            spec_gf_inv(lag_denom_upto(xs, i, n)),
        ),
    decreases n,
{
    if n == 0 {
        assert(seq![1u8].drop_first() =~= Seq::<u8>::empty());
        assert(poly_eval(Seq::<u8>::empty(), x) == 0);
        lemma_gf_mul_unit_zero(x);
        lemma_gf_add_basic(1, 0, 0);
        assert(poly_eval(seq![1u8], x) == 1);
        lemma_gf_inv_one();
        lemma_gf_mul_unit_zero(1);
    } else {
        lemma_lag_weight_form(xs, i, x, n - 1);
        if n - 1 != i {
            let b = lag_basis_upto(xs, i, n - 1);
            let d = lag_denom_upto(xs, i, n - 1);
            let r = xs[n - 1];
            let s = (xs[i] ^ xs[n - 1]) as u8;
            lemma_lag_denom_nonzero(xs, i, n - 1);
            lemma_gf_add_basic(xs[i], xs[n - 1], 0);
            // s != 0 because the nodes are distinct
            lemma_poly_eval_mul(b, poly_lin(r), x);
            lemma_poly_eval_lin(r, x);
            lemma_gf_inv_mul(d, s);
            let nb = poly_eval(b, x);
            lemma_gf_mul_shuffle4(nb, (x ^ r) as u8, spec_gf_inv(d), spec_gf_inv(s));
        }
    }
}

/// The numerator polynomial of node `i` vanishes at every other node among
/// the first `n`.
proof fn lemma_lag_basis_zero_at(xs: Seq<u8>, i: int, m: int, n: int)
    requires
        0 <= i < xs.len(),
        0 <= m < n <= xs.len(),
        m != i,
    ensures
        poly_eval(lag_basis_upto(xs, i, n), xs[m]) == 0,
    decreases n,
{
    let b = lag_basis_upto(xs, i, n - 1);
    if n - 1 == m {
        lemma_poly_eval_mul(b, poly_lin(xs[m]), xs[m]);
        lemma_poly_eval_lin(xs[m], xs[m]);
        lemma_gf_add_basic(xs[m], xs[m], 0);
        lemma_gf_mul_unit_zero(poly_eval(b, xs[m]));
    } else if n - 1 == i {
        lemma_lag_basis_zero_at(xs, i, m, n - 1);
    } else {
        lemma_lag_basis_zero_at(xs, i, m, n - 1);
        lemma_poly_eval_mul(b, poly_lin(xs[n - 1]), xs[m]);
        lemma_poly_eval_lin(xs[n - 1], xs[m]);
        lemma_gf_mul_unit_zero(poly_eval(poly_lin(xs[n - 1]), xs[m]));
    }
}

/// At its own node, the numerator polynomial evaluates to the denominator.
proof fn lemma_lag_basis_at_own(xs: Seq<u8>, i: int, n: int)
    requires
        0 <= i < xs.len(),
        0 <= n <= xs.len(),
    ensures
        poly_eval(lag_basis_upto(xs, i, n), xs[i]) == lag_denom_upto(xs, i, n),
    decreases n,
{
    if n == 0 {
        assert(seq![1u8].drop_first() =~= Seq::<u8>::empty());
        assert(poly_eval(Seq::<u8>::empty(), xs[i]) == 0);
        lemma_gf_mul_unit_zero(xs[i]);
        lemma_gf_add_basic(1, 0, 0);
    } else {
        lemma_lag_basis_at_own(xs, i, n - 1);
        if n - 1 != i {
            let b = lag_basis_upto(xs, i, n - 1);
            lemma_poly_eval_mul(b, poly_lin(xs[n - 1]), xs[i]);
            lemma_poly_eval_lin(xs[n - 1], xs[i]);
        }
    }
}

/// The Lagrange polynomial through the first `n` points takes the value
/// ys[m] at node m < n and 0 at the remaining nodes.
proof fn lemma_lag_poly_at_node(xs: Seq<u8>, ys: Seq<u8>, m: int, n: int)
    requires
        xs.no_duplicates(),
        ys.len() == xs.len(),
        0 <= m < xs.len(),
        0 <= n <= xs.len(),
    ensures
        poly_eval(lag_poly_upto(xs, ys, n), xs[m]) == if m < n {
            ys[m]
        } else {
            0
        },
    decreases n,
{
    if n == 0 {
    } else {
        lemma_lag_poly_at_node(xs, ys, m, n - 1);
        let i = n - 1;
        let len = xs.len() as int;
        let prev = lag_poly_upto(xs, ys, n - 1);
        let c = spec_gf_div(ys[i], lag_denom_upto(xs, i, len));
        let basis = lag_basis_upto(xs, i, len);
        lemma_poly_eval_add(prev, poly_scale(c, basis), xs[m]);
        lemma_poly_eval_scale(c, basis, xs[m]);
        if m == i {
            lemma_lag_basis_at_own(xs, i, len);
            lemma_lag_denom_nonzero(xs, i, len);
            lemma_gf_div_mul_cancel(ys[i], lag_denom_upto(xs, i, len));
            lemma_gf_add_basic(ys[m], 0, 0);
        } else {
            lemma_lag_basis_zero_at(xs, i, m, len);
            lemma_gf_mul_unit_zero(c);
            lemma_gf_add_basic(poly_eval(prev, xs[m]), 0, 0);
        }
    }
}

/// The Lagrange polynomial has no more coefficients than there are nodes.
proof fn lemma_lag_poly_len(xs: Seq<u8>, ys: Seq<u8>, n: int)
    requires
        0 <= n <= xs.len(),
    ensures
        lag_poly_upto(xs, ys, n).len() <= xs.len(),
    decreases n,
{
    if n > 0 {
        lemma_lag_poly_len(xs, ys, n - 1);
        lemma_lag_basis_len(xs, n - 1, xs.len() as int);
    }
}

/// The interpolation sum is the value of the Lagrange polynomial at the
/// interpolation point.
proof fn lemma_interp_matches(points: Seq<(u8, u8)>, x: u8, n: int)
    requires
        xs_of(points).no_duplicates(),
        0 <= n <= points.len(),
    ensures
        interp_upto(points, x, n) == poly_eval(
            lag_poly_upto(xs_of(points), ys_of(points), n),
            x,
        ),
    decreases n,
{
    let xs = xs_of(points);
    let ys = ys_of(points);
    if n == 0 {
    } else {
        lemma_interp_matches(points, x, n - 1);
        let i = n - 1;
        let len = xs.len() as int;
        let prev = lag_poly_upto(xs, ys, n - 1);
        let d = lag_denom_upto(xs, i, len);
        let c = spec_gf_div(ys[i], d);
        let basis = lag_basis_upto(xs, i, len);
        lemma_poly_eval_add(prev, poly_scale(c, basis), x);
        lemma_poly_eval_scale(c, basis, x);
        lemma_lag_weight_form(xs, i, x, len);
        // y * (basis(x) * inv d) == (y * inv d) * basis(x)
        let nb = poly_eval(basis, x);
        let y = ys[i];
        lemma_gf_mul_assoc(y, spec_gf_inv(d), nb);
        lemma_gf_mul_comm(spec_gf_inv(d), nb);
        lemma_gf_mul_assoc(y, nb, spec_gf_inv(d));
        assert(points[i].1 == y);
    }
}

/// The recovery theorem: interpolating through distinct points that all lie
/// on a polynomial `p` with at most as many coefficients as there are points
/// gives back the value of `p`, at every point. At zero this is the constant
/// term, the reconstructed secret byte.
pub proof fn lemma_interp_recovers(p: Seq<u8>, points: Seq<(u8, u8)>, z: u8)
    requires
        xs_of(points).no_duplicates(),
        1 <= p.len() <= points.len(),
        forall|j: int| 0 <= j < points.len() ==> (#[trigger] points[j]).1 == poly_eval(
            p,
            points[j].0,
        ),
    ensures
        interp_at(points, z) == poly_eval(p, z),
{
    let xs = xs_of(points);
    let ys = ys_of(points);
    let n = points.len() as int;
    let lagp = lag_poly_upto(xs, ys, n);
    let diff = poly_add(lagp, p);
    assert forall|m: int| 0 <= m < xs.len() implies poly_eval(diff, #[trigger] xs[m]) == 0 by {
        lemma_poly_eval_add(lagp, p, xs[m]);
        lemma_lag_poly_at_node(xs, ys, m, n);
        assert(points[m].1 == poly_eval(p, points[m].0));
        assert(ys[m] == points[m].1 && xs[m] == points[m].0);
        lemma_gf_add_basic(ys[m], 0, 0);
    }
    lemma_lag_poly_len(xs, ys, n);
    lemma_poly_roots_zero(diff, xs, z);
    lemma_poly_eval_add(lagp, p, z);
    lemma_gf_add_basic(poly_eval(lagp, z), poly_eval(p, z), 0);
    lemma_interp_matches(points, z, n);
}

} // verus!

verus! {

/// The errors of the secret-sharing engine.
#[derive(Clone, Copy, Debug, PartialEq, Eq, Structural)]
pub enum SssError {
    /// The threshold must be at least two.
    InvalidThreshold,
    /// The number of shares must lie between the threshold and 255.
    InvalidCount,
    /// The shares map holds no share.
    EmptyShares,
    /// The share holds no byte.
    EmptyShare,
    /// The share and the refresh key have different lengths.
    LengthMismatch,
}

/// The keys of a share-entry sequence.
pub open spec fn keys_of(entries: Seq<(u8, Seq<u8>)>) -> Seq<u8> {
    entries.map_values(|e: (u8, Seq<u8>)| e.0)
}

/// Lookup of a key in a share-entry sequence: the first match from the
/// front.
pub open spec fn spec_lookup(entries: Seq<(u8, Seq<u8>)>, x: u8) -> Option<Seq<u8>>
    decreases entries.len(),
{
    if entries.len() == 0 {
        None
    } else if entries[0].0 == x {
        Some(entries[0].1)
    } else {
        spec_lookup(entries.drop_first(), x)
    }
}

/// The interpolation points contributed by position `i`: one point (x, y[i])
/// for every entry whose share reaches past `i`, in entry order.
pub open spec fn share_points_at(entries: Seq<(u8, Seq<u8>)>, i: int) -> Seq<(u8, u8)>
    decreases entries.len(),
{
    if entries.len() == 0 {
        Seq::empty()
    } else {
        let rest = share_points_at(entries.drop_last(), i);
        let e = entries.last();
        if 0 <= i < e.1.len() {
            rest.push((e.0, e.1[i]))
        } else {
            rest
        }
    }
}

/// What combining a share map returns: the length is taken from the first
/// entry, and each byte is the Lagrange interpolation at zero of the points
/// that the entries contribute at that position.
pub open spec fn combine_spec(entries: Seq<(u8, Seq<u8>)>) -> Seq<u8> {
    let len = if entries.len() == 0 {
        0nat
    } else {
        entries[0].1.len()
    };
    Seq::new(len, |i: int| interp_at(share_points_at(entries, i), 0))
}

/// With distinct keys, the points at any position have distinct x
/// coordinates, all drawn from the keys.
pub proof fn lemma_share_points_wf(entries: Seq<(u8, Seq<u8>)>, i: int)
    requires
        keys_of(entries).no_duplicates(),
    ensures
        xs_of(share_points_at(entries, i)).no_duplicates(),
        forall|v: u8| xs_of(share_points_at(entries, i)).contains(v) ==> keys_of(
            entries,
        ).contains(v),
    decreases entries.len(),
{
    if entries.len() > 0 {
        let prefix = entries.drop_last();
        assert(keys_of(prefix) =~= keys_of(entries).drop_last());
        assert forall|a: int, b: int|
            0 <= a < keys_of(prefix).len() && 0 <= b < keys_of(prefix).len() && a != b implies keys_of(
            prefix,
        )[a] != keys_of(prefix)[b] by {
            assert(keys_of(entries)[a] != keys_of(entries)[b]);
        }
        lemma_share_points_wf(prefix, i);
        let rest = share_points_at(prefix, i);
        let e = entries.last();
        assert forall|v: u8| keys_of(prefix).contains(v) implies keys_of(entries).contains(
            v,
        ) by {
            let k = choose|k: int| 0 <= k < keys_of(prefix).len() && keys_of(prefix)[k] == v;
            assert(keys_of(entries)[k] == v);
        }
        if 0 <= i < e.1.len() {
            let pts = share_points_at(entries, i);
            assert(pts == rest.push((e.0, e.1[i])));
            assert(xs_of(pts) =~= xs_of(rest).push(e.0));
            // the new x is not among the old ones
            if xs_of(rest).contains(e.0) {
                assert(keys_of(prefix).contains(e.0));
                let k = choose|k: int|
                    0 <= k < keys_of(prefix).len() && keys_of(prefix)[k] == e.0;
                assert(keys_of(entries)[k] == e.0);
                assert(keys_of(entries)[entries.len() - 1] == e.0);
                assert(false);
            }
            assert forall|a: int, b: int|
                0 <= a < xs_of(pts).len() && 0 <= b < xs_of(pts).len() && a != b implies xs_of(
                pts,
            )[a] != xs_of(pts)[b] by {
                if a < xs_of(rest).len() && b < xs_of(rest).len() {
                } else if a < xs_of(rest).len() {
                    assert(xs_of(rest).contains(xs_of(rest)[a]));
                } else if b < xs_of(rest).len() {
                    assert(xs_of(rest).contains(xs_of(rest)[b]));
                }
            }
            assert(keys_of(entries)[entries.len() - 1] == e.0);
        }
    }
}

/// A store of shares keyed by the share index, with pairwise distinct keys,
/// in insertion order.
#[derive(Debug)]
pub struct SharesMap {
    entries: Vec<(u8, Vec<u8>)>,
}

impl View for SharesMap {
    type V = Seq<(u8, Seq<u8>)>;

    closed spec fn view(&self) -> Seq<(u8, Seq<u8>)> {
        Seq::new(self.entries@.len(), |i: int| (self.entries@[i].0, self.entries@[i].1@))
    }
}

impl SharesMap {
    /// Well-formedness: the keys are pairwise distinct.
    pub open spec fn wf(&self) -> bool {
        keys_of(self@).no_duplicates()
    }

    /// An empty map.
    pub fn new() -> (r: Self)
        ensures
            r@ =~= Seq::<(u8, Seq<u8>)>::empty(),
            r.wf(),
    {
        let r = SharesMap { entries: Vec::new() };
        proof {
            assert(keys_of(r@) =~= Seq::<u8>::empty());
        }
        r
    }

    /// The number of shares held.
    pub fn len(&self) -> (r: usize)
        ensures
            r == self@.len(),
    {
        self.entries.len()
    }

    /// Whether a key is present.
    pub fn contains_key(&self, x: u8) -> (r: bool)
        ensures
            r == keys_of(self@).contains(x),
    {
        let mut k: usize = 0;
        while k < self.entries.len()
            invariant
                k <= self.entries.len(),
                self@.len() == self.entries.len(),
                forall|m: int| 0 <= m < k ==> keys_of(self@)[m] != x,
            decreases self.entries.len() - k,
        {
            if self.entries[k].0 == x {
                proof {
                    assert(keys_of(self@)[k as int] == x);
                }
                return true;
            }
            k = k + 1;
        }
        proof {
            if keys_of(self@).contains(x) {
                let m = choose|m: int| 0 <= m < keys_of(self@).len() && keys_of(self@)[m] == x;
                assert(false);
            }
        }
        false
    }

    /// Insert a share under a fresh key; an existing key leaves the map
    /// unchanged and reports failure.
    pub fn insert(&mut self, x: u8, y: Vec<u8>) -> (ok: bool)
        requires
            old(self).wf(),
        ensures
            final(self).wf(),
            ok == !keys_of(old(self)@).contains(x),
            ok ==> final(self)@ =~= old(self)@.push((x, y@)),
            !ok ==> final(self)@ == old(self)@,
    {
        if self.contains_key(x) {
            return false;
        }
        self.entries.push((x, y));
        proof {
            assert(self@ =~= old(self)@.push((x, y@)));
            assert(keys_of(self@) =~= keys_of(old(self)@).push(x));
            assert forall|a: int, b: int|
                0 <= a < keys_of(self@).len() && 0 <= b < keys_of(self@).len() && a != b implies keys_of(
                self@,
            )[a] != keys_of(self@)[b] by {
                if a < keys_of(old(self)@).len() && b < keys_of(old(self)@).len() {
                } else if a < keys_of(old(self)@).len() {
                    assert(keys_of(old(self)@).contains(keys_of(old(self)@)[a]));
                } else if b < keys_of(old(self)@).len() {
                    assert(keys_of(old(self)@).contains(keys_of(old(self)@)[b]));
                }
            }
        }
        true
    }

    /// The share stored under a key, cloned out of the map.
    pub fn get(&self, x: u8) -> (r: Option<Vec<u8>>)
        ensures
            match r {
                Some(y) => spec_lookup(self@, x) == Some(y@),
                None => spec_lookup(self@, x) is None,
            },
    {
        let mut k: usize = 0;
        proof {
            assert(self@.skip(0) =~= self@);
        }
        while k < self.entries.len()
            invariant
                k <= self.entries.len(),
                self@.len() == self.entries.len(),
                spec_lookup(self@, x) == spec_lookup(self@.skip(k as int), x),
                forall|m: int| 0 <= m < k ==> self@[m].0 != x,
            decreases self.entries.len() - k,
        {
            proof {
                assert(self@.skip(k as int)[0] == self@[k as int]);
                assert(self@.skip(k as int).drop_first() =~= self@.skip(k + 1));
            }
            if self.entries[k].0 == x {
                let y = self.entries[k].1.clone();
                return Some(y);
            }
            k = k + 1;
        }
        proof {
            assert(self@.skip(self@.len() as int) =~= Seq::<(u8, Seq<u8>)>::empty());
        }
        None
    }

    /// The keys, in insertion order.
    pub fn keys(&self) -> (r: Vec<u8>)
        ensures
            r@ == keys_of(self@),
    {
        let mut r: Vec<u8> = Vec::new();
        let mut k: usize = 0;
        while k < self.entries.len()
            invariant
                k <= self.entries.len(),
                self@.len() == self.entries.len(),
                r@.len() == k,
                forall|m: int| 0 <= m < k ==> r@[m] == keys_of(self@)[m],
            decreases self.entries.len() - k,
        {
            r.push(self.entries[k].0);
            k = k + 1;
        }
        proof {
            assert(r@ =~= keys_of(self@));
        }
        r
    }
}

} // verus!

verus! {

/// The views of a sequence of polynomials.
pub open spec fn poly_views(polys: Seq<Polynomial>) -> Seq<Seq<u8>> {
    polys.map_values(|p: Polynomial| p@)
}

/// A valid refresh key for shares of `len` bytes under a threshold: one
/// polynomial per byte, each of degree threshold - 1 with zero constant
/// term.
pub open spec fn is_refresh_key(polys: Seq<Seq<u8>>, threshold: int, len: int) -> bool {
    &&& polys.len() == len
    &&& forall|i: int|
        0 <= i < polys.len() ==> (#[trigger] polys[i]).len() == threshold && polys[i][0] == 0
}

/// What a split returns: one polynomial per secret byte, of degree
/// threshold - 1 with the byte as constant term, and one entry per share
/// index 1..=shares holding the evaluations.
pub open spec fn split_ok(
    entries: Seq<(u8, Seq<u8>)>,
    polys: Seq<Seq<u8>>,
    secret: Seq<u8>,
    threshold: int,
    shares: int,
) -> bool {
    &&& polys.len() == secret.len()
    &&& forall|i: int|
        0 <= i < polys.len() ==> (#[trigger] polys[i]).len() == threshold && polys[i][0]
            == secret[i]
    &&& entries.len() == shares
    &&& forall|k: int|
        0 <= k < entries.len() ==> (#[trigger] entries[k]).0 == k + 1 && entries[k].1 == Seq::new(
            secret.len(),
            |i: int| poly_eval(polys[i], (k + 1) as u8),
        )
}

/// There is a choice of polynomials that explains a split result.
pub open spec fn split_exists(
    entries: Seq<(u8, Seq<u8>)>,
    secret: Seq<u8>,
    threshold: int,
    shares: int,
) -> bool {
    exists|polys: Seq<Seq<u8>>| split_ok(entries, polys, secret, threshold, shares)
}

/// A share after a refresh key has been applied: positions covered by the
/// key are shifted by the key polynomial's value at the share index, the
/// rest stay.
pub open spec fn refreshed_entry(y: Seq<u8>, polys: Seq<Seq<u8>>, x: u8) -> Seq<u8> {
    Seq::new(
        y.len(),
        |j: int|
            if 0 <= j < polys.len() {
                y[j] ^ poly_eval(polys[j], x)
            } else {
                y[j]
            },
    )
}

/// A share map after a refresh key has been applied to every entry.
pub open spec fn refreshed_map(
    new_entries: Seq<(u8, Seq<u8>)>,
    old_entries: Seq<(u8, Seq<u8>)>,
    rk: Seq<Seq<u8>>,
) -> bool {
    &&& new_entries.len() == old_entries.len()
    &&& forall|k: int|
        0 <= k < new_entries.len() ==> (#[trigger] new_entries[k]).0 == old_entries[k].0
            && new_entries[k].1 == refreshed_entry(old_entries[k].1, rk, old_entries[k].0)
}

/// Lagrange interpolation of a point list at `x`, as the share combiner
/// uses it: for each point, the weight is the product of
/// (x + b_x) / (a_x + b_x) over all other points, and the result is the sum
/// of y times weight.
fn interpolate(points: &Vec<(u8, u8)>, x: u8) -> (r: u8)
    requires
        xs_of(points@).no_duplicates(),
    ensures
        r == interp_at(points@, x),
{
    let ghost xs = xs_of(points@);
    let mut value: u8 = 0;
    let mut i: usize = 0;
    while i < points.len()
        invariant
            i <= points.len(),
            xs == xs_of(points@),
            xs.no_duplicates(),
            value == interp_upto(points@, x, i as int),
        decreases points.len() - i,
    {
        let (a_x, a_y) = points[i];
        let mut weight: u8 = 1;
        let mut j: usize = 0;
        while j < points.len()
            invariant
                j <= points.len(),
                i < points.len(),
                xs == xs_of(points@),
                xs.no_duplicates(),
                a_x == points@[i as int].0,
                weight == lag_weight_upto(xs, i as int, x, j as int),
            decreases points.len() - j,
        {
            if i != j {
                let (b_x, _) = points[j];
                proof {
                    assert(xs[i as int] == points@[i as int].0);
                    assert(xs[j as int] == points@[j as int].0);
                    lemma_gf_add_basic(a_x, b_x, 0);
                }
                let top = x ^ b_x;
                let bottom = a_x ^ b_x;
                let factor = gf_div(top, bottom);
                weight = gf_mul(weight, factor);
            }
            j = j + 1;
        }
        proof {
            assert(weight == lag_weight(xs, i as int, x));
            lemma_gf_mul_comm(weight, a_y);
        }
        value = value ^ gf_mul(weight, a_y);
        i = i + 1;
    }
    value
}

/// Combine shares by Lagrange interpolation at zero, one byte position at a
/// time. The secret length is taken from the first share; positions past the
/// end of a shorter share simply contribute no point. The caller is not told
/// whether enough shares were supplied: with fewer than the original
/// threshold the result is well-defined garbage.
pub fn combine_shares(shares_map: &SharesMap) -> (r: Option<Vec<u8>>)
    requires
        shares_map.wf(),
    ensures
        r matches Some(s) && s@ == combine_spec(shares_map@),
{
    let secret_length: usize = if shares_map.entries.len() == 0 {
        0
    } else {
        shares_map.entries[0].1.len()
    };
    let ghost view = shares_map@;
    let mut secret: Vec<u8> = Vec::new();
    let mut i: usize = 0;
    while i < secret_length
        invariant
            i <= secret_length,
            view == shares_map@,
            shares_map.wf(),
            view.len() == shares_map.entries@.len(),
            forall|m: int| 0 <= m < view.len() ==> (#[trigger] view[m]).0
                == shares_map.entries@[m].0 && view[m].1 == shares_map.entries@[m].1@,
            secret_length == if view.len() == 0 { 0int } else { view[0].1.len() as int },
            secret@.len() == i,
            forall|m: int| 0 <= m < i ==> secret@[m] == interp_at(
                share_points_at(view, m),
                0,
            ),
        decreases secret_length - i,
    {
        let mut points: Vec<(u8, u8)> = Vec::new();
        let mut k: usize = 0;
        proof {
            assert(view.take(0) =~= Seq::<(u8, Seq<u8>)>::empty());
        }
        while k < shares_map.entries.len()
            invariant
                k <= shares_map.entries.len(),
                view == shares_map@,
                view.len() == shares_map.entries@.len(),
                forall|m: int| 0 <= m < view.len() ==> (#[trigger] view[m]).0
                    == shares_map.entries@[m].0 && view[m].1 == shares_map.entries@[m].1@,
                points@ == share_points_at(view.take(k as int), i as int),
            decreases shares_map.entries.len() - k,
        {
            proof {
                assert(view.take(k + 1).drop_last() =~= view.take(k as int));
                assert(view.take(k + 1).last() == view[k as int]);
            }
            if i < shares_map.entries[k].1.len() {
                let xk = shares_map.entries[k].0;
                let yv = shares_map.entries[k].1[i];
                points.push((xk, yv));
            }
            k = k + 1;
        }
        proof {
            assert(view.take(view.len() as int) =~= view);
            lemma_share_points_wf(view, i as int);
        }
        let b = interpolate(&points, 0);
        secret.push(b);
        i = i + 1;
    }
    proof {
        assert(secret@ =~= combine_spec(view));
    }
    Some(secret)
}

/// Split a secret into shares: one random polynomial per byte with the byte
/// as constant term, evaluated at the share indices 1..=shares.
pub fn split_secret(secret: &[u8], threshold: usize, shares: usize) -> (r: Result<
    SharesMap,
    SssError,
>)
    ensures
        threshold <= 1 ==> (r matches Err(e) && e == SssError::InvalidThreshold),
        threshold > 1 && (shares < threshold || shares > 255) ==> (r matches Err(e) && e
            == SssError::InvalidCount),
        2 <= threshold <= shares <= 255 ==> (r matches Ok(m) && m.wf() && split_exists(
            m@,
            secret@,
            threshold as int,
            shares as int,
        )),
{
    if threshold <= 1 {
        return Err(SssError::InvalidThreshold);
    }
    if shares < threshold || shares > 255 {
        return Err(SssError::InvalidCount);
    }
    let mut polys: Vec<Polynomial> = Vec::new();
    let mut b: usize = 0;
    while b < secret.len()
        invariant
            b <= secret@.len(),
            2 <= threshold,
            polys@.len() == b,
            forall|m: int| 0 <= m < b ==> (#[trigger] polys@[m])@.len() == threshold
                && polys@[m]@[0] == secret@[m],
        decreases secret@.len() - b,
    {
        let p = Polynomial::new(threshold - 1, secret[b]);
        polys.push(p);
        b = b + 1;
    }
    let mut map = SharesMap::new();
    let mut k: usize = 0;
    while k < shares
        invariant
            k <= shares,
            shares <= 255,
            2 <= threshold,
            polys@.len() == secret@.len(),
            forall|m: int| 0 <= m < polys@.len() ==> (#[trigger] polys@[m])@.len() == threshold
                && polys@[m]@[0] == secret@[m],
            map.wf(),
            map@.len() == k,
            forall|m: int| 0 <= m < k ==> (#[trigger] map@[m]).0 == m + 1 && map@[m].1
                == Seq::new(secret@.len(), |i: int| poly_eval(polys@[i]@, (m + 1) as u8)),
        decreases shares - k,
    {
        let x: u8 = (k + 1) as u8;
        let mut y: Vec<u8> = Vec::new();
        let mut i: usize = 0;
        while i < polys.len()
            invariant
                i <= polys@.len(),
                y@.len() == i,
                x == k + 1,
                forall|m: int| 0 <= m < i ==> y@[m] == poly_eval(polys@[m]@, x),
            decreases polys@.len() - i,
        {
            let v = polys[i].evaluate(x);
            y.push(v);
            i = i + 1;
        }
        proof {
            assert(y@ =~= Seq::new(secret@.len(), |i: int| poly_eval(polys@[i]@, (k + 1) as u8)));
            if keys_of(map@).contains(x) {
                let m = choose|m: int| 0 <= m < keys_of(map@).len() && keys_of(map@)[m] == x;
                assert(map@[m].0 == m + 1);
                assert(false);
            }
        }
        let ok = map.insert(x, y);
        k = k + 1;
    }
    proof {
        let pviews = polys@.map_values(|p: Polynomial| p@);
        assert forall|i: int| 0 <= i < pviews.len() implies (#[trigger] pviews[i]).len()
            == threshold && pviews[i][0] == secret@[i] by {
            assert(pviews[i] == polys@[i]@);
        }
        assert forall|kk: int| 0 <= kk < map@.len() implies (#[trigger] map@[kk]).0 == kk + 1
            && map@[kk].1 == Seq::new(
            secret@.len(),
            |i: int| poly_eval(pviews[i], (kk + 1) as u8),
        ) by {
            assert(map@[kk].1 =~= Seq::new(
                secret@.len(),
                |i: int| poly_eval(pviews[i], (kk + 1) as u8),
            ));
        }
        assert(split_ok(map@, pviews, secret@, threshold as int, shares as int));
        assert(split_exists(map@, secret@, threshold as int, shares as int));
    }
    Ok(map)
}

/// Generate a refresh key: one polynomial per secret byte, of degree
/// threshold - 1 with zero constant term and random higher coefficients.
pub fn generate_refresh_key(threshold: usize, secret_length: usize) -> (r: Result<
    Vec<Polynomial>,
    SssError,
>)
    ensures
        threshold <= 1 ==> (r matches Err(e) && e == SssError::InvalidThreshold),
        threshold > 1 ==> (r matches Ok(polys) && is_refresh_key(
            poly_views(polys@),
            threshold as int,
            secret_length as int,
        )),
{
    if threshold <= 1 {
        return Err(SssError::InvalidThreshold);
    }
    let mut polynomials: Vec<Polynomial> = Vec::new();
    let mut i: usize = 0;
    while i < secret_length
        invariant
            i <= secret_length,
            2 <= threshold,
            polynomials@.len() == i,
            forall|m: int| 0 <= m < i ==> (#[trigger] polynomials@[m])@.len() == threshold
                && polynomials@[m]@[0] == 0,
        decreases secret_length - i,
    {
        let poly = Polynomial::new(threshold - 1, 0);
        polynomials.push(poly);
        i = i + 1;
    }
    proof {
        let pviews = poly_views(polynomials@);
        assert forall|m: int| 0 <= m < pviews.len() implies (#[trigger] pviews[m]).len()
            == threshold && pviews[m][0] == 0 by {
            assert(pviews[m] == polynomials@[m]@);
        }
    }
    Ok(polynomials)
}

/// Refresh one share in place: XOR in the value of the matching refresh-key
/// polynomial at the share's index, position by position.
pub fn refresh_share(x: u8, y: &mut Vec<u8>, polynomials: &Vec<Polynomial>) -> (r: Result<
    (),
    SssError,
>)
    ensures
        old(y)@.len() == 0 ==> (r matches Err(e) && e == SssError::EmptyShare
            && final(y)@ == old(y)@),
        old(y)@.len() > 0 && old(y)@.len() != polynomials@.len() ==> (r matches Err(e) && e
            == SssError::LengthMismatch && final(y)@ == old(y)@),
        old(y)@.len() > 0 && old(y)@.len() == polynomials@.len() ==> r is Ok && final(y)@
            == refreshed_entry(old(y)@, poly_views(polynomials@), x),
{
    if y.len() == 0 {
        return Err(SssError::EmptyShare);
    }
    if y.len() != polynomials.len() {
        return Err(SssError::LengthMismatch);
    }
    let mut out: Vec<u8> = Vec::new();
    let mut j: usize = 0;
    while j < y.len()
        invariant
            j <= y@.len(),
            y@ == old(y)@,
            y@.len() == polynomials@.len(),
            out@.len() == j,
            forall|m: int| 0 <= m < j ==> out@[m] == (y@[m] ^ poly_eval(polynomials@[m]@, x)),
        decreases y@.len() - j,
    {
        let v = y[j] ^ polynomials[j].evaluate(x);
        out.push(v);
        j = j + 1;
    }
    proof {
        assert(out@ =~= refreshed_entry(old(y)@, poly_views(polynomials@), x));
    }
    *y = out;
    Ok(())
}

/// Refresh every share in the map with one freshly generated refresh key,
/// applied uniformly: the same key polynomial sequence shifts every entry.
pub fn refresh_shares(shares_map: &mut SharesMap, threshold: usize) -> (r: Result<(), SssError>)
    requires
        old(shares_map).wf(),
    ensures
        final(shares_map).wf(),
        threshold <= 1 ==> (r matches Err(e) && e == SssError::InvalidThreshold
            && final(shares_map)@ == old(shares_map)@),
        threshold > 1 && old(shares_map)@.len() == 0 ==> (r matches Err(e) && e
            == SssError::EmptyShares && final(shares_map)@ == old(shares_map)@),
        threshold > 1 && old(shares_map)@.len() > 0 ==> r is Ok && exists|rk: Seq<Seq<u8>>|
            is_refresh_key(rk, threshold as int, old(shares_map)@[0].1.len() as int)
                && refreshed_map(final(shares_map)@, old(shares_map)@, rk),
{
    if threshold <= 1 {
        return Err(SssError::InvalidThreshold);
    }
    if shares_map.entries.len() == 0 {
        return Err(SssError::EmptyShares);
    }
    let secret_length = shares_map.entries[0].1.len();
    let rk = match generate_refresh_key(threshold, secret_length) {
        Ok(rk) => rk,
        Err(_) => {
            proof {
                assert(false);
            }
            return Err(SssError::InvalidThreshold);
        },
    };
    let ghost view = shares_map@;
    let mut new_entries: Vec<(u8, Vec<u8>)> = Vec::new();
    let mut k: usize = 0;
    while k < shares_map.entries.len()
        invariant
            k <= shares_map.entries@.len(),
            view == shares_map@,
            view.len() == shares_map.entries@.len(),
            forall|m: int| 0 <= m < view.len() ==> (#[trigger] view[m]).0
                == shares_map.entries@[m].0 && view[m].1 == shares_map.entries@[m].1@,
            is_refresh_key(poly_views(rk@), threshold as int, secret_length as int),
            new_entries@.len() == k,
            forall|m: int| 0 <= m < k ==> (#[trigger] new_entries@[m]).0 == view[m].0
                && new_entries@[m].1@ == refreshed_entry(view[m].1, poly_views(rk@), view[m].0),
        decreases shares_map.entries@.len() - k,
    {
        let xk = shares_map.entries[k].0;
        let ylen = shares_map.entries[k].1.len();
        let mut yk: Vec<u8> = Vec::new();
        let mut j: usize = 0;
        while j < ylen
            invariant
                j <= ylen,
                k < shares_map.entries@.len(),
                view == shares_map@,
                view.len() == shares_map.entries@.len(),
                forall|m: int| 0 <= m < view.len() ==> (#[trigger] view[m]).0
                    == shares_map.entries@[m].0 && view[m].1 == shares_map.entries@[m].1@,
                xk == view[k as int].0,
                ylen == view[k as int].1.len(),
                yk@.len() == j,
                forall|m: int| 0 <= m < j ==> yk@[m] == refreshed_entry(
                    view[k as int].1,
                    poly_views(rk@),
                    xk,
                )[m],
            decreases ylen - j,
        {
            let v = shares_map.entries[k].1[j];
            if j < rk.len() {
                let shifted = v ^ rk[j].evaluate(xk);
                yk.push(shifted);
            } else {
                yk.push(v);
            }
            j = j + 1;
        }
        proof {
            assert(yk@ =~= refreshed_entry(view[k as int].1, poly_views(rk@), xk));
        }
        new_entries.push((xk, yk));
        k = k + 1;
    }
    shares_map.entries = new_entries;
    proof {
        assert(keys_of(shares_map@) =~= keys_of(view));
        assert(refreshed_map(shares_map@, view, poly_views(rk@)));
    }
    Ok(())
}

} // verus!

verus! {

/// The share entries all lie on the given polynomials: entry k holds, at
/// position i, the value of polynomial i at the entry's index.
pub open spec fn shares_on_polys(
    entries: Seq<(u8, Seq<u8>)>,
    polys: Seq<Seq<u8>>,
    secret: Seq<u8>,
    threshold: int,
) -> bool {
    &&& polys.len() == secret.len()
    &&& forall|i: int|
        0 <= i < polys.len() ==> (#[trigger] polys[i]).len() == threshold && polys[i][0]
            == secret[i]
    &&& forall|k: int|
        0 <= k < entries.len() ==> (#[trigger] entries[k]).1 == Seq::new(
            secret.len(),
            |i: int| poly_eval(polys[i], entries[k].0),
        )
}

/// The entries after a refresh key is applied to every one of them.
pub open spec fn apply_refresh(entries: Seq<(u8, Seq<u8>)>, rk: Seq<Seq<u8>>) -> Seq<
    (u8, Seq<u8>),
> {
    Seq::new(
        entries.len(),
        |k: int| (entries[k].0, refreshed_entry(entries[k].1, rk, entries[k].0)),
    )
}

/// The split polynomials after a refresh key is added to them.
pub open spec fn refresh_polys(polys: Seq<Seq<u8>>, rk: Seq<Seq<u8>>) -> Seq<Seq<u8>> {
    Seq::new(polys.len(), |i: int| poly_add(polys[i], rk[i]))
}

/// When every entry reaches past position `i`, the points at `i` are exactly
/// one point per entry, in order.
proof fn lemma_share_points_uniform(entries: Seq<(u8, Seq<u8>)>, i: int)
    requires
        0 <= i,
        forall|k: int| 0 <= k < entries.len() ==> i < (#[trigger] entries[k]).1.len(),
    ensures
        share_points_at(entries, i).len() == entries.len(),
        forall|k: int|
            0 <= k < entries.len() ==> share_points_at(entries, i)[k] == ((#[trigger] entries[k]).0,
            entries[k].1[i]),
    decreases entries.len(),
{
    if entries.len() > 0 {
        let prefix = entries.drop_last();
        lemma_share_points_uniform(prefix, i);
        let pts = share_points_at(entries, i);
        assert(pts == share_points_at(prefix, i).push((entries.last().0, entries.last().1[i])));
        assert forall|k: int| 0 <= k < entries.len() implies pts[k] == ((
        #[trigger] entries[k]).0, entries[k].1[i]) by {
            if k < entries.len() - 1 {
                assert(prefix[k] == entries[k]);
                assert(pts[k] == share_points_at(prefix, i)[k]);
            } else {
                assert(entries[k] == entries.last());
            }
        }
    }
}

/// Round trip: share entries with pairwise distinct indices that lie on the
/// split polynomials — in particular, any subset, of size at least the
/// threshold, of what a split produced — combine back to the secret.
pub proof fn lemma_split_combine_round_trip(
    entries: Seq<(u8, Seq<u8>)>,
    polys: Seq<Seq<u8>>,
    secret: Seq<u8>,
    threshold: int,
)
    requires
        keys_of(entries).no_duplicates(),
        shares_on_polys(entries, polys, secret, threshold),
        1 <= threshold <= entries.len(),
    ensures
        combine_spec(entries) == secret,
{
    assert(entries[0].1.len() == secret.len());
    assert forall|i: int| 0 <= i < secret.len() implies interp_at(
        share_points_at(entries, i),
        0,
    ) == secret[i] by {
        assert forall|k: int| 0 <= k < entries.len() implies i < (
        #[trigger] entries[k]).1.len() by {
            assert(entries[k].1.len() == secret.len());
        }
        lemma_share_points_uniform(entries, i);
        let points = share_points_at(entries, i);
        assert(xs_of(points) =~= keys_of(entries));
        assert forall|j: int| 0 <= j < points.len() implies (#[trigger] points[j]).1 == poly_eval(
            polys[i],
            points[j].0,
        ) by {
            assert(points[j] == (entries[j].0, entries[j].1[i]));
            assert(entries[j].1[i] == poly_eval(polys[i], entries[j].0));
        }
        lemma_interp_recovers(polys[i], points, 0);
        lemma_poly_eval_at_zero(polys[i]);
    }
    assert(combine_spec(entries) =~= secret);
}

/// Refresh preserves the secret: after the same refresh key is applied to
/// every entry, the entries lie on the sums of the original polynomials and
/// the key polynomials — which have the same degree and the same constant
/// terms — and hence still combine to the secret.
pub proof fn lemma_refresh_preserves_secret(
    entries: Seq<(u8, Seq<u8>)>,
    polys: Seq<Seq<u8>>,
    rk: Seq<Seq<u8>>,
    secret: Seq<u8>,
    threshold: int,
)
    requires
        keys_of(entries).no_duplicates(),
        shares_on_polys(entries, polys, secret, threshold),
        is_refresh_key(rk, threshold, secret.len() as int),
        1 <= threshold <= entries.len(),
    ensures
        shares_on_polys(apply_refresh(entries, rk), refresh_polys(polys, rk), secret, threshold),
        keys_of(apply_refresh(entries, rk)) == keys_of(entries),
        combine_spec(apply_refresh(entries, rk)) == secret,
{
    let new_entries = apply_refresh(entries, rk);
    let polys2 = refresh_polys(polys, rk);
    assert forall|i: int| 0 <= i < polys2.len() implies (#[trigger] polys2[i]).len() == threshold
        && polys2[i][0] == secret[i] by {
        assert(polys2[i] == poly_add(polys[i], rk[i]));
        assert(polys2[i][0] == (polys[i][0] ^ rk[i][0]));
        lemma_gf_add_basic(secret[i], 0, 0);
    }
    assert forall|k: int| 0 <= k < new_entries.len() implies (#[trigger] new_entries[k]).1
        == Seq::new(secret.len(), |i: int| poly_eval(polys2[i], new_entries[k].0)) by {
        let x = entries[k].0;
        let y = entries[k].1;
        assert(y == Seq::new(secret.len(), |i: int| poly_eval(polys[i], x)));
        assert forall|j: int| 0 <= j < secret.len() implies refreshed_entry(y, rk, x)[j]
            == poly_eval(polys2[j], x) by {
            assert(refreshed_entry(y, rk, x)[j] == (y[j] ^ poly_eval(rk[j], x)));
            lemma_poly_eval_add(polys[j], rk[j], x);
            assert(polys2[j] == poly_add(polys[j], rk[j]));
        }
        assert(refreshed_entry(y, rk, x) =~= Seq::new(
            secret.len(),
            |i: int| poly_eval(polys2[i], x),
        ));
    }
    assert(keys_of(new_entries) =~= keys_of(entries));
    lemma_split_combine_round_trip(new_entries, polys2, secret, threshold);
}

/// A refresh key made of all-zero polynomials is a no-op: every refreshed
/// share equals the original.
pub proof fn lemma_zero_refresh_key_noop(y: Seq<u8>, rk: Seq<Seq<u8>>, x: u8)
    requires
        forall|i: int, j: int|
            0 <= i < rk.len() && 0 <= j < rk[i].len() ==> rk[i][j] == 0,
    ensures
        refreshed_entry(y, rk, x) == y,
{
    assert forall|j: int| 0 <= j < y.len() implies refreshed_entry(y, rk, x)[j] == y[j] by {
        if 0 <= j < rk.len() {
            crate::poly::lemma_poly_eval_zero_poly(rk[j], x);
            lemma_gf_add_basic(y[j], 0, 0);
        }
    }
    assert(refreshed_entry(y, rk, x) =~= y);
}

} // verus!
