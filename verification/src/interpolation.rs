//! Lagrange interpolation at zero gives back the constant term: the theorem
//! behind the recovery of a split key and the assembly of a threshold
//! signature.

use vstd::prelude::*;
use vstd::arithmetic::div_mod::{lemma_add_mod_noop, lemma_mod_twice, lemma_mul_mod_noop_general,
    lemma_small_mod, lemma_sub_mod_noop};
use crate::field::{field_add, field_inv, field_mul, field_sub, invertible, is_canonical,
    is_inverse, modulus};
use crate::utils::{lagrange_coeff, poly_value, weighted_sum};

verus! {

/// Congruence modulo the group order.
#[verifier::opaque]
pub open spec fn eqm(a: int, b: int) -> bool {
    a % modulus() == b % modulus()
}

/// Every number is congruent to itself.
pub proof fn lemma_eqm_refl(a: int)
    ensures
        eqm(a, a),
{
    reveal(eqm);
}

/// Congruence is symmetric.
pub proof fn lemma_eqm_sym(a: int, b: int)
    requires
        eqm(a, b),
    ensures
        eqm(b, a),
{
    reveal(eqm);
}

/// Congruence is transitive.
pub proof fn lemma_eqm_trans(a: int, b: int, c: int)
    requires
        eqm(a, b),
        eqm(b, c),
    ensures
        eqm(a, c),
{
    reveal(eqm);
}

/// A number is congruent to its remainder.
pub proof fn lemma_eqm_reduce(a: int)
    ensures
        eqm(a % modulus(), a),
        is_canonical(a % modulus()),
{
    reveal(eqm);
    lemma_mod_twice(a, modulus());
}

/// Congruent canonical numbers are equal.
pub proof fn lemma_eqm_canonical(a: int, b: int)
    requires
        eqm(a, b),
        is_canonical(a),
        is_canonical(b),
    ensures
        a == b,
{
    reveal(eqm);
    lemma_small_mod(a as nat, modulus() as nat);
    lemma_small_mod(b as nat, modulus() as nat);
}

/// Sums of congruent numbers are congruent.
pub proof fn lemma_eqm_add(a: int, b: int, c: int, d: int)
    requires
        eqm(a, b),
        eqm(c, d),
    ensures
        eqm(a + c, b + d),
{
    reveal(eqm);
    lemma_add_mod_noop(a, c, modulus());
    lemma_add_mod_noop(b, d, modulus());
}

/// Differences of congruent numbers are congruent.
pub proof fn lemma_eqm_sub(a: int, b: int, c: int, d: int)
    requires
        eqm(a, b),
        eqm(c, d),
    ensures
        eqm(a - c, b - d),
{
    reveal(eqm);
    lemma_sub_mod_noop(a, c, modulus());
    lemma_sub_mod_noop(b, d, modulus());
}

/// Products of congruent numbers are congruent.
pub proof fn lemma_eqm_mul(a: int, b: int, c: int, d: int)
    requires
        eqm(a, b),
        eqm(c, d),
    ensures
        eqm(a * c, b * d),
{
    reveal(eqm);
    lemma_mul_mod_noop_general(a, c, modulus());
    lemma_mul_mod_noop_general(b, d, modulus());
}

/// Multiples of congruent numbers are congruent.
pub proof fn lemma_eqm_scale(k: int, a: int, b: int)
    requires
        eqm(a, b),
    ensures
        eqm(k * a, k * b),
{
    lemma_eqm_refl(k);
    lemma_eqm_mul(k, k, a, b);
}

/// A sum in the field is congruent to the sum.
pub proof fn lemma_field_add(a: int, b: int)
    ensures
        eqm(field_add(a, b), a + b),
        is_canonical(field_add(a, b)),
{
    lemma_eqm_reduce(a + b);
}

/// A difference in the field is congruent to the difference.
pub proof fn lemma_field_sub(a: int, b: int)
    ensures
        eqm(field_sub(a, b), a - b),
        is_canonical(field_sub(a, b)),
{
    lemma_eqm_reduce(a - b);
}

/// A product in the field is congruent to the product.
pub proof fn lemma_field_mul(a: int, b: int)
    ensures
        eqm(field_mul(a, b), a * b),
        is_canonical(field_mul(a, b)),
{
    lemma_eqm_reduce(a * b);
}

/// An inverse in the field multiplies to a number congruent to one.
pub proof fn lemma_inverse_eqm(a: int, b: int)
    requires
        is_inverse(a, b),
    ensures
        eqm(a * b, 1),
{
    reveal(eqm);
    lemma_small_mod(1, modulus() as nat);
}

/// One more term of a weighted sum.
pub proof fn lemma_sum_step(s0: int, l: int, v: int)
    ensures
        eqm(field_add(s0, field_mul(l, v)), s0 + l * v),
        is_canonical(field_add(s0, field_mul(l, v))),
{
    lemma_field_add(s0, field_mul(l, v));
    lemma_field_mul(l, v);
    lemma_eqm_refl(s0);
    lemma_eqm_add(s0, s0, field_mul(l, v), l * v);
    lemma_eqm_trans(field_add(s0, field_mul(l, v)), s0 + field_mul(l, v), s0 + l * v);
}

/// The value of a polynomial over the integers, without reduction.
pub open spec fn poly_int(coeffs: Seq<int>, t: int) -> int
    decreases coeffs.len(),
{
    if coeffs.len() == 0 {
        0
    } else {
        coeffs[0] + t * poly_int(coeffs.skip(1), t)
    }
}

/// The value in the field is the value over the integers, reduced.
pub proof fn lemma_poly_value_int(coeffs: Seq<int>, t: int)
    ensures
        eqm(poly_value(coeffs, t), poly_int(coeffs, t)),
        is_canonical(poly_value(coeffs, t)),
    decreases coeffs.len(),
{
    if coeffs.len() > 0 {
        let rest = coeffs.skip(1);
        let c0 = coeffs[0];
        lemma_poly_value_int(rest, t);
        lemma_eqm_scale(t, poly_value(rest, t), poly_int(rest, t));
        lemma_eqm_refl(c0);
        lemma_eqm_add(c0, c0, t * poly_value(rest, t), t * poly_int(rest, t));
        lemma_eqm_reduce(c0 + t * poly_value(rest, t));
        lemma_eqm_trans(
            poly_value(coeffs, t),
            c0 + t * poly_value(rest, t),
            c0 + t * poly_int(rest, t),
        );
    } else {
        lemma_eqm_refl(0);
    }
}

/// The quotient of a polynomial by `X - a`.
pub open spec fn quotient(coeffs: Seq<int>, a: int) -> Seq<int>
    decreases coeffs.len(),
{
    if coeffs.len() <= 1 {
        Seq::empty()
    } else {
        seq![poly_int(coeffs.skip(1), a)] + quotient(coeffs.skip(1), a)
    }
}

/// Division by `X - a` leaves the value at `a` as the remainder.
pub proof fn lemma_quotient(coeffs: Seq<int>, a: int, t: int)
    ensures
        poly_int(coeffs, t) == poly_int(coeffs, a) + (t - a) * poly_int(quotient(coeffs, a), t),
        coeffs.len() >= 1 ==> quotient(coeffs, a).len() == coeffs.len() - 1,
        coeffs.len() == 0 ==> quotient(coeffs, a).len() == 0,
    decreases coeffs.len(),
{
    if coeffs.len() == 0 {
        assert(poly_int(quotient(coeffs, a), t) == 0);
        assert((t - a) * 0 == 0);
    } else if coeffs.len() == 1 {
        assert(coeffs.skip(1).len() == 0);
        assert(poly_int(coeffs.skip(1), t) == 0);
        assert(poly_int(coeffs.skip(1), a) == 0);
        assert(poly_int(quotient(coeffs, a), t) == 0);
        assert((t - a) * 0 == 0);
        assert(t * 0 == 0);
        assert(a * 0 == 0);
    } else {
        let rest = coeffs.skip(1);
        let q = quotient(coeffs, a);
        let q1 = quotient(rest, a);
        lemma_quotient(rest, a, t);
        assert(q.skip(1) =~= q1);
        assert(q[0] == poly_int(rest, a));
        let pa = poly_int(rest, a);
        let pt = poly_int(rest, t);
        let qt = poly_int(q1, t);
        assert(poly_int(q, t) == pa + t * qt);
        assert(poly_int(coeffs, t) == coeffs[0] + t * pt);
        assert(poly_int(coeffs, a) == coeffs[0] + a * pa);
        let c0 = coeffs[0];
        assert(c0 + t * pt == c0 + a * pa + (t - a) * (pa + t * qt)) by (nonlinear_arith)
            requires
                pt == pa + (t - a) * qt,
        ;
    }
}

/// The sequence `s` with `v` added to its first entry.
pub open spec fn add_head(s: Seq<int>, v: int) -> Seq<int> {
    if s.len() == 0 {
        seq![v]
    } else {
        s.update(0, s[0] + v)
    }
}

/// Adding to the first coefficient adds to every value.
pub proof fn lemma_add_head(s: Seq<int>, v: int, t: int)
    ensures
        poly_int(add_head(s, v), t) == poly_int(s, t) + v,
{
    let r = add_head(s, v);
    if s.len() == 0 {
        assert(r.skip(1).len() == 0);
        assert(poly_int(r.skip(1), t) == 0);
        assert(poly_int(s, t) == 0);
        assert(t * 0 == 0);
    } else {
        assert(r.skip(1) =~= s.skip(1));
        assert(r[0] == s[0] + v);
    }
}

/// The product of a polynomial with `r - X`.
pub open spec fn mul_linear(coeffs: Seq<int>, r: int) -> Seq<int>
    decreases coeffs.len(),
{
    if coeffs.len() == 0 {
        Seq::empty()
    } else {
        seq![r * coeffs[0]] + add_head(mul_linear(coeffs.skip(1), r), -coeffs[0])
    }
}

/// The values of the product with `r - X`.
pub proof fn lemma_mul_linear(coeffs: Seq<int>, r: int, t: int)
    ensures
        poly_int(mul_linear(coeffs, r), t) == (r - t) * poly_int(coeffs, t),
        coeffs.len() >= 1 ==> mul_linear(coeffs, r).len() == coeffs.len() + 1,
        coeffs.len() == 0 ==> mul_linear(coeffs, r).len() == 0,
    decreases coeffs.len(),
{
    if coeffs.len() == 0 {
        assert((r - t) * 0 == 0);
    } else {
        let rest = coeffs.skip(1);
        let inner = mul_linear(rest, r);
        let tail = add_head(inner, -coeffs[0]);
        let whole = mul_linear(coeffs, r);
        lemma_mul_linear(rest, r, t);
        lemma_add_head(inner, -coeffs[0], t);
        assert(whole.skip(1) =~= tail);
        assert(whole[0] == r * coeffs[0]);
        let c0 = coeffs[0];
        let pt = poly_int(rest, t);
        assert(poly_int(whole, t) == r * c0 + t * ((r - t) * pt + (-c0)));
        assert(r * c0 + t * ((r - t) * pt + (-c0)) == (r - t) * (c0 + t * pt)) by (nonlinear_arith);
    }
}

/// The product of `xs[j] - t` over the first `n` entries of `xs`.
pub open spec fn prod_diff(xs: Seq<int>, n: nat, t: int) -> int
    decreases n,
{
    if n == 0 {
        1
    } else {
        prod_diff(xs, (n - 1) as nat, t) * (xs[n - 1] - t)
    }
}

/// The polynomial that is the product of `xs[j] - X` over the first `n`
/// entries of `xs`.
pub open spec fn vanishing(xs: Seq<int>, n: nat) -> Seq<int>
    decreases n,
{
    if n == 0 {
        seq![1int]
    } else {
        mul_linear(vanishing(xs, (n - 1) as nat), xs[n - 1])
    }
}

/// The values of the product polynomial.
pub proof fn lemma_vanishing(xs: Seq<int>, n: nat, t: int)
    ensures
        poly_int(vanishing(xs, n), t) == prod_diff(xs, n, t),
        vanishing(xs, n).len() == n + 1,
    decreases n,
{
    if n == 0 {
        let one = seq![1int];
        assert(one.skip(1).len() == 0);
        assert(poly_int(one.skip(1), t) == 0);
        assert(poly_int(one, t) == one[0] + t * poly_int(one.skip(1), t));
        assert(t * 0 == 0);
    } else {
        let before = vanishing(xs, (n - 1) as nat);
        lemma_vanishing(xs, (n - 1) as nat, t);
        lemma_mul_linear(before, xs[n - 1], t);
        assert((xs[n - 1] - t) * prod_diff(xs, (n - 1) as nat, t) == prod_diff(
            xs,
            (n - 1) as nat,
            t,
        ) * (xs[n - 1] - t)) by (nonlinear_arith);
    }
}

/// The product vanishes at each of the entries that it is over.
pub proof fn lemma_prod_diff_zero(xs: Seq<int>, n: nat, k: int)
    requires
        0 <= k < n,
    ensures
        prod_diff(xs, n, xs[k]) == 0,
    decreases n,
{
    let t = xs[k];
    let before = prod_diff(xs, (n - 1) as nat, t);
    if k == n - 1 {
        assert(before * (xs[n - 1] - t) == 0) by (nonlinear_arith)
            requires
                xs[n - 1] - t == 0,
        ;
    } else {
        lemma_prod_diff_zero(xs, (n - 1) as nat, k);
        assert(before * (xs[n - 1] - t) == 0) by (nonlinear_arith)
            requires
                before == 0,
        ;
    }
}

/// Whether the indices are pairwise different, with differences that have
/// inverses in the field. The group order is prime, so every difference of
/// two different canonical indices has one.
pub open spec fn independent(indices: Seq<int>) -> bool {
    forall|j: int, k: int|
        #![trigger indices[j], indices[k]]
        0 <= j < indices.len() && 0 <= k < indices.len() && j != k ==> indices[j] != indices[k]
            && invertible(field_sub(indices[j], indices[k]))
}

/// The values of a polynomial at the indices.
pub open spec fn evals(coeffs: Seq<int>, indices: Seq<int>) -> Seq<int> {
    Seq::new(indices.len(), |k: int| poly_value(coeffs, indices[k]))
}

/// The sequence of `n` ones.
pub open spec fn ones(n: nat) -> Seq<int> {
    Seq::new(n, |k: int| 1int)
}

/// Whether `w` is an inverse of `x` modulo the group order.
pub open spec fn inverts(x: int, w: int) -> bool {
    eqm(x * w, 1)
}

/// Whether `x` has an inverse modulo the group order.
pub open spec fn unit(x: int) -> bool {
    exists|w: int| inverts(x, w)
}

/// A number that a unit multiplies to zero is zero.
pub proof fn lemma_cancel(u: int, z: int)
    requires
        unit(u),
        eqm(u * z, 0),
    ensures
        eqm(z, 0),
{
    let w = choose|w: int| inverts(u, w);
    lemma_eqm_refl(z);
    lemma_eqm_mul(u * w, 1, z, z);
    lemma_eqm_scale(w, u * z, 0);
    assert((u * w) * z == w * (u * z)) by (nonlinear_arith);
    assert(1 * z == z);
    assert(w * 0 == 0);
    lemma_eqm_sym((u * w) * z, z);
    lemma_eqm_trans(z, w * (u * z), 0);
}

/// Without its last index, an independent sequence is independent.
proof fn lemma_independent_prefix(xs: Seq<int>)
    requires
        independent(xs),
        xs.len() >= 1,
    ensures
        independent(xs.drop_last()),
{
    let xs1 = xs.drop_last();
    assert forall|j: int, k: int|
        #![trigger xs1[j], xs1[k]]
        0 <= j < xs1.len() && 0 <= k < xs1.len() && j != k implies xs1[j] != xs1[k] && invertible(
        field_sub(xs1[j], xs1[k]),
    ) by {
        assert(xs1[j] == xs[j] && xs1[k] == xs[k]);
    }
}

/// The inverse of the difference of two independent indices.
proof fn lemma_gap_inverse(xs: Seq<int>, j: int, k: int)
    requires
        independent(xs),
        0 <= j < xs.len(),
        0 <= k < xs.len(),
        j != k,
    ensures
        xs[j] != xs[k],
        eqm((xs[j] - xs[k]) * field_inv(field_sub(xs[j], xs[k])), 1),
{
    let d = field_sub(xs[j], xs[k]);
    let u = field_inv(d);
    assert(xs[j] != xs[k] && invertible(d));
    assert(is_inverse(d, u));
    lemma_inverse_eqm(d, u);
    lemma_field_sub(xs[j], xs[k]);
    lemma_eqm_refl(u);
    lemma_eqm_mul(d, xs[j] - xs[k], u, u);
    lemma_eqm_sym(d * u, (xs[j] - xs[k]) * u);
    lemma_eqm_trans((xs[j] - xs[k]) * u, d * u, 1);
}

/// One more factor of a Lagrange coefficient.
proof fn lemma_eqm_factor(l: int, lp: int, x: int, u: int)
    requires
        l == field_mul(lp, field_mul(x, u)),
    ensures
        eqm(l, lp * (x * u)),
{
    lemma_field_mul(lp, field_mul(x, u));
    lemma_field_mul(x, u);
    lemma_eqm_scale(lp, field_mul(x, u), x * u);
    lemma_eqm_trans(l, lp * field_mul(x, u), lp * (x * u));
}

/// A term of the weighted sum of a polynomial's values, through the
/// division of the polynomial by `X - a`.
proof fn lemma_term(l: int, lp: int, a: int, xk: int, u: int, pk: int, pa: int, qk: int)
    requires
        eqm(l, lp * (a * u)),
        eqm((a - xk) * u, 1),
        eqm(pk, pa + (xk - a) * qk),
    ensures
        eqm(l * pk, pa * l - a * (lp * qk)),
{
    let big = lp * (a * u);
    let y = a * (lp * qk);
    lemma_eqm_mul(l, big, pk, pa + (xk - a) * qk);
    assert(big * (pa + (xk - a) * qk) == pa * big - y * ((a - xk) * u)) by (nonlinear_arith)
        requires
            big == lp * (a * u),
            y == a * (lp * qk),
    ;
    lemma_eqm_scale(y, (a - xk) * u, 1);
    assert(y * 1 == y);
    lemma_eqm_sym(l, big);
    lemma_eqm_scale(pa, big, l);
    lemma_eqm_sub(pa * big, pa * l, y * ((a - xk) * u), y);
    lemma_eqm_trans(l * pk, pa * big - y * ((a - xk) * u), pa * l - y);
}

/// A step of the three sums that the division relates.
proof fn lemma_combine(
    s: int,
    s0: int,
    t: int,
    pa: int,
    a: int,
    w: int,
    w0: int,
    l: int,
    z: int,
    z0: int,
    y: int,
)
    requires
        eqm(s, s0 + t),
        eqm(s0, pa * w0 - a * z0),
        eqm(t, pa * l - a * y),
        eqm(w, w0 + l),
        eqm(z, z0 + y),
    ensures
        eqm(s, pa * w - a * z),
{
    lemma_eqm_add(s0, pa * w0 - a * z0, t, pa * l - a * y);
    assert(pa * w0 - a * z0 + (pa * l - a * y) == pa * (w0 + l) - a * (z0 + y))
        by (nonlinear_arith);
    lemma_eqm_sym(w, w0 + l);
    lemma_eqm_sym(z, z0 + y);
    lemma_eqm_scale(pa, w0 + l, w);
    lemma_eqm_scale(a, z0 + y, z);
    lemma_eqm_sub(pa * (w0 + l), pa * w, a * (z0 + y), a * z);
    lemma_eqm_trans(s, s0 + t, pa * (w0 + l) - a * (z0 + y));
    lemma_eqm_trans(s, pa * (w0 + l) - a * (z0 + y), pa * w - a * z);
}

/// The value of a polynomial at an index, through the division of the
/// polynomial by `X - a`.
proof fn lemma_eval_divided(c: Seq<int>, a: int, x: int)
    ensures
        eqm(poly_value(c, x), poly_int(c, a) + (x - a) * poly_value(quotient(c, a), x)),
{
    let q = quotient(c, a);
    let pa = poly_int(c, a);
    lemma_poly_value_int(c, x);
    lemma_poly_value_int(q, x);
    lemma_quotient(c, a, x);
    lemma_eqm_scale(x - a, poly_value(q, x), poly_int(q, x));
    lemma_eqm_refl(pa);
    lemma_eqm_add(pa, pa, (x - a) * poly_value(q, x), (x - a) * poly_int(q, x));
    lemma_eqm_sym(pa + (x - a) * poly_value(q, x), pa + (x - a) * poly_int(q, x));
    lemma_eqm_trans(poly_value(c, x), poly_int(c, x), pa + (x - a) * poly_value(q, x));
}

/// The weighted sum of a polynomial's values over all but the last index
/// `a`, through the division of the polynomial by `X - a`.
proof fn lemma_partial(xs: Seq<int>, c: Seq<int>, n: nat)
    requires
        independent(xs),
        xs.len() >= 1,
        n <= xs.len() - 1,
    ensures
        eqm(
            weighted_sum(xs, evals(c, xs), n),
            poly_int(c, xs.last()) * weighted_sum(xs, ones(xs.len()), n) - xs.last() * weighted_sum(
                xs.drop_last(),
                evals(quotient(c, xs.last()), xs.drop_last()),
                n,
            ),
        ),
    decreases n,
{
    let a = xs.last();
    let xs1 = xs.drop_last();
    let q = quotient(c, a);
    let pa = poly_int(c, a);
    if n == 0 {
        assert(pa * 0 == 0);
        assert(a * 0 == 0);
        lemma_eqm_refl(0);
    } else {
        let k = n - 1;
        let m = xs.len() - 1;
        lemma_partial(xs, c, k as nat);
        let xk = xs[k];
        assert(xs1[k] == xk);
        let l = lagrange_coeff(xk, xs);
        let lp = lagrange_coeff(xk, xs1);
        let u = field_inv(field_sub(a, xk));
        lemma_gap_inverse(xs, m, k);
        assert(l == field_mul(lp, field_mul(a, u)));
        lemma_eqm_factor(l, lp, a, u);
        let pk = poly_value(c, xk);
        let qk = poly_value(q, xk);
        lemma_eval_divided(c, a, xk);
        lemma_term(l, lp, a, xk, u, pk, pa, qk);
        let s = weighted_sum(xs, evals(c, xs), n);
        let s0 = weighted_sum(xs, evals(c, xs), k as nat);
        let w = weighted_sum(xs, ones(xs.len()), n);
        let w0 = weighted_sum(xs, ones(xs.len()), k as nat);
        let z = weighted_sum(xs1, evals(q, xs1), n);
        let z0 = weighted_sum(xs1, evals(q, xs1), k as nat);
        assert(evals(c, xs)[k] == pk);
        assert(ones(xs.len())[k] == 1);
        assert(evals(q, xs1)[k] == qk);
        assert(s == field_add(s0, field_mul(l, pk)));
        assert(w == field_add(w0, field_mul(l, 1)));
        assert(z == field_add(z0, field_mul(lp, qk)));
        lemma_sum_step(s0, l, pk);
        lemma_sum_step(w0, l, 1);
        lemma_sum_step(z0, lp, qk);
        assert(l * 1 == l);
        lemma_combine(s, s0, l * pk, pa, a, w, w0, l, z, z0, lp * qk);
    }
}

/// The Lagrange coefficient of the last index `a`, times the product of the
/// differences of the other indices from `a`, is the product of the other
/// indices.
proof fn lemma_last_coeff(xs: Seq<int>, n: nat)
    requires
        independent(xs),
        xs.len() >= 1,
        n <= xs.len() - 1,
    ensures
        eqm(
            lagrange_coeff(xs.last(), xs.take(n as int)) * prod_diff(xs, n, xs.last()),
            prod_diff(xs, n, 0),
        ),
    decreases n,
{
    let a = xs.last();
    if n == 0 {
        assert(xs.take(0).len() == 0);
        assert(lagrange_coeff(a, xs.take(0)) == 1);
        lemma_eqm_refl(1);
    } else {
        let k = n - 1;
        let m = xs.len() - 1;
        lemma_last_coeff(xs, k as nat);
        let x = xs[k];
        let v = field_inv(field_sub(x, a));
        lemma_gap_inverse(xs, k, m);
        assert(xs.take(n as int).drop_last() =~= xs.take(k));
        assert(xs.take(n as int).last() == x);
        let l = lagrange_coeff(a, xs.take(n as int));
        let lp = lagrange_coeff(a, xs.take(k));
        assert(l == field_mul(lp, field_mul(x, v)));
        lemma_eqm_factor(l, lp, x, v);
        let p0 = prod_diff(xs, k as nat, a);
        let r0 = prod_diff(xs, k as nat, 0);
        let p = p0 * (x - a);
        assert(prod_diff(xs, n, a) == p);
        assert(prod_diff(xs, n, 0) == r0 * (x - 0));
        let big = lp * (x * v);
        let g = (x - a) * v;
        lemma_eqm_refl(p);
        lemma_eqm_mul(l, big, p, p);
        assert(big * p == (lp * p0) * (x * g)) by (nonlinear_arith)
            requires
                big == lp * (x * v),
                p == p0 * (x - a),
                g == (x - a) * v,
        ;
        lemma_eqm_scale(x, g, 1);
        lemma_eqm_mul(lp * p0, r0, x * g, x * 1);
        assert(r0 * (x * 1) == r0 * (x - 0)) by (nonlinear_arith);
        lemma_eqm_trans(l * p, (lp * p0) * (x * g), r0 * (x - 0));
    }
}

/// The product of the differences of the other indices from the last index
/// has an inverse.
proof fn lemma_prod_unit(xs: Seq<int>, n: nat)
    requires
        independent(xs),
        xs.len() >= 1,
        n <= xs.len() - 1,
    ensures
        unit(prod_diff(xs, n, xs.last())),
    decreases n,
{
    let a = xs.last();
    if n == 0 {
        lemma_eqm_refl(1);
        assert(1int * 1int == 1int);
        assert(inverts(1, 1));
    } else {
        let k = n - 1;
        let m = xs.len() - 1;
        lemma_prod_unit(xs, k as nat);
        let p0 = prod_diff(xs, k as nat, a);
        let w0 = choose|w: int| inverts(p0, w);
        let x = xs[k];
        let v = field_inv(field_sub(x, a));
        lemma_gap_inverse(xs, k, m);
        lemma_eqm_mul(p0 * w0, 1, (x - a) * v, 1);
        assert((p0 * (x - a)) * (w0 * v) == (p0 * w0) * ((x - a) * v)) by (nonlinear_arith);
        assert(1int * 1int == 1int);
        assert(inverts(prod_diff(xs, n, a), w0 * v));
    }
}

/// The weighted sum of the values of the polynomial that vanishes at all
/// but the last index, over all but the last index, is zero.
proof fn lemma_vanishing_partial(xs: Seq<int>, n: nat)
    requires
        xs.len() >= 1,
        n <= xs.len() - 1,
    ensures
        weighted_sum(xs, evals(vanishing(xs, (xs.len() - 1) as nat), xs), n) == 0,
    decreases n,
{
    if n > 0 {
        let k = n - 1;
        let m = (xs.len() - 1) as nat;
        let c = vanishing(xs, m);
        lemma_vanishing_partial(xs, k as nat);
        lemma_poly_value_int(c, xs[k]);
        lemma_vanishing(xs, m, xs[k]);
        lemma_prod_diff_zero(xs, m, k);
        assert(evals(c, xs)[k] == poly_value(c, xs[k]));
        lemma_eqm_canonical(poly_value(c, xs[k]), 0);
        let l = lagrange_coeff(xs[k], xs);
        assert(l * 0 == 0);
        lemma_sum_step(0, l, 0);
        lemma_eqm_canonical(field_add(0, field_mul(l, 0)), 0);
    }
}

/// The weighted sum of all the values of the polynomial that vanishes at
/// all but the last index is the polynomial's value at zero.
proof fn lemma_vanishing_sum(xs: Seq<int>)
    requires
        independent(xs),
        xs.len() >= 1,
    ensures
        eqm(
            weighted_sum(xs, evals(vanishing(xs, (xs.len() - 1) as nat), xs), xs.len()),
            prod_diff(xs, (xs.len() - 1) as nat, 0),
        ),
{
    let m = (xs.len() - 1) as nat;
    let a = xs.last();
    let c = vanishing(xs, m);
    lemma_vanishing_partial(xs, m);
    lemma_last_coeff(xs, m);
    assert(xs.take(m as int) =~= xs.drop_last());
    let l = lagrange_coeff(a, xs);
    assert(l == lagrange_coeff(a, xs.drop_last()));
    let v = poly_value(c, a);
    lemma_poly_value_int(c, a);
    lemma_vanishing(xs, m, a);
    assert(evals(c, xs)[m as int] == v);
    lemma_eqm_scale(l, v, prod_diff(xs, m, a));
    let s = weighted_sum(xs, evals(c, xs), xs.len());
    assert(s == field_add(0, field_mul(l, v)));
    lemma_sum_step(0, l, v);
    lemma_eqm_trans(s, l * v, l * prod_diff(xs, m, a));
    lemma_eqm_trans(s, l * prod_diff(xs, m, a), prod_diff(xs, m, 0));
}

/// The weighted sum of a polynomial's values over all indices, through the
/// division of the polynomial by `X - a` for the last index `a`.
proof fn lemma_step(xs: Seq<int>, c: Seq<int>)
    requires
        independent(xs),
        xs.len() >= 1,
        c.len() <= xs.len(),
    ensures
        eqm(
            weighted_sum(xs, evals(c, xs), xs.len()),
            poly_int(c, 0) + poly_int(c, xs.last()) * (weighted_sum(xs, ones(xs.len()), xs.len())
                - 1),
        ),
    decreases xs.len(), 0nat,
{
    let m = (xs.len() - 1) as nat;
    let a = xs.last();
    let xs1 = xs.drop_last();
    let q = quotient(c, a);
    let pa = poly_int(c, a);
    lemma_partial(xs, c, m);
    let l = lagrange_coeff(a, xs);
    let pk = poly_value(c, a);
    lemma_poly_value_int(c, a);
    lemma_eqm_scale(l, pk, pa);
    assert(l * pa == pa * l - a * 0) by (nonlinear_arith);
    let s = weighted_sum(xs, evals(c, xs), xs.len());
    let s0 = weighted_sum(xs, evals(c, xs), m);
    let w = weighted_sum(xs, ones(xs.len()), xs.len());
    let w0 = weighted_sum(xs, ones(xs.len()), m);
    let z = weighted_sum(xs1, evals(q, xs1), m);
    assert(evals(c, xs)[m as int] == pk);
    assert(ones(xs.len())[m as int] == 1);
    assert(s == field_add(s0, field_mul(l, pk)));
    assert(w == field_add(w0, field_mul(l, 1)));
    lemma_sum_step(s0, l, pk);
    lemma_sum_step(w0, l, 1);
    assert(l * 1 == l);
    lemma_eqm_refl(z);
    lemma_combine(s, s0, l * pk, pa, a, w, w0, l, z, z, 0);
    // The quotient is interpolated by the other indices.
    lemma_independent_prefix(xs);
    lemma_quotient(c, a, 0);
    lemma_interpolation(xs1, q);
    let q0 = poly_int(q, 0);
    lemma_poly_value_int(q, 0);
    lemma_eqm_scale(a, z, q0);
    lemma_eqm_refl(pa * w);
    lemma_eqm_sub(pa * w, pa * w, a * z, a * q0);
    assert(pa * w - a * q0 == (pa + (0 - a) * q0) + pa * (w - 1)) by (nonlinear_arith);
    lemma_eqm_trans(s, pa * w - a * z, pa * w - a * q0);
}

/// The Lagrange coefficients of independent indices add up to one.
proof fn lemma_unity(xs: Seq<int>)
    requires
        independent(xs),
        xs.len() >= 1,
    ensures
        eqm(weighted_sum(xs, ones(xs.len()), xs.len()), 1),
    decreases xs.len(), 1nat,
{
    let m = (xs.len() - 1) as nat;
    let a = xs.last();
    let c = vanishing(xs, m);
    lemma_vanishing(xs, m, 0);
    lemma_vanishing(xs, m, a);
    lemma_step(xs, c);
    lemma_vanishing_sum(xs);
    lemma_prod_unit(xs, m);
    let w = weighted_sum(xs, ones(xs.len()), xs.len());
    let s = weighted_sum(xs, evals(c, xs), xs.len());
    let r0 = prod_diff(xs, m, 0);
    let y = prod_diff(xs, m, a) * (w - 1);
    // s is congruent both to r0 + y and to r0, so y is congruent to zero.
    lemma_eqm_sym(s, r0 + y);
    lemma_eqm_trans(r0 + y, s, r0);
    lemma_eqm_refl(r0);
    lemma_eqm_sub(r0 + y, r0, r0, r0);
    lemma_cancel(prod_diff(xs, m, a), w - 1);
    lemma_eqm_refl(1);
    lemma_eqm_add(w - 1, 0, 1, 1);
}

/// Lagrange interpolation at zero: where the indices are independent and at
/// least as many as the coefficients of a polynomial, the polynomial's
/// values at the indices, weighted by the Lagrange coefficients, add up to
/// its value at zero.
pub proof fn lemma_interpolation(xs: Seq<int>, c: Seq<int>)
    requires
        independent(xs),
        c.len() <= xs.len(),
    ensures
        weighted_sum(xs, evals(c, xs), xs.len()) == poly_value(c, 0),
    decreases xs.len(), 2nat,
{
    if xs.len() > 0 {
        lemma_step(xs, c);
        lemma_unity(xs);
        let m = (xs.len() - 1) as nat;
        let pa = poly_int(c, xs.last());
        let p0 = poly_int(c, 0);
        let w = weighted_sum(xs, ones(xs.len()), xs.len());
        let s = weighted_sum(xs, evals(c, xs), xs.len());
        lemma_eqm_refl(1);
        lemma_eqm_sub(w, 1, 1, 1);
        lemma_eqm_scale(pa, w - 1, 0);
        assert(pa * 0 == 0);
        lemma_eqm_refl(p0);
        lemma_eqm_add(p0, p0, pa * (w - 1), 0);
        lemma_eqm_trans(s, p0 + pa * (w - 1), p0);
        lemma_poly_value_int(c, 0);
        lemma_eqm_sym(poly_value(c, 0), p0);
        lemma_eqm_trans(s, p0, poly_value(c, 0));
        let l = lagrange_coeff(xs.last(), xs);
        let v = evals(c, xs)[m as int];
        assert(s == field_add(weighted_sum(xs, evals(c, xs), m), field_mul(l, v)));
        lemma_sum_step(weighted_sum(xs, evals(c, xs), m), l, v);
        lemma_eqm_canonical(s, poly_value(c, 0));
    }
}

/// The weighted sum is linear: where every value of `zs` is congruent to
/// `m` times the value of `ys`, so are the weighted sums.
pub proof fn lemma_weighted_sum_scaled(xs: Seq<int>, ys: Seq<int>, zs: Seq<int>, m: int, n: nat)
    requires
        n <= xs.len(),
        ys.len() == xs.len(),
        zs.len() == xs.len(),
        forall|k: int| 0 <= k < xs.len() ==> eqm(#[trigger] zs[k], m * ys[k]),
    ensures
        eqm(weighted_sum(xs, zs, n), m * weighted_sum(xs, ys, n)),
    decreases n,
{
    if n == 0 {
        assert(m * 0 == 0);
        lemma_eqm_refl(0);
    } else {
        let k = n - 1;
        lemma_weighted_sum_scaled(xs, ys, zs, m, k as nat);
        let l = lagrange_coeff(xs[k], xs);
        let sz = weighted_sum(xs, zs, n);
        let sz0 = weighted_sum(xs, zs, k as nat);
        let sy = weighted_sum(xs, ys, n);
        let sy0 = weighted_sum(xs, ys, k as nat);
        lemma_sum_step(sz0, l, zs[k]);
        lemma_sum_step(sy0, l, ys[k]);
        assert(eqm(zs[k], m * ys[k]));
        lemma_eqm_scale(l, zs[k], m * ys[k]);
        lemma_eqm_add(sz0, m * sy0, l * zs[k], l * (m * ys[k]));
        assert(m * sy0 + l * (m * ys[k]) == m * (sy0 + l * ys[k])) by (nonlinear_arith);
        lemma_eqm_sym(sy, sy0 + l * ys[k]);
        lemma_eqm_scale(m, sy0 + l * ys[k], sy);
        lemma_eqm_trans(sz, sz0 + l * zs[k], m * (sy0 + l * ys[k]));
        lemma_eqm_trans(sz, m * (sy0 + l * ys[k]), m * sy);
    }
}

} // verus!
