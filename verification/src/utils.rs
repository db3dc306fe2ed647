//! Polynomials over the scalar field: evaluation by Horner's method and the
//! Lagrange coefficients that interpolate at zero.

use vstd::prelude::*;
use crate::field::{field_add, field_inv, field_mul, field_sub, is_canonical, lemma_inverse_unique,
    modulus};
use crate::scalar::{difference, inverse, one, product, same, sum, Scalar};

verus! {

/// The numbers that a sequence of scalars denotes.
pub open spec fn values_of(scalars: Seq<Scalar>) -> Seq<int> {
    scalars.map_values(|s: Scalar| s@)
}

/// The value at `x` of the polynomial `coeffs[0] + coeffs[1]·X + … +
/// coeffs[k-1]·X^(k-1)`, in the field.
pub open spec fn poly_value(coeffs: Seq<int>, x: int) -> int
    decreases coeffs.len(),
{
    if coeffs.len() == 0 {
        0
    } else {
        (coeffs[0] + x * poly_value(coeffs.skip(1), x)) % modulus()
    }
}

/// The Lagrange coefficient of the index `i` against `indices`: the product,
/// over the indices `j` that differ from `i`, of `j·(j − i)^(-1)`. It is one
/// where no index differs from `i`.
pub open spec fn lagrange_coeff(i: int, indices: Seq<int>) -> int
    decreases indices.len(),
{
    if indices.len() == 0 {
        1
    } else {
        let j = indices.last();
        let rest = lagrange_coeff(i, indices.drop_last());
        if j == i {
            rest
        } else {
            field_mul(rest, field_mul(j, field_inv(field_sub(j, i))))
        }
    }
}

/// The sum, over the first `n` indices, of each value weighted by the
/// Lagrange coefficient of its index against all of `indices`.
pub open spec fn weighted_sum(indices: Seq<int>, values: Seq<int>, n: nat) -> int
    decreases n,
{
    if n == 0 {
        0
    } else {
        field_add(
            weighted_sum(indices, values, (n - 1) as nat),
            field_mul(lagrange_coeff(indices[n - 1], indices), values[n - 1]),
        )
    }
}

/// The value at zero of the polynomial that takes `values[k]` at
/// `indices[k]`, by Lagrange interpolation: the sum of the values, each
/// weighted by the Lagrange coefficient of its index.
pub open spec fn interpolate_at_zero(indices: Seq<int>, values: Seq<int>) -> int {
    weighted_sum(indices, values, indices.len())
}

/// Evaluates a polynomial using Horner's method.
///
/// `poly_coeffs` holds the coefficients, the constant term first, and `x` is
/// the point at which the polynomial is evaluated: starting from the leading
/// coefficient, `result·x + coefficient` is folded over the remaining
/// coefficients in reverse order.
pub fn poly_eval(poly_coeffs: &[Scalar], x: &Scalar) -> (result: Scalar)
    requires
        poly_coeffs@.len() > 0,
    ensures
        result.wf(),
        result@ == poly_value(values_of(poly_coeffs@), x@),
{
    let ghost coeffs = values_of(poly_coeffs@);
    let n: usize = poly_coeffs.len();
    let mut i: usize = n - 1;
    let mut result: Scalar = poly_coeffs[i];
    proof {
        use_type_invariant(&result);
        use_type_invariant(x);
        assert(coeffs.skip(i as int).skip(1).len() == 0);
        assert(poly_value(coeffs.skip(i as int).skip(1), x@) == 0);
        assert(x@ * 0 == 0);
        assert(coeffs.skip(i as int)[0] == result@);
    }
    while i > 0
        invariant
            n == poly_coeffs@.len(),
            coeffs == values_of(poly_coeffs@),
            i < n,
            result.wf(),
            result@ == poly_value(coeffs.skip(i as int), x@),
        decreases i,
    {
        i = i - 1;
        let coeff: Scalar = poly_coeffs[i];
        let scaled: Scalar = product(&result, x);
        let ghost before = result@;
        result = sum(&scaled, &coeff);
        proof {
            assert(coeffs.skip(i as int).skip(1) =~= coeffs.skip(i + 1));
            assert(coeffs.skip(i as int)[0] == coeff@);
            assert(before * x@ == x@ * before) by (nonlinear_arith);
        }
    }
    proof {
        assert(coeffs.skip(0) =~= coeffs);
    }
    result
}

/// Computes the Lagrange coefficient of `fragment_index` against
/// `fragment_indices`, by which a share is weighted when the polynomial's
/// value at zero is rebuilt. Indices equal to `fragment_index` are left out;
/// with none left the coefficient is one.
pub fn lambda_coeff(fragment_index: &Scalar, fragment_indices: &[Scalar]) -> (result: Scalar)
    ensures
        result.wf(),
        result@ == lagrange_coeff(fragment_index@, values_of(fragment_indices@)),
{
    let ghost indices = values_of(fragment_indices@);
    let n: usize = fragment_indices.len();
    let mut result: Scalar = one();
    let mut k: usize = 0;
    proof {
        use_type_invariant(fragment_index);
    }
    while k < n
        invariant
            n == fragment_indices@.len(),
            indices == values_of(fragment_indices@),
            k <= n,
            is_canonical(fragment_index@),
            result.wf(),
            result@ == lagrange_coeff(fragment_index@, indices.take(k as int)),
        decreases n - k,
    {
        let index: Scalar = fragment_indices[k];
        proof {
            use_type_invariant(&index);
            assert(indices.take(k + 1).drop_last() =~= indices.take(k as int));
            assert(indices.take(k + 1).last() == index@);
        }
        if !same(&index, fragment_index) {
            let gap: Scalar = difference(&index, fragment_index);
            let gap_inverse: Scalar = inverse(&gap);
            let factor: Scalar = product(&index, &gap_inverse);
            result = product(&result, &factor);
            proof {
                lemma_inverse_unique(gap@, gap_inverse@);
            }
        }
        k = k + 1;
    }
    proof {
        assert(indices.take(n as int) =~= indices);
    }
    result
}

} // verus!
