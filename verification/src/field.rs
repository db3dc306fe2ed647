//! The scalar field of BLS12-381 as integers modulo the group order.

use vstd::prelude::*;
use vstd::arithmetic::div_mod::*;
use vstd::arithmetic::mul::*;

verus! {

/// The order `q` of the groups G1, G2 and GT, which is the modulus of the
/// scalar field.
pub open spec fn modulus() -> int {
    0x73eda753299d7d483339d80809a1d80553bda402fffe5bfeffffffff00000001int
}

/// Whether `a` is the canonical representative of a field element.
pub open spec fn is_canonical(a: int) -> bool {
    0 <= a < modulus()
}

/// Sum in the field.
pub open spec fn field_add(a: int, b: int) -> int {
    (a + b) % modulus()
}

/// Difference in the field.
pub open spec fn field_sub(a: int, b: int) -> int {
    (a - b) % modulus()
}

/// Product in the field.
pub open spec fn field_mul(a: int, b: int) -> int {
    (a * b) % modulus()
}

/// Whether `b` is the canonical multiplicative inverse of `a`.
pub open spec fn is_inverse(a: int, b: int) -> bool {
    is_canonical(b) && (a * b) % modulus() == 1
}

/// Whether `a` has a multiplicative inverse modulo the group order.
pub open spec fn invertible(a: int) -> bool {
    exists|b: int| is_inverse(a, b)
}

/// The canonical multiplicative inverse of an invertible `a`.
pub open spec fn field_inv(a: int) -> int {
    choose|b: int| is_inverse(a, b)
}

/// The number that a sequence of bytes denotes in little-endian order.
pub open spec fn le_value(bytes: Seq<u8>) -> nat
    decreases bytes.len(),
{
    if bytes.len() == 0 {
        0
    } else {
        bytes[0] as nat + 256 * le_value(bytes.skip(1))
    }
}

/// Two byte strings of one length that denote the same number are equal.
pub proof fn lemma_le_value_injective(a: Seq<u8>, b: Seq<u8>)
    requires
        a.len() == b.len(),
        le_value(a) == le_value(b),
    ensures
        a == b,
    decreases a.len(),
{
    if a.len() > 0 {
        let ra = le_value(a.skip(1));
        let rb = le_value(b.skip(1));
        assert(a[0] as nat + 256 * ra == b[0] as nat + 256 * rb);
        assert(a[0] == b[0] && ra == rb) by {
            if ra < rb {
                assert(256 * rb >= 256 * ra + 256);
            } else if rb < ra {
                assert(256 * ra >= 256 * rb + 256);
            }
        }
        lemma_le_value_injective(a.skip(1), b.skip(1));
        assert(a =~= seq![a[0]] + a.skip(1));
        assert(b =~= seq![b[0]] + b.skip(1));
    } else {
        assert(a =~= b);
    }
}

/// A canonical number is its own remainder.
pub proof fn lemma_canonical_reduced(a: int)
    requires
        is_canonical(a),
    ensures
        a % modulus() == a,
{
    lemma_small_mod(a as nat, modulus() as nat);
}

/// A product may be reduced on either side before it is reduced as a whole.
pub proof fn lemma_mul_reduce(a: int, b: int)
    ensures
        field_mul(a % modulus(), b) == field_mul(a, b),
        field_mul(a, b % modulus()) == field_mul(a, b),
        field_mul(a % modulus(), b % modulus()) == field_mul(a, b),
{
    lemma_mul_mod_noop_general(a, b, modulus());
}

/// Inverses are unique: whatever canonical number multiplies `a` to one is
/// `field_inv(a)`.
pub proof fn lemma_inverse_unique(a: int, b: int)
    requires
        is_inverse(a, b),
    ensures
        invertible(a),
        field_inv(a) == b,
{
    let c = field_inv(a);
    assert(is_inverse(a, c));
    // b == b * (a * c) == (b * a) * c == c, all modulo the group order
    let m = modulus();
    assert(field_mul(b, a * c) == field_mul(b, 1)) by {
        lemma_mul_reduce(b, a * c);
    }
    assert(field_mul(c, a * b) == field_mul(c, 1)) by {
        lemma_mul_reduce(c, a * b);
    }
    assert(b * (a * c) == c * (a * b)) by {
        lemma_mul_is_associative(b, a, c);
        lemma_mul_is_associative(c, a, b);
        lemma_mul_is_commutative(b, a);
        lemma_mul_is_commutative(c, a * b);
        lemma_mul_is_commutative(a * b, c);
    }
    assert(b * 1 == b && c * 1 == c);
    assert(b % m == b && c % m == c);
}

} // verus!
