//! Elements of the scalar field, held in their canonical little-endian
//! encoding. The arithmetic is that of the `bls12_381` crate.

use vstd::prelude::*;
use crate::field::{field_add, field_mul, field_sub, is_canonical, is_inverse, le_value, modulus,
    lemma_le_value_injective};

verus! {

/// An element of the scalar field: 32 bytes that denote, in little-endian
/// order, a number below the group order.
#[derive(Clone, Copy, Debug, PartialEq, Eq)]
pub struct Scalar {
    bytes: [u8; 32],
}

impl View for Scalar {
    type V = int;

    /// The number that the scalar denotes.
    open spec fn view(&self) -> int {
        le_value(self.encoding()) as int
    }
}

impl Scalar {
    /// The 32 bytes of the canonical encoding.
    pub closed spec fn encoding(self) -> Seq<u8> {
        self.bytes@
    }

    /// Every scalar is canonical: its bytes denote a number below the group
    /// order.
    #[verifier::type_invariant]
    pub open spec fn wf(self) -> bool {
        self.encoding().len() == 32 && is_canonical(self@)
    }

    /// A scalar is determined by the number it denotes.
    pub proof fn lemma_same_value(self, other: Scalar)
        requires
            self.encoding().len() == other.encoding().len(),
            self@ == other@,
        ensures
            self == other,
    {
        lemma_le_value_injective(self.bytes@, other.bytes@);
        assert(self.bytes == other.bytes);
    }

    /// Reads a scalar from its canonical encoding; `None` where the bytes
    /// denote a number that is not below the group order.
    pub fn from_bytes(bytes: &[u8; 32]) -> (r: Option<Scalar>)
        ensures
            r is Some <==> le_value(bytes@) < modulus(),
            r is Some ==> r->0.wf() && r->0.encoding() == bytes@,
    {
        decode(bytes)
    }

    /// The canonical encoding.
    pub fn to_bytes(&self) -> (r: [u8; 32])
        ensures
            r@ == self.encoding(),
    {
        self.bytes
    }
}

/// `bls12_381::Scalar::from_bytes`, which accepts exactly the little-endian
/// encodings of numbers below the group order; `to_bytes` gives the same
/// bytes back.
#[verifier::external_body]
fn decode(bytes: &[u8; 32]) -> (r: Option<Scalar>)
    ensures
        r is Some <==> le_value(bytes@) < modulus(),
        r is Some ==> r->0.wf() && r->0.encoding() == bytes@,
{
    let parsed: Option<bls12_381::Scalar> = bls12_381::Scalar::from_bytes(bytes).into();
    match parsed {
        Some(s) => Some(Scalar { bytes: s.to_bytes() }),
        None => None,
    }
}

/// `bls12_381::Scalar::zero`: the additive identity.
#[verifier::external_body]
pub(crate) fn zero() -> (r: Scalar)
    ensures
        r.wf(),
        r@ == 0,
{
    Scalar { bytes: bls12_381::Scalar::zero().to_bytes() }
}

/// `bls12_381::Scalar::one`: the multiplicative identity.
#[verifier::external_body]
pub(crate) fn one() -> (r: Scalar)
    ensures
        r.wf(),
        r@ == 1,
{
    Scalar { bytes: bls12_381::Scalar::one().to_bytes() }
}

/// Addition of `bls12_381::Scalar`: the sum modulo the group order.
#[verifier::external_body]
pub(crate) fn sum(a: &Scalar, b: &Scalar) -> (r: Scalar)
    ensures
        r.wf(),
        r@ == field_add(a@, b@),
{
    let x = bls12_381::Scalar::from_bytes(&a.bytes).unwrap();
    let y = bls12_381::Scalar::from_bytes(&b.bytes).unwrap();
    Scalar { bytes: (x + y).to_bytes() }
}

/// Subtraction of `bls12_381::Scalar`: the difference modulo the group
/// order.
#[verifier::external_body]
pub(crate) fn difference(a: &Scalar, b: &Scalar) -> (r: Scalar)
    ensures
        r.wf(),
        r@ == field_sub(a@, b@),
{
    let x = bls12_381::Scalar::from_bytes(&a.bytes).unwrap();
    let y = bls12_381::Scalar::from_bytes(&b.bytes).unwrap();
    Scalar { bytes: (x - y).to_bytes() }
}

/// Multiplication of `bls12_381::Scalar`: the product modulo the group
/// order.
#[verifier::external_body]
pub(crate) fn product(a: &Scalar, b: &Scalar) -> (r: Scalar)
    ensures
        r.wf(),
        r@ == field_mul(a@, b@),
{
    let x = bls12_381::Scalar::from_bytes(&a.bytes).unwrap();
    let y = bls12_381::Scalar::from_bytes(&b.bytes).unwrap();
    Scalar { bytes: (x * y).to_bytes() }
}

/// `bls12_381::Scalar::invert`, which fails on zero only: the result
/// multiplies the argument to one.
#[verifier::external_body]
pub(crate) fn inverse(a: &Scalar) -> (r: Scalar)
    requires
        a@ != 0,
    ensures
        r.wf(),
        is_inverse(a@, r@),
{
    let x = bls12_381::Scalar::from_bytes(&a.bytes).unwrap();
    Scalar { bytes: x.invert().unwrap().to_bytes() }
}

/// `bls12_381::Scalar::from_bytes_wide`: the 512-bit little-endian number,
/// reduced modulo the group order.
#[verifier::external_body]
pub(crate) fn reduce_wide(bytes: &[u8; 64]) -> (r: Scalar)
    ensures
        r.wf(),
        r@ == le_value(bytes@) as int % modulus(),
{
    Scalar { bytes: bls12_381::Scalar::from_bytes_wide(bytes).to_bytes() }
}

/// Equality of `bls12_381::Scalar`, which compares in constant time: two
/// scalars are equal exactly when they denote the same number.
#[verifier::external_body]
pub(crate) fn same(a: &Scalar, b: &Scalar) -> (r: bool)
    ensures
        r == (a@ == b@),
{
    let x = bls12_381::Scalar::from_bytes(&a.bytes).unwrap();
    let y = bls12_381::Scalar::from_bytes(&b.bytes).unwrap();
    x == y
}

} // verus!
