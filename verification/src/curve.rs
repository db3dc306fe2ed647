//! The groups G1 and G2 of BLS12-381 and the pairing between them.
//!
//! Both groups are cyclic of the prime order `q`, so every element is a
//! multiple `k·G` of the group's fixed generator `G` for exactly one `k`
//! below `q`. The contracts speak of an element through that `k`, its view:
//! the group law is addition modulo `q`, multiplication by a scalar is
//! multiplication modulo `q`, and the pairing of `a·G1` with `b·G2` is the
//! `a·b`-fold of the pairing of the two generators. The elements themselves
//! are held in their compressed encodings, and all the arithmetic on them is
//! that of the `bls12_381` crate.

use vstd::prelude::*;
use crate::field::{field_add, field_mul, is_canonical};
use crate::scalar::Scalar;

verus! {

/// The compressed encoding of `k` times the generator of G1.
pub uninterp spec fn g1_point(k: int) -> Seq<u8>;

/// The uncompressed encoding of `k` times the generator of G1.
pub uninterp spec fn g1_uncompressed(k: int) -> Seq<u8>;

/// The compressed encoding of `k` times the generator of G2.
pub uninterp spec fn g2_point(k: int) -> Seq<u8>;

/// The `k` below the group order for which `k` times the generator of G1
/// has the compressed encoding `encoding`. The generator has the order of
/// the group, so there is one such `k` at most.
pub open spec fn g1_log(encoding: Seq<u8>) -> int {
    choose|k: int| is_canonical(k) && g1_point(k) == encoding
}

/// The `k` below the group order for which `k` times the generator of G2
/// has the compressed encoding `encoding`. The generator has the order of
/// the group, so there is one such `k` at most.
pub open spec fn g2_log(encoding: Seq<u8>) -> int {
    choose|k: int| is_canonical(k) && g2_point(k) == encoding
}

/// Whether 48 bytes are the compressed encoding of an element of G1.
pub open spec fn is_g1_encoding(bytes: Seq<u8>) -> bool {
    bytes.len() == 48 && is_canonical(g1_log(bytes)) && g1_point(g1_log(bytes)) == bytes
}

/// Whether 96 bytes are the compressed encoding of an element of G2.
pub open spec fn is_g2_encoding(bytes: Seq<u8>) -> bool {
    bytes.len() == 96 && is_canonical(g2_log(bytes)) && g2_point(g2_log(bytes)) == bytes
}

/// The pairing of `p` times the generator of G1 with `q` times the generator
/// of G2, as a multiple of the pairing of the two generators. The pairing is
/// bilinear and not degenerate, and the target group has the same prime
/// order, so two pairings are equal exactly when these multiples are.
pub open spec fn pairing(p: int, q: int) -> int {
    field_mul(p, q)
}

/// An element of G1, held in its compressed encoding of 48 bytes.
#[derive(Clone, Copy, Debug, PartialEq, Eq)]
pub struct G1Point {
    bytes: [u8; 48],
}

impl View for G1Point {
    type V = int;

    /// The multiple of the generator that the element is.
    open spec fn view(&self) -> int {
        g1_log(self.encoding())
    }
}

impl G1Point {
    /// The 48 bytes of the compressed encoding.
    pub closed spec fn encoding(self) -> Seq<u8> {
        self.bytes@
    }

    /// The bytes held are the encoding of an element of the group.
    #[verifier::type_invariant]
    pub open spec fn wf(self) -> bool {
        is_g1_encoding(self.encoding())
    }

    /// An element is determined by the multiple of the generator that it is.
    pub proof fn lemma_same_value(self, other: G1Point)
        requires
            self.wf(),
            other.wf(),
            self@ == other@,
        ensures
            self == other,
    {
        assert(self.bytes@ == other.bytes@);
        assert(self.bytes == other.bytes);
    }

    /// Reads an element from its compressed encoding; `None` where the bytes
    /// are not the encoding of an element of the group.
    pub fn from_compressed(bytes: &[u8; 48]) -> (r: Option<G1Point>)
        ensures
            r is Some <==> is_g1_encoding(bytes@),
            r is Some ==> r->0.wf() && r->0.encoding() == bytes@,
    {
        g1_decode(bytes)
    }

    /// The compressed encoding.
    pub fn to_compressed(&self) -> (r: [u8; 48])
        ensures
            r@ == self.encoding(),
    {
        self.bytes
    }
}

/// An element of G2, held in its compressed encoding of 96 bytes.
#[derive(Clone, Copy, Debug, PartialEq, Eq)]
pub struct G2Point {
    bytes: [u8; 96],
}

impl View for G2Point {
    type V = int;

    /// The multiple of the generator that the element is.
    open spec fn view(&self) -> int {
        g2_log(self.encoding())
    }
}

impl G2Point {
    /// The 96 bytes of the compressed encoding.
    pub closed spec fn encoding(self) -> Seq<u8> {
        self.bytes@
    }

    /// The bytes held are the encoding of an element of the group.
    #[verifier::type_invariant]
    pub open spec fn wf(self) -> bool {
        is_g2_encoding(self.encoding())
    }

    /// An element is determined by the multiple of the generator that it is.
    pub proof fn lemma_same_value(self, other: G2Point)
        requires
            self.wf(),
            other.wf(),
            self@ == other@,
        ensures
            self == other,
    {
        assert(self.bytes@ == other.bytes@);
        assert(self.bytes == other.bytes);
    }

    /// Reads an element from its compressed encoding; `None` where the bytes
    /// are not the encoding of an element of the group.
    pub fn from_compressed(bytes: &[u8; 96]) -> (r: Option<G2Point>)
        ensures
            r is Some <==> is_g2_encoding(bytes@),
            r is Some ==> r->0.wf() && r->0.encoding() == bytes@,
    {
        g2_decode(bytes)
    }

    /// The compressed encoding.
    pub fn to_compressed(&self) -> (r: [u8; 96])
        ensures
            r@ == self.encoding(),
    {
        self.bytes
    }
}

/// `bls12_381::G1Affine::from_compressed`, which accepts exactly the
/// canonical compressed encodings of the elements of the subgroup of order
/// `q`; `to_compressed` gives the same bytes back.
#[verifier::external_body]
fn g1_decode(bytes: &[u8; 48]) -> (r: Option<G1Point>)
    ensures
        r is Some <==> (is_canonical(g1_log(bytes@)) && g1_point(g1_log(bytes@)) == bytes@),
        r is Some ==> r->0.encoding() == bytes@,
{
    let parsed: Option<bls12_381::G1Affine> = bls12_381::G1Affine::from_compressed(bytes).into();
    match parsed {
        Some(p) => Some(G1Point { bytes: p.to_compressed() }),
        None => None,
    }
}

/// `bls12_381::G2Affine::from_compressed`, which accepts exactly the
/// canonical compressed encodings of the elements of the subgroup of order
/// `q`; `to_compressed` gives the same bytes back.
#[verifier::external_body]
fn g2_decode(bytes: &[u8; 96]) -> (r: Option<G2Point>)
    ensures
        r is Some <==> (is_canonical(g2_log(bytes@)) && g2_point(g2_log(bytes@)) == bytes@),
        r is Some ==> r->0.encoding() == bytes@,
{
    let parsed: Option<bls12_381::G2Affine> = bls12_381::G2Affine::from_compressed(bytes).into();
    match parsed {
        Some(p) => Some(G2Point { bytes: p.to_compressed() }),
        None => None,
    }
}

/// `bls12_381::G1Affine::generator`: the fixed generator of G1, which is
/// one times itself.
#[verifier::external_body]
pub(crate) fn g1_generator() -> (r: G1Point)
    ensures
        r.wf(),
        r@ == 1,
{
    G1Point { bytes: bls12_381::G1Affine::generator().to_compressed() }
}

/// Multiplication of a `bls12_381::G1Affine` by a `bls12_381::Scalar`:
/// `s` times the `p`-fold of the generator is its `p·s`-fold.
#[verifier::external_body]
pub(crate) fn g1_mul(p: &G1Point, s: &Scalar) -> (r: G1Point)
    ensures
        r.wf(),
        r@ == field_mul(p@, s@),
{
    let point = bls12_381::G1Affine::from_compressed(&p.bytes).unwrap();
    let scalar = bls12_381::Scalar::from_bytes(&s.to_bytes()).unwrap();
    G1Point { bytes: bls12_381::G1Affine::from(point * scalar).to_compressed() }
}

/// `bls12_381::G1Affine::to_uncompressed`: the uncompressed encoding of 96
/// bytes.
#[verifier::external_body]
pub(crate) fn g1_to_uncompressed(p: &G1Point) -> (r: [u8; 96])
    ensures
        r@ == g1_uncompressed(p@),
{
    bls12_381::G1Affine::from_compressed(&p.bytes).unwrap().to_uncompressed()
}

/// `bls12_381::G2Projective::identity`: the neutral element of G2, which is
/// zero times the generator.
#[verifier::external_body]
pub(crate) fn g2_identity() -> (r: G2Point)
    ensures
        r.wf(),
        r@ == 0,
{
    let neutral = bls12_381::G2Projective::identity();
    G2Point { bytes: bls12_381::G2Affine::from(neutral).to_compressed() }
}

/// Multiplication of a `bls12_381::G2Affine` by a `bls12_381::Scalar`:
/// `s` times the `p`-fold of the generator is its `p·s`-fold.
#[verifier::external_body]
pub(crate) fn g2_mul(p: &G2Point, s: &Scalar) -> (r: G2Point)
    ensures
        r.wf(),
        r@ == field_mul(p@, s@),
{
    let point = bls12_381::G2Affine::from_compressed(&p.bytes).unwrap();
    let scalar = bls12_381::Scalar::from_bytes(&s.to_bytes()).unwrap();
    G2Point { bytes: bls12_381::G2Affine::from(point * scalar).to_compressed() }
}

/// Addition of `bls12_381::G2Projective`: the `a`-fold and the `b`-fold of
/// the generator add up to its `(a + b)`-fold.
#[verifier::external_body]
pub(crate) fn g2_add(a: &G2Point, b: &G2Point) -> (r: G2Point)
    ensures
        r.wf(),
        r@ == field_add(a@, b@),
{
    let x = bls12_381::G2Affine::from_compressed(&a.bytes).unwrap();
    let y = bls12_381::G2Affine::from_compressed(&b.bytes).unwrap();
    let total = bls12_381::G2Projective::from(x) + bls12_381::G2Projective::from(y);
    G2Point { bytes: bls12_381::G2Affine::from(total).to_compressed() }
}

/// `bls12_381::pairing`, called twice, and the equality of `bls12_381::Gt`:
/// whether the pairing of `p1` with `q1` equals that of `p2` with `q2`.
#[verifier::external_body]
pub(crate) fn pairings_agree(p1: &G1Point, q1: &G2Point, p2: &G1Point, q2: &G2Point) -> (r: bool)
    ensures
        r == (pairing(p1@, q1@) == pairing(p2@, q2@)),
{
    let a = bls12_381::G1Affine::from_compressed(&p1.bytes).unwrap();
    let b = bls12_381::G2Affine::from_compressed(&q1.bytes).unwrap();
    let c = bls12_381::G1Affine::from_compressed(&p2.bytes).unwrap();
    let d = bls12_381::G2Affine::from_compressed(&q2.bytes).unwrap();
    bls12_381::pairing(&a, &b) == bls12_381::pairing(&c, &d)
}

} // verus!
