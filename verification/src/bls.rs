//! BLS signatures: elements of G2 that a private key made of a message.

use vstd::prelude::*;
use crate::bytes::{read_32, read_96, write_at};
use crate::curve::{g1_generator, g2_add, g2_identity, g2_mul, is_g2_encoding, pairing,
    pairings_agree, G2Point};
use crate::field::{field_mul, le_value, modulus};
use crate::keys::{PrivateKey, PublicKey};
use crate::scalar::Scalar;
use crate::traits::ThresholdSignature;
use crate::utils::{interpolate_at_zero, lambda_coeff, values_of, weighted_sum};

verus! {

/// The outcome of a signature verification.
///
/// With a type of two variants the caller has to handle both cases of the
/// verification (valid and invalid), which prevents the silent failures
/// that a `bool` invites.
#[derive(Debug, PartialEq, Eq, Structural)]
pub enum VerificationResult {
    Valid,
    Invalid,
}

impl From<bool> for VerificationResult {
    fn from(result: bool) -> (r: Self) {
        if result {
            VerificationResult::Valid
        } else {
            VerificationResult::Invalid
        }
    }
}

impl vstd::std_specs::convert::FromSpecImpl<bool> for VerificationResult {
    open spec fn obeys_from_spec() -> bool {
        true
    }

    open spec fn from_spec(v: bool) -> Self {
        if v {
            VerificationResult::Valid
        } else {
            VerificationResult::Invalid
        }
    }
}

/// The signature of the secret scalar `secret` on the message that is
/// `message` times the generator of G2: `secret` times the message.
pub open spec fn signature_point(secret: int, message: int) -> int {
    field_mul(message, secret)
}

/// The pairing equation of BLS: the pairing of the public key with the
/// message equals the pairing of the generator of G1 with the signature.
pub open spec fn verifies(public: int, message: int, signature: int) -> bool {
    pairing(public, message) == pairing(1, signature)
}

/// A `Signature` is an element of G2, with the identifier of the fragment
/// that made it where the signing key was a fragment of a split key.
#[derive(Debug, Eq, PartialEq, Copy, Clone)]
pub struct Signature {
    point: G2Point,
    id: Option<Scalar>,
}

impl Signature {
    /// The element of G2.
    pub closed spec fn element(self) -> G2Point {
        self.point
    }

    /// The identifier of the fragment, if the signature is one.
    pub closed spec fn id(self) -> Option<Scalar> {
        self.id
    }

    /// The multiple of the generator of G2 that the signature is.
    pub open spec fn point(self) -> int {
        self.element()@
    }

    /// The identifier of the fragment as a number, if the signature is one.
    pub open spec fn index(self) -> Option<int> {
        match self.id() {
            Some(i) => Some(i@),
            None => None,
        }
    }

    /// The element is one of G2 and the identifier, where there is one, a
    /// canonical scalar.
    #[verifier::type_invariant]
    pub open spec fn wf(self) -> bool {
        self.element().wf() && (self.id() matches Some(i) ==> i.wf())
    }

    /// The serialized form: the compressed element, followed by the
    /// identifier in a fragment.
    pub open spec fn encoding(self) -> Seq<u8> {
        match self.id() {
            Some(i) => self.element().encoding() + i.encoding(),
            None => self.element().encoding(),
        }
    }

    /// The length of the serialized form: 96 bytes, or 128 in a fragment.
    pub open spec fn encoded_len(self) -> nat {
        if self.id() is Some {
            128
        } else {
            96
        }
    }

    /// Whether `bytes` are the serialized form of a signature.
    pub open spec fn decodable(bytes: Seq<u8>) -> bool {
        &&& bytes.len() == 96 || bytes.len() == 128
        &&& is_g2_encoding(bytes.subrange(0, 96))
        &&& bytes.len() == 128 ==> le_value(bytes.subrange(96, 128)) < modulus()
    }

    /// The signature that `bytes` are the serialized form of.
    pub open spec fn decoded(bytes: Seq<u8>) -> Signature {
        choose|s: Signature| s.wf() && s.encoding() == bytes
    }

    /// A signature is determined by its serialized form.
    pub proof fn lemma_encoding_injective(self, other: Signature)
        requires
            self.wf(),
            other.wf(),
            self.encoding() == other.encoding(),
        ensures
            self == other,
    {
        let a = self.point.encoding();
        let b = other.point.encoding();
        assert(a.len() == 96 && b.len() == 96);
        assert(a =~= self.encoding().subrange(0, 96));
        assert(b =~= other.encoding().subrange(0, 96));
        self.point.lemma_same_value(other.point);
        match (self.id, other.id) {
            (Some(i), Some(j)) => {
                assert(i.encoding() =~= self.encoding().subrange(96, 128));
                assert(j.encoding() =~= other.encoding().subrange(96, 128));
                i.lemma_same_value(j);
            },
            (None, None) => {},
            (Some(i), None) => {
                assert(self.encoding().len() == 128);
            },
            (None, Some(j)) => {
                assert(other.encoding().len() == 128);
            },
        }
    }

    /// Serialization round trip: the serialized form of a signature has 96
    /// bytes, or 128 in a fragment, and the signature is what it
    /// deserializes to.
    pub proof fn lemma_round_trip(self)
        requires
            self.wf(),
        ensures
            self.encoding().len() == self.encoded_len(),
            Signature::decodable(self.encoding()),
            Signature::decoded(self.encoding()) == self,
    {
        let bytes = self.encoding();
        assert(bytes.subrange(0, 96) =~= self.point.encoding());
        match self.id {
            Some(i) => {
                assert(bytes.subrange(96, 128) =~= i.encoding());
            },
            None => {},
        }
        self.lemma_encoding_injective(Signature::decoded(bytes));
    }

    /// A signature is determined by the element that it is and by its
    /// identifier.
    pub proof fn lemma_same_value(self, other: Signature)
        requires
            self.wf(),
            other.wf(),
            self.point() == other.point(),
            self.index() == other.index(),
        ensures
            self == other,
    {
        self.point.lemma_same_value(other.point);
        match (self.id, other.id) {
            (Some(i), Some(j)) => {
                i.lemma_same_value(j);
            },
            _ => {},
        }
    }

    /// Creates a `Signature` by signing the `message_element` with the
    /// `private_key`: the message multiplied by the secret scalar. A
    /// fragment of a key makes a fragment of a signature.
    ///
    /// The preferred API to sign messages is `PrivateKey::sign`.
    pub fn new(private_key: &PrivateKey, message_element: &G2Point) -> (signature: Signature)
        ensures
            signature.wf(),
            signature.point() == signature_point(private_key.secret(), message_element@),
            signature.index() == private_key.index(),
    {
        let point = g2_mul(message_element, &private_key.scalar_part());
        let id = private_key.id_part();
        Signature { point, id }
    }

    /// Verifies the signature for a `message_element` and a `public_key`:
    /// `Valid` where the pairing of the public key with the message equals
    /// the pairing of the generator of G1 with the signature, `Invalid`
    /// where it does not.
    ///
    /// The preferred API to verify signatures is `PublicKey::verify`.
    pub fn verify(&self, public_key: &PublicKey, message_element: &G2Point) -> (result:
        VerificationResult)
        ensures
            result == (if verifies(public_key@, message_element@, self.point()) {
                VerificationResult::Valid
            } else {
                VerificationResult::Invalid
            }),
    {
        let generator = g1_generator();
        let equal = pairings_agree(
            &public_key.element_part(),
            message_element,
            &generator,
            &self.point,
        );
        VerificationResult::from(equal)
    }

    /// Serializes the `Signature` by filling the start of a buffer passed as
    /// an argument: 96 bytes where the signature is no fragment of a
    /// threshold signature, 128 bytes where it is one, the last 32 being its
    /// identifier. The rest of the buffer stays as it was.
    pub fn to_bytes(&self, buff: &mut [u8])
        requires
            old(buff)@.len() >= self.encoded_len(),
        ensures
            final(buff)@.len() == old(buff)@.len(),
            self.encoding().len() == self.encoded_len(),
            final(buff)@.subrange(0, self.encoded_len() as int) == self.encoding(),
            final(buff)@.subrange(self.encoded_len() as int, old(buff)@.len() as int) == old(
                buff,
            )@.subrange(self.encoded_len() as int, old(buff)@.len() as int),
    {
        proof {
            use_type_invariant(self);
        }
        let point_bytes = self.point.to_compressed();
        write_at(buff, 0, point_bytes.as_slice());
        match self.id {
            Some(fragment_index) => {
                let index_bytes = fragment_index.to_bytes();
                write_at(buff, 96, index_bytes.as_slice());
                assert(buff@.subrange(0, 128) =~= self.encoding());
                assert(buff@.subrange(128, old(buff)@.len() as int) =~= old(buff)@.subrange(
                    128,
                    old(buff)@.len() as int,
                ));
            },
            None => {
                assert(buff@.subrange(96, old(buff)@.len() as int) =~= old(buff)@.subrange(
                    96,
                    old(buff)@.len() as int,
                ));
            },
        }
    }

    /// Deserializes a `Signature` from its 96 bytes, or from the 128 bytes
    /// of a fragment of a threshold signature.
    pub fn from_bytes(bytes: &[u8]) -> (signature: Signature)
        requires
            Signature::decodable(bytes@),
        ensures
            signature.wf(),
            signature.encoding() == bytes@,
            signature == Signature::decoded(bytes@),
            signature.index() is Some <==> bytes@.len() == 128,
    {
        let point_bytes = read_96(bytes);
        let fragment_index: Option<Scalar> = if bytes.len() == 96 {
            None
        } else {
            let index_bytes = read_32(bytes, 96);
            Some(Scalar::from_bytes(&index_bytes).unwrap())
        };
        let point = G2Point::from_compressed(&point_bytes).unwrap();
        let signature = Signature { point, id: fragment_index };
        proof {
            if bytes@.len() == 96 {
                assert(bytes@.subrange(0, 96) =~= bytes@);
            } else {
                assert(bytes@.subrange(0, 96) + bytes@.subrange(96, 128) =~= bytes@);
            }
            signature.lemma_encoding_injective(Signature::decoded(bytes@));
        }
        signature
    }

    /// Deserializes a `Signature`; `None` where the bytes are not the
    /// serialized form of one.
    pub fn try_from_bytes(bytes: &[u8]) -> (r: Option<Signature>)
        ensures
            r is Some <==> Signature::decodable(bytes@),
            r is Some ==> r->0 == Signature::decoded(bytes@) && r->0.wf() && r->0.encoding()
                == bytes@,
    {
        let n: usize = bytes.len();
        if n != 96 && n != 128 {
            return None;
        }
        let point_bytes = read_96(bytes);
        if G2Point::from_compressed(&point_bytes).is_none() {
            return None;
        }
        if n == 128 {
            let index_bytes = read_32(bytes, 96);
            if Scalar::from_bytes(&index_bytes).is_none() {
                return None;
            }
        }
        Some(Signature::from_bytes(bytes))
    }

    /// The element of G2.
    pub(crate) fn element_part(&self) -> (r: G2Point)
        ensures
            r == self.element(),
            r.wf(),
    {
        proof {
            use_type_invariant(self);
        }
        self.point
    }
}

/// The identifiers of signatures that are fragments.
pub open spec fn signature_indices(fragments: Seq<Signature>) -> Seq<int> {
    fragments.map_values(|f: Signature| f.index()->0)
}

/// The elements of signatures, as multiples of the generator of G2.
pub open spec fn signature_points(fragments: Seq<Signature>) -> Seq<int> {
    fragments.map_values(|f: Signature| f.point())
}

/// Threshold BLS signatures: of a key split by Shamir's Secret Sharing into
/// `n` fragments, `m` of which recover it, `m` fragments' signatures of the
/// same message assemble to the signature of the whole key.
impl ThresholdSignature for Signature {
    open spec fn fragment(&self) -> bool {
        self.index() is Some
    }

    /// Assembles a `Signature` from signature `fragments`, by Lagrange
    /// interpolation at zero over their identifiers. At most 256 fragments
    /// are taken.
    ///
    /// The message signed by each of the fragments must be the same, or else
    /// the assembled `Signature` is invalid.
    fn assemble(fragments: &[Signature]) -> (signature: Signature)
        ensures
            signature.wf(),
            signature.index() is None,
            signature.point() == interpolate_at_zero(
                signature_indices(fragments@),
                signature_points(fragments@),
            ),
    {
        let ghost indices = signature_indices(fragments@);
        let ghost points = signature_points(fragments@);
        let n: usize = fragments.len();
        // First, the identifiers of the fragments.
        let mut fragment_indices: Vec<Scalar> = Vec::with_capacity(n);
        let mut i: usize = 0;
        while i < n
            invariant
                n == fragments@.len(),
                i <= n,
                fragment_indices@.len() == i,
                forall|k: int| 0 <= k < n ==> (#[trigger] fragments@[k]).fragment(),
                forall|k: int|
                    0 <= k < i ==> Some((#[trigger] fragment_indices@[k])@) == fragments@[k].index(),
            decreases n - i,
        {
            let fragment: Signature = fragments[i];
            fragment_indices.push(fragment.id.unwrap());
            i = i + 1;
        }
        assert(values_of(fragment_indices@) =~= indices);
        // Then the Lagrange coefficients weight the fragments.
        let mut result: G2Point = g2_identity();
        let mut k: usize = 0;
        while k < n
            invariant
                n == fragments@.len(),
                k <= n,
                fragment_indices@.len() == n,
                values_of(fragment_indices@) == indices,
                indices == signature_indices(fragments@),
                points == signature_points(fragments@),
                result.wf(),
                result@ == weighted_sum(indices, points, k as nat),
            decreases n - k,
        {
            let fragment: Signature = fragments[k];
            let index: Scalar = fragment_indices[k];
            let coeff: Scalar = lambda_coeff(&index, fragment_indices.as_slice());
            let term: G2Point = g2_mul(&fragment.point, &coeff);
            result = g2_add(&result, &term);
            proof {
                assert(indices[k as int] == index@);
                assert(points[k as int] == fragment.point@);
                assert(fragment.point@ * coeff@ == coeff@ * fragment.point@) by (nonlinear_arith);
            }
            k = k + 1;
        }
        Signature { point: result, id: None }
    }

    /// Whether this is a fragment of a threshold signature.
    fn is_fragment(&self) -> (b: bool) {
        match self.id {
            Some(_) => true,
            None => false,
        }
    }
}

} // verus!
