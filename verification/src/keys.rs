//! Private and public keys: generation, derivation, serialization, Shamir's
//! Secret Sharing of a private key, and the keys of proxy re-signatures.

use sha2::Digest;
use vstd::prelude::*;
use crate::bls::{signature_point, Signature, VerificationResult};
use crate::bytes::{read_32, write_at};
use crate::curve::{g1_generator, g1_mul, g1_to_uncompressed, g1_uncompressed, is_g1_encoding,
    G1Point, G2Point};
use crate::field::{field_inv, field_mul, le_value, lemma_inverse_unique, modulus};
use crate::scalar::{inverse, product, reduce_wide, same, sum, zero, Scalar};
use crate::traits::ThresholdKey;
use crate::utils::{interpolate_at_zero, lambda_coeff, poly_eval, poly_value, values_of,
    weighted_sum};

verus! {

/// The SHA-512 digest of `data`.
pub uninterp spec fn sha512_digest(data: Seq<u8>) -> Seq<u8>;

/// `sha2::Sha512::digest`: the SHA-512 digest of the bytes, which has 64
/// bytes.
#[verifier::external_body]
fn sha512(data: &[u8; 96]) -> (digest: [u8; 64])
    ensures
        digest@ == sha512_digest(data@),
{
    let mut digest = [0u8; 64];
    digest.copy_from_slice(sha2::Sha512::digest(data).as_slice());
    digest
}

/// `getrandom::getrandom`: 64 bytes from the operating system's source of
/// entropy. Nothing is known of them. Where the source fails, this is fatal.
#[verifier::external_body]
fn entropy() -> (bytes: [u8; 64]) {
    let mut bytes = [0u8; 64];
    getrandom::getrandom(&mut bytes).expect("Error while generating a random key");
    bytes
}

/// The secret scalar of the key that the holder of `secret` designates for
/// the holder of the public key `other`: the SHA-512 digest of their
/// Diffie-Hellman element in uncompressed encoding, reduced to a scalar.
pub open spec fn designated_secret(secret: int, other: int) -> int {
    le_value(sha512_digest(g1_uncompressed(field_mul(other, secret)))) as int % modulus()
}

/// The secret scalar of the key that turns signatures under the key
/// designated for `other` into signatures of `secret`.
pub open spec fn resigning_secret(secret: int, other: int) -> int {
    field_mul(secret, field_inv(designated_secret(secret, other)))
}

/// Whether every one of `fragments` is a share of the polynomial with the
/// coefficients `coeffs`: its scalar is the polynomial's value at its
/// identifier.
pub open spec fn shares_of(coeffs: Seq<int>, fragments: Seq<PrivateKey>) -> bool {
    forall|k: int|
        0 <= k < fragments.len() ==> (#[trigger] fragments[k]).index() is Some
            && fragments[k].secret() == poly_value(coeffs, fragments[k].index()->0)
}

/// The identifiers of keys that are fragments.
pub open spec fn share_indices(fragments: Seq<PrivateKey>) -> Seq<int> {
    fragments.map_values(|f: PrivateKey| f.index()->0)
}

/// The secret scalars of keys.
pub open spec fn share_values(fragments: Seq<PrivateKey>) -> Seq<int> {
    fragments.map_values(|f: PrivateKey| f.secret())
}

/// A `PublicKey` is an element of G1: the generator multiplied by the secret
/// scalar of the private key.
#[derive(Debug, Eq, PartialEq, Clone, Copy)]
pub struct PublicKey {
    point: G1Point,
}

/// A `PrivateKey` is a scalar, with the identifier of the fragment where the
/// key is a fragment of a split key.
#[derive(Debug, Eq, PartialEq, Clone, Copy)]
pub struct PrivateKey {
    scalar: Scalar,
    id: Option<Scalar>,
}

impl PrivateKey {
    /// The secret scalar.
    pub closed spec fn scalar(self) -> Scalar {
        self.scalar
    }

    /// The identifier of the fragment, if the key is one.
    pub closed spec fn id(self) -> Option<Scalar> {
        self.id
    }

    /// The secret scalar as a number.
    pub open spec fn secret(self) -> int {
        self.scalar()@
    }

    /// The identifier of the fragment as a number, if the key is one.
    pub open spec fn index(self) -> Option<int> {
        match self.id() {
            Some(i) => Some(i@),
            None => None,
        }
    }

    /// The secret scalar is canonical, and so is the identifier where there
    /// is one.
    #[verifier::type_invariant]
    pub open spec fn wf(self) -> bool {
        self.scalar().wf() && (self.id() matches Some(i) ==> i.wf())
    }

    /// The serialized form: the secret scalar, followed by the identifier in
    /// a fragment, each in its little-endian encoding of 32 bytes.
    pub open spec fn encoding(self) -> Seq<u8> {
        match self.id() {
            Some(i) => self.scalar().encoding() + i.encoding(),
            None => self.scalar().encoding(),
        }
    }

    /// The length of the serialized form: 32 bytes, or 64 in a fragment.
    pub open spec fn encoded_len(self) -> nat {
        if self.id() is Some {
            64
        } else {
            32
        }
    }

    /// Whether `bytes` are the serialized form of a private key.
    pub open spec fn decodable(bytes: Seq<u8>) -> bool {
        &&& bytes.len() == 32 || bytes.len() == 64
        &&& le_value(bytes.subrange(0, 32)) < modulus()
        &&& bytes.len() == 64 ==> le_value(bytes.subrange(32, 64)) < modulus()
    }

    /// The private key that `bytes` are the serialized form of.
    pub open spec fn decoded(bytes: Seq<u8>) -> PrivateKey {
        choose|k: PrivateKey| k.wf() && k.encoding() == bytes
    }

    /// The public key of the private key: the generator of G1 multiplied by
    /// the secret scalar.
    pub open spec fn derived_public_key(self) -> PublicKey {
        choose|pk: PublicKey| pk.wf() && pk@ == self.secret()
    }

    /// A private key is determined by its serialized form.
    pub proof fn lemma_encoding_injective(self, other: PrivateKey)
        requires
            self.wf(),
            other.wf(),
            self.encoding() == other.encoding(),
        ensures
            self == other,
    {
        let a = self.scalar.encoding();
        let b = other.scalar.encoding();
        assert(a =~= self.encoding().subrange(0, 32));
        assert(b =~= other.encoding().subrange(0, 32));
        self.scalar.lemma_same_value(other.scalar);
        match (self.id, other.id) {
            (Some(i), Some(j)) => {
                assert(i.encoding() =~= self.encoding().subrange(32, 64));
                assert(j.encoding() =~= other.encoding().subrange(32, 64));
                i.lemma_same_value(j);
            },
            (None, None) => {},
            (Some(i), None) => {
                assert(self.encoding().len() == 64);
            },
            (None, Some(j)) => {
                assert(other.encoding().len() == 64);
            },
        }
    }

    /// Serialization round trip: the serialized form of a private key has
    /// 32 bytes, or 64 in a fragment, and the key is what it deserializes
    /// to.
    pub proof fn lemma_round_trip(self)
        requires
            self.wf(),
        ensures
            self.encoding().len() == self.encoded_len(),
            PrivateKey::decodable(self.encoding()),
            PrivateKey::decoded(self.encoding()) == self,
    {
        let bytes = self.encoding();
        assert(bytes.subrange(0, 32) =~= self.scalar.encoding());
        match self.id {
            Some(i) => {
                assert(bytes.subrange(32, 64) =~= i.encoding());
            },
            None => {},
        }
        self.lemma_encoding_injective(PrivateKey::decoded(bytes));
    }

    /// A private key is determined by its secret scalar and its identifier.
    pub proof fn lemma_same_value(self, other: PrivateKey)
        requires
            self.wf(),
            other.wf(),
            self.secret() == other.secret(),
            self.index() == other.index(),
        ensures
            self == other,
    {
        self.scalar.lemma_same_value(other.scalar);
        match (self.id, other.id) {
            (Some(i), Some(j)) => {
                i.lemma_same_value(j);
            },
            _ => {},
        }
    }

    /// Generates a random private key: 64 bytes of the operating system's
    /// entropy, reduced to a scalar.
    pub fn random() -> (key: PrivateKey)
        ensures
            key.wf(),
            key.index() is None,
    {
        let key_bytes = entropy();
        PrivateKey::from_bytes_wide(&key_bytes)
    }

    /// The private key whose secret scalar is the 512-bit little-endian
    /// number `bytes`, reduced modulo the group order.
    pub fn from_bytes_wide(bytes: &[u8; 64]) -> (key: PrivateKey)
        ensures
            key.wf(),
            key.secret() == le_value(bytes@) as int % modulus(),
            key.index() is None,
    {
        PrivateKey { scalar: reduce_wide(bytes), id: None }
    }

    /// Returns the corresponding `PublicKey` of the `PrivateKey`.
    pub fn public_key(&self) -> (public_key: PublicKey)
        ensures
            public_key.wf(),
            public_key@ == self.secret(),
            public_key == self.derived_public_key(),
    {
        proof {
            use_type_invariant(self);
        }
        let generator = g1_generator();
        let public_key = PublicKey { point: g1_mul(&generator, &self.scalar) };
        proof {
            assert(1 * self.secret() == self.secret());
            public_key.lemma_same_value(self.derived_public_key());
        }
        public_key
    }

    /// Signs a `message_element` and returns a `Signature`: the message
    /// multiplied by the secret scalar. A fragment of a key makes a fragment
    /// of a signature.
    pub fn sign(&self, message_element: &G2Point) -> (signature: Signature)
        ensures
            signature.wf(),
            signature.point() == signature_point(self.secret(), message_element@),
            signature.index() == self.index(),
    {
        Signature::new(self, message_element)
    }

    /// Serializes the `PrivateKey` by filling the start of a buffer passed
    /// as an argument: 32 bytes where the key is no fragment of a split key,
    /// 64 bytes where it is one, the last 32 being its identifier. The rest
    /// of the buffer stays as it was.
    pub fn to_bytes(&self, buff: &mut [u8])
        requires
            old(buff)@.len() >= self.encoded_len(),
        ensures
            final(buff)@.len() == old(buff)@.len(),
            self.encoding().len() == self.encoded_len(),
            final(buff)@.subrange(0, self.encoded_len() as int) == self.encoding(),
            final(buff)@.subrange(self.encoded_len() as int, old(buff)@.len() as int) == old(
                buff,
            )@.subrange(self.encoded_len() as int, old(buff)@.len() as int),
    {
        proof {
            use_type_invariant(self);
        }
        let scalar_bytes = self.scalar.to_bytes();
        write_at(buff, 0, scalar_bytes.as_slice());
        match self.id {
            Some(fragment_index) => {
                let index_bytes = fragment_index.to_bytes();
                write_at(buff, 32, index_bytes.as_slice());
                assert(buff@.subrange(0, 64) =~= self.encoding());
                assert(buff@.subrange(64, old(buff)@.len() as int) =~= old(buff)@.subrange(
                    64,
                    old(buff)@.len() as int,
                ));
            },
            None => {
                assert(buff@.subrange(32, old(buff)@.len() as int) =~= old(buff)@.subrange(
                    32,
                    old(buff)@.len() as int,
                ));
            },
        }
    }

    /// Deserializes a `PrivateKey` from its 32 bytes, or from the 64 bytes
    /// of a fragment of a split key.
    pub fn from_bytes(bytes: &[u8]) -> (key: PrivateKey)
        requires
            PrivateKey::decodable(bytes@),
        ensures
            key.wf(),
            key.encoding() == bytes@,
            key == PrivateKey::decoded(bytes@),
            key.index() is Some <==> bytes@.len() == 64,
    {
        let scalar_bytes = read_32(bytes, 0);
        let fragment_index: Option<Scalar> = if bytes.len() == 32 {
            None
        } else {
            let index_bytes = read_32(bytes, 32);
            Some(Scalar::from_bytes(&index_bytes).unwrap())
        };
        let scalar = Scalar::from_bytes(&scalar_bytes).unwrap();
        let key = PrivateKey { scalar, id: fragment_index };
        proof {
            if bytes@.len() == 32 {
                assert(bytes@.subrange(0, 32) =~= bytes@);
            } else {
                assert(bytes@.subrange(0, 32) + bytes@.subrange(32, 64) =~= bytes@);
            }
            key.lemma_encoding_injective(PrivateKey::decoded(bytes@));
        }
        key
    }

    /// Deserializes a `PrivateKey`; `None` where the bytes are not the
    /// serialized form of one.
    pub fn try_from_bytes(bytes: &[u8]) -> (r: Option<PrivateKey>)
        ensures
            r is Some <==> PrivateKey::decodable(bytes@),
            r is Some ==> r->0 == PrivateKey::decoded(bytes@) && r->0.wf() && r->0.encoding()
                == bytes@,
    {
        let n: usize = bytes.len();
        if n != 32 && n != 64 {
            return None;
        }
        let scalar_bytes = read_32(bytes, 0);
        if Scalar::from_bytes(&scalar_bytes).is_none() {
            return None;
        }
        if n == 64 {
            let index_bytes = read_32(bytes, 32);
            if Scalar::from_bytes(&index_bytes).is_none() {
                return None;
            }
        }
        Some(PrivateKey::from_bytes(bytes))
    }

    /// The fragment with the identifier `index` of the polynomial with the
    /// coefficients `coeffs`, the constant term first: its scalar is the
    /// value of the polynomial at `index`.
    pub fn fragment_at(coeffs: &[Scalar], index: &Scalar) -> (fragment: PrivateKey)
        requires
            coeffs@.len() > 0,
        ensures
            fragment.wf(),
            fragment.secret() == poly_value(values_of(coeffs@), index@),
            fragment.index() == Some(index@),
    {
        proof {
            use_type_invariant(index);
        }
        PrivateKey { scalar: poly_eval(coeffs, index), id: Some(*index) }
    }

    /// The key that `self` designates for the holder of `alice_pubkey`, as
    /// a Diffie-Hellman between the two: the SHA-512 digest of the shared
    /// element of G1 in uncompressed encoding, reduced to a scalar.
    pub fn designated_key(&self, alice_pubkey: &PublicKey) -> (key: PrivateKey)
        ensures
            key.wf(),
            key.secret() == designated_secret(self.secret(), alice_pubkey@),
            key.index() is None,
    {
        let shared = g1_mul(&alice_pubkey.point, &self.scalar);
        let encoded = g1_to_uncompressed(&shared);
        let digest = sha512(&encoded);
        PrivateKey::from_bytes_wide(&digest)
    }

    /// The re-signing key from the key that the holder of `bob_pubkey`
    /// designates for `self` to the key `self`: the secret scalar divided by
    /// that of the designated key.
    pub fn resigning_key(&self, bob_pubkey: &PublicKey) -> (key: PrivateKey)
        requires
            designated_secret(self.secret(), bob_pubkey@) != 0,
        ensures
            key.wf(),
            key.secret() == resigning_secret(self.secret(), bob_pubkey@),
            key.index() is None,
    {
        let phi_b = self.designated_key(bob_pubkey).scalar;
        let phi_inverse = inverse(&phi_b);
        proof {
            lemma_inverse_unique(phi_b@, phi_inverse@);
        }
        PrivateKey { scalar: product(&self.scalar, &phi_inverse), id: None }
    }

    /// The re-signing key as `resigning_key` gives it; `None` where the
    /// secret scalar of the designated key is zero, which has no inverse.
    pub fn checked_resigning_key(&self, bob_pubkey: &PublicKey) -> (r: Option<PrivateKey>)
        ensures
            r is Some <==> designated_secret(self.secret(), bob_pubkey@) != 0,
            r is Some ==> r->0.wf() && r->0.secret() == resigning_secret(
                self.secret(),
                bob_pubkey@,
            ) && r->0.index() is None,
    {
        let phi_b = self.designated_key(bob_pubkey).scalar;
        let nothing = zero();
        if same(&phi_b, &nothing) {
            None
        } else {
            Some(self.resigning_key(bob_pubkey))
        }
    }

    /// Re-signs a `Signature`: the signature multiplied by the secret
    /// scalar. A signature under the key designated for the holder of a
    /// re-signing key becomes the signature of that holder's own key.
    pub fn resign(&self, signature: &Signature) -> (resigned: Signature)
        ensures
            resigned.wf(),
            resigned.point() == signature_point(self.secret(), signature.point()),
            resigned.index() == self.index(),
    {
        Signature::new(self, &signature.element_part())
    }

    /// The secret scalar.
    pub(crate) fn scalar_part(&self) -> (r: Scalar)
        ensures
            r == self.scalar(),
            r.wf(),
    {
        proof {
            use_type_invariant(self);
        }
        self.scalar
    }

    /// The identifier of the fragment, if the key is one.
    pub(crate) fn id_part(&self) -> (r: Option<Scalar>)
        ensures
            r == self.id(),
            r matches Some(i) ==> i.wf(),
    {
        proof {
            use_type_invariant(self);
        }
        self.id
    }
}

impl View for PublicKey {
    type V = int;

    /// The multiple of the generator of G1 that the key is.
    open spec fn view(&self) -> int {
        self.element()@
    }
}

impl PublicKey {
    /// The element of G1.
    pub closed spec fn element(self) -> G1Point {
        self.point
    }

    /// The element is one of G1.
    #[verifier::type_invariant]
    pub open spec fn wf(self) -> bool {
        self.element().wf()
    }

    /// The serialized form: the compressed encoding of 48 bytes.
    pub open spec fn encoding(self) -> Seq<u8> {
        self.element().encoding()
    }

    /// The public key that `bytes` are the serialized form of.
    pub open spec fn decoded(bytes: Seq<u8>) -> PublicKey {
        choose|k: PublicKey| k.wf() && k.encoding() == bytes
    }

    /// Serialization round trip: the serialized form of a public key has 48
    /// bytes, and the key is what it deserializes to.
    pub proof fn lemma_round_trip(self)
        requires
            self.wf(),
        ensures
            self.encoding().len() == 48,
            is_g1_encoding(self.encoding()),
            PublicKey::decoded(self.encoding()) == self,
    {
        self.lemma_same_value(PublicKey::decoded(self.encoding()));
    }

    /// A public key is determined by the multiple of the generator that it
    /// is.
    pub proof fn lemma_same_value(self, other: PublicKey)
        requires
            self.wf(),
            other.wf(),
            self@ == other@,
        ensures
            self == other,
    {
        self.point.lemma_same_value(other.point);
    }

    /// Verifies a `signature` of a `message_element`: `Valid` where the
    /// pairing of the public key with the message equals the pairing of the
    /// generator of G1 with the signature, `Invalid` where it does not.
    pub fn verify(&self, message_element: &G2Point, signature: &Signature) -> (result:
        VerificationResult)
        ensures
            result == (if crate::bls::verifies(self@, message_element@, signature.point()) {
                VerificationResult::Valid
            } else {
                VerificationResult::Invalid
            }),
    {
        signature.verify(self, message_element)
    }

    /// Serializes the `PublicKey` to an array of 48 bytes.
    pub fn to_bytes(&self) -> (bytes: [u8; 48])
        ensures
            bytes@ == self.encoding(),
    {
        self.point.to_compressed()
    }

    /// Deserializes a `PublicKey` from its 48 bytes.
    pub fn from_bytes(bytes: &[u8; 48]) -> (key: PublicKey)
        requires
            is_g1_encoding(bytes@),
        ensures
            key.wf(),
            key.encoding() == bytes@,
            key == PublicKey::decoded(bytes@),
    {
        let key = PublicKey { point: G1Point::from_compressed(bytes).unwrap() };
        proof {
            key.lemma_same_value(PublicKey::decoded(bytes@));
        }
        key
    }

    /// Deserializes a `PublicKey`; `None` where the bytes are not the
    /// compressed encoding of an element of G1.
    pub fn try_from_bytes(bytes: &[u8; 48]) -> (r: Option<PublicKey>)
        ensures
            r is Some <==> is_g1_encoding(bytes@),
            r is Some ==> r->0 == PublicKey::decoded(bytes@) && r->0.wf() && r->0.encoding()
                == bytes@,
    {
        if G1Point::from_compressed(bytes).is_none() {
            None
        } else {
            Some(PublicKey::from_bytes(bytes))
        }
    }

    /// The element of G1.
    pub(crate) fn element_part(&self) -> (r: G1Point)
        ensures
            r == self.element(),
            r.wf(),
    {
        proof {
            use_type_invariant(self);
        }
        self.point
    }
}

/// A `PublicKey` can be had from the corresponding `PrivateKey` by
/// `std::convert::From`.
impl From<PrivateKey> for PublicKey {
    fn from(priv_key: PrivateKey) -> (r: Self) {
        priv_key.public_key()
    }
}

impl vstd::std_specs::convert::FromSpecImpl<PrivateKey> for PublicKey {
    open spec fn obeys_from_spec() -> bool {
        true
    }

    open spec fn from_spec(v: PrivateKey) -> Self {
        v.derived_public_key()
    }
}

/// Shamir's Secret Sharing (SSS) on `PrivateKey` for use in threshold BLS
/// signatures.
///
/// SSS has the property of "perfect secrecy": who holds `m-1` shares of a
/// split key knows as much of it as who holds none. The fragments are used
/// as separate, independent private keys in threshold protocols.
impl ThresholdKey for PrivateKey {
    open spec fn fragment(&self) -> bool {
        self.index() is Some
    }

    /// Splits the private key into `n` fragments by Shamir's Secret Sharing:
    /// the fragments are shares of a random polynomial of `m` coefficients
    /// whose constant term is the secret scalar, at random identifiers.
    ///
    /// `m` is the threshold, the number of fragments that re-assemble the
    /// key. A key is split into at most 256 fragments.
    fn split(&self, m: usize, n: usize) -> (fragments: Vec<PrivateKey>)
        ensures
            forall|k: int| 0 <= k < n ==> (#[trigger] fragments@[k]).wf(),
            exists|coeffs: Seq<int>|
                coeffs.len() == m && coeffs[0] == self.secret() && #[trigger] shares_of(
                    coeffs,
                    fragments@,
                ),
    {
        proof {
            use_type_invariant(self);
        }
        // First, `m-1` random coefficients of the polynomial, after the
        // secret, which is its constant term.
        let mut coeffs: Vec<Scalar> = Vec::with_capacity(m);
        coeffs.push(self.scalar);
        let mut i: usize = 1;
        while i < m
            invariant
                1 <= i <= m,
                coeffs@.len() == i,
                coeffs@[0] == self.scalar(),
            decreases m - i,
        {
            coeffs.push(PrivateKey::random().scalar);
            i = i + 1;
        }
        // Then the polynomial is evaluated by Horner's method at `n` random
        // identifiers.
        let ghost values = values_of(coeffs@);
        let mut fragments: Vec<PrivateKey> = Vec::with_capacity(n);
        let mut k: usize = 0;
        while k < n
            invariant
                k <= n,
                coeffs@.len() == m,
                m >= 1,
                values == values_of(coeffs@),
                fragments@.len() == k,
                forall|j: int| 0 <= j < k ==> (#[trigger] fragments@[j]).wf(),
                forall|j: int| 0 <= j < k ==> (#[trigger] fragments@[j]).fragment(),
                shares_of(values, fragments@),
            decreases n - k,
        {
            let fragment_index = PrivateKey::random().scalar;
            let fragment = PrivateKey::fragment_at(coeffs.as_slice(), &fragment_index);
            fragments.push(fragment);
            k = k + 1;
        }
        assert(values.len() == m && values[0] == self.secret());
        fragments
    }

    /// Recovers a `PrivateKey` from the `fragments` by Lagrange
    /// interpolation at zero over their identifiers. At most 256 fragments
    /// are taken.
    ///
    /// With the threshold number of fragments of one split key (the `m` of
    /// `split`), the key that was split comes back. With fewer, or with
    /// fragments that do not belong together, another key comes back and
    /// nothing tells.
    fn recover(fragments: &[PrivateKey]) -> (key: PrivateKey)
        ensures
            key.wf(),
            key.index() is None,
            key.secret() == interpolate_at_zero(
                share_indices(fragments@),
                share_values(fragments@),
            ),
    {
        let ghost indices = share_indices(fragments@);
        let ghost shares = share_values(fragments@);
        let n: usize = fragments.len();
        // First, the identifiers of the fragments.
        let mut fragment_indices: Vec<Scalar> = Vec::with_capacity(n);
        let mut i: usize = 0;
        while i < n
            invariant
                n == fragments@.len(),
                i <= n,
                fragment_indices@.len() == i,
                forall|k: int| 0 <= k < n ==> (#[trigger] fragments@[k]).fragment(),
                forall|k: int|
                    0 <= k < i ==> Some((#[trigger] fragment_indices@[k])@) == fragments@[k].index(),
            decreases n - i,
        {
            let fragment: PrivateKey = fragments[i];
            fragment_indices.push(fragment.id.unwrap());
            i = i + 1;
        }
        assert(values_of(fragment_indices@) =~= indices);
        // Then the Lagrange coefficients weight the shares.
        let mut result: Scalar = zero();
        let mut k: usize = 0;
        while k < n
            invariant
                n == fragments@.len(),
                k <= n,
                fragment_indices@.len() == n,
                values_of(fragment_indices@) == indices,
                indices == share_indices(fragments@),
                shares == share_values(fragments@),
                result.wf(),
                result@ == weighted_sum(indices, shares, k as nat),
            decreases n - k,
        {
            let fragment: PrivateKey = fragments[k];
            let index: Scalar = fragment_indices[k];
            let coeff: Scalar = lambda_coeff(&index, fragment_indices.as_slice());
            let term: Scalar = product(&coeff, &fragment.scalar);
            result = sum(&result, &term);
            proof {
                assert(indices[k as int] == index@);
                assert(shares[k as int] == fragment.scalar@);
            }
            k = k + 1;
        }
        PrivateKey { scalar: result, id: None }
    }

    /// Whether this is a fragment of a key used for threshold signatures.
    fn is_fragment(&self) -> (b: bool) {
        match self.id {
            Some(_) => true,
            None => false,
        }
    }
}

} // verus!
