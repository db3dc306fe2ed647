//! What holds of the keys and signatures together: signatures verify,
//! fragments recover and assemble, re-signed signatures are the holder's
//! own.
//!
//! The group order is prime, so every scalar but zero has an inverse. Where
//! a theorem rests on such an inverse, it asks for it.

use vstd::prelude::*;
use crate::bls::{signature_indices, signature_point, signature_points, verifies, Signature};
use crate::curve::G2Point;
use crate::field::{field_inv, field_mul, invertible, is_inverse, lemma_canonical_reduced};
use crate::interpolation::{eqm, evals, independent, inverts, lemma_cancel, lemma_eqm_add,
    lemma_eqm_canonical, lemma_eqm_mul, lemma_eqm_refl, lemma_eqm_scale, lemma_eqm_sub,
    lemma_eqm_sym, lemma_eqm_trans, lemma_field_mul, lemma_interpolation, lemma_inverse_eqm,
    lemma_sum_step, lemma_weighted_sum_scaled};
use crate::keys::{designated_secret, resigning_secret, share_indices, share_values, shares_of,
    PrivateKey, PublicKey};
use crate::utils::{interpolate_at_zero, lagrange_coeff, poly_value, weighted_sum};

verus! {

/// The conversion of a private key into its public key is `public_key`.
pub proof fn lemma_conversion_is_public_key(key: PrivateKey)
    ensures
        <PublicKey as vstd::std_specs::convert::FromSpec<PrivateKey>>::from_spec(key)
            == key.derived_public_key(),
{
}

/// The signature that a private key makes of a message verifies under the
/// public key of that private key.
pub proof fn lemma_signature_verifies(
    key: PrivateKey,
    public_key: PublicKey,
    message: G2Point,
    signature: Signature,
)
    requires
        key.wf(),
        public_key@ == key.secret(),
        signature.point() == signature_point(key.secret(), message@),
    ensures
        verifies(public_key@, message@, signature.point()),
{
    let s = key.secret();
    let m = message@;
    lemma_field_mul(s, m);
    lemma_field_mul(m, s);
    lemma_field_mul(1, field_mul(m, s));
    assert(1 * field_mul(m, s) == field_mul(m, s));
    assert(s * m == m * s) by (nonlinear_arith);
    lemma_eqm_sym(field_mul(m, s), m * s);
    lemma_eqm_trans(field_mul(s, m), m * s, field_mul(m, s));
    lemma_eqm_sym(field_mul(1, field_mul(m, s)), field_mul(m, s));
    lemma_eqm_trans(field_mul(s, m), field_mul(m, s), field_mul(1, field_mul(m, s)));
    lemma_eqm_canonical(field_mul(s, m), field_mul(1, field_mul(m, s)));
}

/// The signature that a private key makes of a message does not verify for
/// another message, where the secret scalar has an inverse: it is not zero.
pub proof fn lemma_signature_binds_message(
    key: PrivateKey,
    public_key: PublicKey,
    message: G2Point,
    other: G2Point,
    signature: Signature,
)
    requires
        key.wf(),
        message.wf(),
        other.wf(),
        invertible(key.secret()),
        public_key@ == key.secret(),
        signature.point() == signature_point(key.secret(), message@),
        other != message,
    ensures
        !verifies(public_key@, other@, signature.point()),
{
    let s = key.secret();
    let m = message@;
    let o = other@;
    if verifies(public_key@, other@, signature.point()) {
        // s·o and s·m are congruent, so s·(o - m) is congruent to zero.
        lemma_field_mul(s, o);
        lemma_field_mul(m, s);
        lemma_field_mul(1, field_mul(m, s));
        assert(1 * field_mul(m, s) == field_mul(m, s));
        assert(m * s == s * m) by (nonlinear_arith);
        lemma_eqm_sym(field_mul(s, o), s * o);
        lemma_eqm_trans(s * o, field_mul(s, o), field_mul(m, s));
        lemma_eqm_trans(s * o, field_mul(m, s), s * m);
        lemma_eqm_refl(s * m);
        lemma_eqm_sub(s * o, s * m, s * m, s * m);
        assert(s * o - s * m == s * (o - m)) by (nonlinear_arith);
        assert(s * m - s * m == 0);
        let b = field_inv(s);
        assert(is_inverse(s, b));
        lemma_inverse_eqm(s, b);
        assert(inverts(s, b));
        lemma_cancel(s, o - m);
        lemma_eqm_refl(m);
        lemma_eqm_add(o - m, 0, m, m);
        lemma_eqm_canonical(o, m);
        other.lemma_same_value(message);
    }
}

/// Threshold correctness: fragments of a split key recover its secret
/// scalar. The fragments are shares of a polynomial whose constant term is
/// the secret scalar; they are at least as many as the polynomial has
/// coefficients, the threshold; and their identifiers are independent.
pub proof fn lemma_fragments_recover(key: PrivateKey, coeffs: Seq<int>, fragments: Seq<PrivateKey>)
    requires
        key.wf(),
        coeffs.len() >= 1,
        coeffs[0] == key.secret(),
        shares_of(coeffs, fragments),
        fragments.len() >= coeffs.len(),
        independent(share_indices(fragments)),
    ensures
        interpolate_at_zero(share_indices(fragments), share_values(fragments)) == key.secret(),
{
    let xs = share_indices(fragments);
    let ys = share_values(fragments);
    assert(ys =~= evals(coeffs, xs)) by {
        assert forall|k: int| 0 <= k < ys.len() implies ys[k] == evals(coeffs, xs)[k] by {
            assert(fragments[k].index() is Some);
        }
    }
    lemma_interpolation(xs, coeffs);
    assert(poly_value(coeffs.skip(1), 0) * 0 == 0);
    assert(0 * poly_value(coeffs.skip(1), 0) == 0);
    lemma_canonical_reduced(key.secret());
}

/// The key that is recovered from fragments of a split key is the key that
/// was split, where that key is no fragment itself. The fragments are as in
/// `lemma_fragments_recover`, and `recovered` is what `recover` gives for
/// them.
pub proof fn lemma_recovered_is_key(
    key: PrivateKey,
    coeffs: Seq<int>,
    fragments: Seq<PrivateKey>,
    recovered: PrivateKey,
)
    requires
        key.wf(),
        key.index() is None,
        coeffs.len() >= 1,
        coeffs[0] == key.secret(),
        shares_of(coeffs, fragments),
        fragments.len() >= coeffs.len(),
        independent(share_indices(fragments)),
        recovered.wf(),
        recovered.index() is None,
        recovered.secret() == interpolate_at_zero(
            share_indices(fragments),
            share_values(fragments),
        ),
    ensures
        recovered == key,
{
    lemma_fragments_recover(key, coeffs, fragments);
    recovered.lemma_same_value(key);
}

/// Threshold signature correctness: the signatures that fragments of a split
/// key make of one message assemble to the signature that the key makes of
/// it. The fragments are as in `lemma_fragments_recover`.
pub proof fn lemma_signatures_assemble(
    key: PrivateKey,
    coeffs: Seq<int>,
    fragments: Seq<PrivateKey>,
    message: G2Point,
    signatures: Seq<Signature>,
)
    requires
        key.wf(),
        coeffs.len() >= 1,
        coeffs[0] == key.secret(),
        shares_of(coeffs, fragments),
        fragments.len() >= coeffs.len(),
        independent(share_indices(fragments)),
        signatures.len() == fragments.len(),
        forall|k: int|
            0 <= k < fragments.len() ==> (#[trigger] signatures[k]).point() == signature_point(
                fragments[k].secret(),
                message@,
            ) && signatures[k].index() == fragments[k].index(),
    ensures
        interpolate_at_zero(signature_indices(signatures), signature_points(signatures))
            == signature_point(key.secret(), message@),
{
    let xs = share_indices(fragments);
    let ys = share_values(fragments);
    let zs = signature_points(signatures);
    let m = message@;
    let n = xs.len();
    assert(signature_indices(signatures) =~= xs) by {
        assert forall|k: int| 0 <= k < xs.len() implies signature_indices(signatures)[k]
            == xs[k] by {
            assert(signatures[k].index() == fragments[k].index());
        }
    }
    assert forall|k: int| 0 <= k < xs.len() implies eqm(#[trigger] zs[k], m * ys[k]) by {
        assert(signatures[k].point() == field_mul(m, fragments[k].secret()));
        lemma_field_mul(m, ys[k]);
    }
    lemma_weighted_sum_scaled(xs, ys, zs, m, n);
    lemma_fragments_recover(key, coeffs, fragments);
    let total = weighted_sum(xs, zs, n);
    lemma_field_mul(m, key.secret());
    lemma_eqm_sym(field_mul(m, key.secret()), m * key.secret());
    lemma_eqm_trans(total, m * key.secret(), field_mul(m, key.secret()));
    let l = lagrange_coeff(xs[n - 1], xs);
    lemma_sum_step(weighted_sum(xs, zs, (n - 1) as nat), l, zs[n - 1]);
    lemma_eqm_canonical(total, field_mul(m, key.secret()));
}

/// The signature that is assembled from the signatures that fragments of a
/// split key made of one message is the signature that the key makes of it,
/// byte for byte, where that key is no fragment itself. The fragments and
/// their signatures are as in `lemma_signatures_assemble`, `assembled` is
/// what `assemble` gives for the signatures, and `signature` is what `sign`
/// gives for the key.
pub proof fn lemma_assembled_is_signature(
    key: PrivateKey,
    coeffs: Seq<int>,
    fragments: Seq<PrivateKey>,
    message: G2Point,
    signatures: Seq<Signature>,
    assembled: Signature,
    signature: Signature,
)
    requires
        key.wf(),
        key.index() is None,
        coeffs.len() >= 1,
        coeffs[0] == key.secret(),
        shares_of(coeffs, fragments),
        fragments.len() >= coeffs.len(),
        independent(share_indices(fragments)),
        signatures.len() == fragments.len(),
        forall|k: int|
            0 <= k < fragments.len() ==> (#[trigger] signatures[k]).point() == signature_point(
                fragments[k].secret(),
                message@,
            ) && signatures[k].index() == fragments[k].index(),
        assembled.wf(),
        assembled.index() is None,
        assembled.point() == interpolate_at_zero(
            signature_indices(signatures),
            signature_points(signatures),
        ),
        signature.wf(),
        signature.index() == key.index(),
        signature.point() == signature_point(key.secret(), message@),
    ensures
        assembled == signature,
        assembled.encoding() == signature.encoding(),
{
    lemma_signatures_assemble(key, coeffs, fragments, message, signatures);
    assembled.lemma_same_value(signature);
}

/// Designated-key symmetry: the key that Alice designates for Bob is the
/// key that Bob designates for Alice.
pub proof fn lemma_designated_key_symmetric(
    alice: PrivateKey,
    alice_public: PublicKey,
    bob: PrivateKey,
    bob_public: PublicKey,
)
    requires
        alice_public@ == alice.secret(),
        bob_public@ == bob.secret(),
    ensures
        designated_secret(alice.secret(), bob_public@) == designated_secret(
            bob.secret(),
            alice_public@,
        ),
{
    assert(bob.secret() * alice.secret() == alice.secret() * bob.secret()) by (nonlinear_arith);
}

/// Proxy re-signatures: Bob's signature of a message under the key that he
/// designates for Alice, re-signed with the re-signing key that Alice made
/// for Bob, is Alice's own signature of the message. The secret scalar of
/// the designated key has an inverse: it is not zero.
pub proof fn lemma_resigned_is_own(
    alice: PrivateKey,
    alice_public: PublicKey,
    bob: PrivateKey,
    bob_public: PublicKey,
    message: G2Point,
)
    requires
        alice.wf(),
        alice_public@ == alice.secret(),
        bob_public@ == bob.secret(),
        invertible(designated_secret(alice.secret(), bob_public@)),
    ensures
        signature_point(
            resigning_secret(alice.secret(), bob_public@),
            signature_point(designated_secret(bob.secret(), alice_public@), message@),
        ) == signature_point(alice.secret(), message@),
{
    let a = alice.secret();
    let m = message@;
    let phi = designated_secret(a, bob_public@);
    lemma_designated_key_symmetric(alice, alice_public, bob, bob_public);
    let v = field_inv(phi);
    assert(is_inverse(phi, v));
    lemma_inverse_eqm(phi, v);
    let rk = field_mul(a, v);
    let sigma = field_mul(m, phi);
    let resigned = field_mul(sigma, rk);
    lemma_field_mul(a, v);
    lemma_field_mul(m, phi);
    lemma_field_mul(sigma, rk);
    lemma_field_mul(m, a);
    lemma_eqm_mul(sigma, m * phi, rk, a * v);
    assert((m * phi) * (a * v) == (m * a) * (phi * v)) by (nonlinear_arith);
    lemma_eqm_scale(m * a, phi * v, 1);
    assert((m * a) * 1 == m * a);
    lemma_eqm_trans(resigned, sigma * rk, (m * a) * (phi * v));
    lemma_eqm_trans(resigned, (m * a) * (phi * v), m * a);
    lemma_eqm_sym(field_mul(m, a), m * a);
    lemma_eqm_trans(resigned, m * a, field_mul(m, a));
    lemma_eqm_canonical(resigned, field_mul(m, a));
}

/// The re-signed signature is the holder's own, byte for byte, where the
/// holder's key is no fragment. The keys are as in `lemma_resigned_is_own`;
/// `resigned` is what `resign` gives with the re-signing key for the
/// signature under the designated key, and `own` is what `sign` gives for
/// the holder's key.
pub proof fn lemma_resigned_is_signature(
    alice: PrivateKey,
    alice_public: PublicKey,
    bob: PrivateKey,
    bob_public: PublicKey,
    message: G2Point,
    resigned: Signature,
    own: Signature,
)
    requires
        alice.wf(),
        alice.index() is None,
        alice_public@ == alice.secret(),
        bob_public@ == bob.secret(),
        invertible(designated_secret(alice.secret(), bob_public@)),
        resigned.wf(),
        resigned.index() is None,
        resigned.point() == signature_point(
            resigning_secret(alice.secret(), bob_public@),
            signature_point(designated_secret(bob.secret(), alice_public@), message@),
        ),
        own.wf(),
        own.index() == alice.index(),
        own.point() == signature_point(alice.secret(), message@),
    ensures
        resigned == own,
        resigned.encoding() == own.encoding(),
{
    lemma_resigned_is_own(alice, alice_public, bob, bob_public, message);
    resigned.lemma_same_value(own);
}

} // verus!
