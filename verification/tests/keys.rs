use bls12_381::G2Affine;
use nubls::{
    G2Point, PrivateKey, PublicKey, Scalar, Signature, ThresholdKey, ThresholdSignature,
    VerificationResult,
};

/// The secret scalar of an ordinary key, as the curve library holds it.
fn scalar_of(key: &PrivateKey) -> bls12_381::Scalar {
    let mut bytes = [0u8; 32];
    key.to_bytes(&mut bytes);
    bls12_381::Scalar::from_bytes(&bytes).unwrap()
}

/// The element of G2 that a key's secret scalar times the generator is.
fn message_of(key: &PrivateKey) -> G2Point {
    let element = G2Affine::from(G2Affine::generator() * &scalar_of(key));
    G2Point::from_compressed(&element.to_compressed()).unwrap()
}

fn scalar_from(value: bls12_381::Scalar) -> Scalar {
    Scalar::from_bytes(&value.to_bytes()).unwrap()
}

fn handle_signature_verification(is_verified: &VerificationResult) -> &str {
    match is_verified {
        VerificationResult::Valid => "Valid message!",
        VerificationResult::Invalid => "Invalid message!",
    }
}

#[test]
fn test_random() {
    let a = PrivateKey::random();
    let b = PrivateKey::random();

    assert_ne!(a, b);
}

#[test]
fn test_pubkey() {
    let priv_a = PrivateKey::random();
    let pub_a = priv_a.public_key();

    assert_eq!(PublicKey::from(priv_a), pub_a);
}

#[test]
fn test_signing_and_verifying() {
    let priv_a = PrivateKey::random();
    let pub_a = priv_a.public_key();

    // Generate and sign a random message in G_2.
    let rand = PrivateKey::random();
    let msg = message_of(&rand);

    let sig_msg = priv_a.sign(&msg);
    assert_eq!(sig_msg, Signature::new(&priv_a, &msg));

    // Check that the message is valid
    let verified = pub_a.verify(&msg, &sig_msg);
    assert_eq!(verified, sig_msg.verify(&pub_a, &msg));
    assert_eq!(verified, VerificationResult::Valid);

    // Generate a random invalid message for `sig_msg` and check that it
    // is invalid.
    let new_rand = PrivateKey::random();
    let bad_msg = message_of(&new_rand);
    assert_ne!(bad_msg, msg);

    let not_verified = pub_a.verify(&bad_msg, &sig_msg);
    assert_eq!(not_verified, VerificationResult::Invalid);
}

#[test]
fn test_verification_result_handling() {
    let priv_a = PrivateKey::random();
    let pub_a = priv_a.public_key();

    // Generate and sign a random message to sign in G_2.
    let rand = PrivateKey::random();
    let msg = message_of(&rand);
    let sig_msg = priv_a.sign(&msg);

    // Handle a valid signature.
    let verified = pub_a.verify(&msg, &sig_msg);
    assert_eq!("Valid message!", handle_signature_verification(&verified));

    // Let's try an invalid signature
    let new_rand = PrivateKey::random();
    let bad_msg = message_of(&new_rand);
    let not_verified = pub_a.verify(&bad_msg, &sig_msg);
    assert_eq!(
        "Invalid message!",
        handle_signature_verification(&not_verified)
    );
}

#[test]
fn test_key_split_3_of_5() {
    let priv_a = PrivateKey::random();
    let n_frags = priv_a.split(3, 5);
    let m_frags = &n_frags[0..3];

    let recovered_a = PrivateKey::recover(&m_frags);
    assert_eq!(recovered_a, priv_a);
}

#[test]
fn test_key_serialization() {
    let priv_a = PrivateKey::random();
    let n_frags = priv_a.split(3, 5);

    let mut a_bytes = [0u8; 32];
    let mut frag_bytes = [0u8; 64];
    priv_a.to_bytes(&mut a_bytes);
    n_frags[0].to_bytes(&mut frag_bytes);

    assert_eq!(a_bytes.len(), 32);
    assert_eq!(frag_bytes.len(), 64);
    assert_ne!(a_bytes[..32], frag_bytes[..32]);

    assert_eq!(PrivateKey::from_bytes(&a_bytes), priv_a);
    assert_eq!(PrivateKey::from_bytes(&frag_bytes), n_frags[0]);
}

#[test]
fn test_signature_serialization() {
    let priv_a = PrivateKey::random();
    let n_frags = priv_a.split(3, 5);

    let rand = PrivateKey::random();
    let msg = message_of(&rand);
    let sig = priv_a.sign(&msg);
    let frag_sig = n_frags[0].sign(&msg);

    let mut sig_bytes = [0u8; 96];
    let mut frag_sig_bytes = [0u8; 128];
    sig.to_bytes(&mut sig_bytes);
    frag_sig.to_bytes(&mut frag_sig_bytes);

    assert_eq!(sig_bytes.len(), 96);
    assert_eq!(frag_sig_bytes.len(), 128);
    assert_ne!(sig_bytes[..96], frag_sig_bytes[..96]);

    assert_eq!(Signature::from_bytes(&sig_bytes), sig);
    assert_eq!(Signature::from_bytes(&frag_sig_bytes), frag_sig);
}

#[test]
fn test_is_fragment() {
    // Testing `PrivateKey`
    let priv_a = PrivateKey::random();
    let n_frags = priv_a.split(3, 5);
    assert_eq!(n_frags[0].is_fragment(), true);
    assert_eq!(priv_a.is_fragment(), false);

    // Testing `Signature`
    let rand = PrivateKey::random();
    let msg = message_of(&rand);
    let sig = n_frags[0].sign(&msg);
    assert_eq!(sig.is_fragment(), true);
    assert_eq!(priv_a.sign(&msg).is_fragment(), false);
}

#[test]
fn test_incomplete_key_recovery() {
    let priv_a = PrivateKey::random();
    let n_frags = priv_a.split(3, 5);

    // Select m fragments under the threshold and attempt recovery
    let m_frags = &n_frags[0..2];
    let bad_recovery = PrivateKey::recover(&m_frags);
    assert_ne!(bad_recovery, priv_a);
}

#[test]
fn test_threshold_signature_3_of_5() {
    // Split the private key into five fragments, one for each Signer.
    let priv_a = PrivateKey::random();
    let n_frags = priv_a.split(3, 5);

    // Generate a random message in G_2
    let rand = PrivateKey::random();
    let msg = message_of(&rand);

    // Get three signatures on the `msg` from each Signer
    let sig_1 = n_frags[0].sign(&msg);
    let sig_2 = n_frags[1].sign(&msg);
    let sig_3 = n_frags[3].sign(&msg);

    // Place them into a vector and assemble the full signature
    let sig_frags = vec![sig_1, sig_2, sig_3];
    let full_sig = Signature::assemble(&sig_frags[..]);

    // Sign the same data with the unsplit key to verify correctness
    // BLS is a deterministic signature, so we can simply check that the
    // two signatures are identical.
    let msg_sig = priv_a.sign(&msg);
    assert_eq!(msg_sig, full_sig);

    // Check that the signature verifies
    let pub_a = priv_a.public_key();
    assert_eq!(pub_a.verify(&msg, &full_sig), VerificationResult::Valid);
}

#[test]
fn test_unordered_index_key_recovery() {
    let priv_a = PrivateKey::random();
    let n_frags = priv_a.split(3, 5);
    let m_frags = &n_frags[2..5];

    let recovered_a = PrivateKey::recover(&m_frags);
    assert_eq!(recovered_a, priv_a);
}

#[test]
fn test_unordered_index_signature_assembly() {
    let priv_a = PrivateKey::random();
    let n_frags = priv_a.split(3, 5);

    let rand = PrivateKey::random();
    let msg = message_of(&rand);

    let sig_1 = n_frags[0].sign(&msg);
    let sig_2 = n_frags[1].sign(&msg);
    let sig_3 = n_frags[3].sign(&msg);

    let sig_frags = vec![sig_1, sig_2, sig_3];
    let full_sig = Signature::assemble(&sig_frags[..]);

    // Check that the signature verifies
    let pub_a = priv_a.public_key();
    assert_eq!(pub_a.verify(&msg, &full_sig), VerificationResult::Valid);
}

#[test]
fn test_incomplete_signature_assembly() {
    // Split the private key into five fragments, one for each Signer.
    let priv_a = PrivateKey::random();
    let n_frags = priv_a.split(3, 5);

    // Generate a random message in G_2
    let rand = PrivateKey::random();
    let msg = message_of(&rand);

    // Get two signatures on the `msg`; under the threshold
    let sig_1 = n_frags[0].sign(&msg);
    let sig_2 = n_frags[1].sign(&msg);

    // Place them into a vector and assemble an incomplete signature
    let sig_frags = vec![sig_1, sig_2];
    let bad_sig = Signature::assemble(&sig_frags[..]);

    // Sign the same data with the unsplit key to verify correctness
    // BLS is a deterministic signature, so we can simply check that the
    // two signatures are identical.
    let msg_sig = priv_a.sign(&msg);
    assert_ne!(msg_sig, bad_sig);
}

#[test]
fn test_proxy_re_signature() {
    let priv_alice = PrivateKey::random();
    let pub_alice = priv_alice.public_key();

    let priv_bob = PrivateKey::random();
    let pub_bob = priv_bob.public_key();

    // Generate a random message in G_2 to sign
    let rand = PrivateKey::random();
    let msg = message_of(&rand);

    // Alice grants re-signing capabilities to Bob by generating a
    // resigning key that transforms signatures from Bob's designated key
    // to Alice's key.
    let rekey_ab = priv_alice.resigning_key(&pub_bob);

    // Bob now signs with his designated key for Alice.
    // Note: this is not a signature under Bob's key. It's a signature
    // under a "designated key" that is specific for re-signing to Alice.
    let sig_b = priv_bob.designated_key(&pub_alice).sign(&msg);
    assert_ne!(sig_b, priv_bob.sign(&msg));
    assert_eq!(pub_bob.verify(&msg, &sig_b), VerificationResult::Invalid);

    // We re-sign the signature to Alice's key with the re-signing key.
    // Note: this is the exact same signature that Alice would create
    // had she made the signature herself.
    let sig_a = rekey_ab.resign(&sig_b);
    assert_eq!(sig_a, priv_alice.sign(&msg));
    assert_eq!(pub_alice.verify(&msg, &sig_a), VerificationResult::Valid);
}

#[test]
fn test_polynomial_evaluation() {
    // [1, 2, 4]
    let coeffs = vec![
        scalar_from(bls12_381::Scalar::one()),
        scalar_from(bls12_381::Scalar::one().double()),
        scalar_from(bls12_381::Scalar::one().double().double()),
    ];
    // x = 2
    let x = scalar_from(bls12_381::Scalar::one().double());

    let twenty_one = scalar_from(
        bls12_381::Scalar::one().double().double().double().double()
            + bls12_381::Scalar::one().double().double()
            + bls12_381::Scalar::one(),
    );
    let p_x = nubls::utils::poly_eval(&coeffs[..], &x);
    assert_eq!(p_x, twenty_one);
}
