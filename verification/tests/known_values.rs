use bls12_381::{G1Affine, G2Affine};
use nubls::utils::{lambda_coeff, poly_eval};
use nubls::{
    G1Point, G2Point, PrivateKey, PublicKey, Scalar, Signature, ThresholdKey, ThresholdSignature,
    VerificationResult,
};
use sha2::{Digest, Sha512};

const ORDER: [u8; 32] = [
    1, 0, 0, 0, 255, 255, 255, 255, 254, 91, 254, 255, 2, 164, 189, 83, 5, 216, 161, 9, 8, 216, 57,
    51, 72, 125, 157, 41, 83, 167, 237, 115,
];

const ORDER_LESS_THREE: [u8; 32] = [
    254, 255, 255, 255, 254, 255, 255, 255, 254, 91, 254, 255, 2, 164, 189, 83, 5, 216, 161, 9, 8,
    216, 57, 51, 72, 125, 157, 41, 83, 167, 237, 115,
];

fn small(value: u8) -> Scalar {
    let mut bytes = [0u8; 32];
    bytes[0] = value;
    Scalar::from_bytes(&bytes).unwrap()
}

fn small_key(value: u8) -> PrivateKey {
    let mut bytes = [0u8; 32];
    bytes[0] = value;
    PrivateKey::from_bytes(&bytes)
}

fn outside_scalar(key: &PrivateKey) -> bls12_381::Scalar {
    let mut bytes = [0u8; 32];
    key.to_bytes(&mut bytes);
    bls12_381::Scalar::from_bytes(&bytes).unwrap()
}

fn message(value: u64) -> G2Point {
    let element = G2Affine::from(G2Affine::generator() * bls12_381::Scalar::from(value));
    G2Point::from_compressed(&element.to_compressed()).unwrap()
}

/// The shares of 5 + 3x + 2x^2 at 1, 2 and 3.
fn known_fragments() -> Vec<PrivateKey> {
    let coeffs = vec![small(5), small(3), small(2)];
    vec![
        PrivateKey::fragment_at(&coeffs[..], &small(1)),
        PrivateKey::fragment_at(&coeffs[..], &small(2)),
        PrivateKey::fragment_at(&coeffs[..], &small(3)),
    ]
}

#[test]
fn scalar_decoding_accepts_exactly_the_canonical() {
    assert!(Scalar::from_bytes(&ORDER).is_none());
    assert!(Scalar::from_bytes(&[255u8; 32]).is_none());
    let mut below = ORDER;
    below[0] = 0;
    let top = Scalar::from_bytes(&below).unwrap();
    assert_eq!(top.to_bytes(), below);
    assert_eq!(small(7).to_bytes()[0], 7);
}

#[test]
fn polynomial_takes_exact_values() {
    let coeffs = vec![small(5), small(3), small(2)];
    assert_eq!(poly_eval(&coeffs[..], &small(0)), small(5));
    assert_eq!(poly_eval(&coeffs[..], &small(1)), small(10));
    assert_eq!(poly_eval(&coeffs[..], &small(2)), small(19));
    assert_eq!(poly_eval(&coeffs[..], &small(3)), small(32));
    assert_eq!(poly_eval(&[small(9)], &small(200)), small(9));
}

#[test]
fn polynomial_wraps_at_the_order() {
    // (q - 3) + 1·x at x = 5 is 2.
    let top = Scalar::from_bytes(&ORDER_LESS_THREE).unwrap();
    assert_eq!(poly_eval(&[top, small(1)], &small(5)), small(2));
}

#[test]
fn lagrange_coefficients_are_exact() {
    let indices = vec![small(1), small(2), small(3)];
    assert_eq!(lambda_coeff(&small(1), &indices[..]), small(3));
    assert_eq!(
        lambda_coeff(&small(2), &indices[..]),
        Scalar::from_bytes(&ORDER_LESS_THREE).unwrap()
    );
    assert_eq!(lambda_coeff(&small(3), &indices[..]), small(1));
}

#[test]
fn lagrange_coefficient_of_nothing_is_one() {
    assert_eq!(lambda_coeff(&small(4), &[]), small(1));
    assert_eq!(lambda_coeff(&small(4), &[small(4), small(4)]), small(1));
    // An index that is not among the indices is weighted against all of them.
    assert_eq!(lambda_coeff(&small(0), &[small(1), small(2)]), small(1));
}

#[test]
fn wide_bytes_are_reduced() {
    let mut one = [0u8; 64];
    one[0] = 1;
    assert_eq!(PrivateKey::from_bytes_wide(&one), small_key(1));

    let expected: [u8; 32] = [
        108, 156, 242, 243, 144, 233, 153, 201, 35, 92, 146, 135, 203, 237, 108, 43, 143, 57, 84,
        114, 150, 20, 211, 5, 17, 255, 89, 159, 217, 217, 72, 7,
    ];
    let key = PrivateKey::from_bytes_wide(&[255u8; 64]);
    let mut bytes = [0u8; 32];
    key.to_bytes(&mut bytes);
    assert_eq!(bytes, expected);
    assert!(!key.is_fragment());

    let mut order = [0u8; 64];
    order[..32].copy_from_slice(&ORDER);
    assert_eq!(PrivateKey::from_bytes_wide(&order), small_key(0));
}

#[test]
fn known_shares_recover_the_secret() {
    let fragments = known_fragments();
    let mut bytes = [0u8; 64];
    fragments[1].to_bytes(&mut bytes);
    assert_eq!(bytes[0], 19);
    assert_eq!(bytes[32], 2);
    assert!(fragments[1].is_fragment());

    assert_eq!(PrivateKey::recover(&fragments[..]), small_key(5));
    let shuffled = vec![fragments[2], fragments[0], fragments[1]];
    assert_eq!(PrivateKey::recover(&shuffled[..]), small_key(5));
}

#[test]
fn too_few_shares_recover_another_secret() {
    let fragments = known_fragments();
    // 2·10 - 1·19
    assert_eq!(PrivateKey::recover(&fragments[0..2]), small_key(1));
    assert_eq!(PrivateKey::recover(&fragments[0..1]), small_key(10));
    assert_eq!(PrivateKey::recover(&[]), small_key(0));
}

#[test]
fn more_shares_than_the_threshold_recover_the_secret() {
    let secret = PrivateKey::random();
    let fragments = secret.split(2, 6);
    assert_eq!(fragments.len(), 6);
    assert_eq!(PrivateKey::recover(&fragments[..]), secret);
    assert_eq!(PrivateKey::recover(&fragments[4..6]), secret);
}

#[test]
fn threshold_of_one_shares_the_secret_itself() {
    let secret = PrivateKey::random();
    let fragments = secret.split(1, 3);
    assert_eq!(fragments.len(), 3);
    for fragment in fragments.iter() {
        assert!(fragment.is_fragment());
        assert_eq!(PrivateKey::recover(&[*fragment]), secret);
    }
}

#[test]
fn split_of_the_largest_size() {
    let secret = PrivateKey::random();
    let fragments = secret.split(256, 256);
    assert_eq!(fragments.len(), 256);
    assert_eq!(PrivateKey::recover(&fragments[..]), secret);
}

#[test]
fn private_key_parsing_rejects_what_is_no_key() {
    assert!(PrivateKey::try_from_bytes(&[0u8; 31]).is_none());
    assert!(PrivateKey::try_from_bytes(&[0u8; 33]).is_none());
    assert!(PrivateKey::try_from_bytes(&[0u8; 65]).is_none());
    assert!(PrivateKey::try_from_bytes(&[]).is_none());
    assert!(PrivateKey::try_from_bytes(&ORDER).is_none());
    let mut fragment = [0u8; 64];
    fragment[32..].copy_from_slice(&ORDER);
    assert!(PrivateKey::try_from_bytes(&fragment).is_none());
    fragment[32] = 0;
    let parsed = PrivateKey::try_from_bytes(&fragment).unwrap();
    assert!(parsed.is_fragment());
    assert_eq!(parsed, PrivateKey::from_bytes(&fragment));
    let ordinary = PrivateKey::try_from_bytes(&[0u8; 32]).unwrap();
    assert!(!ordinary.is_fragment());
    assert_eq!(ordinary, small_key(0));
}

#[test]
fn private_key_serialization_leaves_the_rest_of_the_buffer() {
    let key = small_key(9);
    let mut buffer = [170u8; 70];
    key.to_bytes(&mut buffer);
    assert_eq!(buffer[0], 9);
    assert_eq!(buffer[1..32], [0u8; 31]);
    assert_eq!(buffer[32..], [170u8; 38]);

    let fragment = known_fragments()[0];
    let mut buffer = [170u8; 70];
    fragment.to_bytes(&mut buffer);
    assert_eq!(buffer[0], 10);
    assert_eq!(buffer[32], 1);
    assert_eq!(buffer[33..64], [0u8; 31]);
    assert_eq!(buffer[64..], [170u8; 6]);
}

#[test]
fn public_key_is_the_multiple_of_the_generator() {
    assert_eq!(
        small_key(1).public_key().to_bytes(),
        G1Affine::generator().to_compressed()
    );
    let key = PrivateKey::random();
    let expected = G1Affine::from(G1Affine::generator() * outside_scalar(&key));
    assert_eq!(key.public_key().to_bytes(), expected.to_compressed());
    assert_eq!(PublicKey::from(key), key.public_key());
}

#[test]
fn public_key_round_trip_and_rejection() {
    let key = PrivateKey::random().public_key();
    let bytes = key.to_bytes();
    assert_eq!(bytes.len(), 48);
    assert_eq!(PublicKey::from_bytes(&bytes), key);
    assert_eq!(PublicKey::try_from_bytes(&bytes), Some(key));
    assert!(PublicKey::try_from_bytes(&[0u8; 48]).is_none());
    assert!(PublicKey::try_from_bytes(&[255u8; 48]).is_none());
    assert!(G1Point::from_compressed(&[0u8; 48]).is_none());
    let generator = G1Point::from_compressed(&G1Affine::generator().to_compressed()).unwrap();
    assert_eq!(generator.to_compressed(), G1Affine::generator().to_compressed());
}

#[test]
fn signature_is_the_multiple_of_the_message() {
    let msg = message(11);
    let by_one = small_key(1).sign(&msg);
    let mut bytes = [0u8; 96];
    by_one.to_bytes(&mut bytes);
    assert_eq!(bytes, msg.to_compressed());

    let key = PrivateKey::random();
    let element = G2Affine::from_compressed(&msg.to_compressed()).unwrap();
    let expected = G2Affine::from(element * outside_scalar(&key));
    key.sign(&msg).to_bytes(&mut bytes);
    assert_eq!(bytes, expected.to_compressed());
    assert_ne!(bytes, msg.to_compressed());
}

#[test]
fn signature_parsing_rejects_what_is_no_signature() {
    assert!(Signature::try_from_bytes(&[0u8; 96]).is_none());
    assert!(Signature::try_from_bytes(&[0u8; 95]).is_none());
    assert!(Signature::try_from_bytes(&[0u8; 128]).is_none());
    assert!(G2Point::from_compressed(&[0u8; 96]).is_none());

    let sig = small_key(3).sign(&message(4));
    let mut ordinary = [0u8; 96];
    sig.to_bytes(&mut ordinary);
    assert_eq!(Signature::try_from_bytes(&ordinary), Some(sig));
    assert!(Signature::try_from_bytes(&ordinary[..95]).is_none());

    let mut fragment = [0u8; 128];
    fragment[..96].copy_from_slice(&ordinary);
    fragment[96..].copy_from_slice(&ORDER);
    assert!(Signature::try_from_bytes(&fragment).is_none());
    fragment[96] = 0;
    let parsed = Signature::try_from_bytes(&fragment).unwrap();
    assert!(parsed.is_fragment());
    assert_eq!(parsed, Signature::from_bytes(&fragment));
}

#[test]
fn signature_serialization_leaves_the_rest_of_the_buffer() {
    let sig = small_key(3).sign(&message(4));
    let mut buffer = [170u8; 130];
    sig.to_bytes(&mut buffer);
    assert_eq!(buffer[..96], message(12).to_compressed());
    assert_eq!(buffer[96..], [170u8; 34]);

    let fragment = known_fragments()[2].sign(&message(4));
    let mut buffer = [170u8; 130];
    fragment.to_bytes(&mut buffer);
    assert_eq!(buffer[..96], message(128).to_compressed());
    assert_eq!(buffer[96], 3);
    assert_eq!(buffer[97..128], [0u8; 31]);
    assert_eq!(buffer[128..], [170u8; 2]);
}

#[test]
fn verification_tells_valid_from_invalid() {
    let key = small_key(6);
    let other = small_key(7);
    let msg = message(5);
    let sig = key.sign(&msg);
    assert_eq!(key.public_key().verify(&msg, &sig), VerificationResult::Valid);
    assert_eq!(other.public_key().verify(&msg, &sig), VerificationResult::Invalid);
    assert_eq!(key.public_key().verify(&message(6), &sig), VerificationResult::Invalid);
    // 6·5 = 30 = 30·1
    assert_eq!(
        small_key(30).public_key().verify(&message(1), &sig),
        VerificationResult::Valid
    );
    assert_eq!(VerificationResult::from(true), VerificationResult::Valid);
    assert_eq!(VerificationResult::from(false), VerificationResult::Invalid);
}

#[test]
fn zero_key_signs_every_message_alike() {
    let key = small_key(0);
    let one = key.sign(&message(1));
    let two = key.sign(&message(2));
    assert_eq!(one, two);
    assert_eq!(key.public_key().verify(&message(2), &one), VerificationResult::Valid);
}

#[test]
fn known_fragments_assemble_the_signature() {
    let fragments = known_fragments();
    let msg = message(7);
    let parts: Vec<Signature> = fragments.iter().map(|f| f.sign(&msg)).collect();
    for part in parts.iter() {
        assert!(part.is_fragment());
    }
    let whole = Signature::assemble(&parts[..]);
    assert!(!whole.is_fragment());
    assert_eq!(whole, small_key(5).sign(&msg));
    // 5·7 = 35
    let mut bytes = [0u8; 96];
    whole.to_bytes(&mut bytes);
    assert_eq!(bytes, message(35).to_compressed());

    let shuffled = vec![parts[1], parts[2], parts[0]];
    assert_eq!(Signature::assemble(&shuffled[..]), whole);
    // Too few: the signature of the key 1 that too few fragments recover.
    assert_eq!(Signature::assemble(&parts[0..2]), small_key(1).sign(&msg));
}

#[test]
fn nothing_assembles_to_the_neutral_element() {
    let nothing = Signature::assemble(&[]);
    let mut bytes = [0u8; 96];
    nothing.to_bytes(&mut bytes);
    let mut expected = [0u8; 96];
    expected[0] = 0xc0;
    assert_eq!(bytes, expected);
    assert!(!nothing.is_fragment());
}

#[test]
fn designated_key_is_the_hashed_shared_element() {
    let alice = PrivateKey::random();
    let bob = PrivateKey::random();
    let product = outside_scalar(&alice) * outside_scalar(&bob);
    let shared = G1Affine::from(G1Affine::generator() * product);
    let digest = Sha512::digest(&shared.to_uncompressed());
    let mut wide = [0u8; 64];
    wide.copy_from_slice(digest.as_slice());
    let expected = bls12_381::Scalar::from_bytes_wide(&wide);

    let designated = alice.designated_key(&bob.public_key());
    assert!(!designated.is_fragment());
    let mut bytes = [0u8; 32];
    designated.to_bytes(&mut bytes);
    assert_eq!(bytes, expected.to_bytes());
    assert_eq!(designated, bob.designated_key(&alice.public_key()));
}

#[test]
fn resigning_key_divides_by_the_designated_key() {
    let alice = PrivateKey::random();
    let bob = PrivateKey::random();
    let designated = outside_scalar(&alice.designated_key(&bob.public_key()));
    let expected = outside_scalar(&alice) * designated.invert().unwrap();
    let rekey = alice.resigning_key(&bob.public_key());
    assert_eq!(outside_scalar(&rekey), expected);
    assert!(!rekey.is_fragment());
    assert_eq!(alice.checked_resigning_key(&bob.public_key()), Some(rekey));
}

#[test]
fn resigning_keeps_the_identifier_of_the_key() {
    let fragment = known_fragments()[0];
    let sig = small_key(2).sign(&message(3));
    let resigned = fragment.resign(&sig);
    assert!(resigned.is_fragment());
    let mut bytes = [0u8; 128];
    resigned.to_bytes(&mut bytes);
    // 10·2·3 = 60
    assert_eq!(bytes[..96], message(60).to_compressed());
    assert_eq!(bytes[96], 1);
}

#[test]
fn fragments_come_back_from_their_bytes() {
    let secret = PrivateKey::random();
    for fragment in secret.split(2, 3) {
        let mut bytes = [0u8; 64];
        fragment.to_bytes(&mut bytes);
        let back = PrivateKey::from_bytes(&bytes);
        assert_eq!(back, fragment);
        assert!(back.is_fragment());
        let sig = fragment.sign(&message(9));
        let mut sig_bytes = [0u8; 128];
        sig.to_bytes(&mut sig_bytes);
        assert_eq!(Signature::from_bytes(&sig_bytes), sig);
    }
}
