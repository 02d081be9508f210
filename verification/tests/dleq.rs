use ppoprf::dleq::ProofDLEQ;
use ppoprf::error::PPRFError;
use ppoprf::group::{GroupElement, Scalar};

fn small(n: u8) -> Scalar {
    let mut bytes = [0u8; 32];
    bytes[0] = n;
    Scalar::from_bytes_mod_order(bytes)
}

fn statement(key: &Scalar) -> (GroupElement, GroupElement, GroupElement) {
    let public_value = GroupElement::base_multiple(key);
    let p = GroupElement::from_uniform_bytes(&[21u8; 64]);
    let q = p.multiple(key);
    (public_value, p, q)
}

#[test]
fn honest_proof_is_accepted() {
    let key = Scalar::random();
    let (public_value, p, q) = statement(&key);
    let proof = ProofDLEQ::new(&key, &public_value, &p, &q);
    assert!(proof.verify(&public_value, &p, &q));
}

#[test]
fn proof_with_the_wrong_key_is_refused() {
    let key = small(7);
    let (public_value, p, q) = statement(&key);
    let proof = ProofDLEQ::new(&small(8), &public_value, &p, &q);
    assert!(!proof.verify(&public_value, &p, &q));
}

#[test]
fn proof_about_other_elements_is_refused() {
    let key = small(7);
    let (public_value, p, q) = statement(&key);
    let proof = ProofDLEQ::new(&key, &public_value, &p, &q);
    let other = GroupElement::from_uniform_bytes(&[22u8; 64]);
    assert!(!proof.verify(&public_value, &other, &q));
    assert!(!proof.verify(&public_value, &p, &other));
    assert!(!proof.verify(&other, &p, &q));
}

#[test]
fn nonce_decides_the_proof() {
    let key = small(7);
    let (public_value, p, q) = statement(&key);
    let first = ProofDLEQ::with_nonce(&small(3), &key, &public_value, &p, &q);
    let again = ProofDLEQ::with_nonce(&small(3), &key, &public_value, &p, &q);
    let other = ProofDLEQ::with_nonce(&small(4), &key, &public_value, &p, &q);
    assert_eq!(first.to_bytes(), again.to_bytes());
    assert_ne!(first.to_bytes(), other.to_bytes());
    assert!(first.verify(&public_value, &p, &q));
    assert!(other.verify(&public_value, &p, &q));
}

#[test]
fn tampered_challenge_or_response_is_refused() {
    let key = Scalar::random();
    let (public_value, p, q) = statement(&key);
    let proof = ProofDLEQ::new(&key, &public_value, &p, &q);
    for at in [0usize, 32] {
        let mut bytes = proof.to_bytes();
        bytes[at] ^= 1;
        if let Ok(tampered) = ProofDLEQ::from_bytes(&bytes) {
            assert!(!tampered.verify(&public_value, &p, &q));
        }
    }
}

#[test]
fn hash_takes_the_elements_in_order() {
    let b = GroupElement::generator();
    let x = GroupElement::from_uniform_bytes(&[1u8; 64]);
    let y = GroupElement::from_uniform_bytes(&[2u8; 64]);
    let first = ProofDLEQ::hash(&[&b, &x, &y, &x, &y, &b]);
    let again = ProofDLEQ::hash(&[&b, &x, &y, &x, &y, &b]);
    let swapped = ProofDLEQ::hash(&[&b, &y, &x, &x, &y, &b]);
    assert_eq!(first.to_bytes(), again.to_bytes());
    assert_ne!(first.to_bytes(), swapped.to_bytes());
}

#[test]
fn hash_is_the_reduced_digest_of_the_encodings() {
    let b = GroupElement::generator();
    let x = GroupElement::from_uniform_bytes(&[1u8; 64]);
    let mut input = Vec::new();
    for element in [&b, &x, &x, &b, &b, &x] {
        input.extend(element.compress().to_bytes());
    }
    let mut sponge = strobe_rs::Strobe::new(b"ppoprf_dleq_hash", strobe_rs::SecParam::B128);
    sponge.key(&input, false);
    let mut digest = [0u8; 64];
    sponge.prf(&mut digest, false);
    let expected = curve25519_dalek::scalar::Scalar::from_bytes_mod_order_wide(&digest);
    assert_eq!(ProofDLEQ::hash(&[&b, &x, &x, &b, &b, &x]).to_bytes(), expected.to_bytes());
}

#[test]
fn proof_bytes_round_trip() {
    let key = Scalar::random();
    let (public_value, p, q) = statement(&key);
    let proof = ProofDLEQ::new(&key, &public_value, &p, &q);
    let bytes = proof.to_bytes();
    let back = ProofDLEQ::from_bytes(&bytes).unwrap();
    assert_eq!(back.to_bytes(), bytes);
    assert!(back.verify(&public_value, &p, &q));
}

#[test]
fn proof_bytes_are_checked() {
    assert!(matches!(ProofDLEQ::from_bytes(&[0u8; 63]), Err(PPRFError::SerializationError)));
    assert!(matches!(ProofDLEQ::from_bytes(&[0u8; 65]), Err(PPRFError::SerializationError)));
    assert!(matches!(ProofDLEQ::from_bytes(&[0xffu8; 64]), Err(PPRFError::SerializationError)));
    let mut half = [0u8; 64];
    half[63] = 0xff;
    assert!(matches!(ProofDLEQ::from_bytes(&half), Err(PPRFError::SerializationError)));
    assert!(ProofDLEQ::from_bytes(&[0u8; 64]).is_ok());
}
