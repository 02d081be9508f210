use curve25519_dalek::constants::{RISTRETTO_BASEPOINT_COMPRESSED, RISTRETTO_BASEPOINT_POINT};
use ppoprf::error::PPRFError;
use ppoprf::group::{CompressedPoint, GroupElement, Scalar, SecretScalar};
use ppoprf::secret::Seed;

const ORDER: [u8; 32] = [
    0xed, 0xd3, 0xf5, 0x5c, 0x1a, 0x63, 0x12, 0x58, 0xd6, 0x9c, 0xf7, 0xa2, 0xde, 0xf9, 0xde, 0x14,
    0x00, 0x00, 0x00, 0x00, 0x00, 0x00, 0x00, 0x00, 0x00, 0x00, 0x00, 0x00, 0x00, 0x00, 0x00, 0x10,
];

fn small(n: u8) -> Scalar {
    let mut bytes = [0u8; 32];
    bytes[0] = n;
    Scalar::from_bytes_mod_order(bytes)
}

#[test]
fn scalars_are_reduced_modulo_the_order() {
    assert_eq!(Scalar::from_bytes_mod_order(ORDER).to_bytes(), [0u8; 32]);
    let mut above = ORDER;
    above[0] += 5;
    assert_eq!(Scalar::from_bytes_mod_order(above).to_bytes(), small(5).to_bytes());
    assert_eq!(small(3).to_bytes()[0], 3);
}

#[test]
fn canonical_bytes_lie_below_the_order() {
    assert!(Scalar::from_canonical_bytes(ORDER).is_none());
    assert!(Scalar::from_canonical_bytes([0xff; 32]).is_none());
    let mut below = ORDER;
    below[0] -= 1;
    assert_eq!(Scalar::from_canonical_bytes(below).unwrap().to_bytes(), below);
    assert_eq!(Scalar::from_canonical_bytes([0u8; 32]).unwrap().to_bytes(), [0u8; 32]);
}

#[test]
fn inverse_of_one_and_of_zero() {
    assert_eq!(small(1).invert().to_bytes(), small(1).to_bytes());
    assert_eq!(small(0).invert().to_bytes(), [0u8; 32]);
}

#[test]
fn inverse_undoes_multiplication() {
    let r = Scalar::random();
    let p = GroupElement::from_uniform_bytes(&[3u8; 64]);
    let there = p.multiple(&r);
    assert_ne!(there.compress(), p.compress());
    let back = there.multiple(&r.invert());
    assert_eq!(back.compress(), p.compress());
}

#[test]
fn erased_scalar_is_zero() {
    let mut r = Scalar::random();
    r.erase();
    assert_eq!(r.to_bytes(), [0u8; 32]);
}

#[test]
fn secrets_hold_what_they_were_given() {
    let secret = SecretScalar::new(small(9));
    assert_eq!(secret.scalar().to_bytes(), small(9).to_bytes());
    assert_eq!(secret.clone().scalar().to_bytes(), small(9).to_bytes());
    assert_ne!(SecretScalar::random().scalar().to_bytes(), secret.scalar().to_bytes());
    let seed = Seed::new([4u8; 32]);
    assert_eq!(seed.expose(), [4u8; 32]);
    assert_eq!(seed.as_bytes(), &[4u8; 32]);
    assert_eq!(seed.clone().expose(), [4u8; 32]);
}

#[test]
fn random_scalars_differ() {
    assert_ne!(Scalar::random().to_bytes(), Scalar::random().to_bytes());
}

#[test]
fn generator_is_the_base_point() {
    assert_eq!(GroupElement::generator().compress().0, RISTRETTO_BASEPOINT_COMPRESSED.to_bytes());
    assert_eq!(
        GroupElement::base_multiple(&small(1)).compress(),
        GroupElement::generator().compress()
    );
}

#[test]
fn multiples_agree_with_the_curve_library() {
    let five = curve25519_dalek::scalar::Scalar::from(5u8);
    let expected = (five * RISTRETTO_BASEPOINT_POINT).compress().to_bytes();
    assert_eq!(GroupElement::base_multiple(&small(5)).compress().0, expected);
    assert_eq!(GroupElement::generator().multiple(&small(5)).compress().0, expected);
}

#[test]
fn sums_agree_with_multiples() {
    let two = GroupElement::base_multiple(&small(2));
    let three = GroupElement::base_multiple(&small(3));
    assert_eq!(two.plus(&three).compress(), GroupElement::base_multiple(&small(5)).compress());
    assert_ne!(two.plus(&three).compress(), two.compress());
}

#[test]
fn uniform_bytes_map_as_the_curve_library_does() {
    let bytes = [11u8; 64];
    let expected = curve25519_dalek::ristretto::RistrettoPoint::from_uniform_bytes(&bytes)
        .compress()
        .to_bytes();
    assert_eq!(GroupElement::from_uniform_bytes(&bytes).compress().0, expected);
}

#[test]
fn decompress_tells_elements_from_other_bytes() {
    assert!(CompressedPoint([0xff; 32]).decompress().is_none());
    let identity = CompressedPoint([0u8; 32]).decompress().unwrap();
    assert_eq!(identity.compress(), CompressedPoint([0u8; 32]));
    let base = CompressedPoint(RISTRETTO_BASEPOINT_COMPRESSED.to_bytes());
    assert_eq!(base.decompress().unwrap().compress(), base);
    assert_eq!(base.to_bytes(), RISTRETTO_BASEPOINT_COMPRESSED.to_bytes());
}

#[test]
fn compressed_points_hold_thirty_two_bytes() {
    assert_eq!(CompressedPoint::from_slice(&[1u8; 32]), Ok(CompressedPoint([1u8; 32])));
    assert_eq!(CompressedPoint::from_slice(&[1u8; 31]), Err(PPRFError::SerializationError));
    assert_eq!(CompressedPoint::from_slice(&[1u8; 33]), Err(PPRFError::SerializationError));
    assert_eq!(CompressedPoint::from_slice(&[]), Err(PPRFError::SerializationError));
}
