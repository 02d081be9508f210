use ppoprf::error::PPRFError;
use ppoprf::ggm::GGM;
use ppoprf::group::{CompressedPoint, GroupElement, Scalar, SecretScalar};
use ppoprf::ppoprf::{Client, Evaluation, Point, Server};
use ppoprf::strobe::strobe_hash;
use strobe_rs::{SecParam, Strobe};

fn small(n: u8) -> Scalar {
    let mut bytes = [0u8; 32];
    bytes[0] = n;
    Scalar::from_bytes_mod_order(bytes)
}

fn digest_by_hand(label: &[u8], input: &[u8]) -> [u8; 64] {
    let mut sponge = Strobe::new(label, SecParam::B128);
    sponge.key(input, false);
    let mut out = [0u8; 64];
    sponge.prf(&mut out, false);
    out
}

#[test]
fn strobe_hash_is_the_keyed_sponge() {
    let mut out = [0u8; 64];
    strobe_hash(b"some_test_input", "ppoprf_finalize", &mut out);
    assert_eq!(out, digest_by_hand(b"ppoprf_finalize", b"some_test_input"));
    assert_ne!(out, [0u8; 64]);
}

#[test]
fn labels_separate_the_hashes() {
    let mut first = [0u8; 64];
    let mut second = [0u8; 64];
    strobe_hash(b"some_test_input", "ppoprf_finalize", &mut first);
    strobe_hash(b"some_test_input", "ppoprf_dleq_hash", &mut second);
    assert_ne!(first, second);
    strobe_hash(b"another_input", "ppoprf_finalize", &mut second);
    assert_ne!(first, second);
}

#[test]
fn hash_to_group_maps_the_digest() {
    let digest = digest_by_hand(b"ppoprf_derive_client_input", b"some_test_input");
    assert_eq!(
        Client::hash_to_group(b"some_test_input").compress(),
        GroupElement::from_uniform_bytes(&digest).compress()
    );
}

#[test]
fn blinding_multiplies_the_hashed_input() {
    let h = Client::hash_to_group(b"some_test_input");
    let blinded = Client::blind_with(b"some_test_input", &small(9));
    assert_eq!(blinded.0, h.multiple(&small(9)).compress());
    assert_ne!(blinded.0, h.compress());
    let (random, r) = Client::blind(b"some_test_input");
    assert_eq!(random.0, h.multiple(&r).compress());
}

#[test]
fn unblinding_divides_by_the_factor() {
    let h = Client::hash_to_group(b"some_test_input");
    let blinded = Client::blind_with(b"some_test_input", &small(9));
    assert_eq!(Client::unblind(&blinded.0, &small(9)), h.compress());
    assert_eq!(Client::try_unblind(&blinded.0, &small(9)), Some(h.compress()));
    assert_eq!(Client::try_unblind(&CompressedPoint([0xff; 32]), &small(9)), None);
}

#[test]
fn finalize_hashes_input_tag_and_point() {
    let point = Client::hash_to_group(b"some_test_input").compress();
    let mut out = [0u8; 32];
    Client::finalize(b"some_test_input", 3, &point, &mut out);
    let mut message = b"some_test_input".to_vec();
    message.push(3);
    message.extend(point.to_bytes());
    let digest = digest_by_hand(b"ppoprf_finalize", &message);
    assert_eq!(out[..], digest[..32]);
}

#[test]
fn finalize_is_deterministic() {
    let point = Client::hash_to_group(b"some_test_input").compress();
    let mut first = [0u8; 32];
    let mut second = [1u8; 32];
    Client::finalize(b"some_test_input", 3, &point, &mut first);
    Client::finalize(b"some_test_input", 3, &point, &mut second);
    assert_eq!(first, second);
}

#[test]
fn finalize_separates_tags_and_inputs() {
    let point = Client::hash_to_group(b"some_test_input").compress();
    let mut first = [0u8; 32];
    let mut second = [0u8; 32];
    Client::finalize(b"some_test_input", 0, &point, &mut first);
    Client::finalize(b"some_test_input", 1, &point, &mut second);
    assert_ne!(first, second);
    Client::finalize(b"another_input", 0, &point, &mut second);
    assert_ne!(first, second);
}

#[test]
fn evaluation_uses_the_key_of_the_tag() {
    let key = SecretScalar::new(small(5));
    let root = [3u8; 32];
    let server = Server::with_secrets(key, GGM::from_seed(root), vec![0u8, 1]).unwrap();
    let h = Client::hash_to_group(b"some_test_input");
    let tag = GGM::from_seed(root).eval(1).unwrap().expose();
    let five = curve25519_dalek::scalar::Scalar::from(5u8);
    let tagged = five + curve25519_dalek::scalar::Scalar::from_bytes_mod_order(tag);
    let expected = Scalar::from_canonical_bytes(tagged.invert().to_bytes()).unwrap();
    let evaluation = server.eval(&Point(h.compress()), 1, false).unwrap();
    assert_eq!(evaluation.output, h.multiple(&expected).compress());
    assert!(evaluation.proof.is_none());
    let other = server.eval(&Point(h.compress()), 0, false).unwrap();
    assert_ne!(other.output, evaluation.output);
}

#[test]
fn unknown_tag_is_a_bad_tag() {
    let server = Server::new(vec![0u8]).unwrap();
    let (point, _) = Client::blind(b"some_test_input");
    for verifiable in [false, true] {
        match server.eval(&point, 1, verifiable) {
            Err(e) => assert_eq!(e, PPRFError::BadTag { md: 1 }),
            Ok(_) => panic!("evaluated at a tag without public key"),
        }
    }
}

#[test]
fn punctured_tag_has_no_prefix() {
    let mut server = Server::new(vec![0u8, 1]).unwrap();
    let point = Point(Client::hash_to_group(b"some_test_input").compress());
    let before = server.eval(&point, 0, false).unwrap().output;
    assert!(server.eval(&point, 1, false).is_ok());
    assert_eq!(server.puncture(1), Ok(()));
    assert!(matches!(server.eval(&point, 1, false), Err(PPRFError::NoPrefixFound)));
    assert!(matches!(server.eval(&point, 1, true), Err(PPRFError::NoPrefixFound)));
    assert_eq!(server.eval(&point, 0, false).unwrap().output, before);
    assert_eq!(server.puncture(1), Err(PPRFError::NoPrefixFound));
    // a tag without public key stays a bad tag, punctured or not
    assert_eq!(server.puncture(7), Ok(()));
    assert!(matches!(server.eval(&point, 7, false), Err(PPRFError::BadTag { md: 7 })));
}

#[test]
fn server_needs_its_tags_active() {
    let mut pprf = GGM::setup();
    pprf.puncture(4).unwrap();
    assert!(matches!(
        Server::with_secrets(SecretScalar::random(), pprf.clone(), vec![3u8, 4]),
        Err(PPRFError::NoPrefixFound)
    ));
    assert!(Server::with_secrets(SecretScalar::random(), pprf, vec![3u8, 5]).is_ok());
}

#[test]
fn invalid_point_is_not_evaluated() {
    let server = Server::new(vec![0u8]).unwrap();
    assert!(server.try_eval(&Point(CompressedPoint([0xff; 32])), 0, false).is_none());
    let (point, _) = Client::blind(b"some_test_input");
    assert!(matches!(server.try_eval(&point, 0, false), Some(Ok(_))));
    assert!(matches!(server.try_eval(&point, 9, false), Some(Err(PPRFError::BadTag { md: 9 }))));
}

#[test]
fn verification_needs_a_proof() {
    let server = Server::new(vec![0u8]).unwrap();
    let (point, _) = Client::blind(b"some_test_input");
    let input = point.0.decompress().unwrap();
    let evaluation = server.eval(&point, 0, false).unwrap();
    assert!(!Client::verify(&server.get_public_key(), &input, &evaluation, 0));
}

#[test]
fn verification_needs_a_known_tag() {
    let server = Server::new(vec![0u8]).unwrap();
    let (point, _) = Client::blind(b"some_test_input");
    let input = point.0.decompress().unwrap();
    let evaluation = server.eval(&point, 0, true).unwrap();
    assert!(Client::verify(&server.get_public_key(), &input, &evaluation, 0));
    assert!(!Client::verify(&server.get_public_key(), &input, &evaluation, 1));
}

#[test]
fn verification_is_bound_to_the_tag() {
    let server = Server::new(vec![0u8, 1]).unwrap();
    let (point, _) = Client::blind(b"some_test_input");
    let input = point.0.decompress().unwrap();
    let evaluation = server.eval(&point, 0, true).unwrap();
    assert!(!Client::verify(&server.get_public_key(), &input, &evaluation, 1));
}

#[test]
fn tampered_output_is_refused() {
    let server = Server::new(vec![0u8]).unwrap();
    let (point, _) = Client::blind(b"some_test_input");
    let input = point.0.decompress().unwrap();
    let evaluation = server.eval(&point, 0, true).unwrap();
    for at in 0..32 {
        let mut bytes = evaluation.output.to_bytes();
        bytes[at] ^= 1;
        let tampered = Evaluation { output: CompressedPoint(bytes), proof: evaluation.proof };
        assert!(!Client::verify(&server.get_public_key(), &input, &tampered, 0));
    }
}

#[test]
fn other_output_is_refused() {
    let server = Server::new(vec![0u8]).unwrap();
    let (point, _) = Client::blind(b"some_test_input");
    let input = point.0.decompress().unwrap();
    let evaluation = server.eval(&point, 0, true).unwrap();
    let other = Client::hash_to_group(b"another_input").compress();
    let swapped = Evaluation { output: other, proof: evaluation.proof };
    assert!(!Client::verify(&server.get_public_key(), &input, &swapped, 0));
}

#[test]
fn proof_of_another_server_is_refused() {
    let server = Server::new(vec![0u8]).unwrap();
    let stranger = Server::new(vec![0u8]).unwrap();
    let (point, _) = Client::blind(b"some_test_input");
    let input = point.0.decompress().unwrap();
    let evaluation = stranger.eval(&point, 0, true).unwrap();
    assert!(!Client::verify(&server.get_public_key(), &input, &evaluation, 0));
}

#[test]
fn public_key_survives_puncturing() {
    let mut server = Server::new(vec![0u8, 1]).unwrap();
    let (point, _) = Client::blind(b"some_test_input");
    let input = point.0.decompress().unwrap();
    let evaluation = server.eval(&point, 1, true).unwrap();
    let key_before = server.get_public_key();
    server.puncture(1).unwrap();
    assert!(Client::verify(&key_before, &input, &evaluation, 1));
    assert!(Client::verify(&server.get_public_key(), &input, &evaluation, 1));
}

#[test]
fn cloned_server_evaluates_alike() {
    let server = Server::new(vec![0u8]).unwrap();
    let copy = server.clone();
    let point = Point(Client::hash_to_group(b"some_test_input").compress());
    assert_eq!(
        server.eval(&point, 0, false).unwrap().output,
        copy.eval(&point, 0, false).unwrap().output
    );
    drop(server);
    assert!(copy.eval(&point, 0, false).is_ok());
}

#[test]
fn duplicate_tags_are_one_tag() {
    let server = Server::new(vec![2u8, 2, 2]).unwrap();
    let (point, _) = Client::blind(b"some_test_input");
    assert!(server.eval(&point, 2, true).is_ok());
    assert!(matches!(server.eval(&point, 0, true), Err(PPRFError::BadTag { md: 0 })));
}
