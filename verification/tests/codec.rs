use ppoprf::codec::{ristretto_deserialize, ristretto_serialize, WireEvaluation};
use ppoprf::error::PPRFError;
use ppoprf::group::CompressedPoint;
use ppoprf::ppoprf::{Client, Evaluation, Point, Server};

#[test]
fn zero_point_has_the_known_text() {
    let text = ristretto_serialize(&CompressedPoint([0u8; 32]));
    assert_eq!(text, "AAAAAAAAAAAAAAAAAAAAAAAAAAAAAAAAAAAAAAAAAAA=");
    let ones = ristretto_serialize(&CompressedPoint([0xff; 32]));
    assert_eq!(ones, "//////////////////////////////////////////8=");
}

#[test]
fn point_text_round_trips() {
    let (point, _) = Client::blind(b"some_test_input");
    let text = point.encode();
    assert_eq!(text.len(), 44);
    assert_eq!(Point::decode(&text), Ok(point));
    assert_eq!(ristretto_deserialize(&ristretto_serialize(&point.0)), Ok(point.0));
}

#[test]
fn known_text_decodes() {
    assert_eq!(
        ristretto_deserialize("AAAAAAAAAAAAAAAAAAAAAAAAAAAAAAAAAAAAAAAAAAA="),
        Ok(CompressedPoint([0u8; 32]))
    );
    let mut bytes = [0u8; 32];
    bytes[0] = 1;
    assert_eq!(
        ristretto_deserialize("AQAAAAAAAAAAAAAAAAAAAAAAAAAAAAAAAAAAAAAAAAA="),
        Ok(CompressedPoint(bytes))
    );
}

#[test]
fn malformed_text_is_refused() {
    assert_eq!(ristretto_deserialize("not base64!"), Err(PPRFError::SerializationError));
    assert_eq!(Point::decode("***"), Err(PPRFError::SerializationError));
}

#[test]
fn text_of_another_length_is_refused() {
    assert_eq!(ristretto_deserialize(""), Err(PPRFError::SerializationError));
    assert_eq!(ristretto_deserialize("AAAA"), Err(PPRFError::SerializationError));
    // 31 and 33 bytes
    assert_eq!(
        ristretto_deserialize("AAAAAAAAAAAAAAAAAAAAAAAAAAAAAAAAAAAAAAAAAA=="),
        Err(PPRFError::SerializationError)
    );
    assert_eq!(
        Point::decode("AAAAAAAAAAAAAAAAAAAAAAAAAAAAAAAAAAAAAAAAAAAA"),
        Err(PPRFError::SerializationError)
    );
}

#[test]
fn evaluation_round_trips_with_and_without_proof() {
    let server = Server::new(vec![0u8]).unwrap();
    let (point, _) = Client::blind(b"some_test_input");
    for verifiable in [false, true] {
        let evaluation = server.eval(&point, 0, verifiable).unwrap();
        let wire = evaluation.encode();
        assert_eq!(wire.proof.is_some(), verifiable);
        assert_eq!(wire.output, ristretto_serialize(&evaluation.output));
        let back = Evaluation::decode(&wire).unwrap();
        assert_eq!(back.output, evaluation.output);
        assert_eq!(
            back.proof.map(|proof| proof.to_bytes()),
            evaluation.proof.map(|proof| proof.to_bytes())
        );
        if verifiable {
            assert_eq!(wire.proof.unwrap(), evaluation.proof.unwrap().to_bytes().to_vec());
            assert!(Client::verify(
                &server.get_public_key(),
                &point.0.decompress().unwrap(),
                &back,
                0
            ));
        }
    }
}

#[test]
fn malformed_evaluation_is_refused() {
    let bad_output = WireEvaluation { output: String::from("AAAA"), proof: None };
    assert!(matches!(Evaluation::decode(&bad_output), Err(PPRFError::SerializationError)));
    let good_output = String::from("AAAAAAAAAAAAAAAAAAAAAAAAAAAAAAAAAAAAAAAAAAA=");
    let short_proof = WireEvaluation { output: good_output.clone(), proof: Some(vec![0u8; 10]) };
    assert!(matches!(Evaluation::decode(&short_proof), Err(PPRFError::SerializationError)));
    let wild_proof = WireEvaluation { output: good_output.clone(), proof: Some(vec![0xff; 64]) };
    assert!(matches!(Evaluation::decode(&wild_proof), Err(PPRFError::SerializationError)));
    let fine = WireEvaluation { output: good_output, proof: Some(vec![0u8; 64]) };
    assert!(Evaluation::decode(&fine).is_ok());
}
