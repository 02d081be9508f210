//! The wire form of points and evaluations: a compressed point travels as
//! the base64 text of its 32 bytes, a proof as the 64 bytes of its two scalars.

use crate::dleq::{holds_proof, ProofDLEQ};
use crate::error::PPRFError;
use crate::group::CompressedPoint;
use crate::ppoprf::{Evaluation, Point};
use vstd::prelude::*;

verus! {

/// The base64 text, in the standard alphabet and with padding, of a byte string.
pub uninterp spec fn base64_text(bytes: Seq<u8>) -> Seq<char>;

/// The byte string that a text holds in base64, if it is well-formed base64.
pub uninterp spec fn base64_bytes(text: Seq<char>) -> Option<Seq<u8>>;

/// The error with which the base64 crate refuses a malformed text.
#[verifier::external_type_specification]
#[verifier::external_body]
pub struct ExDecodeError(base64::DecodeError);

/// Calls `base64::encode`, which depends on the bytes alone.
#[verifier::external_body]
fn base64_encode(bytes: &[u8; 32]) -> (text: String)
    ensures
        text@ == base64_text(bytes@),
{
    base64::encode(bytes)
}

/// The bytes that a decoding gave, if it gave any.
pub open spec fn decoded_bytes(r: Result<Vec<u8>, base64::DecodeError>) -> Option<Seq<u8>> {
    match r {
        Ok(bytes) => Some(bytes@),
        Err(_) => None,
    }
}

/// Whether `decoded` is right about every text that encoding makes: where
/// `text` is the base64 text of some bytes, `decoded` holds these bytes.
pub open spec fn inverts_encoding(text: Seq<char>, decoded: Option<Seq<u8>>) -> bool {
    forall|bytes: Seq<u8>| text == #[trigger] base64_text(bytes) ==> decoded == Some(bytes)
}

/// Calls `base64::decode`, which depends on the text alone and gives back
/// the bytes of every text that `base64::encode` made.
#[verifier::external_body]
fn base64_decode(text: &str) -> (r: Result<Vec<u8>, base64::DecodeError>)
    ensures
        decoded_bytes(r) == base64_bytes(text@),
        inverts_encoding(text@, decoded_bytes(r)),
{
    base64::decode(text)
}

/// What decoding a text gives: the compressed point of the 32 bytes that it
/// holds, or no point where it is malformed or holds another number of bytes.
pub open spec fn decoded_point(text: Seq<char>) -> Option<Seq<u8>> {
    match base64_bytes(text) {
        Some(bytes) => if bytes.len() == 32 {
            Some(bytes)
        } else {
            None
        },
        None => None,
    }
}

/// The base64 text of a compressed point.
pub fn ristretto_serialize(o: &CompressedPoint) -> (text: String)
    ensures
        text@ == base64_text(o@),
{
    base64_encode(&o.0)
}

/// The compressed point that a base64 text holds. A text that is malformed
/// or holds another number of bytes than 32 gives `SerializationError`; the
/// text of a compressed point gives that point back.
pub fn ristretto_deserialize(text: &str) -> (out: Result<CompressedPoint, PPRFError>)
    ensures
        match out {
            Ok(point) => decoded_point(text@) == Some(point@),
            Err(e) => decoded_point(text@) is None && e == PPRFError::SerializationError,
        },
        forall|point: CompressedPoint|
            text@ == #[trigger] base64_text(point@) ==> out == Ok::<CompressedPoint, PPRFError>(
                point,
            ),
{
    let data = match base64_decode(text) {
        Ok(data) => data,
        Err(_) => {
            return Err(PPRFError::SerializationError);
        },
    };
    let out = CompressedPoint::from_slice(data.as_slice());
    proof {
        assert forall|point: CompressedPoint| text@ == #[trigger] base64_text(point@) implies out
            == Ok::<CompressedPoint, PPRFError>(point) by {
            assert(data@ == point@);
            assert(out matches Ok(made) && made.0 =~= point.0);
        }
    }
    out
}

impl Point {
    /// The point on the wire.
    pub fn encode(&self) -> (text: String)
        ensures
            text@ == base64_text(self@),
    {
        ristretto_serialize(&self.0)
    }

    /// The point that a text on the wire holds; decoding the text of a point
    /// gives the point back.
    pub fn decode(text: &str) -> (out: Result<Point, PPRFError>)
        ensures
            match out {
                Ok(point) => decoded_point(text@) == Some(point@),
                Err(e) => decoded_point(text@) is None && e == PPRFError::SerializationError,
            },
            forall|point: Point|
                text@ == #[trigger] base64_text(point@) ==> out == Ok::<Point, PPRFError>(point),
    {
        match ristretto_deserialize(text) {
            Ok(inner) => {
                assert forall|point: Point| text@ == #[trigger] base64_text(point@) implies Point(
                    inner,
                ) == point by {
                    assert(text@ == base64_text(point.0@));
                }
                Ok(Point(inner))
            },
            Err(e) => Err(e),
        }
    }
}

/// An evaluation on the wire: the base64 text of its output, and the 64
/// bytes of its proof where it has one.
pub struct WireEvaluation {
    pub output: String,
    pub proof: Option<Vec<u8>>,
}

impl Evaluation {
    /// What holds of every evaluation that the library hands out: its proof,
    /// if it has one, holds two scalars below the group order.
    pub open spec fn valid(self) -> bool {
        self.proof matches Some(given) ==> given.valid()
    }

    /// Whether `wire` is this evaluation on the wire.
    pub open spec fn on_wire(self, wire: WireEvaluation) -> bool {
        &&& wire.output@ == base64_text(self.output@)
        &&& match self.proof {
            Some(given) => wire.proof matches Some(bytes) && bytes@ == given.encoding(),
            None => wire.proof is None,
        }
    }

    /// The evaluation on the wire.
    pub fn encode(&self) -> (wire: WireEvaluation)
        ensures
            self.on_wire(wire),
    {
        let output = ristretto_serialize(&self.output);
        let attached = match &self.proof {
            Some(given) => {
                let bytes = given.to_bytes();
                let mut held: Vec<u8> = Vec::new();
                let mut i: usize = 0;
                while i < 64
                    invariant
                        i <= 64,
                        held@ == bytes@.subrange(0, i as int),
                    decreases 64 - i,
                {
                    held.push(bytes[i]);
                    assert(held@ =~= bytes@.subrange(0, i + 1));
                    i += 1;
                }
                assert(bytes@.subrange(0, 64) =~= bytes@);
                Some(held)
            },
            None => None,
        };
        WireEvaluation { output, proof: attached }
    }

    /// The evaluation that `wire` holds, or `SerializationError` where its
    /// output is no base64 text of 32 bytes or its proof is not the encoding
    /// of two scalars. Decoding what `encode` gave gives the evaluation back.
    pub fn decode(wire: &WireEvaluation) -> (out: Result<Evaluation, PPRFError>)
        ensures
            match out {
                Ok(made) => {
                    &&& decoded_point(wire.output@) == Some(made.output@)
                    &&& made.proof is Some <==> wire.proof is Some
                    &&& made.proof matches Some(given) ==> given.encoding() == wire.proof->0@
                    &&& made.valid()
                },
                Err(e) => e == PPRFError::SerializationError,
            },
            out is Ok <==> decoded_point(wire.output@) is Some && (wire.proof matches Some(bytes)
                ==> holds_proof(bytes@)),
            forall|sent: Evaluation| #[trigger]
                sent.on_wire(*wire) && sent.valid() ==> out == Ok::<Evaluation, PPRFError>(sent),
    {
        let output = match ristretto_deserialize(wire.output.as_str()) {
            Ok(output) => output,
            Err(e) => {
                assert forall|sent: Evaluation| #[trigger]
                    sent.on_wire(*wire) && sent.valid() implies false by {
                    assert(wire.output@ == base64_text(sent.output@));
                }
                return Err(e);
            },
        };
        let held = &wire.proof;
        let attached = match held {
            Some(bytes) => match ProofDLEQ::from_bytes(bytes.as_slice()) {
                Ok(given) => Some(given),
                Err(e) => {
                    assert forall|sent: Evaluation| #[trigger]
                        sent.on_wire(*wire) && sent.valid() implies false by {
                        sent.proof->0.lemma_encoding_canonical();
                    }
                    return Err(e);
                },
            },
            None => None,
        };
        let made = Evaluation { output, proof: attached };
        proof {
            assert forall|sent: Evaluation| #[trigger]
                sent.on_wire(*wire) && sent.valid() implies made == sent by {
                assert(wire.output@ == base64_text(sent.output@));
                assert(made.output == sent.output);
                if sent.proof is Some {
                    made.proof->0.lemma_encoding_decides(&sent.proof->0);
                }
            }
        }
        Ok(made)
    }
}

} // verus!
